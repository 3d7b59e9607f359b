//! What a garbler computes, and what an evaluator makes of it.
use vstd::prelude::*;

use crate::adapter::{AdapterModel, CircuitAdapter};
use crate::builder::{fold, law_folding_keeps_the_value, GateOperation};
use crate::circuit::{lemma_plan_grows, lemma_plan_run, plan_run, run, scoped, values, Call, Pass};
use crate::gate::{
    evaluated_label, gate_ciphertext, law_evaluation_yields_output_label, GateType,
};
use crate::label::S;
use crate::plan::PINNED;
use crate::streaming::{input_label, StreamModel, Streaming};

verus! {

/// A garbler without a plan, after the first `n` calls.
pub open spec fn unplanned_run(
    delta: S,
    seed: Seq<u8>,
    keep: bool,
    calls: Seq<Call>,
    n: nat,
) -> Pass<StreamModel> {
    run::<Streaming>(StreamModel::initial(delta, seed, None, keep), calls, n)
}

/// What holds of the garbler without a plan at any point: one slot per wire,
/// none released.
pub(crate) proof fn lemma_unplanned(delta: S, seed: Seq<u8>, keep: bool, calls: Seq<Call>, n: nat)
    requires
        scoped(calls),
        n <= calls.len(),
    ensures
        ({
            let p = plan_run(calls, n);
            let u = unplanned_run(delta, seed, keep, calls, n);
            &&& u.wires == p.wires
            &&& u.model.plan is None
            &&& u.model.free.len() == 0
            &&& u.model.label0.len() == p.model.uses.len()
            &&& u.model.value.len() == p.model.uses.len()
            &&& u.model.remaining.len() == p.model.uses.len()
            &&& u.model.created == p.model.uses.len()
            &&& u.model.delta == delta
            &&& u.model.seed == seed
            &&& u.model.keep_ciphertexts == keep
            &&& u.model.tally == p.model.tally
            &&& u.model.non_free == p.model.tally.non_free()
            &&& u.model.ciphertexts.len() == (if keep {
                u.model.non_free
            } else {
                0
            })
            &&& forall|w: int| 0 <= w < p.model.uses.len() ==> #[trigger] u.model.remaining[w]
                == PINNED
            &&& u.model.label0[0] == input_label(seed, 0)
            &&& u.model.label0[1] == input_label(seed, 1)
            &&& !u.model.value[0]
            &&& u.model.value[1]
        }),
    decreases n,
{
    if n > 0 {
        lemma_unplanned(delta, seed, keep, calls, (n - 1) as nat);
        lemma_plan_run(calls, (n - 1) as nat);
        let c = calls[n - 1];
        let u = unplanned_run(delta, seed, keep, calls, (n - 1) as nat);
        if let Call::Gate(g, i, j) = c {
            let (x, y) = (u.wires[i], u.wires[j]);
            if fold(g, x, y) is None {
                assert(u.model.remaining[x] == PINNED && u.model.remaining[y] == PINNED);
                assert(u.model.consumed(x).consumed(y) == u.model);
            }
        }
    }
}

/// In the garbler without a plan every result has the value that the truth
/// tables give it.
pub(crate) proof fn lemma_unplanned_values(delta: S, seed: Seq<u8>, keep: bool, calls: Seq<Call>, n: nat)
    requires
        scoped(calls),
        n <= calls.len(),
    ensures
        values(calls, n).len() == n + 2,
        forall|j: int|
            0 <= j < n + 2 ==> unplanned_run(delta, seed, keep, calls, n).model.value[
                #[trigger] unplanned_run(delta, seed, keep, calls, n).wires[j]
            ] == values(calls, n)[j],
    decreases n,
{
    lemma_unplanned(delta, seed, keep, calls, n);
    if n > 0 {
        let m = (n - 1) as nat;
        lemma_unplanned_values(delta, seed, keep, calls, m);
        lemma_unplanned(delta, seed, keep, calls, m);
        lemma_plan_run(calls, m);
        let u = unplanned_run(delta, seed, keep, calls, m);
        let v = unplanned_run(delta, seed, keep, calls, n);
        if let Call::Gate(g, i, j) = calls[m as int] {
            let (x, y) = (u.wires[i], u.wires[j]);
            if fold(g, x, y) is None {
                assert(u.model.remaining[x] == PINNED && u.model.remaining[y] == PINNED);
            } else {
                law_folding_keeps_the_value(
                    g,
                    x,
                    y,
                    |w: int| u.model.value[w],
                );
            }
        }
        assert forall|j: int| 0 <= j < n + 2 implies v.model.value[#[trigger] v.wires[j]] == values(
            calls,
            n,
        )[j] by {
            if j < m + 2 {
                assert(v.wires[j] == u.wires[j]);
                assert(0 <= plan_run(calls, m).wires[j] < plan_run(calls, m).model.uses.len());
            }
        }
    }
}

/// The labels that an evaluator computes for the results of the first `n`
/// calls. It is given the labels of the constants and of the inputs, the
/// ciphertexts, and the values.
pub open spec fn evaluator_labels(
    calls: Seq<Call>,
    n: nat,
    given: Seq<S>,
    ciphertexts: Seq<S>,
) -> Seq<S>
    decreases n,
{
    if n == 0 {
        seq![given[0], given[1]]
    } else {
        let m = (n - 1) as nat;
        let before = evaluator_labels(calls, m, given, ciphertexts);
        let p = plan_run(calls, m);
        before.push(
            match calls[m as int] {
                Call::Input(_) => given[n as int + 1],
                Call::Gate(g, i, j) => match fold(g, p.wires[i], p.wires[j]) {
                    Some(w) => if w == p.wires[i] {
                        before[i]
                    } else if w == p.wires[j] {
                        before[j]
                    } else {
                        before[w]
                    },
                    None => {
                        let gid = p.model.tally.non_free();
                        evaluated_label(
                            g,
                            values(calls, m)[i],
                            before[i],
                            before[j],
                            ciphertexts[gid as int],
                            gid as u32,
                        )
                    },
                },
            },
        )
    }
}

/// The label of each result of the first `n` calls that goes with its value,
/// in the garbler without a plan.
pub open spec fn held_labels(delta: S, seed: Seq<u8>, calls: Seq<Call>, n: nat) -> Seq<S> {
    let u = unplanned_run(delta, seed, true, calls, n);
    Seq::new(n + 2, |j: int| u.model.held(u.wires[j]))
}

/// In the garbler without a plan nothing that has been put out or stored changes.
proof fn lemma_unplanned_grows(delta: S, seed: Seq<u8>, calls: Seq<Call>, n: nat, to: nat)
    requires
        scoped(calls),
        n <= to <= calls.len(),
    ensures
        ({
            let u = unplanned_run(delta, seed, true, calls, n).model;
            let v = unplanned_run(delta, seed, true, calls, to).model;
            &&& u.ciphertexts.is_prefix_of(v.ciphertexts)
            &&& forall|j: int|
                0 <= j < n + 2 ==> #[trigger] held_labels(delta, seed, calls, n)[j] == held_labels(
                    delta,
                    seed,
                    calls,
                    to,
                )[j]
        }),
    decreases to - n,
{
    if n < to {
        let m = (to - 1) as nat;
        lemma_unplanned_grows(delta, seed, calls, n, m);
        lemma_unplanned(delta, seed, true, calls, m);
        lemma_unplanned(delta, seed, true, calls, to);
        lemma_plan_run(calls, m);
        let u = unplanned_run(delta, seed, true, calls, m);
        let v = unplanned_run(delta, seed, true, calls, to);
        if let Call::Gate(g, i, j) = calls[m as int] {
            let (x, y) = (u.wires[i], u.wires[j]);
            if fold(g, x, y) is None {
                assert(u.model.remaining[x] == PINNED && u.model.remaining[y] == PINNED);
                assert(u.model.consumed(x).consumed(y) == u.model);
            }
        }
        assert forall|j: int| 0 <= j < m + 2 implies #[trigger] held_labels(delta, seed, calls, m)[j]
            == held_labels(delta, seed, calls, to)[j] by {
            assert(v.wires[j] == u.wires[j]);
            assert(0 <= plan_run(calls, m).wires[j] < plan_run(calls, m).model.uses.len());
        }
    } else {
        let u = unplanned_run(delta, seed, true, calls, n).model;
        assert(u.ciphertexts.is_prefix_of(u.ciphertexts));
    }
}

/// The correctness of the garbling: an evaluator that is given the labels of
/// the constants' and the inputs' values computes, from the ciphertexts, the
/// label of every result's value.
pub proof fn law_evaluator_computes_held_labels(
    delta: S,
    seed: Seq<u8>,
    calls: Seq<Call>,
    n: nat,
    given: Seq<S>,
)
    requires
        scoped(calls),
        n <= calls.len(),
        given.len() == calls.len() + 2,
        given[0] == held_labels(delta, seed, calls, calls.len())[0],
        given[1] == held_labels(delta, seed, calls, calls.len())[1],
        forall|m: int|
            0 <= m < calls.len() && #[trigger] calls[m] is Input ==> given[m + 2] == held_labels(
                delta,
                seed,
                calls,
                calls.len(),
            )[m + 2],
    ensures
        evaluator_labels(
            calls,
            n,
            given,
            unplanned_run(delta, seed, true, calls, calls.len()).model.ciphertexts,
        ) == held_labels(delta, seed, calls, n),
    decreases n,
{
    let last = unplanned_run(delta, seed, true, calls, calls.len()).model;
    lemma_unplanned_grows(delta, seed, calls, n, calls.len());
    let labels = evaluator_labels(calls, n, given, last.ciphertexts);
    if n == 0 {
        assert(held_labels(delta, seed, calls, 0)[0] == given[0]);
        assert(held_labels(delta, seed, calls, 0)[1] == given[1]);
    } else {
        let m = (n - 1) as nat;
        law_evaluator_computes_held_labels(delta, seed, calls, m, given);
        lemma_unplanned_grows(delta, seed, calls, m, n);
        lemma_unplanned(delta, seed, true, calls, m);
        lemma_unplanned(delta, seed, true, calls, n);
        lemma_unplanned_values(delta, seed, true, calls, m);
        lemma_plan_run(calls, m);
        let u = unplanned_run(delta, seed, true, calls, m);
        let v = unplanned_run(delta, seed, true, calls, n);
        let before = evaluator_labels(calls, m, given, last.ciphertexts);
        assert forall|j: int| 0 <= j < n + 2 implies labels[j] == #[trigger] held_labels(
            delta,
            seed,
            calls,
            n,
        )[j] by {
            if j < m + 2 {
                assert(held_labels(delta, seed, calls, m)[j] == held_labels(delta, seed, calls, n)[j]);
            } else {
                match calls[m as int] {
                    Call::Input(value) => {},
                    Call::Gate(g, a, b) => {
                        let (x, y) = (u.wires[a], u.wires[b]);
                        assert(before[a] == u.model.held(x));
                        assert(before[b] == u.model.held(y));
                        assert(before[0] == u.model.held(0));
                        assert(before[1] == u.model.held(1));
                        if fold(g, x, y) is None {
                            assert(u.model.remaining[x] == PINNED && u.model.remaining[y]
                                == PINNED);
                            assert(u.model.consumed(x).consumed(y) == u.model);
                            let gid = u.model.non_free;
                            law_evaluation_yields_output_label(
                                g,
                                u.model.label0[x],
                                u.model.label0[y],
                                u.model.value[x],
                                u.model.value[y],
                                gid as u32,
                                delta,
                            );
                            assert(u.model.value[u.wires[a]] == values(calls, m)[a]);
                            if !g.is_free() {
                                assert(v.model.ciphertexts[gid as int]
                                    == gate_ciphertext(
                                    g,
                                    u.model.label0[x],
                                    u.model.label0[y],
                                    gid as u32,
                                    delta,
                                ));
                                assert(last.ciphertexts[gid as int] == v.model.ciphertexts[gid as int]);
                            }
                        }
                    },
                }
            }
        }
    }
    assert(labels =~= held_labels(delta, seed, calls, n));
}

/// The builder that keeps every gate in memory, after the first `n` calls.
pub open spec fn adapter_run(calls: Seq<Call>, n: nat) -> Pass<AdapterModel> {
    run::<CircuitAdapter>(AdapterModel::initial(), calls, n)
}

/// The backends emit the same circuit, with the same counts: the garbler
/// without a plan numbers every result as the builder does that keeps the
/// gates, both count the same gates, which are those in memory, and each of
/// these holds between the garbler's values.
pub proof fn law_backends_emit_the_same_circuit(
    delta: S,
    seed: Seq<u8>,
    keep: bool,
    calls: Seq<Call>,
    n: nat,
)
    requires
        scoped(calls),
        n <= calls.len(),
        plan_run(calls, n).model.uses.len() <= usize::MAX,
    ensures
        ({
            let a = adapter_run(calls, n);
            let u = unplanned_run(delta, seed, keep, calls, n);
            &&& a.wires == u.wires
            &&& a.model.wires == u.model.created
            &&& a.model.tally == u.model.tally
            &&& a.model.gates.len() == u.model.tally.total()
            &&& forall|k: int|
                0 <= k < a.model.gates.len() ==> ({
                    let gate = #[trigger] a.model.gates[k];
                    &&& gate.x < u.model.created
                    &&& gate.y < u.model.created
                    &&& gate.out < u.model.created
                    &&& u.model.value[gate.out as int] == gate.gate_type.apply(
                        u.model.value[gate.x as int],
                        u.model.value[gate.y as int],
                    )
                })
        }),
    decreases n,
{
    if n > 0 {
        let m = (n - 1) as nat;
        lemma_plan_grows(calls, m, n);
        law_backends_emit_the_same_circuit(delta, seed, keep, calls, m);
        lemma_unplanned(delta, seed, keep, calls, m);
        lemma_plan_run(calls, m);
        let u = unplanned_run(delta, seed, keep, calls, m);
        if let Call::Gate(g, i, j) = calls[m as int] {
            let (x, y) = (u.wires[i], u.wires[j]);
            if fold(g, x, y) is None {
                assert(u.model.remaining[x] == PINNED && u.model.remaining[y] == PINNED);
                assert(u.model.consumed(x).consumed(y) == u.model);
            }
        }
    }
}

/// The counts of the builder that keeps the gates are those of the gates that it
/// keeps, kind by kind.
pub proof fn law_tallies_count_the_gates_in_memory(calls: Seq<Call>, n: nat, kind: GateType)
    ensures
        adapter_run(calls, n).model.gates.filter(
            |gate: GateOperation| gate.gate_type == kind,
        ).len() == match kind {
            GateType::And => adapter_run(calls, n).model.tally.and,
            GateType::Or => adapter_run(calls, n).model.tally.or,
            GateType::Xor => adapter_run(calls, n).model.tally.xor,
        },
    decreases n,
{
    reveal(Seq::filter);
    if n > 0 {
        let m = (n - 1) as nat;
        law_tallies_count_the_gates_in_memory(calls, m, kind);
        let before = adapter_run(calls, m).model;
        let after = adapter_run(calls, n).model;
        if after.gates.len() > 0 && after.gates != before.gates {
            assert(after.gates.drop_last() =~= before.gates);
        }
    }
}

} // verus!
