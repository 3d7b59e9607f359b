//! Whole builds, and the first pass over them.
//!
//! A build is a list of calls on a builder. The same build can be run on any
//! builder: a plan first, and then the garbler that was given the plan.
use vstd::prelude::*;

use crate::builder::{can_gate, fold, gate_step, CircuitModel, ValuedBuilder};
use crate::gate::GateType;
use crate::plan::{Plan, PlanModel, PINNED};

verus! {

/// One call of a build. Operands are results of earlier calls: result 0 is the
/// constant false, result 1 the constant true, and result `n + 2` is what call
/// `n` returned.
pub enum Call {
    /// A fresh wire, and at once its value.
    Input(bool),
    /// A gate on two earlier results.
    Gate(GateType, int, int),
}

/// A builder after some calls, and the results so far.
#[verifier::ext_equal]
pub struct Pass<M> {
    pub model: M,
    pub wires: Seq<int>,
}

/// One more call.
pub open spec fn step<B: ValuedBuilder>(pass: Pass<B::Model>, call: Call) -> Pass<B::Model> {
    match call {
        Call::Input(value) => {
            let (m, wire) = B::fresh_step(pass.model);
            Pass { model: B::input_step(m, wire, value), wires: pass.wires.push(wire) }
        },
        Call::Gate(gate_type, i, j) => {
            let (m, wire) = gate_step::<B>(pass.model, gate_type, pass.wires[i], pass.wires[j]);
            Pass { model: m, wires: pass.wires.push(wire) }
        },
    }
}

/// Whether the builder takes the next call.
pub open spec fn takes<B: ValuedBuilder>(pass: Pass<B::Model>, call: Call) -> bool {
    match call {
        Call::Input(value) => {
            let (m, wire) = B::fresh_step(pass.model);
            B::can_fresh(pass.model) && B::can_set(m, wire)
        },
        Call::Gate(gate_type, i, j) => can_gate::<B>(
            pass.model,
            gate_type,
            pass.wires[i],
            pass.wires[j],
        ),
    }
}

/// A builder that starts as `m`, after the first `n` calls.
pub open spec fn run<B: ValuedBuilder>(m: B::Model, calls: Seq<Call>, n: nat) -> Pass<B::Model>
    decreases n,
{
    if n == 0 {
        Pass { model: m, wires: seq![0, 1] }
    } else {
        step::<B>(run::<B>(m, calls, (n - 1) as nat), calls[n - 1])
    }
}

/// The builder that starts as `m` takes every call.
pub open spec fn accepted<B: ValuedBuilder>(m: B::Model, calls: Seq<Call>) -> bool {
    forall|n: nat| n < calls.len() ==> takes::<B>(#[trigger] run::<B>(m, calls, n), calls[n as int])
}

/// Every operand is the result of an earlier call.
pub open spec fn scoped(calls: Seq<Call>) -> bool {
    forall|n: int|
        0 <= n < calls.len() ==> (#[trigger] calls[n] matches Call::Gate(_, i, j) ==> 0 <= i < n + 2
            && 0 <= j < n + 2)
}

/// The value of each result of the first `n` calls, by the truth tables alone.
pub open spec fn values(calls: Seq<Call>, n: nat) -> Seq<bool>
    decreases n,
{
    if n == 0 {
        seq![false, true]
    } else {
        let before = values(calls, (n - 1) as nat);
        before.push(
            match calls[n - 1] {
                Call::Input(value) => value,
                Call::Gate(gate_type, i, j) => gate_type.apply(before[i], before[j]),
            },
        )
    }
}

/// The first pass over a build.
pub open spec fn plan_run(calls: Seq<Call>, n: nat) -> Pass<PlanModel> {
    run::<Plan>(PlanModel::initial(), calls, n)
}

/// The use counts of the whole build.
pub open spec fn plan_of(calls: Seq<Call>) -> PlanModel {
    plan_run(calls, calls.len()).model
}

/// `uses` is the plan's count for every wire that is not pinned: what
/// `Plan::keep` leaves of a plan.
pub open spec fn covers(uses: Seq<u8>, plan: PlanModel) -> bool {
    &&& uses.len() == plan.uses.len()
    &&& forall|w: int|
        0 <= w < uses.len() ==> #[trigger] uses[w] == plan.uses[w] || uses[w] == PINNED
}

/// A plan covers itself, and still does with one more wire pinned.
pub proof fn law_keeping_covers(kept: PlanModel, plan: PlanModel, wire: int)
    requires
        covers(kept.uses, plan),
        0 <= wire < kept.uses.len(),
    ensures
        covers(kept.kept(wire).uses, plan),
        covers(plan.uses, plan),
{
}

/// What holds of the first pass at any point.
pub(crate) proof fn lemma_plan_run(calls: Seq<Call>, n: nat)
    requires
        scoped(calls),
        n <= calls.len(),
    ensures
        plan_run(calls, n).wires.len() == n + 2,
        plan_run(calls, n).wires[0] == 0,
        plan_run(calls, n).wires[1] == 1,
        forall|j: int|
            0 <= j < n + 2 ==> 0 <= #[trigger] plan_run(calls, n).wires[j] < plan_run(
                calls,
                n,
            ).model.uses.len(),
        2 <= plan_run(calls, n).model.uses.len() <= n + 2,
        plan_run(calls, n).model.uses[0] == PINNED,
        plan_run(calls, n).model.uses[1] == PINNED,
        plan_run(calls, n).model.tally.total() + 2 <= plan_run(calls, n).model.uses.len(),
    decreases n,
{
    if n > 0 {
        lemma_plan_run(calls, (n - 1) as nat);
        // The operands of the last call are earlier results.
        let last = calls[n - 1];
    }
}

/// Use counts, and the number of wires, only grow.
pub(crate) proof fn lemma_plan_grows(calls: Seq<Call>, n: nat, to: nat)
    requires
        scoped(calls),
        n <= to <= calls.len(),
    ensures
        plan_run(calls, n).model.uses.len() <= plan_run(calls, to).model.uses.len(),
        forall|w: int|
            0 <= w < plan_run(calls, n).model.uses.len() ==> #[trigger] plan_run(
                calls,
                n,
            ).model.uses[w] <= plan_run(calls, to).model.uses[w],
        plan_run(calls, n).model.tally.non_free() <= plan_run(calls, to).model.tally.non_free(),
    decreases to - n,
{
    if n < to {
        lemma_plan_grows(calls, n, (to - 1) as nat);
        lemma_plan_run(calls, (to - 1) as nat);
        // The operands of the last call are earlier results.
        let last = calls[to - 1];
    }
}

/// How often the gates of the first `n` calls that are not folded read wire `w`.
pub open spec fn reads(calls: Seq<Call>, n: nat, w: int) -> nat
    decreases n,
{
    if n == 0 {
        0
    } else {
        let before = reads(calls, (n - 1) as nat, w);
        match calls[n - 1] {
            Call::Input(_) => before,
            Call::Gate(g, i, j) => {
                let wires = plan_run(calls, (n - 1) as nat).wires;
                if fold(g, wires[i], wires[j]) is None && (wires[i] == w || wires[j] == w) {
                    before + 1
                } else {
                    before
                }
            },
        }
    }
}

/// A plan counts the reads of every wire, up to `PINNED`: a wire that is read
/// 255 times or more is pinned, and so are the constants.
pub proof fn law_plan_counts_reads(calls: Seq<Call>, n: nat, w: int)
    requires
        scoped(calls),
        n <= calls.len(),
        0 <= w < plan_run(calls, n).model.uses.len(),
    ensures
        plan_run(calls, n).model.uses[w] == (if w < 2 || reads(calls, n, w) >= PINNED {
            PINNED as nat
        } else {
            reads(calls, n, w)
        }),
    decreases n,
{
    if n > 0 {
        let m = (n - 1) as nat;
        lemma_plan_run(calls, m);
        let before = plan_run(calls, m).model.uses.len();
        if w < before {
            law_plan_counts_reads(calls, m, w);
        } else {
            lemma_no_reads_of_later_wires(calls, m, w);
        }
    }
}

/// Nothing reads a wire before it is created.
proof fn lemma_no_reads_of_later_wires(calls: Seq<Call>, n: nat, w: int)
    requires
        scoped(calls),
        n <= calls.len(),
        w >= plan_run(calls, n).model.uses.len(),
    ensures
        reads(calls, n, w) == 0,
    decreases n,
{
    if n > 0 {
        let m = (n - 1) as nat;
        lemma_plan_run(calls, m);
        lemma_plan_grows(calls, m, n);
        lemma_no_reads_of_later_wires(calls, m, w);
    }
}

/// How many of the numbers below `n + 1` satisfy `f`, by those below `n`.
proof fn lemma_count(f: spec_fn(int) -> bool, n: nat)
    ensures
        Set::new(|k: int| 0 <= k < n && f(k)).finite(),
        Set::new(|k: int| 0 <= k < n + 1 && f(k)).len() == Set::new(
            |k: int| 0 <= k < n && f(k),
        ).len() + if f(n as int) {
            1nat
        } else {
            0
        },
{
    let below = Set::new(|k: int| 0 <= k < n && f(k));
    let upto = Set::new(|k: int| 0 <= k < n + 1 && f(k));
    let range = vstd::set_lib::set_int_range(0, n as int);
    vstd::set_lib::lemma_int_range(0, n as int);
    vstd::set_lib::lemma_set_subset_finite(range, below);
    if f(n as int) {
        assert(upto =~= below.insert(n as int));
    } else {
        assert(upto =~= below);
    }
}

/// The gates of each kind are counted: the tally of a kind is the number of
/// calls with a gate of that kind that is not folded.
pub proof fn law_tallies_count_the_gates_of_a_kind(calls: Seq<Call>, n: nat, kind: GateType)
    ensures
        Set::new(
            |k: int|
                0 <= k < n && (calls[k] matches Call::Gate(g, i, j) && g == kind && fold(
                    g,
                    plan_run(calls, k as nat).wires[i],
                    plan_run(calls, k as nat).wires[j],
                ) is None),
        ).len() == match kind {
            GateType::And => plan_run(calls, n).model.tally.and,
            GateType::Or => plan_run(calls, n).model.tally.or,
            GateType::Xor => plan_run(calls, n).model.tally.xor,
        },
    decreases n,
{
    let f = |k: int|
        calls[k] matches Call::Gate(g, i, j) && g == kind && fold(
            g,
            plan_run(calls, k as nat).wires[i],
            plan_run(calls, k as nat).wires[j],
        ) is None;
    let counted = Set::new(
        |k: int|
            0 <= k < n && (calls[k] matches Call::Gate(g, i, j) && g == kind && fold(
                g,
                plan_run(calls, k as nat).wires[i],
                plan_run(calls, k as nat).wires[j],
            ) is None),
    );
    assert(counted =~= Set::new(|k: int| 0 <= k < n && f(k)));
    if n > 0 {
        let m = (n - 1) as nat;
        law_tallies_count_the_gates_of_a_kind(calls, m, kind);
        assert(Set::new(
            |k: int|
                0 <= k < m && (calls[k] matches Call::Gate(g, i, j) && g == kind && fold(
                    g,
                    plan_run(calls, k as nat).wires[i],
                    plan_run(calls, k as nat).wires[j],
                ) is None),
        ) =~= Set::new(|k: int| 0 <= k < m && f(k)));
        lemma_count(f, m);
        assert(Set::new(|k: int| 0 <= k < m + 1 && f(k)) =~= counted);
    } else {
        assert(counted =~= Set::empty());
    }
}

/// The use count of a wire is the number of gates, not counting those that are
/// folded, that read it, up to 255; the constants count as used 255 times.
pub proof fn law_uses_count_the_gates_that_read(calls: Seq<Call>, n: nat, w: int)
    requires
        scoped(calls),
        n <= calls.len(),
        0 <= w < plan_run(calls, n).model.uses.len(),
    ensures
        ({
            let read = Set::new(
                |k: int|
                    0 <= k < n && (calls[k] matches Call::Gate(g, i, j) && fold(
                        g,
                        plan_run(calls, k as nat).wires[i],
                        plan_run(calls, k as nat).wires[j],
                    ) is None && (plan_run(calls, k as nat).wires[i] == w || plan_run(
                        calls,
                        k as nat,
                    ).wires[j] == w)),
            );
            plan_run(calls, n).model.uses[w] == if w < 2 || read.len() >= 255 {
                255
            } else {
                read.len() as int
            }
        }),
{
    law_plan_counts_reads(calls, n, w);
    lemma_reads_are_counted(calls, n, w);
}

proof fn lemma_reads_are_counted(calls: Seq<Call>, n: nat, w: int)
    ensures
        Set::new(
            |k: int|
                0 <= k < n && (calls[k] matches Call::Gate(g, i, j) && fold(
                    g,
                    plan_run(calls, k as nat).wires[i],
                    plan_run(calls, k as nat).wires[j],
                ) is None && (plan_run(calls, k as nat).wires[i] == w || plan_run(
                    calls,
                    k as nat,
                ).wires[j] == w)),
        ).len() == reads(calls, n, w),
    decreases n,
{
    let f = |k: int|
        calls[k] matches Call::Gate(g, i, j) && fold(
            g,
            plan_run(calls, k as nat).wires[i],
            plan_run(calls, k as nat).wires[j],
        ) is None && (plan_run(calls, k as nat).wires[i] == w || plan_run(
            calls,
            k as nat,
        ).wires[j] == w);
    let counted = Set::new(
        |k: int|
            0 <= k < n && (calls[k] matches Call::Gate(g, i, j) && fold(
                g,
                plan_run(calls, k as nat).wires[i],
                plan_run(calls, k as nat).wires[j],
            ) is None && (plan_run(calls, k as nat).wires[i] == w || plan_run(
                calls,
                k as nat,
            ).wires[j] == w)),
    );
    assert(counted =~= Set::new(|k: int| 0 <= k < n && f(k)));
    if n > 0 {
        let m = (n - 1) as nat;
        lemma_reads_are_counted(calls, m, w);
        assert(Set::new(
            |k: int|
                0 <= k < m && (calls[k] matches Call::Gate(g, i, j) && fold(
                    g,
                    plan_run(calls, k as nat).wires[i],
                    plan_run(calls, k as nat).wires[j],
                ) is None && (plan_run(calls, k as nat).wires[i] == w || plan_run(
                    calls,
                    k as nat,
                ).wires[j] == w)),
        ) =~= Set::new(|k: int| 0 <= k < m && f(k)));
        lemma_count(f, m);
        assert(Set::new(|k: int| 0 <= k < m + 1 && f(k)) =~= counted);
    } else {
        assert(counted =~= Set::empty());
    }
}

/// The wires of a build are the two constants, its inputs and its gates that are
/// not folded.
pub proof fn law_wires_are_inputs_and_gates(calls: Seq<Call>, n: nat)
    requires
        scoped(calls),
        n <= calls.len(),
    ensures
        ({
            let inputs = Set::new(|k: int| 0 <= k < n && calls[k] is Input);
            let tally = plan_run(calls, n).model.tally;
            plan_run(calls, n).model.uses.len() == 2 + inputs.len() + tally.and + tally.or
                + tally.xor
        }),
    decreases n,
{
    let f = |k: int| calls[k] is Input;
    let inputs = Set::new(|k: int| 0 <= k < n && calls[k] is Input);
    assert(inputs =~= Set::new(|k: int| 0 <= k < n && f(k)));
    if n > 0 {
        let m = (n - 1) as nat;
        law_wires_are_inputs_and_gates(calls, m);
        lemma_plan_run(calls, m);
        let call = calls[m as int];
        assert(Set::new(|k: int| 0 <= k < m && calls[k] is Input) =~= Set::new(
            |k: int| 0 <= k < m && f(k),
        ));
        lemma_count(f, m);
        assert(Set::new(|k: int| 0 <= k < m + 1 && f(k)) =~= inputs);
    } else {
        assert(inputs =~= Set::empty());
    }
}

/// The values of a build: the constants are false and true, an input has the
/// value it is given, and a gate has that of its truth table, folded or not.
pub proof fn law_values_are_those_of_the_truth_tables(calls: Seq<Call>, n: nat, k: nat)
    requires
        scoped(calls),
        k < n <= calls.len(),
    ensures
        ({
            let v = values(calls, n);
            &&& v.len() == n + 2
            &&& !v[0]
            &&& v[1]
            &&& match calls[k as int] {
                Call::Input(value) => v[k as int + 2] == value,
                Call::Gate(GateType::And, i, j) => v[k as int + 2] == (v[i] && v[j]),
                Call::Gate(GateType::Or, i, j) => v[k as int + 2] == (v[i] || v[j]),
                Call::Gate(GateType::Xor, i, j) => v[k as int + 2] == (v[i] != v[j]),
            }
        }),
    decreases n,
{
    let m = (n - 1) as nat;
    let call = calls[k as int];
    lemma_values_shape(calls, m);
    if k < m {
        law_values_are_those_of_the_truth_tables(calls, m, k);
    }
}

proof fn lemma_values_shape(calls: Seq<Call>, n: nat)
    ensures
        values(calls, n).len() == n + 2,
        !values(calls, n)[0],
        values(calls, n)[1],
    decreases n,
{
    if n > 0 {
        lemma_values_shape(calls, (n - 1) as nat);
    }
}

} // verus!
