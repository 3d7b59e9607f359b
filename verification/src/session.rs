//! Any calls on a builder, in any order, and what holds of a garbler throughout.
//!
//! A session differs from a build of [`circuit`](crate::circuit) in two ways: an
//! input wire gets its value by a call of its own, whenever that comes, and a
//! garbler's plan need not be that of the session.
use vstd::prelude::*;

use crate::builder::{can_gate, fold, fresh_steps, gate_step, ValuedBuilder};
use crate::circuit::Pass;
use crate::gate::GateType;
use crate::plan::PINNED;
use crate::streaming::{
    input_label, law_a_new_wire_takes_no_held_slot, lemma_consumed_valid, lemma_emit_valid,
    lemma_placed_valid, planned_uses, StreamModel, Streaming,
};

verus! {

/// One call of a session. Operands are results of earlier calls: result 0 is
/// the constant false, result 1 the constant true, and result `n + 2` belongs
/// to call `n`. `Assign` returns nothing; its result stands for the constant false.
pub enum Act {
    /// A fresh wire.
    Fresh,
    /// The value of an earlier result's wire.
    Assign(int, bool),
    /// A gate on two earlier results.
    Gate(GateType, int, int),
}

/// One more call.
pub open spec fn act_step<B: ValuedBuilder>(pass: Pass<B::Model>, act: Act) -> Pass<B::Model> {
    match act {
        Act::Fresh => {
            let (m, wire) = B::fresh_step(pass.model);
            Pass { model: m, wires: pass.wires.push(wire) }
        },
        Act::Assign(i, value) => Pass {
            model: B::input_step(pass.model, pass.wires[i], value),
            wires: pass.wires.push(0),
        },
        Act::Gate(gate_type, i, j) => {
            let (m, wire) = gate_step::<B>(pass.model, gate_type, pass.wires[i], pass.wires[j]);
            Pass { model: m, wires: pass.wires.push(wire) }
        },
    }
}

/// Whether the builder takes the next call.
pub open spec fn admits<B: ValuedBuilder>(pass: Pass<B::Model>, act: Act) -> bool {
    match act {
        Act::Fresh => B::can_fresh(pass.model),
        Act::Assign(i, _) => B::can_set(pass.model, pass.wires[i]),
        Act::Gate(gate_type, i, j) => can_gate::<B>(
            pass.model,
            gate_type,
            pass.wires[i],
            pass.wires[j],
        ),
    }
}

/// A builder that starts as `m`, after the first `n` calls.
pub open spec fn session<B: ValuedBuilder>(m: B::Model, acts: Seq<Act>, n: nat) -> Pass<B::Model>
    decreases n,
{
    if n == 0 {
        Pass { model: m, wires: seq![0, 1] }
    } else {
        act_step::<B>(session::<B>(m, acts, (n - 1) as nat), acts[n - 1])
    }
}

/// The builder that starts as `m` takes every call.
pub open spec fn admitted<B: ValuedBuilder>(m: B::Model, acts: Seq<Act>) -> bool {
    forall|n: nat| n < acts.len() ==> admits::<B>(#[trigger] session::<B>(m, acts, n), acts[n as int])
}

/// Every operand is the result of an earlier call.
pub open spec fn in_scope(acts: Seq<Act>) -> bool {
    forall|n: int|
        0 <= n < acts.len() ==> match #[trigger] acts[n] {
            Act::Fresh => true,
            Act::Assign(i, _) => 0 <= i < n + 2,
            Act::Gate(_, i, j) => 0 <= i < n + 2 && 0 <= j < n + 2,
        }
}

/// `n` fresh wires at once are `n` fresh wires one by one.
pub proof fn law_fresh_wires_come_one_by_one<B: ValuedBuilder>(
    m: B::Model,
    acts: Seq<Act>,
    k: nat,
    n: nat,
)
    requires
        k + n <= acts.len(),
        forall|i: int| k <= i < k + n ==> #[trigger] acts[i] is Fresh,
    ensures
        session::<B>(m, acts, k + n) == (Pass::<B::Model> {
            model: fresh_steps::<B>(session::<B>(m, acts, k).model, n).0,
            wires: session::<B>(m, acts, k).wires + fresh_steps::<B>(
                session::<B>(m, acts, k).model,
                n,
            ).1,
        }),
    decreases n,
{
    let at = session::<B>(m, acts, k);
    if n > 0 {
        let l = (n - 1) as nat;
        law_fresh_wires_come_one_by_one::<B>(m, acts, k, l);
        assert(acts[k + n - 1] is Fresh);
        let before = fresh_steps::<B>(at.model, l);
        let wire = B::fresh_step(before.0).1;
        assert((at.wires + before.1).push(wire) =~= at.wires + before.1.push(wire));
    } else {
        assert(at.wires + Seq::<int>::empty() =~= at.wires);
    }
}

/// A garbler that has just been made, with a plan or without.
pub open spec fn is_new(m: StreamModel) -> bool {
    &&& m == StreamModel::initial(m.delta, m.seed, m.plan, m.keep_ciphertexts)
    &&& m.seed.len() == 32
    &&& m.plan matches Some(uses) ==> uses.len() >= 2 && uses[0] == PINNED && uses[1] == PINNED
}

/// A garbler that starts as `new`, after the first `n` calls.
pub open spec fn garbler(new: StreamModel, acts: Seq<Act>, n: nat) -> Pass<StreamModel> {
    session::<Streaming>(new, acts, n)
}

/// Whether the call creates a wire: a fresh one, or the output of a gate that is
/// not folded.
pub open spec fn creates(pass: Pass<StreamModel>, act: Act) -> bool {
    match act {
        Act::Fresh => true,
        Act::Assign(..) => false,
        Act::Gate(gate_type, i, j) => fold(gate_type, pass.wires[i], pass.wires[j]) is None,
    }
}

/// Whether the call makes the last planned read of the wire in slot `slot`.
pub open spec fn releases(pass: Pass<StreamModel>, act: Act, slot: int) -> bool {
    &&& creates(pass, act)
    &&& act matches Act::Gate(_, i, j) && (pass.wires[i] == slot || pass.wires[j] == slot)
    &&& pass.model.remaining[slot] == 1
}

/// Whether call `k` has created a wire that is still held after the first `n`
/// calls: none of them has made the last planned read of it.
pub open spec fn still_held(new: StreamModel, acts: Seq<Act>, k: nat, n: nat) -> bool {
    &&& k < n
    &&& creates(garbler(new, acts, k), acts[k as int])
    &&& forall|t: nat|
        k < t < n ==> !releases(
            #[trigger] garbler(new, acts, t),
            acts[t as int],
            garbler(new, acts, t).wires[k as int + 2],
        )
}

/// One call of a garbler.
proof fn lemma_act(pass: Pass<StreamModel>, act: Act)
    requires
        pass.model.valid(),
        admits::<Streaming>(pass, act),
    ensures
        ({
            let next = act_step::<Streaming>(pass, act).model;
            &&& next.valid()
            &&& next.delta == pass.model.delta
            &&& next.seed == pass.model.seed
            &&& next.plan == pass.model.plan
            &&& next.keep_ciphertexts == pass.model.keep_ciphertexts
            &&& pass.model.ciphertexts.is_prefix_of(next.ciphertexts)
        }),
{
    let m = pass.model;
    match act {
        Act::Fresh => {
            lemma_placed_valid(m, false, input_label(m.seed, m.created));
        },
        Act::Assign(i, value) => {},
        Act::Gate(g, i, j) => {
            let (x, y) = (pass.wires[i], pass.wires[j]);
            if fold(g, x, y) is None {
                lemma_emit_valid(m, g, x, y);
            }
        },
    }
}

/// One call of a garbler, as seen from a slot that is not free.
proof fn lemma_act_on_slot(pass: Pass<StreamModel>, act: Act, slot: int)
    requires
        pass.model.valid(),
        admits::<Streaming>(pass, act),
        0 <= slot < pass.model.slots(),
        !pass.model.free.contains(slot),
        !releases(pass, act, slot),
    ensures
        ({
            let next = act_step::<Streaming>(pass, act);
            &&& slot < next.model.slots()
            &&& !next.model.free.contains(slot)
            &&& next.model.label0[slot] == pass.model.label0[slot]
            &&& pass.model.remaining[slot] == PINNED ==> next.model.remaining[slot] == PINNED
            &&& creates(pass, act) ==> next.wires.last() != slot
        }),
{
    let m = pass.model;
    match act {
        Act::Fresh => {
            law_a_new_wire_takes_no_held_slot(m, false, input_label(m.seed, m.created));
        },
        Act::Assign(i, value) => {},
        Act::Gate(g, i, j) => {
            let (x, y) = (pass.wires[i], pass.wires[j]);
            if fold(g, x, y) is None {
                let gid = m.non_free as u32;
                let value = g.apply(m.value[x], m.value[y]);
                let label = crate::gate::output_label(g, m.label0[x], m.label0[y], gid, m.delta);
                lemma_consumed_valid(m, x);
                lemma_consumed_valid(m.consumed(x), y);
                lemma_read_on_slot(m, x, slot);
                lemma_read_on_slot(m.consumed(x), y, slot);
                law_a_new_wire_takes_no_held_slot(m.consumed(x).consumed(y), value, label);
            }
        },
    }
}

/// One read, as seen from a slot that it does not release.
proof fn lemma_read_on_slot(m: StreamModel, x: int, slot: int)
    requires
        m.valid(),
        m.can_read(x),
        0 <= slot < m.slots(),
        !m.free.contains(slot),
        x == slot ==> m.remaining[slot] != 1,
    ensures
        !m.consumed(x).free.contains(slot),
        x != slot ==> m.consumed(x).remaining[slot] == m.remaining[slot],
        m.remaining[slot] == PINNED ==> m.consumed(x).remaining[slot] == PINNED,
{
    let next = m.consumed(x);
    if next.free.contains(slot) {
        let i = choose|i: int| 0 <= i < next.free.len() && next.free[i] == slot;
        if i < m.free.len() {
            assert(m.free[i] == slot);
        }
    }
}

/// A garbler stays valid, whatever calls it takes. In particular, at any time
/// the non-free gates are the AND and OR gates counted, and there is a
/// ciphertext for each of them when ciphertexts are kept, and none otherwise.
/// The secrets and the plan stay, and so do the ciphertexts put out before.
pub proof fn law_calls_keep_a_garbler_valid(new: StreamModel, acts: Seq<Act>, k: nat, n: nat)
    requires
        is_new(new),
        in_scope(acts),
        admitted::<Streaming>(new, acts),
        k <= n <= acts.len(),
    ensures
        ({
            let before = garbler(new, acts, k).model;
            let m = garbler(new, acts, n).model;
            &&& m.valid()
            &&& m.non_free == m.tally.and + m.tally.or
            &&& m.ciphertexts.len() == if new.keep_ciphertexts {
                m.non_free
            } else {
                0
            }
            &&& m.delta == new.delta
            &&& m.seed == new.seed
            &&& m.plan == new.plan
            &&& m.keep_ciphertexts == new.keep_ciphertexts
            &&& before.ciphertexts.is_prefix_of(m.ciphertexts)
        }),
    decreases n,
{
    if n == 0 {
    } else {
        let m = (n - 1) as nat;
        let k2 = if k < n {
            k
        } else {
            m
        };
        law_calls_keep_a_garbler_valid(new, acts, k2, m);
        assert(admits::<Streaming>(session::<Streaming>(new, acts, m), acts[m as int]));
        lemma_act(garbler(new, acts, m), acts[m as int]);
    }
}

/// There is one result per call, and it stays.
proof fn lemma_results_stay(new: StreamModel, acts: Seq<Act>, k: nat, n: nat)
    requires
        k <= n <= acts.len(),
    ensures
        garbler(new, acts, k).wires.len() == k + 2,
        garbler(new, acts, n).wires.len() == n + 2,
        garbler(new, acts, k).wires.is_prefix_of(garbler(new, acts, n).wires),
    decreases n,
{
    if k < n {
        lemma_results_stay(new, acts, k, (n - 1) as nat);
    } else if n > 0 {
        lemma_results_stay(new, acts, (n - 1) as nat, (n - 1) as nat);
    }
}

/// A wire that is still held keeps its slot, which is neither that of a constant
/// nor free, and its label.
pub proof fn law_held_wires_keep_slot_and_label(
    new: StreamModel,
    acts: Seq<Act>,
    k: nat,
    n: nat,
)
    requires
        is_new(new),
        in_scope(acts),
        admitted::<Streaming>(new, acts),
        n <= acts.len(),
        still_held(new, acts, k, n),
    ensures
        ({
            let at = garbler(new, acts, k + 1);
            let s = garbler(new, acts, n);
            let slot = s.wires[k as int + 2];
            &&& slot == at.wires[k as int + 2]
            &&& 2 <= slot < s.model.slots()
            &&& !s.model.free.contains(slot)
            &&& s.model.label0[slot] == at.model.label0[slot]
            &&& at.model.remaining[slot] == planned_uses(
                new.plan,
                garbler(new, acts, k).model.created as int,
            )
            &&& at.model.remaining[slot] == PINNED ==> s.model.remaining[slot] == PINNED
        }),
    decreases n,
{
    lemma_results_stay(new, acts, k + 1, n);
    if n == k + 1 {
        let pass = garbler(new, acts, k);
        let m = pass.model;
        law_calls_keep_a_garbler_valid(new, acts, k, k);
        lemma_results_stay(new, acts, k, n);
        assert(admits::<Streaming>(session::<Streaming>(new, acts, k), acts[k as int]));
        if let Act::Gate(g, i, j) = acts[k as int] {
            let (x, y) = (pass.wires[i], pass.wires[j]);
            let gid = m.non_free as u32;
            let value = g.apply(m.value[x], m.value[y]);
            let label = crate::gate::output_label(g, m.label0[x], m.label0[y], gid, m.delta);
            lemma_consumed_valid(m, x);
            lemma_consumed_valid(m.consumed(x), y);
            law_a_new_wire_takes_no_held_slot(m.consumed(x).consumed(y), value, label);
        } else {
            law_a_new_wire_takes_no_held_slot(m, false, input_label(m.seed, m.created));
        }
    } else {
        let m = (n - 1) as nat;
        assert(still_held(new, acts, k, m));
        law_held_wires_keep_slot_and_label(new, acts, k, m);
        law_calls_keep_a_garbler_valid(new, acts, m, m);
        lemma_results_stay(new, acts, m, n);
        lemma_results_stay(new, acts, k + 1, m);
        let pass = garbler(new, acts, m);
        assert(admits::<Streaming>(session::<Streaming>(new, acts, m), acts[m as int]));
        assert(!releases(pass, acts[m as int], pass.wires[k as int + 2]));
        lemma_act_on_slot(pass, acts[m as int], pass.wires[k as int + 2]);
    }
}

/// At every moment the wires still held are in slots of their own.
pub proof fn law_held_wires_are_in_different_slots(
    new: StreamModel,
    acts: Seq<Act>,
    k: nat,
    l: nat,
    n: nat,
)
    requires
        is_new(new),
        in_scope(acts),
        admitted::<Streaming>(new, acts),
        n <= acts.len(),
        k < l,
        still_held(new, acts, k, n),
        still_held(new, acts, l, n),
    ensures
        garbler(new, acts, n).wires[k as int + 2] != garbler(new, acts, n).wires[l as int + 2],
{
    let pass = garbler(new, acts, l);
    assert(still_held(new, acts, k, l));
    law_held_wires_keep_slot_and_label(new, acts, k, l);
    law_calls_keep_a_garbler_valid(new, acts, l, l);
    lemma_results_stay(new, acts, l, l + 1);
    lemma_results_stay(new, acts, l + 1, n);
    assert(admits::<Streaming>(session::<Streaming>(new, acts, l), acts[l as int]));
    assert(!releases(pass, acts[l as int], pass.wires[k as int + 2]));
    lemma_act_on_slot(pass, acts[l as int], pass.wires[k as int + 2]);
    assert(garbler(new, acts, l + 1).wires[k as int + 2] == garbler(new, acts, n).wires[k as int + 2]);
    assert(garbler(new, acts, l + 1).wires[l as int + 2] == garbler(new, acts, n).wires[l as int + 2]);
}

/// The false label of an input follows from its creation index alone, whatever
/// value it is given, for as long as the wire is held.
pub proof fn law_input_labels_follow_creation(
    new: StreamModel,
    acts: Seq<Act>,
    k: nat,
    n: nat,
)
    requires
        is_new(new),
        in_scope(acts),
        admitted::<Streaming>(new, acts),
        n <= acts.len(),
        acts[k as int] is Fresh,
        still_held(new, acts, k, n),
    ensures
        ({
            let s = garbler(new, acts, n);
            s.model.label0[s.wires[k as int + 2]] == input_label(
                new.seed,
                garbler(new, acts, k).model.created,
            )
        }),
{
    law_held_wires_keep_slot_and_label(new, acts, k, n);
    law_calls_keep_a_garbler_valid(new, acts, k, k);
    lemma_results_stay(new, acts, k, k + 1);
    let m = garbler(new, acts, k).model;
    assert(admits::<Streaming>(session::<Streaming>(new, acts, k), acts[k as int]));
    law_a_new_wire_takes_no_held_slot(m, false, input_label(m.seed, m.created));
}

/// A wire whose planned uses are `PINNED` is held forever: one that its plan
/// counts as used 255 times or more, one that the plan was told to keep, and
/// every wire of a garbler without a plan.
pub proof fn law_pinned_wires_are_held_forever(
    new: StreamModel,
    acts: Seq<Act>,
    k: nat,
    n: nat,
)
    requires
        is_new(new),
        in_scope(acts),
        admitted::<Streaming>(new, acts),
        k < n <= acts.len(),
        creates(garbler(new, acts, k), acts[k as int]),
        planned_uses(new.plan, garbler(new, acts, k).model.created as int) == PINNED,
    ensures
        still_held(new, acts, k, n),
    decreases n,
{
    if n > k + 1 {
        let m = (n - 1) as nat;
        law_pinned_wires_are_held_forever(new, acts, k, m);
        law_held_wires_keep_slot_and_label(new, acts, k, m);
        assert forall|t: nat| k < t < n implies !releases(
            #[trigger] garbler(new, acts, t),
            acts[t as int],
            garbler(new, acts, t).wires[k as int + 2],
        ) by {
            if t < m {
                assert(still_held(new, acts, k, m));
            }
        }
    }
}

/// No creation index is used twice, and no number of a non-free gate: they grow
/// with every wire that is created, and with every AND and OR gate that is not
/// folded.
pub proof fn law_numbers_are_never_used_twice(new: StreamModel, acts: Seq<Act>, k: nat, l: nat)
    requires
        is_new(new),
        in_scope(acts),
        admitted::<Streaming>(new, acts),
        k < l <= acts.len(),
    ensures
        ({
            let at = garbler(new, acts, k);
            let later = garbler(new, acts, l);
            &&& at.model.created <= later.model.created
            &&& at.model.non_free <= later.model.non_free
            &&& creates(at, acts[k as int]) ==> at.model.created < later.model.created
            &&& creates(at, acts[k as int]) && (acts[k as int] matches Act::Gate(g, _, _) && g
                != GateType::Xor) ==> at.model.non_free < later.model.non_free
        }),
    decreases l,
{
    let m = (l - 1) as nat;
    let pass = garbler(new, acts, m);
    let act = acts[m as int];
    if k < m {
        law_numbers_are_never_used_twice(new, acts, k, m);
    }
    law_calls_keep_a_garbler_valid(new, acts, m, m);
    assert(admits::<Streaming>(session::<Streaming>(new, acts, m), act));
}

} // verus!
