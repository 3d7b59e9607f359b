//! Inputs that get their values after they are created.
//!
//! In a build of [`circuit`](crate::circuit) an input has its value at once. A
//! session may create several inputs first and give them their values later. As
//! long as no gate has been handed an input before its value is given, that
//! makes no difference.
use vstd::prelude::*;

use crate::adapter::{AdapterModel, CircuitAdapter};
use crate::builder::{fold, ValuedBuilder};
use crate::circuit::{
    covers, law_tallies_count_the_gates_of_a_kind, lemma_plan_run, plan_of, plan_run, run, scoped,
    step, takes, values, Call, Pass,
};
use crate::evaluation::{
    adapter_run, law_backends_emit_the_same_circuit, lemma_unplanned, unplanned_run,
};
use crate::gate::GateType;
use crate::label::S;
use crate::plan::{Plan, PlanModel};
use crate::reuse::{
    law_passes_are_accepted, law_passes_see_the_same_wires, law_slot_reuse_is_invisible,
    law_values_follow_the_inputs,
    lemma_operands_are_live, lemma_planned_in_shape, live, planned_run, same_output,
};
use crate::session::{act_step, admits, admitted, in_scope, session, Act};
use crate::streaming::{StreamModel, Streaming};

verus! {

/// Every value is given to a fresh wire, by its own result, and before any gate
/// is handed that result.
pub open spec fn set_before_read(acts: Seq<Act>) -> bool {
    forall|n: int|
        0 <= n < acts.len() ==> (#[trigger] acts[n] matches Act::Assign(i, _) ==> {
            &&& 2 <= i < n + 2
            &&& acts[i - 2] is Fresh
            &&& unread(acts, i, n)
        })
}

/// None of the first `n` calls is a gate on result `i`.
pub open spec fn unread(acts: Seq<Act>, i: int, n: int) -> bool {
    forall|m: int|
        0 <= m < n ==> (#[trigger] acts[m] matches Act::Gate(_, a, b) ==> a != i && b != i)
}

/// The value of each result of the first `n` calls, by the truth tables alone.
pub open spec fn session_values(acts: Seq<Act>, n: nat) -> Seq<bool>
    decreases n,
{
    if n == 0 {
        seq![false, true]
    } else {
        let before = session_values(acts, (n - 1) as nat);
        match acts[n - 1] {
            Act::Fresh => before.push(false),
            Act::Assign(i, value) => before.update(i, value).push(false),
            Act::Gate(gate_type, i, j) => before.push(gate_type.apply(before[i], before[j])),
        }
    }
}

/// The value that result `i` has been given by the first `n` calls, if any.
pub open spec fn given_value(acts: Seq<Act>, i: int, n: nat) -> bool
    decreases n,
{
    if n == 0 {
        false
    } else {
        let before = given_value(acts, i, (n - 1) as nat);
        match acts[n - 1] {
            Act::Assign(j, value) => if j == i {
                value
            } else {
                before
            },
            _ => before,
        }
    }
}

/// The same calls as a build in which each input has at once the value that the
/// first `n` calls give it. In place of a call that gives a value stands a folded
/// gate: neither creates a wire.
pub open spec fn at_once(acts: Seq<Act>, n: nat) -> Seq<Call> {
    Seq::new(
        acts.len(),
        |k: int|
            match acts[k] {
                Act::Fresh => Call::Input(given_value(acts, k + 2, n)),
                Act::Assign(..) => Call::Gate(GateType::Xor, 0, 0),
                Act::Gate(gate_type, i, j) => Call::Gate(gate_type, i, j),
            },
    )
}

/// The first pass over a session.
pub open spec fn session_plan(acts: Seq<Act>, n: nat) -> Pass<PlanModel> {
    session::<Plan>(PlanModel::initial(), acts, n)
}

proof fn lemma_at_once_scoped(acts: Seq<Act>, n: nat)
    requires
        in_scope(acts),
    ensures
        scoped(at_once(acts, n)),
{
    let calls = at_once(acts, n);
    assert forall|k: int| 0 <= k < calls.len() implies (#[trigger] calls[k] matches Call::Gate(
        _,
        i,
        j,
    ) ==> 0 <= i < k + 2 && 0 <= j < k + 2) by {
        let act = acts[k];
    }
}

/// A plan does not depend on any value.
proof fn lemma_at_once_plan(acts: Seq<Act>, n: nat, k: nat)
    requires
        in_scope(acts),
        k <= acts.len(),
    ensures
        plan_run(at_once(acts, n), k) == session_plan(acts, k),
    decreases k,
{
    lemma_at_once_scoped(acts, n);
    lemma_plan_run(at_once(acts, n), k);
    if k > 0 {
        lemma_at_once_plan(acts, n, (k - 1) as nat);
        lemma_plan_run(at_once(acts, n), (k - 1) as nat);
        let act = acts[k - 1];
        let call = at_once(acts, n)[k - 1];
    }
}

/// A builder that keeps the gates ignores every value.
proof fn lemma_at_once_adapter(acts: Seq<Act>, n: nat, k: nat)
    requires
        in_scope(acts),
        k <= acts.len(),
    ensures
        session::<CircuitAdapter>(AdapterModel::initial(), acts, k) == adapter_run(
            at_once(acts, n),
            k,
        ),
    decreases k,
{
    if k > 0 {
        lemma_at_once_adapter(acts, n, (k - 1) as nat);
        let act = acts[k - 1];
        let call = at_once(acts, n)[k - 1];
    }
}

/// Nothing has used a wire that no gate has been handed, and only one result is
/// that wire.
proof fn lemma_unread(calls: Seq<Call>, i: int, n: nat)
    requires
        scoped(calls),
        2 <= i < n + 2,
        n <= calls.len(),
        calls[i - 2] is Input,
        forall|m: int|
            0 <= m < n ==> (#[trigger] calls[m] matches Call::Gate(_, a, b) ==> a != i && b != i),
    ensures
        ({
            let p = plan_run(calls, n);
            &&& p.model.uses[p.wires[i]] == 0
            &&& p.wires[i] >= 2
            &&& forall|j: int| 0 <= j < n + 2 && j != i ==> #[trigger] p.wires[j] != p.wires[i]
        }),
    decreases n,
{
    let m = (n - 1) as nat;
    lemma_plan_run(calls, m);
    lemma_plan_run(calls, n);
    let before = plan_run(calls, m);
    let p = plan_run(calls, n);
    let call = calls[m as int];
    if i < n + 1 {
        lemma_unread(calls, i, m);
        assert forall|j: int| 0 <= j < n + 2 && j != i implies #[trigger] p.wires[j]
            != p.wires[i] by {
            if j < n + 1 {
                assert(before.wires[j] == p.wires[j]);
            }
        }
    } else {
        assert forall|j: int| 0 <= j < n + 2 && j != i implies #[trigger] p.wires[j]
            != p.wires[i] by {
            assert(before.wires[j] == p.wires[j]);
        }
    }
}

/// A garbler in which the wire of result `i` has been given a value.
spec fn with_value(pass: Pass<StreamModel>, i: int, value: bool) -> Pass<StreamModel> {
    Pass { model: Streaming::input_step(pass.model, pass.wires[i], value), wires: pass.wires }
}

/// Whether the wire of result `i` has a slot.
spec fn has_slot(pass: Pass<StreamModel>, i: int) -> bool {
    &&& 0 <= i < pass.wires.len()
    &&& 0 <= pass.wires[i] < pass.model.slots()
    &&& pass.model.in_shape()
    &&& !pass.model.free.contains(pass.wires[i])
}

/// Whether the next call leaves the wire of result `i` alone.
spec fn leaves_alone(pass: Pass<StreamModel>, call: Call, i: int) -> bool {
    call matches Call::Gate(g, a, b) ==> (fold(g, pass.wires[a], pass.wires[b]) is None ==> {
        &&& 0 <= pass.wires[a] < pass.model.slots()
        &&& 0 <= pass.wires[b] < pass.model.slots()
        &&& pass.wires[a] != pass.wires[i]
        &&& pass.wires[b] != pass.wires[i]
    })
}

/// Giving a value and a call that leaves its wire alone can change places.
proof fn lemma_value_after_call(pass: Pass<StreamModel>, call: Call, i: int, value: bool)
    requires
        has_slot(pass, i),
        leaves_alone(pass, call, i),
    ensures
        step::<Streaming>(with_value(pass, i, value), call) == with_value(
            step::<Streaming>(pass, call),
            i,
            value,
        ),
{
    let slot = pass.wires[i];
    let m = pass.model;
    let left = step::<Streaming>(with_value(pass, i, value), call);
    let right = with_value(step::<Streaming>(pass, call), i, value);
    assert(m.free.len() > 0 ==> m.free.last() != slot && 0 <= m.free.last() < m.slots()) by {
        if m.free.len() > 0 {
            assert(m.free[m.free.len() - 1] == m.free.last());
        }
    }
    if let Call::Gate(g, a, b) = call {
        let (x, y) = (pass.wires[a], pass.wires[b]);
        if fold(g, x, y) is None {
            let m2 = m.consumed(x).consumed(y);
            assert(m2.free.len() > 0 ==> m2.free.last() != slot && 0 <= m2.free.last()
                < m2.slots());
        }
    }
    assert(left.model.value =~= right.model.value);
    assert(left.wires =~= right.wires);
    assert(left.model =~= right.model);
}

/// There is one result per call.
proof fn lemma_results(m: StreamModel, calls: Seq<Call>, n: nat)
    ensures
        run::<Streaming>(m, calls, n).wires.len() == n + 2,
    decreases n,
{
    if n > 0 {
        lemma_results(m, calls, (n - 1) as nat);
    }
}

/// Calls that agree have the same effect.
proof fn lemma_same_calls(m: StreamModel, calls: Seq<Call>, other: Seq<Call>, n: nat)
    requires
        n <= calls.len(),
        n <= other.len(),
        forall|k: int| 0 <= k < n ==> #[trigger] calls[k] == other[k],
    ensures
        run::<Streaming>(m, calls, n) == run::<Streaming>(m, other, n),
    decreases n,
{
    if n > 0 {
        lemma_same_calls(m, calls, other, (n - 1) as nat);
        assert(calls[n - 1] == other[n - 1]);
    }
}

/// An input may have another value from the start, or be given it after the
/// first `n` calls, when these leave it alone.
proof fn lemma_value_moves(m: StreamModel, calls: Seq<Call>, i: int, value: bool, n: nat)
    requires
        2 <= i < n + 2,
        n <= calls.len(),
        calls[i - 2] is Input,
        run::<Streaming>(m, calls, (i - 2) as nat).model.in_shape(),
        forall|k: nat| i - 1 <= k <= n ==> has_slot(#[trigger] run::<Streaming>(m, calls, k), i),
        forall|k: nat|
            i - 1 <= k < n ==> leaves_alone(
                #[trigger] run::<Streaming>(m, calls, k),
                calls[k as int],
                i,
            ),
    ensures
        run::<Streaming>(m, calls.update(i - 2, Call::Input(value)), n) == with_value(
            run::<Streaming>(m, calls, n),
            i,
            value,
        ),
    decreases n,
{
    let other = calls.update(i - 2, Call::Input(value));
    let k = (n - 1) as nat;
    let pass = run::<Streaming>(m, calls, n);
    assert(has_slot(pass, i));
    if i == n + 1 {
        lemma_same_calls(m, calls, other, k);
        let left = run::<Streaming>(m, other, n);
        lemma_results(m, calls, k);
        let before = run::<Streaming>(m, calls, k).model;
        assert(before.free.len() > 0 ==> before.free[before.free.len() - 1]
            == before.free.last());
        assert(left.model.value =~= with_value(pass, i, value).model.value);
        assert(left.model =~= with_value(pass, i, value).model);
    } else {
        lemma_value_moves(m, calls, i, value, k);
        let before = run::<Streaming>(m, calls, k);
        assert(has_slot(before, i));
        assert(leaves_alone(before, calls[k as int], i));
        assert(other[k as int] == calls[k as int]);
        lemma_value_after_call(before, calls[k as int], i, value);
    }
}

/// No call of either garbler but the gates that are handed an input touches it.
proof fn lemma_left_alone(
    uses: Seq<u8>,
    delta: S,
    seed: Seq<u8>,
    keep: bool,
    calls: Seq<Call>,
    i: int,
    n: nat,
)
    requires
        scoped(calls),
        covers(uses, plan_of(calls)),
        2 <= i < n + 2,
        n <= calls.len(),
        calls[i - 2] is Input,
        forall|m: int|
            0 <= m < n ==> (#[trigger] calls[m] matches Call::Gate(_, a, b) ==> a != i && b != i),
    ensures
        ({
            let u = unplanned_run(delta, seed, keep, calls, n);
            &&& has_slot(u, i)
            &&& n < calls.len() && (calls[n as int] matches Call::Gate(_, a, b) ==> a != i && b
                != i) ==> leaves_alone(u, calls[n as int], i)
        }),
        ({
            let s = planned_run(uses, delta, seed, keep, calls, n);
            &&& has_slot(s, i)
            &&& n < calls.len() && (calls[n as int] matches Call::Gate(_, a, b) ==> a != i && b
                != i) ==> leaves_alone(s, calls[n as int], i)
        }),
{
    let p = plan_run(calls, n);
    let s = planned_run(uses, delta, seed, keep, calls, n);
    lemma_unread(calls, i, n);
    lemma_plan_run(calls, n);
    lemma_unplanned(delta, seed, keep, calls, n);
    law_slot_reuse_is_invisible(uses, delta, seed, keep, calls, n);
    lemma_planned_in_shape(uses, delta, seed, keep, calls, n);
    lemma_results(StreamModel::initial(delta, seed, Some(uses), keep), calls, n);
    assert(live(uses, p.model, p.wires[i]));
    if n < calls.len() {
        lemma_operands_are_live(uses, delta, seed, keep, calls, n);
        if let Call::Gate(g, a, b) = calls[n as int] {
            if a != i && b != i {
                assert(p.wires[a] != p.wires[i] && p.wires[b] != p.wires[i]);
            }
        }
    }
}

/// A value is given only to results that there are.
proof fn lemma_not_given(acts: Seq<Act>, i: int, n: nat)
    requires
        in_scope(acts),
        n <= acts.len(),
        n + 2 <= i,
    ensures
        !given_value(acts, i, n),
    decreases n,
{
    if n > 0 {
        lemma_not_given(acts, i, (n - 1) as nat);
        let act = acts[n - 1];
    }
}

/// How the build changes with one more call of the session.
proof fn lemma_at_once_grows(acts: Seq<Act>, n: nat)
    requires
        in_scope(acts),
        set_before_read(acts),
        n < acts.len(),
    ensures
        acts[n as int] matches Act::Assign(i, value) ==> at_once(acts, n + 1) == at_once(
            acts,
            n,
        ).update(i - 2, Call::Input(value)),
        acts[n as int] !is Assign ==> at_once(acts, n + 1) == at_once(acts, n),
        acts[n as int] is Fresh ==> at_once(acts, n)[n as int] == Call::Input(false),
        acts[n as int] matches Act::Assign(i, value) ==> {
            &&& at_once(acts, n)[i - 2] is Input
            &&& forall|m: int|
                0 <= m < n ==> (#[trigger] at_once(acts, n)[m] matches Call::Gate(_, a, b) ==> a
                    != i && b != i)
        },
{
    let act = acts[n as int];
    let before = at_once(acts, n);
    let after = at_once(acts, n + 1);
    lemma_not_given(acts, n as int + 2, n);
    if let Act::Assign(i, value) = act {
        assert(after =~= before.update(i - 2, Call::Input(value)));
        assert forall|m: int| 0 <= m < n implies (#[trigger] before[m] matches Call::Gate(_, a, b)
            ==> a != i && b != i) by {
            let earlier = acts[m];
        }
    } else {
        assert(after =~= before);
    }
}

/// Both garblers of a session, and those of the build.
proof fn lemma_garblers_at_once(
    uses: Seq<u8>,
    delta: S,
    seed: Seq<u8>,
    keep: bool,
    acts: Seq<Act>,
    n: nat,
)
    requires
        in_scope(acts),
        set_before_read(acts),
        covers(uses, session_plan(acts, acts.len()).model),
        n <= acts.len(),
    ensures
        session::<Streaming>(StreamModel::initial(delta, seed, None, keep), acts, n)
            == unplanned_run(delta, seed, keep, at_once(acts, n), n),
        session::<Streaming>(StreamModel::initial(delta, seed, Some(uses), keep), acts, n)
            == planned_run(uses, delta, seed, keep, at_once(acts, n), n),
    decreases n,
{
    if n > 0 {
        let m = (n - 1) as nat;
        let calls = at_once(acts, m);
        let act = acts[m as int];
        lemma_garblers_at_once(uses, delta, seed, keep, acts, m);
        lemma_at_once_grows(acts, m);
        lemma_at_once_scoped(acts, m);
        lemma_at_once_plan(acts, m, acts.len());
        let u0 = StreamModel::initial(delta, seed, None, keep);
        let s0 = StreamModel::initial(delta, seed, Some(uses), keep);
        let u = unplanned_run(delta, seed, keep, calls, m);
        let s = planned_run(uses, delta, seed, keep, calls, m);
        match act {
            Act::Fresh => {
                lemma_unplanned(delta, seed, keep, calls, m);
                lemma_planned_in_shape(uses, delta, seed, keep, calls, m);
                lemma_fresh_is_false(u);
                lemma_fresh_is_false(s);
            },
            Act::Assign(i, value) => {
                assert forall|k: nat| i - 1 <= k <= m implies {
                    &&& has_slot(#[trigger] run::<Streaming>(u0, calls, k), i)
                    &&& k < m ==> leaves_alone(run::<Streaming>(u0, calls, k), calls[k as int], i)
                } by {
                    lemma_left_alone(uses, delta, seed, keep, calls, i, k);
                }
                assert forall|k: nat| i - 1 <= k <= m implies {
                    &&& has_slot(#[trigger] run::<Streaming>(s0, calls, k), i)
                    &&& k < m ==> leaves_alone(run::<Streaming>(s0, calls, k), calls[k as int], i)
                } by {
                    lemma_left_alone(uses, delta, seed, keep, calls, i, k);
                }
                lemma_unplanned(delta, seed, keep, calls, (i - 2) as nat);
                lemma_planned_in_shape(uses, delta, seed, keep, calls, (i - 2) as nat);
                lemma_value_moves(u0, calls, i, value, m);
                lemma_value_moves(s0, calls, i, value, m);
                assert(at_once(acts, n)[m as int] == Call::Gate(GateType::Xor, 0, 0));
            },
            Act::Gate(g, i, j) => {},
        }
    }
}

/// A fresh wire is false.
proof fn lemma_fresh_is_false(pass: Pass<StreamModel>)
    requires
        pass.model.in_shape(),
    ensures
        step::<Streaming>(pass, Call::Input(false)) == act_step::<Streaming>(pass, Act::Fresh),
{
    let m = pass.model;
    let left = step::<Streaming>(pass, Call::Input(false)).model;
    let right = act_step::<Streaming>(pass, Act::Fresh).model;
    assert(m.free.len() > 0 ==> m.free[m.free.len() - 1] == m.free.last());
    assert(left.value =~= right.value);
}

/// An input's value can be given after calls that are not handed it.
proof fn lemma_values_move(calls: Seq<Call>, i: int, value: bool, n: nat)
    requires
        scoped(calls),
        2 <= i < n + 2,
        n <= calls.len(),
        calls[i - 2] is Input,
        forall|m: int|
            0 <= m < n ==> (#[trigger] calls[m] matches Call::Gate(_, a, b) ==> a != i && b != i),
    ensures
        values(calls, n).len() == n + 2,
        values(calls.update(i - 2, Call::Input(value)), n) == values(calls, n).update(i, value),
    decreases n,
{
    let other = calls.update(i - 2, Call::Input(value));
    let m = (n - 1) as nat;
    lemma_values_len(calls, m);
    let call = calls[m as int];
    if i == n + 1 {
        lemma_same_values(calls, other, m);
        assert(values(other, n) =~= values(calls, n).update(i, value));
    } else {
        lemma_values_move(calls, i, value, m);
        assert(other[m as int] == call);
        assert(values(other, n) =~= values(calls, n).update(i, value));
    }
}

proof fn lemma_values_len(calls: Seq<Call>, n: nat)
    ensures
        values(calls, n).len() == n + 2,
    decreases n,
{
    if n > 0 {
        lemma_values_len(calls, (n - 1) as nat);
    }
}

proof fn lemma_same_values(calls: Seq<Call>, other: Seq<Call>, n: nat)
    requires
        n <= calls.len(),
        n <= other.len(),
        forall|k: int| 0 <= k < n ==> #[trigger] calls[k] == other[k],
    ensures
        values(calls, n) == values(other, n),
    decreases n,
{
    if n > 0 {
        lemma_same_values(calls, other, (n - 1) as nat);
        assert(calls[n - 1] == other[n - 1]);
    }
}

/// The truth tables of a session, and those of the build.
proof fn lemma_values_at_once(acts: Seq<Act>, n: nat)
    requires
        in_scope(acts),
        set_before_read(acts),
        n <= acts.len(),
    ensures
        session_values(acts, n) == values(at_once(acts, n), n),
    decreases n,
{
    if n > 0 {
        let m = (n - 1) as nat;
        let act = acts[m as int];
        lemma_values_at_once(acts, m);
        lemma_at_once_grows(acts, m);
        lemma_at_once_scoped(acts, m);
        if let Act::Assign(i, value) = act {
            lemma_values_move(at_once(acts, m), i, value, m);
            assert(at_once(acts, n)[m as int] == Call::Gate(GateType::Xor, 0, 0));
        }
    }
}

/// When an input gets its value makes no difference, as long as it gets it
/// before any gate is handed it: the plan, both garblers and the circuit in
/// memory of a session are those of the build in which each input has its value
/// at once, and so are the values by the truth tables. Whatever holds of builds
/// holds of such sessions.
pub proof fn law_late_inputs_make_no_difference(
    uses: Seq<u8>,
    delta: S,
    seed: Seq<u8>,
    keep: bool,
    acts: Seq<Act>,
    n: nat,
)
    requires
        in_scope(acts),
        set_before_read(acts),
        covers(uses, session_plan(acts, acts.len()).model),
        n <= acts.len(),
    ensures
        scoped(at_once(acts, n)),
        covers(uses, plan_of(at_once(acts, n))),
        session_plan(acts, n) == plan_run(at_once(acts, n), n),
        session::<CircuitAdapter>(AdapterModel::initial(), acts, n) == adapter_run(
            at_once(acts, n),
            n,
        ),
        session::<Streaming>(StreamModel::initial(delta, seed, None, keep), acts, n)
            == unplanned_run(delta, seed, keep, at_once(acts, n), n),
        session::<Streaming>(StreamModel::initial(delta, seed, Some(uses), keep), acts, n)
            == planned_run(uses, delta, seed, keep, at_once(acts, n), n),
        session_values(acts, n) == values(at_once(acts, n), n),
{
    lemma_at_once_scoped(acts, n);
    lemma_at_once_plan(acts, n, acts.len());
    lemma_at_once_plan(acts, n, n);
    lemma_at_once_adapter(acts, n, n);
    lemma_garblers_at_once(uses, delta, seed, keep, acts, n);
    lemma_values_at_once(acts, n);
}

/// With inputs that get their values before they are read, a result whose wire
/// is live has in the garbler with a plan the value that the truth tables give
/// it, and the same label and value as without a plan. Both garblers put out the
/// same.
pub proof fn law_values_follow_late_inputs(
    uses: Seq<u8>,
    delta: S,
    seed: Seq<u8>,
    keep: bool,
    acts: Seq<Act>,
    n: nat,
    j: int,
)
    requires
        in_scope(acts),
        set_before_read(acts),
        covers(uses, session_plan(acts, acts.len()).model),
        n <= acts.len(),
        0 <= j < n + 2,
    ensures
        ({
            let p = session_plan(acts, n);
            let u = session::<Streaming>(StreamModel::initial(delta, seed, None, keep), acts, n);
            let s = session::<Streaming>(
                StreamModel::initial(delta, seed, Some(uses), keep),
                acts,
                n,
            );
            &&& same_output(u.model, s.model)
            &&& u.model.value[u.wires[j]] == session_values(acts, n)[j]
            &&& live(uses, p.model, p.wires[j]) ==> {
                &&& 0 <= s.wires[j] < s.model.slots()
                &&& !s.model.free.contains(s.wires[j])
                &&& s.model.value[s.wires[j]] == session_values(acts, n)[j]
                &&& s.model.label0[s.wires[j]] == u.model.label0[u.wires[j]]
            }
        }),
{
    let calls = at_once(acts, n);
    law_late_inputs_make_no_difference(uses, delta, seed, keep, acts, n);
    law_slot_reuse_is_invisible(uses, delta, seed, keep, calls, n);
    law_values_follow_the_inputs(uses, delta, seed, keep, calls, n, j);
}

/// The backends emit the same circuit, with the same counts, whatever values are
/// given, and whenever: the garbler without a plan numbers every result as the
/// builder does that keeps the gates, and both count the same gates, which are
/// those in memory. Where inputs get their values before they are read, each of
/// these gates holds between the garbler's values at any point.
pub proof fn law_backends_emit_the_same_session(
    delta: S,
    seed: Seq<u8>,
    keep: bool,
    acts: Seq<Act>,
    n: nat,
)
    requires
        in_scope(acts),
        n <= acts.len(),
        session_plan(acts, n).model.uses.len() <= usize::MAX,
    ensures
        ({
            let a = session::<CircuitAdapter>(AdapterModel::initial(), acts, n);
            let u = session::<Streaming>(StreamModel::initial(delta, seed, None, keep), acts, n);
            &&& a.wires == u.wires
            &&& a.model.wires == u.model.created
            &&& a.model.tally == u.model.tally
            &&& a.model.gates.len() == u.model.tally.total()
            &&& forall|k: int|
                0 <= k < a.model.gates.len() ==> ({
                    let gate = #[trigger] a.model.gates[k];
                    &&& gate.x < u.model.created
                    &&& gate.y < u.model.created
                    &&& gate.out < u.model.created
                    &&& set_before_read(acts) ==> u.model.value[gate.out as int]
                        == gate.gate_type.apply(
                        u.model.value[gate.x as int],
                        u.model.value[gate.y as int],
                    )
                })
        }),
{
    let m = StreamModel::initial(delta, seed, None, keep);
    lemma_at_once_scoped(acts, 0);
    lemma_at_once_plan(acts, 0, n);
    lemma_at_once_adapter(acts, 0, n);
    law_values_change_values_only(m, acts, n);
    law_backends_emit_the_same_circuit(delta, seed, keep, at_once(acts, 0), n);
    if set_before_read(acts) {
        let uses = session_plan(acts, acts.len()).model.uses;
        law_late_inputs_make_no_difference(uses, delta, seed, keep, acts, n);
        law_backends_emit_the_same_circuit(delta, seed, keep, at_once(acts, n), n);
    }
}

/// Two garblers with the same results that differ in their values at most.
pub open spec fn same_but_values(a: Pass<StreamModel>, b: Pass<StreamModel>) -> bool {
    &&& a.wires == b.wires
    &&& a.model == (StreamModel { value: a.model.value, ..b.model })
}

/// Which values are given, when, and to which wires, changes nothing but the
/// values: not the slots, the labels, the ciphertexts or the counts.
pub proof fn law_values_change_values_only(m: StreamModel, acts: Seq<Act>, n: nat)
    requires
        in_scope(acts),
        n <= acts.len(),
    ensures
        same_but_values(
            session::<Streaming>(m, acts, n),
            run::<Streaming>(m, at_once(acts, 0), n),
        ),
    decreases n,
{
    if n > 0 {
        let k = (n - 1) as nat;
        law_values_change_values_only(m, acts, k);
        let act = acts[k as int];
        let call = at_once(acts, 0)[k as int];
        let a = session::<Streaming>(m, acts, k);
        let b = run::<Streaming>(m, at_once(acts, 0), k);
        if let Act::Gate(g, i, j) = act {
            let (x, y) = (a.wires[i], a.wires[j]);
            assert(a.model.consumed(x) == (StreamModel {
                value: a.model.value,
                ..b.model.consumed(x)
            }));
        }
    }
}

/// Whatever values are given, and whenever: after every call the plan and both
/// garblers have created equally many wires and counted the same gates, the
/// garbler without a plan numbers the results as the plan does, and both
/// garblers put out the same.
pub proof fn law_sessions_see_the_same_wires(
    uses: Seq<u8>,
    delta: S,
    seed: Seq<u8>,
    keep: bool,
    acts: Seq<Act>,
    n: nat,
)
    requires
        in_scope(acts),
        covers(uses, session_plan(acts, acts.len()).model),
        n <= acts.len(),
    ensures
        ({
            let p = session_plan(acts, n);
            let u = session::<Streaming>(StreamModel::initial(delta, seed, None, keep), acts, n);
            let s = session::<Streaming>(
                StreamModel::initial(delta, seed, Some(uses), keep),
                acts,
                n,
            );
            &&& u.wires == p.wires
            &&& u.model.created == p.model.uses.len()
            &&& s.model.created == p.model.uses.len()
            &&& u.model.tally == p.model.tally
            &&& s.model.tally == p.model.tally
            &&& same_output(u.model, s.model)
        }),
{
    let calls = at_once(acts, 0);
    lemma_at_once_scoped(acts, 0);
    lemma_at_once_plan(acts, 0, acts.len());
    lemma_at_once_plan(acts, 0, n);
    law_values_change_values_only(StreamModel::initial(delta, seed, None, keep), acts, n);
    law_values_change_values_only(StreamModel::initial(delta, seed, Some(uses), keep), acts, n);
    law_passes_see_the_same_wires(uses, delta, seed, keep, calls, n);
    law_slot_reuse_is_invisible(uses, delta, seed, keep, calls, n);
}

/// Every result of the garbler with a plan is a slot that there is.
proof fn lemma_results_are_slots(
    uses: Seq<u8>,
    delta: S,
    seed: Seq<u8>,
    keep: bool,
    calls: Seq<Call>,
    n: nat,
)
    requires
        scoped(calls),
        covers(uses, plan_of(calls)),
        n <= calls.len(),
    ensures
        ({
            let s = planned_run(uses, delta, seed, keep, calls, n);
            &&& s.wires.len() == n + 2
            &&& s.wires[0] == 0
            &&& s.wires[1] == 1
            &&& s.model.slots() >= 2
            &&& forall|j: int| 0 <= j < n + 2 ==> 0 <= #[trigger] s.wires[j] < s.model.slots()
        }),
    decreases n,
{
    if n > 0 {
        let m = (n - 1) as nat;
        lemma_results_are_slots(uses, delta, seed, keep, calls, m);
        let before = planned_run(uses, delta, seed, keep, calls, m);
        let s = planned_run(uses, delta, seed, keep, calls, n);
        let call = calls[m as int];
        lemma_planned_in_shape(uses, delta, seed, keep, calls, m);
        let free = before.model.free;
        assert(free.len() > 0 ==> free[free.len() - 1] == free.last());
        if let Call::Gate(g, i, j) = call {
            let (x, y) = (before.wires[i], before.wires[j]);
            let freed = before.model.consumed(x).consumed(y).free;
            assert(freed.len() > 0 ==> 0 <= freed.last() < before.model.slots());
        }
        assert(before.model.slots() <= s.model.slots());
        assert forall|j: int| 0 <= j < n + 2 implies 0 <= #[trigger] s.wires[j]
            < s.model.slots() by {
            if j < n + 1 {
                assert(s.wires[j] == before.wires[j]);
            }
        }
    }
}

/// No pass of a session is refused, whatever values are given, and whenever, as
/// long as its wires can be counted in a `usize` and its non-free gates numbered
/// in a `u32`.
pub proof fn law_sessions_are_accepted(
    uses: Seq<u8>,
    delta: S,
    seed: Seq<u8>,
    keep: bool,
    acts: Seq<Act>,
)
    requires
        in_scope(acts),
        covers(uses, session_plan(acts, acts.len()).model),
        session_plan(acts, acts.len()).model.uses.len() <= usize::MAX,
        session_plan(acts, acts.len()).model.tally.non_free() <= u32::MAX + 1,
    ensures
        admitted::<Plan>(PlanModel::initial(), acts),
        admitted::<Streaming>(StreamModel::initial(delta, seed, None, keep), acts),
        admitted::<Streaming>(StreamModel::initial(delta, seed, Some(uses), keep), acts),
{
    let u0 = StreamModel::initial(delta, seed, None, keep);
    let s0 = StreamModel::initial(delta, seed, Some(uses), keep);
    assert forall|n: nat| n < acts.len() implies admits::<Plan>(
        #[trigger] session::<Plan>(PlanModel::initial(), acts, n),
        acts[n as int],
    ) by {
        lemma_call_is_accepted(uses, delta, seed, keep, acts, n);
    }
    assert forall|n: nat| n < acts.len() implies admits::<Streaming>(
        #[trigger] session::<Streaming>(u0, acts, n),
        acts[n as int],
    ) by {
        lemma_call_is_accepted(uses, delta, seed, keep, acts, n);
    }
    assert forall|n: nat| n < acts.len() implies admits::<Streaming>(
        #[trigger] session::<Streaming>(s0, acts, n),
        acts[n as int],
    ) by {
        lemma_call_is_accepted(uses, delta, seed, keep, acts, n);
    }
}

proof fn lemma_call_is_accepted(
    uses: Seq<u8>,
    delta: S,
    seed: Seq<u8>,
    keep: bool,
    acts: Seq<Act>,
    n: nat,
)
    requires
        in_scope(acts),
        covers(uses, session_plan(acts, acts.len()).model),
        session_plan(acts, acts.len()).model.uses.len() <= usize::MAX,
        session_plan(acts, acts.len()).model.tally.non_free() <= u32::MAX + 1,
        n < acts.len(),
    ensures
        ({
            let u0 = StreamModel::initial(delta, seed, None, keep);
            let s0 = StreamModel::initial(delta, seed, Some(uses), keep);
            &&& admits::<Plan>(session_plan(acts, n), acts[n as int])
            &&& admits::<Streaming>(session::<Streaming>(u0, acts, n), acts[n as int])
            &&& admits::<Streaming>(session::<Streaming>(s0, acts, n), acts[n as int])
        }),
{
    let calls = at_once(acts, 0);
    let act = acts[n as int];
    let call = calls[n as int];
    let u0 = StreamModel::initial(delta, seed, None, keep);
    let s0 = StreamModel::initial(delta, seed, Some(uses), keep);
    lemma_at_once_scoped(acts, 0);
    lemma_at_once_plan(acts, 0, acts.len());
    lemma_at_once_plan(acts, 0, n);
    law_values_change_values_only(u0, acts, n);
    law_values_change_values_only(s0, acts, n);
    law_passes_are_accepted(uses, delta, seed, keep, calls);
    assert(takes::<Plan>(run::<Plan>(PlanModel::initial(), calls, n), call));
    assert(takes::<Streaming>(run::<Streaming>(u0, calls, n), call));
    assert(takes::<Streaming>(run::<Streaming>(s0, calls, n), call));
    if let Act::Assign(i, value) = act {
        lemma_plan_run(calls, n);
        lemma_unplanned(delta, seed, keep, calls, n);
        assert(0 <= plan_run(calls, n).wires[i] < plan_run(calls, n).model.uses.len());
        lemma_results_are_slots(uses, delta, seed, keep, calls, n);
    }
}

/// The gates of each kind are counted in a session, too: the tally of a kind is
/// the number of calls with a gate of that kind that is not folded.
pub proof fn law_session_tallies_count_the_gates_of_a_kind(
    acts: Seq<Act>,
    n: nat,
    kind: GateType,
)
    requires
        in_scope(acts),
        n <= acts.len(),
    ensures
        Set::new(
            |k: int|
                0 <= k < n && (acts[k] matches Act::Gate(g, i, j) && g == kind && fold(
                    g,
                    session_plan(acts, k as nat).wires[i],
                    session_plan(acts, k as nat).wires[j],
                ) is None),
        ).len() == match kind {
            GateType::And => session_plan(acts, n).model.tally.and,
            GateType::Or => session_plan(acts, n).model.tally.or,
            GateType::Xor => session_plan(acts, n).model.tally.xor,
        },
{
    let calls = at_once(acts, 0);
    law_tallies_count_the_gates_of_a_kind(calls, n, kind);
    lemma_at_once_plan(acts, 0, n);
    let of_acts = Set::new(
        |k: int|
            0 <= k < n && (acts[k] matches Act::Gate(g, i, j) && g == kind && fold(
                g,
                session_plan(acts, k as nat).wires[i],
                session_plan(acts, k as nat).wires[j],
            ) is None),
    );
    let of_calls = Set::new(
        |k: int|
            0 <= k < n && (calls[k] matches Call::Gate(g, i, j) && g == kind && fold(
                g,
                plan_run(calls, k as nat).wires[i],
                plan_run(calls, k as nat).wires[j],
            ) is None),
    );
    assert forall|k: int| of_acts.contains(k) == of_calls.contains(k) by {
        if 0 <= k < n {
            lemma_at_once_plan(acts, 0, k as nat);
            let call = calls[k];
        }
    }
    assert(of_acts =~= of_calls);
}

/// The values of a session at any point: the constants are false and true, a
/// fresh wire is false until it is given a value and then has the one given last,
/// and a gate has that of its truth table.
pub proof fn law_session_values_are_those_of_the_truth_tables(acts: Seq<Act>, n: nat, k: nat)
    requires
        in_scope(acts),
        set_before_read(acts),
        k < n <= acts.len(),
    ensures
        ({
            let v = session_values(acts, n);
            &&& v.len() == n + 2
            &&& !v[0]
            &&& v[1]
            &&& match acts[k as int] {
                Act::Fresh => (forall|m: int|
                    k < m < n ==> !(#[trigger] acts[m] matches Act::Assign(i, _) && i == k + 2))
                    ==> !v[k as int + 2],
                Act::Assign(i, value) => (forall|m: int|
                    k < m < n ==> !(#[trigger] acts[m] matches Act::Assign(l, _) && l == i))
                    ==> v[i] == value,
                Act::Gate(GateType::And, i, j) => v[k as int + 2] == (v[i] && v[j]),
                Act::Gate(GateType::Or, i, j) => v[k as int + 2] == (v[i] || v[j]),
                Act::Gate(GateType::Xor, i, j) => v[k as int + 2] == (v[i] != v[j]),
            }
        }),
    decreases n,
{
    let m = (n - 1) as nat;
    lemma_session_values_shape(acts, m);
    lemma_session_values_shape(acts, n);
    let act = acts[k as int];
    let last = acts[m as int];
    if k < m {
        law_session_values_are_those_of_the_truth_tables(acts, m, k);
        if let Act::Assign(l, _) = last {
            assert(unread(acts, l, m as int));
            assert(acts[l - 2] is Fresh);
        }
    }
}

proof fn lemma_session_values_shape(acts: Seq<Act>, n: nat)
    requires
        in_scope(acts),
        set_before_read(acts),
        n <= acts.len(),
    ensures
        session_values(acts, n).len() == n + 2,
        !session_values(acts, n)[0],
        session_values(acts, n)[1],
    decreases n,
{
    if n > 0 {
        lemma_session_values_shape(acts, (n - 1) as nat);
        let act = acts[n - 1];
    }
}

} // verus!
