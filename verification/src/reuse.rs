//! That slots are released and reused, and that it makes no difference.
use vstd::prelude::*;
use vstd::set_lib::{
    lemma_int_range, lemma_map_size, lemma_set_difference_len, lemma_set_disjoint_lens,
    lemma_set_subset_finite, set_int_range,
};

use crate::builder::{fold, CircuitModel, ValuedBuilder};
use crate::circuit::{
    accepted, covers, law_plan_counts_reads, lemma_plan_grows, lemma_plan_run, plan_of, plan_run,
    reads, run, scoped, takes, values, Call, Pass,
};
use crate::evaluation::{lemma_unplanned, lemma_unplanned_values, unplanned_run};
use crate::gate::{output_label, GateType};
use crate::label::S;
use crate::plan::{use_once_more, Plan, PlanModel, PINNED};
use crate::streaming::{input_label, StreamModel, Streaming};

verus! {

/// Whether wire `w` still has its slot once the plan has counted `p`: it is
/// pinned, or nothing ever reads it, or a read is still to come.
pub open spec fn live(uses: Seq<u8>, p: PlanModel, w: int) -> bool {
    uses[w] == PINNED || uses[w] == 0 || p.uses[w] < uses[w]
}

/// The reads of wire `w` that are still to come; `PINNED` for a pinned wire.
spec fn reads_left(uses: Seq<u8>, p: PlanModel, w: int) -> u8 {
    if uses[w] == PINNED || uses[w] == 0 {
        uses[w]
    } else {
        (uses[w] - p.uses[w]) as u8
    }
}

/// Slot `slot` of the planned garbler `s` holds what slot `w` of the garbler `u`
/// without a plan holds.
spec fn same_wire(u: StreamModel, s: StreamModel, w: int, slot: int) -> bool {
    s.label0[slot] == u.label0[w] && s.value[slot] == u.value[w]
}

/// How a planned garbler `s` stands to one without a plan, `u`, and to the
/// plan `p` of the calls so far: the live wire `w` is in slot `home[w]`, and
/// the slot `t` that is not free holds the live wire `tenant[t]`.
#[verifier::opaque]
spec fn related(
    uses: Seq<u8>,
    p: PlanModel,
    u: StreamModel,
    s: StreamModel,
    home: Seq<int>,
    tenant: Seq<int>,
) -> bool {
    &&& 2 <= p.uses.len() <= uses.len()
    &&& uses[0] == PINNED && uses[1] == PINNED
    &&& u.plan is None
    &&& u.free.len() == 0
    &&& u.label0.len() == p.uses.len()
    &&& u.value.len() == p.uses.len()
    &&& u.remaining.len() == p.uses.len()
    &&& u.created == p.uses.len()
    &&& forall|w: int| 0 <= w < p.uses.len() ==> #[trigger] u.remaining[w] == PINNED
    &&& s.plan == Some(uses)
    &&& s.created == p.uses.len()
    &&& s.value.len() == s.slots()
    &&& s.remaining.len() == s.slots()
    &&& s.slots() >= 2
    &&& home.len() == p.uses.len()
    &&& home[0] == 0 && home[1] == 1
    &&& tenant.len() == s.slots()
    &&& forall|w: int|
        #![trigger home[w]]
        0 <= w < p.uses.len() && live(uses, p, w) ==> {
            &&& 0 <= home[w] < s.slots()
            &&& tenant[home[w]] == w
            &&& !s.free.contains(home[w])
            &&& same_wire(u, s, w, home[w])
            &&& s.remaining[home[w]] == reads_left(uses, p, w)
        }
    &&& forall|t: int|
        #![trigger tenant[t]]
        0 <= t < s.slots() && !s.free.contains(t) ==> {
            &&& 0 <= tenant[t] < p.uses.len()
            &&& live(uses, p, tenant[t])
            &&& home[tenant[t]] == t
        }
    &&& s.free.no_duplicates()
    &&& forall|i: int| 0 <= i < s.free.len() ==> 2 <= #[trigger] s.free[i] < s.slots()
    &&& forall|w: int| 2 <= w < p.uses.len() ==> #[trigger] home[w] >= 2
}

/// A read of the live wire `w`.
proof fn lemma_related_read(
    uses: Seq<u8>,
    p: PlanModel,
    u: StreamModel,
    s: StreamModel,
    home: Seq<int>,
    tenant: Seq<int>,
    w: int,
)
    requires
        related(uses, p, u, s, home, tenant),
        0 <= w < p.uses.len(),
        uses[w] == PINNED || p.uses[w] < uses[w],
    ensures
        related(uses, p.used(w), u, s.consumed(home[w]), home, tenant),
        u.consumed(w) == u,
        s.can_read(home[w]),
{
    reveal(related);
    let p2 = p.used(w);
    let t = home[w];
    let s2 = s.consumed(t);
    assert(u.remaining[w] == PINNED);
    assert(live(uses, p, w));
    assert forall|v: int| 0 <= v < p.uses.len() && v != w implies (live(uses, p2, v) == live(
        uses,
        p,
        v,
    ) && reads_left(uses, p2, v) == reads_left(uses, p, v)) by {}
    if uses[w] == PINNED {
        assert(s2 == s);
    } else {
        assert(s.remaining[t] == uses[w] - p.uses[w]);
        assert(p2.uses[w] == p.uses[w] + 1);
        if s.remaining[t] == 1 {
            assert(s2.free == s.free.push(t));
            assert(!live(uses, p2, w));
            assert forall|x: int| s2.free.contains(x) == (s.free.contains(x) || x == t) by {
                if s.free.contains(x) {
                    let i = choose|i: int| 0 <= i < s.free.len() && s.free[i] == x;
                    assert(s2.free[i] == x);
                }
                assert(s2.free[s.free.len() as int] == t);
            }
        } else {
            assert(s2.free == s.free);
            assert(live(uses, p2, w));
        }
    }
}

/// A new wire.
proof fn lemma_related_place(
    uses: Seq<u8>,
    p: PlanModel,
    u: StreamModel,
    s: StreamModel,
    home: Seq<int>,
    tenant: Seq<int>,
    value: bool,
    label: S,
) -> (next: (Seq<int>, Seq<int>))
    requires
        related(uses, p, u, s, home, tenant),
        p.uses.len() < uses.len(),
    ensures
        related(
            uses,
            p.with_wire(),
            u.placed(value, label).0,
            s.placed(value, label).0,
            next.0,
            next.1,
        ),
        u.placed(value, label).1 == p.uses.len(),
        next.0 == home.push(s.placed(value, label).1),
{
    reveal(related);
    let (s2, t) = s.placed(value, label);
    let (u2, _) = u.placed(value, label);
    let p2 = p.with_wire();
    let n = p.uses.len() as int;
    let home2 = home.push(t);
    let tenant2 = if s.free.len() > 0 {
        tenant.update(t, n)
    } else {
        tenant.push(n)
    };
    assert forall|v: int| 0 <= v < n implies (live(uses, p2, v) == live(uses, p, v) && reads_left(
        uses,
        p2,
        v,
    ) == reads_left(uses, p, v)) by {}
    assert(live(uses, p2, n) && reads_left(uses, p2, n) == uses[n]);
    if s.free.len() > 0 {
        assert(s.free[s.free.len() - 1] == t);
        assert(s.free.contains(t));
        assert forall|x: int| s2.free.contains(x) == (s.free.contains(x) && x != t) by {
            if s.free.contains(x) && x != t {
                let i = choose|i: int| 0 <= i < s.free.len() && s.free[i] == x;
                assert(s2.free[i] == x);
            }
            if s2.free.contains(x) {
                let i = choose|i: int| 0 <= i < s2.free.len() && s2.free[i] == x;
                assert(s.free[i] == x);
                assert(s.free[i] != s.free[s.free.len() - 1]);
            }
        }
    } else {
        assert(s2.free == s.free);
        assert forall|x: int| !s.free.contains(x) by {}
    }
    (home2, tenant2)
}

/// A live wire is given a value.
proof fn lemma_related_set(
    uses: Seq<u8>,
    p: PlanModel,
    u: StreamModel,
    s: StreamModel,
    home: Seq<int>,
    tenant: Seq<int>,
    w: int,
    value: bool,
)
    requires
        related(uses, p, u, s, home, tenant),
        0 <= w < p.uses.len(),
        live(uses, p, w),
    ensures
        related(
            uses,
            p,
            Streaming::input_step(u, w, value),
            Streaming::input_step(s, home[w], value),
            home,
            tenant,
        ),
        Streaming::can_set(s, home[w]),
{
    reveal(related);
}

/// The relation does not speak of tallies and ciphertexts.
proof fn lemma_related_frame(
    uses: Seq<u8>,
    p: PlanModel,
    u: StreamModel,
    s: StreamModel,
    home: Seq<int>,
    tenant: Seq<int>,
    p2: PlanModel,
    u2: StreamModel,
    s2: StreamModel,
)
    requires
        related(uses, p, u, s, home, tenant),
        p2 == (PlanModel { tally: p2.tally, ..p }),
        u2 == (StreamModel {
            tally: u2.tally,
            non_free: u2.non_free,
            ciphertexts: u2.ciphertexts,
            ..u
        }),
        s2 == (StreamModel {
            tally: s2.tally,
            non_free: s2.non_free,
            ciphertexts: s2.ciphertexts,
            ..s
        }),
    ensures
        related(uses, p2, u2, s2, home, tenant),
{
    reveal(related);
}

/// Both garblers have the same secrets and have counted and put out the same.
pub open spec fn same_output(u: StreamModel, s: StreamModel) -> bool {
    &&& s.delta == u.delta
    &&& s.seed == u.seed
    &&& s.created == u.created
    &&& s.tally == u.tally
    &&& s.non_free == u.non_free
    &&& s.keep_ciphertexts == u.keep_ciphertexts
    &&& s.ciphertexts == u.ciphertexts
}

/// A gate that is not folded.
proof fn lemma_related_emit(
    uses: Seq<u8>,
    p: PlanModel,
    u: StreamModel,
    s: StreamModel,
    home: Seq<int>,
    tenant: Seq<int>,
    gate_type: GateType,
    x: int,
    y: int,
) -> (next: (Seq<int>, Seq<int>))
    requires
        related(uses, p, u, s, home, tenant),
        same_output(u, s),
        0 <= x < p.uses.len(),
        0 <= y < p.uses.len(),
        x != y,
        uses[x] == PINNED || p.uses[x] < uses[x],
        uses[y] == PINNED || p.uses[y] < uses[y],
        p.uses.len() < uses.len(),
    ensures
        related(
            uses,
            Plan::emit_step(p, gate_type, x, y).0,
            Streaming::emit_step(u, gate_type, x, y).0,
            Streaming::emit_step(s, gate_type, home[x], home[y]).0,
            next.0,
            next.1,
        ),
        same_output(
            Streaming::emit_step(u, gate_type, x, y).0,
            Streaming::emit_step(s, gate_type, home[x], home[y]).0,
        ),
        Streaming::emit_step(u, gate_type, x, y).1 == p.uses.len(),
        next.0 == home.push(Streaming::emit_step(s, gate_type, home[x], home[y]).1),
        s.can_read(home[x]),
        s.can_read(home[y]),
        home[x] != home[y],
{
    let gid = u.non_free as u32;
    let value = gate_type.apply(u.value[x], u.value[y]);
    let label = output_label(gate_type, u.label0[x], u.label0[y], gid, u.delta);
    assert(same_wire(u, s, x, home[x]) && same_wire(u, s, y, home[y]) && home[x] != home[y]
        && s.can_read(home[y])) by {
        reveal(related);
        assert(live(uses, p, x) && live(uses, p, y));
    }
    lemma_related_read(uses, p, u, s, home, tenant, x);
    let s1 = s.consumed(home[x]);
    lemma_related_read(uses, p.used(x), u, s1, home, tenant, y);
    let s2 = s1.consumed(home[y]);
    let next = lemma_related_place(
        uses,
        p.used(x).used(y),
        u,
        s2,
        home,
        tenant,
        value,
        label,
    );
    lemma_related_frame(
        uses,
        p.used(x).used(y).with_wire(),
        u.placed(value, label).0,
        s2.placed(value, label).0,
        next.0,
        next.1,
        Plan::emit_step(p, gate_type, x, y).0,
        Streaming::emit_step(u, gate_type, x, y).0,
        Streaming::emit_step(s, gate_type, home[x], home[y]).0,
    );
    next
}

/// A garbler with the plan `uses`, after the first `n` calls.
pub open spec fn planned_run(
    uses: Seq<u8>,
    delta: S,
    seed: Seq<u8>,
    keep: bool,
    calls: Seq<Call>,
    n: nat,
) -> Pass<StreamModel> {
    run::<Streaming>(StreamModel::initial(delta, seed, Some(uses), keep), calls, n)
}

/// The wires that a gate reads which is not folded have a read left.
proof fn lemma_reads_are_planned(uses: Seq<u8>, calls: Seq<Call>, n: nat)
    requires
        scoped(calls),
        covers(uses, plan_of(calls)),
        n < calls.len(),
        calls[n as int] matches Call::Gate(g, i, j) && fold(
            g,
            plan_run(calls, n).wires[i],
            plan_run(calls, n).wires[j],
        ) is None,
    ensures
        calls[n as int] matches Call::Gate(g, i, j) && {
            let p = plan_run(calls, n);
            let (x, y) = (p.wires[i], p.wires[j]);
            &&& x != y
            &&& uses[x] == PINNED || p.model.uses[x] < uses[x]
            &&& uses[y] == PINNED || p.model.uses[y] < uses[y]
        },
        plan_run(calls, n).model.uses.len() < uses.len(),
{
    lemma_plan_run(calls, n);
    lemma_plan_grows(calls, n + 1, calls.len());
    let p = plan_run(calls, n);
    let q = plan_run(calls, n + 1);
    if let Call::Gate(g, i, j) = calls[n as int] {
        let (x, y) = (p.wires[i], p.wires[j]);
        assert(q.model.uses[x] == use_once_more(p.model.uses[x]));
        assert(q.model.uses[y] == use_once_more(p.model.uses[y]));
        assert(q.model.uses.len() == p.model.uses.len() + 1);
    }
}

/// A gate is folded in slots as it is in wires.
proof fn lemma_related_fold(
    uses: Seq<u8>,
    p: PlanModel,
    u: StreamModel,
    s: StreamModel,
    home: Seq<int>,
    tenant: Seq<int>,
    gate_type: GateType,
    x: int,
    y: int,
)
    requires
        related(uses, p, u, s, home, tenant),
        0 <= x < p.uses.len(),
        0 <= y < p.uses.len(),
        fold(gate_type, x, y) is None ==> home[x] != home[y],
    ensures
        fold(gate_type, home[x], home[y]) == (match fold(gate_type, x, y) {
            Some(w) => Some(home[w]),
            None => None,
        }),
{
    reveal(related);
}

/// The garbler with a plan does what the one without does.
proof fn lemma_runs_related(
    uses: Seq<u8>,
    delta: S,
    seed: Seq<u8>,
    keep: bool,
    calls: Seq<Call>,
    n: nat,
) -> (at: (Seq<int>, Seq<int>))
    requires
        scoped(calls),
        covers(uses, plan_of(calls)),
        n <= calls.len(),
    ensures
        related(
            uses,
            plan_run(calls, n).model,
            unplanned_run(delta, seed, keep, calls, n).model,
            planned_run(uses, delta, seed, keep, calls, n).model,
            at.0,
            at.1,
        ),
        unplanned_run(delta, seed, keep, calls, n).wires == plan_run(calls, n).wires,
        planned_run(uses, delta, seed, keep, calls, n).wires.len() == n + 2,
        forall|j: int|
            0 <= j < n + 2 ==> #[trigger] planned_run(uses, delta, seed, keep, calls, n).wires[j]
                == at.0[plan_run(calls, n).wires[j]],
        same_output(
            unplanned_run(delta, seed, keep, calls, n).model,
            planned_run(uses, delta, seed, keep, calls, n).model,
        ),
        unplanned_run(delta, seed, keep, calls, n).model.seed == seed,
        unplanned_run(delta, seed, keep, calls, n).model.delta == delta,
        unplanned_run(delta, seed, keep, calls, n).model.tally == plan_run(calls, n).model.tally,
        unplanned_run(delta, seed, keep, calls, n).model.non_free == plan_run(
            calls,
            n,
        ).model.tally.non_free(),
    decreases n,
{
    if n == 0 {
        lemma_plan_grows(calls, 0, calls.len());
        let home: Seq<int> = seq![0, 1];
        assert(plan_of(calls).uses[0] == PINNED && plan_of(calls).uses[1] == PINNED) by {
            lemma_plan_run(calls, calls.len());
        }
        assert(uses[0] == PINNED && uses[1] == PINNED);
        reveal(related);
        (home, home)
    } else {
        let m = (n - 1) as nat;
        let (home, tenant) = lemma_runs_related(uses, delta, seed, keep, calls, m);
        let p = plan_run(calls, m);
        let u = unplanned_run(delta, seed, keep, calls, m);
        let s = planned_run(uses, delta, seed, keep, calls, m);
        lemma_plan_run(calls, m);
        assert(home.len() == p.model.uses.len()) by {
            reveal(related);
        }
        match calls[m as int] {
            Call::Input(value) => {
                lemma_plan_grows(calls, n, calls.len());
                let label = input_label(seed, u.model.created);
                let at = lemma_related_place(
                    uses,
                    p.model,
                    u.model,
                    s.model,
                    home,
                    tenant,
                    false,
                    label,
                );
                let w = p.model.uses.len() as int;
                lemma_related_set(
                    uses,
                    p.model.with_wire(),
                    u.model.placed(false, label).0,
                    s.model.placed(false, label).0,
                    at.0,
                    at.1,
                    w,
                    value,
                );
                at
            },
            Call::Gate(g, i, j) => {
                let (x, y) = (p.wires[i], p.wires[j]);
                if fold(g, x, y) is None {
                    lemma_reads_are_planned(uses, calls, m);
                    let at = lemma_related_emit(
                        uses,
                        p.model,
                        u.model,
                        s.model,
                        home,
                        tenant,
                        g,
                        x,
                        y,
                    );
                    lemma_related_fold(uses, p.model, u.model, s.model, home, tenant, g, x, y);
                    at
                } else {
                    lemma_related_fold(uses, p.model, u.model, s.model, home, tenant, g, x, y);
                    (home, tenant)
                }
            },
        }
    }
}

/// A gate is folded in the garbler with a plan where it is in the plan, and the
/// wires that it reads otherwise are live.
pub(crate) proof fn lemma_operands_are_live(
    uses: Seq<u8>,
    delta: S,
    seed: Seq<u8>,
    keep: bool,
    calls: Seq<Call>,
    n: nat,
)
    requires
        scoped(calls),
        covers(uses, plan_of(calls)),
        n < calls.len(),
    ensures
        calls[n as int] matches Call::Gate(g, i, j) ==> {
            let p = plan_run(calls, n);
            let s = planned_run(uses, delta, seed, keep, calls, n);
            fold(g, s.wires[i], s.wires[j]) is None ==> {
                &&& live(uses, p.model, p.wires[i])
                &&& live(uses, p.model, p.wires[j])
            }
        },
{
    let (home, tenant) = lemma_runs_related(uses, delta, seed, keep, calls, n);
    let p = plan_run(calls, n);
    let u = unplanned_run(delta, seed, keep, calls, n);
    let s = planned_run(uses, delta, seed, keep, calls, n);
    lemma_plan_run(calls, n);
    if let Call::Gate(g, i, j) = calls[n as int] {
        let (x, y) = (p.wires[i], p.wires[j]);
        if fold(g, x, y) is None {
            lemma_reads_are_planned(uses, calls, n);
        } else {
            lemma_related_fold(uses, p.model, u.model, s.model, home, tenant, g, x, y);
        }
    }
}

/// The garbler with a plan has one value per slot, and its free slots are among
/// its slots.
pub(crate) proof fn lemma_planned_in_shape(
    uses: Seq<u8>,
    delta: S,
    seed: Seq<u8>,
    keep: bool,
    calls: Seq<Call>,
    n: nat,
)
    requires
        scoped(calls),
        covers(uses, plan_of(calls)),
        n <= calls.len(),
    ensures
        planned_run(uses, delta, seed, keep, calls, n).model.in_shape(),
{
    let at = lemma_runs_related(uses, delta, seed, keep, calls, n);
    reveal(related);
}

/// The plan and both garblers see the same wires: what the plan numbers by
/// creation index the garbler without a plan numbers alike, all three create
/// equally many wires, and all three count the same gates.
pub proof fn law_passes_see_the_same_wires(
    uses: Seq<u8>,
    delta: S,
    seed: Seq<u8>,
    keep: bool,
    calls: Seq<Call>,
    n: nat,
)
    requires
        scoped(calls),
        covers(uses, plan_of(calls)),
        n <= calls.len(),
    ensures
        unplanned_run(delta, seed, keep, calls, n).wires == plan_run(calls, n).wires,
        unplanned_run(delta, seed, keep, calls, n).model.created == plan_run(
            calls,
            n,
        ).model.uses.len(),
        planned_run(uses, delta, seed, keep, calls, n).model.created == plan_run(
            calls,
            n,
        ).model.uses.len(),
        unplanned_run(delta, seed, keep, calls, n).model.tally == plan_run(calls, n).model.tally,
        planned_run(uses, delta, seed, keep, calls, n).model.tally == plan_run(
            calls,
            n,
        ).model.tally,
{
    let at = lemma_runs_related(uses, delta, seed, keep, calls, n);
    reveal(related);
}

/// No pass of a build is refused, as long as its wires can be counted in a
/// `usize` and its non-free gates numbered in a `u32`. In particular no wire is
/// read more often than its plan says, and the plan has every wire.
pub proof fn law_passes_are_accepted(
    uses: Seq<u8>,
    delta: S,
    seed: Seq<u8>,
    keep: bool,
    calls: Seq<Call>,
)
    requires
        scoped(calls),
        covers(uses, plan_of(calls)),
        plan_of(calls).uses.len() <= usize::MAX,
        plan_of(calls).tally.non_free() <= u32::MAX + 1,
    ensures
        accepted::<Plan>(PlanModel::initial(), calls),
        accepted::<Streaming>(StreamModel::initial(delta, seed, None, keep), calls),
        accepted::<Streaming>(StreamModel::initial(delta, seed, Some(uses), keep), calls),
{
    assert forall|n: nat| n < calls.len() implies {
        &&& takes::<Plan>(
            #[trigger] run::<Plan>(PlanModel::initial(), calls, n),
            calls[n as int],
        )
        &&& takes::<Streaming>(
            unplanned_run(delta, seed, keep, calls, n),
            calls[n as int],
        )
        &&& takes::<Streaming>(
            planned_run(uses, delta, seed, keep, calls, n),
            calls[n as int],
        )
    } by {
        let (home, tenant) = lemma_runs_related(uses, delta, seed, keep, calls, n);
        let p = plan_run(calls, n);
        let u = unplanned_run(delta, seed, keep, calls, n);
        let s = planned_run(uses, delta, seed, keep, calls, n);
        lemma_plan_run(calls, n);
        lemma_plan_grows(calls, n + 1, calls.len());
        assert(u.model.slots() == p.model.uses.len() && s.model.created == p.model.uses.len()
            && u.model.created == p.model.uses.len() && u.model.plan is None && s.model.plan
            == Some(uses)) by {
            reveal(related);
        }
        match calls[n as int] {
            Call::Input(value) => {
                let label = input_label(seed, u.model.created);
                let at = lemma_related_place(
                    uses,
                    p.model,
                    u.model,
                    s.model,
                    home,
                    tenant,
                    false,
                    label,
                );
                lemma_related_set(
                    uses,
                    p.model.with_wire(),
                    u.model.placed(false, label).0,
                    s.model.placed(false, label).0,
                    at.0,
                    at.1,
                    p.model.uses.len() as int,
                    value,
                );
                assert(at.0[p.model.uses.len() as int] == s.model.placed(false, label).1) by {
                    reveal(related);
                }
                reveal(related);
            },
            Call::Gate(g, i, j) => {
                let (x, y) = (p.wires[i], p.wires[j]);
                if fold(g, x, y) is None {
                    lemma_reads_are_planned(uses, calls, n);
                    let at = lemma_related_emit(
                        uses,
                        p.model,
                        u.model,
                        s.model,
                        home,
                        tenant,
                        g,
                        x,
                        y,
                    );
                    assert(u.model.can_read(x) && u.model.can_read(y)) by {
                        reveal(related);
                        assert(u.model.remaining[x] == PINNED && u.model.remaining[y] == PINNED);
                    }
                    if !g.is_free() {
                        assert(plan_run(calls, n + 1).model.tally.non_free()
                            == p.model.tally.non_free() + 1);
                    }
                }
                lemma_related_fold(uses, p.model, u.model, s.model, home, tenant, g, x, y);
            },
        }
    }
    assert forall|n: nat| n < calls.len() implies takes::<Streaming>(
        #[trigger] run::<Streaming>(StreamModel::initial(delta, seed, None, keep), calls, n),
        calls[n as int],
    ) by {
        assert(takes::<Plan>(run::<Plan>(PlanModel::initial(), calls, n), calls[n as int]));
    }
    assert forall|n: nat| n < calls.len() implies takes::<Streaming>(
        #[trigger] run::<Streaming>(
            StreamModel::initial(delta, seed, Some(uses), keep),
            calls,
            n,
        ),
        calls[n as int],
    ) by {
        assert(takes::<Plan>(run::<Plan>(PlanModel::initial(), calls, n), calls[n as int]));
    }
}

/// That slots are released and reused cannot be seen: a garbler with a plan
/// puts out the same ciphertexts as one without, and at any point each result
/// whose wire is live has the same false label and the same value. Results with
/// different live wires are in different slots.
pub proof fn law_slot_reuse_is_invisible(
    uses: Seq<u8>,
    delta: S,
    seed: Seq<u8>,
    keep: bool,
    calls: Seq<Call>,
    n: nat,
)
    requires
        scoped(calls),
        covers(uses, plan_of(calls)),
        n <= calls.len(),
    ensures
        same_output(
            unplanned_run(delta, seed, keep, calls, n).model,
            planned_run(uses, delta, seed, keep, calls, n).model,
        ),
        forall|j: int|
            0 <= j < n + 2 && live(
                uses,
                plan_run(calls, n).model,
                #[trigger] plan_run(calls, n).wires[j],
            ) ==> {
                let u = unplanned_run(delta, seed, keep, calls, n);
                let s = planned_run(uses, delta, seed, keep, calls, n);
                &&& 0 <= s.wires[j] < s.model.slots()
                &&& !s.model.free.contains(s.wires[j])
                &&& s.model.label0[s.wires[j]] == u.model.label0[u.wires[j]]
                &&& s.model.value[s.wires[j]] == u.model.value[u.wires[j]]
            },
        forall|i: int, j: int|
            0 <= i < n + 2 && 0 <= j < n + 2 && live(
                uses,
                plan_run(calls, n).model,
                #[trigger] plan_run(calls, n).wires[i],
            ) && live(
                uses,
                plan_run(calls, n).model,
                #[trigger] plan_run(calls, n).wires[j],
            ) && plan_run(calls, n).wires[i] != plan_run(calls, n).wires[j] ==> planned_run(
                uses,
                delta,
                seed,
                keep,
                calls,
                n,
            ).wires[i] != planned_run(uses, delta, seed, keep, calls, n).wires[j],
{
    let (home, tenant) = lemma_runs_related(uses, delta, seed, keep, calls, n);
    let p = plan_run(calls, n);
    let s = planned_run(uses, delta, seed, keep, calls, n);
    lemma_plan_run(calls, n);
    reveal(related);
    assert forall|j: int| 0 <= j < n + 2 && live(uses, p.model, #[trigger] p.wires[j]) implies {
        let u = unplanned_run(delta, seed, keep, calls, n);
        &&& 0 <= s.wires[j] < s.model.slots()
        &&& !s.model.free.contains(s.wires[j])
        &&& s.model.label0[s.wires[j]] == u.model.label0[u.wires[j]]
        &&& s.model.value[s.wires[j]] == u.model.value[u.wires[j]]
    } by {
        assert(s.wires[j] == home[p.wires[j]]);
    }
    assert forall|i: int, j: int|
        0 <= i < n + 2 && 0 <= j < n + 2 && live(uses, p.model, #[trigger] p.wires[i]) && live(
            uses,
            p.model,
            #[trigger] p.wires[j],
        ) && p.wires[i] != p.wires[j] implies s.wires[i] != s.wires[j] by {
        assert(s.wires[i] == home[p.wires[i]]);
        assert(s.wires[j] == home[p.wires[j]]);
    }
}

/// The circuit is evaluated correctly: at any point, a result whose wire is
/// live has in the garbler the value that the truth tables give it.
pub proof fn law_values_follow_the_inputs(
    uses: Seq<u8>,
    delta: S,
    seed: Seq<u8>,
    keep: bool,
    calls: Seq<Call>,
    n: nat,
    j: int,
)
    requires
        scoped(calls),
        covers(uses, plan_of(calls)),
        n <= calls.len(),
        0 <= j < n + 2,
    ensures
        ({
            let u = unplanned_run(delta, seed, keep, calls, n);
            u.model.value[u.wires[j]] == values(calls, n)[j]
        }),
        live(uses, plan_run(calls, n).model, plan_run(calls, n).wires[j]) ==> ({
            let s = planned_run(uses, delta, seed, keep, calls, n);
            s.model.value[s.wires[j]] == values(calls, n)[j]
        }),
{
    lemma_unplanned_values(delta, seed, keep, calls, n);
    law_slot_reuse_is_invisible(uses, delta, seed, keep, calls, n);
    assert(unplanned_run(delta, seed, keep, calls, n).wires[j] == plan_run(calls, n).wires[j]) by {
        lemma_unplanned(delta, seed, keep, calls, n);
    }
}

/// The two constants keep slots 0 and 1 forever.
pub proof fn law_constants_keep_their_slots(
    uses: Seq<u8>,
    delta: S,
    seed: Seq<u8>,
    keep: bool,
    calls: Seq<Call>,
    n: nat,
)
    requires
        scoped(calls),
        covers(uses, plan_of(calls)),
        n <= calls.len(),
    ensures
        ({
            let s = planned_run(uses, delta, seed, keep, calls, n).model;
            &&& !s.free.contains(0)
            &&& !s.free.contains(1)
            &&& !s.value[0]
            &&& s.value[1]
            &&& s.label0[0] == input_label(seed, 0)
            &&& s.label0[1] == input_label(seed, 1)
        }),
{
    let (home, tenant) = lemma_runs_related(uses, delta, seed, keep, calls, n);
    lemma_unplanned(delta, seed, keep, calls, n);
    reveal(related);
    let p = plan_run(calls, n).model;
    assert(live(uses, p, 0) && live(uses, p, 1));
    assert(home[0] == 0 && home[1] == 1);
}

/// The wires that have a slot once the plan has counted `p`.
pub open spec fn live_wires(uses: Seq<u8>, p: PlanModel) -> Set<int> {
    set_int_range(0, p.uses.len() as int).filter(|w: int| live(uses, p, w))
}

/// At any point every slot that is not free holds a live wire, and each live
/// wire is in one slot: the slots in use are as many as the live wires.
pub proof fn law_slots_in_use_are_live_wires(
    uses: Seq<u8>,
    delta: S,
    seed: Seq<u8>,
    keep: bool,
    calls: Seq<Call>,
    n: nat,
)
    requires
        scoped(calls),
        covers(uses, plan_of(calls)),
        n <= calls.len(),
    ensures
        live_wires(uses, plan_run(calls, n).model).finite(),
        ({
            let s = planned_run(uses, delta, seed, keep, calls, n).model;
            live_wires(uses, plan_run(calls, n).model).len() == s.slots() - s.free.len()
        }),
{
    let (home, tenant) = lemma_runs_related(uses, delta, seed, keep, calls, n);
    let p = plan_run(calls, n).model;
    let s = planned_run(uses, delta, seed, keep, calls, n).model;
    let all = set_int_range(0, s.slots() as int);
    let free = s.free.to_set();
    let taken = all.difference(free);
    let wires = live_wires(uses, p);
    reveal(related);
    lemma_int_range(0, s.slots() as int);
    lemma_int_range(0, p.uses.len() as int);
    lemma_set_subset_finite(
        set_int_range(0, p.uses.len() as int),
        wires,
    );
    s.free.unique_seq_to_set();
    assert(free.subset_of(all)) by {
        assert forall|t: int| free.contains(t) implies all.contains(t) by {
            let i = choose|i: int| 0 <= i < s.free.len() && s.free[i] == t;
            assert(2 <= s.free[i] < s.slots());
        }
    }
    assert(all.intersect(free) =~= free);
    lemma_set_difference_len(all, free);
    lemma_set_disjoint_lens(taken, free);
    assert(taken.union(free) =~= all);
    let f = |w: int| home[w];
    assert forall|a: int| wires.contains(a) implies taken.contains(f(a)) by {
        assert(!s.free.contains(home[a]));
    }
    assert forall|t: int| taken.contains(t) implies exists|a: int|
        #![trigger f(a)]
        wires.contains(a) && f(a) == t by {
        assert(!s.free.contains(t));
        assert(wires.contains(tenant[t]) && f(tenant[t]) == t);
    }
    assert(wires.map(f) =~= taken);
    lemma_map_size(wires, taken, f);
}

/// How the peak comes about.
proof fn lemma_peak(
    uses: Seq<u8>,
    delta: S,
    seed: Seq<u8>,
    keep: bool,
    calls: Seq<Call>,
    n: nat,
) -> (k: nat)
    requires
        scoped(calls),
        covers(uses, plan_of(calls)),
        n <= calls.len(),
    ensures
        k <= n,
        ({
            let s = planned_run(uses, delta, seed, keep, calls, n).model;
            let at = planned_run(uses, delta, seed, keep, calls, k).model;
            &&& s.peak_live == s.slots()
            &&& s.slots() == at.slots() - at.free.len()
            &&& forall|m: nat|
                m <= n ==> (#[trigger] planned_run(uses, delta, seed, keep, calls, m)).model.slots()
                    <= s.slots()
        }),
    decreases n,
{
    if n == 0 {
        0
    } else {
        let m = (n - 1) as nat;
        let k = lemma_peak(uses, delta, seed, keep, calls, m);
        let s = planned_run(uses, delta, seed, keep, calls, m).model;
        let t = planned_run(uses, delta, seed, keep, calls, n).model;
        let (home, tenant) = lemma_runs_related(uses, delta, seed, keep, calls, m);
        lemma_plan_run(calls, m);
        let p = plan_run(calls, m);
        let u = unplanned_run(delta, seed, keep, calls, m).model;
        let wires = planned_run(uses, delta, seed, keep, calls, m).wires;
        match calls[m as int] {
            Call::Input(_) => {
                assert(s.free.len() > 0 ==> 0 <= s.free.last() < s.slots()) by {
                    reveal(related);
                    assert(s.free.len() > 0 ==> 2 <= s.free[s.free.len() - 1] < s.slots());
                }
            },
            Call::Gate(g, i, j) => {
                let (x, y) = (p.wires[i], p.wires[j]);
                assert(wires[i] == home[x] && wires[j] == home[y]);
                if fold(g, x, y) is None {
                    lemma_reads_are_planned(uses, calls, m);
                    lemma_related_read(uses, p.model, u, s, home, tenant, x);
                    let s1 = s.consumed(home[x]);
                    lemma_related_read(uses, p.model.used(x), u, s1, home, tenant, y);
                    let s2 = s1.consumed(home[y]);
                    assert(s2.free.len() > 0 ==> 0 <= s2.free.last() < s2.slots()) by {
                        reveal(related);
                        assert(s2.free.len() > 0 ==> 2 <= s2.free[s2.free.len() - 1] < s2.slots());
                    }
                    assert(home[x] != home[y]) by {
                        reveal(related);
                        assert(live(uses, p.model, x) && live(uses, p.model, y));
                    }
                }
                lemma_related_fold(uses, p.model, u, s, home, tenant, g, x, y);
            },
        }
        assert(t.slots() == s.slots() || (t.slots() == s.slots() + 1 && t.free.len() == 0));
        assert(t.peak_live == t.slots());
        if t.slots() == s.slots() {
            k
        } else {
            n
        }
    }
}

/// The slots that a build takes are the most wires ever live at once.
pub proof fn law_peak_is_the_most_live_wires(
    uses: Seq<u8>,
    delta: S,
    seed: Seq<u8>,
    keep: bool,
    calls: Seq<Call>,
)
    requires
        scoped(calls),
        covers(uses, plan_of(calls)),
    ensures
        forall|n: nat|
            n <= calls.len() ==> live_wires(uses, (#[trigger] plan_run(calls, n)).model).len()
                <= planned_run(uses, delta, seed, keep, calls, calls.len()).model.peak_live,
        exists|n: nat|
            n <= calls.len() && live_wires(uses, (#[trigger] plan_run(calls, n)).model).len()
                == planned_run(uses, delta, seed, keep, calls, calls.len()).model.peak_live,
{
    let k = lemma_peak(uses, delta, seed, keep, calls, calls.len());
    law_slots_in_use_are_live_wires(uses, delta, seed, keep, calls, k);
    assert(live_wires(uses, plan_run(calls, k).model).len() == planned_run(
        uses,
        delta,
        seed,
        keep,
        calls,
        calls.len(),
    ).model.peak_live);
    assert forall|n: nat| n <= calls.len() implies live_wires(
        uses,
        (#[trigger] plan_run(calls, n)).model,
    ).len() <= planned_run(uses, delta, seed, keep, calls, calls.len()).model.peak_live by {
        law_slots_in_use_are_live_wires(uses, delta, seed, keep, calls, n);
        assert(planned_run(uses, delta, seed, keep, calls, n).model.slots() <= planned_run(
            uses,
            delta,
            seed,
            keep,
            calls,
            calls.len(),
        ).model.slots());
    }
}

/// A result that the plan was told to keep can be read after the build: it is
/// in its slot still, with its value and its label.
pub proof fn law_kept_results_can_be_read(
    delta: S,
    seed: Seq<u8>,
    keep: bool,
    calls: Seq<Call>,
    j: int,
)
    requires
        scoped(calls),
        0 <= j < calls.len() + 2,
    ensures
        ({
            let n = calls.len();
            let uses = plan_of(calls).kept(plan_run(calls, n).wires[j]).uses;
            let u = unplanned_run(delta, seed, keep, calls, n);
            let s = planned_run(uses, delta, seed, keep, calls, n);
            &&& 0 <= s.wires[j] < s.model.slots()
            &&& !s.model.free.contains(s.wires[j])
            &&& s.model.value[s.wires[j]] == values(calls, n)[j]
            &&& s.model.label0[s.wires[j]] == u.model.label0[u.wires[j]]
        }),
{
    let n = calls.len();
    lemma_plan_run(calls, n);
    let w = plan_run(calls, n).wires[j];
    let uses = plan_of(calls).kept(w).uses;
    assert(uses[w] == PINNED);
    law_slot_reuse_is_invisible(uses, delta, seed, keep, calls, n);
    law_values_follow_the_inputs(uses, delta, seed, keep, calls, n, j);
}

/// A plan in which the wires of the given results are kept, one after the other.
pub open spec fn kept_one_by_one(plan: PlanModel, wires: Seq<int>, results: Seq<int>) -> PlanModel
    decreases results.len(),
{
    if results.len() == 0 {
        plan
    } else {
        kept_one_by_one(plan, wires, results.drop_last()).kept(wires[results.last()])
    }
}

/// Keeping wires one after the other pins each of them and no other.
proof fn lemma_kept_one_by_one(plan: PlanModel, wires: Seq<int>, results: Seq<int>)
    requires
        forall|r: int| 0 <= r < results.len() ==> 0 <= #[trigger] results[r] < wires.len(),
        forall|j: int| 0 <= j < wires.len() ==> 0 <= #[trigger] wires[j] < plan.uses.len(),
    ensures
        ({
            let uses = kept_one_by_one(plan, wires, results).uses;
            &&& covers(uses, plan)
            &&& forall|r: int| 0 <= r < results.len() ==> uses[wires[#[trigger] results[r]]] == 255
            &&& forall|w: int|
                0 <= w < uses.len() && (forall|r: int|
                    0 <= r < results.len() ==> wires[#[trigger] results[r]] != w)
                    ==> #[trigger] uses[w] == plan.uses[w]
        }),
    decreases results.len(),
{
    if results.len() > 0 {
        let before = results.drop_last();
        let last = results.len() - 1;
        assert forall|r: int| 0 <= r < before.len() implies 0 <= #[trigger] before[r]
            < wires.len() by {
            assert(before[r] == results[r]);
        }
        lemma_kept_one_by_one(plan, wires, before);
        let old_uses = kept_one_by_one(plan, wires, before).uses;
        let uses = kept_one_by_one(plan, wires, results).uses;
        assert(0 <= results[last] < wires.len());
        assert(0 <= wires[results[last]] < plan.uses.len());
        assert forall|r: int| 0 <= r < results.len() implies uses[wires[#[trigger] results[r]]]
            == 255 by {
            if r < last {
                assert(before[r] == results[r]);
                assert(old_uses[wires[before[r]]] == 255);
            }
        }
        assert forall|w: int|
            0 <= w < uses.len() && (forall|r: int|
                0 <= r < results.len() ==> wires[#[trigger] results[r]] != w) implies
            #[trigger] uses[w] == plan.uses[w] by {
            assert(wires[results[last]] != w);
            assert forall|r: int| 0 <= r < before.len() implies wires[#[trigger] before[r]] != w by {
                assert(before[r] == results[r]);
            }
            assert(uses[w] == old_uses[w]);
        }
    }
}

/// Any results that the plan was told to keep, one after the other, can all be
/// read after the build: each is in a slot that has not been released, different
/// wires in different slots, with the value of the truth tables and the label
/// that it has without a plan. The use counts of the other wires are as they
/// were.
pub proof fn law_all_kept_results_can_be_read(
    delta: S,
    seed: Seq<u8>,
    keep: bool,
    calls: Seq<Call>,
    results: Seq<int>,
)
    requires
        scoped(calls),
        forall|r: int| 0 <= r < results.len() ==> 0 <= #[trigger] results[r] < calls.len() + 2,
    ensures
        ({
            let n = calls.len();
            let p = plan_run(calls, n);
            let uses = kept_one_by_one(p.model, p.wires, results).uses;
            let u = unplanned_run(delta, seed, keep, calls, n);
            let s = planned_run(uses, delta, seed, keep, calls, n);
            &&& uses.len() == p.model.uses.len()
            &&& forall|w: int|
                0 <= w < uses.len() && (forall|r: int|
                    0 <= r < results.len() ==> p.wires[#[trigger] results[r]] != w)
                    ==> #[trigger] uses[w] == p.model.uses[w]
            &&& forall|r: int|
                #![trigger results[r]]
                0 <= r < results.len() ==> {
                    let j = results[r];
                    &&& uses[p.wires[j]] == 255
                    &&& 0 <= s.wires[j] < s.model.slots()
                    &&& !s.model.free.contains(s.wires[j])
                    &&& s.model.value[s.wires[j]] == values(calls, n)[j]
                    &&& s.model.label0[s.wires[j]] == u.model.label0[u.wires[j]]
                }
            &&& forall|q: int, r: int|
                #![trigger results[q], results[r]]
                0 <= q < results.len() && 0 <= r < results.len() && p.wires[results[q]]
                    != p.wires[results[r]] ==> s.wires[results[q]] != s.wires[results[r]]
        }),
{
    let n = calls.len();
    let p = plan_run(calls, n);
    let uses = kept_one_by_one(p.model, p.wires, results).uses;
    lemma_plan_run(calls, n);
    lemma_kept_one_by_one(p.model, p.wires, results);
    law_slot_reuse_is_invisible(uses, delta, seed, keep, calls, n);
    assert forall|r: int| #![trigger results[r]] 0 <= r < results.len() implies live(
        uses,
        p.model,
        p.wires[results[r]],
    ) by {
        assert(uses[p.wires[results[r]]] == 255);
    }
    let u = unplanned_run(delta, seed, keep, calls, n);
    let s = planned_run(uses, delta, seed, keep, calls, n);
    assert forall|r: int| #![trigger results[r]] 0 <= r < results.len() implies {
        let j = results[r];
        &&& 0 <= s.wires[j] < s.model.slots()
        &&& !s.model.free.contains(s.wires[j])
        &&& s.model.value[s.wires[j]] == values(calls, n)[j]
        &&& s.model.label0[s.wires[j]] == u.model.label0[u.wires[j]]
    } by {
        law_values_follow_the_inputs(uses, delta, seed, keep, calls, n, results[r]);
    }
}

/// A wire that the build reads 255 times or more is never released.
pub proof fn law_busy_wires_are_never_released(
    uses: Seq<u8>,
    calls: Seq<Call>,
    n: nat,
    w: int,
)
    requires
        scoped(calls),
        covers(uses, plan_of(calls)),
        n <= calls.len(),
        0 <= w < plan_run(calls, n).model.uses.len(),
        reads(calls, calls.len(), w) >= PINNED,
    ensures
        live(uses, plan_run(calls, n).model, w),
{
    lemma_plan_grows(calls, n, calls.len());
    law_plan_counts_reads(calls, calls.len(), w);
    assert(uses[w] == PINNED);
}

} // verus!
