//! What a circuit builder is.
//!
//! A builder hands out wires by number. Wire 0 is the constant false, wire 1
//! the constant true. Every builder folds the same gates away, so that all of
//! them emit the same circuit for the same calls.
use vstd::prelude::*;

use crate::gate::GateType;

verus! {

/// How many gates of each kind a builder has emitted. `direct_*` are single
/// gates; `custom*` is for gates that stand for a whole template.
#[derive(Clone, Copy, Debug, PartialEq, Eq)]
pub struct GateCounts {
    pub direct_and: usize,
    pub direct_xor: usize,
    pub direct_or: usize,
    pub custom: usize,
    pub custom_and: usize,
    pub custom_xor: usize,
    pub custom_or: usize,
}

/// The number of single gates of each kind.
pub struct Tally {
    pub and: nat,
    pub xor: nat,
    pub or: nat,
}

impl Tally {
    pub open spec fn zero() -> Tally {
        Tally { and: 0, xor: 0, or: 0 }
    }

    /// With one more gate.
    pub open spec fn plus(self, gate_type: GateType) -> Tally {
        match gate_type {
            GateType::And => Tally { and: self.and + 1, ..self },
            GateType::Xor => Tally { xor: self.xor + 1, ..self },
            GateType::Or => Tally { or: self.or + 1, ..self },
        }
    }

    /// The gates that carry a ciphertext.
    pub open spec fn non_free(self) -> nat {
        self.and + self.or
    }

    pub open spec fn total(self) -> nat {
        self.and + self.or + self.xor
    }
}

impl GateCounts {
    pub open spec fn tally(self) -> Tally {
        Tally {
            and: self.direct_and as nat,
            xor: self.direct_xor as nat,
            or: self.direct_or as nat,
        }
    }

    /// No gate of a template has been counted.
    pub open spec fn no_custom(self) -> bool {
        &&& self.custom == 0
        &&& self.custom_and == 0
        &&& self.custom_xor == 0
        &&& self.custom_or == 0
    }
}

pub(crate) fn zero_counts() -> (counts: GateCounts)
    ensures
        counts.tally() == Tally::zero(),
        counts.no_custom(),
        counts.direct_and == 0 && counts.direct_xor == 0 && counts.direct_or == 0,
{
    GateCounts {
        direct_and: 0,
        direct_xor: 0,
        direct_or: 0,
        custom: 0,
        custom_and: 0,
        custom_xor: 0,
        custom_or: 0,
    }
}

pub(crate) fn copy_counts(c: &GateCounts) -> (counts: GateCounts)
    ensures
        counts.tally() == c.tally(),
        counts.no_custom(),
        counts.direct_and == c.direct_and,
        counts.direct_xor == c.direct_xor,
        counts.direct_or == c.direct_or,
{
    GateCounts {
        direct_and: c.direct_and,
        direct_xor: c.direct_xor,
        direct_or: c.direct_or,
        custom: 0,
        custom_and: 0,
        custom_xor: 0,
        custom_or: 0,
    }
}

/// A gate as a builder stores it: wire `out` is `gate_type` of `x` and `y`.
#[derive(Clone, Copy, Debug, PartialEq, Eq, Structural)]
pub struct GateOperation {
    pub gate_type: GateType,
    pub x: usize,
    pub y: usize,
    pub out: usize,
}

/// A kind of gate that stands for a whole template.
#[derive(Clone, Copy, Debug, PartialEq, Eq, Structural)]
pub enum CustomGateType {
    PointAdd,
}

/// The gates that a custom gate stands for.
pub struct Template {
    pub gates: Vec<GateOperation>,
}

/// The wire that a gate on `x` and `y` is folded into, if it is:
///
/// `x ^ x = 0`, `x ^ 0 = x`; `x & x = x`, `x & 0 = 0`, `x & 1 = x`;
/// `x | x = x`, `x | 1 = 1`, `x | 0 = x`; each also with the operands swapped.
pub open spec fn fold(gate_type: GateType, x: int, y: int) -> Option<int> {
    match gate_type {
        GateType::Xor => if x == y {
            Some(0)
        } else if x == 0 {
            Some(y)
        } else if y == 0 {
            Some(x)
        } else {
            None
        },
        GateType::And => if x == y {
            Some(x)
        } else if x == 0 || y == 0 {
            Some(0)
        } else if x == 1 {
            Some(y)
        } else if y == 1 {
            Some(x)
        } else {
            None
        },
        GateType::Or => if x == y {
            Some(x)
        } else if x == 1 || y == 1 {
            Some(1)
        } else if x == 0 {
            Some(y)
        } else if y == 0 {
            Some(x)
        } else {
            None
        },
    }
}

/// Folding keeps every truth table: under any assignment of values to wires
/// that has wire 0 false and wire 1 true, the wire that a gate is folded into
/// has the value that its truth table gives.
pub proof fn law_folding_keeps_the_value(
    gate_type: GateType,
    x: int,
    y: int,
    value: spec_fn(int) -> bool,
)
    requires
        !value(0),
        value(1),
        fold(gate_type, x, y) is Some,
    ensures
        value(fold(gate_type, x, y)->0) == gate_type.apply(value(x), value(y)),
{
}

/// What a circuit builder does, as its contracts see it.
pub trait CircuitModel: Sized {
    /// The builder's state.
    type Model;

    spec fn wf(&self) -> bool;

    spec fn model(&self) -> Self::Model;

    /// Whether there is room for one more input wire.
    spec fn can_fresh(m: Self::Model) -> bool;

    /// The state after one more input wire, and the wire.
    spec fn fresh_step(m: Self::Model) -> (Self::Model, int);

    /// Whether a gate on `x` and `y` that is not folded can be emitted.
    spec fn can_emit(m: Self::Model, gate_type: GateType, x: int, y: int) -> bool;

    /// The state after a gate that is not folded, and its output wire.
    spec fn emit_step(m: Self::Model, gate_type: GateType, x: int, y: int) -> (Self::Model, int);

    /// The gates emitted so far.
    spec fn tally(m: Self::Model) -> Tally;

    /// The gates that the builder stores.
    spec fn gates(m: Self::Model) -> Seq<GateOperation>;

    /// The least number that no wire has had.
    spec fn next(m: Self::Model) -> nat;
}

/// What a gate on `x` and `y` does to a builder, and the wire it returns: a
/// folded gate changes nothing.
pub open spec fn gate_step<B: CircuitModel>(
    m: B::Model,
    gate_type: GateType,
    x: int,
    y: int,
) -> (B::Model, int) {
    match fold(gate_type, x, y) {
        Some(wire) => (m, wire),
        None => B::emit_step(m, gate_type, x, y),
    }
}

/// Whether a builder takes a gate on `x` and `y`.
pub open spec fn can_gate<B: CircuitModel>(
    m: B::Model,
    gate_type: GateType,
    x: int,
    y: int,
) -> bool {
    fold(gate_type, x, y) is None ==> B::can_emit(m, gate_type, x, y)
}

/// The folding rules, for every builder: a gate on equal operands, or with a
/// constant operand that leaves nothing to compute, is no gate. The builder stays
/// as it is, takes the call in any case, and returns an operand or a constant.
pub proof fn law_folded_gates_change_nothing<B: CircuitModel>(m: B::Model, x: int)
    ensures
        gate_step::<B>(m, GateType::Xor, x, x) == (m, 0int),
        gate_step::<B>(m, GateType::Xor, x, 0) == (m, x),
        gate_step::<B>(m, GateType::Xor, 0, x) == (m, x),
        gate_step::<B>(m, GateType::And, x, x) == (m, x),
        gate_step::<B>(m, GateType::And, x, 0) == (m, 0int),
        gate_step::<B>(m, GateType::And, 0, x) == (m, 0int),
        gate_step::<B>(m, GateType::And, x, 1) == (m, x),
        gate_step::<B>(m, GateType::And, 1, x) == (m, x),
        gate_step::<B>(m, GateType::Or, x, x) == (m, x),
        gate_step::<B>(m, GateType::Or, x, 1) == (m, 1int),
        gate_step::<B>(m, GateType::Or, 1, x) == (m, 1int),
        gate_step::<B>(m, GateType::Or, x, 0) == (m, x),
        gate_step::<B>(m, GateType::Or, 0, x) == (m, x),
        can_gate::<B>(m, GateType::Xor, x, x),
        can_gate::<B>(m, GateType::Xor, x, 0),
        can_gate::<B>(m, GateType::Xor, 0, x),
        forall|g: GateType, c: int|
            g != GateType::Xor && (c == 0 || c == 1 || c == x) ==> #[trigger] can_gate::<B>(
                m,
                g,
                x,
                c,
            ) && can_gate::<B>(m, g, c, x),
{
}

/// Every other gate is emitted: one on two different wires of which none is a
/// constant, and an XOR with the constant true.
pub proof fn law_other_gates_are_emitted<B: CircuitModel>(
    m: B::Model,
    gate_type: GateType,
    x: int,
    y: int,
)
    requires
        x != y,
        x != 0 && y != 0,
        gate_type == GateType::Xor || (x != 1 && y != 1),
    ensures
        fold(gate_type, x, y) is None,
        gate_step::<B>(m, gate_type, x, y) == B::emit_step(m, gate_type, x, y),
        can_gate::<B>(m, gate_type, x, y) == B::can_emit(m, gate_type, x, y),
{
}

/// A gate adds one to the count of its own kind, and to no other.
pub proof fn law_a_gate_is_counted_by_its_kind(tally: Tally, gate_type: GateType)
    ensures
        tally.plus(gate_type).and == tally.and + if gate_type == GateType::And {
            1nat
        } else {
            0
        },
        tally.plus(gate_type).or == tally.or + if gate_type == GateType::Or {
            1nat
        } else {
            0
        },
        tally.plus(gate_type).xor == tally.xor + if gate_type == GateType::Xor {
            1nat
        } else {
            0
        },
        tally.non_free() == tally.and + tally.or,
        tally.total() == tally.and + tally.or + tally.xor,
        Tally::zero().and == 0 && Tally::zero().or == 0 && Tally::zero().xor == 0,
{
}

/// The counters are read field by field.
pub proof fn law_counts_are_read_by_field(counts: GateCounts)
    ensures
        counts.tally().and == counts.direct_and,
        counts.tally().xor == counts.direct_xor,
        counts.tally().or == counts.direct_or,
        counts.no_custom() <==> counts.custom == 0 && counts.custom_and == 0 && counts.custom_xor
            == 0 && counts.custom_or == 0,
{
}

/// What `n` fresh wires do to a builder, and those wires.
pub open spec fn fresh_steps<B: CircuitModel>(m: B::Model, n: nat) -> (B::Model, Seq<int>)
    decreases n,
{
    if n == 0 {
        (m, Seq::empty())
    } else {
        let (before, wires) = fresh_steps::<B>(m, (n - 1) as nat);
        let (after, wire) = B::fresh_step(before);
        (after, wires.push(wire))
    }
}

/// Of `n` fresh wires, wire `i` is the fresh wire of the builder that has
/// created `i` of them before it.
pub proof fn law_fresh_wires_follow_each_other<B: CircuitModel>(m: B::Model, n: nat, i: nat)
    requires
        i < n,
    ensures
        fresh_steps::<B>(m, 0).0 == m,
        fresh_steps::<B>(m, n).1.len() == n,
        fresh_steps::<B>(m, n).1[i as int] == B::fresh_step(fresh_steps::<B>(m, i).0).1,
        fresh_steps::<B>(m, i + 1).0 == B::fresh_step(fresh_steps::<B>(m, i).0).0,
    decreases n,
{
    let before = (n - 1) as nat;
    if i < before {
        law_fresh_wires_follow_each_other::<B>(m, before, i);
    } else if n > 1 {
        law_fresh_wires_follow_each_other::<B>(m, before, 0);
    }
}

/// A builder of Boolean circuits.
pub trait CircuitTrait: CircuitModel {
    /// A new input wire.
    fn fresh_one(&mut self) -> (wire: usize)
        requires
            old(self).wf(),
            Self::can_fresh(old(self).model()),
        ensures
            final(self).wf(),
            (final(self).model(), wire as int) == Self::fresh_step(old(self).model()),
    ;

    /// `N` new input wires, in the order of their creation.
    fn fresh<const N: usize>(&mut self) -> (wires: [usize; N])
        requires
            old(self).wf(),
            forall|n: nat|
                n < N ==> Self::can_fresh(
                    (#[trigger] fresh_steps::<Self>(old(self).model(), n)).0,
                ),
        ensures
            final(self).wf(),
            final(self).model() == fresh_steps::<Self>(old(self).model(), N as nat).0,
            fresh_steps::<Self>(old(self).model(), N as nat).1.len() == N,
            forall|i: int|
                0 <= i < N ==> #[trigger] wires@[i] as int == fresh_steps::<Self>(
                    old(self).model(),
                    N as nat,
                ).1[i],
    {
        let mut wires = [0usize; N];
        let mut n: usize = 0;
        while n < N
            invariant
                n <= N,
                self.wf(),
                forall|k: nat|
                    k < N ==> Self::can_fresh(
                        (#[trigger] fresh_steps::<Self>(old(self).model(), k)).0,
                    ),
                self.model() == fresh_steps::<Self>(old(self).model(), n as nat).0,
                fresh_steps::<Self>(old(self).model(), n as nat).1.len() == n,
                forall|i: int|
                    0 <= i < n ==> wires@[i] as int == fresh_steps::<Self>(
                        old(self).model(),
                        n as nat,
                    ).1[i],
            decreases N - n,
        {
            wires[n] = self.fresh_one();
            n += 1;
        }
        wires
    }

    /// The constant false.
    fn zero(&mut self) -> (wire: usize)
        ensures
            wire == 0,
            *final(self) == *old(self),
    ;

    /// The constant true.
    fn one(&mut self) -> (wire: usize)
        ensures
            wire == 1,
            *final(self) == *old(self),
    ;

    fn xor_wire(&mut self, x: usize, y: usize) -> (wire: usize)
        requires
            old(self).wf(),
            can_gate::<Self>(old(self).model(), GateType::Xor, x as int, y as int),
        ensures
            final(self).wf(),
            (final(self).model(), wire as int) == gate_step::<Self>(
                old(self).model(),
                GateType::Xor,
                x as int,
                y as int,
            ),
    ;

    fn or_wire(&mut self, x: usize, y: usize) -> (wire: usize)
        requires
            old(self).wf(),
            can_gate::<Self>(old(self).model(), GateType::Or, x as int, y as int),
        ensures
            final(self).wf(),
            (final(self).model(), wire as int) == gate_step::<Self>(
                old(self).model(),
                GateType::Or,
                x as int,
                y as int,
            ),
    ;

    fn and_wire(&mut self, x: usize, y: usize) -> (wire: usize)
        requires
            old(self).wf(),
            can_gate::<Self>(old(self).model(), GateType::And, x as int, y as int),
        ensures
            final(self).wf(),
            (final(self).model(), wire as int) == gate_step::<Self>(
                old(self).model(),
                GateType::And,
                x as int,
                y as int,
            ),
    ;

    /// The gates that the builder stores.
    fn get_gates(&self) -> (gates: &Vec<GateOperation>)
        requires
            self.wf(),
        ensures
            gates@ == Self::gates(self.model()),
    ;

    fn gate_counts(&self) -> (counts: GateCounts)
        requires
            self.wf(),
        ensures
            counts.tally() == Self::tally(self.model()),
            counts.direct_and == Self::tally(self.model()).and,
            counts.direct_xor == Self::tally(self.model()).xor,
            counts.direct_or == Self::tally(self.model()).or,
    ;

    /// The template of a custom gate, for a builder that has custom gates.
    fn get_template(&self, templ_type: CustomGateType) -> (template: Option<&Template>);

    /// The least number that no wire has had.
    fn next_wire(&self) -> (wire: usize)
        requires
            self.wf(),
        ensures
            wire == Self::next(self.model()),
    ;
}

/// A builder that learns each input wire's value as the wire is allocated.
pub trait ValuedBuilder: CircuitTrait {
    /// Whether `wire` can be given a value.
    spec fn can_set(m: Self::Model, wire: int) -> bool;

    /// The state once `wire` has been given `value`.
    spec fn input_step(m: Self::Model, wire: int, value: bool) -> Self::Model;

    fn set_input(&mut self, wire: usize, value: bool)
        requires
            old(self).wf(),
            Self::can_set(old(self).model(), wire as int),
        ensures
            final(self).wf(),
            final(self).model() == Self::input_step(old(self).model(), wire as int, value),
    ;
}

} // verus!
