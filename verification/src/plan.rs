//! The first pass: how often each wire is read.
use vstd::prelude::*;

use crate::builder::{
    can_gate, copy_counts, fresh_steps, gate_step, zero_counts, CircuitModel, CircuitTrait,
    CustomGateType, GateCounts, GateOperation, Tally, Template, ValuedBuilder,
};
use crate::chunked::Chunked;
use crate::gate::GateType;

verus! {

/// A wire used this often is never released.
pub const PINNED: u8 = 255;

/// One more use, counted up to `PINNED`.
pub open spec fn use_once_more(uses: u8) -> u8 {
    if uses == PINNED {
        PINNED
    } else {
        (uses + 1) as u8
    }
}

/// What a plan holds: the number of uses of each wire, by creation index, and
/// the gates counted.
#[verifier::ext_equal]
pub struct PlanModel {
    pub uses: Seq<u8>,
    pub tally: Tally,
}

impl PlanModel {
    /// The two constants, which are never released.
    pub open spec fn initial() -> PlanModel {
        PlanModel { uses: seq![PINNED, PINNED], tally: Tally::zero() }
    }

    /// With one more use of `x`.
    pub open spec fn used(self, x: int) -> PlanModel {
        PlanModel { uses: self.uses.update(x, use_once_more(self.uses[x])), ..self }
    }

    /// With one more wire, which nothing has used.
    pub open spec fn with_wire(self) -> PlanModel {
        PlanModel { uses: self.uses.push(0), ..self }
    }

    /// With `wire` pinned.
    pub open spec fn kept(self, wire: int) -> PlanModel {
        PlanModel { uses: self.uses.update(wire, PINNED), ..self }
    }
}

/// The first pass: the number of uses of each wire, by creation index, with
/// the same folding as the garbling pass so that the two see the same wires.
pub struct Plan {
    uses: Chunked<u8>,
    counts: GateCounts,
    empty: Vec<GateOperation>,
}

impl CircuitModel for Plan {
    type Model = PlanModel;

    closed spec fn wf(&self) -> bool {
        &&& self.uses.wf()
        &&& self.uses@.len() >= 2
        &&& self.uses@[0] == PINNED
        &&& self.uses@[1] == PINNED
        &&& self.counts.tally().total() + 2 <= self.uses@.len()
        &&& self.empty@.len() == 0
    }

    closed spec fn model(&self) -> PlanModel {
        PlanModel { uses: self.uses@, tally: self.counts.tally() }
    }

    open spec fn can_fresh(m: PlanModel) -> bool {
        m.uses.len() < usize::MAX
    }

    open spec fn fresh_step(m: PlanModel) -> (PlanModel, int) {
        (m.with_wire(), m.uses.len() as int)
    }

    open spec fn can_emit(m: PlanModel, gate_type: GateType, x: int, y: int) -> bool {
        &&& 0 <= x < m.uses.len()
        &&& 0 <= y < m.uses.len()
        &&& m.uses.len() < usize::MAX
    }

    open spec fn emit_step(m: PlanModel, gate_type: GateType, x: int, y: int) -> (PlanModel, int) {
        (
            PlanModel { tally: m.tally.plus(gate_type), ..m.used(x).used(y).with_wire() },
            m.uses.len() as int,
        )
    }

    open spec fn tally(m: PlanModel) -> Tally {
        m.tally
    }

    open spec fn gates(m: PlanModel) -> Seq<GateOperation> {
        Seq::empty()
    }

    open spec fn next(m: PlanModel) -> nat {
        m.uses.len()
    }
}

impl Plan {
    /// The constants are pinned in every plan, and every gate has created a wire.
    pub proof fn law_constants_are_pinned(&self)
        requires
            self.wf(),
        ensures
            self.model().uses.len() >= 2,
            self.model().uses[0] == PINNED,
            self.model().uses[1] == PINNED,
            self.model().tally.total() + 2 <= self.model().uses.len(),
    {
    }

    /// The plan of a build that has made no call yet.
    pub fn new() -> (plan: Self)
        ensures
            plan.wf(),
            plan.model() == PlanModel::initial(),
    {
        let mut me = Self { uses: Chunked::new(), counts: zero_counts(), empty: Vec::new() };
        me.uses.push(PINNED);
        me.uses.push(PINNED);
        assert(me.model() =~= PlanModel::initial());
        me
    }

    fn allocate(&mut self) -> (wire: usize)
        requires
            old(self).wf(),
            Self::can_fresh(old(self).model()),
        ensures
            final(self).wf(),
            (final(self).model(), wire as int) == Self::fresh_step(old(self).model()),
            final(self).counts == old(self).counts,
    {
        self.uses.push(0);
        self.uses.len() - 1
    }

    fn used(&mut self, x: usize)
        requires
            old(self).wf(),
            x < old(self).model().uses.len(),
        ensures
            final(self).wf(),
            final(self).model() == old(self).model().used(x as int),
            final(self).counts == old(self).counts,
    {
        let u: u8 = self.uses.get(x);
        self.uses.set(x, u.saturating_add(1));
    }

    /// The wires created, the two constants included.
    pub fn wires(&self) -> (wires: usize)
        ensures
            wires == self.model().uses.len(),
    {
        self.uses.len()
    }

    /// A wire read after the build, such as an output, is never released:
    /// otherwise its slot goes to a later wire once the last gate has read it.
    pub fn keep(&mut self, wire: usize)
        requires
            old(self).wf(),
            wire < old(self).model().uses.len(),
        ensures
            final(self).wf(),
            final(self).model() == old(self).model().kept(wire as int),
            final(self).model().uses == old(self).model().uses.update(wire as int, 255u8),
            final(self).model().tally == old(self).model().tally,
    {
        self.uses.set(wire, PINNED);
    }

    /// The use counts.
    pub(crate) fn into_uses(self) -> (uses: Chunked<u8>)
        requires
            self.wf(),
        ensures
            uses.wf(),
            uses@ == self.model().uses,
            uses@.len() >= 2,
            uses@[0] == PINNED,
            uses@[1] == PINNED,
    {
        self.uses
    }
}

impl Default for Plan {
    fn default() -> (plan: Self)
        ensures
            plan.wf(),
            plan.model() == PlanModel::initial(),
    {
        Self::new()
    }
}

impl CircuitTrait for Plan {
    fn fresh_one(&mut self) -> (wire: usize) {
        self.allocate()
    }

    fn zero(&mut self) -> (wire: usize) {
        0
    }

    fn one(&mut self) -> (wire: usize) {
        1
    }

    fn xor_wire(&mut self, x: usize, y: usize) -> (wire: usize) {
        if x == y {
            return 0;
        }
        if x == 0 {
            return y;
        }
        if y == 0 {
            return x;
        }
        self.used(x);
        self.used(y);
        let wire: usize = self.allocate();
        self.counts.direct_xor += 1;
        wire
    }

    fn or_wire(&mut self, x: usize, y: usize) -> (wire: usize) {
        if x == y {
            return x;
        }
        if x == 1 || y == 1 {
            return 1;
        }
        if x == 0 {
            return y;
        }
        if y == 0 {
            return x;
        }
        self.used(x);
        self.used(y);
        let wire: usize = self.allocate();
        self.counts.direct_or += 1;
        wire
    }

    fn and_wire(&mut self, x: usize, y: usize) -> (wire: usize) {
        if x == y {
            return x;
        }
        if x == 0 || y == 0 {
            return 0;
        }
        if x == 1 {
            return y;
        }
        if y == 1 {
            return x;
        }
        self.used(x);
        self.used(y);
        let wire: usize = self.allocate();
        self.counts.direct_and += 1;
        wire
    }

    /// No gate is stored.
    fn get_gates(&self) -> (gates: &Vec<GateOperation>) {
        &self.empty
    }

    fn gate_counts(&self) -> (counts: GateCounts)
        ensures
            counts.no_custom(),
    {
        copy_counts(&self.counts)
    }

    /// There are no custom gates.
    fn get_template(&self, _templ_type: CustomGateType) -> (template: Option<&Template>)
        ensures
            template is None,
    {
        None
    }

    fn next_wire(&self) -> (wire: usize) {
        self.uses.len()
    }
}

impl ValuedBuilder for Plan {
    open spec fn can_set(m: PlanModel, wire: int) -> bool {
        true
    }

    open spec fn input_step(m: PlanModel, wire: int, value: bool) -> PlanModel {
        m
    }

    /// The count does not depend on any value.
    fn set_input(&mut self, _wire: usize, _value: bool) {
    }
}

/// Keeping a wire sets its use count to 255, the count of a wire that is never
/// released, and leaves every other count as it is, whatever has been kept
/// before.
pub proof fn law_keeping_pins_one_wire(m: PlanModel, wire: int)
    requires
        0 <= wire < m.uses.len(),
    ensures
        PINNED == 255,
        m.kept(wire).uses.len() == m.uses.len(),
        m.kept(wire).uses[wire] == 255,
        forall|w: int|
            0 <= w < m.uses.len() && w != wire ==> #[trigger] m.kept(wire).uses[w] == m.uses[w],
        m.kept(wire).tally == m.tally,
{
}

/// What one call does to a plan. It starts with the two constants, which count
/// as used 255 times. A fresh wire is the next number, with no use. A gate that
/// is not folded adds one use, up to 255, to each of its two operands and to no
/// other wire, and its output is the next number, with no use. A value is
/// ignored. No call is refused while there is a next number.
pub proof fn law_a_call_counts_its_operands(
    m: PlanModel,
    gate_type: GateType,
    x: int,
    y: int,
    value: bool,
)
    requires
        0 <= x < m.uses.len(),
        0 <= y < m.uses.len(),
        x != y,
    ensures
        PlanModel::initial().uses == seq![255u8, 255u8],
        PlanModel::initial().tally.and == 0,
        PlanModel::initial().tally.or == 0,
        PlanModel::initial().tally.xor == 0,
        ({
            let (next, wire) = Plan::fresh_step(m);
            &&& wire == m.uses.len()
            &&& next.uses == m.uses.push(0)
            &&& next.tally == m.tally
        }),
        ({
            let (next, wire) = Plan::emit_step(m, gate_type, x, y);
            &&& wire == m.uses.len()
            &&& next.uses.len() == m.uses.len() + 1
            &&& next.uses[wire] == 0
            &&& forall|w: int|
                0 <= w < m.uses.len() ==> #[trigger] next.uses[w] == if (w == x || w == y)
                    && m.uses[w] < 255 {
                    m.uses[w] + 1
                } else {
                    m.uses[w] as int
                }
            &&& next.tally == m.tally.plus(gate_type)
        }),
        Plan::input_step(m, x, value) == m,
        Plan::tally(m) == m.tally,
        Plan::gates(m).len() == 0,
        Plan::next(m) == m.uses.len(),
        m.uses.len() < usize::MAX ==> Plan::can_fresh(m) && Plan::can_emit(m, gate_type, x, y),
        Plan::can_set(m, x),
{
}

/// The order of a gate's operands makes no difference to a plan: equal plans
/// take both orders alike, return the same wire, and are equal afterwards.
pub proof fn law_gates_of_a_plan_commute(m: PlanModel, gate_type: GateType, x: int, y: int)
    requires
        0 <= x < m.uses.len(),
        0 <= y < m.uses.len(),
    ensures
        gate_step::<Plan>(m, gate_type, x, y) == gate_step::<Plan>(m, gate_type, y, x),
        can_gate::<Plan>(m, gate_type, x, y) == can_gate::<Plan>(m, gate_type, y, x),
{
    assert(m.used(x).used(y) =~= m.used(y).used(x));
}

/// `n` fresh wires of a plan have the next `n` creation indices, and nothing
/// has used them.
pub proof fn law_fresh_wires_are_consecutive(m: PlanModel, n: nat)
    ensures
        fresh_steps::<Plan>(m, n).0 == (PlanModel {
            uses: m.uses + Seq::new(n, |i: int| 0u8),
            ..m
        }),
        fresh_steps::<Plan>(m, n).1 == Seq::new(n, |i: int| m.uses.len() + i),
    decreases n,
{
    if n > 0 {
        law_fresh_wires_are_consecutive(m, (n - 1) as nat);
        assert(m.uses + Seq::new(n, |i: int| 0u8) =~= (m.uses + Seq::new(
            (n - 1) as nat,
            |i: int| 0u8,
        )).push(0u8));
        assert(Seq::new(n, |i: int| m.uses.len() + i) =~= Seq::new(
            (n - 1) as nat,
            |i: int| m.uses.len() + i,
        ).push(m.uses.len() + n - 1));
    } else {
        assert(m.uses + Seq::new(0, |i: int| 0u8) =~= m.uses);
    }
}

} // verus!
