//! A builder that keeps every gate in memory.
use vstd::prelude::*;

use crate::builder::{
    copy_counts, zero_counts, CircuitModel, CircuitTrait, CustomGateType, GateCounts,
    GateOperation, Tally, Template, ValuedBuilder,
};
use crate::gate::GateType;

verus! {

/// What a circuit in memory holds: its gates, in the order of their emission,
/// and the number of its wires.
#[verifier::ext_equal]
pub struct AdapterModel {
    pub gates: Seq<GateOperation>,
    pub wires: nat,
    pub tally: Tally,
}

impl AdapterModel {
    /// The two constants.
    pub open spec fn initial() -> AdapterModel {
        AdapterModel { gates: Seq::empty(), wires: 2, tally: Tally::zero() }
    }
}

/// A builder that keeps every gate in memory; to be garbled, and evaluated from
/// a witness, afterwards.
pub struct CircuitAdapter {
    next: usize,
    gates: Vec<GateOperation>,
    counts: GateCounts,
}

impl CircuitModel for CircuitAdapter {
    type Model = AdapterModel;

    closed spec fn wf(&self) -> bool {
        self.counts.tally().total() + 2 <= self.next
    }

    closed spec fn model(&self) -> AdapterModel {
        AdapterModel {
            gates: self.gates@,
            wires: self.next as nat,
            tally: self.counts.tally(),
        }
    }

    open spec fn can_fresh(m: AdapterModel) -> bool {
        m.wires < usize::MAX
    }

    open spec fn fresh_step(m: AdapterModel) -> (AdapterModel, int) {
        (AdapterModel { wires: m.wires + 1, ..m }, m.wires as int)
    }

    open spec fn can_emit(m: AdapterModel, gate_type: GateType, x: int, y: int) -> bool {
        m.wires < usize::MAX
    }

    open spec fn emit_step(m: AdapterModel, gate_type: GateType, x: int, y: int) -> (
        AdapterModel,
        int,
    ) {
        let gate = GateOperation {
            gate_type,
            x: x as usize,
            y: y as usize,
            out: m.wires as usize,
        };
        (
            AdapterModel {
                gates: m.gates.push(gate),
                wires: m.wires + 1,
                tally: m.tally.plus(gate_type),
            },
            m.wires as int,
        )
    }

    open spec fn tally(m: AdapterModel) -> Tally {
        m.tally
    }

    open spec fn gates(m: AdapterModel) -> Seq<GateOperation> {
        m.gates
    }

    open spec fn next(m: AdapterModel) -> nat {
        m.wires
    }
}

impl CircuitAdapter {
    pub fn new() -> (adapter: Self)
        ensures
            adapter.wf(),
            adapter.model() == AdapterModel::initial(),
    {
        Self { next: 2, gates: Vec::new(), counts: zero_counts() }
    }

    fn push_gate(&mut self, gate_type: GateType, x: usize, y: usize) -> (wire: usize)
        requires
            old(self).wf(),
            Self::can_emit(old(self).model(), gate_type, x as int, y as int),
        ensures
            final(self).wf(),
            (final(self).model(), wire as int) == Self::emit_step(
                old(self).model(),
                gate_type,
                x as int,
                y as int,
            ),
    {
        let out: usize = self.next;
        self.gates.push(GateOperation { gate_type, x, y, out });
        self.next += 1;
        match gate_type {
            GateType::And => {
                self.counts.direct_and += 1;
            },
            GateType::Xor => {
                self.counts.direct_xor += 1;
            },
            GateType::Or => {
                self.counts.direct_or += 1;
            },
        }
        out
    }
}

impl Default for CircuitAdapter {
    fn default() -> (adapter: Self)
        ensures
            adapter.wf(),
            adapter.model() == AdapterModel::initial(),
    {
        Self::new()
    }
}

impl CircuitTrait for CircuitAdapter {
    fn fresh_one(&mut self) -> (wire: usize) {
        let wire: usize = self.next;
        self.next += 1;
        wire
    }

    fn zero(&mut self) -> (wire: usize) {
        0
    }

    fn one(&mut self) -> (wire: usize) {
        1
    }

    fn xor_wire(&mut self, x: usize, y: usize) -> (wire: usize) {
        if x == y {
            return 0;
        }
        if x == 0 {
            return y;
        }
        if y == 0 {
            return x;
        }
        self.push_gate(GateType::Xor, x, y)
    }

    fn or_wire(&mut self, x: usize, y: usize) -> (wire: usize) {
        if x == y {
            return x;
        }
        if x == 1 || y == 1 {
            return 1;
        }
        if x == 0 {
            return y;
        }
        if y == 0 {
            return x;
        }
        self.push_gate(GateType::Or, x, y)
    }

    fn and_wire(&mut self, x: usize, y: usize) -> (wire: usize) {
        if x == y {
            return x;
        }
        if x == 0 || y == 0 {
            return 0;
        }
        if x == 1 {
            return y;
        }
        if y == 1 {
            return x;
        }
        self.push_gate(GateType::And, x, y)
    }

    fn get_gates(&self) -> (gates: &Vec<GateOperation>) {
        &self.gates
    }

    fn gate_counts(&self) -> (counts: GateCounts)
        ensures
            counts.no_custom(),
    {
        copy_counts(&self.counts)
    }

    /// There are no custom gates.
    fn get_template(&self, _templ_type: CustomGateType) -> (template: Option<&Template>)
        ensures
            template is None,
    {
        None
    }

    fn next_wire(&self) -> (wire: usize) {
        self.next
    }
}

impl ValuedBuilder for CircuitAdapter {
    open spec fn can_set(m: AdapterModel, wire: int) -> bool {
        true
    }

    open spec fn input_step(m: AdapterModel, wire: int, value: bool) -> AdapterModel {
        m
    }

    /// The value is left to the witness.
    fn set_input(&mut self, _wire: usize, _value: bool) {
    }
}

/// What the builder keeps of a call. It starts with the two constants and no
/// gate. A fresh wire is the next number. A gate is appended with its kind and
/// its operands as they were given, and with the next number as its output;
/// the gates before it stay. A value is ignored. No call is refused while there
/// is a next number.
pub proof fn law_gates_are_kept_as_they_are_given(
    m: AdapterModel,
    gate_type: GateType,
    x: usize,
    y: usize,
    value: bool,
)
    requires
        m.wires < usize::MAX,
    ensures
        AdapterModel::initial().wires == 2,
        AdapterModel::initial().gates.len() == 0,
        AdapterModel::initial().tally.and == 0,
        AdapterModel::initial().tally.or == 0,
        AdapterModel::initial().tally.xor == 0,
        ({
            let (next, wire) = CircuitAdapter::fresh_step(m);
            &&& wire == m.wires
            &&& next.wires == m.wires + 1
            &&& next.gates == m.gates
            &&& next.tally == m.tally
        }),
        ({
            let (next, wire) = CircuitAdapter::emit_step(m, gate_type, x as int, y as int);
            &&& wire == m.wires
            &&& next.wires == m.wires + 1
            &&& next.gates.len() == m.gates.len() + 1
            &&& m.gates.is_prefix_of(next.gates)
            &&& next.gates.last().gate_type == gate_type
            &&& next.gates.last().x == x
            &&& next.gates.last().y == y
            &&& next.gates.last().out == m.wires
            &&& next.tally == m.tally.plus(gate_type)
        }),
        CircuitAdapter::input_step(m, x as int, value) == m,
        CircuitAdapter::tally(m) == m.tally,
        CircuitAdapter::gates(m) == m.gates,
        CircuitAdapter::next(m) == m.wires,
        CircuitAdapter::can_fresh(m),
        CircuitAdapter::can_emit(m, gate_type, x as int, y as int),
        CircuitAdapter::can_set(m, x as int),
{
}

} // verus!
