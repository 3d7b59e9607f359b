//! The garbling pass.
//!
//! Each gate is garbled and evaluated on arrival, and what is kept is, per
//! slot, one label and one bit. A slot is given back after the last read that
//! the plan has counted for its wire, and a later wire takes it; so a wire's
//! number here is its slot. The constants keep slots 0 and 1.
//!
//! Every garbler draws its own offset `delta` and its own label seed. With an
//! offset that is known, every label yields its complement, and the true label
//! of the output would be free to compute.
use vstd::prelude::*;

use crate::builder::{
    copy_counts, fresh_steps, zero_counts, CircuitModel, CircuitTrait, CustomGateType,
    GateCounts, GateOperation, Tally, Template, ValuedBuilder,
};
use crate::chunked::Chunked;
use crate::gate::{gate_evaluate, gate_garbled_with_delta, GateType};
use crate::hash::{hash_16, random_seed};
use crate::label::S;
use crate::plan::{Plan, PINNED};

verus! {

/// What a garbler holds. Wires are numbered by the slot they are in; `label0`,
/// `value` and `remaining` have one entry per slot.
#[verifier::ext_equal]
pub struct StreamModel {
    pub delta: S,
    pub seed: Seq<u8>,
    /// The false label of the wire in the slot.
    pub label0: Seq<S>,
    /// The value of the wire in the slot.
    pub value: Seq<bool>,
    /// How often the wire in the slot is still to be read.
    pub remaining: Seq<u8>,
    /// The slots to be handed out again; the last one goes first.
    pub free: Seq<int>,
    /// Uses per wire, by creation index.
    pub plan: Option<Seq<u8>>,
    pub created: nat,
    pub peak_live: nat,
    pub tally: Tally,
    pub ciphertexts: Seq<S>,
    pub keep_ciphertexts: bool,
    pub non_free: nat,
}

/// `Blake3(seed || k)`: the label of the input wire with creation index `k`.
pub open spec fn input_label(seed: Seq<u8>, k: nat) -> S {
    S::of_bytes(
        crate::hash::blake3_16(seed + vstd::bytes::spec_u64_to_le_bytes(k as u64)),
    )
}

/// How often the wire with creation index `k` is to be read; without a plan
/// every wire is pinned.
pub open spec fn planned_uses(plan: Option<Seq<u8>>, k: int) -> u8 {
    match plan {
        Some(uses) => uses[k],
        None => PINNED,
    }
}

impl StreamModel {
    /// The two constants, in slots 0 and 1.
    pub open spec fn initial(
        delta: S,
        seed: Seq<u8>,
        plan: Option<Seq<u8>>,
        keep_ciphertexts: bool,
    ) -> StreamModel {
        StreamModel {
            delta,
            seed,
            label0: seq![input_label(seed, 0), input_label(seed, 1)],
            value: seq![false, true],
            remaining: seq![planned_uses(plan, 0), planned_uses(plan, 1)],
            free: Seq::empty(),
            plan,
            created: 2,
            peak_live: 2,
            tally: Tally::zero(),
            ciphertexts: Seq::empty(),
            keep_ciphertexts,
            non_free: 0,
        }
    }

    /// The slots that there are.
    pub open spec fn slots(self) -> nat {
        self.label0.len()
    }

    /// There is one value per slot, and the free slots are among the slots.
    pub(crate) open spec fn in_shape(self) -> bool {
        &&& self.value.len() == self.slots()
        &&& forall|i: int| 0 <= i < self.free.len() ==> 0 <= #[trigger] self.free[i] < self.slots()
    }

    /// What holds of a garbler at all times.
    pub open spec fn valid(self) -> bool {
        &&& self.seed.len() == 32
        &&& self.slots() >= 2
        &&& self.value.len() == self.slots()
        &&& self.remaining.len() == self.slots()
        // The constants keep slots 0 and 1.
        &&& self.remaining[0] == PINNED
        &&& self.remaining[1] == PINNED
        // A slot is free once, and only after the last read of its wire.
        &&& self.free.no_duplicates()
        &&& forall|i: int|
            0 <= i < self.free.len() ==> 2 <= #[trigger] self.free[i] < self.slots()
                && self.remaining[self.free[i]] == 0
        &&& self.slots() <= self.created
        &&& self.peak_live == self.slots()
        &&& self.non_free == self.tally.non_free()
        &&& self.tally.total() + 2 <= self.created
        // The count is always kept, the ciphertexts only when asked for.
        &&& self.ciphertexts.len() == if self.keep_ciphertexts {
            self.non_free
        } else {
            0
        }
        &&& match self.plan {
            Some(uses) => {
                &&& self.created <= uses.len()
                &&& uses[0] == PINNED
                &&& uses[1] == PINNED
            },
            None => {
                &&& self.created == self.slots()
                &&& self.free.len() == 0
                &&& forall|s: int| 0 <= s < self.slots() ==> #[trigger] self.remaining[s] == PINNED
            },
        }
    }

    /// The evaluator's label of the wire in slot `wire`: its false label offset
    /// by its value.
    pub open spec fn held(self, wire: int) -> S {
        self.label0[wire].offset(self.value[wire], self.delta)
    }

    /// After one read of `x`: the slot is released after the last one.
    pub open spec fn consumed(self, x: int) -> StreamModel {
        if self.remaining[x] == PINNED {
            self
        } else {
            StreamModel {
                remaining: self.remaining.update(x, (self.remaining[x] - 1) as u8),
                free: if self.remaining[x] == 1 {
                    self.free.push(x)
                } else {
                    self.free
                },
                ..self
            }
        }
    }

    /// After `n` reads of `x`, one after the other.
    pub open spec fn consumed_times(self, x: int, n: nat) -> StreamModel
        decreases n,
    {
        if n == 0 {
            self
        } else {
            self.consumed_times(x, (n - 1) as nat).consumed(x)
        }
    }

    /// With one more wire, and its slot: one that was released last, or else a
    /// new one.
    pub open spec fn placed(self, value: bool, label: S) -> (StreamModel, int) {
        let uses = planned_uses(self.plan, self.created as int);
        if self.free.len() > 0 {
            let slot = self.free.last();
            (
                StreamModel {
                    label0: self.label0.update(slot, label),
                    value: self.value.update(slot, value),
                    remaining: self.remaining.update(slot, uses),
                    free: self.free.drop_last(),
                    created: self.created + 1,
                    ..self
                },
                slot,
            )
        } else {
            (
                StreamModel {
                    label0: self.label0.push(label),
                    value: self.value.push(value),
                    remaining: self.remaining.push(uses),
                    created: self.created + 1,
                    peak_live: if self.peak_live > self.slots() + 1 {
                        self.peak_live
                    } else {
                        self.slots() + 1
                    },
                    ..self
                },
                self.slots() as int,
            )
        }
    }

    /// Whether one more wire can be created.
    pub open spec fn has_room(self) -> bool {
        &&& self.created < usize::MAX
        &&& self.plan matches Some(uses) ==> self.created < uses.len()
    }

    /// Whether the wire in slot `x` can be read: its plan has a read left.
    pub open spec fn can_read(self, x: int) -> bool {
        0 <= x < self.slots() && self.remaining[x] > 0
    }

    /// After a gate on the wires in slots `x` and `y` that is not folded, but
    /// for the tally, and the output's slot.
    pub open spec fn garbled(self, gate_type: GateType, x: int, y: int) -> (StreamModel, int) {
        let gid = self.non_free as u32;
        let (a0, b0) = (self.label0[x], self.label0[y]);
        let value = gate_type.apply(self.value[x], self.value[y]);
        let label = crate::gate::output_label(gate_type, a0, b0, gid, self.delta);
        let (next, slot) = self.consumed(x).consumed(y).placed(value, label);
        if gate_type.is_free() {
            (next, slot)
        } else {
            (
                StreamModel {
                    ciphertexts: if self.keep_ciphertexts {
                        self.ciphertexts.push(
                            crate::gate::gate_ciphertext(gate_type, a0, b0, gid, self.delta),
                        )
                    } else {
                        self.ciphertexts
                    },
                    non_free: self.non_free + 1,
                    ..next
                },
                slot,
            )
        }
    }
}

/// Reading a wire keeps the garbler valid.
pub(crate) proof fn lemma_consumed_valid(m: StreamModel, x: int)
    requires
        m.valid(),
        m.can_read(x),
    ensures
        m.consumed(x).valid(),
{
}

/// Creating a wire keeps the garbler valid.
pub(crate) proof fn lemma_placed_valid(m: StreamModel, value: bool, label: S)
    requires
        m.valid(),
        m.has_room(),
    ensures
        m.placed(value, label).0.valid(),
        0 <= m.placed(value, label).1 < m.placed(value, label).0.slots(),
{
    let n = m.placed(value, label).0;
    if m.free.len() > 0 {
        assert(2 <= m.free[m.free.len() - 1] < m.slots());
        assert forall|i: int| 0 <= i < n.free.len() implies 2 <= #[trigger] n.free[i] < n.slots()
            && n.remaining[n.free[i]] == 0 by {
            assert(n.free[i] == m.free[i]);
            assert(m.free[i] != m.free[m.free.len() - 1]);
        }
    }
}

/// A gate that is not folded keeps the garbler valid.
pub(crate) proof fn lemma_emit_valid(m: StreamModel, gate_type: GateType, x: int, y: int)
    requires
        m.valid(),
        Streaming::can_emit(m, gate_type, x, y),
    ensures
        Streaming::emit_step(m, gate_type, x, y).0.valid(),
        0 <= Streaming::emit_step(m, gate_type, x, y).1 < Streaming::emit_step(
            m,
            gate_type,
            x,
            y,
        ).0.slots(),
{
    let gid = m.non_free as u32;
    let value = gate_type.apply(m.value[x], m.value[y]);
    let label = crate::gate::output_label(gate_type, m.label0[x], m.label0[y], gid, m.delta);
    lemma_consumed_valid(m, x);
    lemma_consumed_valid(m.consumed(x), y);
    lemma_placed_valid(m.consumed(x).consumed(y), value, label);
}

/// Garble and evaluate on the fly: every gate is processed as it is emitted,
/// and none is stored.
pub struct Streaming {
    delta: S,
    seed: [u8; 32],
    /// Per slot.
    label0: Chunked<S>,
    value: Chunked<bool>,
    remaining: Chunked<u8>,
    free: Vec<usize>,
    /// Uses per wire by creation index, from a [`Plan`]; without one every
    /// wire is pinned and slots are never reused.
    plan: Option<Chunked<u8>>,
    created: usize,
    peak_live: usize,
    counts: GateCounts,
    /// Ciphertexts, kept only when asked for; the count is always kept.
    ciphertexts: Vec<S>,
    keep_ciphertexts: bool,
    non_free: usize,
    empty: Vec<GateOperation>,
}

impl CircuitModel for Streaming {
    type Model = StreamModel;

    closed spec fn wf(&self) -> bool {
        &&& self.storage_wf()
        &&& self.model().valid()
    }

    closed spec fn model(&self) -> StreamModel {
        StreamModel {
            delta: self.delta,
            seed: self.seed@,
            label0: self.label0@,
            value: self.value@,
            remaining: self.remaining@,
            free: self.free@.map_values(|slot: usize| slot as int),
            plan: match self.plan {
                Some(uses) => Some(uses@),
                None => None,
            },
            created: self.created as nat,
            peak_live: self.peak_live as nat,
            tally: self.counts.tally(),
            ciphertexts: self.ciphertexts@,
            keep_ciphertexts: self.keep_ciphertexts,
            non_free: self.non_free as nat,
        }
    }

    open spec fn can_fresh(m: StreamModel) -> bool {
        m.has_room()
    }

    open spec fn fresh_step(m: StreamModel) -> (StreamModel, int) {
        m.placed(false, input_label(m.seed, m.created))
    }

    open spec fn can_emit(m: StreamModel, gate_type: GateType, x: int, y: int) -> bool {
        &&& x != y
        &&& m.can_read(x)
        &&& m.can_read(y)
        &&& m.has_room()
        &&& !gate_type.is_free() ==> m.non_free <= u32::MAX
    }

    open spec fn emit_step(m: StreamModel, gate_type: GateType, x: int, y: int) -> (
        StreamModel,
        int,
    ) {
        let (next, slot) = m.garbled(gate_type, x, y);
        (StreamModel { tally: m.tally.plus(gate_type), ..next }, slot)
    }

    open spec fn tally(m: StreamModel) -> Tally {
        m.tally
    }

    open spec fn gates(m: StreamModel) -> Seq<GateOperation> {
        Seq::empty()
    }

    open spec fn next(m: StreamModel) -> nat {
        m.slots()
    }
}

impl Streaming {
    spec fn storage_wf(&self) -> bool {
        &&& self.label0.wf()
        &&& self.value.wf()
        &&& self.remaining.wf()
        &&& self.plan matches Some(uses) ==> uses.wf()
        &&& self.empty@.len() == 0
    }

    /// Every garbler is valid at all times.
    pub proof fn law_valid(&self)
        requires
            self.wf(),
        ensures
            self.model().valid(),
    {
    }

    /// Without a plan: one slot per wire, nothing released.
    pub fn new(keep_ciphertexts: bool) -> (me: Self)
        ensures
            me.wf(),
            me.model() == StreamModel::initial(
                me.model().delta,
                me.model().seed,
                None,
                keep_ciphertexts,
            ),
    {
        Self::with(None, keep_ciphertexts)
    }

    /// With the use counts of a first pass of the same build.
    pub fn planned(plan: Plan, keep_ciphertexts: bool) -> (me: Self)
        requires
            plan.wf(),
        ensures
            me.wf(),
            me.model() == StreamModel::initial(
                me.model().delta,
                me.model().seed,
                Some(plan.model().uses),
                keep_ciphertexts,
            ),
    {
        Self::with(Some(plan), keep_ciphertexts)
    }

    /// With a `delta` and a label seed of its own, drawn at random: under a
    /// `delta` that is known every label yields its complement.
    fn with(plan: Option<Plan>, keep_ciphertexts: bool) -> (me: Self)
        requires
            plan matches Some(p) ==> p.wf(),
        ensures
            me.wf(),
            me.model() == StreamModel::initial(
                me.model().delta,
                me.model().seed,
                (match plan {
                    Some(p) => Some(p.model().uses),
                    None => None,
                }),
                keep_ciphertexts,
            ),
    {
        Self::with_secrets(plan, keep_ciphertexts, S::random(), random_seed::<32>())
    }

    /// With the given `delta` and label seed. Both are to be secret and random.
    pub fn with_secrets(
        plan: Option<Plan>,
        keep_ciphertexts: bool,
        delta: S,
        seed: [u8; 32],
    ) -> (me: Self)
        requires
            plan matches Some(p) ==> p.wf(),
        ensures
            me.wf(),
            me.model() == StreamModel::initial(
                delta,
                seed@,
                (match plan {
                    Some(p) => Some(p.model().uses),
                    None => None,
                }),
                keep_ciphertexts,
            ),
    {
        let uses = match plan {
            Some(plan) => Some(plan.into_uses()),
            None => None,
        };
        let mut me = Self {
            delta,
            seed,
            label0: Chunked::new(),
            value: Chunked::new(),
            remaining: Chunked::new(),
            free: Vec::new(),
            plan: uses,
            created: 0,
            peak_live: 0,
            counts: zero_counts(),
            ciphertexts: Vec::new(),
            keep_ciphertexts,
            non_free: 0,
            empty: Vec::new(),
        };
        // Wires 0 and 1 are the constants.
        let zero: usize = me.allocate(false);
        let one: usize = me.allocate(true);
        assert(zero == 0 && one == 1);
        assert(me.model() =~= StreamModel::initial(delta, seed@, me.model().plan, keep_ciphertexts));
        me
    }

    /// The label of an input wire, from its creation index.
    fn input_label(&self, k: usize) -> (label: S)
        ensures
            label == input_label(self.model().seed, k as nat),
            label.bits == vstd::bytes::spec_u128_from_le_bytes(
                crate::hash::blake3_16(
                    self.model().seed + vstd::bytes::spec_u64_to_le_bytes(k as u64),
                ),
            ),
    {
        let mut input: Vec<u8> = Vec::new();
        input.extend_from_slice(self.seed.as_slice());
        assert(input@ =~= self.seed@);
        let mut index: Vec<u8> = vstd::bytes::u64_to_le_bytes(k as u64);
        input.append(&mut index);
        S::from_slice(&hash_16(input.as_slice()))
    }

    /// A wire with a fresh input label.
    fn allocate(&mut self, value: bool) -> (wire: usize)
        requires
            old(self).can_place(),
        ensures
            final(self).storage_wf(),
            (final(self).model(), wire as int) == old(self).model().placed(
                value,
                input_label(old(self).model().seed, old(self).model().created),
            ),
    {
        let label = self.input_label(self.created);
        self.alloc_with(value, label)
    }

    spec fn can_place(&self) -> bool {
        let m = self.model();
        &&& self.storage_wf()
        &&& m.has_room()
        &&& m.slots() <= m.created
        &&& m.value.len() == m.slots()
        &&& m.remaining.len() == m.slots()
        &&& forall|i: int| 0 <= i < m.free.len() ==> 0 <= #[trigger] m.free[i] < m.slots()
    }

    /// A wire whose label a gate sets: the next creation index, in a released
    /// slot when there is one. It is never the slot of a constant or of a wire
    /// still held.
    fn alloc_with(&mut self, value: bool, label: S) -> (wire: usize)
        requires
            old(self).can_place(),
        ensures
            final(self).storage_wf(),
            (final(self).model(), wire as int) == old(self).model().placed(value, label),
            old(self).model().valid() ==> {
                &&& wire >= 2
                &&& old(self).model().free.contains(wire as int) || wire
                    == old(self).model().slots()
                &&& !final(self).model().free.contains(wire as int)
            },
    {
        let ghost before = self.model();
        proof {
            if before.valid() {
                law_a_new_wire_takes_no_held_slot(before, value, label);
            }
        }
        let k: usize = self.created;
        self.created += 1;
        let uses: u8 = match &self.plan {
            Some(p) => p.get(k),
            None => PINNED,
        };
        if let Some(slot) = self.free.pop() {
            assert(before.free.last() == slot);
            assert(before.free[before.free.len() - 1] == slot);
            self.label0.set(slot, label);
            self.value.set(slot, value);
            self.remaining.set(slot, uses);
            assert(self.model() =~= before.placed(value, label).0);
            slot
        } else {
            self.label0.push(label);
            self.value.push(value);
            self.remaining.push(uses);
            if self.peak_live < self.label0.len() {
                self.peak_live = self.label0.len();
            }
            assert(self.model() =~= before.placed(value, label).0);
            self.label0.len() - 1
        }
    }

    /// One use of `x`: release its slot after the last. A pinned slot is left as
    /// it is.
    fn consume(&mut self, x: usize)
        requires
            old(self).storage_wf(),
            old(self).model().can_read(x as int),
            old(self).model().remaining.len() == old(self).model().slots(),
        ensures
            final(self).storage_wf(),
            final(self).model() == old(self).model().consumed(x as int),
            old(self).model().remaining[x as int] == PINNED ==> *final(self) == *old(self),
            old(self).model().valid() && (x < 2 || old(self).model().plan is None) ==> *final(self)
                == *old(self),
    {
        let ghost before = self.model();
        let r: u8 = self.remaining.get(x);
        if r == PINNED {
            return;
        }
        self.remaining.set(x, r - 1);
        if r - 1 == 0 {
            self.free.push(x);
        }
        assert(self.model() =~= before.consumed(x as int));
    }

    /// The evaluator's label of `wire`: its false label offset by its value.
    fn held(&self, wire: usize) -> (label: S)
        requires
            self.storage_wf(),
            wire < self.model().slots(),
            wire < self.model().value.len(),
        ensures
            label == self.model().held(wire as int),
    {
        if self.value.get(wire) {
            self.label0.get(wire).xor(self.delta)
        } else {
            self.label0.get(wire)
        }
    }

    /// One non-free gate: garble it, then run the evaluator's formula on the
    /// held input labels, which yields the held output label.
    fn non_free(&mut self, x: usize, y: usize, is_or: bool) -> (wire: usize)
        requires
            old(self).wf(),
            Self::can_emit(
                old(self).model(),
                if is_or {
                    GateType::Or
                } else {
                    GateType::And
                },
                x as int,
                y as int,
            ),
        ensures
            final(self).storage_wf(),
            (final(self).model(), wire as int) == old(self).model().garbled(
                if is_or {
                    GateType::Or
                } else {
                    GateType::And
                },
                x as int,
                y as int,
            ),
    {
        let ghost before = self.model();
        let gid: u32 = self.non_free as u32;
        // Its garbling, under this garbler's delta.
        let gate_type = if is_or {
            GateType::Or
        } else {
            GateType::And
        };
        let (c0, ct) = gate_garbled_with_delta(
            self.label0.get(x),
            self.label0.get(y),
            gid,
            gate_type,
            self.delta,
        );
        let v = if is_or {
            self.value.get(x) || self.value.get(y)
        } else {
            self.value.get(x) && self.value.get(y)
        };
        // The evaluator, holding the labels of the values.
        let evaluated = gate_evaluate(
            gate_type,
            self.value.get(x),
            self.held(x),
            self.held(y),
            ct,
            gid,
        );
        let ct = ct.unwrap();
        proof {
            lemma_consumed_valid(before, x as int);
            lemma_consumed_valid(before.consumed(x as int), y as int);
        }
        self.consume(x);
        self.consume(y);
        let d: usize = self.alloc_with(v, c0);
        proof {
            crate::gate::law_evaluation_yields_output_label(
                gate_type,
                before.label0[x as int],
                before.label0[y as int],
                before.value[x as int],
                before.value[y as int],
                gid,
                before.delta,
            );
        }
        // The evaluator's label is the output's label.
        assert(evaluated == self.model().held(d as int));
        if self.keep_ciphertexts {
            self.ciphertexts.push(ct);
        }
        self.non_free += 1;
        assert(self.model() =~= before.garbled(gate_type, x as int, y as int).0);
        d
    }

    pub fn value(&self, wire: usize) -> (value: bool)
        requires
            self.wf(),
            wire < self.model().slots(),
        ensures
            value == self.model().value[wire as int],
    {
        self.value.get(wire)
    }

    pub fn label0(&self, wire: usize) -> (label: S)
        requires
            self.wf(),
            wire < self.model().slots(),
        ensures
            label == self.model().label0[wire as int],
    {
        self.label0.get(wire)
    }

    pub fn delta(&self) -> (delta: S)
        ensures
            delta == self.model().delta,
    {
        self.delta
    }

    pub fn non_free_gates(&self) -> (gates: usize)
        requires
            self.wf(),
        ensures
            gates == self.model().non_free,
            gates == self.model().tally.non_free(),
    {
        self.non_free
    }

    pub fn ciphertexts(&self) -> (ciphertexts: &[S])
        requires
            self.wf(),
        ensures
            ciphertexts@ == self.model().ciphertexts,
            ciphertexts@.len() == if self.model().keep_ciphertexts {
                self.model().non_free
            } else {
                0
            },
    {
        self.ciphertexts.as_slice()
    }

    /// Wires created.
    pub fn wires(&self) -> (wires: usize)
        ensures
            wires == self.model().created,
    {
        self.created
    }

    /// The most slots ever held at once.
    pub fn peak_live(&self) -> (slots: usize)
        requires
            self.wf(),
        ensures
            slots == self.model().peak_live,
            slots == self.model().slots(),
    {
        self.peak_live
    }
}

impl CircuitTrait for Streaming {
    fn fresh_one(&mut self) -> (wire: usize) {
        proof {
            lemma_placed_valid(
                self.model(),
                false,
                input_label(self.model().seed, self.model().created),
            );
        }
        self.allocate(false)
    }

    fn zero(&mut self) -> (wire: usize) {
        0
    }

    fn one(&mut self) -> (wire: usize) {
        1
    }

    fn xor_wire(&mut self, x: usize, y: usize) -> (wire: usize) {
        if x == y {
            return 0;
        }
        if x == 0 {
            return y;
        }
        if y == 0 {
            return x;
        }
        let ghost before = self.model();
        proof {
            lemma_consumed_valid(before, x as int);
            lemma_consumed_valid(before.consumed(x as int), y as int);
            lemma_emit_valid(before, GateType::Xor, x as int, y as int);
        }
        let v = self.value.get(x) ^ self.value.get(y);
        let l = self.label0.get(x).xor(self.label0.get(y));
        self.consume(x);
        self.consume(y);
        let wire: usize = self.alloc_with(v, l);
        self.counts.direct_xor += 1;
        assert(self.model() =~= Self::emit_step(before, GateType::Xor, x as int, y as int).0);
        wire
    }

    fn or_wire(&mut self, x: usize, y: usize) -> (wire: usize) {
        if x == y {
            return x;
        }
        if x == 1 || y == 1 {
            return 1;
        }
        if x == 0 {
            return y;
        }
        if y == 0 {
            return x;
        }
        let ghost before = self.model();
        proof {
            lemma_emit_valid(before, GateType::Or, x as int, y as int);
        }
        let wire: usize = self.non_free(x, y, true);
        self.counts.direct_or += 1;
        assert(self.model() =~= Self::emit_step(before, GateType::Or, x as int, y as int).0);
        wire
    }

    fn and_wire(&mut self, x: usize, y: usize) -> (wire: usize) {
        if x == y {
            return x;
        }
        if x == 0 || y == 0 {
            return 0;
        }
        if x == 1 {
            return y;
        }
        if y == 1 {
            return x;
        }
        let ghost before = self.model();
        proof {
            lemma_emit_valid(before, GateType::And, x as int, y as int);
        }
        let wire: usize = self.non_free(x, y, false);
        self.counts.direct_and += 1;
        assert(self.model() =~= Self::emit_step(before, GateType::And, x as int, y as int).0);
        wire
    }

    /// No gate is stored.
    fn get_gates(&self) -> (gates: &Vec<GateOperation>) {
        &self.empty
    }

    fn gate_counts(&self) -> (counts: GateCounts)
        ensures
            counts.no_custom(),
    {
        copy_counts(&self.counts)
    }

    /// There are no custom gates.
    fn get_template(&self, _templ_type: CustomGateType) -> (template: Option<&Template>)
        ensures
            template is None,
    {
        None
    }

    fn next_wire(&self) -> (wire: usize) {
        self.label0.len()
    }
}

impl ValuedBuilder for Streaming {
    open spec fn can_set(m: StreamModel, wire: int) -> bool {
        0 <= wire < m.slots()
    }

    open spec fn input_step(m: StreamModel, wire: int, value: bool) -> StreamModel {
        StreamModel { value: m.value.update(wire, value), ..m }
    }

    fn set_input(&mut self, wire: usize, value: bool) {
        self.value.set(wire, value);
    }
}

/// The label of an input is BLAKE3 of 40 bytes, the 32 of the seed and the 8 of
/// the creation index, little end first. These bytes tell every seed and every
/// index apart.
pub proof fn law_hashed_bytes_tell_inputs_apart(
    seed: Seq<u8>,
    k: nat,
    other_seed: Seq<u8>,
    j: nat,
)
    requires
        seed.len() == 32,
        other_seed.len() == 32,
        k <= u64::MAX,
        j <= u64::MAX,
    ensures
        input_label(seed, k).bits == vstd::bytes::spec_u128_from_le_bytes(
            crate::hash::blake3_16(seed + vstd::bytes::spec_u64_to_le_bytes(k as u64)),
        ),
        (seed + vstd::bytes::spec_u64_to_le_bytes(k as u64)).len() == 40,
        seed + vstd::bytes::spec_u64_to_le_bytes(k as u64) == other_seed
            + vstd::bytes::spec_u64_to_le_bytes(j as u64) ==> seed == other_seed && k == j,
{
    vstd::bytes::lemma_auto_spec_u64_to_from_le_bytes();
    let (a, b) = (
        vstd::bytes::spec_u64_to_le_bytes(k as u64),
        vstd::bytes::spec_u64_to_le_bytes(j as u64),
    );
    assert(vstd::bytes::spec_u64_from_le_bytes(a) == k as u64);
    assert(vstd::bytes::spec_u64_from_le_bytes(b) == j as u64);
    assert((seed + a).subrange(0, 32) =~= seed);
    assert((other_seed + b).subrange(0, 32) =~= other_seed);
    assert((seed + a).subrange(32, 40) =~= a);
    assert((other_seed + b).subrange(32, 40) =~= b);
}

/// A new garbler has the secrets and the plan it was given and two wires, the
/// constants false and true in slots 0 and 1, each with the label of its
/// creation index. It has counted nothing and put out nothing.
pub proof fn law_a_new_garbler_has_the_constants(
    delta: S,
    seed: Seq<u8>,
    plan: Option<Seq<u8>>,
    keep: bool,
)
    ensures
        ({
            let label = |k: u64|
                vstd::bytes::spec_u128_from_le_bytes(
                    crate::hash::blake3_16(seed + vstd::bytes::spec_u64_to_le_bytes(k)),
                );
            let m = StreamModel::initial(delta, seed, plan, keep);
            &&& m.delta == delta
            &&& m.seed == seed
            &&& m.plan == plan
            &&& m.keep_ciphertexts == keep
            &&& m.label0.len() == 2
            &&& m.label0[0].bits == label(0)
            &&& m.label0[1].bits == label(1)
            &&& m.value == seq![false, true]
            &&& m.remaining == match plan {
                Some(uses) => seq![uses[0], uses[1]],
                None => seq![255u8, 255u8],
            }
            &&& m.free.len() == 0
            &&& m.created == 2
            &&& m.peak_live == 2
            &&& m.tally.and == 0 && m.tally.or == 0 && m.tally.xor == 0
            &&& m.ciphertexts.len() == 0
            &&& m.non_free == 0
        }),
{
}

/// A fresh wire is false, with the label of its creation index, which is the
/// number of wires before it; `law_a_new_wire_takes_no_held_slot` says where it
/// is.
pub proof fn law_a_fresh_wire_is_false(m: StreamModel)
    requires
        m.valid(),
        m.has_room(),
    ensures
        ({
            let (next, slot) = Streaming::fresh_step(m);
            let label = next.label0[slot];
            &&& (next, slot) == m.placed(false, label)
            &&& !next.value[slot]
            &&& label.bits == vstd::bytes::spec_u128_from_le_bytes(
                crate::hash::blake3_16(
                    m.seed + vstd::bytes::spec_u64_to_le_bytes(m.created as u64),
                ),
            )
        }),
{
    law_a_new_wire_takes_no_held_slot(m, false, input_label(m.seed, m.created));
}

/// Giving a wire a value changes that value and nothing else.
pub proof fn law_a_value_is_given_to_one_wire(m: StreamModel, wire: int, value: bool)
    requires
        m.valid(),
        0 <= wire < m.slots(),
    ensures
        ({
            let next = Streaming::input_step(m, wire, value);
            &&& next.value[wire] == value
            &&& next.value.len() == m.value.len()
            &&& forall|t: int|
                0 <= t < m.slots() && t != wire ==> #[trigger] next.value[t] == m.value[t]
            &&& next == (StreamModel { value: next.value, ..m })
        }),
        Streaming::can_set(m, wire),
{
}

/// One read takes one from the reads that are left, unless the wire is pinned,
/// and the last one releases the slot. Nothing else changes.
pub proof fn law_a_read_is_counted_down(m: StreamModel, x: int)
    requires
        m.valid(),
        0 <= x < m.slots(),
        m.remaining[x] > 0,
    ensures
        ({
            let next = m.consumed(x);
            &&& m.can_read(x)
            &&& next == (StreamModel { remaining: next.remaining, free: next.free, ..m })
            &&& next.remaining.len() == m.remaining.len()
            &&& forall|t: int|
                0 <= t < m.slots() ==> #[trigger] next.remaining[t] == if t == x && m.remaining[t]
                    < 255 {
                    m.remaining[t] - 1
                } else {
                    m.remaining[t] as int
                }
            &&& next.free == if m.remaining[x] == 1 {
                m.free.push(x)
            } else {
                m.free
            }
        }),
{
}

/// What a gate that is not folded does to a garbler, with `h(l)` the BLAKE3 hash
/// of all bytes of the label `l` followed by the number of non-free gates before
/// it.
///
/// Both operands are read once, and then there is a new wire with the value that
/// the truth table gives. The label of XOR is that of both operands together;
/// the false label of AND is the hash of the first operand's false label, and
/// the true label of OR that of its true label. AND and OR have one ciphertext,
/// put out where ciphertexts are kept after those before it. Each is counted by
/// its kind.
pub proof fn law_a_gate_is_garbled_by_its_kind(m: StreamModel, gate_type: GateType, x: int, y: int)
    requires
        m.valid(),
        Streaming::can_emit(m, gate_type, x, y),
    ensures
        ({
            let gid = m.non_free as u32;
            let h = |l: u128|
                vstd::bytes::spec_u128_from_le_bytes(
                    crate::hash::blake3_16(
                        vstd::bytes::spec_u128_to_le_bytes(l)
                            + vstd::bytes::spec_u32_to_le_bytes(gid),
                    ),
                );
            let (a0, b0, d) = (m.label0[x].bits, m.label0[y].bits, m.delta.bits);
            let (h0, h1) = (h(a0), h(a0 ^ d));
            let (a, b) = (m.value[x], m.value[y]);
            let (next, slot) = Streaming::emit_step(m, gate_type, x, y);
            let (value, label) = (next.value[slot], next.label0[slot]);
            let (placed, at) = m.consumed(x).consumed(y).placed(value, label);
            let put_out = |ciphertext: u128|
                next.ciphertexts == if m.keep_ciphertexts {
                    m.ciphertexts.push(S { bits: ciphertext })
                } else {
                    m.ciphertexts
                };
            &&& m.non_free == m.tally.and + m.tally.or
            &&& gate_type != GateType::Xor ==> gid == m.non_free
            &&& m.keep_ciphertexts ==> m.non_free == m.ciphertexts.len()
            &&& slot == at
            &&& next == (StreamModel {
                tally: next.tally,
                ciphertexts: next.ciphertexts,
                non_free: next.non_free,
                ..placed
            })
            &&& match gate_type {
                GateType::Xor => {
                    &&& value <==> (a || b) && !(a && b)
                    &&& label.bits == a0 ^ b0
                    &&& next.ciphertexts == m.ciphertexts
                    &&& next.non_free == m.non_free
                    &&& next.tally == (Tally { xor: m.tally.xor + 1, ..m.tally })
                },
                GateType::And => {
                    &&& value <==> a && b
                    &&& label.bits == h0
                    &&& put_out(h0 ^ h1 ^ b0)
                    &&& next.non_free == m.non_free + 1
                    &&& next.tally == (Tally { and: m.tally.and + 1, ..m.tally })
                },
                GateType::Or => {
                    &&& value <==> a || b
                    &&& label.bits ^ d == h1
                    &&& put_out(h0 ^ h1 ^ (b0 ^ d))
                    &&& next.non_free == m.non_free + 1
                    &&& next.tally == (Tally { or: m.tally.or + 1, ..m.tally })
                },
            }
        }),
{
    let gid = m.non_free as u32;
    let value = gate_type.apply(m.value[x], m.value[y]);
    let label = crate::gate::output_label(gate_type, m.label0[x], m.label0[y], gid, m.delta);
    lemma_consumed_valid(m, x);
    lemma_consumed_valid(m.consumed(x), y);
    law_a_new_wire_takes_no_held_slot(m.consumed(x).consumed(y), value, label);
    crate::gate::law_garbled_gates_are_hashes(m.label0[x], m.label0[y], gid, m.delta);
}

/// When a garbler takes a call. A new wire needs a next creation index, in the
/// plan too if there is one. A gate that is not folded also needs a read left of
/// each of its two operands, and a number below `2 ^ 32` if it is not free.
pub proof fn law_a_garbler_takes_what_is_planned(
    m: StreamModel,
    gate_type: GateType,
    x: int,
    y: int,
)
    ensures
        Streaming::can_fresh(m) <==> m.created < usize::MAX && (match m.plan {
            Some(uses) => m.created < uses.len(),
            None => true,
        }),
        Streaming::can_emit(m, gate_type, x, y) <==> {
            &&& Streaming::can_fresh(m)
            &&& x != y
            &&& 0 <= x < m.label0.len() && m.remaining[x] > 0
            &&& 0 <= y < m.label0.len() && m.remaining[y] > 0
            &&& gate_type != GateType::Xor ==> m.non_free < 0x1_0000_0000
        },
        Streaming::can_set(m, x) <==> 0 <= x < m.label0.len(),
{
}

/// What can be read off a garbler: the gates counted, that none is stored, and
/// the number of slots.
pub proof fn law_a_garbler_stores_no_gate(m: StreamModel)
    ensures
        Streaming::tally(m) == m.tally,
        Streaming::gates(m).len() == 0,
        Streaming::next(m) == m.label0.len(),
{
}

/// The evaluator's label of a wire is its false label, offset by `delta` where
/// the wire is true.
pub proof fn law_held_labels_are_offset_by_the_value(m: StreamModel, wire: int)
    ensures
        m.held(wire).bits == if m.value[wire] {
            m.label0[wire].bits ^ m.delta.bits
        } else {
            m.label0[wire].bits
        },
{
}

/// No number of reads changes a pinned slot: the constants' slots, every slot of
/// a garbler without a plan, and the slot of a wire whose planned uses are
/// `PINNED`.
pub proof fn law_pinned_slots_are_never_released(m: StreamModel, x: int, n: nat)
    requires
        m.valid(),
        0 <= x < m.slots(),
        x < 2 || m.plan is None || m.remaining[x] == PINNED,
    ensures
        m.consumed_times(x, n) == m,
        !m.free.contains(x),
    decreases n,
{
    if n > 0 {
        law_pinned_slots_are_never_released(m, x, (n - 1) as nat);
    }
    assert(m.remaining[x] == PINNED);
}

/// A slot that is not pinned is released by the last of its planned reads and
/// by none before; nothing else changes.
pub proof fn law_the_last_planned_read_releases(m: StreamModel, x: int, n: nat)
    requires
        m.valid(),
        0 <= x < m.slots(),
        0 < m.remaining[x] < PINNED,
        n <= m.remaining[x],
    ensures
        m.consumed_times(x, n) == (StreamModel {
            remaining: m.remaining.update(x, (m.remaining[x] - n) as u8),
            free: if n == m.remaining[x] {
                m.free.push(x)
            } else {
                m.free
            },
            ..m
        }),
        !m.free.contains(x),
    decreases n,
{
    if n > 0 {
        law_the_last_planned_read_releases(m, x, (n - 1) as nat);
        assert(m.remaining.update(x, (m.remaining[x] - (n - 1)) as u8).update(
            x,
            (m.remaining[x] - n) as u8,
        ) =~= m.remaining.update(x, (m.remaining[x] - n) as u8));
    } else {
        assert(m.remaining.update(x, m.remaining[x]) =~= m.remaining);
    }
}

/// A new wire takes the slot that was released last, or else one that there was
/// not, so never that of a constant or of a wire still held. What the other slots
/// hold stays, the slot is no longer to be handed out, and it has the reads that
/// are planned: 255, which is forever, without a plan. Nothing else changes but
/// the number of wires, and the peak where there is a new slot.
pub proof fn law_a_new_wire_takes_no_held_slot(m: StreamModel, value: bool, label: S)
    requires
        m.valid(),
        m.has_room(),
    ensures
        ({
            let (next, slot) = m.placed(value, label);
            &&& 2 <= slot < next.slots()
            &&& m.free.contains(slot) || slot == m.slots()
            &&& slot == if m.free.len() > 0 {
                m.free.last()
            } else {
                m.slots() as int
            }
            &&& next.free == if m.free.len() > 0 {
                m.free.drop_last()
            } else {
                m.free
            }
            &&& next.slots() == if m.free.len() > 0 {
                m.slots()
            } else {
                m.slots() + 1
            }
            &&& next.value.len() == next.slots()
            &&& next.remaining.len() == next.slots()
            &&& next.peak_live == next.slots()
            &&& next.created == m.created + 1
            &&& next.remaining[slot] == match m.plan {
                Some(uses) => uses[m.created as int],
                None => 255,
            }
            &&& next.delta == m.delta
            &&& next.seed == m.seed
            &&& next.plan == m.plan
            &&& next.tally == m.tally
            &&& next.ciphertexts == m.ciphertexts
            &&& next.keep_ciphertexts == m.keep_ciphertexts
            &&& next.non_free == m.non_free
            &&& next.label0[slot] == label
            &&& next.value[slot] == value
            &&& next.remaining[slot] == planned_uses(m.plan, m.created as int)
            &&& forall|t: int|
                #[trigger] next.free.contains(t) <==> m.free.contains(t) && t != slot
            &&& forall|t: int|
                0 <= t < m.slots() && t != slot ==> {
                    &&& #[trigger] next.label0[t] == m.label0[t]
                    &&& next.value[t] == m.value[t]
                    &&& next.remaining[t] == m.remaining[t]
                }
        }),
{
    let (next, slot) = m.placed(value, label);
    if m.free.len() > 0 {
        let last = m.free.len() - 1;
        assert(m.free[last] == slot);
        assert forall|t: int| #[trigger] next.free.contains(t) <==> m.free.contains(t) && t
            != slot by {
            if m.free.contains(t) && t != slot {
                let i = choose|i: int| 0 <= i < m.free.len() && m.free[i] == t;
                assert(next.free[i] == t);
            }
            if next.free.contains(t) {
                let i = choose|i: int| 0 <= i < next.free.len() && next.free[i] == t;
                assert(m.free[i] == t && m.free[i] != m.free[last]);
            }
        }
    } else {
        assert forall|t: int| !m.free.contains(t) by {}
    }
}

/// `n` fresh wires of a garbler create `n` wires: there is room for all of them
/// where the plan, if there is one, has `n` more.
pub proof fn law_fresh_creates_as_many(m: StreamModel, n: nat)
    ensures
        fresh_steps::<Streaming>(m, n).0.created == m.created + n,
        fresh_steps::<Streaming>(m, n).0.plan == m.plan,
        fresh_steps::<Streaming>(m, n).1.len() == n,
        n > 0 ==> (fresh_steps::<Streaming>(m, (n - 1) as nat).0.has_room() <==> (m.created + n
            <= usize::MAX && (m.plan matches Some(uses) ==> m.created + n <= uses.len()))),
    decreases n,
{
    if n > 0 {
        law_fresh_creates_as_many(m, (n - 1) as nat);
    }
}

} // verus!
