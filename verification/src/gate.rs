//! Garbling and evaluating one gate.
//!
//! All labels of a circuit share one offset `delta`: a wire with false label
//! `l` has the true label `l ^ delta`. An XOR gate is free. An AND or OR gate
//! costs one ciphertext, with the first operand's value known to the evaluator.
use vstd::prelude::*;

use crate::label::S;

verus! {

#[derive(Clone, Copy, Debug, PartialEq, Eq, Structural)]
pub enum GateType {
    And,
    Or,
    Xor,
}

impl GateType {
    /// The truth table.
    pub open spec fn apply(self, a: bool, b: bool) -> bool {
        match self {
            GateType::And => a && b,
            GateType::Or => a || b,
            GateType::Xor => a != b,
        }
    }

    /// Whether such a gate needs no ciphertext.
    pub open spec fn is_free(self) -> bool {
        self == GateType::Xor
    }

    /// The value of the first operand that alone decides an AND or OR gate; it
    /// is also the output then.
    pub open spec fn decisive(self) -> bool {
        self == GateType::Or
    }
}

/// The false label of the output of a gate whose operands have the false
/// labels `a0` and `b0`.
///
/// A decisive first operand has the label `a0.offset(decisive, delta)`; hashed,
/// it is the output label of the decisive value.
pub open spec fn output_label(gate_type: GateType, a0: S, b0: S, gid: u32, delta: S) -> S {
    if gate_type.is_free() {
        a0.xor(b0)
    } else {
        let decisive = gate_type.decisive();
        a0.offset(decisive, delta).hashed(gid).offset(decisive, delta)
    }
}

/// The ciphertext of a gate that is not free: it turns the hash of an
/// indecisive first operand, together with the label of the second operand,
/// into the output label of the second operand's value.
pub open spec fn gate_ciphertext(gate_type: GateType, a0: S, b0: S, gid: u32, delta: S) -> S {
    let decisive = gate_type.decisive();
    a0.hashed(gid).xor(a0.xor(delta).hashed(gid)).xor(b0.offset(decisive, delta))
}

/// What an evaluator computes from the labels `a` and `b` that it holds, the
/// first operand's value and the ciphertext.
pub open spec fn evaluated_label(
    gate_type: GateType,
    a_value: bool,
    a: S,
    b: S,
    ciphertext: S,
    gid: u32,
) -> S {
    if gate_type.is_free() {
        a.xor(b)
    } else if a_value == gate_type.decisive() {
        a.hashed(gid)
    } else {
        a.hashed(gid).xor(ciphertext).xor(b)
    }
}

/// Garbles one gate under `delta`: the output's false label, and the
/// ciphertext of a gate that is not free.
pub fn gate_garbled_with_delta(a0: S, b0: S, gid: u32, gate_type: GateType, delta: S) -> (garbled: (
    S,
    Option<S>,
))
    ensures
        garbled.0 == output_label(gate_type, a0, b0, gid, delta),
        garbled.1 == (if gate_type.is_free() {
            None
        } else {
            Some(gate_ciphertext(gate_type, a0, b0, gid, delta))
        }),
        ({
            let h = |l: u128|
                vstd::bytes::spec_u128_from_le_bytes(
                    crate::hash::blake3_16(
                        vstd::bytes::spec_u128_to_le_bytes(l)
                            + vstd::bytes::spec_u32_to_le_bytes(gid),
                    ),
                );
            let (h0, h1) = (h(a0.bits), h(a0.bits ^ delta.bits));
            match gate_type {
                GateType::Xor => garbled.0.bits == a0.bits ^ b0.bits && garbled.1 is None,
                GateType::And => {
                    &&& garbled.0.bits == h0
                    &&& garbled.1 is Some
                    &&& garbled.1->0.bits == h0 ^ h1 ^ b0.bits
                },
                GateType::Or => {
                    &&& garbled.0.bits == h1 ^ delta.bits
                    &&& garbled.1 is Some
                    &&& garbled.1->0.bits == h0 ^ h1 ^ (b0.bits ^ delta.bits)
                },
            }
        }),
{
    match gate_type {
        GateType::Xor => (a0.xor(b0), None),
        GateType::And => {
            let h0 = a0.hash_ext(gid);
            let h1 = a0.xor(delta).hash_ext(gid);
            (h0, Some(h0.xor(h1).xor(b0)))
        },
        GateType::Or => {
            let h0 = a0.hash_ext(gid);
            let h1 = a0.xor(delta).hash_ext(gid);
            (h1.xor(delta), Some(h0.xor(h1).xor(b0.xor(delta))))
        },
    }
}

/// Evaluates one gate on the labels `a` and `b` that the evaluator holds.
pub fn gate_evaluate(
    gate_type: GateType,
    a_value: bool,
    a: S,
    b: S,
    ciphertext: Option<S>,
    gid: u32,
) -> (label: S)
    requires
        !gate_type.is_free() ==> ciphertext is Some,
    ensures
        label == evaluated_label(gate_type, a_value, a, b, ciphertext.unwrap(), gid),
        ({
            let h = |l: u128|
                vstd::bytes::spec_u128_from_le_bytes(
                    crate::hash::blake3_16(
                        vstd::bytes::spec_u128_to_le_bytes(l)
                            + vstd::bytes::spec_u32_to_le_bytes(gid),
                    ),
                );
            label.bits == match gate_type {
                GateType::Xor => a.bits ^ b.bits,
                GateType::And => if a_value {
                    h(a.bits) ^ (ciphertext->0).bits ^ b.bits
                } else {
                    h(a.bits)
                },
                GateType::Or => if a_value {
                    h(a.bits)
                } else {
                    h(a.bits) ^ (ciphertext->0).bits ^ b.bits
                },
            }
        }),
{
    match (gate_type, ciphertext) {
        (GateType::And, Some(c)) => {
            let h = a.hash_ext(gid);
            if a_value {
                h.xor(c).xor(b)
            } else {
                h
            }
        },
        (GateType::Or, Some(c)) => {
            let h = a.hash_ext(gid);
            if a_value {
                h
            } else {
                h.xor(c).xor(b)
            }
        },
        _ => a.xor(b),
    }
}

/// The truth tables of the three kinds of gates; only XOR is free.
pub proof fn law_truth_tables(a: bool, b: bool)
    ensures
        GateType::And.apply(a, b) <==> a && b,
        GateType::Or.apply(a, b) <==> a || b,
        GateType::Xor.apply(a, b) <==> (a || b) && !(a && b),
        GateType::Xor.is_free(),
        !GateType::And.is_free(),
        !GateType::Or.is_free(),
{
}

/// What a garbled gate is, with `h(l)` the BLAKE3 hash of all 16 bytes of the
/// label `l` followed by the 4 of the number.
///
/// The false label of an AND gate is the hash of the first operand's false
/// label; the true label of an OR gate is the hash of the first operand's true
/// label. Either gate's ciphertext is the exclusive or of the hashes of both
/// labels of the first operand and of a label of the second: the false one for
/// AND, the true one for OR. The label of an XOR gate is the exclusive or of its
/// operands' labels.
pub proof fn law_garbled_gates_are_hashes(a0: S, b0: S, gid: u32, delta: S)
    ensures
        ({
            let h = |l: u128|
                vstd::bytes::spec_u128_from_le_bytes(
                    crate::hash::blake3_16(
                        vstd::bytes::spec_u128_to_le_bytes(l)
                            + vstd::bytes::spec_u32_to_le_bytes(gid),
                    ),
                );
            let (h0, h1) = (h(a0.bits), h(a0.bits ^ delta.bits));
            &&& output_label(GateType::And, a0, b0, gid, delta).bits == h0
            &&& output_label(GateType::Or, a0, b0, gid, delta).bits ^ delta.bits == h1
            &&& gate_ciphertext(GateType::And, a0, b0, gid, delta).bits == h0 ^ h1 ^ b0.bits
            &&& gate_ciphertext(GateType::Or, a0, b0, gid, delta).bits == h0 ^ h1 ^ (b0.bits
                ^ delta.bits)
            &&& output_label(GateType::Xor, a0, b0, gid, delta).bits == a0.bits ^ b0.bits
        }),
{
    let (h1, d) = (a0.xor(delta).hashed(gid).bits, delta.bits);
    assert((h1 ^ d) ^ d == h1) by (bit_vector);
}

/// What an evaluator computes: the hash of the label `a` that it holds of the
/// first operand where that is decisive, and otherwise this hash, the
/// ciphertext and the label `b` of the second operand together.
pub proof fn law_an_evaluator_hashes_the_first_label(
    a_value: bool,
    a: S,
    b: S,
    ciphertext: S,
    gid: u32,
)
    ensures
        ({
            let h = |l: u128|
                vstd::bytes::spec_u128_from_le_bytes(
                    crate::hash::blake3_16(
                        vstd::bytes::spec_u128_to_le_bytes(l)
                            + vstd::bytes::spec_u32_to_le_bytes(gid),
                    ),
                );
            let opened = h(a.bits) ^ ciphertext.bits ^ b.bits;
            let label = |gate_type: GateType|
                evaluated_label(gate_type, a_value, a, b, ciphertext, gid).bits;
            &&& label(GateType::Xor) == a.bits ^ b.bits
            &&& label(GateType::And) == if a_value {
                opened
            } else {
                h(a.bits)
            }
            &&& label(GateType::Or) == if a_value {
                h(a.bits)
            } else {
                opened
            }
        }),
{
}

/// The correctness of the garbling, for one gate: on the labels of the operands'
/// values the evaluator computes the label of the output's value.
pub proof fn law_evaluation_yields_output_label(
    gate_type: GateType,
    a0: S,
    b0: S,
    a_value: bool,
    b_value: bool,
    gid: u32,
    delta: S,
)
    ensures
        evaluated_label(
            gate_type,
            a_value,
            a0.offset(a_value, delta),
            b0.offset(b_value, delta),
            gate_ciphertext(gate_type, a0, b0, gid, delta),
            gid,
        ) == output_label(gate_type, a0, b0, gid, delta).offset(
            gate_type.apply(a_value, b_value),
            delta,
        ),
{
    let (a, b, d) = (a0.bits, b0.bits, delta.bits);
    let (h0, h1) = (a0.hashed(gid).bits, a0.xor(delta).hashed(gid).bits);
    assert((a ^ d) ^ b == (a ^ b) ^ d) by (bit_vector);
    assert(a ^ (b ^ d) == (a ^ b) ^ d) by (bit_vector);
    assert((a ^ d) ^ (b ^ d) == a ^ b) by (bit_vector);
    assert((h1 ^ ((h0 ^ h1) ^ b)) ^ b == h0) by (bit_vector);
    assert((h1 ^ ((h0 ^ h1) ^ b)) ^ (b ^ d) == h0 ^ d) by (bit_vector);
    assert((h0 ^ ((h0 ^ h1) ^ (b ^ d))) ^ b == h1 ^ d) by (bit_vector);
    assert((h0 ^ ((h0 ^ h1) ^ (b ^ d))) ^ (b ^ d) == (h1 ^ d) ^ d) by (bit_vector);
    assert(h1 == (h1 ^ d) ^ d) by (bit_vector);
}

} // verus!
