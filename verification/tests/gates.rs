use streaming_garbler::gate::{gate_evaluate, gate_garbled_with_delta, GateType};
use streaming_garbler::label::S;

fn blake3_16(input: &[u8]) -> u128 {
    let mut out = [0u8; 16];
    out.copy_from_slice(&blake3::hash(input).as_bytes()[..16]);
    u128::from_le_bytes(out)
}

#[test]
fn a_label_has_its_bytes_little_end_first() {
    let mut bytes = [0u8; 16];
    bytes[0] = 7;
    bytes[15] = 1;
    let label = S::from_slice(&bytes);
    assert_eq!(label.bits, 7 + (1u128 << 120));
    assert_eq!(label.xor(S { bits: 5 }).bits, 2 + (1u128 << 120));
}

#[test]
fn a_gate_hash_is_blake3_of_label_and_number() {
    let label = S { bits: 0x0102_0304_0506_0708_090a_0b0c_0d0e_0f10 };
    let mut input = label.bits.to_le_bytes().to_vec();
    input.extend_from_slice(&[0x44, 0x33, 0x22, 0x11]);
    assert_eq!(label.hash_ext(0x1122_3344).bits, blake3_16(&input));
    assert_ne!(label.hash_ext(0), label.hash_ext(1));
}

#[test]
fn evaluation_yields_the_output_label() {
    let delta = S { bits: 0xdead_beef_0000_1111_2222_3333_4444_5555 };
    let a0 = S { bits: 0x1234 };
    let b0 = S { bits: u128::MAX - 9 };
    let of = |l: S, v: bool| if v { l.xor(delta) } else { l };
    for gate_type in [GateType::And, GateType::Or, GateType::Xor] {
        let (c0, ct) = gate_garbled_with_delta(a0, b0, 77, gate_type, delta);
        assert_eq!(ct.is_none(), gate_type == GateType::Xor);
        for a in [false, true] {
            for b in [false, true] {
                let c = match gate_type {
                    GateType::And => a & b,
                    GateType::Or => a | b,
                    GateType::Xor => a ^ b,
                };
                let label = gate_evaluate(gate_type, a, of(a0, a), of(b0, b), ct, 77);
                assert_eq!(label, of(c0, c));
            }
        }
    }
}

#[test]
fn a_garbled_gate_has_the_stated_labels() {
    let delta = S { bits: 3 };
    let (a0, b0) = (S { bits: 10 }, S { bits: 20 });
    let (h0, h1) = (a0.hash_ext(5), S { bits: 9 }.hash_ext(5));
    let and = gate_garbled_with_delta(a0, b0, 5, GateType::And, delta);
    assert_eq!(and, (h0, Some(h0.xor(h1).xor(b0))));
    let or = gate_garbled_with_delta(a0, b0, 5, GateType::Or, delta);
    assert_eq!(or, (h1.xor(delta), Some(h0.xor(h1).xor(S { bits: 23 }))));
    let xor = gate_garbled_with_delta(a0, b0, 5, GateType::Xor, delta);
    assert_eq!(xor, (S { bits: 30 }, None));
}

#[test]
fn random_labels_differ() {
    assert_ne!(S::random(), S::random());
}
