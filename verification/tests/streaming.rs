use streaming_garbler::adapter::CircuitAdapter;
use streaming_garbler::builder::{CircuitTrait, ValuedBuilder};
use streaming_garbler::gate::{gate_evaluate, gate_garbled_with_delta, GateType};
use streaming_garbler::label::S;
use streaming_garbler::plan::Plan;
use streaming_garbler::streaming::Streaming;

/// A small circuit through a plan and then the planned garbler: the output's
/// value and label follow the inputs, and the slot count is the live-wire bound
/// rather than the wire count.
#[test]
fn planned_slots_are_released_and_reused() {
    fn build<T: ValuedBuilder>(b: &mut T, bits: [bool; 3]) -> usize {
        let x = b.fresh_one();
        b.set_input(x, bits[0]);
        let y = b.fresh_one();
        b.set_input(y, bits[1]);
        let z = b.fresh_one();
        b.set_input(z, bits[2]);
        let mut acc = b.and_wire(x, y);
        for _ in 0..100 {
            let t = b.xor_wire(acc, z);
            acc = b.or_wire(t, x);
            acc = b.and_wire(acc, y);
        }
        acc
    }
    for bits in 0..8u8 {
        let w = [bits & 1 == 1, bits & 2 == 2, bits & 4 == 4];
        let mut p = Plan::new();
        let _ = build(&mut p, w);
        let wires = p.wires();
        let mut s = Streaming::planned(p, true);
        let out = build(&mut s, w);
        let mut expect = w[0] & w[1];
        for _ in 0..100 {
            expect = ((expect ^ w[2]) | w[0]) & w[1];
        }
        assert_eq!(s.value(out), expect);
        assert_eq!(s.non_free_gates(), 201);
        assert_eq!(s.ciphertexts().len(), 201);
        assert_eq!(s.wires(), wires);
        assert!(s.peak_live() < 12, "{} slots for {} wires", s.peak_live(), wires);
    }
}

const DELTA: S = S { bits: 0x0f1e_2d3c_4b5a_6978_8796_a5b4_c3d2_e1f0 };
const SEED: [u8; 32] = [42; 32];

fn input_label(k: u64) -> S {
    let mut label = [0u8; 16];
    let mut input = SEED.to_vec();
    input.extend_from_slice(&k.to_le_bytes());
    label.copy_from_slice(&blake3::hash(&input).as_bytes()[..16]);
    S::from_slice(&label)
}

/// Two inputs, then a chain of gates that reads the second input in each.
fn chain<B: ValuedBuilder>(b: &mut B, bits: [bool; 2], gates: usize) -> (usize, usize) {
    let x = b.fresh_one();
    b.set_input(x, bits[0]);
    let y = b.fresh_one();
    b.set_input(y, bits[1]);
    let mut acc = x;
    for i in 0..gates {
        acc = match i % 3 {
            0 => b.xor_wire(acc, y),
            1 => b.and_wire(y, acc),
            _ => b.or_wire(acc, y),
        };
    }
    (y, acc)
}

#[test]
fn an_input_label_is_blake3_of_seed_and_index() {
    let mut s = Streaming::with_secrets(None, false, DELTA, SEED);
    let [x, y] = s.fresh::<2>();
    assert_eq!(s.label0(0), input_label(0));
    assert_eq!(s.label0(1), input_label(1));
    assert_eq!(s.label0(x), input_label(2));
    assert_eq!(s.label0(y), input_label(3));
    assert_eq!((s.value(0), s.value(1)), (false, true));
    assert_eq!(s.delta(), DELTA);
}

#[test]
fn gates_are_garbled_under_their_numbers() {
    let mut s = Streaming::with_secrets(None, true, DELTA, SEED);
    let [x, y] = s.fresh::<2>();
    s.set_input(x, true);
    let (a0, b0) = (s.label0(x), s.label0(y));
    let c = s.xor_wire(x, y);
    assert_eq!(s.label0(c), a0.xor(b0));
    assert_eq!(s.non_free_gates(), 0);
    let d = s.and_wire(x, y);
    let (d0, d_ct) = gate_garbled_with_delta(a0, b0, 0, GateType::And, DELTA);
    assert_eq!(s.label0(d), d0);
    let e = s.or_wire(d, c);
    let (e0, e_ct) = gate_garbled_with_delta(d0, a0.xor(b0), 1, GateType::Or, DELTA);
    assert_eq!(s.label0(e), e0);
    assert_eq!(s.ciphertexts(), &[d_ct.unwrap(), e_ct.unwrap()]);
    assert_eq!(s.non_free_gates(), 2);
    assert_eq!((s.value(c), s.value(d), s.value(e)), (true, false, true));
}

#[test]
fn slot_reuse_changes_nothing_that_is_put_out() {
    for bits in [[false, false], [false, true], [true, false], [true, true]] {
        let mut plan = Plan::new();
        let (_, planned_out) = chain(&mut plan, bits, 90);
        let wires = plan.wires();
        let mut with = Streaming::with_secrets(Some(plan), true, DELTA, SEED);
        let mut without = Streaming::with_secrets(None, true, DELTA, SEED);
        let (_, a) = chain(&mut with, bits, 90);
        let (_, b) = chain(&mut without, bits, 90);
        assert_eq!(b, planned_out);
        assert_eq!(with.label0(a), without.label0(b));
        assert_eq!(with.value(a), without.value(b));
        assert_eq!(with.ciphertexts(), without.ciphertexts());
        assert_eq!(with.ciphertexts().len(), 60);
        assert_eq!(with.wires(), wires);
        assert_eq!(without.wires(), wires);
        // Without a plan nothing is released; with one, the constants, the
        // second input and the last output are all there is.
        assert_eq!(without.peak_live(), wires);
        assert_eq!(without.next_wire(), wires);
        assert_eq!(with.peak_live(), 4);
        assert_eq!((with.value(0), with.value(1)), (false, true));
        assert_eq!((with.label0(0), with.label0(1)), (input_label(0), input_label(1)));
        assert_eq!(with.next_wire(), 4);
    }
}

#[test]
fn an_evaluator_follows_from_labels_and_ciphertexts() {
    let mut s = Streaming::with_secrets(None, true, DELTA, SEED);
    let bits = [true, false];
    let (y, out) = chain(&mut s, bits, 30);
    let held = |s: &Streaming, w: usize| {
        if s.value(w) {
            s.label0(w).xor(s.delta())
        } else {
            s.label0(w)
        }
    };
    let (mut label, mut value, second) = (held(&s, 2), bits[0], held(&s, y));
    let mut gid = 0u32;
    for i in 0..30 {
        let ct = s.ciphertexts().get(gid as usize).copied();
        match i % 3 {
            0 => {
                label = gate_evaluate(GateType::Xor, value, label, second, None, 0);
                value ^= bits[1];
            }
            1 => {
                label = gate_evaluate(GateType::And, bits[1], second, label, ct, gid);
                value &= bits[1];
                gid += 1;
            }
            _ => {
                label = gate_evaluate(GateType::Or, value, label, second, ct, gid);
                value |= bits[1];
                gid += 1;
            }
        }
    }
    assert_eq!(value, s.value(out));
    assert_eq!(label, held(&s, out));
}

#[test]
fn the_slot_released_last_goes_first() {
    fn build<B: ValuedBuilder>(b: &mut B) -> [usize; 3] {
        let [x, y] = b.fresh::<2>();
        let z = b.xor_wire(x, y);
        let [u, v] = b.fresh::<2>();
        [z, u, v]
    }
    let mut plan = Plan::new();
    assert_eq!(build(&mut plan), [4, 5, 6]);
    let mut s = Streaming::planned(plan, false);
    // The slots 2 and 3 are freed, and the output takes 3.
    assert_eq!(build(&mut s), [3, 2, 4]);
    assert_eq!(s.peak_live(), 5);
    assert_eq!(s.wires(), 7);
}

/// `reads` gates read one wire; a fresh wire afterwards shows if it was released.
fn slot_after_reads(reads: usize, keep: bool) -> (usize, usize) {
    fn build<B: ValuedBuilder>(b: &mut B, reads: usize) -> (usize, usize) {
        let x = b.fresh_one();
        for _ in 0..reads {
            let _ = b.xor_wire(x, 1);
        }
        (x, b.fresh_one())
    }
    let mut plan = Plan::new();
    let (x, _) = build(&mut plan, reads);
    if keep {
        plan.keep(x);
    }
    build(&mut Streaming::planned(plan, false), reads)
}

#[test]
fn a_wire_read_255_times_is_never_released() {
    // The last of the gates takes the slot of the wire after its last read.
    let (x, next) = slot_after_reads(254, false);
    assert_eq!((x, next), (2, 256));
    // Pinned: the gates take a slot each.
    let (x, next) = slot_after_reads(255, false);
    assert_eq!((x, next), (2, 258));
    let (x, next) = slot_after_reads(300, false);
    assert_eq!((x, next), (2, 303));
}

#[test]
fn a_kept_wire_is_never_released() {
    assert_eq!(slot_after_reads(1, false), (2, 3));
    assert_eq!(slot_after_reads(1, true), (2, 4));

    fn build<B: ValuedBuilder>(b: &mut B) -> usize {
        let [x, y] = b.fresh::<2>();
        b.set_input(x, true);
        b.set_input(y, true);
        let out = b.and_wire(x, y);
        let _ = b.xor_wire(out, 1);
        out
    }
    let mut plan = Plan::new();
    let out = build(&mut plan);
    plan.keep(out);
    let mut kept = Streaming::planned(plan, false);
    let out = build(&mut kept);
    assert!(kept.value(out));

    // Otherwise the slot goes to the later wire.
    let mut plan = Plan::new();
    let _ = build(&mut plan);
    let mut s = Streaming::planned(plan, false);
    let out = build(&mut s);
    assert!(!s.value(out));
}

#[test]
fn ciphertexts_are_kept_only_when_asked_for() {
    let mut s = Streaming::new(false);
    let (_, _) = chain(&mut s, [true, true], 9);
    assert_eq!(s.non_free_gates(), 6);
    assert!(s.ciphertexts().is_empty());
    let mut s = Streaming::new(true);
    let (_, _) = chain(&mut s, [true, true], 9);
    assert_eq!(s.non_free_gates(), 6);
    assert_eq!(s.ciphertexts().len(), 6);
}

#[test]
fn every_garbler_draws_its_own_secrets() {
    let (a, b) = (Streaming::new(false), Streaming::new(false));
    assert_ne!(a.delta(), b.delta());
    assert_ne!(a.label0(0), b.label0(0));
    let (a, b) = (
        Streaming::planned(Plan::new(), false),
        Streaming::planned(Plan::new(), false),
    );
    assert_ne!(a.delta(), b.delta());
    assert_ne!(a.label0(1), b.label0(1));
}

/// All inputs first, then their values, then the gates.
fn values_later<B: ValuedBuilder>(b: &mut B, bits: [bool; 3]) -> [usize; 2] {
    let [x, y, z] = b.fresh::<3>();
    b.set_input(z, bits[2]);
    b.set_input(x, !bits[0]);
    b.set_input(y, bits[1]);
    b.set_input(x, bits[0]);
    let a = b.and_wire(x, y);
    let o = b.or_wire(a, z);
    let t = b.xor_wire(o, z);
    [b.or_wire(t, a), t]
}

/// Each input with its value at once.
fn values_at_once<B: ValuedBuilder>(b: &mut B, bits: [bool; 3]) -> [usize; 2] {
    let mut input = |bit| {
        let wire = b.fresh_one();
        b.set_input(wire, bit);
        wire
    };
    let (x, y, z) = (input(bits[0]), input(bits[1]), input(bits[2]));
    let a = b.and_wire(x, y);
    let o = b.or_wire(a, z);
    let t = b.xor_wire(o, z);
    [b.or_wire(t, a), t]
}

#[test]
fn inputs_may_get_their_values_later() {
    for bits in 0..8u8 {
        let w = [bits & 1 == 1, bits & 2 == 2, bits & 4 == 4];
        let mut plan = Plan::new();
        let planned = values_later(&mut plan, w);
        plan.keep(planned[1]);
        let mut with = Streaming::with_secrets(Some(plan), true, DELTA, SEED);
        let mut without = Streaming::with_secrets(None, true, DELTA, SEED);
        let mut at_once = Streaming::with_secrets(None, true, DELTA, SEED);
        let a = values_later(&mut with, w);
        let b = values_later(&mut without, w);
        let c = values_at_once(&mut at_once, w);
        let t = ((w[0] & w[1]) | w[2]) ^ w[2];
        let expect = [t | (w[0] & w[1]), t];
        for i in 0..2 {
            assert_eq!(with.value(a[i]), expect[i]);
            assert_eq!(without.value(b[i]), expect[i]);
            assert_eq!(at_once.value(c[i]), expect[i]);
            assert_eq!(with.label0(a[i]), without.label0(b[i]));
            assert_eq!(at_once.label0(c[i]), without.label0(b[i]));
        }
        assert_eq!(with.ciphertexts(), without.ciphertexts());
        assert_eq!(at_once.ciphertexts(), without.ciphertexts());
        assert_eq!(with.wires(), without.wires());
    }
}

#[test]
fn an_input_keeps_its_label_while_it_is_held() {
    let mut plan = Plan::new();
    let [x, y] = plan.fresh::<2>();
    let z = plan.and_wire(x, y);
    let _ = plan.or_wire(x, z);
    let mut s = Streaming::with_secrets(Some(plan), true, DELTA, SEED);
    let [x, y] = s.fresh::<2>();
    for bit in [true, false, true] {
        s.set_input(x, bit);
        assert_eq!(s.label0(x), input_label(2));
        assert_eq!(s.value(x), bit);
    }
    let z = s.and_wire(x, y);
    // The slot of `y` goes to the output; `x` has a read left.
    assert_eq!((x, y, z), (2, 3, 3));
    assert_eq!(s.label0(x), input_label(2));
    assert_ne!(s.label0(z), input_label(3));
    let first = s.ciphertexts().to_vec();
    let _ = s.or_wire(x, z);
    assert_eq!(s.ciphertexts()[..1], first[..]);
    assert_eq!(s.ciphertexts().len(), 2);
    let c = s.gate_counts();
    assert_eq!(s.non_free_gates(), c.direct_and + c.direct_or);
}

#[test]
fn held_wires_are_in_slots_of_their_own() {
    fn build<B: ValuedBuilder>(b: &mut B) -> [usize; 4] {
        let [x, y, unread] = b.fresh::<3>();
        let a = b.xor_wire(x, y);
        let c = b.and_wire(a, y);
        let d = b.or_wire(c, 1);
        assert_eq!(d, 1);
        [x, y, unread, c]
    }
    let mut plan = Plan::new();
    let [x, ..] = build(&mut plan);
    plan.keep(x);
    let mut s = Streaming::planned(plan, false);
    let held = build(&mut s);
    // `x` is kept; `y` is released by its second read, and `c` takes its slot.
    assert_eq!(held, [2, 3, 4, 3]);
    assert_eq!(s.peak_live(), 6);
}

#[test]
fn values_change_nothing_but_values() {
    /// The first input gets its value again after it was read, and so does an
    /// output.
    fn build<B: ValuedBuilder>(b: &mut B, bits: [bool; 3]) -> usize {
        let [x, y] = b.fresh::<2>();
        b.set_input(x, bits[0]);
        let a = b.and_wire(x, y);
        b.set_input(x, bits[1]);
        let o = b.or_wire(a, x);
        b.set_input(o, bits[2]);
        b.xor_wire(o, y)
    }
    let mut expect: Option<(Vec<S>, S, usize)> = None;
    for bits in 0..8u8 {
        let w = [bits & 1 == 1, bits & 2 == 2, bits & 4 == 4];
        let mut plan = Plan::new();
        let out = build(&mut plan, w);
        let (wires, counts) = (plan.wires(), plan.gate_counts());
        let mut with = Streaming::with_secrets(Some(plan), true, DELTA, SEED);
        let mut without = Streaming::with_secrets(None, true, DELTA, SEED);
        let mut adapter = CircuitAdapter::new();
        let slot = build(&mut with, w);
        assert_eq!(build(&mut without, w), out);
        assert_eq!(build(&mut adapter, w), out);
        assert_eq!((with.wires(), without.wires()), (wires, wires));
        assert_eq!(adapter.next_wire(), wires);
        assert_eq!(with.gate_counts(), counts);
        assert_eq!(without.gate_counts(), counts);
        assert_eq!(adapter.gate_counts(), counts);
        assert_eq!(adapter.get_gates().len(), 3);
        let seen = (with.ciphertexts().to_vec(), with.label0(slot), slot);
        assert_eq!(without.ciphertexts(), seen.0);
        assert_eq!(without.label0(out), seen.1);
        if let Some(expect) = &expect {
            assert_eq!(&seen, expect);
        }
        expect = Some(seen);
    }
}
