use streaming_garbler::adapter::CircuitAdapter;
use streaming_garbler::builder::{CircuitTrait, CustomGateType, GateOperation, ValuedBuilder};
use streaming_garbler::gate::GateType;
use streaming_garbler::plan::Plan;
use streaming_garbler::streaming::Streaming;

fn folds<B: ValuedBuilder>(b: &mut B) {
    let x = b.fresh_one();
    let (zero, one) = (b.zero(), b.one());
    assert_eq!((zero, one), (0, 1));
    let wires = b.next_wire();

    assert_eq!(b.xor_wire(x, x), 0);
    assert_eq!(b.xor_wire(x, 0), x);
    assert_eq!(b.xor_wire(0, x), x);
    assert_eq!(b.xor_wire(0, 1), 1);
    assert_eq!(b.xor_wire(1, 1), 0);

    assert_eq!(b.and_wire(x, x), x);
    assert_eq!(b.and_wire(x, 0), 0);
    assert_eq!(b.and_wire(0, x), 0);
    assert_eq!(b.and_wire(x, 1), x);
    assert_eq!(b.and_wire(1, x), x);
    assert_eq!(b.and_wire(0, 1), 0);

    assert_eq!(b.or_wire(x, x), x);
    assert_eq!(b.or_wire(x, 1), 1);
    assert_eq!(b.or_wire(1, x), 1);
    assert_eq!(b.or_wire(x, 0), x);
    assert_eq!(b.or_wire(0, x), x);
    assert_eq!(b.or_wire(0, 1), 1);

    // None of these is a gate.
    assert_eq!(b.next_wire(), wires);
    let c = b.gate_counts();
    assert_eq!((c.direct_and, c.direct_xor, c.direct_or), (0, 0, 0));
    // A XOR with the constant true is one.
    let not_x = b.xor_wire(x, 1);
    assert_eq!(not_x, wires);
    assert_eq!(b.gate_counts().direct_xor, 1);
    assert!(b.get_template(CustomGateType::PointAdd).is_none());
}

#[test]
fn every_builder_folds_alike() {
    folds(&mut Plan::new());
    folds(&mut Plan::default());
    folds(&mut Streaming::new(false));
    folds(&mut CircuitAdapter::new());
    folds(&mut CircuitAdapter::default());
}

fn mixed<B: ValuedBuilder>(b: &mut B) -> Vec<usize> {
    let [x, y, z] = b.fresh::<3>();
    b.set_input(x, true);
    b.set_input(z, true);
    let a = b.and_wire(x, y);
    let o = b.or_wire(a, z);
    let t = b.xor_wire(o, x);
    let f = b.and_wire(t, t);
    let n = b.xor_wire(f, 1);
    let o2 = b.or_wire(n, y);
    vec![x, y, z, a, o, t, f, n, o2]
}

#[test]
fn backends_emit_the_same_circuit_and_counts() {
    let mut plan = Plan::new();
    let mut adapter = CircuitAdapter::new();
    let mut stream = Streaming::new(false);
    let wires = mixed(&mut plan);
    assert_eq!(wires, vec![2, 3, 4, 5, 6, 7, 7, 8, 9]);
    assert_eq!(mixed(&mut adapter), wires);
    assert_eq!(mixed(&mut stream), wires);

    let c = plan.gate_counts();
    assert_eq!((c.direct_and, c.direct_xor, c.direct_or), (1, 2, 2));
    assert_eq!((c.custom, c.custom_and, c.custom_xor, c.custom_or), (0, 0, 0, 0));
    assert_eq!(adapter.gate_counts(), c);
    assert_eq!(stream.gate_counts(), c);

    assert_eq!(plan.wires(), 10);
    assert_eq!(plan.next_wire(), 10);
    assert_eq!(adapter.next_wire(), 10);
    assert_eq!(stream.wires(), 10);
    assert_eq!(stream.next_wire(), 10);

    // Only the builder that keeps the gates has any.
    assert!(plan.get_gates().is_empty());
    assert!(stream.get_gates().is_empty());
    let gate = |gate_type, x, y, out| GateOperation { gate_type, x, y, out };
    assert_eq!(
        adapter.get_gates(),
        &vec![
            gate(GateType::And, 2, 3, 5),
            gate(GateType::Or, 5, 4, 6),
            gate(GateType::Xor, 6, 2, 7),
            gate(GateType::Xor, 7, 1, 8),
            gate(GateType::Or, 8, 3, 9),
        ]
    );
    // Each holds between the garbler's values.
    for g in adapter.get_gates() {
        let (a, b) = (stream.value(g.x), stream.value(g.y));
        let expect = match g.gate_type {
            GateType::And => a & b,
            GateType::Or => a | b,
            GateType::Xor => a ^ b,
        };
        assert_eq!(stream.value(g.out), expect);
    }
}

#[test]
fn fresh_wires_come_in_the_order_of_their_creation() {
    let mut plan = Plan::new();
    assert_eq!(plan.fresh::<4>(), [2, 3, 4, 5]);
    assert_eq!(plan.fresh::<0>(), [0usize; 0]);
    assert_eq!(plan.wires(), 6);
    let mut stream = Streaming::new(false);
    assert_eq!(stream.fresh::<4>(), [2, 3, 4, 5]);
    assert_eq!(stream.wires(), 6);
    let mut adapter = CircuitAdapter::new();
    assert_eq!(adapter.fresh::<4>(), [2, 3, 4, 5]);
}

#[test]
fn the_gates_of_a_plan_commute() {
    let (mut p, mut q) = (Plan::new(), Plan::new());
    let [x, y, z] = p.fresh::<3>();
    assert_eq!(q.fresh::<3>(), [x, y, z]);
    for (a, b) in [(x, y), (y, z), (x, x), (0, x), (1, z), (0, 1)] {
        assert_eq!(p.xor_wire(a, b), q.xor_wire(b, a));
        assert_eq!(p.or_wire(a, b), q.or_wire(b, a));
        assert_eq!(p.and_wire(a, b), q.and_wire(b, a));
    }
    assert_eq!(p.wires(), q.wires());
    assert_eq!(p.gate_counts(), q.gate_counts());
    // Equal use counts release equal slots.
    let (mut s, mut t) = (Streaming::planned(p, false), Streaming::planned(q, false));
    for g in [&mut s, &mut t] {
        let [x, y, z] = g.fresh::<3>();
        for (a, b) in [(x, y), (y, z), (1, z)] {
            let _ = g.xor_wire(a, b);
            if a != 1 {
                let _ = g.or_wire(a, b);
                let _ = g.and_wire(a, b);
            }
        }
    }
    assert_eq!(s.wires(), t.wires());
    assert_eq!(s.peak_live(), t.peak_live());
    assert_eq!(s.next_wire(), t.next_wire());
}
