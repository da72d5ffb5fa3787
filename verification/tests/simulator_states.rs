use stabilizer_qec::simulator::StabilizerSimulator;

#[test]
fn test_bell_state() {
    for _ in 0..100 {
        let mut sim = StabilizerSimulator::new(2);
        sim.apply_h(0);
        sim.apply_cnot(0, 1);

        let m0 = sim.measure_z(0);
        let m1 = sim.measure_z(1);

        // In a Bell state, measuring both qubits in Z basis must yield identical outcomes (00 or 11)
        assert_eq!(m0, m1);
    }
}

#[test]
fn test_ghz_state() {
    for _ in 0..100 {
        let mut sim = StabilizerSimulator::new(3);
        sim.apply_h(0);
        sim.apply_cnot(0, 1);
        sim.apply_cnot(1, 2);

        let m0 = sim.measure_z(0);
        let m1 = sim.measure_z(1);
        let m2 = sim.measure_z(2);

        // GHZ state must result in either 000 or 111
        assert_eq!(m0, m1);
        assert_eq!(m1, m2);
    }
}

#[test]
fn test_teleportation_x_basis() {
    for _ in 0..100 {
        let mut sim = StabilizerSimulator::new(3);
        sim.apply_h(0);
        sim.apply_h(1);
        sim.apply_cnot(1, 2);
        sim.apply_cnot(0, 1);
        sim.apply_h(0);

        let m1 = sim.measure_z(1);
        let m0 = sim.measure_z(0);

        if m1 == 1 {
            sim.apply_x(2);
        }
        if m0 == 1 {
            sim.apply_z(2);
        }

        // Qubit 2 now holds |+>: an X measurement always reads 0.
        let m2 = sim.measure_x(2);
        assert_eq!(m2, 0);
    }
}

#[test]
fn test_teleportation_y_basis() {
    for _ in 0..100 {
        let mut sim = StabilizerSimulator::new(3);
        sim.apply_h(0);
        sim.apply_s(0);
        sim.apply_h(1);
        sim.apply_cnot(1, 2);
        sim.apply_cnot(0, 1);
        sim.apply_h(0);

        let m1 = sim.measure_z(1);
        let m0 = sim.measure_z(0);

        if m1 == 1 {
            sim.apply_x(2);
        }
        if m0 == 1 {
            sim.apply_z(2);
        }

        // Qubit 2 now holds |i>: a Y measurement always reads 0.
        let m2 = sim.measure_y(2);
        assert_eq!(m2, 0);
    }
}

#[test]
fn test_single_qubit_gates() {
    let mut sim = StabilizerSimulator::new(1);

    // Z gate on |0> does nothing (phase remains +1)
    sim.apply_z(0);
    assert_eq!(sim.measure_z(0), 0);

    // X gate flips |0> to |1>
    sim.apply_x(0);
    assert_eq!(sim.measure_z(0), 1);

    // Y gate flips |1> to |0> (ignoring global phase)
    sim.apply_y(0);
    assert_eq!(sim.measure_z(0), 0);
}

#[test]
fn measuring_twice_gives_the_same_outcome() {
    for seed in 1u64..20 {
        let mut sim = StabilizerSimulator::with_seed(2, seed);
        sim.apply_h(0);
        sim.apply_cnot(0, 1);
        let a = sim.measure_z(1);
        let b = sim.measure_z(1);
        let c = sim.measure_z(0);
        assert_eq!(a, b);
        assert_eq!(a, c);
    }
}

#[test]
fn s_gate_has_order_four_and_s_dag_undoes_it() {
    let mut sim = StabilizerSimulator::new(1);
    sim.apply_h(0);
    for _ in 0..4 {
        sim.apply_s(0);
    }
    assert_eq!(sim.measure_x(0), 0);

    let mut sim = StabilizerSimulator::new(1);
    sim.apply_h(0);
    sim.apply_s(0);
    sim.apply_s_dag(0);
    assert_eq!(sim.measure_x(0), 0);

    let mut sim = StabilizerSimulator::new(1);
    sim.apply_h(0);
    sim.apply_s(0);
    assert_eq!(sim.measure_y(0), 0);
}

#[test]
fn hadamard_is_an_involution() {
    let mut sim = StabilizerSimulator::new(1);
    sim.apply_x(0);
    sim.apply_h(0);
    sim.apply_h(0);
    assert_eq!(sim.measure_z(0), 1);
    assert_eq!(sim.n(), 1);
}

#[test]
fn seeded_simulators_repeat_their_outcomes() {
    let run = |seed: u64| -> Vec<u8> {
        let mut sim = StabilizerSimulator::with_seed(4, seed);
        let mut out = Vec::new();
        for q in 0..4 {
            sim.apply_h(q);
            out.push(sim.measure_z(q));
        }
        out
    };
    assert_eq!(run(7), run(7));
    assert_eq!(run(123456), run(123456));
}
