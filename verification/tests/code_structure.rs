use stabilizer_qec::circuit_model::{build_combined, single_fault_failures_combined, stats_combined, Fault, Op};
use stabilizer_qec::simulator::StabilizerSimulator;
use stabilizer_qec::surface_code::{LogicalCheck, RotatedSurfaceCode, XZZXSurfaceCode};

fn run_program(sim: &mut StabilizerSimulator, program: &[Op], out: &mut Vec<u8>) {
    for &op in program {
        match op {
            Op::Reset(q) => {
                if sim.measure_z(q) == 1 {
                    sim.apply_x(q);
                }
            }
            Op::H(q) => sim.apply_h(q),
            Op::Cnot(c, t) => sim.apply_cnot(c, t),
            Op::Cz(a, b) => {
                sim.apply_h(b);
                sim.apply_cnot(a, b);
                sim.apply_h(b);
            }
            Op::Measure(q, _, idx) => out[idx] = sim.measure_z(q),
            Op::Noise(_) => {}
        }
    }
}

#[test]
fn xzzx_extraction_circuit_measures_commuting_stabilizers() {
    for d in [3usize, 5, 7] {
        let code = XZZXSurfaceCode::new(d);
        let program = code.round_program();
        let num_stabs = code.stabilizers.len();
        let n = code.data_qubits.len() + num_stabs;

        for seed in [1u64, 2, 3, 4, 5] {
            let mut sim = StabilizerSimulator::with_seed(n, seed);
            let mut rounds: Vec<Vec<u8>> = Vec::new();
            for _ in 0..4 {
                let mut out = vec![0u8; num_stabs];
                run_program(&mut sim, &program, &mut out);
                rounds.push(out);
            }
            assert_eq!(rounds[1], rounds[2], "d={d} seed={seed}: round 2 != round 3");
            assert_eq!(rounds[2], rounds[3], "d={d} seed={seed}: round 3 != round 4");
        }
    }
}

#[test]
fn logical_classification_matches_the_rotated_code() {
    for d in [3usize, 5] {
        let code = RotatedSurfaceCode::new(d);
        let n = d * d;
        let mut ops: Vec<(u128, u128)> = Vec::new();
        for st in &code.x_stabilizers {
            let mut px = 0u128;
            for &(dx, dy) in &[(-1i32, -1i32), (-1, 1), (1, -1), (1, 1)] {
                if let Some(q) = code.neighbor_at(st, dx, dy) {
                    px |= 1u128 << q;
                }
            }
            ops.push((px, 0));
        }
        for st in &code.z_stabilizers {
            let mut pz = 0u128;
            for &(dx, dy) in &[(-1i32, -1i32), (-1, 1), (1, -1), (1, 1)] {
                if let Some(q) = code.neighbor_at(st, dx, dy) {
                    pz |= 1u128 << q;
                }
            }
            ops.push((0, pz));
        }
        let check = LogicalCheck::new(&ops, n);

        let mut column = 0u128;
        let mut row = 0u128;
        for i in 0..d {
            column |= 1u128 << (i * d);
            row |= 1u128 << i;
        }

        let mut rng: u64 = 0x2545F4914F6CDD1D;
        let mut checked = 0usize;
        for _ in 0..4000 {
            let mut next = || {
                rng ^= rng << 13;
                rng ^= rng >> 7;
                rng ^= rng << 17;
                rng
            };
            let mask = if n >= 128 { u128::MAX } else { (1u128 << n) - 1 };
            let rx = ((next() as u128) | ((next() as u128) << 64)) & mask;
            let rz = ((next() as u128) | ((next() as u128) << 64)) & mask;

            let want = ((rx & column).count_ones() % 2) as u8 | (((rz & row).count_ones() % 2) as u8) << 1;
            let got = check.classify(rx, rz);
            assert_eq!(got, want, "d={d}: classify disagreed on rx={rx:b} rz={rz:b}");
            checked += 1;
        }
        assert!(checked > 1000);
    }
}

#[test]
fn derived_logicals_are_valid_at_every_distance() {
    for d in [3usize, 5, 7, 9, 11] {
        let code = XZZXSurfaceCode::new(d);
        let n = d * d;
        let (lx, lz) = code.logical.representatives();

        let index_of = |x: i32, y: i32| -> Option<usize> {
            if x >= 1 && x < (2 * d) as i32 && y >= 1 && y < (2 * d) as i32 {
                Some(((x - 1) as usize / 2) + d * ((y - 1) as usize / 2))
            } else {
                None
            }
        };
        let mut ops: Vec<(u128, u128)> = Vec::new();
        for &(sx, sy) in &code.stabilizers {
            let (mut px, mut pz) = (0u128, 0u128);
            for &(dx, dy, is_x) in &[(-1i32, -1i32, true), (1, 1, true), (1, -1, false), (-1, 1, false)] {
                if let Some(q) = index_of(sx as i32 + dx, sy as i32 + dy) {
                    if is_x {
                        px |= 1u128 << q;
                    } else {
                        pz |= 1u128 << q;
                    }
                }
            }
            ops.push((px, pz));
        }

        let commutes =
            |a: (u128, u128), b: (u128, u128)| ((a.0 & b.1).count_ones() + (a.1 & b.0).count_ones()) % 2 == 0;
        assert!(lx != (0, 0) && lz != (0, 0), "d={d}: no logical pair found (n={n})");
        for (i, &st) in ops.iter().enumerate() {
            assert!(commutes(lx, st), "d={d}: logical_x anticommutes with stabilizer {i}");
            assert!(commutes(lz, st), "d={d}: logical_z anticommutes with stabilizer {i}");
        }
        assert!(!commutes(lx, lz), "d={d}: the two representatives commute");
        assert!(code.logical.is_logical(lx.0, lx.1), "d={d}: logical_x is a stabilizer product");
        assert!(code.logical.is_logical(lz.0, lz.1), "d={d}: logical_z is a stabilizer product");
    }
}

#[test]
fn xzzx_frame_propagation_agrees_with_the_tableau() {
    for d in [3usize, 5] {
        let code = XZZXSurfaceCode::new(d);
        let layout = code.circuit_layout();
        let program = &layout.program;
        let ns = code.stabilizers.len();
        let nq = code.data_qubits.len() + ns;
        let rounds_total: usize = 3;
        let fault_round = 2usize;

        let run_tableau = |inject: Option<(usize, u8)>| -> Vec<Vec<u8>> {
            let mut sim = StabilizerSimulator::with_seed(nq, 20250818);
            let mut all = Vec::new();
            for r in 0..rounds_total {
                let mut out = vec![0u8; ns];
                for (i, &op) in program.iter().enumerate() {
                    if r == fault_round {
                        if let Some((at, pauli)) = inject {
                            if at == i {
                                if let Op::Noise(q) = op {
                                    if pauli & 1 != 0 {
                                        sim.apply_x(q);
                                    }
                                    if pauli & 2 != 0 {
                                        sim.apply_z(q);
                                    }
                                }
                            }
                        }
                    }
                    run_program(&mut sim, &[op], &mut out);
                }
                all.push(out);
            }
            all
        };

        let clean = run_tableau(None);
        let mut checked = 0usize;
        for (fault, _) in layout.fault_locations() {
            let (at, pauli) = match fault {
                Fault::Gate(at, pauli) => (at, pauli),
                Fault::Readout(_) => continue,
            };
            let dirty = run_tableau(Some((at, pauli)));
            let tableau: Vec<bool> = (0..ns).map(|s| (dirty[fault_round][s] ^ clean[fault_round][s]) == 1).collect();
            let effect = layout.propagate(fault, fault_round, rounds_total);
            let frame: Vec<bool> = (0..ns).map(|s| effect.flips_z_stab[fault_round * ns + s]).collect();
            assert_eq!(tableau, frame, "d={d}: frame and tableau disagree for {:?} at op {at}", pauli);
            checked += 1;
        }
        assert!(checked > 100, "d={d}: only {checked} faults compared");
        println!("d={d}: frame matches tableau on {checked} faults");
    }
}

#[test]
fn xzzx_detector_model_is_graphlike() {
    for d in [3usize, 5, 7] {
        let code = XZZXSurfaceCode::new(d);
        let layout = code.circuit_layout();
        let (buckets, edges) = stats_combined(&layout, d);
        assert!(edges > 0, "d={d}: model has no edges");
        assert_eq!(buckets[3], 0, "d={d}: {} faults fire 3 detectors", buckets[3]);
        assert_eq!(buckets[4], 0, "d={d}: {} faults fire 4+ detectors", buckets[4]);
    }
}

#[test]
fn xzzx_survives_every_single_circuit_fault() {
    for d in [3usize, 5, 7] {
        let code = XZZXSurfaceCode::new(d);
        let layout = code.circuit_layout();
        let model = build_combined(&layout, d);
        for decoder in [0usize, 2] {
            let (tested, failures) =
                single_fault_failures_combined(&layout, &model, d, decoder, &|rx, rz| code.logical.is_logical(rx, rz));
            assert!(tested > 0, "d={d}: nothing tested");
            println!("XZZX d={d} decoder={decoder}: {failures}/{tested}");
            assert_eq!(failures, 0, "d={d} decoder={decoder}: {failures}/{tested} faults uncorrected");
        }
    }
}

#[test]
fn test_xzzx_commutation() {
    let code = XZZXSurfaceCode::new(3);
    let num_stabs = code.stabilizers.len();
    let num_data = code.data_qubits.len();

    let mut x_ops = vec![vec![false; num_data]; num_stabs];
    let mut z_ops = vec![vec![false; num_data]; num_stabs];

    for s_idx in 0..num_stabs {
        let (sx, sy) = code.stabilizers[s_idx];
        if let Some(q) = code.get_neighbor_idx(sx as i32 - 1, sy as i32 - 1) {
            x_ops[s_idx][q] = true;
        }
        if let Some(q) = code.get_neighbor_idx(sx as i32 + 1, sy as i32 + 1) {
            x_ops[s_idx][q] = true;
        }
        if let Some(q) = code.get_neighbor_idx(sx as i32 + 1, sy as i32 - 1) {
            z_ops[s_idx][q] = true;
        }
        if let Some(q) = code.get_neighbor_idx(sx as i32 - 1, sy as i32 + 1) {
            z_ops[s_idx][q] = true;
        }
    }

    for i in 0..num_stabs {
        for j in 0..num_stabs {
            let mut inner_product = false;
            for q in 0..num_data {
                if (x_ops[i][q] && z_ops[j][q]) ^ (z_ops[i][q] && x_ops[j][q]) {
                    inner_product ^= true;
                }
            }
            assert!(!inner_product, "Stabilizers {} and {} do not commute!", i, j);
        }
    }
}

#[test]
fn products_of_plaquettes_are_never_logical() {
    let code = XZZXSurfaceCode::new(5);
    let (lx, lz) = code.logical.representatives();
    assert!(!code.logical.is_logical(0, 0));
    assert_eq!(code.logical.classify(0, 0), 0);
    let d = 5usize;
    let index_of = |x: i32, y: i32| -> Option<usize> {
        if x >= 1 && x < (2 * d) as i32 && y >= 1 && y < (2 * d) as i32 {
            Some(((x - 1) as usize / 2) + d * ((y - 1) as usize / 2))
        } else {
            None
        }
    };
    let mut ops: Vec<(u128, u128)> = Vec::new();
    for &(sx, sy) in &code.stabilizers {
        let (mut px, mut pz) = (0u128, 0u128);
        for &(dx, dy, is_x) in &[(-1i32, -1i32, true), (1, 1, true), (1, -1, false), (-1, 1, false)] {
            if let Some(q) = index_of(sx as i32 + dx, sy as i32 + dy) {
                if is_x {
                    px |= 1u128 << q;
                } else {
                    pz |= 1u128 << q;
                }
            }
        }
        ops.push((px, pz));
    }
    let mut acc = (0u128, 0u128);
    for (i, &(x, z)) in ops.iter().enumerate() {
        if i % 3 != 1 {
            acc = (acc.0 ^ x, acc.1 ^ z);
        }
        assert!(!code.logical.is_logical(acc.0, acc.1), "a product of plaquettes reads as logical");
        assert!(code.logical.is_logical(acc.0 ^ lx.0, acc.1 ^ lx.1));
        assert_eq!(code.logical.classify(acc.0 ^ lz.0, acc.1 ^ lz.1), code.logical.classify(lz.0, lz.1));
    }
}
