use stabilizer_qec::circuit_model::{build, build_combined, Fault};
use stabilizer_qec::circuit_shot::{rotated_circuit_class, xzzx_circuit_class};
use stabilizer_qec::surface_code::{RotatedSurfaceCode, XZZXSurfaceCode};

#[test]
fn noiseless_rotated_circuit_never_fails() {
    let num_rounds = 2;
    let code = RotatedSurfaceCode::new(3);
    let model = build(&code.circuit_layout(), num_rounds);
    let ns = code.x_stabilizers.len() + code.z_stabilizers.len();
    let rounds_total = num_rounds + 2;
    let paulis = vec![0u8; rounds_total * model.noise_slots];
    let readout = vec![false; rounds_total * ns];
    let bursts: Vec<Vec<(usize, u8)>> = vec![Vec::new(); rounds_total];
    let erased = vec![false; model.erasure_sites];
    for decoder_type in [0usize, 1, 2] {
        for plus in [false, true] {
            for seed in [1u64, 7, 12345] {
                let c = rotated_circuit_class(
                    &code, &model, num_rounds, plus, seed, &paulis, &erased, &readout, &bursts, decoder_type,
                );
                assert_eq!(c, 0, "decoder {decoder_type}, plus {plus}, seed {seed}");
            }
        }
    }
}

#[test]
fn rotated_circuit_corrects_one_data_error() {
    let num_rounds = 2;
    let code = RotatedSurfaceCode::new(3);
    let model = build(&code.circuit_layout(), num_rounds);
    let ns = code.x_stabilizers.len() + code.z_stabilizers.len();
    let rounds_total = num_rounds + 2;
    let paulis = vec![0u8; rounds_total * model.noise_slots];
    let readout = vec![false; rounds_total * ns];
    let mut bursts: Vec<Vec<(usize, u8)>> = vec![Vec::new(); rounds_total];
    // An X on the central data qubit after the first noisy round.
    bursts[1] = vec![(4, 1)];
    let erased = vec![false; model.erasure_sites];
    // Union-Find and matching correct any single data error at distance 3.
    for decoder_type in [0usize, 2] {
        let c = rotated_circuit_class(&code, &model, num_rounds, false, 3, &paulis, &erased, &readout, &bursts, decoder_type);
        assert_eq!(c, 0, "decoder {decoder_type}");
    }
}

#[test]
fn noiseless_xzzx_circuit_never_fails() {
    let num_rounds = 2;
    let code = XZZXSurfaceCode::new(3);
    let model = build_combined(&code.circuit_layout(), num_rounds);
    let ns = code.stabilizers.len();
    let rounds_total = num_rounds + 2;
    let paulis = vec![0u8; rounds_total * model.noise_slots];
    let readout = vec![false; rounds_total * ns];
    let bursts: Vec<Vec<(usize, u8)>> = vec![Vec::new(); rounds_total];
    let erased = vec![false; model.erasure_sites];
    for decoder_type in [0usize, 1, 2] {
        let c = xzzx_circuit_class(&code, &model, num_rounds, &paulis, &erased, &readout, &bursts, decoder_type);
        assert_eq!(c, 0, "decoder {decoder_type}");
    }
}

#[test]
fn xzzx_circuit_corrects_one_data_error() {
    let num_rounds = 2;
    let code = XZZXSurfaceCode::new(3);
    let model = build_combined(&code.circuit_layout(), num_rounds);
    let ns = code.stabilizers.len();
    let rounds_total = num_rounds + 2;
    let paulis = vec![0u8; rounds_total * model.noise_slots];
    let readout = vec![false; rounds_total * ns];
    let mut bursts: Vec<Vec<(usize, u8)>> = vec![Vec::new(); rounds_total];
    bursts[1] = vec![(4, 2)];
    let erased = vec![false; model.erasure_sites];
    for decoder_type in [0usize, 2] {
        let c = xzzx_circuit_class(&code, &model, num_rounds, &paulis, &erased, &readout, &bursts, decoder_type);
        assert_eq!(c, 0, "decoder {decoder_type}");
    }
}

/// The library-level form of the frame-and-tableau agreement: noiseless shots
/// of the rotated circuit never fail whatever the tableau's random outcomes,
/// and under unbiased noise logical X and logical Z failures are comparable.
#[test]
fn rotated_circuit_frame_tracks_the_tableau() {
    let d = 5usize;
    let num_rounds = d;
    let code = RotatedSurfaceCode::new(d);
    let model = build(&code.circuit_layout(), num_rounds);
    let ns = code.x_stabilizers.len() + code.z_stabilizers.len();
    let rounds_total = num_rounds + 2;
    let slots = model.noise_slots;
    let bursts: Vec<Vec<(usize, u8)>> = vec![Vec::new(); rounds_total];
    let erased = vec![false; model.erasure_sites];
    let mut rng: u64 = 0x9E37_79B9_7F4A_7C15;
    let mut next = || {
        rng ^= rng << 13;
        rng ^= rng >> 7;
        rng ^= rng << 17;
        rng
    };

    let quiet_paulis = vec![0u8; rounds_total * slots];
    let quiet_readout = vec![false; rounds_total * ns];
    for _ in 0..100 {
        let seed = next();
        let c = rotated_circuit_class(&code, &model, num_rounds, false, seed, &quiet_paulis, &erased, &quiet_readout, &bursts, 0);
        assert_eq!(c, 0, "a noiseless circuit left something in the frame");
    }

    let p = 0.01f64;
    let (mut only_x, mut only_z, mut both, mut n) = (0usize, 0usize, 0usize, 0usize);
    for _ in 0..1500 {
        let mut paulis = vec![0u8; rounds_total * slots];
        let mut readout = vec![false; rounds_total * ns];
        for r in 1..rounds_total - 1 {
            for s in 0..slots {
                if (next() >> 11) as f64 / 9007199254740992.0 < p {
                    paulis[r * slots + s] = 1 + (next() % 3) as u8;
                }
            }
            for s in 0..ns {
                if (next() >> 11) as f64 / 9007199254740992.0 < p {
                    readout[r * ns + s] = true;
                }
            }
        }
        let seed = next();
        let c = rotated_circuit_class(&code, &model, num_rounds, false, seed, &paulis, &erased, &readout, &bursts, 0);
        match c {
            0 => {},
            1 => only_x += 1,
            2 => only_z += 1,
            _ => both += 1,
        }
        if c != 0 {
            n += 1;
        }
    }
    assert!(n > 40, "too few failures to judge: {n}");
    let x = only_x + both;
    let z = only_z + both;
    let ratio = x as f64 / z.max(1) as f64;
    assert!(ratio > 0.5 && ratio < 2.0, "logical X and Z should be comparable, got X={x} Z={z} (ratio {ratio:.2})");
}

#[test]
fn y_fault_is_x_and_z_composed() {
    let code = RotatedSurfaceCode::new(3);
    let layout = code.circuit_layout();
    let rounds_total = 4;
    for (fault, _) in layout.fault_locations() {
        if let Fault::Gate(at, 3) = fault {
            let y = layout.propagate(Fault::Gate(at, 3), 1, rounds_total);
            let x = layout.propagate(Fault::Gate(at, 1), 1, rounds_total);
            let z = layout.propagate(Fault::Gate(at, 2), 1, rounds_total);
            assert_eq!(y.residual_x, x.residual_x ^ z.residual_x);
            assert_eq!(y.residual_z, x.residual_z ^ z.residual_z);
            for i in 0..y.flips_x_stab.len() {
                assert_eq!(y.flips_x_stab[i], x.flips_x_stab[i] != z.flips_x_stab[i]);
            }
            for i in 0..y.flips_z_stab.len() {
                assert_eq!(y.flips_z_stab[i], x.flips_z_stab[i] != z.flips_z_stab[i]);
            }
        }
    }
}

#[test]
fn classification_is_linear() {
    let code = XZZXSurfaceCode::new(3);
    let ((lxx, lxz), (lzx, lzz)) = code.logical.representatives();
    let samples = [(0u128, 0u128), (lxx, lxz), (lzx, lzz), (0b101, 0b10), (0b1_0000_0011, 0b1100)];
    for &(x1, z1) in &samples {
        for &(x2, z2) in &samples {
            let c1 = code.logical.classify(x1, z1);
            let c2 = code.logical.classify(x2, z2);
            assert_eq!(code.logical.classify(x1 ^ x2, z1 ^ z2), c1 ^ c2);
        }
    }
}

#[test]
fn representatives_carry_their_classes() {
    for d in [3usize, 5, 7, 9, 11] {
        let code = XZZXSurfaceCode::new(d);
        let ((lxx, lxz), (lzx, lzz)) = code.logical.representatives();
        assert_eq!(code.logical.classify(lxx, lxz), 1, "d={d}");
        assert_eq!(code.logical.classify(lzx, lzz), 2, "d={d}");
    }
}
