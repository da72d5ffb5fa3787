use stabilizer_qec::session::WasmSession;

fn fired(s: &WasmSession) -> usize {
    s.syndrome.iter().filter(|&&b| b == 1).count()
}

#[test]
fn a_clean_session_decodes_to_nothing() {
    for code_type in [0usize, 1] {
        for decoder in [0usize, 1, 2] {
            let mut s = WasmSession::new(3, code_type);
            assert_eq!(s.decode(decoder), 0);
            assert_eq!(fired(&s), 0);
            assert!(s.correction_x.iter().all(|&c| c == 0));
            assert!(s.correction_z.iter().all(|&c| c == 0));
        }
    }
}

#[test]
fn a_single_data_error_is_corrected_by_union_find_and_matching() {
    for code_type in [0usize, 1] {
        for decoder in [0usize, 2] {
            for q in 0..9 {
                for error_type in [0usize, 1] {
                    let mut s = WasmSession::new(3, code_type);
                    s.toggle_error(q, error_type, 0);
                    s.compute_syndrome();
                    assert!(fired(&s) > 0, "code {code_type}: error on {q} not seen");
                    let r = s.decode(decoder);
                    assert_eq!(r, 0, "code {code_type} decoder {decoder}: error {error_type} on {q} left a logical");
                    let total: usize = s.correction_x.iter().chain(s.correction_z.iter()).map(|&c| c as usize).sum();
                    assert!(total >= 1);
                }
            }
        }
    }
}

#[test]
fn a_full_row_of_x_errors_is_a_logical_error() {
    // X errors along the top row commute with every plaquette and cross the
    // left column once.
    let mut s = WasmSession::new(3, 0);
    for x in 0..3 {
        s.toggle_error(x, 0, 0);
    }
    s.compute_syndrome();
    assert_eq!(fired(&s), 0);
    assert_eq!(s.decode(2), 1);
    assert!(s.correction_x.iter().all(|&c| c == 0));
}

#[test]
fn a_full_column_of_z_errors_is_a_logical_error() {
    // Z errors down the left column commute with every plaquette and cross
    // the top row once.
    let mut s = WasmSession::new(3, 0);
    for y in 0..3 {
        s.toggle_error(3 * y, 1, 0);
    }
    s.compute_syndrome();
    assert_eq!(fired(&s), 0);
    assert_eq!(s.decode(0), 1);
}

#[test]
fn a_measurement_error_over_two_rounds_is_absorbed() {
    let mut s = WasmSession::new(3, 0);
    s.set_num_rounds(2);
    s.toggle_measurement_error(0, 0);
    s.compute_syndrome();
    assert_eq!(s.syndrome[0], 1);
    assert_eq!(s.syndrome[s.stabilizer_count()], 0);
    assert_eq!(s.decode(2), 0);
}

#[test]
fn errors_persist_into_later_rounds() {
    let mut s = WasmSession::new(3, 0);
    s.set_num_rounds(3);
    s.toggle_error(4, 0, 0);
    s.compute_syndrome();
    let ns = s.stabilizer_count();
    for t in 1..3 {
        for i in 0..ns {
            assert_eq!(s.syndrome[i + t * ns], s.syndrome[i]);
        }
    }
    assert_eq!(s.decode(2), 0);
}

#[test]
fn toggling_twice_restores_the_session() {
    let mut s = WasmSession::new(5, 1);
    s.set_num_rounds(2);
    s.toggle_error(7, 0, 1);
    s.toggle_error(7, 0, 1);
    s.toggle_erasure(3, 0);
    s.toggle_erasure(3, 0);
    s.toggle_measurement_error(2, 1);
    s.toggle_measurement_error(2, 1);
    assert!(s.physical_x.iter().all(|&b| !b));
    assert!(s.physical_erased.iter().all(|&b| !b));
    assert!(s.measurement_errors.iter().all(|&b| !b));
    // Out-of-range positions are ignored.
    s.toggle_error(1000, 0, 0);
    assert!(s.physical_x.iter().all(|&b| !b));
}

#[test]
fn session_sizes_follow_the_code() {
    let s = WasmSession::new(3, 0);
    assert_eq!(s.data_qubit_count(), 9);
    assert_eq!(s.stabilizer_count(), 8);
    let mut kinds = [0usize; 3];
    for i in 0..8 {
        kinds[s.stabilizer_type(i)] += 1;
    }
    assert_eq!(kinds, [4, 4, 0]);
    let x = WasmSession::new(3, 1);
    assert_eq!(x.stabilizer_count(), 8);
    assert_eq!(x.stabilizer_type(0), 2);
    assert_eq!((s.data_qubit_x(4), s.data_qubit_y(4)), (3, 3));
    let mut s = s;
    s.set_num_rounds(4);
    assert_eq!(s.physical_x.len(), 36);
    assert_eq!(s.syndrome.len(), 32);
    s.toggle_error(0, 0, 3);
    s.clear_errors();
    assert!(s.physical_x.iter().all(|&b| !b));
}

#[test]
fn an_erased_qubit_is_still_corrected() {
    let mut s = WasmSession::new(3, 0);
    s.toggle_erasure(4, 0);
    s.toggle_error(4, 0, 0);
    assert_eq!(s.decode(2), 0);
}
