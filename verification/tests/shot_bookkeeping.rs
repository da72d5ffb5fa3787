use stabilizer_qec::session::WasmSession;
use stabilizer_qec::shot::{detection_layers, erased_from_sites, rotated_supports, support_class};
use stabilizer_qec::simulator::StabilizerSimulator;

#[test]
fn detection_layers_compare_consecutive_rounds() {
    // Two stabilizers over three rounds; readings are round-major.
    let flips = vec![false, true, true, true, true, false];
    let d = detection_layers(&flips, 2, 2, 5);
    assert_eq!(d, vec![true, false, false, true, false]);
}

#[test]
fn erased_sites_free_their_edges() {
    let site_edges = vec![vec![0usize, 2], vec![1], vec![3, 9]];
    let erased = vec![true, false, true];
    let out = erased_from_sites(&site_edges, &erased, 5);
    assert_eq!(out, vec![true, false, true, true, false]);
}

#[test]
fn rotated_supports_are_the_left_column_and_top_row() {
    let (column, row) = rotated_supports(3);
    assert_eq!(column, 0b001_001_001);
    assert_eq!(row, 0b111);
    assert_eq!(support_class(0b000_000_001, 0, column, row), 1);
    assert_eq!(support_class(0, 0b000_000_001, column, row), 2);
    assert_eq!(support_class(0b001_000_001, 0b11, column, row), 0);
    assert_eq!(support_class(0b111, 0b1, column, row), 3);
}

#[test]
fn decode_class_reports_which_logical_survived() {
    let mut s = WasmSession::new(3, 0);
    for x in 0..3 {
        s.toggle_error(x, 0, 0);
    }
    assert_eq!(s.decode_class(2), 1);
    let mut s = WasmSession::new(3, 0);
    for y in 0..3 {
        s.toggle_error(3 * y, 1, 0);
    }
    assert_eq!(s.decode_class(2), 2);
    let mut s = WasmSession::new(3, 0);
    for x in 0..3 {
        s.toggle_error(x, 0, 0);
        s.toggle_error(3 * x, 1, 0);
    }
    assert_eq!(s.decode_class(0), 3);
}

#[test]
fn stabilizer_rows_of_a_bell_pair() {
    let mut sim = StabilizerSimulator::new(2);
    sim.apply_h(0);
    sim.apply_cnot(0, 1);
    let mut rows: Vec<(u8, Vec<u8>)> = (0..2).map(|i| sim.stabilizer_row(i)).collect();
    rows.sort();
    // XX and ZZ, both with sign +.
    assert_eq!(rows, vec![(0, vec![1, 1]), (0, vec![2, 2])]);
}
