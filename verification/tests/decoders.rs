use stabilizer_qec::decoder::{decode_greedy, decode_mwpm, decode_union_find, Edge, SyndromeGraph};
use stabilizer_qec::surface_code::RotatedSurfaceCode;

#[test]
fn union_find_is_deterministic() {
    let d = 9usize;
    let code = RotatedSurfaceCode::new(d);
    let graph = code.build_syndrome_graph(d, true);
    let none = vec![false; graph.edges.len()];
    let mut rng: u64 = 0xDEADBEEF12345678;
    let mut next = || {
        rng ^= rng << 13;
        rng ^= rng >> 7;
        rng ^= rng << 17;
        rng
    };
    for trial in 0..50 {
        let mut defects = vec![false; graph.num_nodes];
        for v in defects.iter_mut() {
            if ((next() >> 11) as f64 / 9007199254740992.0) < 0.1 {
                *v = true;
            }
        }
        let a = decode_union_find(&graph, &defects, &none);
        let b = decode_union_find(&graph, &defects, &none);
        assert_eq!(a.len(), b.len(), "trial {trial}: union-find gave {} then {} edges", a.len(), b.len());
    }
}

#[test]
fn matching_decoder_is_never_heavier_than_the_others() {
    let mut rng: u64 = 0x853C49E6748FEA9B;
    let mut next = || {
        rng ^= rng << 13;
        rng ^= rng >> 7;
        rng ^= rng << 17;
        rng
    };

    for d in [3usize, 5, 7, 9] {
        let code = RotatedSurfaceCode::new(d);
        let graph = code.build_syndrome_graph(d, true);
        let none = vec![false; graph.edges.len()];
        let weigh = |edges: &[usize]| edges.len();

        for rate in [0.02f64, 0.05, 0.10] {
            for _ in 0..40 {
                let mut defects = vec![false; graph.num_nodes];
                let mut count = 0;
                for v in defects.iter_mut() {
                    if ((next() >> 11) as f64 / 9007199254740992.0) < rate {
                        *v = true;
                        count += 1;
                    }
                }
                if count == 0 {
                    continue;
                }
                let mw = weigh(&decode_mwpm(&graph, &defects, &none));
                let gr = weigh(&decode_greedy(&graph, &defects, &none));
                let uf = weigh(&decode_union_find(&graph, &defects, &none));
                assert!(
                    mw <= gr && mw <= uf,
                    "d={d} rate={rate} defects={count}: mwpm={mw} greedy={gr} union-find={uf}"
                );
            }
        }
    }
}

#[test]
fn test_greedy_decoder() {
    let code = RotatedSurfaceCode::new(3);
    let graph_z = code.build_syndrome_graph(1, true);

    // A single X error on data qubit 0 lights the Z plaquette at index 1.
    let mut defects = vec![false; graph_z.num_nodes];
    defects[1] = true;

    let erased = vec![false; graph_z.edges.len()];
    let correction = decode_greedy(&graph_z, &defects, &erased);
    assert_eq!(correction.len(), 1);
    let corrected_qubit = graph_z.edge_to_qubit[correction[0]].unwrap();
    assert_eq!(corrected_qubit, 0);
}

#[test]
fn test_mwpm_decoder() {
    let code = RotatedSurfaceCode::new(3);
    let graph_z = code.build_syndrome_graph(1, true);

    let mut defects = vec![false; graph_z.num_nodes];
    defects[1] = true;

    let erased = vec![false; graph_z.edges.len()];
    let correction = decode_mwpm(&graph_z, &defects, &erased);
    assert_eq!(correction.len(), 1);
    let corrected_qubit = graph_z.edge_to_qubit[correction[0]].unwrap();
    assert_eq!(corrected_qubit, 0);
}

#[test]
fn test_dijkstra_erasure() {
    let code = RotatedSurfaceCode::new(3);
    let graph_z = code.build_syndrome_graph(1, true);
    let mut erased_edges = vec![false; graph_z.edges.len()];
    erased_edges[0] = true;
    let mut defects = vec![false; graph_z.num_nodes];
    defects[1] = true;
    let correction = decode_mwpm(&graph_z, &defects, &erased_edges);
    assert!(!correction.is_empty());
}

/// Which nodes an edge list flips, counting the boundary as node `num_nodes`.
fn flipped_nodes(graph: &SyndromeGraph, corr: &[usize]) -> Vec<bool> {
    let mut f = vec![false; graph.num_nodes + 1];
    for &e in corr {
        let edge = &graph.edges[e];
        if edge.u != edge.v {
            f[edge.u] ^= true;
            f[edge.v] ^= true;
        }
    }
    f
}

#[test]
fn decoders_return_edges_of_the_graph_and_nothing_for_no_defects() {
    for d in [3usize, 5] {
        let code = RotatedSurfaceCode::new(d);
        let graph = code.build_syndrome_graph(2, false);
        let none = vec![false; graph.edges.len()];
        let defects = vec![false; graph.num_nodes];
        assert!(decode_greedy(&graph, &defects, &none).is_empty());
        assert!(decode_union_find(&graph, &defects, &none).is_empty());
        assert!(decode_mwpm(&graph, &defects, &none).is_empty());

        let mut defects = vec![false; graph.num_nodes];
        defects[0] = true;
        defects[graph.num_nodes - 1] = true;
        for corr in [
            decode_greedy(&graph, &defects, &none),
            decode_union_find(&graph, &defects, &none),
            decode_mwpm(&graph, &defects, &none),
        ] {
            assert!(corr.iter().all(|&e| e < graph.edges.len()));
            let f = flipped_nodes(&graph, &corr);
            for node in 0..graph.num_nodes {
                assert_eq!(f[node], defects[node], "d={d}: node {node} left unexplained");
            }
        }
    }
}

#[test]
fn greedy_flips_only_defects() {
    let code = RotatedSurfaceCode::new(5);
    let graph = code.build_syndrome_graph(3, true);
    let none = vec![false; graph.edges.len()];
    let mut rng: u64 = 0x1234_5678_9ABC_DEF1;
    for _ in 0..30 {
        let mut defects = vec![false; graph.num_nodes];
        for v in defects.iter_mut() {
            rng ^= rng << 13;
            rng ^= rng >> 7;
            rng ^= rng << 17;
            *v = rng % 7 == 0;
        }
        let corr = decode_greedy(&graph, &defects, &none);
        let f = flipped_nodes(&graph, &corr);
        for node in 0..graph.num_nodes {
            assert!(!f[node] || defects[node]);
        }
    }
}

#[test]
fn tiny_hand_built_graph() {
    // Nodes 0 and 1, boundary 2; one edge between them, one to the boundary each.
    let graph = SyndromeGraph {
        num_nodes: 2,
        edges: vec![Edge { u: 0, v: 1, id: 0 }, Edge { u: 0, v: 2, id: 1 }, Edge { u: 1, v: 2, id: 2 }],
        edge_to_qubit: vec![Some(0), Some(1), Some(2)],
    };
    let defects = vec![true, true];
    let none = vec![false; 3];
    assert_eq!(decode_mwpm(&graph, &defects, &none), vec![0]);
    let g = decode_greedy(&graph, &defects, &none);
    let f = flipped_nodes(&graph, &g);
    assert!(f[0] && f[1]);
    let one = vec![true, false];
    let c = decode_mwpm(&graph, &one, &none);
    assert_eq!(c, vec![1]);
}

#[test]
fn greedy_explains_every_defect_joined_to_the_boundary() {
    // A chain 0 - 1 - 2 - 3 - boundary, and node 4 with no edge at all.
    let graph = SyndromeGraph {
        num_nodes: 5,
        edges: vec![
            Edge { u: 0, v: 1, id: 0 },
            Edge { u: 1, v: 2, id: 1 },
            Edge { u: 2, v: 3, id: 2 },
            Edge { u: 3, v: 5, id: 3 },
        ],
        edge_to_qubit: vec![Some(0), Some(1), Some(2), Some(3)],
    };
    let none = vec![false; 4];
    for mask in 0u32..32 {
        let defects: Vec<bool> = (0..5).map(|i| mask & (1 << i) != 0).collect();
        let corr = decode_greedy(&graph, &defects, &none);
        let f = flipped_nodes(&graph, &corr);
        for node in 0..4 {
            assert_eq!(f[node], defects[node], "mask {mask}: node {node}");
        }
        // The isolated node can never be explained.
        assert!(!f[4]);
    }
}
