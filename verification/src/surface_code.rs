use crate::bits::{bit, fits, single};
use crate::circuit_model::{lemma_rep_step, op_ok, rep, CircuitLayout, Op, StabKind};
use crate::logical_check::{logical_pair_found, pauli_fits};
pub use crate::logical_check::LogicalCheck;
use crate::decoder::{decode_greedy, decode_mwpm, decode_union_find, flipped, valid_correction, SyndromeGraph};
use crate::lattice::{
    build_combined, combined_flags, combined_spatial, layers_between, build_graph, coords_ok, data_points, data_seq, diagonal_neighbors, diagonal_neighbors_exec, edges_match,
    graph_fits, grid, grid_points, lattice_index, lattice_index_exec, lemma_coords_bounded, spatial_edges,
    temporal_edges, MAX_DISTANCE,
};
use vstd::prelude::*;

verus! {

/// The xorshift64 recurrence, one step.
pub open spec fn xorshift_step(s: u64) -> u64 {
    let a = s ^ (s << 13u64);
    let b = a ^ (a >> 7u64);
    b ^ (b << 17u64)
}

/// Seed used in place of zero, which is a fixed point of the recurrence.
pub open spec fn xorshift_seed(seed: u64) -> u64 {
    if seed == 0 {
        0xdeadbeef
    } else {
        seed
    }
}

/// A xorshift64 pseudo-random generator.
pub struct Xorshift {
    state: u64,
}

impl View for Xorshift {
    type V = u64;

    /// The generator's state.
    closed spec fn view(&self) -> u64 {
        self.state
    }
}

impl Xorshift {
    pub fn new(seed: u64) -> (g: Self)
        ensures
            g@ == xorshift_seed(seed),
            g@ != 0,
    {
        let mut s = seed;
        if s == 0 {
            s = 0xdeadbeef;
        }
        Xorshift { state: s }
    }

    pub fn next_u64(&mut self) -> (v: u64)
        ensures
            v == xorshift_step(old(self)@),
            final(self)@ == v,
    {
        let mut x = self.state;
        x ^= x << 13u64;
        x ^= x >> 7u64;
        x ^= x << 17u64;
        self.state = x;
        x
    }
}

/// The recurrence maps every non-zero state to a non-zero state, so a
/// generator started from a non-zero seed never collapses to zero.
pub proof fn lemma_xorshift_nonzero(s: u64)
    requires
        s != 0,
    ensures
        xorshift_step(s) != 0,
{
    let a = s ^ (s << 13u64);
    let b = a ^ (a >> 7u64);
    assert(s != 0 ==> s ^ (s << 13u64) != 0) by (bit_vector);
    assert(a != 0 ==> a ^ (a >> 7u64) != 0) by (bit_vector);
    assert(b != 0 ==> b ^ (b << 17u64) != 0) by (bit_vector);
}

/// Decode with the chosen decoder: 1 greedy, 2 minimum-weight matching,
/// anything else Union-Find.
pub(crate) fn decode_by_type(graph: &SyndromeGraph, defects: &[bool], decoder_type: usize, erased_edges: &[bool]) -> (c: Vec<
    usize,
>)
    requires
        graph.decodable(),
        defects@.len() >= graph.num_nodes,
    ensures
        valid_correction(graph.edges@, c@),
        decoder_type == 1 ==> forall|node: int|
            0 <= node < graph.num_nodes && #[trigger] flipped(graph.edges@, c@, node) ==> defects@[node],
        decoder_type == 1 ==> forall|node: int|
            0 <= node < graph.num_nodes && defects@[node] && crate::decoder::joined(
                graph.edges@,
                node,
                graph.num_nodes as int,
                graph.num_nodes as nat,
            ) ==> #[trigger] flipped(graph.edges@, c@, node),
        decoder_type == 2 ==> forall|node: int|
            0 <= node < graph.num_nodes && #[trigger] flipped(graph.edges@, c@, node) ==> defects@[node],
        decoder_type == 1 || decoder_type == 2 ==> (crate::decoder::defects_joined(*graph, defects@)
            ==> crate::decoder::explains_defects(*graph, defects@, c@)),
        crate::decoder::no_defects(defects@, graph.num_nodes as int) ==> c@.len() == 0,
{
    if decoder_type == 1 {
        decode_greedy(graph, defects, erased_edges)
    } else if decoder_type == 2 {
        decode_mwpm(graph, defects, erased_edges)
    } else {
        decode_union_find(graph, defects, erased_edges)
    }
}

/* ---------------------------------------------------------------------- */
/* The rotated surface code                                               */
/* ---------------------------------------------------------------------- */

/// `d - 1`, or zero for an empty patch.
pub open spec fn below(d: nat) -> nat {
    if d >= 1 {
        (d - 1) as nat
    } else {
        0
    }
}

/// Z plaquettes: even points with x in `2..2d` (no left/right boundary
/// checks), every row `0..=2d`, where `(x + y) / 2` is even.
pub open spec fn rotated_z_stabilizers(d: nat) -> Seq<(usize, usize)> {
    grid(1, below(d), 0, d + 1, 0)
}

/// X plaquettes: even points with y in `2..2d` (no top/bottom boundary
/// checks), every column `0..=2d`, where `(x + y) / 2` is odd.
pub open spec fn rotated_x_stabilizers(d: nat) -> Seq<(usize, usize)> {
    grid(0, d + 1, 1, below(d), 1)
}

/// A supported patch has a bounded number of plaquettes of each type.
pub proof fn lemma_stab_counts(d: nat)
    requires
        d <= MAX_DISTANCE,
    ensures
        rotated_x_stabilizers(d).len() <= (MAX_DISTANCE + 1) * (MAX_DISTANCE + 1),
        rotated_z_stabilizers(d).len() <= (MAX_DISTANCE + 1) * (MAX_DISTANCE + 1),
        rotated_x_stabilizers(d).len() + rotated_z_stabilizers(d).len() <= 2 * (MAX_DISTANCE + 1) * (MAX_DISTANCE
            + 1),
{
    crate::lattice::lemma_grid_len(0, d + 1, 1, below(d), 1);
    crate::lattice::lemma_grid_len(1, below(d), 0, d + 1, 0);
    assert((d + 1) * below(d) <= (MAX_DISTANCE + 1) * (MAX_DISTANCE + 1)) by (nonlinear_arith)
        requires
            d <= MAX_DISTANCE,
            below(d) <= d,
    ;
    assert(below(d) * (d + 1) <= (MAX_DISTANCE + 1) * (MAX_DISTANCE + 1)) by (nonlinear_arith)
        requires
            d <= MAX_DISTANCE,
            below(d) <= d,
    ;
}

/// Offset of the data qubit an X ancilla touches at each CNOT step
/// (column-major).
pub open spec fn x_order(step: nat) -> (int, int) {
    if step == 0 {
        (-1, -1)
    } else if step == 1 {
        (-1, 1)
    } else if step == 2 {
        (1, -1)
    } else {
        (1, 1)
    }
}

/// Offset of the data qubit a Z ancilla touches at each CNOT step
/// (row-major, the transpose of the X order).
pub open spec fn z_order(step: nat) -> (int, int) {
    if step == 0 {
        (-1, -1)
    } else if step == 1 {
        (1, -1)
    } else if step == 2 {
        (-1, 1)
    } else {
        (1, 1)
    }
}

fn x_order_exec(step: usize) -> (r: (i32, i32))
    requires
        step < 4,
    ensures
        (r.0 as int, r.1 as int) == x_order(step as nat),
{
    if step == 0 {
        (-1, -1)
    } else if step == 1 {
        (-1, 1)
    } else if step == 2 {
        (1, -1)
    } else {
        (1, 1)
    }
}

fn z_order_exec(step: usize) -> (r: (i32, i32))
    requires
        step < 4,
    ensures
        (r.0 as int, r.1 as int) == z_order(step as nat),
{
    if step == 0 {
        (-1, -1)
    } else if step == 1 {
        (1, -1)
    } else if step == 2 {
        (-1, 1)
    } else {
        (1, 1)
    }
}

pub struct RotatedSurfaceCode {
    pub d: usize,
    pub data_qubits: Vec<(usize, usize)>,
    pub x_stabilizers: Vec<(usize, usize)>,
    pub z_stabilizers: Vec<(usize, usize)>,
}

impl RotatedSurfaceCode {
    /// A patch of supported size whose points lie on its grid.
    pub open spec fn wf(&self) -> bool {
        &&& self.d <= MAX_DISTANCE
        &&& self.data_qubits@.len() == self.d * self.d
        &&& self.x_stabilizers@.len() <= (MAX_DISTANCE + 1) * (MAX_DISTANCE + 1)
        &&& self.z_stabilizers@.len() <= (MAX_DISTANCE + 1) * (MAX_DISTANCE + 1)
        &&& coords_ok(self.data_qubits@, self.d as nat)
        &&& coords_ok(self.x_stabilizers@, self.d as nat)
        &&& coords_ok(self.z_stabilizers@, self.d as nat)
    }

    /// A supported patch has a modest number of qubits.
    pub proof fn lemma_sizes(&self)
        requires
            self.wf(),
        ensures
            self.num_qubits_spec() <= 0x400_0000,
    {
        assert(self.d * self.d <= MAX_DISTANCE * MAX_DISTANCE) by (nonlinear_arith)
            requires
                self.d <= MAX_DISTANCE,
        ;
    }

    /// Qubit index of X ancilla `j`: ancillas follow the data qubits.
    pub open spec fn x_anc(&self, j: nat) -> usize {
        (self.data_qubits@.len() + j) as usize
    }

    /// Qubit index of Z ancilla `k`: after the X ancillas.
    pub open spec fn z_anc(&self, k: nat) -> usize {
        (self.data_qubits@.len() + self.x_stabilizers@.len() + k) as usize
    }

    pub open spec fn num_qubits_spec(&self) -> nat {
        self.data_qubits@.len() + self.x_stabilizers@.len() + self.z_stabilizers@.len()
    }

    /// The gates of CNOT step `step` for X ancilla `j`.
    pub open spec fn x_leg(&self, step: nat, j: nat) -> Seq<Op> {
        let s = self.x_stabilizers@[j as int];
        let off = x_order(step);
        match lattice_index(self.d as int, s.0 + off.0, s.1 + off.1) {
            Some(q) => seq![Op::Cnot(self.x_anc(j), q), Op::Noise(self.x_anc(j)), Op::Noise(q)],
            None => seq![],
        }
    }

    /// The gates of CNOT step `step` for Z ancilla `k`.
    pub open spec fn z_leg(&self, step: nat, k: nat) -> Seq<Op> {
        let s = self.z_stabilizers@[k as int];
        let off = z_order(step);
        match lattice_index(self.d as int, s.0 + off.0, s.1 + off.1) {
            Some(q) => seq![Op::Cnot(q, self.z_anc(k)), Op::Noise(q), Op::Noise(self.z_anc(k))],
            None => seq![],
        }
    }

    pub open spec fn cnot_layer(&self, step: nat) -> Seq<Op> {
        rep(self.x_stabilizers@.len(), |j: nat| self.x_leg(step, j)) + rep(
            self.z_stabilizers@.len(),
            |k: nat| self.z_leg(step, k),
        )
    }

    /// The syndrome-extraction round: prepare X ancillas in |+> and Z
    /// ancillas in |0>, four interleaved CNOT layers, rotate the X ancillas
    /// back, and measure the X ancillas then the Z ancillas.
    pub open spec fn program_spec(&self) -> Seq<Op> {
        let nx = self.x_stabilizers@.len();
        let nz = self.z_stabilizers@.len();
        rep(
            nx,
            |j: nat|
                seq![
                    Op::Reset(self.x_anc(j)),
                    Op::Noise(self.x_anc(j)),
                    Op::H(self.x_anc(j)),
                    Op::Noise(self.x_anc(j)),
                ],
        ) + rep(nz, |k: nat| seq![Op::Reset(self.z_anc(k)), Op::Noise(self.z_anc(k))]) + rep(
            4,
            |step: nat| self.cnot_layer(step),
        ) + rep(nx, |j: nat| seq![Op::H(self.x_anc(j)), Op::Noise(self.x_anc(j))]) + rep(
            nx,
            |j: nat| seq![Op::Measure(self.x_anc(j), StabKind::X, j as usize)],
        ) + rep(nz, |k: nat| seq![Op::Measure(self.z_anc(k), StabKind::Z, k as usize)])
    }

    pub fn new(d: usize) -> (code: Self)
        requires
            d <= MAX_DISTANCE,
        ensures
            code.d == d,
            code.data_qubits@ == data_seq(d as nat, d as nat),
            code.x_stabilizers@ == rotated_x_stabilizers(d as nat),
            code.z_stabilizers@ == rotated_z_stabilizers(d as nat),
            code.wf(),
    {
        let data_qubits = data_points(d);
        let below_d = if d >= 1 {
            d - 1
        } else {
            0
        };
        let z_stabilizers = grid_points(1, below_d, 0, d + 1, 0);
        let x_stabilizers = grid_points(0, d + 1, 1, below_d, 1);
        proof {
            assert(below_d * (d + 1) <= (MAX_DISTANCE + 1) * (MAX_DISTANCE + 1)) by (nonlinear_arith)
                requires
                    below_d <= MAX_DISTANCE,
                    d + 1 <= MAX_DISTANCE + 1,
            ;
            assert((d + 1) * below_d == below_d * (d + 1)) by (nonlinear_arith);
            assert forall|i: int| 0 <= i < z_stabilizers@.len() implies (#[trigger] z_stabilizers@[i]).0 <= 2 * d
                + 1 && z_stabilizers@[i].1 <= 2 * d + 1 by {}
            assert forall|i: int| 0 <= i < x_stabilizers@.len() implies (#[trigger] x_stabilizers@[i]).0 <= 2 * d
                + 1 && x_stabilizers@[i].1 <= 2 * d + 1 by {}
        }
        RotatedSurfaceCode { d, data_qubits, x_stabilizers, z_stabilizers }
    }

    /// The data qubit at a given diagonal offset from a stabilizer, if any.
    pub fn neighbor_at(&self, stab: &(usize, usize), dx: i32, dy: i32) -> (r: Option<usize>)
        requires
            self.d <= MAX_DISTANCE,
            stab.0 <= i32::MAX,
            stab.1 <= i32::MAX,
            i32::MIN <= stab.0 + dx <= i32::MAX,
            i32::MIN <= stab.1 + dy <= i32::MAX,
        ensures
            r == lattice_index(self.d as int, stab.0 + dx, stab.1 + dy),
            r matches Some(q) ==> q < self.d * self.d,
    {
        let (sx, sy) = *stab;
        let qx = sx as i32 + dx;
        let qy = sy as i32 + dy;
        lattice_index_exec(self.d, qx, qy)
    }

    /// The data qubits diagonally adjacent to a stabilizer.
    pub fn get_neighbors(&self, stab: &(usize, usize)) -> (r: Vec<usize>)
        requires
            self.d <= MAX_DISTANCE,
            stab.0 < i32::MAX,
            stab.1 < i32::MAX,
        ensures
            r@ == diagonal_neighbors(self.d as int, stab.0 as int, stab.1 as int),
            forall|i: int| 0 <= i < r@.len() ==> #[trigger] r@[i] < self.d * self.d,
    {
        diagonal_neighbors_exec(self.d, stab.0, stab.1)
    }

    /// The spacetime decoding graph of one stabilizer type (Z plaquettes
    /// when `is_z_type`, catching X errors): a data qubit touching two
    /// plaquettes is an edge between them in every round, one touching a
    /// single plaquette an edge to the boundary node `num_stabs * num_rounds`,
    /// and each plaquette is joined to itself in the next round by a
    /// measurement-error edge.
    pub fn build_syndrome_graph(&self, num_rounds: usize, is_z_type: bool) -> (g: SyndromeGraph)
        requires
            self.wf(),
            num_rounds >= 1,
            graph_fits(
                (if is_z_type {
                    self.z_stabilizers@.len()
                } else {
                    self.x_stabilizers@.len()
                }) as nat,
                self.data_qubits@.len() as nat,
                num_rounds as nat,
            ),
        ensures
            ({
                let stabs = if is_z_type {
                    self.z_stabilizers@
                } else {
                    self.x_stabilizers@
                };
                &&& g.num_nodes == stabs.len() * num_rounds
                &&& edges_match(
                    g.edges@,
                    g.edge_to_qubit@,
                    spatial_edges(stabs, self.data_qubits@, 0, g.num_nodes as nat, num_rounds as nat)
                        + temporal_edges(stabs.len() as nat, (num_rounds - 1) as nat),
                )
            }),
            g.well_formed(),
            g.num_nodes <= usize::MAX / 4,
            g.edges@.len() <= usize::MAX / 4,
            forall|k: int| 0 <= k < g.edges@.len() ==> (#[trigger] g.edges@[k]).u < g.num_nodes,
            forall|k: int|
                0 <= k < g.edge_to_qubit@.len() ==> (#[trigger] g.edge_to_qubit@[k] matches Some(q) ==> q
                    < self.data_qubits@.len()),
    {
        let stabilizers = if is_z_type {
            &self.z_stabilizers
        } else {
            &self.x_stabilizers
        };
        proof {
            lemma_coords_bounded(self.data_qubits@, self.d as nat);
            lemma_coords_bounded(self.x_stabilizers@, self.d as nat);
            lemma_coords_bounded(self.z_stabilizers@, self.d as nat);
        }
        build_graph(stabilizers, &self.data_qubits, 0, num_rounds)
    }

    /// The syndrome-extraction round, as a list of instructions.
    ///
    /// This is the single definition of the circuit: the simulation executes
    /// it and the detector model propagates faults through it. X and Z
    /// ancillas walk their plaquettes in transposed orders and are scheduled
    /// by direction, so a boundary plaquette's gates land in the time slots its
    /// geometry calls for.
    pub fn round_program(&self) -> (ops: Vec<Op>)
        requires
            self.wf(),
        ensures
            ops@ == self.program_spec(),
            forall|i: int|
                0 <= i < ops@.len() ==> op_ok(
                    #[trigger] ops@[i],
                    self.num_qubits_spec(),
                    self.x_stabilizers@.len() as nat,
                    self.z_stabilizers@.len() as nat,
                ),
    {
        let num_data = self.data_qubits.len();
        let num_x = self.x_stabilizers.len();
        let num_z = self.z_stabilizers.len();
        let ghost n = self.num_qubits_spec();
        let ghost nx = num_x as nat;
        let ghost nz = num_z as nat;
        proof {
            self.lemma_sizes();
        }
        let mut ops: Vec<Op> = Vec::new();

        // Prepare ancillas: X-type in |+>, Z-type in |0>.
        let ghost f1 = |j: nat|
            seq![
                Op::Reset(self.x_anc(j)),
                Op::Noise(self.x_anc(j)),
                Op::H(self.x_anc(j)),
                Op::Noise(self.x_anc(j)),
            ];
        for j in 0..num_x
            invariant
                self.wf(),
                num_data == self.data_qubits@.len(),
                num_x == self.x_stabilizers@.len(),
                num_z == self.z_stabilizers@.len(),
                n == self.num_qubits_spec(),
                n <= 0x400_0000,
                nx == num_x,
                nz == num_z,
                f1 == (|j: nat|
                    seq![
                        Op::Reset(self.x_anc(j)),
                        Op::Noise(self.x_anc(j)),
                        Op::H(self.x_anc(j)),
                        Op::Noise(self.x_anc(j)),
                    ]),
                ops@ == rep(j as nat, f1),
                forall|i: int| 0 <= i < ops@.len() ==> op_ok(#[trigger] ops@[i], n, nx, nz),
        {
            let a = num_data + j;
            ops.push(Op::Reset(a));
            ops.push(Op::Noise(a));
            ops.push(Op::H(a));
            ops.push(Op::Noise(a));
            proof {
                lemma_rep_step(j as nat, f1, seq![]);
                assert(seq![] + rep(j as nat, f1) =~= rep(j as nat, f1));
                assert(seq![] + rep((j + 1) as nat, f1) =~= rep((j + 1) as nat, f1));
            }
        }
        let ghost p1 = ops@;
        let ghost f2 = |k: nat| seq![Op::Reset(self.z_anc(k)), Op::Noise(self.z_anc(k))];
        for k in 0..num_z
            invariant
                self.wf(),
                num_data == self.data_qubits@.len(),
                num_x == self.x_stabilizers@.len(),
                num_z == self.z_stabilizers@.len(),
                n == self.num_qubits_spec(),
                n <= 0x400_0000,
                nx == num_x,
                nz == num_z,
                f2 == (|k: nat| seq![Op::Reset(self.z_anc(k)), Op::Noise(self.z_anc(k))]),
                ops@ == p1 + rep(k as nat, f2),
                forall|i: int| 0 <= i < ops@.len() ==> op_ok(#[trigger] ops@[i], n, nx, nz),
        {
            let a = num_data + num_x + k;
            ops.push(Op::Reset(a));
            ops.push(Op::Noise(a));
            proof {
                lemma_rep_step(k as nat, f2, p1);
            }
        }
        let ghost p2 = ops@;
        let ghost f3 = |step: nat| self.cnot_layer(step);

        // Four interleaved CNOT layers.
        for step in 0..4usize
            invariant
                self.wf(),
                num_data == self.data_qubits@.len(),
                num_x == self.x_stabilizers@.len(),
                num_z == self.z_stabilizers@.len(),
                n == self.num_qubits_spec(),
                n <= 0x400_0000,
                nx == num_x,
                nz == num_z,
                f3 == (|step: nat| self.cnot_layer(step)),
                ops@ == p2 + rep(step as nat, f3),
                forall|i: int| 0 <= i < ops@.len() ==> op_ok(#[trigger] ops@[i], n, nx, nz),
        {
            let ghost q0 = ops@;
            let (dx, dy) = x_order_exec(step);
            let ghost fx = |j: nat| self.x_leg(step as nat, j);
            for j in 0..num_x
                invariant
                    self.wf(),
                    step < 4,
                    (dx as int, dy as int) == x_order(step as nat),
                    num_data == self.data_qubits@.len(),
                    num_x == self.x_stabilizers@.len(),
                    num_z == self.z_stabilizers@.len(),
                    n == self.num_qubits_spec(),
                    n <= 0x400_0000,
                n <= 0x400_0000,
                    nx == num_x,
                    nz == num_z,
                    fx == (|j: nat| self.x_leg(step as nat, j)),
                    ops@ == q0 + rep(j as nat, fx),
                    forall|i: int| 0 <= i < ops@.len() ==> op_ok(#[trigger] ops@[i], n, nx, nz),
            {
                let s = &self.x_stabilizers[j];
                proof {
                    assert(coords_ok(self.x_stabilizers@, self.d as nat));
                    assert(s.0 <= 2 * self.d + 1);
                }
                if let Some(data) = self.neighbor_at(s, dx, dy) {
                    let a = num_data + j;
                    ops.push(Op::Cnot(a, data));
                    ops.push(Op::Noise(a));
                    ops.push(Op::Noise(data));
                } else {
                }
                proof {
                    lemma_rep_step(j as nat, fx, q0);
                }
            }
            let ghost q1 = ops@;
            let (zx, zy) = z_order_exec(step);
            let ghost fz = |k: nat| self.z_leg(step as nat, k);
            for k in 0..num_z
                invariant
                    self.wf(),
                    step < 4,
                    (zx as int, zy as int) == z_order(step as nat),
                    num_data == self.data_qubits@.len(),
                    num_x == self.x_stabilizers@.len(),
                    num_z == self.z_stabilizers@.len(),
                    n == self.num_qubits_spec(),
                    n <= 0x400_0000,
                n <= 0x400_0000,
                    nx == num_x,
                    nz == num_z,
                    fz == (|k: nat| self.z_leg(step as nat, k)),
                    ops@ == q1 + rep(k as nat, fz),
                    forall|i: int| 0 <= i < ops@.len() ==> op_ok(#[trigger] ops@[i], n, nx, nz),
            {
                let s = &self.z_stabilizers[k];
                proof {
                    assert(coords_ok(self.z_stabilizers@, self.d as nat));
                    assert(s.0 <= 2 * self.d + 1);
                }
                if let Some(data) = self.neighbor_at(s, zx, zy) {
                    let a = num_data + num_x + k;
                    ops.push(Op::Cnot(data, a));
                    ops.push(Op::Noise(data));
                    ops.push(Op::Noise(a));
                } else {
                }
                proof {
                    lemma_rep_step(k as nat, fz, q1);
                }
            }
            proof {
                assert(ops@ =~= q0 + self.cnot_layer(step as nat));
                lemma_rep_step(step as nat, f3, p2);
            }
        }
        let ghost p3 = ops@;

        // Rotate the X ancillas back and read everything out.
        let ghost f4 = |j: nat| seq![Op::H(self.x_anc(j)), Op::Noise(self.x_anc(j))];
        for j in 0..num_x
            invariant
                self.wf(),
                num_data == self.data_qubits@.len(),
                num_x == self.x_stabilizers@.len(),
                num_z == self.z_stabilizers@.len(),
                n == self.num_qubits_spec(),
                n <= 0x400_0000,
                nx == num_x,
                nz == num_z,
                f4 == (|j: nat| seq![Op::H(self.x_anc(j)), Op::Noise(self.x_anc(j))]),
                ops@ == p3 + rep(j as nat, f4),
                forall|i: int| 0 <= i < ops@.len() ==> op_ok(#[trigger] ops@[i], n, nx, nz),
        {
            let a = num_data + j;
            ops.push(Op::H(a));
            ops.push(Op::Noise(a));
            proof {
                lemma_rep_step(j as nat, f4, p3);
            }
        }
        let ghost p4 = ops@;
        let ghost f5 = |j: nat| seq![Op::Measure(self.x_anc(j), StabKind::X, j as usize)];
        for j in 0..num_x
            invariant
                self.wf(),
                num_data == self.data_qubits@.len(),
                num_x == self.x_stabilizers@.len(),
                num_z == self.z_stabilizers@.len(),
                n == self.num_qubits_spec(),
                n <= 0x400_0000,
                nx == num_x,
                nz == num_z,
                f5 == (|j: nat| seq![Op::Measure(self.x_anc(j), StabKind::X, j as usize)]),
                ops@ == p4 + rep(j as nat, f5),
                forall|i: int| 0 <= i < ops@.len() ==> op_ok(#[trigger] ops@[i], n, nx, nz),
        {
            ops.push(Op::Measure(num_data + j, StabKind::X, j));
            proof {
                lemma_rep_step(j as nat, f5, p4);
            }
        }
        let ghost p5 = ops@;
        let ghost f6 = |k: nat| seq![Op::Measure(self.z_anc(k), StabKind::Z, k as usize)];
        for k in 0..num_z
            invariant
                self.wf(),
                num_data == self.data_qubits@.len(),
                num_x == self.x_stabilizers@.len(),
                num_z == self.z_stabilizers@.len(),
                n == self.num_qubits_spec(),
                n <= 0x400_0000,
                nx == num_x,
                nz == num_z,
                f6 == (|k: nat| seq![Op::Measure(self.z_anc(k), StabKind::Z, k as usize)]),
                ops@ == p5 + rep(k as nat, f6),
                forall|i: int| 0 <= i < ops@.len() ==> op_ok(#[trigger] ops@[i], n, nx, nz),
        {
            ops.push(Op::Measure(num_data + num_x + k, StabKind::Z, k));
            proof {
                lemma_rep_step(k as nat, f6, p5);
            }
        }
        proof {
            assert(ops@ =~= self.program_spec());
        }
        ops
    }

    /// The circuit plus the sizes the model builder needs.
    pub fn circuit_layout(&self) -> (layout: CircuitLayout)
        requires
            self.wf(),
        ensures
            layout.program@ == self.program_spec(),
            layout.num_qubits == self.num_qubits_spec(),
            layout.num_data == self.data_qubits@.len(),
            layout.num_x_stabs == self.x_stabilizers@.len(),
            layout.num_z_stabs == self.z_stabilizers@.len(),
            layout.wf(),
    {
        proof {
            self.lemma_sizes();
        }
        CircuitLayout {
            program: self.round_program(),
            num_qubits: self.data_qubits.len() + self.x_stabilizers.len() + self.z_stabilizers.len(),
            num_data: self.data_qubits.len(),
            num_x_stabs: self.x_stabilizers.len(),
            num_z_stabs: self.z_stabilizers.len(),
        }
    }
}

/* ---------------------------------------------------------------------- */
/* The XZZX surface code                                                  */
/* ---------------------------------------------------------------------- */

/// The mask of an optional qubit.
pub open spec fn opt_mask(o: Option<usize>) -> u128 {
    match o {
        Some(q) => 1u128 << (q as u128),
        None => 0u128,
    }
}

/// Symplectic form of the XZZX plaquette at `s`: X on the NW/SE diagonal,
/// Z on the NE/SW one.
pub open spec fn xzzx_op(d: int, s: (usize, usize)) -> (u128, u128) {
    let (sx, sy) = (s.0 as int, s.1 as int);
    (
        opt_mask(lattice_index(d, sx - 1, sy - 1)) | opt_mask(lattice_index(d, sx + 1, sy + 1)),
        opt_mask(lattice_index(d, sx + 1, sy - 1)) | opt_mask(lattice_index(d, sx - 1, sy + 1)),
    )
}

/// The symplectic forms of a list of plaquettes.
pub open spec fn xzzx_ops(d: int, stabs: Seq<(usize, usize)>) -> Seq<(u128, u128)> {
    Seq::new(stabs.len(), |i: int| xzzx_op(d, stabs[i]))
}

/// Whether each step's offsets keep every plaquette's neighbour inside the
/// `i32` range.
pub open spec fn offsets_ok(stabs: Seq<(usize, usize)>, order: [(i32, i32, bool); 4]) -> bool {
    forall|i: int, s: int|
        0 <= i < 4 && 0 <= s < stabs.len() ==> i32::MIN <= #[trigger] stabs[s].0 + (#[trigger] order@[i]).0
            <= i32::MAX && i32::MIN <= stabs[s].1 + order@[i].1 <= i32::MAX
}

pub struct XZZXSurfaceCode {
    pub d: usize,
    pub data_qubits: Vec<(usize, usize)>,
    pub stabilizers: Vec<(usize, usize)>,
    pub z_stabilizers: Vec<(usize, usize)>,
    pub x_stabilizers: Vec<(usize, usize)>,
    /// Built once per code from the plaquettes' symplectic forms.
    pub logical: LogicalCheck,
}

fn opt_mask_exec(o: Option<usize>) -> (m: u128)
    requires
        o matches Some(q) ==> q < 128,
    ensures
        m == opt_mask(o),
        forall|i: u128| i < 128 ==> #[trigger] bit(m, i) == (o matches Some(q) && i == q as u128),
{
    match o {
        Some(q) => single(q as u32),
        None => {
            proof {
                assert forall|i: u128| i < 128 implies !#[trigger] bit(0u128, i) by {
                    crate::bits::lemma_bit_zero(i);
                }
            }
            0
        },
    }
}

proof fn lemma_or_fits(a: u128, b: u128, n: nat)
    requires
        fits(a, n),
        fits(b, n),
    ensures
        fits(a | b, n),
{
    assert forall|i: u128| n <= i < 128 implies !#[trigger] bit(a | b, i) by {
        assert(!bit(a, i) && !bit(b, i));
        assert(((a >> i) & 1u128 != 1u128) && ((b >> i) & 1u128 != 1u128) ==> (((a | b) >> i) & 1u128 != 1u128))
            by (bit_vector);
    }
}

impl XZZXSurfaceCode {
    /// A patch whose qubits fit the 128-bit masks, with its plaquettes on
    /// the grid; the plaquettes are the Z-like ones followed by the X-like
    /// ones.
    pub open spec fn wf(&self) -> bool {
        &&& self.d * self.d <= 128
        &&& self.data_qubits@.len() == self.d * self.d
        &&& self.stabilizers@.len() <= 256
        &&& self.z_stabilizers@.len() <= self.stabilizers@.len()
        &&& coords_ok(self.data_qubits@, self.d as nat)
        &&& coords_ok(self.stabilizers@, self.d as nat)
        &&& self.logical.wf()
    }

    /// X on the NW/SE diagonal, Z on the NE/SW one, in the order NW, NE,
    /// SW, SE for the Z-like plaquettes.
    pub const SCHEDULE_A: [(i32, i32, bool); 4] = [(-1, -1, true), (1, -1, false), (-1, 1, false), (1, 1, true)];

    /// The transposed order, NW, SW, NE, SE, for the X-like plaquettes.
    pub const SCHEDULE_B: [(i32, i32, bool); 4] = [(-1, -1, true), (-1, 1, false), (1, -1, false), (1, 1, true)];

    pub fn new(d: usize) -> (code: Self)
        requires
            d * d <= 128,
        ensures
            code.d == d,
            code.data_qubits@ == data_seq(d as nat, d as nat),
            code.z_stabilizers@ == rotated_z_stabilizers(d as nat),
            code.x_stabilizers@ == rotated_x_stabilizers(d as nat),
            code.stabilizers@ == code.z_stabilizers@ + code.x_stabilizers@,
            code.wf(),
            forall|i: int|
                0 <= i < code.stabilizers@.len() ==> !code.logical.is_logical_spec(
                    #[trigger] xzzx_op(d as int, code.stabilizers@[i]).0,
                    xzzx_op(d as int, code.stabilizers@[i]).1,
                ),
            logical_pair_found(
                xzzx_ops(d as int, code.stabilizers@),
                code.logical,
                code.logical.lx(),
                code.logical.lz(),
            ) || (code.logical.lx() == (0u128, 0u128) && code.logical.lz() == (0u128, 0u128)),
            forall|x: u128, z: u128|
                #[trigger] code.logical.is_logical_spec(x, z) == !crate::logical_check::in_group(
                    xzzx_ops(d as int, code.stabilizers@),
                    (x, z),
                ),
    {
        proof {
            assert(d <= 11) by (nonlinear_arith)
                requires
                    d * d <= 128,
            ;
        }
        let data_qubits = data_points(d);
        let below_d = if d >= 1 {
            d - 1
        } else {
            0
        };
        let z_stabilizers = grid_points(1, below_d, 0, d + 1, 0);
        let x_stabilizers = grid_points(0, d + 1, 1, below_d, 1);
        let mut stabilizers: Vec<(usize, usize)> = Vec::new();
        for i in 0..z_stabilizers.len()
            invariant
                stabilizers@ == z_stabilizers@.subrange(0, i as int),
        {
            stabilizers.push(z_stabilizers[i]);
            proof {
                assert(stabilizers@ =~= z_stabilizers@.subrange(0, i + 1));
            }
        }
        for i in 0..x_stabilizers.len()
            invariant
                stabilizers@ == z_stabilizers@ + x_stabilizers@.subrange(0, i as int),
        {
            stabilizers.push(x_stabilizers[i]);
            proof {
                assert(stabilizers@ =~= z_stabilizers@ + x_stabilizers@.subrange(0, i + 1));
            }
        }
        proof {
            assert(z_stabilizers@ =~= z_stabilizers@.subrange(0, z_stabilizers@.len() as int));
            assert(x_stabilizers@ =~= x_stabilizers@.subrange(0, x_stabilizers@.len() as int));
            assert(stabilizers@ =~= z_stabilizers@ + x_stabilizers@);
            assert(below_d * (d + 1) <= 120) by (nonlinear_arith)
                requires
                    below_d <= 10,
                    d <= 11,
            ;
            assert((d + 1) * below_d == below_d * (d + 1)) by (nonlinear_arith);
            assert forall|i: int| 0 <= i < stabilizers@.len() implies (#[trigger] stabilizers@[i]).0 <= 2 * d + 1
                && stabilizers@[i].1 <= 2 * d + 1 by {
                if i < z_stabilizers@.len() {
                    assert(stabilizers@[i] == z_stabilizers@[i]);
                } else {
                    assert(stabilizers@[i] == x_stabilizers@[i - z_stabilizers@.len()]);
                }
            }
        }

        // Symplectic form of each plaquette.
        let n = d * d;
        let mut ops: Vec<(u128, u128)> = Vec::new();
        for i in 0..stabilizers.len()
            invariant
                d <= 11,
                n == d * d,
                n <= 128,
                coords_ok(stabilizers@, d as nat),
                ops@.len() == i,
                forall|k: int| 0 <= k < i ==> #[trigger] ops@[k] == xzzx_op(d as int, stabilizers@[k]),
                forall|k: int| 0 <= k < i ==> pauli_fits(#[trigger] ops@[k], n as nat),
        {
            let (sx, sy) = stabilizers[i];
            proof {
                assert(sx <= 2 * d + 1 && sy <= 2 * d + 1);
            }
            let x = sx as i32;
            let y = sy as i32;
            let a = opt_mask_exec(lattice_index_exec(d, x - 1, y - 1));
            let b = opt_mask_exec(lattice_index_exec(d, x + 1, y + 1));
            let c = opt_mask_exec(lattice_index_exec(d, x + 1, y - 1));
            let e = opt_mask_exec(lattice_index_exec(d, x - 1, y + 1));
            let op = (a | b, c | e);
            proof {
                assert forall|j: u128| n <= j < 128 implies !#[trigger] bit(a, j) by {}
                assert forall|j: u128| n <= j < 128 implies !#[trigger] bit(b, j) by {}
                assert forall|j: u128| n <= j < 128 implies !#[trigger] bit(c, j) by {}
                assert forall|j: u128| n <= j < 128 implies !#[trigger] bit(e, j) by {}
                lemma_or_fits(a, b, n as nat);
                lemma_or_fits(c, e, n as nat);
            }
            ops.push(op);
        }
        let logical = LogicalCheck::new(ops.as_slice(), n);
        proof {
            assert(ops@ =~= xzzx_ops(d as int, stabilizers@));
            assert forall|i: int| 0 <= i < stabilizers@.len() implies !logical.is_logical_spec(
                #[trigger] xzzx_op(d as int, stabilizers@[i]).0,
                xzzx_op(d as int, stabilizers@[i]).1,
            ) by {
                assert(ops@[i] == xzzx_op(d as int, stabilizers@[i]));
            }
        }
        XZZXSurfaceCode { d, data_qubits, stabilizers, z_stabilizers, x_stabilizers, logical }
    }

    /// The data qubit at grid point `(x, y)`, if any.
    pub fn get_neighbor_idx(&self, x: i32, y: i32) -> (r: Option<usize>)
        requires
            self.d <= MAX_DISTANCE,
        ensures
            r == lattice_index(self.d as int, x as int, y as int),
            r matches Some(q) ==> q < self.d * self.d,
    {
        lattice_index_exec(self.d, x, y)
    }

    /// The data qubits diagonally adjacent to a plaquette.
    pub fn get_neighbors(&self, stab: &(usize, usize)) -> (r: Vec<usize>)
        requires
            self.d <= MAX_DISTANCE,
            stab.0 < i32::MAX,
            stab.1 < i32::MAX,
        ensures
            r@ == diagonal_neighbors(self.d as int, stab.0 as int, stab.1 as int),
            forall|i: int| 0 <= i < r@.len() ==> #[trigger] r@[i] < self.d * self.d,
    {
        diagonal_neighbors_exec(self.d, stab.0, stab.1)
    }

    /// The decoding graph of one error family: an X error flips the
    /// plaquettes on its anti-diagonal, a Z error those on its diagonal.
    pub fn build_syndrome_graph(&self, num_rounds: usize, is_for_x_errors: bool) -> (g: SyndromeGraph)
        requires
            self.wf(),
            num_rounds >= 1,
            graph_fits(self.stabilizers@.len() as nat, self.data_qubits@.len() as nat, num_rounds as nat),
        ensures
            g.num_nodes == self.stabilizers@.len() * num_rounds,
            edges_match(
                g.edges@,
                g.edge_to_qubit@,
                spatial_edges(
                    self.stabilizers@,
                    self.data_qubits@,
                    if is_for_x_errors {
                        1u8
                    } else {
                        2u8
                    },
                    g.num_nodes as nat,
                    num_rounds as nat,
                ) + temporal_edges(self.stabilizers@.len() as nat, (num_rounds - 1) as nat),
            ),
            g.well_formed(),
            g.num_nodes <= usize::MAX / 4,
            g.edges@.len() <= usize::MAX / 4,
            forall|k: int| 0 <= k < g.edges@.len() ==> (#[trigger] g.edges@[k]).u < g.num_nodes,
            forall|k: int|
                0 <= k < g.edge_to_qubit@.len() ==> (#[trigger] g.edge_to_qubit@[k] matches Some(q) ==> q
                    < self.data_qubits@.len()),
    {
        proof {
            assert(self.d <= 11) by (nonlinear_arith)
                requires
                    self.d * self.d <= 128,
            ;
            lemma_coords_bounded(self.data_qubits@, self.d as nat);
            lemma_coords_bounded(self.stabilizers@, self.d as nat);
        }
        let kind: u8 = if is_for_x_errors {
            1
        } else {
            2
        };
        build_graph(&self.stabilizers, &self.data_qubits, kind, num_rounds)
    }

    /// One graph carrying both error families over the same nodes, and per
    /// edge whether correcting it means applying X (`false` for the timelike
    /// edges, which carry no qubit). Matching once over the union explains
    /// every defect exactly once.
    pub fn build_combined_graph(&self, num_rounds: usize) -> (res: (SyndromeGraph, Vec<bool>))
        requires
            self.wf(),
            graph_fits(self.stabilizers@.len() as nat, self.data_qubits@.len() as nat, num_rounds as nat),
        ensures
            res.0.num_nodes == self.stabilizers@.len() * num_rounds,
            edges_match(
                res.0.edges@,
                res.0.edge_to_qubit@,
                combined_spatial(self.stabilizers@, self.data_qubits@, res.0.num_nodes as nat, num_rounds as nat)
                    + temporal_edges(self.stabilizers@.len() as nat, layers_between(num_rounds as nat)),
            ),
            res.1@ == combined_flags(
                self.stabilizers@,
                self.data_qubits@,
                res.0.num_nodes as nat,
                num_rounds as nat,
            ) + Seq::new(
                temporal_edges(self.stabilizers@.len() as nat, layers_between(num_rounds as nat)).len(),
                |i: int| false,
            ),
            res.0.well_formed(),
            res.0.num_nodes <= usize::MAX / 4,
            res.0.edges@.len() <= usize::MAX / 4,
            forall|k: int| 0 <= k < res.0.edges@.len() ==> (#[trigger] res.0.edges@[k]).u < res.0.num_nodes,
            forall|k: int|
                0 <= k < res.0.edge_to_qubit@.len() ==> (#[trigger] res.0.edge_to_qubit@[k] matches Some(q) ==> q
                    < self.data_qubits@.len()),
    {
        proof {
            assert(self.d <= 11) by (nonlinear_arith)
                requires
                    self.d * self.d <= 128,
            ;
            lemma_coords_bounded(self.data_qubits@, self.d as nat);
            lemma_coords_bounded(self.stabilizers@, self.d as nat);
        }
        build_combined(&self.stabilizers, &self.data_qubits, num_rounds)
    }

    /// Qubit index of the ancilla of plaquette `s`.
    pub open spec fn anc(&self, s: nat) -> usize {
        (self.data_qubits@.len() + s) as usize
    }

    /// The gates of CNOT step `step` for plaquette `s`: a CNOT out of the
    /// ancilla for an X leg, a CZ for a Z leg.
    pub open spec fn leg(&self, order_a: [(i32, i32, bool); 4], order_b: [(i32, i32, bool); 4], step: nat, s: nat) -> Seq<
        Op,
    > {
        let o = if s < self.z_stabilizers@.len() {
            order_a@[step as int]
        } else {
            order_b@[step as int]
        };
        let st = self.stabilizers@[s as int];
        match lattice_index(self.d as int, st.0 + o.0, st.1 + o.1) {
            Some(q) => seq![
                if o.2 {
                    Op::Cnot(self.anc(s), q)
                } else {
                    Op::Cz(self.anc(s), q)
                },
                Op::Noise(self.anc(s)),
                Op::Noise(q),
            ],
            None => seq![],
        }
    }

    pub open spec fn layer(&self, order_a: [(i32, i32, bool); 4], order_b: [(i32, i32, bool); 4], step: nat) -> Seq<Op> {
        rep(self.stabilizers@.len(), |s: nat| self.leg(order_a, order_b, step, s))
    }

    /// The round: every ancilla prepared in |+>, four gate layers, rotated
    /// back, and every ancilla measured under the Z kind.
    pub open spec fn ordered_spec(&self, order_a: [(i32, i32, bool); 4], order_b: [(i32, i32, bool); 4]) -> Seq<Op> {
        let ns = self.stabilizers@.len();
        rep(
            ns,
            |s: nat| seq![Op::Reset(self.anc(s)), Op::Noise(self.anc(s)), Op::H(self.anc(s)), Op::Noise(self.anc(s))],
        ) + rep(4, |step: nat| self.layer(order_a, order_b, step)) + rep(
            ns,
            |s: nat| seq![Op::H(self.anc(s)), Op::Noise(self.anc(s))],
        ) + rep(ns, |s: nat| seq![Op::Measure(self.anc(s), StabKind::Z, s as usize)])
    }

    pub open spec fn num_qubits_spec(&self) -> nat {
        self.data_qubits@.len() + self.stabilizers@.len()
    }

    /// The syndrome-extraction round with the plaquettes of the first family
    /// walking their neighbours in `order_a` and the rest in `order_b`.
    pub fn round_program_ordered(&self, order_a: &[(i32, i32, bool); 4], order_b: &[(i32, i32, bool); 4]) -> (ops: Vec<
        Op,
    >)
        requires
            self.wf(),
            offsets_ok(self.stabilizers@, *order_a),
            offsets_ok(self.stabilizers@, *order_b),
        ensures
            ops@ == self.ordered_spec(*order_a, *order_b),
            forall|i: int|
                0 <= i < ops@.len() ==> op_ok(#[trigger] ops@[i], self.num_qubits_spec(), 0, self.stabilizers@.len() as nat),
    {
        let num_data = self.data_qubits.len();
        let ns = self.stabilizers.len();
        let split = self.z_stabilizers.len();
        let ghost n = self.num_qubits_spec();
        proof {
            assert(self.d <= 11) by (nonlinear_arith)
                requires
                    self.d * self.d <= 128,
            ;
        }
        let mut ops: Vec<Op> = Vec::new();
        let ghost f1 = |s: nat|
            seq![Op::Reset(self.anc(s)), Op::Noise(self.anc(s)), Op::H(self.anc(s)), Op::Noise(self.anc(s))];
        for s in 0..ns
            invariant
                self.wf(),
                num_data == self.data_qubits@.len(),
                ns == self.stabilizers@.len(),
                n == self.num_qubits_spec(),
                num_data <= 128,
                ns <= 256,
                self.d <= 11,
                f1 == (|s: nat|
                    seq![Op::Reset(self.anc(s)), Op::Noise(self.anc(s)), Op::H(self.anc(s)), Op::Noise(self.anc(s))]),
                ops@ == rep(s as nat, f1),
                forall|i: int| 0 <= i < ops@.len() ==> op_ok(#[trigger] ops@[i], n, 0, ns as nat),
        {
            let a = num_data + s;
            ops.push(Op::Reset(a));
            ops.push(Op::Noise(a));
            ops.push(Op::H(a));
            ops.push(Op::Noise(a));
            proof {
                lemma_rep_step(s as nat, f1, seq![]);
                assert(seq![] + rep(s as nat, f1) =~= rep(s as nat, f1));
                assert(seq![] + rep((s + 1) as nat, f1) =~= rep((s + 1) as nat, f1));
            }
        }
        let ghost p1 = ops@;
        let ghost f2 = |step: nat| self.layer(*order_a, *order_b, step);
        for step in 0..4usize
            invariant
                self.wf(),
                num_data == self.data_qubits@.len(),
                ns == self.stabilizers@.len(),
                split == self.z_stabilizers@.len(),
                n == self.num_qubits_spec(),
                num_data <= 128,
                ns <= 256,
                self.d <= 11,
                offsets_ok(self.stabilizers@, *order_a),
                offsets_ok(self.stabilizers@, *order_b),
                f2 == (|step: nat| self.layer(*order_a, *order_b, step)),
                ops@ == p1 + rep(step as nat, f2),
                forall|i: int| 0 <= i < ops@.len() ==> op_ok(#[trigger] ops@[i], n, 0, ns as nat),
        {
            let ghost q0 = ops@;
            let ghost fl = |s: nat| self.leg(*order_a, *order_b, step as nat, s);
            for s in 0..ns
                invariant
                    self.wf(),
                    step < 4,
                    num_data == self.data_qubits@.len(),
                    ns == self.stabilizers@.len(),
                    split == self.z_stabilizers@.len(),
                    n == self.num_qubits_spec(),
                    num_data <= 128,
                    ns <= 256,
                self.d <= 11,
                    offsets_ok(self.stabilizers@, *order_a),
                    offsets_ok(self.stabilizers@, *order_b),
                    fl == (|s: nat| self.leg(*order_a, *order_b, step as nat, s)),
                    ops@ == q0 + rep(s as nat, fl),
                    forall|i: int| 0 <= i < ops@.len() ==> op_ok(#[trigger] ops@[i], n, 0, ns as nat),
            {
                let (dx, dy, is_x) = if s < split {
                    order_a[step]
                } else {
                    order_b[step]
                };
                let st = self.stabilizers[s];
                proof {
                    assert(coords_ok(self.stabilizers@, self.d as nat));
                    assert(st.0 <= 2 * self.d + 1 && st.1 <= 2 * self.d + 1);
                    if s < split {
                        assert(i32::MIN <= self.stabilizers@[s as int].0 + order_a@[step as int].0 <= i32::MAX);
                        assert(i32::MIN <= self.stabilizers@[s as int].1 + order_a@[step as int].1 <= i32::MAX);
                    } else {
                        assert(i32::MIN <= self.stabilizers@[s as int].0 + order_b@[step as int].0 <= i32::MAX);
                        assert(i32::MIN <= self.stabilizers@[s as int].1 + order_b@[step as int].1 <= i32::MAX);
                    }
                }
                if let Some(data) = self.get_neighbor_idx(st.0 as i32 + dx, st.1 as i32 + dy) {
                    let a = num_data + s;
                    if is_x {
                        ops.push(Op::Cnot(a, data));
                    } else {
                        ops.push(Op::Cz(a, data));
                    }
                    ops.push(Op::Noise(a));
                    ops.push(Op::Noise(data));
                } else {
                }
                proof {
                    lemma_rep_step(s as nat, fl, q0);
                }
            }
            proof {
                lemma_rep_step(step as nat, f2, p1);
            }
        }
        let ghost p2 = ops@;
        let ghost f3 = |s: nat| seq![Op::H(self.anc(s)), Op::Noise(self.anc(s))];
        for s in 0..ns
            invariant
                self.wf(),
                num_data == self.data_qubits@.len(),
                ns == self.stabilizers@.len(),
                n == self.num_qubits_spec(),
                num_data <= 128,
                ns <= 256,
                self.d <= 11,
                f3 == (|s: nat| seq![Op::H(self.anc(s)), Op::Noise(self.anc(s))]),
                ops@ == p2 + rep(s as nat, f3),
                forall|i: int| 0 <= i < ops@.len() ==> op_ok(#[trigger] ops@[i], n, 0, ns as nat),
        {
            let a = num_data + s;
            ops.push(Op::H(a));
            ops.push(Op::Noise(a));
            proof {
                lemma_rep_step(s as nat, f3, p2);
            }
        }
        let ghost p3 = ops@;
        let ghost f4 = |s: nat| seq![Op::Measure(self.anc(s), StabKind::Z, s as usize)];
        for s in 0..ns
            invariant
                self.wf(),
                num_data == self.data_qubits@.len(),
                ns == self.stabilizers@.len(),
                n == self.num_qubits_spec(),
                num_data <= 128,
                ns <= 256,
                self.d <= 11,
                f4 == (|s: nat| seq![Op::Measure(self.anc(s), StabKind::Z, s as usize)]),
                ops@ == p3 + rep(s as nat, f4),
                forall|i: int| 0 <= i < ops@.len() ==> op_ok(#[trigger] ops@[i], n, 0, ns as nat),
        {
            ops.push(Op::Measure(num_data + s, StabKind::Z, s));
            proof {
                lemma_rep_step(s as nat, f4, p3);
            }
        }
        proof {
            assert(ops@ =~= self.ordered_spec(*order_a, *order_b));
        }
        ops
    }

    /// The syndrome-extraction round with the two fixed schedules.
    pub fn round_program(&self) -> (ops: Vec<Op>)
        requires
            self.wf(),
        ensures
            ops@ == self.ordered_spec(Self::SCHEDULE_A, Self::SCHEDULE_B),
            forall|i: int|
                0 <= i < ops@.len() ==> op_ok(#[trigger] ops@[i], self.num_qubits_spec(), 0, self.stabilizers@.len() as nat),
    {
        proof {
            assert(Self::SCHEDULE_A@[0].0 == -1);
            assert forall|i: int, s: int|
                0 <= i < 4 && 0 <= s < self.stabilizers@.len() implies i32::MIN <= #[trigger] self.stabilizers@[s].0
                    + (#[trigger] Self::SCHEDULE_A@[i]).0 <= i32::MAX && i32::MIN <= self.stabilizers@[s].1
                    + Self::SCHEDULE_A@[i].1 <= i32::MAX by {
                assert(coords_ok(self.stabilizers@, self.d as nat));
                assert(self.d <= 11) by (nonlinear_arith)
                    requires
                        self.d * self.d <= 128,
                ;
            }
            assert forall|i: int, s: int|
                0 <= i < 4 && 0 <= s < self.stabilizers@.len() implies i32::MIN <= #[trigger] self.stabilizers@[s].0
                    + (#[trigger] Self::SCHEDULE_B@[i]).0 <= i32::MAX && i32::MIN <= self.stabilizers@[s].1
                    + Self::SCHEDULE_B@[i].1 <= i32::MAX by {
                assert(coords_ok(self.stabilizers@, self.d as nat));
                assert(self.d <= 11) by (nonlinear_arith)
                    requires
                        self.d * self.d <= 128,
                ;
            }
        }
        self.round_program_ordered(&Self::SCHEDULE_A, &Self::SCHEDULE_B)
    }

    /// The circuit plus the sizes the model builder needs: one plaquette
    /// family, carried in the Z slot.
    pub fn circuit_layout(&self) -> (layout: CircuitLayout)
        requires
            self.wf(),
        ensures
            layout.program@ == self.ordered_spec(Self::SCHEDULE_A, Self::SCHEDULE_B),
            layout.num_qubits == self.num_qubits_spec(),
            layout.num_data == self.data_qubits@.len(),
            layout.num_x_stabs == 0,
            layout.num_z_stabs == self.stabilizers@.len(),
            layout.wf(),
    {
        proof {
            assert(self.d <= 11) by (nonlinear_arith)
                requires
                    self.d * self.d <= 128,
            ;
        }
        CircuitLayout {
            program: self.round_program(),
            num_qubits: self.data_qubits.len() + self.stabilizers.len(),
            num_data: self.data_qubits.len(),
            num_x_stabs: 0,
            num_z_stabs: self.stabilizers.len(),
        }
    }
}

} // verus!
