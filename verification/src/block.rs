use vstd::prelude::*;

use crate::axis::{axis_index, Axis};
use vstd::arithmetic::div_mod::{
    lemma_div_pos_is_pos, lemma_fundamental_div_mod, lemma_fundamental_div_mod_converse, lemma_mod_pos_bound,
    lemma_multiply_divide_lt,
};
use crate::grid::{clamped_node_index, node_index, index3, raise_all, raised, lemma_raised_push, lemma_index3_bound, lemma_index3_parts, lemma_product_parts, lemma_split_row_major, lemma_next_row};

verus! {

/// One of the six faces of a block, named by axis and end rather than by "top" or "left".
#[derive(Clone, Copy, Debug, PartialEq, Eq)]
pub enum Face {
    /// `x = 0`.
    XLow,
    /// `x = L`.
    XHigh,
    /// `y = 0`.
    YLow,
    /// `y = L`.
    YHigh,
    /// `z = 0`.
    ZLow,
    /// `z = L`.
    ZHigh,
}

/// The axis a face is normal to: 0, 1 or 2.
pub open spec fn face_axis(f: Face) -> nat {
    match f {
        Face::XLow | Face::XHigh => 0,
        Face::YLow | Face::YHigh => 1,
        Face::ZLow | Face::ZHigh => 2,
    }
}

/// Whether a face is the high end of its axis.
pub open spec fn face_is_high(f: Face) -> bool {
    f is XHigh || f is YHigh || f is ZHigh
}

impl Face {
    /// Which axis the face's normal is along: 0, 1 or 2.
    pub fn axis(self) -> (a: usize)
        ensures
            a == face_axis(self),
            a < 3,
    {
        match self {
            Face::XLow | Face::XHigh => 0,
            Face::YLow | Face::YHigh => 1,
            Face::ZLow | Face::ZHigh => 2,
        }
    }

    /// Whether it is the high end of that axis.
    pub fn is_high(self) -> (h: bool)
        ensures
            h == face_is_high(self),
    {
        matches!(self, Face::XHigh | Face::YHigh | Face::ZHigh)
    }

    /// The axis the face's normal is along, as a type.
    pub fn on(self) -> (a: Axis)
        ensures
            axis_index(a) == face_axis(self),
    {
        match self {
            Face::XLow | Face::XHigh => Axis::X,
            Face::YLow | Face::YHigh => Axis::Y,
            Face::ZLow | Face::ZHigh => Axis::Z,
        }
    }
}

/// A face is its axis and its end, and nothing else: two faces that agree on both are one face.
pub proof fn lemma_face_is_its_axis_and_end(f: Face, g: Face)
    ensures
        (face_axis(f) == face_axis(g) && face_is_high(f) == face_is_high(g)) <==> f == g,
        face_axis(f) < 3,
{
}


/// The larger of `c` and one: a block has at least one element along every axis.
pub open spec fn at_least_one(c: usize) -> int {
    if c < 1 { 1 } else { c as int }
}

/// Nodes along each axis of a grid of `counts` elements: one more than the elements.
pub open spec fn nodes_of(counts: (usize, usize, usize)) -> (int, int, int) {
    (counts.0 + 1, counts.1 + 1, counts.2 + 1)
}

/// The extent of a grid of `nodes` along axis `a`.
pub open spec fn extent(nodes: (int, int, int), a: nat) -> int {
    if a == 0 {
        nodes.0
    } else if a == 1 {
        nodes.1
    } else {
        nodes.2
    }
}

/// Three displacement components per node.
pub open spec fn dof_count(nodes: (int, int, int)) -> int {
    3 * nodes.0 * nodes.1 * nodes.2
}

/// The node coordinate a face pins along its own axis: zero, or the last node.
pub open spec fn face_fixed(nodes: (int, int, int), face: Face) -> int {
    if face_is_high(face) {
        extent(nodes, face_axis(face)) - 1
    } else {
        0
    }
}

/// How many nodes a face has: the product of the other two extents.
pub open spec fn face_len(nodes: (int, int, int), face: Face) -> int {
    match face {
        Face::XLow | Face::XHigh => nodes.1 * nodes.2,
        Face::YLow | Face::YHigh => nodes.0 * nodes.2,
        Face::ZLow | Face::ZHigh => nodes.0 * nodes.1,
    }
}

/// The `t`-th node of a face, walking the face with x fastest, then y, then z — the order of
/// a walk over the whole grid that keeps only the face's nodes.
pub open spec fn face_node(nodes: (int, int, int), face: Face, t: int) -> (int, int, int) {
    let fixed = face_fixed(nodes, face);
    match face {
        Face::XLow | Face::XHigh => (fixed, t % nodes.1, t / nodes.1),
        Face::YLow | Face::YHigh => (t % nodes.0, fixed, t / nodes.0),
        Face::ZLow | Face::ZHigh => (t % nodes.0, t / nodes.0, fixed),
    }
}

/// Where the `t`-th node of a face sits in a node array.
pub open spec fn face_node_index(nodes: (int, int, int), face: Face, t: int) -> int {
    let n = face_node(nodes, face, t);
    index3(nodes.0, nodes.1, n.0, n.1, n.2)
}

/// The `t`-th degree of freedom of a face: the three components of each of its nodes in turn.
pub open spec fn face_dof(nodes: (int, int, int), face: Face, t: int) -> int {
    3 * face_node_index(nodes, face, t / 3) + t % 3
}

/// The `t`-th degree of freedom a roller holds: the normal component of each face node.
pub open spec fn roller_dof(nodes: (int, int, int), face: Face, t: int) -> int {
    3 * face_node_index(nodes, face, t) + face_axis(face)
}

/// Every degree of freedom a clamp on a face holds, in face order.
pub open spec fn clamp_dofs(nodes: (int, int, int), face: Face) -> Seq<usize> {
    Seq::new((3 * face_len(nodes, face)) as nat, |t: int| face_dof(nodes, face, t) as usize)
}

/// Every degree of freedom a roller on a face holds, in face order.
pub open spec fn roller_dofs(nodes: (int, int, int), face: Face) -> Seq<usize> {
    Seq::new(face_len(nodes, face) as nat, |t: int| roller_dof(nodes, face, t) as usize)
}

/// The three degrees of freedom of node `n`.
pub open spec fn pin_dofs(n: int) -> Seq<usize> {
    seq![(3 * n) as usize, (3 * n + 1) as usize, (3 * n + 2) as usize]
}

/// Whether node `p` lies on the plane of a face of a grid of `nodes`: the first plane of the
/// face's axis for a low face, the last for a high one.
pub open spec fn on_face_plane(nodes: (int, int, int), face: Face, p: (int, int, int)) -> bool {
    match face {
        Face::XLow => p.0 == 0,
        Face::XHigh => p.0 == nodes.0 - 1,
        Face::YLow => p.1 == 0,
        Face::YHigh => p.1 == nodes.1 - 1,
        Face::ZLow => p.2 == 0,
        Face::ZHigh => p.2 == nodes.2 - 1,
    }
}

/// A face lists exactly the grid's nodes on its plane: each node it lists lies there, and
/// every node of the grid that lies there is listed.
pub proof fn lemma_a_face_lists_exactly_its_plane(nodes: (int, int, int), face: Face, q: (int, int, int), t: int)
    requires
        nodes.0 >= 1,
        nodes.1 >= 1,
        nodes.2 >= 1,
    ensures
        0 <= t < face_len(nodes, face) ==> in_grid(nodes, face_node(nodes, face, t)) && on_face_plane(
            nodes,
            face,
            face_node(nodes, face, t),
        ),
        in_grid(nodes, q) && on_face_plane(nodes, face, q) ==> exists|s: int|
            0 <= s < face_len(nodes, face) && #[trigger] face_node(nodes, face, s) == q,
{
    if 0 <= t < face_len(nodes, face) {
        lemma_face_node_in_grid(nodes, face, t);
    }
    if in_grid(nodes, q) && on_face_plane(nodes, face, q) {
        let (u, v, w) = match face {
            Face::XLow | Face::XHigh => (q.1, q.2, nodes.1),
            Face::YLow | Face::YHigh => (q.0, q.2, nodes.0),
            Face::ZLow | Face::ZHigh => (q.0, q.1, nodes.0),
        };
        let s = v * w + u;
        lemma_fundamental_div_mod_converse(s, w, v, u);
        let other = match face {
            Face::XLow | Face::XHigh => nodes.2,
            Face::YLow | Face::YHigh => nodes.2,
            Face::ZLow | Face::ZHigh => nodes.1,
        };
        assert(0 <= s < w * other) by (nonlinear_arith)
            requires
                s == v * w + u,
                0 <= u < w,
                0 <= v < other,
        ;
        assert(face_len(nodes, face) == w * other);
        assert(face_node(nodes, face, s) == q);
    }
}

/// Every node a face lists lies inside the grid.
pub proof fn lemma_face_node_in_grid(nodes: (int, int, int), face: Face, t: int)
    requires
        nodes.0 >= 1,
        nodes.1 >= 1,
        nodes.2 >= 1,
        0 <= t < face_len(nodes, face),
    ensures
        0 <= face_node(nodes, face, t).0 < nodes.0,
        0 <= face_node(nodes, face, t).1 < nodes.1,
        0 <= face_node(nodes, face, t).2 < nodes.2,
{
    match face {
        Face::XLow | Face::XHigh => {
            lemma_mod_pos_bound(t, nodes.1);
            lemma_div_pos_is_pos(t, nodes.1);
            lemma_multiply_divide_lt(t, nodes.1, nodes.2);
        },
        Face::YLow | Face::YHigh => {
            lemma_mod_pos_bound(t, nodes.0);
            lemma_div_pos_is_pos(t, nodes.0);
            lemma_multiply_divide_lt(t, nodes.0, nodes.2);
        },
        Face::ZLow | Face::ZHigh => {
            lemma_mod_pos_bound(t, nodes.0);
            lemma_div_pos_is_pos(t, nodes.0);
            lemma_multiply_divide_lt(t, nodes.0, nodes.1);
        },
    }
}

/// Whether a node coordinate lies inside a grid of `nodes`.
pub open spec fn in_grid(nodes: (int, int, int), p: (int, int, int)) -> bool {
    &&& 0 <= p.0 < nodes.0
    &&& 0 <= p.1 < nodes.1
    &&& 0 <= p.2 < nodes.2
}

/// The three degrees of freedom of each node of `ps`, node after node.
pub open spec fn node_dofs(nodes: (int, int, int), ps: Seq<(int, int, int)>) -> Seq<usize> {
    Seq::new(
        3 * ps.len(),
        |t: int| (3 * index3(nodes.0, nodes.1, ps[t / 3].0, ps[t / 3].1, ps[t / 3].2) + t % 3) as usize,
    )
}

/// The node at position `n` of a node array, x fastest.
pub open spec fn node_at(nodes: (int, int, int), n: int) -> (int, int, int) {
    (n % nodes.0, (n / nodes.0) % nodes.1, (n / nodes.0) / nodes.1)
}

/// Whether a node is on the outer surface of the grid.
pub open spec fn on_surface(nodes: (int, int, int), p: (int, int, int)) -> bool {
    p.0 == 0 || p.1 == 0 || p.2 == 0 || p.0 + 1 == nodes.0 || p.1 + 1 == nodes.1 || p.2 + 1
        == nodes.2
}

/// Every node of the grid, in array order.
pub open spec fn all_nodes(nodes: (int, int, int)) -> Seq<(int, int, int)> {
    Seq::new((nodes.0 * nodes.1 * nodes.2) as nat, |n: int| node_at(nodes, n))
}

/// The nodes of the outer surface, in array order.
pub open spec fn surface_nodes(nodes: (int, int, int)) -> Seq<(int, int, int)> {
    all_nodes(nodes).filter(|p: (int, int, int)| on_surface(nodes, p))
}

/// The `t`-th node a uniform traction on a face loads: four per face element (its corners,
/// `(0,0)`, `(1,0)`, `(0,1)`, `(1,1)` in the face's own two axes), elements walked with the
/// face's first axis fastest.
pub open spec fn traction_node(nodes: (int, int, int), face: Face, t: int) -> (int, int, int) {
    let fixed = face_fixed(nodes, face);
    let (e, c) = (t / 4, t % 4);
    let (da, db) = (c % 2, c / 2);
    match face {
        Face::XLow | Face::XHigh => (fixed, e % (nodes.1 - 1) + da, e / (nodes.1 - 1) + db),
        Face::YLow | Face::YHigh => (e % (nodes.0 - 1) + da, fixed, e / (nodes.0 - 1) + db),
        Face::ZLow | Face::ZHigh => (e % (nodes.0 - 1) + da, e / (nodes.0 - 1) + db, fixed),
    }
}

/// How many elements a face has.
pub open spec fn face_elements(nodes: (int, int, int), face: Face) -> int {
    match face {
        Face::XLow | Face::XHigh => (nodes.1 - 1) * (nodes.2 - 1),
        Face::YLow | Face::YHigh => (nodes.0 - 1) * (nodes.2 - 1),
        Face::ZLow | Face::ZHigh => (nodes.0 - 1) * (nodes.1 - 1),
    }
}

/// The degrees of freedom that are not held.
pub open spec fn free_count(held: Seq<bool>) -> nat {
    held.filter(|h: bool| !h).len()
}

/// A traction on a face loads only that face: every node it visits lies in the grid, on the
/// face's own plane — the first plane of the axis for a low face, the last for a high one.
pub proof fn lemma_a_traction_loads_only_its_face(nodes: (int, int, int), face: Face, t: int)
    requires
        nodes.0 >= 2,
        nodes.1 >= 2,
        nodes.2 >= 2,
        0 <= t < 4 * face_elements(nodes, face),
    ensures
        in_grid(nodes, traction_node(nodes, face, t)),
        on_face_plane(nodes, face, traction_node(nodes, face, t)),
{
    let (ea, eb) = match face {
        Face::XLow | Face::XHigh => (nodes.1 - 1, nodes.2 - 1),
        Face::YLow | Face::YHigh => (nodes.0 - 1, nodes.2 - 1),
        Face::ZLow | Face::ZHigh => (nodes.0 - 1, nodes.1 - 1),
    };
    let e = t / 4;
    lemma_div_pos_is_pos(t, 4);
    lemma_multiply_divide_lt(t, 4, ea * eb);
    lemma_mod_pos_bound(t, 4);
    lemma_mod_pos_bound(e, ea);
    lemma_div_pos_is_pos(e, ea);
    lemma_multiply_divide_lt(e, ea, eb);
    assert(4 * face_elements(nodes, face) == 4 * (ea * eb));
}

/// Position `n` of a node array names a node inside the grid, and that node's index is `n`.
pub proof fn lemma_node_at_in_grid(nodes: (int, int, int), n: int)
    requires
        nodes.0 >= 1,
        nodes.1 >= 1,
        nodes.2 >= 1,
        0 <= n < nodes.0 * nodes.1 * nodes.2,
    ensures
        in_grid(nodes, node_at(nodes, n)),
        index3(nodes.0, nodes.1, node_at(nodes, n).0, node_at(nodes, n).1, node_at(nodes, n).2)
            == n,
{
    let (nx, ny, nz) = nodes;
    assert(nx * ny * nz == nx * (ny * nz)) by (nonlinear_arith);
    lemma_mod_pos_bound(n, nx);
    lemma_div_pos_is_pos(n, nx);
    lemma_multiply_divide_lt(n, nx, ny * nz);
    let q = n / nx;
    lemma_mod_pos_bound(q, ny);
    lemma_div_pos_is_pos(q, ny);
    lemma_multiply_divide_lt(q, ny, nz);
    lemma_fundamental_div_mod(n, nx);
    lemma_fundamental_div_mod(q, ny);
}

/// A usize triple read as integers.
pub open spec fn as_ints(p: (usize, usize, usize)) -> (int, int, int) {
    (p.0 as int, p.1 as int, p.2 as int)
}

/// A rectangular block on a grid of cubic elements, as far as which displacement components
/// are held: the topology a solver of the elastic problem works on.
///
/// Displacements live at the nodes — the corners — so `(nx, ny, nz)` elements have
/// `(nx+1, ny+1, nz+1)` nodes and three components at each.
pub struct Block {
    name: String,
    counts: (usize, usize, usize),
    nodes: (usize, usize, usize),
    held: Vec<bool>,
}

impl Block {
    #[verifier::type_invariant]
    closed spec fn shape_holds(self) -> bool {
        &&& self.counts.0 >= 1
        &&& self.counts.1 >= 1
        &&& self.counts.2 >= 1
        &&& self.nodes.0 == self.counts.0 + 1
        &&& self.nodes.1 == self.counts.1 + 1
        &&& self.nodes.2 == self.counts.2 + 1
        &&& self.held@.len() == dof_count(nodes_of(self.counts))
        &&& dof_count(nodes_of(self.counts)) <= usize::MAX
    }

    /// Elements along each axis.
    pub closed spec fn elements_spec(&self) -> (usize, usize, usize) {
        self.counts
    }

    /// Whether each degree of freedom — three per node, node-major — is held.
    pub closed spec fn held_spec(&self) -> Seq<bool> {
        self.held@
    }

    /// What the block is called.
    pub closed spec fn name_spec(&self) -> Seq<char> {
        self.name@
    }

    /// A block of `counts` elements, each count raised to at least one. Nothing is held.
    pub fn new(name: String, counts: (usize, usize, usize)) -> (b: Block)
        requires
            counts.0 < usize::MAX,
            counts.1 < usize::MAX,
            counts.2 < usize::MAX,
            3 * (at_least_one(counts.0) + 1) * (at_least_one(counts.1) + 1) * (at_least_one(
                counts.2,
            ) + 1) <= usize::MAX,
        ensures
            b.elements_spec() == (
                at_least_one(counts.0) as usize,
                at_least_one(counts.1) as usize,
                at_least_one(counts.2) as usize,
            ),
            b.held_spec().len() == dof_count(nodes_of(b.elements_spec())),
            forall|d: int| 0 <= d < b.held_spec().len() ==> !b.held_spec()[d],
            b.name_spec() == name@,
    {
        let counts = (
            if counts.0 < 1 { 1 } else { counts.0 },
            if counts.1 < 1 { 1 } else { counts.1 },
            if counts.2 < 1 { 1 } else { counts.2 },
        );
        let nodes = (counts.0 + 1, counts.1 + 1, counts.2 + 1);
        proof {
            lemma_product_parts(nodes.0 as int, nodes.1 as int, nodes.2 as int);
        }
        let n = 3 * nodes.0 * nodes.1 * nodes.2;
        let mut held: Vec<bool> = Vec::new();
        for _d in 0..n
            invariant
                held@.len() == _d,
                forall|d: int| 0 <= d < held@.len() ==> !held@[d],
        {
            held.push(false);
        }
        Block { name, counts, nodes, held }
    }

    /// Elements along each axis.
    pub fn elements(&self) -> (c: (usize, usize, usize))
        ensures
            c == self.elements_spec(),
            c.0 >= 1 && c.1 >= 1 && c.2 >= 1,
            self.held_spec().len() == dof_count(nodes_of(c)),
            dof_count(nodes_of(c)) <= usize::MAX,
    {
        proof {
            use_type_invariant(self);
        }
        self.counts
    }

    /// Nodes along each axis, one more than the elements.
    pub fn node_counts(&self) -> (n: (usize, usize, usize))
        ensures
            as_ints(n) == nodes_of(self.elements_spec()),
    {
        proof {
            use_type_invariant(self);
        }
        self.nodes
    }

    /// What the block is called.
    pub fn name(&self) -> (s: &str)
        ensures
            s@ == self.name_spec(),
    {
        self.name.as_str()
    }

    /// Where node `(i, j, k)` sits in a node array, x fastest.
    pub fn node(&self, i: usize, j: usize, k: usize) -> (n: usize)
        requires
            (i as int) < nodes_of(self.elements_spec()).0,
            (j as int) < nodes_of(self.elements_spec()).1,
            (k as int) < nodes_of(self.elements_spec()).2,
        ensures
            n == index3(nodes_of(self.elements_spec()).0, nodes_of(self.elements_spec()).1, i as int, j as int, k as int),
            3 * n + 2 < dof_count(nodes_of(self.elements_spec())),
    {
        proof {
            use_type_invariant(self);
            let (nx, ny, nz) = (self.nodes.0 as int, self.nodes.1 as int, self.nodes.2 as int);
            lemma_product_parts(nx, ny, nz);
            assert(dof_count(nodes_of(self.counts)) == 3 * nx * ny * nz);
        }
        let n = node_index(self.nodes, i, j, k);
        proof {
            let (nx, ny, nz) = (self.nodes.0 as int, self.nodes.1 as int, self.nodes.2 as int);
            assert(3 * n + 2 < 3 * nx * ny * nz) by (nonlinear_arith)
                requires
                    n < nx * ny * nz,
            ;
        }
        n
    }

    /// Node `(i, j, k)` with each coordinate brought inside the grid first.
    pub fn clamped_node(&self, i: usize, j: usize, k: usize) -> (n: usize)
        ensures
            n == index3(
                nodes_of(self.elements_spec()).0,
                nodes_of(self.elements_spec()).1,
                if i < self.elements_spec().0 { i as int } else { self.elements_spec().0 as int },
                if j < self.elements_spec().1 { j as int } else { self.elements_spec().1 as int },
                if k < self.elements_spec().2 { k as int } else { self.elements_spec().2 as int },
            ),
            3 * n + 2 < dof_count(nodes_of(self.elements_spec())),
    {
        proof {
            use_type_invariant(self);
            let (nx, ny, nz) = (self.nodes.0 as int, self.nodes.1 as int, self.nodes.2 as int);
            lemma_product_parts(nx, ny, nz);
            assert(dof_count(nodes_of(self.counts)) == 3 * nx * ny * nz);
        }
        let n = clamped_node_index(self.nodes, i, j, k);
        proof {
            let (nx, ny, nz) = (self.nodes.0 as int, self.nodes.1 as int, self.nodes.2 as int);
            assert(3 * n + 2 < 3 * nx * ny * nz) by (nonlinear_arith)
                requires
                    n < nx * ny * nz,
            ;
        }
        n
    }

    /// The nodes on a face, as `(i, j, k)`, x fastest, then y, then z.
    pub fn face_nodes(&self, face: Face) -> (out: Vec<(usize, usize, usize)>)
        ensures
            out@.len() == face_len(nodes_of(self.elements_spec()), face),
            forall|t: int|
                0 <= t < out@.len() ==> #[trigger] as_ints(out@[t]) == face_node(
                    nodes_of(self.elements_spec()),
                    face,
                    t,
                ),
    {
        proof {
            use_type_invariant(self);
        }
        let (nx, ny, nz) = self.nodes;
        let fixed = if face.is_high() {
            match face.axis() {
                0 => nx - 1,
                1 => ny - 1,
                _ => nz - 1,
            }
        } else {
            0
        };
        let ghost nodes = nodes_of(self.counts);
        // The two axes the face spans, slower one outside.
        let (wide, tall) = match face.axis() {
            0 => (ny, nz),
            1 => (nx, nz),
            _ => (nx, ny),
        };
        let mut out: Vec<(usize, usize, usize)> = Vec::new();
        assert(out@.len() == 0 * wide);
        for b in 0..tall
            invariant
                wide > 0,
                tall as int * wide as int == face_len(nodes, face),
                fixed as int == face_fixed(nodes, face),
                nodes == nodes_of(self.counts),
                nodes.0 == nx && nodes.1 == ny && nodes.2 == nz,
                (face_axis(face) == 0 ==> wide == ny && tall == nz),
                (face_axis(face) == 1 ==> wide == nx && tall == nz),
                (face_axis(face) == 2 ==> wide == nx && tall == ny),
                out@.len() == b * wide,
                forall|t: int|
                    0 <= t < out@.len() ==> #[trigger] as_ints(out@[t]) == face_node(nodes, face, t),
        {
            for a in 0..wide
                invariant
                    wide > 0,
                    b < tall,
                    fixed as int == face_fixed(nodes, face),
                    nodes.0 == nx && nodes.1 == ny && nodes.2 == nz,
                    (face_axis(face) == 0 ==> wide == ny && tall == nz),
                    (face_axis(face) == 1 ==> wide == nx && tall == nz),
                    (face_axis(face) == 2 ==> wide == nx && tall == ny),
                    out@.len() == b * wide + a,
                    forall|t: int|
                        0 <= t < out@.len() ==> #[trigger] as_ints(out@[t]) == face_node(nodes, face, t),
            {
                proof {
                    lemma_split_row_major(b * wide + a, wide as int, a as int, b as int);
                }
                let p = match face.axis() {
                    0 => (fixed, a, b),
                    1 => (a, fixed, b),
                    _ => (a, b, fixed),
                };
                out.push(p);
            }
            proof {
                lemma_next_row(b as int, wide as int);
            }
        }
        out
    }


    /// The three degrees of freedom of each listed node, node after node.
    fn dofs_of(&self, ps: &Vec<(usize, usize, usize)>) -> (dofs: Vec<usize>)
        requires
            forall|t: int|
                0 <= t < ps@.len() ==> in_grid(nodes_of(self.elements_spec()), #[trigger] as_ints(ps@[t])),
        ensures
            dofs@ == node_dofs(nodes_of(self.elements_spec()), ps@.map_values(|p: (usize, usize, usize)| as_ints(p))),
    {
        proof {
            use_type_invariant(self);
        }
        let ghost nodes = nodes_of(self.counts);
        let ghost want = node_dofs(nodes, ps@.map_values(|p: (usize, usize, usize)| as_ints(p)));
        let mut dofs: Vec<usize> = Vec::new();
        for t in 0..ps.len()
            invariant
                nodes == nodes_of(self.elements_spec()),
                want == node_dofs(nodes, ps@.map_values(|p: (usize, usize, usize)| as_ints(p))),
                want.len() == 3 * ps@.len(),
                forall|s: int|
                    0 <= s < ps@.len() ==> in_grid(nodes, #[trigger] as_ints(ps@[s])),
                dofs@.len() == 3 * t,
                forall|s: int| 0 <= s < dofs@.len() ==> dofs@[s] == want[s],
                dof_count(nodes) <= usize::MAX,
        {
            let (i, j, k) = ps[t];
            assert(in_grid(nodes, as_ints(ps@[t as int])));
            let n = self.node(i, j, k);
            for a in 0..3usize
                invariant
                    nodes == nodes_of(self.elements_spec()),
                    want == node_dofs(nodes, ps@.map_values(|p: (usize, usize, usize)| as_ints(p))),
                    want.len() == 3 * ps@.len(),
                    t < ps@.len(),
                    as_ints(ps@[t as int]) == (i as int, j as int, k as int),
                    n == index3(nodes.0, nodes.1, i as int, j as int, k as int),
                    3 * n + 2 < dof_count(nodes),
                    dof_count(nodes) <= usize::MAX,
                    dofs@.len() == 3 * t + a,
                    forall|s: int| 0 <= s < dofs@.len() ==> dofs@[s] == want[s],
            {
                proof {
                    lemma_split_row_major(3 * t + a, 3, a as int, t as int);
                }
                dofs.push(3 * n + a);
            }
        }
        assert(dofs@ =~= want);
        dofs
    }

    /// Hold every listed degree of freedom.
    fn hold_all(&mut self, dofs: &Vec<usize>)
        requires
            forall|t: int| 0 <= t < dofs@.len() ==> (#[trigger] dofs@[t] as int) < old(self).held_spec().len(),
        ensures
            final(self).elements_spec() == old(self).elements_spec(),
            final(self).name_spec() == old(self).name_spec(),
            final(self).held_spec() == raised(old(self).held_spec(), dofs@),
    {
        proof {
            use_type_invariant(&*self);
        }
        let held = raise_all(&self.held, dofs);
        self.held = held;
    }

    /// Hold every component of every node on a face — a bond, not a bearing.
    pub fn clamp(&mut self, face: Face)
        ensures
            final(self).elements_spec() == old(self).elements_spec(),
            final(self).name_spec() == old(self).name_spec(),
            final(self).held_spec() == raised(
                old(self).held_spec(),
                clamp_dofs(nodes_of(old(self).elements_spec()), face),
            ),
    {
        proof {
            use_type_invariant(&*self);
        }
        let ghost nodes = nodes_of(self.counts);
        let fnodes = self.face_nodes(face);
        assert forall|t: int| 0 <= t < fnodes@.len() implies in_grid(nodes, #[trigger] as_ints(fnodes@[t])) by {
            lemma_face_node_in_grid(nodes, face, t);
        }
        let dofs = self.dofs_of(&fnodes);
        assert forall|t: int| 0 <= t < dofs@.len() implies (#[trigger] dofs@[t] as int) < self.held@.len()
            && dofs@[t] == face_dof(nodes, face, t) by {
            assert(0 <= t / 3 < fnodes@.len()) by {
                lemma_div_pos_is_pos(t, 3);
                lemma_multiply_divide_lt(t, 3, fnodes@.len() as int);
            }
            lemma_face_node_in_grid(nodes, face, t / 3);
            let p = face_node(nodes, face, t / 3);
            assert(as_ints(fnodes@[t / 3]) == p);
            lemma_index3_parts(nodes.0, nodes.1, nodes.2, p.0, p.1, p.2);
            lemma_mod_pos_bound(t, 3);
        }
        assert(dofs@ =~= clamp_dofs(nodes, face));
        self.hold_all(&dofs);
    }

    /// Hold only the component normal to a face, leaving it free to slide in the other two —
    /// a roller, or a symmetry plane.
    pub fn roller(&mut self, face: Face)
        ensures
            final(self).elements_spec() == old(self).elements_spec(),
            final(self).name_spec() == old(self).name_spec(),
            final(self).held_spec() == raised(
                old(self).held_spec(),
                roller_dofs(nodes_of(old(self).elements_spec()), face),
            ),
    {
        proof {
            use_type_invariant(&*self);
        }
        let ghost nodes = nodes_of(self.counts);
        let axis = face.axis();
        let fnodes = self.face_nodes(face);
        let mut dofs: Vec<usize> = Vec::new();
        for t in 0..fnodes.len()
            invariant
                nodes == nodes_of(self.elements_spec()),
                axis == face_axis(face),
                fnodes@.len() == face_len(nodes, face),
                forall|s: int|
                    0 <= s < fnodes@.len() ==> #[trigger] as_ints(fnodes@[s]) == face_node(nodes, face, s),
                dofs@.len() == t,
                dof_count(nodes) <= usize::MAX,
                forall|s: int|
                    0 <= s < dofs@.len() ==> #[trigger] dofs@[s] == roller_dof(nodes, face, s)
                        && (dofs@[s] as int) < dof_count(nodes),
        {
            proof {
                lemma_face_node_in_grid(nodes, face, t as int);
                assert(as_ints(fnodes@[t as int]) == face_node(nodes, face, t as int));
            }
            let (i, j, k) = fnodes[t];
            let n = self.node(i, j, k);
            dofs.push(3 * n + axis);
        }
        assert(dofs@ =~= roller_dofs(nodes, face));
        self.hold_all(&dofs);
    }

    /// Hold one node completely, each coordinate first brought inside the grid.
    pub fn pin(&mut self, i: usize, j: usize, k: usize)
        ensures
            final(self).elements_spec() == old(self).elements_spec(),
            final(self).name_spec() == old(self).name_spec(),
            ({
                let c = old(self).elements_spec();
                let nodes = nodes_of(c);
                let n = index3(
                    nodes.0,
                    nodes.1,
                    if i < c.0 { i as int } else { c.0 as int },
                    if j < c.1 { j as int } else { c.1 as int },
                    if k < c.2 { k as int } else { c.2 as int },
                );
                final(self).held_spec() == raised(old(self).held_spec(), pin_dofs(n))
            }),
    {
        proof {
            use_type_invariant(&*self);
        }
        let n = self.clamped_node(i, j, k);
        let mut dofs: Vec<usize> = Vec::new();
        dofs.push(3 * n);
        dofs.push(3 * n + 1);
        dofs.push(3 * n + 2);
        assert(dofs@ =~= pin_dofs(n as int));
        self.hold_all(&dofs);
    }

    /// Hold every node on the outer surface — the patch test, whose prescribed displacement
    /// is a value of the field at each of those nodes.
    pub fn prescribe_boundary(&mut self)
        ensures
            final(self).elements_spec() == old(self).elements_spec(),
            final(self).name_spec() == old(self).name_spec(),
            final(self).held_spec() == raised(
                old(self).held_spec(),
                node_dofs(nodes_of(old(self).elements_spec()), surface_nodes(nodes_of(old(self).elements_spec()))),
            ),
    {
        proof {
            use_type_invariant(&*self);
        }
        let ghost nodes = nodes_of(self.counts);
        let (nx, ny, nz) = self.nodes;
        proof {
            lemma_product_parts(nx as int, ny as int, nz as int);
        }
        let total = nx * ny * nz;
        let ghost pred = |p: (int, int, int)| on_surface(nodes, p);
        let mut out: Vec<(usize, usize, usize)> = Vec::new();
        proof {
            reveal_with_fuel(Seq::filter, 1);
            assert(all_nodes(nodes).take(0) =~= Seq::<(int, int, int)>::empty());
            assert(out@.map_values(|p: (usize, usize, usize)| as_ints(p)) =~= all_nodes(nodes).take(0).filter(pred));
        }
        for n in 0..total
            invariant
                nodes == nodes_of(self.elements_spec()),
                nodes.0 == nx && nodes.1 == ny && nodes.2 == nz,
                nx >= 1 && ny >= 1 && nz >= 1,
                total == nx * ny * nz,
                pred == (|p: (int, int, int)| on_surface(nodes, p)),
                out@.map_values(|p: (usize, usize, usize)| as_ints(p)) == all_nodes(nodes).take(n as int).filter(pred),
                forall|s: int| 0 <= s < out@.len() ==> in_grid(nodes, #[trigger] as_ints(out@[s])),
        {
            let i = n % nx;
            let q = n / nx;
            let j = q % ny;
            let k = q / ny;
            proof {
                lemma_node_at_in_grid(nodes, n as int);
                reveal_with_fuel(Seq::filter, 1);
                assert(all_nodes(nodes).take(n + 1).drop_last() =~= all_nodes(nodes).take(n as int));
                assert(all_nodes(nodes).take(n + 1).last() == node_at(nodes, n as int));
            }
            if i == 0 || j == 0 || k == 0 || i + 1 == nx || j + 1 == ny || k + 1 == nz {
                let ghost before = out@;
                out.push((i, j, k));
                assert(out@.map_values(|p: (usize, usize, usize)| as_ints(p)) =~= before.map_values(
                    |p: (usize, usize, usize)| as_ints(p),
                ).push(node_at(nodes, n as int)));
            }
        }
        proof {
            assert(all_nodes(nodes).take(total as int) =~= all_nodes(nodes));
            assert(surface_nodes(nodes) =~= all_nodes(nodes).filter(pred));
        }
        let dofs = self.dofs_of(&out);
        assert forall|t: int| 0 <= t < dofs@.len() implies (#[trigger] dofs@[t] as int) < self.held@.len() by {
            assert(0 <= t / 3 < out@.len()) by {
                lemma_div_pos_is_pos(t, 3);
                lemma_multiply_divide_lt(t, 3, out@.len() as int);
            }
            let p = as_ints(out@[t / 3]);
            assert(in_grid(nodes, p));
            lemma_index3_parts(nodes.0, nodes.1, nodes.2, p.0, p.1, p.2);
            lemma_mod_pos_bound(t, 3);
        }
        self.hold_all(&dofs);
    }


    /// Where a uniform traction on a face goes: for each face element, its four corner nodes in
    /// turn, each due a quarter of the element's area. A node shared by four face elements is
    /// listed four times and a corner node once — consistent nodal loads, not equal shares.
    pub fn traction_nodes(&self, face: Face) -> (visits: Vec<usize>)
        ensures
            visits@.len() == 4 * face_elements(nodes_of(self.elements_spec()), face),
            forall|t: int|
                0 <= t < visits@.len() ==> {
                    let p = #[trigger] traction_node(nodes_of(self.elements_spec()), face, t);
                    &&& in_grid(nodes_of(self.elements_spec()), p)
                    &&& visits@[t] == index3(
                        nodes_of(self.elements_spec()).0,
                        nodes_of(self.elements_spec()).1,
                        p.0,
                        p.1,
                        p.2,
                    )
                },
    {
        proof {
            use_type_invariant(self);
        }
        let ghost nodes = nodes_of(self.counts);
        let (cx, cy, cz) = self.counts;
        let high = face.is_high();
        let axis = face.axis();
        let (ea, eb) = match axis {
            0 => (cy, cz),
            1 => (cx, cz),
            _ => (cx, cy),
        };
        proof {
            lemma_product_parts(ea as int, eb as int, 4);
            assert(4 * (ea * eb) == ea * eb * 4) by (nonlinear_arith);
            lemma_product_parts(cx as int, cy as int, cz as int);
            lemma_product_parts(cx as int, cz as int, cy as int);
            lemma_product_parts(nodes.0, nodes.1, nodes.2);
            assert(dof_count(nodes) == 3 * nodes.0 * nodes.1 * nodes.2);
            assert(cx * cy <= nodes.0 * nodes.1 && cx * cz <= nodes.0 * nodes.2 && cy * cz <= nodes.1 * nodes.2) by (nonlinear_arith)
                requires
                    nodes.0 == cx + 1,
                    nodes.1 == cy + 1,
                    nodes.2 == cz + 1,
                    cx >= 1 && cy >= 1 && cz >= 1,
            ;
            assert(nodes.1 * nodes.2 <= nodes.0 * nodes.1 * nodes.2 && nodes.0 * nodes.2 <= nodes.0 * nodes.1 * nodes.2) by (nonlinear_arith)
                requires
                    nodes.0 >= 1,
                    nodes.1 >= 1,
                    nodes.2 >= 1,
            ;
        }
        proof {
            assert(4 * ea * eb == 4 * (ea * eb)) by (nonlinear_arith);
            assert(4 * (ea * eb) <= 3 * (ea + 1) * (eb + 1) * 2) by (nonlinear_arith)
                requires
                    ea >= 1,
                    eb >= 1,
            ;
            let other = if axis == 0 { cx } else if axis == 1 { cy } else { cz };
            assert(3 * (ea + 1) * (eb + 1) * 2 <= 3 * (ea + 1) * (eb + 1) * (other + 1)) by (nonlinear_arith)
                requires
                    ea >= 1,
                    eb >= 1,
                    other >= 1,
            ;
            assert(3 * (ea + 1) * (eb + 1) * (other + 1) == dof_count(nodes)) by (nonlinear_arith)
                requires
                    nodes == (cx + 1, cy + 1, cz + 1),
                    (axis == 0 ==> ea == cy && eb == cz && other == cx),
                    (axis == 1 ==> ea == cx && eb == cz && other == cy),
                    (axis == 2 ==> ea == cx && eb == cy && other == cz),
                    axis < 3,
            ;
        }
        let mut visits: Vec<usize> = Vec::new();
        assert(visits@.len() == 4 * (0 * ea));
        for b in 0..eb
            invariant
                nodes == nodes_of(self.elements_spec()),
                nodes == (cx + 1, cy + 1, cz + 1),
                (cx, cy, cz) == self.elements_spec(),
                cx >= 1 && cy >= 1 && cz >= 1,
                high == face_is_high(face),
                axis == face_axis(face),
                (axis == 0 ==> ea == cy && eb == cz),
                (axis == 1 ==> ea == cx && eb == cz),
                (axis == 2 ==> ea == cx && eb == cy),
                4 * ea * eb <= usize::MAX,
                4 * ea * eb == 4 * face_elements(nodes, face),
                dof_count(nodes) <= usize::MAX,
                visits@.len() == 4 * (b * ea),
                forall|t: int|
                    0 <= t < visits@.len() ==> {
                        let p = #[trigger] traction_node(nodes, face, t);
                        &&& in_grid(nodes, p)
                        &&& visits@[t] == index3(nodes.0, nodes.1, p.0, p.1, p.2)
                    },
        {
            for a in 0..ea
                invariant
                    nodes == nodes_of(self.elements_spec()),
                    nodes == (cx + 1, cy + 1, cz + 1),
                    (cx, cy, cz) == self.elements_spec(),
                    cx >= 1 && cy >= 1 && cz >= 1,
                    high == face_is_high(face),
                    axis == face_axis(face),
                    (axis == 0 ==> ea == cy && eb == cz),
                    (axis == 1 ==> ea == cx && eb == cz),
                    (axis == 2 ==> ea == cx && eb == cy),
                    b < eb,
                    dof_count(nodes) <= usize::MAX,
                    visits@.len() == 4 * (b * ea + a),
                    forall|t: int|
                        0 <= t < visits@.len() ==> {
                            let p = #[trigger] traction_node(nodes, face, t);
                            &&& in_grid(nodes, p)
                            &&& visits@[t] == index3(nodes.0, nodes.1, p.0, p.1, p.2)
                        },
            {
                for c in 0..4usize
                    invariant
                        nodes == nodes_of(self.elements_spec()),
                        nodes == (cx + 1, cy + 1, cz + 1),
                        (cx, cy, cz) == self.elements_spec(),
                        cx >= 1 && cy >= 1 && cz >= 1,
                        high == face_is_high(face),
                        axis == face_axis(face),
                        (axis == 0 ==> ea == cy && eb == cz),
                        (axis == 1 ==> ea == cx && eb == cz),
                        (axis == 2 ==> ea == cx && eb == cy),
                        b < eb,
                        a < ea,
                        dof_count(nodes) <= usize::MAX,
                        visits@.len() == 4 * (b * ea + a) + c,
                        forall|t: int|
                            0 <= t < visits@.len() ==> {
                                let p = #[trigger] traction_node(nodes, face, t);
                                &&& in_grid(nodes, p)
                                &&& visits@[t] == index3(nodes.0, nodes.1, p.0, p.1, p.2)
                            },
                {
                    let (da, db) = (c % 2, c / 2);
                    let (i, j, k) = match axis {
                        0 => (if high { cx } else { 0 }, a + da, b + db),
                        1 => (a + da, if high { cy } else { 0 }, b + db),
                        _ => (a + da, b + db, if high { cz } else { 0 }),
                    };
                    proof {
                        let t = 4 * (b * ea + a) + c;
                        lemma_split_row_major(t, 4, c as int, b * ea + a);
                        lemma_split_row_major(b * ea + a, ea as int, a as int, b as int);
                        assert(traction_node(nodes, face, t) == (i as int, j as int, k as int));
                    }
                    let n = self.node(i, j, k);
                    visits.push(n);
                }
            }
            proof {
                lemma_next_row(b as int, ea as int);
            }
        }
        assert(4 * (eb * ea) == 4 * ea * eb) by (nonlinear_arith);
        visits
    }

    /// How many degrees of freedom are free to move.
    pub fn free_dofs(&self) -> (n: usize)
        ensures
            n == free_count(self.held_spec()),
    {
        let mut count: usize = 0;
        for d in 0..self.held.len()
            invariant
                count == self.held@.take(d as int).filter(|h: bool| !h).len(),
                count <= d,
        {
            proof {
                reveal_with_fuel(Seq::filter, 1);
                assert(self.held@.take(d + 1).drop_last() =~= self.held@.take(d as int));
                self.held@.take(d as int).lemma_filter_len(|h: bool| !h);
            }
            if !self.held[d] {
                count += 1;
            }
        }
        assert(self.held@.take(self.held@.len() as int) =~= self.held@);
        count
    }
}

} // verus!
