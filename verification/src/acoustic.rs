//! The staggered grids the acoustic solvers march on: pressure at nodes, velocity on the faces
//! between neighbouring nodes, and rigid walls where a node has no neighbour — so a face that
//! would lie outside the room does not exist and passes no velocity.

use vstd::prelude::*;

use crate::axis::{axis_index, Axis};
use crate::grid::{clamped_node_index, index3, lemma_index3_bound, lemma_index3_parts, lemma_product_parts, node_index};

verus! {

/// How many faces a grid of `nodes` has along each axis for velocity along axis `a`: one fewer
/// than the nodes along `a`, as many as the nodes along the other two.
pub open spec fn face_extent(nodes: (int, int, int), a: nat) -> (int, int, int) {
    if a == 0 {
        (nodes.0 - 1, nodes.1, nodes.2)
    } else if a == 1 {
        (nodes.0, nodes.1 - 1, nodes.2)
    } else {
        (nodes.0, nodes.1, nodes.2 - 1)
    }
}

/// How many faces carry velocity along axis `a`.
pub open spec fn face_total(nodes: (int, int, int), a: nat) -> int {
    let e = face_extent(nodes, a);
    e.0 * e.1 * e.2
}

/// The face between node `p` and its neighbour one step along axis `a`, in that axis's face
/// array, x fastest.
pub open spec fn face_between(nodes: (int, int, int), a: nat, p: (int, int, int)) -> int {
    let e = face_extent(nodes, a);
    index3(e.0, e.1, p.0, p.1, p.2)
}

/// Coordinate `a` of `p`.
pub open spec fn coord(p: (int, int, int), a: nat) -> int {
    if a == 0 {
        p.0
    } else if a == 1 {
        p.1
    } else {
        p.2
    }
}

/// `p` moved one step down axis `a`.
pub open spec fn step_down(p: (int, int, int), a: nat) -> (int, int, int) {
    if a == 0 {
        (p.0 - 1, p.1, p.2)
    } else if a == 1 {
        (p.0, p.1 - 1, p.2)
    } else {
        (p.0, p.1, p.2 - 1)
    }
}

/// The faces around node `p`, low then high along x, y and z: each the face to the neighbour
/// on that side, or none where the node sits on a rigid wall and has no neighbour there.
pub open spec fn faces_around(nodes: (int, int, int), p: (int, int, int)) -> Seq<Option<int>> {
    Seq::new(
        6,
        |s: int|
            {
                let a = (s / 2) as nat;
                if s % 2 == 0 {
                    if coord(p, a) > 0 {
                        Some(face_between(nodes, a, step_down(p, a)))
                    } else {
                        None
                    }
                } else {
                    if coord(p, a) + 1 < coord(nodes, a) {
                        Some(face_between(nodes, a, p))
                    } else {
                        None
                    }
                }
            },
    )
}

/// Whether a coordinate lies on a wall of an axis with `n` nodes: the first or the last node.
pub open spec fn on_wall(k: int, n: int) -> bool {
    k == 0 || k + 1 == n
}

/// How many of the three axes a node lies on a wall of: none inside, one on a wall, two on an
/// edge, three in a corner. Each halves the control volume the node owns.
pub open spec fn walls_touched(nodes: (int, int, int), p: (int, int, int)) -> int {
    (if on_wall(p.0, nodes.0) { 1int } else { 0int }) + (if on_wall(p.1, nodes.1) { 1int } else { 0int })
        + (if on_wall(p.2, nodes.2) { 1int } else { 0int })
}

/// Whether `p` is a node of the grid.
pub open spec fn node_in(nodes: (int, int, int), p: (int, int, int)) -> bool {
    &&& 0 <= p.0 < nodes.0
    &&& 0 <= p.1 < nodes.1
    &&& 0 <= p.2 < nodes.2
}

/// The node counts as integers.
pub open spec fn ints3(n: (usize, usize, usize)) -> (int, int, int) {
    (n.0 as int, n.1 as int, n.2 as int)
}

/// `c` raised to at least `m`.
pub open spec fn at_least(c: usize, m: int) -> int {
    if (c as int) < m { m } else { c as int }
}

/// A face between two nodes is one face: the high face of a node along an axis is the low face
/// of its neighbour there, so the velocity on it leaves one node exactly as it enters the next —
/// which is why what the scheme moves between nodes adds up to nothing.
pub proof fn lemma_a_face_is_shared(nodes: (int, int, int), p: (int, int, int), a: nat)
    requires
        a < 3,
        node_in(nodes, p),
        coord(p, a) + 1 < coord(nodes, a),
    ensures
        ({
            let q = if a == 0 {
                (p.0 + 1, p.1, p.2)
            } else if a == 1 {
                (p.0, p.1 + 1, p.2)
            } else {
                (p.0, p.1, p.2 + 1)
            };
            &&& node_in(nodes, q)
            &&& faces_around(nodes, p)[(2 * a + 1) as int] == faces_around(nodes, q)[2 * a as int]
            &&& faces_around(nodes, p)[(2 * a + 1) as int] is Some
        }),
{
    assert((2 * a + 1) / 2 == a && (2 * a + 1) % 2 == 1);
    assert((2 * a as int) / 2 == a && (2 * a as int) % 2 == 0);
}

/// How many walls a node touches does not depend on which end of an axis the counting starts
/// from: mirroring the hall along any one axis maps each node to one touching as many walls.
/// A node inside touches none, the corner at the origin touches all three, and stepping a node
/// one plane in from the first plane of an axis (where there is a plane between the walls)
/// takes exactly that axis's wall away.
pub proof fn lemma_walls_touched_is_symmetric(nodes: (int, int, int), p: (int, int, int))
    requires
        nodes.0 >= 1,
        nodes.1 >= 1,
        nodes.2 >= 1,
        node_in(nodes, p),
    ensures
        walls_touched(nodes, p) == walls_touched(nodes, (nodes.0 - 1 - p.0, p.1, p.2)),
        walls_touched(nodes, p) == walls_touched(nodes, (p.0, nodes.1 - 1 - p.1, p.2)),
        walls_touched(nodes, p) == walls_touched(nodes, (p.0, p.1, nodes.2 - 1 - p.2)),
        (0 < p.0 < nodes.0 - 1 && 0 < p.1 < nodes.1 - 1 && 0 < p.2 < nodes.2 - 1) ==> walls_touched(nodes, p) == 0,
        walls_touched(nodes, (0, 0, 0)) == 3,
        (p.0 == 0 && nodes.0 >= 3) ==> walls_touched(nodes, p) == walls_touched(nodes, (1, p.1, p.2)) + 1,
        (p.1 == 0 && nodes.1 >= 3) ==> walls_touched(nodes, p) == walls_touched(nodes, (p.0, 1, p.2)) + 1,
        (p.2 == 0 && nodes.2 >= 3) ==> walls_touched(nodes, p) == walls_touched(nodes, (p.0, p.1, 1)) + 1,
{
}

/// A node has a face on a side exactly where it has a neighbour there: the low face along an
/// axis is missing only on that axis's first plane, the high face only on its last, and each
/// face that exists lies inside the face array of its axis.
pub proof fn lemma_a_face_exists_where_a_neighbour_does(nodes: (int, int, int), p: (int, int, int))
    requires
        nodes.0 >= 1,
        nodes.1 >= 1,
        nodes.2 >= 1,
        node_in(nodes, p),
    ensures
        faces_around(nodes, p)[0] is None <==> p.0 == 0,
        faces_around(nodes, p)[1] is None <==> p.0 == nodes.0 - 1,
        faces_around(nodes, p)[2] is None <==> p.1 == 0,
        faces_around(nodes, p)[3] is None <==> p.1 == nodes.1 - 1,
        faces_around(nodes, p)[4] is None <==> p.2 == 0,
        faces_around(nodes, p)[5] is None <==> p.2 == nodes.2 - 1,
        forall|s: int|
            0 <= s < 6 ==> (#[trigger] faces_around(nodes, p)[s] matches Some(f) ==> 0 <= f < face_total(
                nodes,
                (s / 2) as nat,
            )),
{
    assert forall|s: int| 0 <= s < 6 implies (#[trigger] faces_around(nodes, p)[s] matches Some(f) ==> 0 <= f
        < face_total(nodes, (s / 2) as nat)) by {
        let a = (s / 2) as nat;
        let q = if s % 2 == 0 { step_down(p, a) } else { p };
        let e = face_extent(nodes, a);
        if faces_around(nodes, p)[s] is Some {
            lemma_index3_bound(e.0, e.1, e.2, q.0, q.1, q.2);
        }
    }
}

/// The node and face layout of a three-dimensional hall: pressure at `nx · ny · nz` nodes, x
/// fastest, and velocity on the faces between neighbours along each axis.
pub struct Hall {
    name: String,
    nodes: (usize, usize, usize),
}

impl Hall {
    #[verifier::type_invariant]
    closed spec fn shape_holds(self) -> bool {
        &&& self.nodes.0 >= 2
        &&& self.nodes.1 >= 1
        &&& self.nodes.2 >= 1
        &&& self.nodes.0 * self.nodes.1 * self.nodes.2 <= usize::MAX
    }

    /// Nodes along x, y and z.
    pub closed spec fn nodes_spec(&self) -> (usize, usize, usize) {
        self.nodes
    }

    /// What the hall is called.
    pub closed spec fn name_spec(&self) -> Seq<char> {
        self.name@
    }

    /// A hall of `nodes`: at least two across, so there is a spacing, and at least one along
    /// each of the others — a zero extent is one node and no faces along that axis, which is
    /// what makes a flat hall reduce exactly to a room.
    pub fn new(name: String, nodes: (usize, usize, usize)) -> (h: Hall)
        requires
            at_least(nodes.0, 2) * at_least(nodes.1, 1) * at_least(nodes.2, 1) <= usize::MAX,
        ensures
            h.nodes_spec() == (
                at_least(nodes.0, 2) as usize,
                at_least(nodes.1, 1) as usize,
                at_least(nodes.2, 1) as usize,
            ),
            h.name_spec() == name@,
    {
        let nodes = (
            if nodes.0 < 2 { 2 } else { nodes.0 },
            if nodes.1 < 1 { 1 } else { nodes.1 },
            if nodes.2 < 1 { 1 } else { nodes.2 },
        );
        Hall { name, nodes }
    }

    /// Node counts along x, y and z.
    pub fn nodes(&self) -> (n: (usize, usize, usize))
        ensures
            n == self.nodes_spec(),
            n.0 >= 2 && n.1 >= 1 && n.2 >= 1,
            n.0 * n.1 * n.2 <= usize::MAX,
    {
        proof {
            use_type_invariant(self);
        }
        self.nodes
    }

    /// What the hall is called.
    pub fn name(&self) -> (s: &str)
        ensures
            s@ == self.name_spec(),
    {
        self.name.as_str()
    }

    /// Where node `(i, j, k)` sits in the pressure array.
    pub fn node(&self, i: usize, j: usize, k: usize) -> (n: usize)
        requires
            node_in(ints3(self.nodes_spec()), (i as int, j as int, k as int)),
        ensures
            n == index3(self.nodes_spec().0 as int, self.nodes_spec().1 as int, i as int, j as int, k as int),
            n < self.nodes_spec().0 * self.nodes_spec().1 * self.nodes_spec().2,
    {
        proof {
            use_type_invariant(self);
        }
        node_index(self.nodes, i, j, k)
    }

    /// The node nearest to `(i, j, k)`, each coordinate brought inside — where a pressure is
    /// read.
    pub fn clamped_node(&self, i: usize, j: usize, k: usize) -> (n: usize)
        ensures
            n == index3(
                self.nodes_spec().0 as int,
                self.nodes_spec().1 as int,
                if (i as int) < self.nodes_spec().0 { i as int } else { self.nodes_spec().0 - 1 },
                if (j as int) < self.nodes_spec().1 { j as int } else { self.nodes_spec().1 - 1 },
                if (k as int) < self.nodes_spec().2 { k as int } else { self.nodes_spec().2 - 1 },
            ),
            n < self.nodes_spec().0 * self.nodes_spec().1 * self.nodes_spec().2,
    {
        proof {
            use_type_invariant(self);
        }
        clamped_node_index(self.nodes, i, j, k)
    }

    /// How many faces carry velocity along an axis: `(nx − 1)·ny·nz` along x, and so on.
    pub fn face_count(&self, axis: Axis) -> (n: usize)
        ensures
            n == face_total(ints3(self.nodes_spec()), axis_index(axis)),
    {
        proof {
            use_type_invariant(self);
        }
        let (nx, ny, nz) = self.nodes;
        proof {
            let (x, y, z) = (nx as int, ny as int, nz as int);
            assert((x - 1) * y * z <= x * y * z && x * (y - 1) * z <= x * y * z && x * y * (z - 1)
                <= x * y * z) by (nonlinear_arith)
                requires
                    x >= 2,
                    y >= 1,
                    z >= 1,
            ;
            assert(0 <= (x - 1) * y <= x * y * z && 0 <= x * (y - 1) <= x * y * z && 0 <= x * y
                <= x * y * z) by (nonlinear_arith)
                requires
                    x >= 2,
                    y >= 1,
                    z >= 1,
            ;
        }
        match axis {
            Axis::X => (nx - 1) * ny * nz,
            Axis::Y => nx * (ny - 1) * nz,
            Axis::Z => nx * ny * (nz - 1),
        }
    }

    /// The face between node `(i, j, k)` and its neighbour one step along an axis, which has to
    /// exist.
    pub fn face(&self, axis: Axis, i: usize, j: usize, k: usize) -> (f: usize)
        requires
            node_in(ints3(self.nodes_spec()), (i as int, j as int, k as int)),
            coord((i as int, j as int, k as int), axis_index(axis)) + 1 < coord(
                ints3(self.nodes_spec()),
                axis_index(axis),
            ),
        ensures
            f == face_between(ints3(self.nodes_spec()), axis_index(axis), (i as int, j as int, k as int)),
            f < face_total(ints3(self.nodes_spec()), axis_index(axis)),
    {
        proof {
            use_type_invariant(self);
        }
        let (nx, ny, nz) = self.nodes;
        let (ex, ey, ez) = match axis {
            Axis::X => (nx - 1, ny, nz),
            Axis::Y => (nx, ny - 1, nz),
            Axis::Z => (nx, ny, nz - 1),
        };
        proof {
            let (x, y, z) = (nx as int, ny as int, nz as int);
            assert(ex * ey * ez <= x * y * z) by (nonlinear_arith)
                requires
                    1 <= ex <= x,
                    1 <= ey <= y,
                    1 <= ez <= z,
            ;
            lemma_index3_parts(ex as int, ey as int, ez as int, i as int, j as int, k as int);
            lemma_index3_bound(ex as int, ey as int, ez as int, i as int, j as int, k as int);
            lemma_product_parts(ex as int, ey as int, ez as int);
        }
        let inner = j + ey * k;
        i + ex * inner
    }

    /// The faces around node `(i, j, k)`, low then high along x, y and z: each the face to the
    /// neighbour on that side, or none at a rigid wall, which passes no velocity.
    pub fn faces_around(&self, i: usize, j: usize, k: usize) -> (f: [Option<usize>; 6])
        requires
            node_in(ints3(self.nodes_spec()), (i as int, j as int, k as int)),
        ensures
            f@.map_values(|o: Option<usize>| match o {
                Some(v) => Some(v as int),
                None => None,
            }) == faces_around(ints3(self.nodes_spec()), (i as int, j as int, k as int)),
    {
        proof {
            use_type_invariant(self);
        }
        let (nx, ny, nz) = self.nodes;
        let lo_x = if i > 0 { Some(self.face(Axis::X, i - 1, j, k)) } else { None };
        let hi_x = if i + 1 < nx { Some(self.face(Axis::X, i, j, k)) } else { None };
        let lo_y = if j > 0 { Some(self.face(Axis::Y, i, j - 1, k)) } else { None };
        let hi_y = if j + 1 < ny { Some(self.face(Axis::Y, i, j, k)) } else { None };
        let lo_z = if k > 0 { Some(self.face(Axis::Z, i, j, k - 1)) } else { None };
        let hi_z = if k + 1 < nz { Some(self.face(Axis::Z, i, j, k)) } else { None };
        let f = [lo_x, hi_x, lo_y, hi_y, lo_z, hi_z];
        let ghost want = faces_around(ints3(self.nodes), (i as int, j as int, k as int));
        assert forall|s: int| 0 <= s < 6 implies (match #[trigger] f@[s] {
            Some(v) => Some(v as int),
            None => None,
        }) == want[s] by {
            assert(s / 2 == 0 || s / 2 == 1 || s / 2 == 2);
        }
        assert(f@.map_values(|o: Option<usize>| match o {
            Some(v) => Some(v as int),
            None => None,
        }) =~= want);
        f
    }

    /// How many of the three axes node `(i, j, k)` lies on a wall of: 0 inside, 1 on a wall,
    /// 2 on an edge, 3 in a corner. Each halves the control volume the node owns, and doubles
    /// the divergence across that axis.
    pub fn walls_touched(&self, i: usize, j: usize, k: usize) -> (w: usize)
        ensures
            w == walls_touched(ints3(self.nodes_spec()), (i as int, j as int, k as int)),
            w <= 3,
    {
        proof {
            use_type_invariant(self);
        }
        let (nx, ny, nz) = self.nodes;
        let a: usize = if i == 0 || i == nx - 1 { 1 } else { 0 };
        let b: usize = if j == 0 || j == ny - 1 { 1 } else { 0 };
        let c: usize = if k == 0 || k == nz - 1 { 1 } else { 0 };
        a + b + c
    }
}

/// The cell and face layout of a two-dimensional room: pressure at `nx · ny` cells, row by row,
/// and velocity on the faces between horizontally and vertically adjacent cells.
pub struct Room {
    name: String,
    cells: (usize, usize),
}

/// The faces around cell `(i, j)` of a room of `cells`: left, right, below and above, each the
/// face to the neighbour on that side or none at a rigid wall. Horizontal faces are numbered
/// `j · (nx − 1) + i`, vertical ones `j · nx + i`.
pub open spec fn room_faces_around(cells: (int, int), i: int, j: int) -> Seq<Option<int>> {
    let (nx, ny) = cells;
    seq![
        if i == 0 { None } else { Some(j * (nx - 1) + i - 1) },
        if i == nx - 1 { None } else { Some(j * (nx - 1) + i) },
        if j == 0 { None } else { Some((j - 1) * nx + i) },
        if j == ny - 1 { None } else { Some(j * nx + i) },
    ]
}

/// In a room too a face is shared: the right face of a cell is the left face of the cell beside
/// it, and its upper face the lower face of the cell above, so what leaves one cell enters the
/// next.
pub proof fn lemma_a_room_face_is_shared(cells: (int, int), i: int, j: int)
    requires
        0 <= i < cells.0,
        0 <= j < cells.1,
    ensures
        i + 1 < cells.0 ==> room_faces_around(cells, i, j)[1] == room_faces_around(cells, i + 1, j)[0]
            && room_faces_around(cells, i, j)[1] is Some,
        j + 1 < cells.1 ==> room_faces_around(cells, i, j)[3] == room_faces_around(cells, i, j + 1)[2]
            && room_faces_around(cells, i, j)[3] is Some,
{
}

/// A room cell has a face on a side exactly where it has a neighbour there, and each face
/// that exists lies inside the face array of its direction.
pub proof fn lemma_a_room_face_exists_where_a_neighbour_does(cells: (int, int), i: int, j: int)
    requires
        0 <= i < cells.0,
        0 <= j < cells.1,
    ensures
        room_faces_around(cells, i, j)[0] is None <==> i == 0,
        room_faces_around(cells, i, j)[1] is None <==> i == cells.0 - 1,
        room_faces_around(cells, i, j)[2] is None <==> j == 0,
        room_faces_around(cells, i, j)[3] is None <==> j == cells.1 - 1,
        forall|s: int|
            0 <= s < 2 ==> (#[trigger] room_faces_around(cells, i, j)[s] matches Some(f) ==> 0 <= f < (cells.0
                - 1) * cells.1),
        forall|s: int|
            2 <= s < 4 ==> (#[trigger] room_faces_around(cells, i, j)[s] matches Some(f) ==> 0 <= f < cells.0
                * (cells.1 - 1)),
{
    let (nx, ny) = cells;
    assert(0 <= j * (nx - 1) && j * (nx - 1) + i < (nx - 1) * ny + 1 && (j * (nx - 1) + i < (nx - 1) * ny
        || i == nx - 1)) by (nonlinear_arith)
        requires
            0 <= i < nx,
            0 <= j < ny,
    ;
    assert(j > 0 ==> 0 <= (j - 1) * nx && (j - 1) * nx + i < nx * (ny - 1)) by (nonlinear_arith)
        requires
            0 <= i < nx,
            0 <= j < ny,
    ;
    assert(j < ny - 1 ==> 0 <= j * nx && j * nx + i < nx * (ny - 1)) by (nonlinear_arith)
        requires
            0 <= i < nx,
            0 <= j < ny,
    ;
    assert(i > 0 ==> 0 <= j * (nx - 1) + i - 1 && j * (nx - 1) + i - 1 < (nx - 1) * ny) by (nonlinear_arith)
        requires
            0 <= i < nx,
            0 <= j < ny,
    ;
}

impl Room {
    #[verifier::type_invariant]
    closed spec fn shape_holds(self) -> bool {
        &&& self.cells.0 >= 3
        &&& self.cells.1 >= 3
        &&& self.cells.0 * self.cells.1 <= usize::MAX
    }

    /// Cells across and up.
    pub closed spec fn cells_spec(&self) -> (usize, usize) {
        self.cells
    }

    /// What the room is called.
    pub closed spec fn name_spec(&self) -> Seq<char> {
        self.name@
    }

    /// A room of `cells`, each count raised to at least three.
    pub fn new(name: String, cells: (usize, usize)) -> (r: Room)
        requires
            at_least(cells.0, 3) * at_least(cells.1, 3) <= usize::MAX,
        ensures
            r.cells_spec() == (at_least(cells.0, 3) as usize, at_least(cells.1, 3) as usize),
            r.name_spec() == name@,
    {
        let cells = (if cells.0 < 3 { 3 } else { cells.0 }, if cells.1 < 3 { 3 } else { cells.1 });
        Room { name, cells }
    }

    /// Cells across and up.
    pub fn cells(&self) -> (c: (usize, usize))
        ensures
            c == self.cells_spec(),
            c.0 >= 3 && c.1 >= 3,
            c.0 * c.1 <= usize::MAX,
    {
        proof {
            use_type_invariant(self);
        }
        self.cells
    }

    /// What the room is called.
    pub fn name(&self) -> (s: &str)
        ensures
            s@ == self.name_spec(),
    {
        self.name.as_str()
    }

    /// Where cell `(i, j)` sits in the pressure array, each coordinate first brought inside.
    pub fn cell(&self, i: usize, j: usize) -> (n: usize)
        ensures
            ({
                let (nx, ny) = (self.cells_spec().0 as int, self.cells_spec().1 as int);
                let ci = if (i as int) < nx { i as int } else { nx - 1 };
                let cj = if (j as int) < ny { j as int } else { ny - 1 };
                n == cj * nx + ci
            }),
            n < self.cells_spec().0 * self.cells_spec().1,
    {
        proof {
            use_type_invariant(self);
        }
        let (nx, ny) = self.cells;
        let i = if i < nx { i } else { nx - 1 };
        let j = if j < ny { j } else { ny - 1 };
        proof {
            assert(j * nx + i < nx * ny) by (nonlinear_arith)
                requires
                    i < nx,
                    j < ny,
            ;
        }
        j * nx + i
    }

    /// How many faces carry velocity along an axis of the plane: `(nx − 1)·ny` horizontally,
    /// `nx·(ny − 1)` vertically.
    pub fn face_count(&self, vertical: bool) -> (n: usize)
        ensures
            n == if vertical {
                self.cells_spec().0 * (self.cells_spec().1 - 1)
            } else {
                (self.cells_spec().0 - 1) * self.cells_spec().1
            },
    {
        proof {
            use_type_invariant(self);
        }
        let (nx, ny) = self.cells;
        proof {
            assert((nx - 1) * ny <= nx * ny && nx * (ny - 1) <= nx * ny) by (nonlinear_arith)
                requires
                    nx >= 3,
                    ny >= 3,
            ;
        }
        if vertical {
            nx * (ny - 1)
        } else {
            (nx - 1) * ny
        }
    }

    /// The faces around cell `(i, j)`: left, right, below and above, each the face to the
    /// neighbour on that side or none at a rigid wall.
    pub fn faces_around(&self, i: usize, j: usize) -> (f: [Option<usize>; 4])
        requires
            (i as int) < self.cells_spec().0,
            (j as int) < self.cells_spec().1,
        ensures
            f@.map_values(|o: Option<usize>| match o {
                Some(v) => Some(v as int),
                None => None,
            }) == room_faces_around(
                (self.cells_spec().0 as int, self.cells_spec().1 as int),
                i as int,
                j as int,
            ),
            forall|s: int|
                0 <= s < 2 ==> (#[trigger] f@[s] matches Some(v) ==> (v as int) < (self.cells_spec().0
                    - 1) * self.cells_spec().1),
            forall|s: int|
                2 <= s < 4 ==> (#[trigger] f@[s] matches Some(v) ==> (v as int) < self.cells_spec().0
                    * (self.cells_spec().1 - 1)),
    {
        proof {
            use_type_invariant(self);
        }
        let (nx, ny) = self.cells;
        proof {
            assert(j * (nx - 1) + i <= (nx - 1) * ny && (j * (nx - 1) + i < (nx - 1) * ny || i == nx - 1)
                && j * nx + i < nx * ny) by (nonlinear_arith)
                requires
                    i < nx,
                    j < ny,
                    nx >= 3,
            ;
            assert(j < ny - 1 ==> j * nx + i < nx * (ny - 1)) by (nonlinear_arith)
                requires
                    i < nx,
                    j < ny,
            ;
            assert(j > 0 ==> (j - 1) * nx + i < nx * (ny - 1)) by (nonlinear_arith)
                requires
                    i < nx,
                    j < ny,
            ;
            assert(nx * ny <= usize::MAX);
            assert((nx - 1) * ny <= nx * ny && nx * (ny - 1) <= nx * ny) by (nonlinear_arith)
                requires
                    nx >= 3,
                    ny >= 3,
            ;
        }
        let left = if i == 0 { None } else { Some(j * (nx - 1) + i - 1) };
        let right = if i == nx - 1 { None } else { Some(j * (nx - 1) + i) };
        let below = if j == 0 { None } else { Some((j - 1) * nx + i) };
        let above = if j == ny - 1 { None } else { Some(j * nx + i) };
        let f = [left, right, below, above];
        assert(f@.map_values(|o: Option<usize>| match o {
            Some(v) => Some(v as int),
            None => None,
        }) =~= room_faces_around((nx as int, ny as int), i as int, j as int));
        f
    }
}

} // verus!
