use vstd::prelude::*;

use crate::block::at_least_one;
use crate::grid::{
    element_at, element_count, filled, index3, lemma_index3_bound, select_cells, lemma_index3_injective,
    lemma_index3_parts, lemma_next_row, lemma_product_parts, lemma_split_row_major,
};

verus! {

/// One of the six faces of the box.
#[derive(Clone, Copy, Debug, PartialEq, Eq)]
pub enum Wall {
    /// `x = 0`.
    XLow,
    /// `x = L`.
    XHigh,
    /// `y = 0`.
    YLow,
    /// `y = L`.
    YHigh,
    /// `z = 0`.
    ZLow,
    /// `z = L`.
    ZHigh,
}

/// A wall's position in [`Wall::ALL`].
pub open spec fn wall_index(w: Wall) -> nat {
    match w {
        Wall::XLow => 0,
        Wall::XHigh => 1,
        Wall::YLow => 2,
        Wall::YHigh => 3,
        Wall::ZLow => 4,
        Wall::ZHigh => 5,
    }
}

/// The axis a wall is normal to.
pub open spec fn wall_axis(w: Wall) -> nat {
    match w {
        Wall::XLow | Wall::XHigh => 0,
        Wall::YLow | Wall::YHigh => 1,
        Wall::ZLow | Wall::ZHigh => 2,
    }
}

/// Whether a wall is at the high end of its axis.
pub open spec fn wall_is_high(w: Wall) -> bool {
    w is XHigh || w is YHigh || w is ZHigh
}

impl Wall {
    /// All six, in index order.
    pub const ALL: [Wall; 6] = [
        Wall::XLow,
        Wall::XHigh,
        Wall::YLow,
        Wall::YHigh,
        Wall::ZLow,
        Wall::ZHigh,
    ];

    /// The wall's position in [`Wall::ALL`].
    pub fn index(self) -> (i: usize)
        ensures
            i == wall_index(self),
            i < 6,
    {
        match self {
            Wall::XLow => 0,
            Wall::XHigh => 1,
            Wall::YLow => 2,
            Wall::YHigh => 3,
            Wall::ZLow => 4,
            Wall::ZHigh => 5,
        }
    }
}

/// A wall's index names it: six walls, six indices.
pub proof fn lemma_wall_index_is_faithful(a: Wall, b: Wall)
    ensures
        wall_index(a) == wall_index(b) <==> a == b,
        wall_index(a) < 6,
        wall_axis(a) == wall_index(a) / 2,
        wall_is_high(a) == (wall_index(a) % 2 == 1),
{
}

/// What a face does to a wave that reaches it.
#[derive(Clone, Copy, Debug, PartialEq, Eq)]
pub enum Boundary {
    /// A perfect conductor: the tangential electric field is zero, and everything comes back.
    Conducting,
    /// A perfect magnetic conductor: the tangential electric field is mirrored across the face,
    /// which is the boundary a symmetry plane has.
    Magnetic,
    /// Mur's first-order absorbing condition: the wave leaves, mostly.
    Open,
}

/// One of the six field components of the Yee grid.
#[derive(Clone, Copy, Debug, PartialEq, Eq)]
pub enum Component {
    /// `Ex`, on the cell edges along x.
    Ex,
    /// `Ey`, on the cell edges along y.
    Ey,
    /// `Ez`, on the cell edges along z.
    Ez,
    /// `Hx`, on the cell faces normal to x.
    Hx,
    /// `Hy`, on the cell faces normal to y.
    Hy,
    /// `Hz`, on the cell faces normal to z.
    Hz,
}

/// How many samples a component has along each axis on a grid of `counts` cells: cell-centred
/// (the count) along the axes it is staggered on, node-centred (one more) along the others.
pub open spec fn comp_extent(counts: (int, int, int), c: Component) -> (int, int, int) {
    let (nx, ny, nz) = counts;
    match c {
        Component::Ex => (nx, ny + 1, nz + 1),
        Component::Ey => (nx + 1, ny, nz + 1),
        Component::Ez => (nx + 1, ny + 1, nz),
        Component::Hx => (nx + 1, ny, nz),
        Component::Hy => (nx, ny + 1, nz),
        Component::Hz => (nx, ny, nz + 1),
    }
}

/// How many samples a component has in all.
pub open spec fn comp_len(counts: (int, int, int), c: Component) -> int {
    let e = comp_extent(counts, c);
    e.0 * e.1 * e.2
}

/// Where a sample sits in its component's array, x fastest.
pub open spec fn comp_index(counts: (int, int, int), c: Component, p: (int, int, int)) -> int {
    let e = comp_extent(counts, c);
    index3(e.0, e.1, p.0, p.1, p.2)
}

/// Whether a sample coordinate lies inside its component's extent.
pub open spec fn in_extent(counts: (int, int, int), c: Component, p: (int, int, int)) -> bool {
    let e = comp_extent(counts, c);
    &&& 0 <= p.0 < e.0
    &&& 0 <= p.1 < e.1
    &&& 0 <= p.2 < e.2
}

/// The cell counts as integers.
pub open spec fn int_counts(counts: (usize, usize, usize)) -> (int, int, int) {
    (counts.0 as int, counts.1 as int, counts.2 as int)
}

/// Every component's array is no larger than the grid of nodes, and has at least one sample
/// along each axis.
pub proof fn lemma_comp_len_fits(counts: (int, int, int), c: Component)
    requires
        counts.0 >= 1,
        counts.1 >= 1,
        counts.2 >= 1,
    ensures
        comp_extent(counts, c).0 >= 1,
        comp_extent(counts, c).1 >= 1,
        comp_extent(counts, c).2 >= 1,
        comp_extent(counts, c).0 <= counts.0 + 1,
        comp_extent(counts, c).1 <= counts.1 + 1,
        comp_extent(counts, c).2 <= counts.2 + 1,
        0 < comp_len(counts, c) <= (counts.0 + 1) * (counts.1 + 1) * (counts.2 + 1),
{
    let e = comp_extent(counts, c);
    let (nx, ny, nz) = counts;
    assert(0 < e.0 * e.1 * e.2 <= (nx + 1) * (ny + 1) * (nz + 1)) by (nonlinear_arith)
        requires
            1 <= e.0 <= nx + 1,
            1 <= e.1 <= ny + 1,
            1 <= e.2 <= nz + 1,
    ;
}

/// The two electric components that lie along a wall, in the order the wall treats them.
pub open spec fn tangential(w: Wall) -> (Component, Component) {
    match w {
        Wall::XLow | Wall::XHigh => (Component::Ey, Component::Ez),
        Wall::YLow | Wall::YHigh => (Component::Ex, Component::Ez),
        Wall::ZLow | Wall::ZHigh => (Component::Ex, Component::Ey),
    }
}

/// A point with `fixed` along axis `a`, and `x` and `y` along the other two in order.
pub open spec fn placed(a: nat, fixed: int, x: int, y: int) -> (int, int, int) {
    if a == 0 {
        (fixed, x, y)
    } else if a == 1 {
        (x, fixed, y)
    } else {
        (x, y, fixed)
    }
}

/// The extent of a component along the two axes a wall spans, the faster one first.
pub open spec fn wall_plane(counts: (int, int, int), w: Wall, c: Component) -> (int, int) {
    let e = comp_extent(counts, c);
    let a = wall_axis(w);
    if a == 0 {
        (e.1, e.2)
    } else if a == 1 {
        (e.0, e.2)
    } else {
        (e.0, e.1)
    }
}

/// The plane index of the samples on a wall, and of those one cell in from it.
pub open spec fn wall_edge(counts: (int, int, int), w: Wall) -> (int, int) {
    let a = wall_axis(w);
    let n = if a == 0 { counts.0 } else if a == 1 { counts.1 } else { counts.2 };
    if wall_is_high(w) { (n, n - 1) } else { (0, 1) }
}

/// The `t`-th tangential sample of component `c` on a wall, walking the wall with its faster
/// axis fastest: its index in the component's array, and the index of the sample one cell in.
pub open spec fn wall_pair(counts: (int, int, int), w: Wall, c: Component, t: int) -> (int, int) {
    let (eu, _ev) = wall_plane(counts, w, c);
    let (edge, inner) = wall_edge(counts, w);
    let a = wall_axis(w);
    (
        comp_index(counts, c, placed(a, edge, t % eu, t / eu)),
        comp_index(counts, c, placed(a, inner, t % eu, t / eu)),
    )
}

/// `v` brought inside `0..n`.
pub open spec fn clamped(v: int, n: int) -> int {
    if v < 0 {
        0
    } else if v > n - 1 {
        n - 1
    } else {
        v
    }
}

/// The cell nearest to `(i, j, k)`: each coordinate brought inside the grid, then indexed.
pub open spec fn cell_at(counts: (int, int, int), i: int, j: int, k: int) -> int {
    index3(counts.0, counts.1, clamped(i, counts.0), clamped(j, counts.1), clamped(k, counts.2))
}

/// The four cells around an electric sample, whose media it averages: the edge it lies on is
/// shared by four cells, missing ones at a wall replaced by the nearest inside.
pub open spec fn electric_cells(counts: (int, int, int), c: Component, i: int, j: int, k: int) -> Seq<int> {
    match c {
        Component::Ex => seq![
            cell_at(counts, i, j - 1, k - 1),
            cell_at(counts, i, j, k - 1),
            cell_at(counts, i, j - 1, k),
            cell_at(counts, i, j, k),
        ],
        Component::Ey => seq![
            cell_at(counts, i - 1, j, k - 1),
            cell_at(counts, i, j, k - 1),
            cell_at(counts, i - 1, j, k),
            cell_at(counts, i, j, k),
        ],
        _ => seq![
            cell_at(counts, i - 1, j - 1, k),
            cell_at(counts, i, j - 1, k),
            cell_at(counts, i - 1, j, k),
            cell_at(counts, i, j, k),
        ],
    }
}

/// Whether a magnetic sample lies on the far wall of its own axis (`Hx` at `i == nx`, `Hy` at
/// `j == ny`, `Hz` at `k == nz`): outside every cell, it borders none, and reads the medium the
/// box was built in.
pub open spec fn on_far_wall(counts: (int, int, int), c: Component, i: int, j: int, k: int) -> bool {
    match c {
        Component::Hx => i == counts.0,
        Component::Hy => j == counts.1,
        _ => k == counts.2,
    }
}

/// The two cells either side of a magnetic sample's face, for a sample not on the far wall of
/// its own axis.
pub open spec fn magnetic_cells(counts: (int, int, int), c: Component, i: int, j: int, k: int) -> Seq<int> {
    match c {
        Component::Hx => seq![cell_at(counts, i - 1, j, k), cell_at(counts, i, j, k)],
        Component::Hy => seq![cell_at(counts, i, j - 1, k), cell_at(counts, i, j, k)],
        _ => seq![cell_at(counts, i, j, k - 1), cell_at(counts, i, j, k)],
    }
}

/// Whether a component is one of the electric three.
pub open spec fn is_electric(c: Component) -> bool {
    c is Ex || c is Ey || c is Ez
}

/// A pair of usizes read as integers.
pub open spec fn pair_ints(p: (usize, usize)) -> (int, int) {
    (p.0 as int, p.1 as int)
}

/// The wall at position `i` of [`Wall::ALL`]: the order a boundary pass visits them in.
pub open spec fn wall_at(i: int) -> Wall {
    if i == 0 {
        Wall::XLow
    } else if i == 1 {
        Wall::XHigh
    } else if i == 2 {
        Wall::YLow
    } else if i == 3 {
        Wall::YHigh
    } else if i == 4 {
        Wall::ZLow
    } else {
        Wall::ZHigh
    }
}

/// Whether component `c` lies along wall `w`.
pub open spec fn is_tangential(w: Wall, c: Component) -> bool {
    c == tangential(w).0 || c == tangential(w).1
}

/// How many samples of component `c` lie on wall `w`.
pub open spec fn wall_len(counts: (int, int, int), w: Wall, c: Component) -> int {
    wall_plane(counts, w, c).0 * wall_plane(counts, w, c).1
}

/// `s` after the first `n` samples of component `c` on wall `w`, in the order the wall is
/// walked, have each taken the value of the sample one cell in from it.
pub open spec fn copy_inward<T>(counts: (int, int, int), w: Wall, c: Component, s: Seq<T>, n: nat) -> Seq<T>
    decreases n,
{
    if n == 0 {
        s
    } else {
        let p = copy_inward(counts, w, c, s, (n - 1) as nat);
        let pair = wall_pair(counts, w, c, n - 1);
        p.update(pair.0, p[pair.1])
    }
}

/// `s` with the first `n` samples of component `c` on wall `w` set to `value`.
pub open spec fn set_on_wall<T>(counts: (int, int, int), w: Wall, c: Component, s: Seq<T>, value: T, n: nat) -> Seq<T>
    decreases n,
{
    if n == 0 {
        s
    } else {
        set_on_wall(counts, w, c, s, value, (n - 1) as nat).update(wall_pair(counts, w, c, n - 1).0, value)
    }
}

/// Component `c`'s samples `s` after the first `n` walls of [`Wall::ALL`] have been visited,
/// each wall whose boundary in `faces` is magnetic mirroring its tangential samples of `c`
/// from the samples one cell in.
pub open spec fn mirrored_through<T>(counts: (int, int, int), faces: Seq<Boundary>, c: Component, s: Seq<T>, n: nat) -> Seq<T>
    decreases n,
{
    if n == 0 {
        s
    } else {
        let p = mirrored_through(counts, faces, c, s, (n - 1) as nat);
        let w = wall_at(n - 1);
        if faces[n - 1] == Boundary::Magnetic && is_tangential(w, c) {
            copy_inward(counts, w, c, p, wall_len(counts, w, c) as nat)
        } else {
            p
        }
    }
}

/// Component `c`'s samples `s` after a magnetic-conductor pass over all six walls in order:
/// the tangential field is mirrored across each magnetic face, so its normal derivative there
/// is zero.
pub open spec fn mirrored<T>(counts: (int, int, int), faces: Seq<Boundary>, c: Component, s: Seq<T>) -> Seq<T> {
    mirrored_through(counts, faces, c, s, 6)
}

/// Component `c`'s samples `s` after the first `n` walls have been visited, each wall that
/// `selected` picks having its tangential samples of `c` set to `value`.
pub open spec fn set_through<T>(counts: (int, int, int), selected: Seq<bool>, c: Component, s: Seq<T>, value: T, n: nat) -> Seq<T>
    decreases n,
{
    if n == 0 {
        s
    } else {
        let p = set_through(counts, selected, c, s, value, (n - 1) as nat);
        let w = wall_at(n - 1);
        if selected[n - 1] && is_tangential(w, c) {
            set_on_wall(counts, w, c, p, value, wall_len(counts, w, c) as nat)
        } else {
            p
        }
    }
}

/// Component `c`'s samples `s` with the tangential samples on every wall `selected` picks set
/// to `value` — a perfect electric conductor, where `value` is zero.
pub open spec fn walls_set<T>(counts: (int, int, int), selected: Seq<bool>, c: Component, s: Seq<T>, value: T) -> Seq<T> {
    set_through(counts, selected, c, s, value, 6)
}

/// Which walls have boundary `kind`, in [`Wall::ALL`] order.
pub open spec fn walls_of_kind(faces: Seq<Boundary>, kind: Boundary) -> Seq<bool> {
    Seq::new(6, |i: int| faces[i] == kind)
}

/// The grid of nodes of a box bounds its cells and each of its node counts.
pub proof fn lemma_node_box_bounds(x: int, y: int, z: int)
    requires
        x >= 1,
        y >= 1,
        z >= 1,
    ensures
        x * y * z <= (x + 1) * (y + 1) * (z + 1),
        x + 1 <= (x + 1) * (y + 1) * (z + 1),
        y + 1 <= (x + 1) * (y + 1) * (z + 1),
        z + 1 <= (x + 1) * (y + 1) * (z + 1),
{
    assert(x * y * z <= (x + 1) * (y + 1) * (z + 1)) by (nonlinear_arith)
        requires
            x >= 1,
            y >= 1,
            z >= 1,
    ;
    assert(x + 1 <= (x + 1) * (y + 1) * (z + 1) && y + 1 <= (x + 1) * (y + 1) * (z + 1)
        && z + 1 <= (x + 1) * (y + 1) * (z + 1)) by (nonlinear_arith)
        requires
            x >= 1,
            y >= 1,
            z >= 1,
    ;
}

/// The samples a wall writes are distinct from each other and from every sample one cell in.
proof fn lemma_wall_samples_distinct(counts: (int, int, int), w: Wall, c: Component, t: int, u: int)
    requires
        counts.0 >= 1,
        counts.1 >= 1,
        counts.2 >= 1,
        is_tangential(w, c),
        0 <= t < wall_len(counts, w, c),
        0 <= u < wall_len(counts, w, c),
    ensures
        wall_pair(counts, w, c, t).0 != wall_pair(counts, w, c, u).1,
        t != u ==> wall_pair(counts, w, c, t).0 != wall_pair(counts, w, c, u).0,
        0 <= wall_pair(counts, w, c, t).0 < comp_len(counts, c),
        0 <= wall_pair(counts, w, c, u).1 < comp_len(counts, c),
{
    let e = comp_extent(counts, c);
    let (eu, ev) = wall_plane(counts, w, c);
    let (edge, inner) = wall_edge(counts, w);
    let a = wall_axis(w);
    lemma_comp_len_fits(counts, c);
    vstd::arithmetic::div_mod::lemma_mod_pos_bound(t, eu);
    vstd::arithmetic::div_mod::lemma_div_pos_is_pos(t, eu);
    vstd::arithmetic::div_mod::lemma_multiply_divide_lt(t, eu, ev);
    vstd::arithmetic::div_mod::lemma_mod_pos_bound(u, eu);
    vstd::arithmetic::div_mod::lemma_div_pos_is_pos(u, eu);
    vstd::arithmetic::div_mod::lemma_multiply_divide_lt(u, eu, ev);
    vstd::arithmetic::div_mod::lemma_fundamental_div_mod(t, eu);
    vstd::arithmetic::div_mod::lemma_fundamental_div_mod(u, eu);
    let pt = placed(a, edge, t % eu, t / eu);
    let pu = placed(a, edge, u % eu, u / eu);
    let qu = placed(a, inner, u % eu, u / eu);
    lemma_index3_bound(e.0, e.1, e.2, pt.0, pt.1, pt.2);
    lemma_index3_bound(e.0, e.1, e.2, qu.0, qu.1, qu.2);
    if wall_pair(counts, w, c, t).0 == wall_pair(counts, w, c, u).1 {
        lemma_index3_injective(e.0, e.1, e.2, pt, qu);
    }
    if t != u && wall_pair(counts, w, c, t).0 == wall_pair(counts, w, c, u).0 {
        lemma_index3_injective(e.0, e.1, e.2, pt, pu);
    }
}

/// After the first `n` samples of a wall have copied inward, each of them holds what the
/// sample one cell in held before, every sample one cell in is as it was, and the length is
/// kept.
proof fn lemma_copy_inward_reads_before<T>(counts: (int, int, int), w: Wall, c: Component, s: Seq<T>, n: nat)
    requires
        counts.0 >= 1,
        counts.1 >= 1,
        counts.2 >= 1,
        is_tangential(w, c),
        n <= wall_len(counts, w, c),
        s.len() == comp_len(counts, c),
    ensures
        copy_inward(counts, w, c, s, n).len() == s.len(),
        forall|t: int|
            0 <= t < n ==> #[trigger] copy_inward(counts, w, c, s, n)[wall_pair(counts, w, c, t).0] == s[wall_pair(
                counts,
                w,
                c,
                t,
            ).1],
        forall|u: int|
            0 <= u < wall_len(counts, w, c) ==> #[trigger] copy_inward(counts, w, c, s, n)[wall_pair(counts, w, c, u).1]
                == s[wall_pair(counts, w, c, u).1],
    decreases n,
{
    if n > 0 {
        let m = (n - 1) as nat;
        lemma_copy_inward_reads_before(counts, w, c, s, m);
        let p = copy_inward(counts, w, c, s, m);
        let pair = wall_pair(counts, w, c, m as int);
        lemma_wall_samples_distinct(counts, w, c, m as int, m as int);
        assert forall|t: int| 0 <= t < n implies #[trigger] copy_inward(counts, w, c, s, n)[wall_pair(counts, w, c, t).0]
            == s[wall_pair(counts, w, c, t).1] by {
            lemma_wall_samples_distinct(counts, w, c, t, m as int);
        }
        assert forall|u: int| 0 <= u < wall_len(counts, w, c) implies #[trigger] copy_inward(counts, w, c, s, n)[wall_pair(
            counts,
            w,
            c,
            u,
        ).1] == s[wall_pair(counts, w, c, u).1] by {
            lemma_wall_samples_distinct(counts, w, c, m as int, u);
        }
    }
}

/// A magnetic-conductor face gives each of its tangential samples the value the sample one
/// cell in had before the face was visited: the field's normal derivative across the face is
/// zero.
pub proof fn lemma_a_magnetic_face_reads_one_cell_in<T>(counts: (int, int, int), w: Wall, c: Component, s: Seq<T>, t: int)
    requires
        counts.0 >= 1,
        counts.1 >= 1,
        counts.2 >= 1,
        is_tangential(w, c),
        s.len() == comp_len(counts, c),
        0 <= t < wall_len(counts, w, c),
    ensures
        copy_inward(counts, w, c, s, wall_len(counts, w, c) as nat)[wall_pair(counts, w, c, t).0] == s[wall_pair(
            counts,
            w,
            c,
            t,
        ).1],
{
    assert(wall_len(counts, w, c) >= 0) by (nonlinear_arith)
        requires
            wall_plane(counts, w, c).0 >= 0,
            wall_plane(counts, w, c).1 >= 0,
            wall_len(counts, w, c) == wall_plane(counts, w, c).0 * wall_plane(counts, w, c).1,
    {
    }
    lemma_copy_inward_reads_before(counts, w, c, s, wall_len(counts, w, c) as nat);
}

/// The axis a component points along: `Ex` and `Hx` along x, `Ey` and `Hy` along y, `Ez` and
/// `Hz` along z.
pub open spec fn comp_axis(c: Component) -> nat {
    match c {
        Component::Ex | Component::Hx => 0,
        Component::Ey | Component::Hy => 1,
        Component::Ez | Component::Hz => 2,
    }
}

/// `p` moved `d` steps down axis `a`.
pub open spec fn back(p: (int, int, int), a: nat, d: int) -> (int, int, int) {
    if a == 0 {
        (p.0 - d, p.1, p.2)
    } else if a == 1 {
        (p.0, p.1 - d, p.2)
    } else {
        (p.0, p.1, p.2 - d)
    }
}

/// The cell whose low corner is grid point `q`, each coordinate brought inside the box: its
/// position in the cell array, x fastest.
pub open spec fn cell_of(counts: (int, int, int), q: (int, int, int)) -> int {
    index3(
        counts.0,
        counts.1,
        clamped(q.0, counts.0),
        clamped(q.1, counts.1),
        clamped(q.2, counts.2),
    )
}

/// An electric sample lies on an edge along its own axis, and the four cells it averages are
/// the four that share that edge: each has the sample's position along the edge, and one step
/// back or none along each of the other two axes. Every such cell is among them and nothing
/// else is.
pub proof fn lemma_an_edge_averages_the_cells_around_it(counts: (int, int, int), c: Component, i: int, j: int, k: int)
    requires
        is_electric(c),
    ensures
        ({
            let p = (i, j, k);
            let a = comp_axis(c);
            let u = ((a + 1) % 3) as nat;
            let v = ((a + 2) % 3) as nat;
            let cells = electric_cells(counts, c, i, j, k);
            &&& cells.len() == 4
            &&& forall|du: int, dv: int|
                0 <= du <= 1 && 0 <= dv <= 1 ==> #[trigger] cells.contains(cell_of(counts, back(back(p, u, du), v, dv)))
            &&& forall|t: int|
                0 <= t < 4 ==> exists|du: int, dv: int|
                    0 <= du <= 1 && 0 <= dv <= 1 && #[trigger] cells[t] == cell_of(counts, back(back(p, u, du), v, dv))
        }),
{
    let p = (i, j, k);
    let a = comp_axis(c);
    let u = ((a + 1) % 3) as nat;
    let v = ((a + 2) % 3) as nat;
    let cells = electric_cells(counts, c, i, j, k);
    let corner = |du: int, dv: int| cell_of(counts, back(back(p, u, du), v, dv));
    if c is Ex {
        assert(u == 1 && v == 2);
        assert(cells =~= seq![corner(1, 1), corner(0, 1), corner(1, 0), corner(0, 0)]);
    } else if c is Ey {
        assert(u == 2 && v == 0);
        assert(cells =~= seq![corner(1, 1), corner(1, 0), corner(0, 1), corner(0, 0)]);
    } else {
        assert(u == 0 && v == 1);
        assert(cells =~= seq![corner(1, 1), corner(0, 1), corner(1, 0), corner(0, 0)]);
    }
    assert forall|du: int, dv: int| 0 <= du <= 1 && 0 <= dv <= 1 implies #[trigger] cells.contains(
        cell_of(counts, back(back(p, u, du), v, dv)),
    ) by {
        let w = cell_of(counts, back(back(p, u, du), v, dv));
        if cells[0] == w {
            assert(cells.contains(w));
        } else if cells[1] == w {
            assert(cells.contains(w));
        } else if cells[2] == w {
            assert(cells.contains(w));
        } else {
            assert(cells[3] == w);
            assert(cells.contains(w));
        }
    }
    assert forall|t: int| 0 <= t < 4 implies exists|du: int, dv: int|
        0 <= du <= 1 && 0 <= dv <= 1 && #[trigger] cells[t] == cell_of(counts, back(back(p, u, du), v, dv)) by {
        if c is Ey {
            if t == 0 { assert(cells[t] == corner(1, 1)); }
            else if t == 1 { assert(cells[t] == corner(1, 0)); }
            else if t == 2 { assert(cells[t] == corner(0, 1)); }
            else { assert(cells[t] == corner(0, 0)); }
        } else {
            if t == 0 { assert(cells[t] == corner(1, 1)); }
            else if t == 1 { assert(cells[t] == corner(0, 1)); }
            else if t == 2 { assert(cells[t] == corner(1, 0)); }
            else { assert(cells[t] == corner(0, 0)); }
        }
    }
}

/// A magnetic sample lies on a face normal to its own axis, and the two cells it averages are
/// the two that share that face: the one behind it along that axis, then the one in front.
pub proof fn lemma_a_face_averages_the_cells_either_side(counts: (int, int, int), c: Component, i: int, j: int, k: int)
    requires
        !is_electric(c),
    ensures
        magnetic_cells(counts, c, i, j, k) == seq![
            cell_of(counts, back((i, j, k), comp_axis(c), 1)),
            cell_of(counts, (i, j, k)),
        ],
{
    assert(magnetic_cells(counts, c, i, j, k) =~= seq![
        cell_of(counts, back((i, j, k), comp_axis(c), 1)),
        cell_of(counts, (i, j, k)),
    ]);
}

/// Whether sample position `q` lies on the plane of wall `w` of a box of `counts` cells.
pub open spec fn on_wall_plane(counts: (int, int, int), w: Wall, q: (int, int, int)) -> bool {
    match w {
        Wall::XLow => q.0 == 0,
        Wall::XHigh => q.0 == counts.0,
        Wall::YLow => q.1 == 0,
        Wall::YHigh => q.1 == counts.1,
        Wall::ZLow => q.2 == 0,
        Wall::ZHigh => q.2 == counts.2,
    }
}

/// `q` moved one cell away from wall `w`, into the box.
pub open spec fn inward(w: Wall, q: (int, int, int)) -> (int, int, int) {
    match w {
        Wall::XLow => (q.0 + 1, q.1, q.2),
        Wall::XHigh => (q.0 - 1, q.1, q.2),
        Wall::YLow => (q.0, q.1 + 1, q.2),
        Wall::YHigh => (q.0, q.1 - 1, q.2),
        Wall::ZLow => (q.0, q.1, q.2 + 1),
        Wall::ZHigh => (q.0, q.1, q.2 - 1),
    }
}

/// Each tangential sample a wall pass writes lies on that wall's plane, and the sample it is
/// paired with is the same component one cell in from it, inside the box.
pub proof fn lemma_a_wall_sample_lies_on_its_wall(counts: (int, int, int), w: Wall, c: Component, t: int)
    requires
        counts.0 >= 1,
        counts.1 >= 1,
        counts.2 >= 1,
        is_tangential(w, c),
        0 <= t < wall_len(counts, w, c),
    ensures
        exists|q: (int, int, int)|
            {
                &&& in_extent(counts, c, q)
                &&& on_wall_plane(counts, w, q)
                &&& in_extent(counts, c, inward(w, q))
                &&& #[trigger] comp_index(counts, c, q) == wall_pair(counts, w, c, t).0
                &&& comp_index(counts, c, inward(w, q)) == wall_pair(counts, w, c, t).1
            },
{
    let (eu, ev) = wall_plane(counts, w, c);
    let (edge, inner) = wall_edge(counts, w);
    let a = wall_axis(w);
    vstd::arithmetic::div_mod::lemma_mod_pos_bound(t, eu);
    vstd::arithmetic::div_mod::lemma_div_pos_is_pos(t, eu);
    vstd::arithmetic::div_mod::lemma_multiply_divide_lt(t, eu, ev);
    let q = placed(a, edge, t % eu, t / eu);
    assert(inward(w, q) == placed(a, inner, t % eu, t / eu));
    assert(comp_index(counts, c, q) == wall_pair(counts, w, c, t).0);
}

/// Setting a face's boundary is what reading it back gives, and the other five faces are
/// untouched.
pub proof fn lemma_a_face_reads_back_what_was_set(
    faces: Seq<Boundary>,
    set: Wall,
    boundary: Boundary,
    read: Wall,
)
    requires
        faces.len() == 6,
    ensures
        faces.update(wall_index(set) as int, boundary)[wall_index(read) as int] == if read == set {
            boundary
        } else {
            faces[wall_index(read) as int]
        },
{
}

/// Each tangential sample on a wall, and the sample one cell in from it, are two different
/// samples of the same array: a boundary update never reads the value it is writing.
pub proof fn lemma_the_inner_sample_is_another(counts: (int, int, int), w: Wall, c: Component, t: int)
    requires
        counts.0 >= 1,
        counts.1 >= 1,
        counts.2 >= 1,
        c == tangential(w).0 || c == tangential(w).1,
        0 <= t < wall_plane(counts, w, c).0 * wall_plane(counts, w, c).1,
    ensures
        wall_pair(counts, w, c, t).0 != wall_pair(counts, w, c, t).1,
{
    let e = comp_extent(counts, c);
    let (eu, ev) = wall_plane(counts, w, c);
    let (edge, inner) = wall_edge(counts, w);
    let a = wall_axis(w);
    vstd::arithmetic::div_mod::lemma_mod_pos_bound(t, eu);
    vstd::arithmetic::div_mod::lemma_div_pos_is_pos(t, eu);
    vstd::arithmetic::div_mod::lemma_multiply_divide_lt(t, eu, ev);
    let p = placed(a, edge, t % eu, t / eu);
    let q = placed(a, inner, t % eu, t / eu);
    if wall_pair(counts, w, c, t).0 == wall_pair(counts, w, c, t).1 {
        lemma_index3_injective(e.0, e.1, e.2, p, q);
    }
}

/// A rectangular cavity on a Yee grid: how many cells it has, which medium of a palette each
/// cell holds, and what each of its six faces does, which is everything about its layout that
/// is not a field value.
pub struct Cavity {
    name: String,
    counts: (usize, usize, usize),
    media: Vec<usize>,
    boundary: [Boundary; 6],
}

impl Cavity {
    #[verifier::type_invariant]
    closed spec fn shape_holds(self) -> bool {
        &&& self.counts.0 >= 1
        &&& self.counts.1 >= 1
        &&& self.counts.2 >= 1
        &&& (self.counts.0 + 1) * (self.counts.1 + 1) * (self.counts.2 + 1) <= isize::MAX
        &&& self.media@.len() == element_count(self.counts)
    }

    /// The palette entry of the medium each cell holds, x fastest.
    pub closed spec fn media_spec(&self) -> Seq<usize> {
        self.media@
    }

    /// Cells along each axis.
    pub closed spec fn counts_spec(&self) -> (usize, usize, usize) {
        self.counts
    }

    /// What each face does, in [`Wall::ALL`] order.
    pub closed spec fn boundaries_spec(&self) -> Seq<Boundary> {
        self.boundary@
    }

    /// What the box is called.
    pub closed spec fn name_spec(&self) -> Seq<char> {
        self.name@
    }

    /// A box of `counts` cells, each count raised to at least one, every cell holding palette
    /// entry zero (the medium the box was built in), every face conducting.
    pub fn new(name: String, counts: (usize, usize, usize)) -> (c: Cavity)
        requires
            (at_least_one(counts.0) + 1) * (at_least_one(counts.1) + 1) * (at_least_one(counts.2) + 1)
                <= isize::MAX,
        ensures
            c.counts_spec() == (
                at_least_one(counts.0) as usize,
                at_least_one(counts.1) as usize,
                at_least_one(counts.2) as usize,
            ),
            c.boundaries_spec() == seq![Boundary::Conducting; 6],
            c.name_spec() == name@,
            c.media_spec().len() == element_count(c.counts_spec()),
            forall|e: int| 0 <= e < c.media_spec().len() ==> c.media_spec()[e] == 0,
    {
        let counts = (
            if counts.0 < 1 { 1 } else { counts.0 },
            if counts.1 < 1 { 1 } else { counts.1 },
            if counts.2 < 1 { 1 } else { counts.2 },
        );
        proof {
            let (x, y, z) = (counts.0 as int, counts.1 as int, counts.2 as int);
            lemma_node_box_bounds(x, y, z);
            lemma_product_parts(x, y, z);
        }
        let cells = counts.0 * counts.1 * counts.2;
        let mut media: Vec<usize> = Vec::new();
        for _e in 0..cells
            invariant
                media@.len() == _e,
                forall|e: int| 0 <= e < media@.len() ==> media@[e] == 0,
        {
            media.push(0);
        }
        let c = Cavity { name, counts, media, boundary: [Boundary::Conducting; 6] };
        assert(c.boundary@ =~= seq![Boundary::Conducting; 6]);
        c
    }

    /// Cells along each axis.
    pub fn counts(&self) -> (c: (usize, usize, usize))
        ensures
            c == self.counts_spec(),
            c.0 >= 1 && c.1 >= 1 && c.2 >= 1,
            (c.0 + 1) * (c.1 + 1) * (c.2 + 1) <= isize::MAX,
            self.media_spec().len() == element_count(c),
            self.boundaries_spec().len() == 6,
    {
        proof {
            use_type_invariant(self);
        }
        self.counts
    }

    /// What the box is called.
    pub fn name(&self) -> (s: &str)
        ensures
            s@ == self.name_spec(),
    {
        self.name.as_str()
    }

    /// Make a face absorb rather than reflect, or the other way round.
    pub fn set_boundary(&mut self, wall: Wall, boundary: Boundary) -> (r: &mut Cavity)
        ensures
            r.counts_spec() == old(self).counts_spec(),
            r.name_spec() == old(self).name_spec(),
            r.media_spec() == old(self).media_spec(),
            r.boundaries_spec() == old(self).boundaries_spec().update(
                wall_index(wall) as int,
                boundary,
            ),
            *final(self) == *final(r),
    {
        proof {
            use_type_invariant(&*self);
        }
        let mut b = self.boundary;
        b[wall.index()] = boundary;
        self.boundary = b;
        self
    }

    /// Make every face absorb — open space, as near as Mur gets.
    pub fn open(&mut self) -> (r: &mut Cavity)
        ensures
            r.counts_spec() == old(self).counts_spec(),
            r.name_spec() == old(self).name_spec(),
            r.media_spec() == old(self).media_spec(),
            r.boundaries_spec() == seq![Boundary::Open; 6],
            *final(self) == *final(r),
    {
        proof {
            use_type_invariant(&*self);
        }
        let mut b = self.boundary;
        for w in 0..6usize
            invariant
                b@.len() == 6,
                forall|s: int| 0 <= s < w ==> b@[s] == Boundary::Open,
        {
            b[w] = Boundary::Open;
        }
        assert(b@ =~= seq![Boundary::Open; 6]);
        self.boundary = b;
        self
    }

    /// How many samples a component has along each axis.
    pub fn extent(&self, c: Component) -> (e: (usize, usize, usize))
        ensures
            (e.0 as int, e.1 as int, e.2 as int) == comp_extent(int_counts(self.counts_spec()), c),
    {
        proof {
            use_type_invariant(self);
            lemma_comp_len_fits(int_counts(self.counts), c);
            let (x, y, z) = (self.counts.0 as int, self.counts.1 as int, self.counts.2 as int);
            lemma_node_box_bounds(x, y, z);
        }
        let (nx, ny, nz) = self.counts;
        match c {
            Component::Ex => (nx, ny + 1, nz + 1),
            Component::Ey => (nx + 1, ny, nz + 1),
            Component::Ez => (nx + 1, ny + 1, nz),
            Component::Hx => (nx + 1, ny, nz),
            Component::Hy => (nx, ny + 1, nz),
            Component::Hz => (nx, ny, nz + 1),
        }
    }

    /// How many samples a component has in all: the length of its array.
    pub fn len(&self, c: Component) -> (n: usize)
        ensures
            n == comp_len(int_counts(self.counts_spec()), c),
            n >= 1,
    {
        proof {
            use_type_invariant(self);
            lemma_comp_len_fits(int_counts(self.counts), c);
        }
        let (a, b, d) = self.extent(c);
        proof {
            lemma_product_parts(a as int, b as int, d as int);
        }
        a * b * d
    }

    /// Where sample `(i, j, k)` of a component sits in that component's array.
    ///
    /// Written once against the component's own extent rather than six times by hand: a
    /// transposed stride is a scheme that still runs.
    pub fn index(&self, c: Component, i: usize, j: usize, k: usize) -> (n: usize)
        requires
            in_extent(int_counts(self.counts_spec()), c, (i as int, j as int, k as int)),
        ensures
            n == comp_index(int_counts(self.counts_spec()), c, (i as int, j as int, k as int)),
            n < comp_len(int_counts(self.counts_spec()), c),
    {
        proof {
            use_type_invariant(self);
            lemma_comp_len_fits(int_counts(self.counts), c);
        }
        let (a, b, d) = self.extent(c);
        proof {
            let e = comp_extent(int_counts(self.counts), c);
            assert(e.0 == a as int && e.1 == b as int && e.2 == d as int);
            lemma_index3_parts(a as int, b as int, d as int, i as int, j as int, k as int);
            lemma_index3_bound(a as int, b as int, d as int, i as int, j as int, k as int);
            lemma_product_parts(a as int, b as int, d as int);
            assert(comp_len(int_counts(self.counts), c) == a * b * d);
        }
        let inner = j + b * k;
        i + a * inner
    }


    /// The tangential samples of component `c` on a wall, in wall order, each with the sample
    /// one cell in: what a conducting face zeroes, a magnetic one mirrors, and Mur's condition
    /// updates from.
    fn wall_pairs(&self, wall: Wall, c: Component) -> (pairs: Vec<(usize, usize)>)
        requires
            c == tangential(wall).0 || c == tangential(wall).1,
        ensures
            pairs@.len() == wall_plane(int_counts(self.counts_spec()), wall, c).0 * wall_plane(
                int_counts(self.counts_spec()),
                wall,
                c,
            ).1,
            forall|t: int|
                0 <= t < pairs@.len() ==> #[trigger] pair_ints(pairs@[t]) == wall_pair(
                    int_counts(self.counts_spec()),
                    wall,
                    c,
                    t,
                ),
            forall|t: int|
                0 <= t < pairs@.len() ==> (#[trigger] pairs@[t]).0 < comp_len(int_counts(self.counts_spec()), c)
                    && pairs@[t].1 < comp_len(int_counts(self.counts_spec()), c),
    {
        proof {
            use_type_invariant(self);
        }
        let ghost counts = int_counts(self.counts);
        let (ex, ey, ez) = self.extent(c);
        let a = match wall {
            Wall::XLow | Wall::XHigh => 0usize,
            Wall::YLow | Wall::YHigh => 1usize,
            Wall::ZLow | Wall::ZHigh => 2usize,
        };
        let (eu, ev) = if a == 0 { (ey, ez) } else if a == 1 { (ex, ez) } else { (ex, ey) };
        let n = if a == 0 { self.counts.0 } else if a == 1 { self.counts.1 } else { self.counts.2 };
        let (edge, inner) = match wall {
            Wall::XHigh | Wall::YHigh | Wall::ZHigh => (n, n - 1),
            _ => (0usize, 1usize),
        };
        proof {
            lemma_comp_len_fits(counts, c);
        }
        let mut pairs: Vec<(usize, usize)> = Vec::new();
        assert(pairs@.len() == 0 * eu);
        for v in 0..ev
            invariant
                counts == int_counts(self.counts_spec()),
                counts.0 >= 1 && counts.1 >= 1 && counts.2 >= 1,
                c == tangential(wall).0 || c == tangential(wall).1,
                (ex as int, ey as int, ez as int) == comp_extent(counts, c),
                a == wall_axis(wall),
                (eu as int, ev as int) == wall_plane(counts, wall, c),
                eu >= 1,
                (edge as int, inner as int) == wall_edge(counts, wall),
                pairs@.len() == v * eu,
                forall|t: int|
                    0 <= t < pairs@.len() ==> #[trigger] pair_ints(pairs@[t]) == wall_pair(counts, wall, c, t),
                forall|t: int|
                    0 <= t < pairs@.len() ==> (#[trigger] pairs@[t]).0 < comp_len(counts, c)
                        && pairs@[t].1 < comp_len(counts, c),
        {
            for u in 0..eu
                invariant
                    counts == int_counts(self.counts_spec()),
                    counts.0 >= 1 && counts.1 >= 1 && counts.2 >= 1,
                    c == tangential(wall).0 || c == tangential(wall).1,
                    (ex as int, ey as int, ez as int) == comp_extent(counts, c),
                    a == wall_axis(wall),
                    (eu as int, ev as int) == wall_plane(counts, wall, c),
                    eu >= 1,
                    v < ev,
                    (edge as int, inner as int) == wall_edge(counts, wall),
                    pairs@.len() == v * eu + u,
                    forall|t: int|
                        0 <= t < pairs@.len() ==> #[trigger] pair_ints(pairs@[t]) == wall_pair(counts, wall, c, t),
                    forall|t: int|
                        0 <= t < pairs@.len() ==> (#[trigger] pairs@[t]).0 < comp_len(counts, c)
                            && pairs@[t].1 < comp_len(counts, c),
            {
                let (p, q) = if a == 0 {
                    ((edge, u, v), (inner, u, v))
                } else if a == 1 {
                    ((u, edge, v), (u, inner, v))
                } else {
                    ((u, v, edge), (u, v, inner))
                };
                proof {
                    lemma_split_row_major(v * eu + u, eu as int, u as int, v as int);
                }
                let first = self.index(c, p.0, p.1, p.2);
                let second = self.index(c, q.0, q.1, q.2);
                pairs.push((first, second));
            }
            proof {
                lemma_next_row(v as int, eu as int);
            }
        }
        assert(ev * eu == eu * ev) by (nonlinear_arith);
        pairs
    }

    /// Give each sample of component `c` on `wall` the value of the sample one cell in.
    fn copy_wall_inward<T: Copy>(&self, wall: Wall, c: Component, field: &mut Vec<T>)
        requires
            is_tangential(wall, c),
            old(field)@.len() == comp_len(int_counts(self.counts_spec()), c),
        ensures
            final(field)@ == copy_inward(
                int_counts(self.counts_spec()),
                wall,
                c,
                old(field)@,
                wall_len(int_counts(self.counts_spec()), wall, c) as nat,
            ),
            final(field)@.len() == old(field)@.len(),
    {
        let ghost start = field@;
        let ghost counts = int_counts(self.counts_spec());
        let pairs = self.wall_pairs(wall, c);
        for t in 0..pairs.len()
            invariant
                counts == int_counts(self.counts_spec()),
                pairs@.len() == wall_len(counts, wall, c),
                forall|s: int| 0 <= s < pairs@.len() ==> #[trigger] pair_ints(pairs@[s]) == wall_pair(counts, wall, c, s),
                forall|s: int|
                    0 <= s < pairs@.len() ==> (#[trigger] pairs@[s]).0 < comp_len(counts, c)
                        && pairs@[s].1 < comp_len(counts, c),
                field@.len() == comp_len(counts, c),
                field@ == copy_inward(counts, wall, c, start, t as nat),
        {
            let (a, b) = pairs[t];
            assert(pair_ints(pairs@[t as int]) == wall_pair(counts, wall, c, t as int));
            let v = field[b];
            field.set(a, v);
        }
    }

    /// Set each sample of component `c` on `wall` to `value`.
    fn set_wall<T: Copy>(&self, wall: Wall, c: Component, field: &mut Vec<T>, value: T)
        requires
            is_tangential(wall, c),
            old(field)@.len() == comp_len(int_counts(self.counts_spec()), c),
        ensures
            final(field)@ == set_on_wall(
                int_counts(self.counts_spec()),
                wall,
                c,
                old(field)@,
                value,
                wall_len(int_counts(self.counts_spec()), wall, c) as nat,
            ),
            final(field)@.len() == old(field)@.len(),
    {
        let ghost start = field@;
        let ghost counts = int_counts(self.counts_spec());
        let pairs = self.wall_pairs(wall, c);
        for t in 0..pairs.len()
            invariant
                counts == int_counts(self.counts_spec()),
                pairs@.len() == wall_len(counts, wall, c),
                forall|s: int| 0 <= s < pairs@.len() ==> #[trigger] pair_ints(pairs@[s]) == wall_pair(counts, wall, c, s),
                forall|s: int|
                    0 <= s < pairs@.len() ==> (#[trigger] pairs@[s]).0 < comp_len(counts, c)
                        && pairs@[s].1 < comp_len(counts, c),
                field@.len() == comp_len(counts, c),
                field@ == set_on_wall(counts, wall, c, start, value, t as nat),
        {
            let (a, _b) = pairs[t];
            assert(pair_ints(pairs@[t as int]) == wall_pair(counts, wall, c, t as int));
            field.set(a, value);
        }
    }

    /// Mirror the tangential electric field across every magnetic-conductor face, walls visited
    /// in [`Wall::ALL`] order: each sample on such a face takes the value of the sample one cell
    /// in, so the field's normal derivative there is zero — the condition that lets a box hold
    /// a plane wave.
    pub fn mirror_magnetic_walls<T: Copy>(&self, ex: &mut Vec<T>, ey: &mut Vec<T>, ez: &mut Vec<T>)
        requires
            old(ex)@.len() == comp_len(int_counts(self.counts_spec()), Component::Ex),
            old(ey)@.len() == comp_len(int_counts(self.counts_spec()), Component::Ey),
            old(ez)@.len() == comp_len(int_counts(self.counts_spec()), Component::Ez),
        ensures
            final(ex)@ == mirrored(int_counts(self.counts_spec()), self.boundaries_spec(), Component::Ex, old(ex)@),
            final(ey)@ == mirrored(int_counts(self.counts_spec()), self.boundaries_spec(), Component::Ey, old(ey)@),
            final(ez)@ == mirrored(int_counts(self.counts_spec()), self.boundaries_spec(), Component::Ez, old(ez)@),
    {
        let ghost counts = int_counts(self.counts_spec());
        let ghost faces = self.boundaries_spec();
        let ghost (x0, y0, z0) = (ex@, ey@, ez@);
        let mut w: usize = 0;
        while w < 6
            invariant
                w <= 6,
                counts == int_counts(self.counts_spec()),
                faces == self.boundaries_spec(),
                faces.len() == 6,
                ex@.len() == comp_len(counts, Component::Ex),
                ey@.len() == comp_len(counts, Component::Ey),
                ez@.len() == comp_len(counts, Component::Ez),
                ex@ == mirrored_through(counts, faces, Component::Ex, x0, w as nat),
                ey@ == mirrored_through(counts, faces, Component::Ey, y0, w as nat),
                ez@ == mirrored_through(counts, faces, Component::Ez, z0, w as nat),
            decreases 6 - w,
        {
            let wall = match w {
                0 => Wall::XLow,
                1 => Wall::XHigh,
                2 => Wall::YLow,
                3 => Wall::YHigh,
                4 => Wall::ZLow,
                _ => Wall::ZHigh,
            };
            assert(wall == wall_at(w as int));
            match self.boundary[w] {
                Boundary::Magnetic => match wall {
                    Wall::XLow | Wall::XHigh => {
                        self.copy_wall_inward(wall, Component::Ey, ey);
                        self.copy_wall_inward(wall, Component::Ez, ez);
                    },
                    Wall::YLow | Wall::YHigh => {
                        self.copy_wall_inward(wall, Component::Ex, ex);
                        self.copy_wall_inward(wall, Component::Ez, ez);
                    },
                    _ => {
                        self.copy_wall_inward(wall, Component::Ex, ex);
                        self.copy_wall_inward(wall, Component::Ey, ey);
                    },
                },
                _ => {},
            }
            w = w + 1;
        }
    }

    /// Set the tangential electric samples of every face whose boundary is `kind` to `value`,
    /// walls visited in [`Wall::ALL`] order — a perfect electric conductor where `kind` is
    /// conducting and `value` zero.
    pub fn enforce_walls_where<T: Copy>(&self, value: T, kind: Boundary, ex: &mut Vec<T>, ey: &mut Vec<T>, ez: &mut Vec<T>)
        requires
            old(ex)@.len() == comp_len(int_counts(self.counts_spec()), Component::Ex),
            old(ey)@.len() == comp_len(int_counts(self.counts_spec()), Component::Ey),
            old(ez)@.len() == comp_len(int_counts(self.counts_spec()), Component::Ez),
        ensures
            final(ex)@ == walls_set(int_counts(self.counts_spec()), walls_of_kind(self.boundaries_spec(), kind), Component::Ex, old(ex)@, value),
            final(ey)@ == walls_set(int_counts(self.counts_spec()), walls_of_kind(self.boundaries_spec(), kind), Component::Ey, old(ey)@, value),
            final(ez)@ == walls_set(int_counts(self.counts_spec()), walls_of_kind(self.boundaries_spec(), kind), Component::Ez, old(ez)@, value),
    {
        let mut selected = [false; 6];
        for w in 0..6usize
            invariant
                self.boundaries_spec().len() == 6,
                forall|s: int| 0 <= s < w ==> selected@[s] == (self.boundaries_spec()[s] == kind),
        {
            let pick = match (self.boundary[w], kind) {
                (Boundary::Conducting, Boundary::Conducting) => true,
                (Boundary::Magnetic, Boundary::Magnetic) => true,
                (Boundary::Open, Boundary::Open) => true,
                _ => false,
            };
            selected[w] = pick;
        }
        assert(selected@ =~= walls_of_kind(self.boundaries_spec(), kind));
        self.set_walls(value, selected, ex, ey, ez);
    }

    /// Set the tangential electric samples of all six faces to `value`, whatever their
    /// boundary.
    pub fn enforce_walls<T: Copy>(&self, value: T, ex: &mut Vec<T>, ey: &mut Vec<T>, ez: &mut Vec<T>)
        requires
            old(ex)@.len() == comp_len(int_counts(self.counts_spec()), Component::Ex),
            old(ey)@.len() == comp_len(int_counts(self.counts_spec()), Component::Ey),
            old(ez)@.len() == comp_len(int_counts(self.counts_spec()), Component::Ez),
        ensures
            final(ex)@ == walls_set(int_counts(self.counts_spec()), seq![true; 6], Component::Ex, old(ex)@, value),
            final(ey)@ == walls_set(int_counts(self.counts_spec()), seq![true; 6], Component::Ey, old(ey)@, value),
            final(ez)@ == walls_set(int_counts(self.counts_spec()), seq![true; 6], Component::Ez, old(ez)@, value),
    {
        let selected = [true; 6];
        assert(selected@ =~= seq![true; 6]);
        self.set_walls(value, selected, ex, ey, ez);
    }

    /// Set the tangential electric samples of every face `selected` picks to `value`.
    fn set_walls<T: Copy>(&self, value: T, selected: [bool; 6], ex: &mut Vec<T>, ey: &mut Vec<T>, ez: &mut Vec<T>)
        requires
            old(ex)@.len() == comp_len(int_counts(self.counts_spec()), Component::Ex),
            old(ey)@.len() == comp_len(int_counts(self.counts_spec()), Component::Ey),
            old(ez)@.len() == comp_len(int_counts(self.counts_spec()), Component::Ez),
        ensures
            final(ex)@ == walls_set(int_counts(self.counts_spec()), selected@, Component::Ex, old(ex)@, value),
            final(ey)@ == walls_set(int_counts(self.counts_spec()), selected@, Component::Ey, old(ey)@, value),
            final(ez)@ == walls_set(int_counts(self.counts_spec()), selected@, Component::Ez, old(ez)@, value),
    {
        let ghost counts = int_counts(self.counts_spec());
        let ghost (x0, y0, z0) = (ex@, ey@, ez@);
        let mut w: usize = 0;
        while w < 6
            invariant
                w <= 6,
                counts == int_counts(self.counts_spec()),
                selected@.len() == 6,
                ex@.len() == comp_len(counts, Component::Ex),
                ey@.len() == comp_len(counts, Component::Ey),
                ez@.len() == comp_len(counts, Component::Ez),
                ex@ == set_through(counts, selected@, Component::Ex, x0, value, w as nat),
                ey@ == set_through(counts, selected@, Component::Ey, y0, value, w as nat),
                ez@ == set_through(counts, selected@, Component::Ez, z0, value, w as nat),
            decreases 6 - w,
        {
            let wall = match w {
                0 => Wall::XLow,
                1 => Wall::XHigh,
                2 => Wall::YLow,
                3 => Wall::YHigh,
                4 => Wall::ZLow,
                _ => Wall::ZHigh,
            };
            assert(wall == wall_at(w as int));
            if selected[w] {
                match wall {
                    Wall::XLow | Wall::XHigh => {
                        self.set_wall(wall, Component::Ey, ey, value);
                        self.set_wall(wall, Component::Ez, ez, value);
                    },
                    Wall::YLow | Wall::YHigh => {
                        self.set_wall(wall, Component::Ex, ex, value);
                        self.set_wall(wall, Component::Ez, ez, value);
                    },
                    _ => {
                        self.set_wall(wall, Component::Ex, ex, value);
                        self.set_wall(wall, Component::Ey, ey, value);
                    },
                }
            }
            w = w + 1;
        }
    }

    /// The tangential electric samples on a wall, for both of the wall's tangential components
    /// (see [`Cavity::wall_pairs`]).
    pub fn tangential_pairs(&self, wall: Wall) -> (pairs: (Vec<(usize, usize)>, Vec<(usize, usize)>))
        ensures
            pairs.0@.len() == wall_plane(int_counts(self.counts_spec()), wall, tangential(wall).0).0
                * wall_plane(int_counts(self.counts_spec()), wall, tangential(wall).0).1,
            pairs.1@.len() == wall_plane(int_counts(self.counts_spec()), wall, tangential(wall).1).0
                * wall_plane(int_counts(self.counts_spec()), wall, tangential(wall).1).1,
            forall|t: int|
                0 <= t < pairs.0@.len() ==> #[trigger] pair_ints(pairs.0@[t]) == wall_pair(
                    int_counts(self.counts_spec()),
                    wall,
                    tangential(wall).0,
                    t,
                ),
            forall|t: int|
                0 <= t < pairs.1@.len() ==> #[trigger] pair_ints(pairs.1@[t]) == wall_pair(
                    int_counts(self.counts_spec()),
                    wall,
                    tangential(wall).1,
                    t,
                ),
            forall|t: int|
                0 <= t < pairs.0@.len() ==> (#[trigger] pairs.0@[t]).0 < comp_len(
                    int_counts(self.counts_spec()),
                    tangential(wall).0,
                ) && pairs.0@[t].1 < comp_len(int_counts(self.counts_spec()), tangential(wall).0),
            forall|t: int|
                0 <= t < pairs.1@.len() ==> (#[trigger] pairs.1@[t]).0 < comp_len(
                    int_counts(self.counts_spec()),
                    tangential(wall).1,
                ) && pairs.1@[t].1 < comp_len(int_counts(self.counts_spec()), tangential(wall).1),
    {
        let (c1, c2) = match wall {
            Wall::XLow | Wall::XHigh => (Component::Ey, Component::Ez),
            Wall::YLow | Wall::YHigh => (Component::Ex, Component::Ez),
            Wall::ZLow | Wall::ZHigh => (Component::Ex, Component::Ey),
        };
        (self.wall_pairs(wall, c1), self.wall_pairs(wall, c2))
    }


    /// The cell nearest to `(i, j, k)`, each coordinate brought inside the grid — so a sample
    /// at a wall reads the cell inside rather than one that is not there.
    pub fn cell_at(&self, i: isize, j: isize, k: isize) -> (n: usize)
        ensures
            n == cell_at(int_counts(self.counts_spec()), i as int, j as int, k as int),
            n < self.counts_spec().0 * self.counts_spec().1 * self.counts_spec().2,
    {
        proof {
            use_type_invariant(self);
            let (x, y, z) = (self.counts.0 as int, self.counts.1 as int, self.counts.2 as int);
            lemma_node_box_bounds(x, y, z);
        }
        let (nx, ny, nz) = self.counts;
        let ci = if i < 0 { 0usize } else if i > nx as isize - 1 { nx - 1 } else { i as usize };
        let cj = if j < 0 { 0usize } else if j > ny as isize - 1 { ny - 1 } else { j as usize };
        let ck = if k < 0 { 0usize } else if k > nz as isize - 1 { nz - 1 } else { k as usize };
        proof {
            lemma_index3_parts(nx as int, ny as int, nz as int, ci as int, cj as int, ck as int);
            lemma_index3_bound(nx as int, ny as int, nz as int, ci as int, cj as int, ck as int);
            lemma_product_parts(nx as int, ny as int, nz as int);
        }
        let inner = cj + ny * ck;
        ci + nx * inner
    }

    /// The palette entry of the medium at grid point `(i, j, k)`: the cell with each coordinate
    /// brought inside the box.
    pub fn medium_at(&self, i: usize, j: usize, k: usize) -> (m: usize)
        ensures
            m == self.media_spec()[cell_at(int_counts(self.counts_spec()), i as int, j as int, k as int)],
    {
        proof {
            use_type_invariant(self);
            let (x, y, z) = (self.counts.0 as int, self.counts.1 as int, self.counts.2 as int);
            lemma_node_box_bounds(x, y, z);
        }
        let (nx, ny, nz) = self.counts;
        let ci = if i < nx { i } else { nx - 1 };
        let cj = if j < ny { j } else { ny - 1 };
        let ck = if k < nz { k } else { nz - 1 };
        let n = self.cell_at(ci as isize, cj as isize, ck as isize);
        self.media[n]
    }

    /// The palette entry of the medium cell `cell` holds, by its index in the cell array.
    pub fn medium_of(&self, cell: usize) -> (m: usize)
        requires
            (cell as int) < self.media_spec().len(),
        ensures
            m == self.media_spec()[cell as int],
    {
        self.media[cell]
    }

    /// Fill the cells a predicate selects with palette entry `index` — how a slab, a coating or
    /// a lens goes into the box. The predicate is handed cell indices.
    pub fn fill(&mut self, index: usize, which: impl Fn(usize, usize, usize) -> bool) -> (r: &mut Cavity)
        requires
            forall|x: usize, y: usize, z: usize| #[trigger] which.requires((x, y, z)),
        ensures
            r.counts_spec() == old(self).counts_spec(),
            r.name_spec() == old(self).name_spec(),
            r.boundaries_spec() == old(self).boundaries_spec(),
            exists|selected: Seq<bool>|
                {
                    &&& selected.len() == old(self).media_spec().len()
                    &&& forall|e: int|
                        0 <= e < selected.len() ==> {
                            let c = element_at(old(self).counts_spec(), e);
                            which.ensures((c.0 as usize, c.1 as usize, c.2 as usize), #[trigger] selected[e])
                        }
                    &&& r.media_spec() == filled(old(self).media_spec(), index, selected)
                },
            *final(self) == *final(r),
    {
        proof {
            use_type_invariant(&*self);
        }
        let ghost start = self.media@;
        let next = select_cells(&self.media, self.counts, index, which);
        let ghost selected = choose|selected: Seq<bool>|
            {
                &&& selected.len() == start.len()
                &&& forall|e: int|
                    0 <= e < selected.len() ==> {
                        let c = element_at(self.counts, e);
                        which.ensures((c.0 as usize, c.1 as usize, c.2 as usize), #[trigger] selected[e])
                    }
                &&& next@ == filled(start, index, selected)
            };
        self.media = next;
        assert(self.media_spec() == filled(old(self).media_spec(), index, selected));
        self
    }

    /// The four cells whose media an electric sample averages.
    pub fn electric_cells(&self, c: Component, i: usize, j: usize, k: usize) -> (cells: [usize; 4])
        requires
            is_electric(c),
            in_extent(int_counts(self.counts_spec()), c, (i as int, j as int, k as int)),
        ensures
            cells@.map_values(|n: usize| n as int) == electric_cells(int_counts(self.counts_spec()), c, i as int, j as int, k as int),
            forall|t: int| 0 <= t < 4 ==> (#[trigger] cells@[t] as int) < self.media_spec().len(),
    {
        proof {
            use_type_invariant(self);
            let (x, y, z) = (self.counts.0 as int, self.counts.1 as int, self.counts.2 as int);
            lemma_node_box_bounds(x, y, z);
        }
        let (i, j, k) = (i as isize, j as isize, k as isize);
        let cells = match c {
            Component::Ex => [
                self.cell_at(i, j - 1, k - 1),
                self.cell_at(i, j, k - 1),
                self.cell_at(i, j - 1, k),
                self.cell_at(i, j, k),
            ],
            Component::Ey => [
                self.cell_at(i - 1, j, k - 1),
                self.cell_at(i, j, k - 1),
                self.cell_at(i - 1, j, k),
                self.cell_at(i, j, k),
            ],
            _ => [
                self.cell_at(i - 1, j - 1, k),
                self.cell_at(i, j - 1, k),
                self.cell_at(i - 1, j, k),
                self.cell_at(i, j, k),
            ],
        };
        assert(cells@.map_values(|n: usize| n as int) =~= electric_cells(int_counts(self.counts), c, i as int, j as int, k as int));
        cells
    }

    /// The two cells whose media a magnetic sample averages, or none for a sample on the far wall
    /// of its own axis, which borders no cell and takes the medium the box was built in.
    pub fn magnetic_cells(&self, c: Component, i: usize, j: usize, k: usize) -> (cells: Option<[usize; 2]>)
        requires
            !is_electric(c),
            in_extent(int_counts(self.counts_spec()), c, (i as int, j as int, k as int)),
        ensures
            cells is None <==> on_far_wall(int_counts(self.counts_spec()), c, i as int, j as int, k as int),
            cells matches Some(pair) ==> pair@.map_values(|n: usize| n as int) == magnetic_cells(
                int_counts(self.counts_spec()),
                c,
                i as int,
                j as int,
                k as int,
            ),
            cells matches Some(pair) ==> forall|t: int|
                0 <= t < 2 ==> (#[trigger] pair@[t] as int) < self.media_spec().len(),
    {
        proof {
            use_type_invariant(self);
            let (x, y, z) = (self.counts.0 as int, self.counts.1 as int, self.counts.2 as int);
            lemma_node_box_bounds(x, y, z);
        }
        let (nx, ny, nz) = self.counts;
        let far = match c {
            Component::Hx => i == nx,
            Component::Hy => j == ny,
            _ => k == nz,
        };
        if far {
            return None;
        }
        let (i, j, k) = (i as isize, j as isize, k as isize);
        let cells = match c {
            Component::Hx => [self.cell_at(i - 1, j, k), self.cell_at(i, j, k)],
            Component::Hy => [self.cell_at(i, j - 1, k), self.cell_at(i, j, k)],
            _ => [self.cell_at(i, j, k - 1), self.cell_at(i, j, k)],
        };
        assert(cells@.map_values(|n: usize| n as int) =~= magnetic_cells(int_counts(self.counts), c, i as int, j as int, k as int));
        Some(cells)
    }

    /// The sample of a component nearest to `(i, j, k)`: each coordinate brought inside the
    /// component's own extent, then indexed — how a field is read at a grid point.
    pub fn nearest(&self, c: Component, i: usize, j: usize, k: usize) -> (n: usize)
        ensures
            ({
                let e = comp_extent(int_counts(self.counts_spec()), c);
                n == comp_index(
                    int_counts(self.counts_spec()),
                    c,
                    (
                        if (i as int) < e.0 { i as int } else { e.0 - 1 },
                        if (j as int) < e.1 { j as int } else { e.1 - 1 },
                        if (k as int) < e.2 { k as int } else { e.2 - 1 },
                    ),
                )
            }),
            n < comp_len(int_counts(self.counts_spec()), c),
    {
        proof {
            use_type_invariant(self);
            lemma_comp_len_fits(int_counts(self.counts), c);
        }
        let (a, b, d) = self.extent(c);
        let ci = if i < a { i } else { a - 1 };
        let cj = if j < b { j } else { b - 1 };
        let ck = if k < d { k } else { d - 1 };
        self.index(c, ci, cj, ck)
    }

    /// What a face currently does.
    pub fn boundary(&self, wall: Wall) -> (b: Boundary)
        ensures
            b == self.boundaries_spec()[wall_index(wall) as int],
            self.boundaries_spec().len() == 6,
    {
        self.boundary[wall.index()]
    }
}

} // verus!
