use vstd::prelude::*;
use vstd::arithmetic::div_mod::*;

use crate::block::{lemma_node_at_in_grid, node_at};

verus! {

/// Where node `(i, j, k)` sits in an array laid out x fastest, then y, then z, on a grid with
/// `nx` by `ny` samples in each layer.
pub open spec fn index3(nx: int, ny: int, i: int, j: int, k: int) -> int {
    i + nx * (j + ny * k)
}

/// Where node `(i, j, k)` sits in an array over a grid of `nodes`, laid out x fastest.
pub fn node_index(nodes: (usize, usize, usize), i: usize, j: usize, k: usize) -> (n: usize)
    requires
        i < nodes.0,
        j < nodes.1,
        k < nodes.2,
        nodes.0 * nodes.1 * nodes.2 <= usize::MAX,
    ensures
        n == index3(nodes.0 as int, nodes.1 as int, i as int, j as int, k as int),
        n < nodes.0 * nodes.1 * nodes.2,
{
    proof {
        let (x, y, z) = (nodes.0 as int, nodes.1 as int, nodes.2 as int);
        lemma_index3_parts(x, y, z, i as int, j as int, k as int);
        lemma_index3_bound(x, y, z, i as int, j as int, k as int);
        lemma_product_parts(x, y, z);
    }
    let inner = j + nodes.1 * k;
    i + nodes.0 * inner
}

/// The node of a grid of `nodes` nearest to `(i, j, k)`: each coordinate brought inside the
/// grid first, then indexed.
pub fn clamped_node_index(nodes: (usize, usize, usize), i: usize, j: usize, k: usize) -> (n: usize)
    requires
        nodes.0 >= 1,
        nodes.1 >= 1,
        nodes.2 >= 1,
        nodes.0 * nodes.1 * nodes.2 <= usize::MAX,
    ensures
        n == index3(
            nodes.0 as int,
            nodes.1 as int,
            if i < nodes.0 { i as int } else { nodes.0 - 1 },
            if j < nodes.1 { j as int } else { nodes.1 - 1 },
            if k < nodes.2 { k as int } else { nodes.2 - 1 },
        ),
        n < nodes.0 * nodes.1 * nodes.2,
{
    let i = if i < nodes.0 { i } else { nodes.0 - 1 };
    let j = if j < nodes.1 { j } else { nodes.1 - 1 };
    let k = if k < nodes.2 { k } else { nodes.2 - 1 };
    node_index(nodes, i, j, k)
}

/// Replace with `true` every entry of `held` that `dofs` names; leave the rest.
pub open spec fn raised(held: Seq<bool>, dofs: Seq<usize>) -> Seq<bool> {
    Seq::new(held.len(), |d: int| held[d] || dofs.contains(d as usize))
}

/// A copy of `held` with every entry `dofs` names made `true`.
pub(crate) fn raise_all(held: &Vec<bool>, dofs: &Vec<usize>) -> (out: Vec<bool>)
    requires
        forall|t: int| 0 <= t < dofs@.len() ==> (#[trigger] dofs@[t] as int) < held@.len(),
    ensures
        out@ == raised(held@, dofs@),
{
    let mut out = held.clone();
    assert(out@ =~= held@);
    assert(out@ =~= raised(held@, dofs@.take(0)));
    for t in 0..dofs.len()
        invariant
            held@.len() <= usize::MAX,
            out@ == raised(held@, dofs@.take(t as int)),
            forall|s: int| 0 <= s < dofs@.len() ==> (#[trigger] dofs@[s] as int) < held@.len(),
    {
        let d = dofs[t];
        proof {
            lemma_raised_push(held@, dofs@.take(t as int), d);
            assert(dofs@.take(t as int).push(d) =~= dofs@.take(t + 1));
        }
        out.set(d, true);
    }
    assert(dofs@.take(dofs@.len() as int) =~= dofs@);
    out
}

/// Raising one more entry is an update of that entry to `true`.
pub proof fn lemma_raised_push(held: Seq<bool>, dofs: Seq<usize>, d: usize)
    requires
        (d as int) < held.len(),
        held.len() <= usize::MAX,
    ensures
        raised(held, dofs.push(d)) =~= raised(held, dofs).update(d as int, true),
{
    assert forall|x: int| 0 <= x < held.len() implies raised(held, dofs.push(d))[x] == raised(
        held,
        dofs,
    ).update(d as int, true)[x] by {
        if dofs.push(d).contains(x as usize) {
            let w = choose|w: int| 0 <= w < dofs.push(d).len() && dofs.push(d)[w] == x as usize;
            if w < dofs.len() {
                assert(dofs[w] == x as usize);
                assert(dofs.contains(x as usize));
            }
        }
        if dofs.contains(x as usize) {
            let w = choose|w: int| 0 <= w < dofs.len() && dofs[w] == x as usize;
            assert(dofs.push(d)[w] == x as usize);
        }
        if x == d as int {
            assert(dofs.push(d)[dofs.len() as int] == d);
        }
    }
}

/// Holding is never undone by holding more: whatever was held stays held, and what the list
/// names is held afterwards.
pub proof fn lemma_holds_only_grow(held: Seq<bool>, dofs: Seq<usize>)
    requires
        held.len() <= usize::MAX,
    ensures
        raised(held, dofs).len() == held.len(),
        forall|d: int| 0 <= d < held.len() && held[d] ==> #[trigger] raised(held, dofs)[d],
        forall|t: int|
            0 <= t < dofs.len() && (dofs[t] as int) < held.len() ==> raised(held, dofs)[#[trigger] dofs[t] as int],
{
    assert forall|t: int|
        0 <= t < dofs.len() && (dofs[t] as int) < held.len() implies raised(held, dofs)[#[trigger] dofs[t] as int] by {
        assert(dofs.contains(dofs[t]));
        assert(dofs[t] as int as usize == dofs[t]);
    }
}

/// Holding the same degrees of freedom twice is holding them once.
pub proof fn lemma_holding_twice_is_holding_once(held: Seq<bool>, dofs: Seq<usize>)
    ensures
        raised(raised(held, dofs), dofs) =~= raised(held, dofs),
{
}

/// Holding can only take degrees of freedom away from the free ones.
pub proof fn lemma_holding_never_frees(held: Seq<bool>, dofs: Seq<usize>)
    ensures
        raised(held, dofs).filter(|h: bool| !h).len() <= held.filter(|h: bool| !h).len(),
    decreases held.len(),
{
    reveal_with_fuel(Seq::filter, 1);
    if held.len() > 0 {
        let r = raised(held, dofs);
        assert(r.drop_last() =~= raised(held.drop_last(), dofs));
        lemma_holding_never_frees(held.drop_last(), dofs);
    }
}

/// Two samples inside a grid that share an array slot are one sample: the layout loses
/// nothing, so no transposed stride can hide behind it.
pub proof fn lemma_index3_injective(
    nx: int,
    ny: int,
    nz: int,
    a: (int, int, int),
    b: (int, int, int),
)
    requires
        0 <= a.0 < nx,
        0 <= a.1 < ny,
        0 <= a.2 < nz,
        0 <= b.0 < nx,
        0 <= b.1 < ny,
        0 <= b.2 < nz,
        index3(nx, ny, a.0, a.1, a.2) == index3(nx, ny, b.0, b.1, b.2),
    ensures
        a == b,
{
    assert(0 <= a.1 + ny * a.2 && 0 <= b.1 + ny * b.2) by (nonlinear_arith)
        requires
            0 <= a.1,
            0 <= a.2,
            0 <= b.1,
            0 <= b.2,
            0 < ny,
    ;
    assert(ny * a.2 == a.2 * ny && ny * b.2 == b.2 * ny) by (nonlinear_arith);
    assert(nx * (a.1 + ny * a.2) == (a.1 + ny * a.2) * nx) by (nonlinear_arith);
    assert(nx * (b.1 + ny * b.2) == (b.1 + ny * b.2) * nx) by (nonlinear_arith);
    let (ra, rb) = (a.1 + ny * a.2, b.1 + ny * b.2);
    lemma_split_row_major(index3(nx, ny, a.0, a.1, a.2), nx, a.0, ra);
    lemma_split_row_major(index3(nx, ny, b.0, b.1, b.2), nx, b.0, rb);
    lemma_split_row_major(ra, ny, a.1, a.2);
    lemma_split_row_major(rb, ny, b.1, b.2);
}

/// A coordinate inside a grid of `nx` by `ny` by `nz` lands inside the array.
pub proof fn lemma_index3_bound(nx: int, ny: int, nz: int, i: int, j: int, k: int)
    requires
        0 <= i < nx,
        0 <= j < ny,
        0 <= k < nz,
    ensures
        0 <= index3(nx, ny, i, j, k) < nx * ny * nz,
{
    assert(0 <= j + ny * k <= ny * nz - 1) by (nonlinear_arith)
        requires
            0 <= j < ny,
            0 <= k < nz,
    ;
    assert(0 <= nx * (j + ny * k) <= nx * (ny * nz - 1)) by (nonlinear_arith)
        requires
            0 <= j + ny * k <= ny * nz - 1,
            0 < nx,
    ;
    assert(nx * (ny * nz - 1) == nx * ny * nz - nx) by (nonlinear_arith);
}

/// The partial sums of a node index stay below the grid's size, so none of them overflows.
pub proof fn lemma_index3_parts(nx: int, ny: int, nz: int, i: int, j: int, k: int)
    requires
        0 <= i < nx,
        0 <= j < ny,
        0 <= k < nz,
    ensures
        0 <= ny * k <= j + ny * k < ny * nz,
        0 <= nx * (j + ny * k) < nx * ny * nz,
        nx * ny * nz <= 3 * nx * ny * nz,
        3 * index3(nx, ny, i, j, k) + 2 < 3 * nx * ny * nz,
{
    lemma_index3_bound(nx, ny, nz, i, j, k);
    assert(0 <= ny * k <= j + ny * k < ny * nz) by (nonlinear_arith)
        requires
            0 <= j < ny,
            0 <= k < nz,
    ;
    assert(0 <= nx * (j + ny * k) <= nx * (ny * nz) - nx) by (nonlinear_arith)
        requires
            0 <= j + ny * k < ny * nz,
            0 < nx,
    ;
    assert(nx * (ny * nz) == nx * ny * nz) by (nonlinear_arith);
    assert(3 * nx * ny * nz == 3 * (nx * ny * nz)) by (nonlinear_arith);
    assert(nx * ny * nz >= 0) by (nonlinear_arith)
        requires
            0 < nx,
            0 < ny,
            0 < nz,
    ;
}

/// The product of three positive extents and its partial products are all no larger than
/// three times the product.
pub proof fn lemma_product_parts(a: int, b: int, c: int)
    requires
        a >= 1,
        b >= 1,
        c >= 1,
    ensures
        3 * a <= 3 * a * b,
        3 * a * b <= 3 * a * b * c,
        a * b <= a * b * c,
        b * c <= a * b * c,
        a * c <= a * b * c,
        a * b * c <= 3 * a * b * c,
        a <= a * b,
{
    assert(3 * a <= 3 * a * b) by (nonlinear_arith)
        requires
            a >= 1,
            b >= 1,
    ;
    assert(3 * a * b <= 3 * a * b * c) by (nonlinear_arith)
        requires
            a >= 1,
            b >= 1,
            c >= 1,
    ;
    assert(a * b <= a * b * c) by (nonlinear_arith)
        requires
            a >= 1,
            b >= 1,
            c >= 1,
    ;
    assert(b * c <= a * b * c) by (nonlinear_arith)
        requires
            a >= 1,
            b >= 1,
            c >= 1,
    ;
    assert(a * c <= a * b * c) by (nonlinear_arith)
        requires
            a >= 1,
            b >= 1,
            c >= 1,
    ;
    assert(a * b * c <= 3 * a * b * c) by (nonlinear_arith)
        requires
            a >= 1,
            b >= 1,
            c >= 1,
    ;
    assert(a <= a * b) by (nonlinear_arith)
        requires
            a >= 1,
            b >= 1,
    ;
}

/// The position `t` of a row-major walk over a `w`-wide plane, split into its two coordinates.
pub proof fn lemma_split_row_major(t: int, w: int, a: int, b: int)
    requires
        w > 0,
        0 <= a < w,
        0 <= b,
        t == b * w + a,
    ensures
        t % w == a,
        t / w == b,
{
    lemma_fundamental_div_mod_converse(t, w, b, a);
}

/// Two layers of a product are nested: `(a + 1) · w = a · w + w`.
pub proof fn lemma_next_row(a: int, w: int)
    ensures
        (a + 1) * w == a * w + w,
{
    assert((a + 1) * w == a * w + w) by (nonlinear_arith);
}

/// The cell at position `e` of a cell array, x fastest, on a grid of `counts` cells.
pub open spec fn element_at(counts: (usize, usize, usize), e: int) -> (int, int, int) {
    node_at((counts.0 as int, counts.1 as int, counts.2 as int), e)
}

/// How many cells a grid of `counts` has.
pub open spec fn element_count(counts: (usize, usize, usize)) -> int {
    counts.0 * counts.1 * counts.2
}

/// `old`, with every cell that `selected` picks made palette entry `index`.
pub open spec fn filled<V>(old: Seq<V>, index: V, selected: Seq<bool>) -> Seq<V> {
    Seq::new(old.len(), |e: int| if selected[e] { index } else { old[e] })
}

/// How many of the first `n` entries differ between `a` and `b`.
pub open spec fn differing(a: Seq<u16>, b: Seq<u16>, n: nat) -> nat
    decreases n,
{
    if n == 0 {
        0
    } else {
        differing(a, b, (n - 1) as nat) + if a[n - 1] != b[n - 1] { 1nat } else { 0nat }
    }
}

/// A copy of a palette-index array over a grid of `counts` cells with every cell the predicate
/// accepts made entry `index`. The predicate is handed the cell's coordinates, x fastest.
pub(crate) fn select_cells<V: Copy, F: Fn(usize, usize, usize) -> bool>(
    cells: &Vec<V>,
    counts: (usize, usize, usize),
    index: V,
    which: F,
) -> (out: Vec<V>)
    requires
        counts.0 >= 1 && counts.1 >= 1 && counts.2 >= 1,
        cells@.len() == element_count(counts),
        forall|x: usize, y: usize, z: usize| #[trigger] which.requires((x, y, z)),
    ensures
        exists|selected: Seq<bool>|
            {
                &&& selected.len() == cells@.len()
                &&& forall|e: int|
                    0 <= e < selected.len() ==> {
                        let c = element_at(counts, e);
                        which.ensures((c.0 as usize, c.1 as usize, c.2 as usize), #[trigger] selected[e])
                    }
                &&& out@ == filled(cells@, index, selected)
            },
{
    let ghost grid = (counts.0 as int, counts.1 as int, counts.2 as int);
    let ghost start = cells@;
    let (ex, ey, _ez) = counts;
    let total = cells.len();
    let mut next: Vec<V> = Vec::new();
    for e in 0..total
        invariant
            total == start.len(),
            start == cells@,
            next@ == start.take(e as int),
    {
        next.push(cells[e]);
        assert(next@ =~= start.take(e + 1));
    }
    assert(next@ =~= start);
    let ghost mut selected: Seq<bool> = Seq::empty();
    for e in 0..total
        invariant
            grid == (counts.0 as int, counts.1 as int, counts.2 as int),
            grid.0 >= 1 && grid.1 >= 1 && grid.2 >= 1,
            total == start.len(),
            start.len() == grid.0 * grid.1 * grid.2,
            ex == grid.0 && ey == grid.1,
            forall|x: usize, y: usize, z: usize| #[trigger] which.requires((x, y, z)),
            next@.len() == start.len(),
            selected.len() == e,
            forall|s: int|
                0 <= s < e ==> {
                    let c = element_at(counts, s);
                    which.ensures((c.0 as usize, c.1 as usize, c.2 as usize), #[trigger] selected[s])
                },
            forall|s: int| 0 <= s < e ==> next@[s] == (if #[trigger] selected[s] { index } else { start[s] }),
            forall|s: int| e <= s < start.len() ==> next@[s] == start[s],
    {
        let e_x = e % ex;
        let q = e / ex;
        let e_y = q % ey;
        let e_z = q / ey;
        proof {
            lemma_node_at_in_grid(grid, e as int);
        }
        let pick = which(e_x, e_y, e_z);
        proof {
            selected = selected.push(pick);
        }
        if pick {
            next.set(e, index);
        }
        proof {
            assert forall|s: int| 0 <= s <= e implies next@[s] == (if #[trigger] selected[s] { index } else { start[s] }) by {
            }
        }
    }
    proof {
        assert(next@ =~= filled(start, index, selected));
    }
    next
}

/// How many entries differ between two palette-index arrays of one length.
pub(crate) fn count_changes(a: &Vec<u16>, b: &Vec<u16>) -> (n: usize)
    requires
        a@.len() == b@.len(),
    ensures
        n == differing(a@, b@, a@.len()),
{
    let mut changed: usize = 0;
    for e in 0..a.len()
        invariant
            a@.len() == b@.len(),
            changed == differing(a@, b@, e as nat),
            changed <= e,
    {
        if a[e] != b[e] {
            changed += 1;
        }
    }
    changed
}

/// A copy of a palette-index array over a grid of `counts` cells with every cell the predicate
/// accepts made entry `index`, and how many entries that changed.
pub(crate) fn fill_cells<F: Fn(usize, usize, usize) -> bool>(
    cells: &Vec<u16>,
    counts: (usize, usize, usize),
    index: u16,
    which: F,
) -> (out: (Vec<u16>, usize))
    requires
        counts.0 >= 1 && counts.1 >= 1 && counts.2 >= 1,
        cells@.len() == element_count(counts),
        forall|x: usize, y: usize, z: usize| #[trigger] which.requires((x, y, z)),
    ensures
        exists|selected: Seq<bool>|
            {
                &&& selected.len() == cells@.len()
                &&& forall|e: int|
                    0 <= e < selected.len() ==> {
                        let c = element_at(counts, e);
                        which.ensures((c.0 as usize, c.1 as usize, c.2 as usize), #[trigger] selected[e])
                    }
                &&& out.0@ == filled(cells@, index, selected)
            },
        out.1 == differing(cells@, out.0@, cells@.len()),
{
    let next = select_cells(cells, counts, index, which);
    let changed = count_changes(cells, &next);
    (next, changed)
}

/// No differences over the whole length is equality.
pub proof fn lemma_no_difference_is_equality(a: Seq<u16>, b: Seq<u16>)
    requires
        a.len() == b.len(),
    ensures
        differing(a, b, a.len()) == 0 <==> a == b,
{
    lemma_differing_counts_each(a, b, a.len());
    if differing(a, b, a.len()) == 0 {
        assert(a =~= b);
    }
}

/// Every differing entry of a prefix is counted.
proof fn lemma_differing_counts_each(a: Seq<u16>, b: Seq<u16>, n: nat)
    ensures
        differing(a, b, n) == 0 <==> forall|i: int| 0 <= i < n ==> a[i] == b[i],
    decreases n,
{
    if n > 0 {
        lemma_differing_counts_each(a, b, (n - 1) as nat);
    }
}

/// Filling with what the selected cells already hold changes nothing: a second identical
/// fill reports zero and leaves the palette indices as they were.
pub proof fn lemma_refilling_changes_nothing(old: Seq<u16>, index: u16, selected: Seq<bool>)
    requires
        selected.len() == old.len(),
    ensures
        filled(filled(old, index, selected), index, selected) == filled(old, index, selected),
        differing(filled(old, index, selected), filled(filled(old, index, selected), index, selected), old.len()) == 0,
{
    let once = filled(old, index, selected);
    assert(filled(once, index, selected) =~= once);
    lemma_no_difference_is_equality(once, filled(once, index, selected));
}


} // verus!
