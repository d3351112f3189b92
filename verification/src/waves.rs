use vstd::prelude::*;
use vstd::arithmetic::div_mod::{lemma_div_pos_is_pos, lemma_mod_pos_bound, lemma_multiply_divide_lt};

use crate::axis::{axis_index, Axis};
use crate::block::{as_ints, at_least_one, dof_count, extent, in_grid, lemma_node_at_in_grid, node_at, nodes_of};
use crate::grid::{
    clamped_node_index, differing, element_at, element_count, fill_cells, filled, index3, node_index, lemma_index3_parts, lemma_product_parts,
    lemma_split_row_major, raise_all, raised,
};

verus! {

/// Degree of freedom `axis` of every node, node after node.
pub open spec fn axis_dofs(nodes: (int, int, int), axis: nat) -> Seq<usize> {
    Seq::new((nodes.0 * nodes.1 * nodes.2) as nat, |n: int| (3 * n + axis) as usize)
}

/// Whether a node sits at either end of an axis.
pub open spec fn at_an_end(nodes: (int, int, int), axis: nat, p: (int, int, int)) -> bool {
    let at = if axis == 0 { p.0 } else if axis == 1 { p.1 } else { p.2 };
    at == 0 || at == extent(nodes, axis) - 1
}

/// The position `n` of a node array, then its three degrees of freedom, for every node at an
/// end of `axis`, in array order.
pub open spec fn end_nodes(nodes: (int, int, int), axis: nat) -> Seq<int> {
    Seq::new((nodes.0 * nodes.1 * nodes.2) as nat, |n: int| n).filter(
        |n: int| at_an_end(nodes, axis, node_at(nodes, n)),
    )
}

/// The three degrees of freedom of each node position in `ns`, in turn.
pub open spec fn dofs_of_positions(ns: Seq<int>) -> Seq<usize> {
    Seq::new(3 * ns.len(), |t: int| (3 * ns[t / 3] + t % 3) as usize)
}

/// A rectangular elastic body that carries waves, as far as its topology goes: which palette
/// entry each element is made of, and which displacement components are held at zero.
pub struct Waves {
    name: String,
    counts: (usize, usize, usize),
    nodes: (usize, usize, usize),
    which: Vec<u16>,
    held: Vec<bool>,
}

impl Waves {
    #[verifier::type_invariant]
    closed spec fn shape_holds(self) -> bool {
        &&& self.counts.0 >= 1
        &&& self.counts.1 >= 1
        &&& self.counts.2 >= 1
        &&& self.nodes.0 == self.counts.0 + 1
        &&& self.nodes.1 == self.counts.1 + 1
        &&& self.nodes.2 == self.counts.2 + 1
        &&& self.held@.len() == dof_count(nodes_of(self.counts))
        &&& self.which@.len() == element_count(self.counts)
        &&& dof_count(nodes_of(self.counts)) <= usize::MAX
    }

    /// Elements along each axis.
    pub closed spec fn elements_spec(&self) -> (usize, usize, usize) {
        self.counts
    }

    /// The palette entry of each element, x fastest.
    pub closed spec fn which_spec(&self) -> Seq<u16> {
        self.which@
    }

    /// Whether each degree of freedom — three per node, node-major — is held at zero.
    pub closed spec fn held_spec(&self) -> Seq<bool> {
        self.held@
    }

    /// What the body is called.
    pub closed spec fn name_spec(&self) -> Seq<char> {
        self.name@
    }

    /// A body of `counts` elements, each count raised to at least one, all of palette entry zero,
    /// nothing held.
    pub fn new(name: String, counts: (usize, usize, usize)) -> (w: Waves)
        requires
            counts.0 < usize::MAX,
            counts.1 < usize::MAX,
            counts.2 < usize::MAX,
            3 * (at_least_one(counts.0) + 1) * (at_least_one(counts.1) + 1) * (at_least_one(
                counts.2,
            ) + 1) <= usize::MAX,
        ensures
            w.elements_spec() == (
                at_least_one(counts.0) as usize,
                at_least_one(counts.1) as usize,
                at_least_one(counts.2) as usize,
            ),
            w.held_spec().len() == dof_count(nodes_of(w.elements_spec())),
            forall|d: int| 0 <= d < w.held_spec().len() ==> !w.held_spec()[d],
            w.which_spec().len() == element_count(w.elements_spec()),
            forall|e: int| 0 <= e < w.which_spec().len() ==> w.which_spec()[e] == 0,
            w.name_spec() == name@,
    {
        let counts = (
            if counts.0 < 1 { 1 } else { counts.0 },
            if counts.1 < 1 { 1 } else { counts.1 },
            if counts.2 < 1 { 1 } else { counts.2 },
        );
        let nodes = (counts.0 + 1, counts.1 + 1, counts.2 + 1);
        proof {
            lemma_product_parts(nodes.0 as int, nodes.1 as int, nodes.2 as int);
            assert(counts.0 * counts.1 * counts.2 <= nodes.0 * nodes.1 * nodes.2) by (nonlinear_arith)
                requires
                    nodes.0 == counts.0 + 1,
                    nodes.1 == counts.1 + 1,
                    nodes.2 == counts.2 + 1,
                    counts.0 >= 1,
                    counts.1 >= 1,
                    counts.2 >= 1,
            ;
        }
        proof {
            lemma_product_parts(counts.0 as int, counts.1 as int, counts.2 as int);
        }
        let n = 3 * nodes.0 * nodes.1 * nodes.2;
        let elements = counts.0 * counts.1 * counts.2;
        let mut held: Vec<bool> = Vec::new();
        for _d in 0..n
            invariant
                held@.len() == _d,
                forall|d: int| 0 <= d < held@.len() ==> !held@[d],
        {
            held.push(false);
        }
        let mut which: Vec<u16> = Vec::new();
        for _e in 0..elements
            invariant
                which@.len() == _e,
                forall|e: int| 0 <= e < which@.len() ==> which@[e] == 0,
        {
            which.push(0);
        }
        Waves { name, counts, nodes, which, held }
    }

    /// Elements along each axis.
    pub fn elements(&self) -> (c: (usize, usize, usize))
        ensures
            c == self.elements_spec(),
            c.0 >= 1 && c.1 >= 1 && c.2 >= 1,
            self.held_spec().len() == dof_count(nodes_of(c)),
            self.which_spec().len() == element_count(c),
            dof_count(nodes_of(c)) <= usize::MAX,
    {
        proof {
            use_type_invariant(self);
        }
        self.counts
    }

    /// Nodes along each axis, one more than the elements.
    pub fn node_counts(&self) -> (n: (usize, usize, usize))
        ensures
            as_ints(n) == nodes_of(self.elements_spec()),
    {
        proof {
            use_type_invariant(self);
        }
        self.nodes
    }

    /// What the body is called.
    pub fn name(&self) -> (s: &str)
        ensures
            s@ == self.name_spec(),
    {
        self.name.as_str()
    }

    /// The palette entry one element is made of, by element index `e_x + nx·(e_y + ny·e_z)`,
    /// which has to land inside the element array.
    pub fn material_index_at(&self, e_x: usize, e_y: usize, e_z: usize) -> (m: usize)
        requires
            e_x + self.elements_spec().0 * (e_y + self.elements_spec().1 * e_z) < self.which_spec().len(),
        ensures
            m == self.which_spec()[e_x + self.elements_spec().0 * (e_y + self.elements_spec().1 * e_z)],
    {
        proof {
            use_type_invariant(self);
            let (cx, cy) = (self.counts.0 as int, self.counts.1 as int);
            assert(0 <= cy * e_z <= e_y + cy * e_z <= cx * (e_y + cy * e_z)) by (nonlinear_arith)
                requires
                    cx >= 1,
                    cy >= 1,
                    e_y >= 0,
                    e_z >= 0,
            ;
        }
        let (ex, ey, _) = self.counts;
        let _len = self.which.len();
        let inner = e_y + ey * e_z;
        self.which[e_x + ex * inner] as usize
    }


    /// Where node `(i, j, k)` sits in a node array, x fastest.
    pub fn node(&self, i: usize, j: usize, k: usize) -> (n: usize)
        requires
            (i as int) < nodes_of(self.elements_spec()).0,
            (j as int) < nodes_of(self.elements_spec()).1,
            (k as int) < nodes_of(self.elements_spec()).2,
        ensures
            n == index3(nodes_of(self.elements_spec()).0, nodes_of(self.elements_spec()).1, i as int, j as int, k as int),
            3 * n + 2 < dof_count(nodes_of(self.elements_spec())),
    {
        proof {
            use_type_invariant(self);
            let (nx, ny, nz) = (self.nodes.0 as int, self.nodes.1 as int, self.nodes.2 as int);
            lemma_product_parts(nx, ny, nz);
            assert(dof_count(nodes_of(self.counts)) == 3 * nx * ny * nz);
        }
        let n = node_index(self.nodes, i, j, k);
        proof {
            let (nx, ny, nz) = (self.nodes.0 as int, self.nodes.1 as int, self.nodes.2 as int);
            assert(3 * n + 2 < 3 * nx * ny * nz) by (nonlinear_arith)
                requires
                    n < nx * ny * nz,
            ;
        }
        n
    }

    /// Node `(i, j, k)` with each coordinate brought inside the grid first.
    pub fn clamped_node(&self, i: usize, j: usize, k: usize) -> (n: usize)
        ensures
            n == index3(
                nodes_of(self.elements_spec()).0,
                nodes_of(self.elements_spec()).1,
                if i < self.elements_spec().0 { i as int } else { self.elements_spec().0 as int },
                if j < self.elements_spec().1 { j as int } else { self.elements_spec().1 as int },
                if k < self.elements_spec().2 { k as int } else { self.elements_spec().2 as int },
            ),
            3 * n + 2 < dof_count(nodes_of(self.elements_spec())),
    {
        proof {
            use_type_invariant(self);
            let (nx, ny, nz) = (self.nodes.0 as int, self.nodes.1 as int, self.nodes.2 as int);
            lemma_product_parts(nx, ny, nz);
            assert(dof_count(nodes_of(self.counts)) == 3 * nx * ny * nz);
        }
        let n = clamped_node_index(self.nodes, i, j, k);
        proof {
            let (nx, ny, nz) = (self.nodes.0 as int, self.nodes.1 as int, self.nodes.2 as int);
            assert(3 * n + 2 < 3 * nx * ny * nz) by (nonlinear_arith)
                requires
                    n < nx * ny * nz,
            ;
        }
        n
    }

    /// Hold one displacement component at zero on every node. Freezing two of three leaves the
    /// one-dimensional problem a wave speed is measured on.
    pub fn hold(&mut self, axis: Axis) -> (r: &mut Waves)
        ensures
            r.elements_spec() == old(self).elements_spec(),
            r.name_spec() == old(self).name_spec(),
            r.which_spec() == old(self).which_spec(),
            r.held_spec() == raised(
                old(self).held_spec(),
                axis_dofs(nodes_of(old(self).elements_spec()), axis_index(axis)),
            ),
            *final(self) == *final(r),
    {
        proof {
            use_type_invariant(&*self);
        }
        let ghost nodes = nodes_of(self.counts);
        let a = axis.index();
        let (nx, ny, nz) = self.nodes;
        proof {
            lemma_product_parts(nx as int, ny as int, nz as int);
        }
        let total = nx * ny * nz;
        assert(3 * total == dof_count(nodes)) by (nonlinear_arith)
            requires
                total == nx * ny * nz,
                nodes.0 == nx && nodes.1 == ny && nodes.2 == nz,
        ;
        let mut dofs: Vec<usize> = Vec::new();
        for n in 0..total
            invariant
                nodes == nodes_of(self.counts),
                nodes.0 == nx && nodes.1 == ny && nodes.2 == nz,
                total == nx * ny * nz,
                3 * total <= usize::MAX,
                a == axis_index(axis),
                dofs@.len() == n,
                forall|s: int| 0 <= s < n ==> #[trigger] dofs@[s] == (3 * s + a) as usize,
                forall|s: int| 0 <= s < n ==> (#[trigger] dofs@[s] as int) < 3 * total,
        {
            dofs.push(3 * n + a);
        }
        proof {
            assert(dofs@ =~= axis_dofs(nodes, axis_index(axis)));
            assert(3 * total == dof_count(nodes)) by (nonlinear_arith)
                requires
                    total == nx * ny * nz,
                    nodes.0 == nx && nodes.1 == ny && nodes.2 == nz,
            ;
        }
        let held = raise_all(&self.held, &dofs);
        self.held = held;
        self
    }

    /// Clamp both ends of an axis: every displacement component held at zero on the two end
    /// faces.
    pub fn clamp_ends(&mut self, axis: Axis) -> (r: &mut Waves)
        ensures
            r.elements_spec() == old(self).elements_spec(),
            r.name_spec() == old(self).name_spec(),
            r.which_spec() == old(self).which_spec(),
            r.held_spec() == raised(
                old(self).held_spec(),
                dofs_of_positions(end_nodes(nodes_of(old(self).elements_spec()), axis_index(axis))),
            ),
            *final(self) == *final(r),
    {
        proof {
            use_type_invariant(&*self);
        }
        let ghost nodes = nodes_of(self.counts);
        let a = axis.index();
        let (nx, ny, nz) = self.nodes;
        proof {
            lemma_product_parts(nx as int, ny as int, nz as int);
        }
        let total = nx * ny * nz;
        assert(3 * total == dof_count(nodes)) by (nonlinear_arith)
            requires
                total == nx * ny * nz,
                nodes.0 == nx && nodes.1 == ny && nodes.2 == nz,
        ;
        let last = if a == 0 { nx - 1 } else if a == 1 { ny - 1 } else { nz - 1 };
        let ghost pred = |n: int| at_an_end(nodes, axis_index(axis), node_at(nodes, n));
        let ghost all = Seq::new((nodes.0 * nodes.1 * nodes.2) as nat, |n: int| n);
        let ghost mut ends: Seq<int> = Seq::empty();
        let mut dofs: Vec<usize> = Vec::new();
        proof {
            reveal_with_fuel(Seq::filter, 1);
            assert(all.take(0) =~= Seq::<int>::empty());
        }
        for n in 0..total
            invariant
                nodes == nodes_of(self.counts),
                nodes.0 == nx && nodes.1 == ny && nodes.2 == nz,
                nx >= 1 && ny >= 1 && nz >= 1,
                total == nx * ny * nz,
                3 * total <= usize::MAX,
                a == axis_index(axis),
                last == extent(nodes, axis_index(axis)) - 1,
                pred == (|n: int| at_an_end(nodes, axis_index(axis), node_at(nodes, n))),
                all == Seq::new((nodes.0 * nodes.1 * nodes.2) as nat, |n: int| n),
                ends == all.take(n as int).filter(pred),
                forall|s: int| 0 <= s < ends.len() ==> 0 <= #[trigger] ends[s] < n,
                dofs@ == dofs_of_positions(ends),
        {
            let i = n % nx;
            let q = n / nx;
            let j = q % ny;
            let k = q / ny;
            proof {
                lemma_node_at_in_grid(nodes, n as int);
                reveal_with_fuel(Seq::filter, 1);
                assert(all.take(n + 1).drop_last() =~= all.take(n as int));
                assert(all.take(n + 1).last() == n);
            }
            let at = if a == 0 { i } else if a == 1 { j } else { k };
            if at == 0 || at == last {
                let ghost before = ends;
                proof {
                    ends = ends.push(n as int);
                }
                for c in 0..3usize
                    invariant
                        3 * total <= usize::MAX,
                        n < total,
                        ends == before.push(n as int),
                        dofs@.len() == 3 * before.len() + c,
                        forall|t: int| 0 <= t < dofs@.len() ==> #[trigger] dofs@[t] == dofs_of_positions(ends)[t],
                {
                    proof {
                        lemma_split_row_major(3 * before.len() + c, 3, c as int, before.len() as int);
                    }
                    dofs.push(3 * n + c);
                }
                assert(dofs@ =~= dofs_of_positions(ends));
            }
        }
        proof {
            assert(all.take(total as int) =~= all);
        }
        assert forall|t: int| 0 <= t < dofs@.len() implies (#[trigger] dofs@[t] as int) < self.held@.len() by {
            assert(0 <= t / 3 < ends.len()) by {
                lemma_div_pos_is_pos(t, 3);
                lemma_multiply_divide_lt(t, 3, ends.len() as int);
            }
            lemma_mod_pos_bound(t, 3);
            assert(3 * total == dof_count(nodes)) by (nonlinear_arith)
                requires
                    total == nx * ny * nz,
                    nodes.0 == nx && nodes.1 == ny && nodes.2 == nz,
            ;
        }
        let held = raise_all(&self.held, &dofs);
        self.held = held;
        self
    }

    /// Make every element the predicate accepts palette entry `index`, and report how many
    /// changed. The predicate is handed element indices, not node indices.
    pub fn fill(&mut self, index: u16, which: impl Fn(usize, usize, usize) -> bool) -> (changed: usize)
        requires
            forall|x: usize, y: usize, z: usize| #[trigger] which.requires((x, y, z)),
        ensures
            final(self).elements_spec() == old(self).elements_spec(),
            final(self).name_spec() == old(self).name_spec(),
            final(self).held_spec() == old(self).held_spec(),
            exists|selected: Seq<bool>|
                {
                    &&& selected.len() == old(self).which_spec().len()
                    &&& forall|e: int|
                        0 <= e < selected.len() ==> {
                            let c = element_at(old(self).elements_spec(), e);
                            which.ensures((c.0 as usize, c.1 as usize, c.2 as usize), #[trigger] selected[e])
                        }
                    &&& final(self).which_spec() == filled(old(self).which_spec(), index, selected)
                },
            changed == differing(
                old(self).which_spec(),
                final(self).which_spec(),
                old(self).which_spec().len(),
            ),
    {
        proof {
            use_type_invariant(&*self);
        }
        let ghost start = self.which@;
        let (next, changed) = fill_cells(&self.which, self.counts, index, which);
        let ghost selected = choose|selected: Seq<bool>|
            {
                &&& selected.len() == start.len()
                &&& forall|e: int|
                    0 <= e < selected.len() ==> {
                        let c = element_at(self.counts, e);
                        which.ensures((c.0 as usize, c.1 as usize, c.2 as usize), #[trigger] selected[e])
                    }
                &&& next@ == filled(start, index, selected)
            };
        self.which = next;
        assert(self.which_spec() == filled(old(self).which_spec(), index, selected));
        changed
    }
}

} // verus!
