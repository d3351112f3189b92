//! The decisions of a scheduler that runs several domains on one clock.
//!
//! Stepping a domain is the domain's own business, and the amounts that cross between domains
//! are real numbers; what is decided here is how many substeps each domain takes in a pass,
//! which domain an iterative coupling refuses, and when an iterative coupling stops.

use vstd::prelude::*;

verus! {

/// Whether a domain has state to roll forward.
#[derive(Clone, Copy, Debug, PartialEq, Eq)]
pub enum Kind {
    /// Has state, and a stability limit on how far it can be stepped at once.
    Evolving,
    /// Has no state: solved from its inputs whenever asked, in zero time. Never subcycled — a
    /// solve is a solve.
    QuasiStatic,
}

/// How the domains are interleaved. An iterative coupling's tolerance is a residual, a real
/// number: it travels beside the schedule, and what a pass reports against it reaches
/// [`after_pass`] as whether the pass settled.
#[derive(Clone, Copy, Debug, PartialEq, Eq)]
pub enum Schedule {
    /// One pass in declared order, no feedback expected.
    OneWay,
    /// One pass in declared order, each domain seeing the previous ones' output from this step.
    Staggered,
    /// Repeat the pass until every residual settles, at most `max_iter` times, or fail.
    Iterative { max_iter: u32 },
    /// As `Staggered`, but each evolving domain takes as many equal substeps as its own
    /// stability limit needs.
    Multirate,
}

/// Whether a pass under this schedule lets evolving domains subcycle.
pub open spec fn schedule_subcycles(s: Schedule) -> bool {
    match s {
        Schedule::OneWay | Schedule::Staggered => false,
        Schedule::Iterative { .. } | Schedule::Multirate => true,
    }
}

/// The substeps a domain of this kind takes in a pass, given what its stability limit needs.
pub open spec fn substep_count(subcycling: bool, kind: Kind, needed: u32) -> u32 {
    if subcycling && kind == Kind::Evolving {
        needed
    } else {
        1
    }
}

impl Schedule {
    /// Whether a pass lets evolving domains subcycle: a multirate pass does, and so does every
    /// pass of an iterative coupling; one-way and staggered passes step each domain once.
    pub fn subcycles(self) -> (b: bool)
        ensures
            b == schedule_subcycles(self),
    {
        match self {
            Schedule::OneWay | Schedule::Staggered => false,
            Schedule::Iterative { .. } | Schedule::Multirate => true,
        }
    }
}

/// How many substeps a domain takes in one pass. `needed` is how many equal pieces the shared
/// window must be cut into for the domain's own stability limit. A quasi-static domain has no
/// state to march, so subdividing its step would only solve the same problem several times: it
/// takes one, as does every domain in a pass that does not subcycle.
pub fn substeps(subcycling: bool, kind: Kind, needed: u32) -> (n: u32)
    ensures
        n == substep_count(subcycling, kind, needed),
{
    match kind {
        Kind::Evolving => if subcycling {
            needed
        } else {
            1
        },
        Kind::QuasiStatic => 1,
    }
}

/// The first domain, in declared order, that cannot put itself back to a checkpoint, or none.
/// An iterative coupling refuses such a domain by name rather than iterating it from the wrong
/// state.
pub fn first_unrestorable(restorable: &[bool]) -> (r: Option<usize>)
    ensures
        match r {
            None => forall|i: int| 0 <= i < restorable@.len() ==> #[trigger] restorable@[i],
            Some(i) => {
                &&& i < restorable@.len()
                &&& !restorable@[i as int]
                &&& forall|j: int| 0 <= j < i ==> #[trigger] restorable@[j]
            },
        },
{
    let mut i: usize = 0;
    while i < restorable.len()
        invariant
            i <= restorable@.len(),
            forall|j: int| 0 <= j < i ==> #[trigger] restorable@[j],
        decreases restorable@.len() - i,
    {
        if !restorable[i] {
            return Some(i);
        }
        i = i + 1;
    }
    None
}

/// Where an iterative coupling stands between passes.
#[derive(Clone, Copy, Debug, PartialEq, Eq)]
pub enum Coupling {
    /// Run pass `iteration` (counted from one); put every domain back to its checkpoint and
    /// empty the bus's offers first when `rewind`.
    Again { iteration: u32, rewind: bool },
    /// Pass `iterations` settled every residual: accept it.
    Converged { iterations: u32 },
    /// `iterations` passes ran and none settled: fail rather than accept numbers that only look
    /// like physics.
    Unconverged { iterations: u32 },
}

/// Before the first pass: run it, unless no pass is allowed at all.
pub open spec fn coupling_start(max_iter: u32) -> Coupling {
    if max_iter == 0 {
        Coupling::Unconverged { iterations: 0 }
    } else {
        Coupling::Again { iteration: 1, rewind: false }
    }
}

/// After pass `iteration`: accept it if it settled, else run the next from the checkpoint while
/// passes remain, else give up.
pub open spec fn coupling_after(iteration: u32, max_iter: u32, settled: bool) -> Coupling {
    if settled {
        Coupling::Converged { iterations: iteration }
    } else if iteration < max_iter {
        Coupling::Again { iteration: (iteration + 1) as u32, rewind: true }
    } else {
        Coupling::Unconverged { iterations: max_iter }
    }
}

/// The first decision of an iterative coupling allowed `max_iter` passes.
pub fn start_coupling(max_iter: u32) -> (c: Coupling)
    ensures
        c == coupling_start(max_iter),
{
    if max_iter == 0 {
        Coupling::Unconverged { iterations: 0 }
    } else {
        Coupling::Again { iteration: 1, rewind: false }
    }
}

/// The decision after pass `iteration` of at most `max_iter`, given whether every domain's
/// residual settled under the tolerance in it.
pub fn after_pass(iteration: u32, max_iter: u32, settled: bool) -> (c: Coupling)
    requires
        1 <= iteration <= max_iter,
    ensures
        c == coupling_after(iteration, max_iter, settled),
{
    if settled {
        Coupling::Converged { iterations: iteration }
    } else if iteration < max_iter {
        Coupling::Again { iteration: iteration + 1, rewind: true }
    } else {
        Coupling::Unconverged { iterations: max_iter }
    }
}

/// How a coupling ends from pass `iteration` on, when pass `k` (counted from one) settles
/// exactly where `settled[k - 1]` holds.
pub open spec fn coupling_from(iteration: nat, max_iter: u32, settled: Seq<bool>) -> Coupling
    decreases max_iter - iteration,
{
    if 1 <= iteration < max_iter && !settled[iteration - 1] {
        coupling_from(iteration + 1, max_iter, settled)
    } else {
        coupling_after(iteration as u32, max_iter, settled[iteration - 1])
    }
}

/// How a coupling allowed `max_iter` passes ends, when pass `k` settles exactly where
/// `settled[k - 1]` holds.
pub open spec fn coupling_outcome(max_iter: u32, settled: Seq<bool>) -> Coupling {
    if max_iter == 0 {
        coupling_start(max_iter)
    } else {
        coupling_from(1, max_iter, settled)
    }
}

/// From pass `iteration` on, the coupling stops at the first pass that settles, or gives up
/// after the last.
proof fn lemma_coupling_from_first_settled(iteration: nat, max_iter: u32, settled: Seq<bool>)
    requires
        1 <= iteration <= max_iter,
    ensures
        forall|k: int|
            iteration - 1 <= k < max_iter && #[trigger] settled[k] && (forall|j: int|
                iteration - 1 <= j < k ==> !settled[j]) ==> coupling_from(
                iteration,
                max_iter,
                settled,
            ) == (Coupling::Converged { iterations: (k + 1) as u32 }),
        (forall|j: int| iteration - 1 <= j < max_iter ==> !settled[j]) ==> coupling_from(
            iteration,
            max_iter,
            settled,
        ) == (Coupling::Unconverged { iterations: max_iter }),
    decreases max_iter - iteration,
{
    if iteration < max_iter && !settled[iteration - 1] {
        lemma_coupling_from_first_settled(iteration + 1, max_iter, settled);
        assert forall|k: int|
            iteration - 1 <= k < max_iter && #[trigger] settled[k] && (forall|j: int|
                iteration - 1 <= j < k ==> !settled[j]) implies coupling_from(
            iteration,
            max_iter,
            settled,
        ) == (Coupling::Converged { iterations: (k + 1) as u32 }) by {
            assert(k != iteration - 1);
            assert forall|j: int| iteration <= j < k implies !settled[j] by {}
        }
    } else if settled[iteration - 1] {
        assert forall|k: int|
            iteration - 1 <= k < max_iter && #[trigger] settled[k] && (forall|j: int|
                iteration - 1 <= j < k ==> !settled[j]) implies k == iteration - 1 by {
            if k > iteration - 1 {
                assert(!settled[iteration - 1]);
            }
        }
    }
}

/// An iterative coupling allowed `max_iter` passes stops at the first pass whose residuals
/// settle and reports that pass's number; if none of the `max_iter` passes settles, it gives up
/// after the last of them. It never runs a pass beyond `max_iter`, and never accepts a pass
/// that did not settle.
pub proof fn lemma_coupling_stops_at_the_first_settled_pass(max_iter: u32, settled: Seq<bool>)
    ensures
        forall|k: int|
            0 <= k < max_iter && #[trigger] settled[k] && (forall|j: int| 0 <= j < k ==> !settled[j])
                ==> coupling_outcome(max_iter, settled) == (Coupling::Converged {
                iterations: (k + 1) as u32,
            }),
        (forall|j: int| 0 <= j < max_iter ==> !settled[j]) ==> coupling_outcome(max_iter, settled)
            == (Coupling::Unconverged { iterations: max_iter }),
{
    if max_iter > 0 {
        lemma_coupling_from_first_settled(1, max_iter, settled);
    }
}

} // verus!
