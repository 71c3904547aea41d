//! The fixpoint scheduler: rounds of join, union and distinct over the
//! shards, until a round adds nothing.

use vstd::prelude::*;
use crate::closure::{
    closure, compose, is_diameter, lemma_compose_empty, lemma_delta_step, lemma_diameter_unique,
    lemma_first_stable_is_diameter, lemma_stable_is_closure, lemma_within_grows, stable_at,
    within, Pairs,
};
use crate::relation::{
    edge_set, lemma_grown_len, lemma_members_of_set, lemma_pairs_empty, lemma_pairs_len, occurs,
    pairs, Relation,
};
use crate::shard::{sharded_join, sharded_merge, Modulo, Partitioner};

verus! {

/// Where the scheduler stands.
#[derive(Clone, Copy, Debug, PartialEq, Eq, Structural)]
pub enum Phase {
    Initializing,
    Iterating,
    Converged,
}

/// The state of the evaluation between two rounds.
#[derive(Debug)]
pub struct Scheduler<P: Partitioner> {
    pub phase: Phase,
    /// The partition function that each round's join is split by.
    pub partitioner: P,
    /// The base relation, in canonical form.
    pub edges: Relation,
    /// Every path known so far.
    pub accumulated: Relation,
    /// The paths that the last round added.
    pub delta: Relation,
    /// The number of rounds so far whose delta was not empty.
    pub rounds: usize,
}

impl<P: Partitioner> Scheduler<P> {
    /// The set of edges that was loaded.
    pub open spec fn base(&self) -> Pairs {
        pairs(self.edges.facts@)
    }

    /// The set of paths known so far.
    pub open spec fn paths(&self) -> Pairs {
        pairs(self.accumulated.facts@)
    }

    /// The set of paths that the last round added.
    pub open spec fn fresh(&self) -> Pairs {
        pairs(self.delta.facts@)
    }

    /// The state is one that the scheduler reaches: after `rounds` rounds
    /// with a delta it knows the paths of up to `rounds` edges, each of
    /// those rounds found something new, and it has converged exactly when
    /// a further round finds nothing.
    pub open spec fn wf(&self) -> bool {
        &&& self.partitioner.valid()
        &&& self.edges.is_distinct()
        &&& self.accumulated.is_distinct()
        &&& self.delta.is_distinct()
        &&& self.rounds <= self.accumulated.facts@.len()
        &&& forall|m: nat| m < self.rounds ==> !#[trigger] stable_at(self.base(), m)
        &&& self.paths() == within(self.base(), self.rounds as nat)
        &&& match self.phase {
            Phase::Initializing => self.rounds == 0 && self.edges.facts@.len() == 0
                && self.delta.facts@.len() == 0,
            Phase::Iterating => self.rounds >= 1 && self.delta.facts@.len() > 0 && self.fresh()
                == within(self.base(), self.rounds as nat).difference(
                within(self.base(), (self.rounds - 1) as nat),
            ),
            Phase::Converged => self.delta.facts@.len() == 0 && stable_at(
                self.base(),
                self.rounds as nat,
            ),
        }
    }

    /// A scheduler over the shards of `partitioner`, with nothing loaded.
    pub fn new(partitioner: P) -> (s: Scheduler<P>)
        requires
            partitioner.valid(),
        ensures
            s.wf(),
            s.phase == Phase::Initializing,
            s.partitioner == partitioner,
            s.rounds == 0,
    {
        let s = Scheduler {
            phase: Phase::Initializing,
            partitioner,
            edges: Relation::new(),
            accumulated: Relation::new(),
            delta: Relation::new(),
            rounds: 0,
        };
        proof {
            assert(s.paths() =~= within(s.base(), 0));
        }
        s
    }

    /// Loads the base relation. Every edge is a path, and all of them are the
    /// delta of the first round; with no edge at all there is nothing to
    /// iterate on and the scheduler has converged.
    pub fn load(&mut self, edges: &Relation)
        requires
            old(self).wf(),
            old(self).phase == Phase::Initializing,
        ensures
            final(self).wf(),
            final(self).partitioner == old(self).partitioner,
            final(self).base() == edges.members(),
            final(self).paths() == edges.members(),
            final(self).fresh() == edges.members(),
            edges.members() == Set::<(u32, u32)>::empty() ==> final(self).phase == Phase::Converged
                && final(self).rounds == 0,
            edges.members() != Set::<(u32, u32)>::empty() ==> final(self).phase == Phase::Iterating
                && final(self).rounds == 1,
    {
        let base = edges.distinct();
        let accumulated = base.copy();
        let delta = base.copy();
        proof {
            let e = pairs(base.facts@);
            lemma_pairs_empty(base);
            lemma_compose_empty(e);
            assert(within(e, 0) =~= Set::<(u32, u32)>::empty());
            assert(within(e, 1) =~= e);
            assert(e.difference(within(e, 0)) =~= e);
        }
        if base.is_empty() {
            self.phase = Phase::Converged;
            self.rounds = 0;
        } else {
            self.phase = Phase::Iterating;
            self.rounds = 1;
        }
        self.edges = base;
        self.accumulated = accumulated;
        self.delta = delta;
    }

    /// One round. The last delta and the edges go to the shards that own
    /// their join keys and are joined there; what that derives goes to the
    /// shards that own the far ends, where it is united with the known
    /// paths, collapsed, and compared with them for what is new. The round
    /// ends when all shards have done so. With an empty delta the scheduler
    /// has converged; otherwise the round is counted.
    pub fn step(&mut self)
        requires
            old(self).wf(),
            old(self).phase == Phase::Iterating,
        ensures
            final(self).wf(),
            final(self).partitioner == old(self).partitioner,
            final(self).base() == old(self).base(),
            final(self).paths() == old(self).paths().union(
                compose(old(self).fresh(), old(self).base()),
            ),
            old(self).paths().subset_of(final(self).paths()),
            final(self).fresh() == final(self).paths().difference(old(self).paths()),
            final(self).accumulated.facts@.len() == old(self).accumulated.facts@.len()
                + final(self).delta.facts@.len(),
            final(self).fresh() == Set::<(u32, u32)>::empty() ==> final(self).phase
                == Phase::Converged && final(self).rounds == old(self).rounds,
            final(self).fresh() != Set::<(u32, u32)>::empty() ==> final(self).phase
                == Phase::Iterating && final(self).rounds == old(self).rounds + 1,
    {
        let ghost e = self.base();
        let ghost r = self.rounds as nat;
        let joined = sharded_join(&self.delta, &self.edges, &self.partitioner);
        let (next, delta) = sharded_merge(&self.accumulated, &joined, &self.partitioner);
        proof {
            lemma_delta_step(e, r);
            lemma_pairs_empty(delta);
            assert(pairs(delta.facts@) =~= pairs(next.facts@).difference(
                pairs(self.accumulated.facts@),
            ));
            lemma_within_grows(e, r, r + 1);
            assert(pairs(next.facts@) == within(e, r + 1));
            lemma_grown_len(self.accumulated.facts@, delta.facts@, next.facts@);
            if delta.facts@.len() == 0 {
                let gone = within(e, r + 1).difference(within(e, r));
                assert(pairs(delta.facts@) == gone);
                assert forall|p: (u32, u32)| within(e, r + 1).contains(p) implies within(
                    e,
                    r,
                ).contains(p) by {
                    assert(!gone.contains(p));
                }
                assert(within(e, r + 1) =~= within(e, r));
            } else {
                let f = delta.facts@[0];
                assert(occurs(delta.facts@, f.from, f.to));
                assert(pairs(delta.facts@).contains((f.from, f.to)));
                assert(within(e, r + 1).contains((f.from, f.to)));
                assert(!within(e, r).contains((f.from, f.to)));
            }
        }
        let held = next.len();
        if delta.is_empty() {
            self.phase = Phase::Converged;
        } else {
            assert(self.rounds < held);
            self.rounds = self.rounds + 1;
        }
        self.accumulated = next;
        self.delta = delta;
    }

    /// Whether another round is due.
    pub fn is_iterating(&self) -> (b: bool)
        ensures
            b == (self.phase == Phase::Iterating),
    {
        match self.phase {
            Phase::Iterating => true,
            _ => false,
        }
    }

    /// Whether the fixpoint has been reached.
    pub fn is_converged(&self) -> (b: bool)
        ensures
            b == (self.phase == Phase::Converged),
    {
        match self.phase {
            Phase::Converged => true,
            _ => false,
        }
    }

    /// Runs rounds until the scheduler has converged. Each round but the
    /// last adds a path, so the last one comes.
    pub fn run(&mut self)
        requires
            old(self).wf(),
        ensures
            final(self).wf(),
            final(self).partitioner == old(self).partitioner,
            final(self).base() == old(self).base(),
            old(self).paths().subset_of(final(self).paths()),
            old(self).phase == Phase::Initializing ==> final(self).phase == Phase::Initializing,
            old(self).phase != Phase::Initializing ==> final(self).phase == Phase::Converged,
            final(self).phase == Phase::Converged ==> final(self).paths() == closure(
                final(self).base(),
            ) && is_diameter(final(self).base(), final(self).rounds as nat),
    {
        let mut held = self.accumulated.len();
        while self.is_iterating()
            invariant
                self.wf(),
                held == self.accumulated.facts@.len(),
                self.partitioner == old(self).partitioner,
                self.base() == old(self).base(),
                old(self).paths().subset_of(self.paths()),
                old(self).phase == Phase::Initializing ==> self.phase == Phase::Initializing,
                old(self).phase != Phase::Initializing ==> self.phase != Phase::Initializing,
            decreases
                    (usize::MAX - held) + (if self.phase == Phase::Iterating {
                        1int
                    } else {
                        0int
                    }),
        {
            self.step();
            held = self.accumulated.len();
        }
        proof {
            if self.phase == Phase::Converged {
                lemma_converged(*self);
            }
        }
    }

    /// The number of paths found so far.
    pub fn count(&self) -> (n: usize)
        requires
            self.wf(),
        ensures
            n == self.accumulated.facts@.len(),
            n == self.paths().len(),
    {
        proof {
            lemma_pairs_len(self.accumulated.facts@);
        }
        self.accumulated.len()
    }
}

/// The transitive closure of `edges` by the incremental evaluation over
/// `workers` shards, with keys going round the shards in turn. The result
/// is in canonical form: one entry of weight one for each pair that a walk
/// along the edges joins.
pub fn incremental_closure(edges: &Vec<(u32, u32)>, workers: usize) -> (path: Relation)
    requires
        workers > 0,
    ensures
        path.is_distinct(),
        pairs(path.facts@) == closure(edge_set(edges@)),
        path.members() == closure(edge_set(edges@)),
{
    incremental_closure_by(edges, Modulo { workers })
}

/// The transitive closure of `edges` by the incremental evaluation over the
/// shards of `partitioner`, in canonical form. The partitioner does not
/// show in the result.
pub fn incremental_closure_by<P: Partitioner>(edges: &Vec<(u32, u32)>, partitioner: P) -> (path:
    Relation)
    requires
        partitioner.valid(),
    ensures
        path.is_distinct(),
        pairs(path.facts@) == closure(edge_set(edges@)),
        path.members() == closure(edge_set(edges@)),
{
    let base = Relation::from_pairs(edges);
    let mut s = Scheduler::new(partitioner);
    s.load(&base);
    s.run();
    proof {
        lemma_members_of_set(s.accumulated.facts@);
    }
    s.accumulated
}

/// A converged scheduler holds the transitive closure of its edges, and the
/// number of its rounds with a delta is the diameter of the graph.
pub proof fn lemma_converged<P: Partitioner>(s: Scheduler<P>)
    requires
        s.wf(),
        s.phase == Phase::Converged,
    ensures
        s.paths() == closure(s.base()),
        is_diameter(s.base(), s.rounds as nat),
{
    lemma_stable_is_closure(s.base(), s.rounds as nat);
    lemma_first_stable_is_diameter(s.base(), s.rounds as nat);
}

/// The scheduler converges after as many rounds with a delta as the
/// diameter of the graph: not more, not fewer.
pub proof fn lemma_rounds_are_diameter<P: Partitioner>(s: Scheduler<P>, d: nat)
    requires
        s.wf(),
        s.phase == Phase::Converged,
        is_diameter(s.base(), d),
    ensures
        s.rounds == d,
{
    lemma_converged(s);
    lemma_diameter_unique(s.base(), s.rounds as nat, d);
}

/// The paths never shrink: what the scheduler knew after fewer rounds
/// it knows after more.
pub proof fn lemma_paths_monotone<P: Partitioner, Q: Partitioner>(
    early: Scheduler<P>,
    late: Scheduler<Q>,
)
    requires
        early.wf(),
        late.wf(),
        early.base() == late.base(),
        early.rounds <= late.rounds,
    ensures
        early.paths().subset_of(late.paths()),
{
    lemma_within_grows(early.base(), early.rounds as nat, late.rounds as nat);
}

/// The sharding does not show in the result: two converged schedulers
/// over the same edges hold the same paths after the same number of rounds,
/// whatever their partition functions and their numbers of shards.
pub proof fn lemma_sharding_does_not_matter<P: Partitioner, Q: Partitioner>(
    one: Scheduler<P>,
    other: Scheduler<Q>,
)
    requires
        one.wf(),
        other.wf(),
        one.base() == other.base(),
        one.phase == Phase::Converged,
        other.phase == Phase::Converged,
    ensures
        one.paths() == other.paths(),
        one.rounds == other.rounds,
{
    lemma_converged(one);
    lemma_converged(other);
    if one.rounds < other.rounds {
        assert(!stable_at(other.base(), one.rounds as nat));
    }
    if other.rounds < one.rounds {
        assert(!stable_at(one.base(), other.rounds as nat));
    }
}

} // verus!
