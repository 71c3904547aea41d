//! The rule evaluator: path(x, y) <- edge(x, y) and
//! path(x, z) <- edge(x, y), path(y, z), applied round by round to what the
//! round before derived.

use vstd::prelude::*;
use crate::closure::{
    closure, closure_front, is_diameter, lemma_closures_agree, lemma_compose_empty,
    lemma_delta_step_front, lemma_first_stable_is_diameter, lemma_rules_agree,
    lemma_stable_is_closure, lemma_within_grows, stable_at, within, within_front, Pairs,
};
use crate::index::{Column, Index};
use crate::join::{join, lemma_join_composes, lemma_join_unit};
use crate::relation::{
    edge_set, lemma_delta_pairs, lemma_grown_len, lemma_members_of_set, lemma_pairs_empty,
    lemma_union_members, occurs, pairs, Relation,
};
use crate::scheduler::{lemma_converged, Phase, Scheduler};
use crate::shard::Partitioner;

verus! {

/// The two relations of the rules, and how far their evaluation has come.
#[derive(Debug)]
pub struct RuleProgram {
    /// The base relation, in canonical form.
    pub edge: Relation,
    /// The derived relation.
    pub path: Relation,
    /// What the last round derived that was not known before.
    pub recent: Relation,
    /// The number of rounds so far that derived something new.
    pub rounds: usize,
    /// The last round derived nothing new.
    pub done: bool,
}

impl RuleProgram {
    /// The set of edges.
    pub open spec fn base(&self) -> Pairs {
        pairs(self.edge.facts@)
    }

    /// The set of paths derived so far.
    pub open spec fn paths(&self) -> Pairs {
        pairs(self.path.facts@)
    }

    /// The state is one that the evaluation reaches: after `rounds` rounds
    /// the paths are those that the second rule derives in `rounds`
    /// applications, each round derived something new, and the program is
    /// done exactly when a further round derives nothing.
    pub open spec fn wf(&self) -> bool {
        &&& self.edge.is_distinct()
        &&& self.path.is_distinct()
        &&& self.recent.is_distinct()
        &&& self.rounds <= self.path.facts@.len()
        &&& forall|m: nat| m < self.rounds ==> !#[trigger] stable_at(self.base(), m)
        &&& self.paths() == within_front(self.base(), self.rounds as nat)
        &&& self.done ==> self.recent.facts@.len() == 0
        &&& !self.done && self.rounds >= 1 ==> pairs(self.recent.facts@) == within_front(
            self.base(),
            self.rounds as nat,
        ).difference(within_front(self.base(), (self.rounds - 1) as nat))
        &&& self.done ==> stable_at(self.base(), self.rounds as nat)
    }

    /// The program over the base relation `edges`, with nothing derived.
    pub fn new(edges: &Relation) -> (p: RuleProgram)
        ensures
            p.wf(),
            p.base() == edges.members(),
            p.paths() == Set::<(u32, u32)>::empty(),
            p.rounds == 0,
            !p.done,
    {
        let p = RuleProgram {
            edge: edges.distinct(),
            path: Relation::new(),
            recent: Relation::new(),
            rounds: 0,
            done: false,
        };
        proof {
            assert(p.paths() =~= Set::<(u32, u32)>::empty());
            assert(within_front(p.base(), 0) =~= Set::<(u32, u32)>::empty());
        }
        p
    }

    /// One round of the rules. The first round takes every edge as a path;
    /// a later one joins the edges with what the round before derived, never
    /// with the whole of `path`. What is not yet known is added and becomes
    /// the next round's input; where there is none, the program is done.
    pub fn round(&mut self)
        requires
            old(self).wf(),
            !old(self).done,
        ensures
            final(self).wf(),
            final(self).base() == old(self).base(),
            final(self).paths() == within_front(old(self).base(), (old(self).rounds + 1) as nat),
            old(self).paths().subset_of(final(self).paths()),
            final(self).done <==> final(self).paths() == old(self).paths(),
            final(self).path.facts@.len() == old(self).path.facts@.len()
                + final(self).recent.facts@.len(),
            final(self).done <==> final(self).recent.facts@.len() == 0,
            final(self).rounds == if final(self).done {
                old(self).rounds as int
            } else {
                old(self).rounds + 1
            },
    {
        let ghost e = self.base();
        let ghost r = self.rounds as nat;
        let derived = if self.rounds == 0 {
            proof {
                lemma_compose_empty(e);
                assert(within_front(e, 0) =~= Set::<(u32, u32)>::empty());
                assert(within_front(e, 1) =~= e);
                assert(self.paths().union(e) =~= within_front(e, 1));
            }
            self.edge.copy()
        } else {
            let left = Index::build(&self.edge, Column::To);
            let right = Index::build(&self.recent, Column::From);
            proof {
                lemma_join_unit(
                    self.edge.facts@,
                    Column::To,
                    self.recent.facts@,
                    Column::From,
                    left,
                    right,
                );
                lemma_join_composes(self.edge.facts@, self.recent.facts@, left, right);
                lemma_delta_step_front(e, r);
            }
            join(&left, &right)
        };
        let both = self.path.union(&derived);
        let next = both.distinct();
        let delta = next.delta_from(&self.path);
        proof {
            lemma_union_members(self.path, derived, both);
            lemma_delta_pairs(next, self.path);
            lemma_pairs_empty(delta);
            lemma_rules_agree(e, r);
            lemma_rules_agree(e, r + 1);
            lemma_within_grows(e, r, r + 1);
            assert(pairs(next.facts@) == within_front(e, r + 1));
            let gone = within(e, r + 1).difference(within(e, r));
            assert(pairs(delta.facts@) == gone);
            lemma_grown_len(self.path.facts@, delta.facts@, next.facts@);
            if delta.facts@.len() == 0 {
                assert forall|p: (u32, u32)| within(e, r + 1).contains(p) implies within(
                    e,
                    r,
                ).contains(p) by {
                    assert(!gone.contains(p));
                }
                assert(within(e, r + 1) =~= within(e, r));
            } else {
                let f = delta.facts@[0];
                assert(occurs(delta.facts@, f.from, f.to));
                assert(gone.contains((f.from, f.to)));
                assert(within(e, r + 1).contains((f.from, f.to)));
                assert(!within(e, r).contains((f.from, f.to)));
            }
        }
        let held = next.len();
        if delta.is_empty() {
            self.done = true;
        } else {
            assert(self.rounds < held);
            self.rounds = self.rounds + 1;
        }
        self.path = next;
        self.recent = delta;
    }

    /// Applies the rules until a round derives nothing new. Each round but
    /// the last adds a path, so the last one comes.
    pub fn run(&mut self)
        requires
            old(self).wf(),
        ensures
            final(self).wf(),
            final(self).base() == old(self).base(),
            old(self).paths().subset_of(final(self).paths()),
            final(self).done,
            final(self).paths() == closure_front(final(self).base()),
            final(self).paths() == closure(final(self).base()),
    {
        let mut held = self.path.len();
        while !self.done
            invariant
                self.wf(),
                held == self.path.facts@.len(),
                self.base() == old(self).base(),
                old(self).paths().subset_of(self.paths()),
            decreases
                    (usize::MAX - held) + (if self.done {
                        0int
                    } else {
                        1int
                    }),
        {
            self.round();
            held = self.path.len();
        }
        proof {
            lemma_done(*self);
        }
    }
}

/// A program that is done holds the closure that its rules define, which
/// is the transitive closure of its edges.
pub proof fn lemma_done(p: RuleProgram)
    requires
        p.wf(),
        p.done,
    ensures
        p.paths() == closure_front(p.base()),
        p.paths() == closure(p.base()),
        is_diameter(p.base(), p.rounds as nat),
{
    lemma_rules_agree(p.base(), p.rounds as nat);
    lemma_stable_is_closure(p.base(), p.rounds as nat);
    lemma_closures_agree(p.base());
    lemma_first_stable_is_diameter(p.base(), p.rounds as nat);
}

/// Both evaluations give the same relation: a converged scheduler and a
/// finished rule program over the same edges hold the same set of paths.
pub proof fn lemma_engines_agree<P: Partitioner>(s: Scheduler<P>, p: RuleProgram)
    requires
        s.wf(),
        s.phase == Phase::Converged,
        p.wf(),
        p.done,
        s.base() == p.base(),
    ensures
        s.paths() == p.paths(),
{
    lemma_converged(s);
    lemma_done(p);
}

/// The transitive closure of `edges` by the rule evaluation, in canonical
/// form: one entry of weight one for each pair that a walk along the edges
/// joins.
pub fn rule_closure(edges: &Vec<(u32, u32)>) -> (path: Relation)
    ensures
        path.is_distinct(),
        pairs(path.facts@) == closure(edge_set(edges@)),
        path.members() == closure(edge_set(edges@)),
{
    let base = Relation::from_pairs(edges);
    let mut p = RuleProgram::new(&base);
    p.run();
    proof {
        lemma_members_of_set(p.path.facts@);
    }
    p.path
}

} // verus!
