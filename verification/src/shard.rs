//! Partitioning a relation over workers, joining shard by shard, and
//! gathering the shards again.

use vstd::prelude::*;
use crate::closure::{compose, linked};
use crate::index::{key_of, split, Column, Index};
use crate::join::{join, lemma_join_composes, lemma_join_unit};
use crate::relation::{
    append, is_set, lemma_delta_pairs, lemma_is_set_concat, lemma_is_set_drop_last,
    lemma_is_set_push, lemma_occurs_concat, lemma_occurs_push, lemma_pairs_len,
    lemma_union_members, net, occurs, pairs, unit_weights, Fact, Relation,
};

verus! {

/// A partition function: it gives every key one owner among a fixed
/// number of shards, and the same key always the same owner.
pub trait Partitioner {
    /// The number of shards.
    spec fn shards(&self) -> usize;

    /// The shard that owns `key`.
    spec fn owner(&self, key: u32) -> usize;

    /// The partitioner is fit for use.
    spec fn valid(&self) -> bool;

    /// Every key has its owner among the shards.
    proof fn lemma_owner_in_range(&self, key: u32)
        requires
            self.valid(),
        ensures
            self.owner(key) < self.shards(),
    ;

    /// The number of shards, of which there is at least one.
    fn count(&self) -> (n: usize)
        requires
            self.valid(),
        ensures
            n == self.shards(),
            n > 0,
    ;

    /// The shard that owns `key`.
    fn shard_of(&self, key: u32) -> (w: usize)
        requires
            self.valid(),
        ensures
            w == self.owner(key),
            w < self.shards(),
    ;
}

/// The partitioner that sends keys round the shards in turn: a key belongs
/// to the shard of its remainder.
#[derive(Clone, Copy, Debug)]
pub struct Modulo {
    pub workers: usize,
}

impl Partitioner for Modulo {
    open spec fn shards(&self) -> usize {
        self.workers
    }

    open spec fn owner(&self, key: u32) -> usize {
        (key as int % self.workers as int) as usize
    }

    open spec fn valid(&self) -> bool {
        self.workers > 0
    }

    proof fn lemma_owner_in_range(&self, key: u32) {
    }

    fn count(&self) -> (n: usize) {
        self.workers
    }

    fn shard_of(&self, key: u32) -> (w: usize) {
        (key as usize) % self.workers
    }
}

/// The partitioner that keeps neighbouring keys together: keys are cut
/// into blocks of `width`, and the blocks go round the shards in turn.
#[derive(Clone, Copy, Debug)]
pub struct Blocks {
    pub workers: usize,
    pub width: u32,
}

impl Partitioner for Blocks {
    open spec fn shards(&self) -> usize {
        self.workers
    }

    open spec fn owner(&self, key: u32) -> usize {
        ((key as int / self.width as int) % self.workers as int) as usize
    }

    open spec fn valid(&self) -> bool {
        self.workers > 0 && self.width > 0
    }

    proof fn lemma_owner_in_range(&self, key: u32) {
    }

    fn count(&self) -> (n: usize) {
        self.workers
    }

    fn shard_of(&self, key: u32) -> (w: usize) {
        ((key / self.width) as usize) % self.workers
    }
}

/// The facts of `s` that the shard `w` owns when `col` is the partitioning
/// key, in order.
pub open spec fn slice_of<P: Partitioner>(s: Seq<Fact>, col: Column, p: P, w: int) -> Seq<Fact>
    decreases s.len(),
{
    if s.len() == 0 {
        Seq::empty()
    } else if p.owner(key_of(s.last(), col)) == w {
        slice_of(s.drop_last(), col, p, w).push(s.last())
    } else {
        slice_of(s.drop_last(), col, p, w)
    }
}

/// The entries of all the shards, shard after shard.
pub open spec fn merged(shards: Seq<Relation>) -> Seq<Fact>
    decreases shards.len(),
{
    if shards.len() == 0 {
        Seq::empty()
    } else {
        merged(shards.drop_last()) + shards.last().facts@
    }
}

/// A shard holds a pair exactly where the relation holds it and the shard
/// owns its key.
pub proof fn lemma_slice_occurs<P: Partitioner>(
    s: Seq<Fact>,
    col: Column,
    p: P,
    w: int,
    from: u32,
    to: u32,
)
    ensures
        occurs(slice_of(s, col, p, w), from, to) <==> occurs(s, from, to) && p.owner(
            key_of(Fact { from, to, weight: 1 }, col),
        ) == w,
    decreases s.len(),
{
    if s.len() > 0 {
        let t = s.drop_last();
        let f = s.last();
        lemma_slice_occurs(t, col, p, w, from, to);
        assert(s =~= t.push(f));
        lemma_occurs_push(t, f, from, to);
        lemma_occurs_push(slice_of(t, col, p, w), f, from, to);
    } else {
        assert(!occurs(s, from, to));
    }
}

/// A shard of facts of weight one holds facts of weight one.
pub proof fn lemma_slice_unit<P: Partitioner>(s: Seq<Fact>, col: Column, p: P, w: int)
    requires
        unit_weights(s),
    ensures
        unit_weights(slice_of(s, col, p, w)),
    decreases s.len(),
{
    if s.len() > 0 {
        let t = s.drop_last();
        assert forall|i: int| 0 <= i < t.len() implies (#[trigger] t[i]).weight == 1 by {
            assert(t[i] == s[i]);
        }
        lemma_slice_unit(t, col, p, w);
        assert(s[s.len() - 1].weight == 1);
    }
}

/// What is gathered holds a pair exactly where some shard holds it.
pub proof fn lemma_merged_occurs(shards: Seq<Relation>, from: u32, to: u32)
    ensures
        occurs(merged(shards), from, to) <==> exists|w: int|
            0 <= w < shards.len() && occurs((#[trigger] shards[w]).facts@, from, to),
    decreases shards.len(),
{
    if shards.len() > 0 {
        let t = shards.drop_last();
        lemma_merged_occurs(t, from, to);
        lemma_occurs_concat(merged(t), shards.last().facts@, from, to);
        if occurs(merged(t), from, to) {
            let w = choose|w: int| 0 <= w < t.len() && occurs((#[trigger] t[w]).facts@, from, to);
            assert(shards[w] == t[w]);
        }
        if occurs(shards.last().facts@, from, to) {
            assert(occurs(shards[shards.len() - 1].facts@, from, to));
        }
        if exists|w: int|
            0 <= w < shards.len() && occurs((#[trigger] shards[w]).facts@, from, to) {
            let w = choose|w: int|
                0 <= w < shards.len() && occurs((#[trigger] shards[w]).facts@, from, to);
            if w < t.len() {
                assert(t[w] == shards[w]);
            }
        }
    } else {
        assert(!occurs(merged(shards), from, to));
    }
}

/// Shards of facts of weight one gather into facts of weight one.
pub proof fn lemma_merged_unit(shards: Seq<Relation>)
    requires
        forall|w: int| 0 <= w < shards.len() ==> unit_weights((#[trigger] shards[w]).facts@),
    ensures
        unit_weights(merged(shards)),
    decreases shards.len(),
{
    if shards.len() > 0 {
        let t = shards.drop_last();
        assert forall|w: int| 0 <= w < t.len() implies unit_weights((#[trigger] t[w]).facts@) by {
            assert(t[w] == shards[w]);
        }
        lemma_merged_unit(t);
        let a = merged(t);
        let b = shards[shards.len() - 1].facts@;
        assert(unit_weights(b));
        assert forall|i: int| 0 <= i < (a + b).len() implies (#[trigger] (a + b)[i]).weight
            == 1 by {
            if i < a.len() {
                assert((a + b)[i] == a[i]);
            } else {
                assert((a + b)[i] == b[i - a.len()]);
            }
        }
    }
}

/// The facts of `rel` that the shard `w` owns.
fn take_slice<P: Partitioner>(rel: &Relation, col: Column, p: &P, w: usize) -> (r: Relation)
    requires
        p.valid(),
    ensures
        r.facts@ == slice_of(rel.facts@, col, *p, w as int),
{
    let mut facts: Vec<Fact> = Vec::new();
    let mut i: usize = 0;
    while i < rel.facts.len()
        invariant
            0 <= i <= rel.facts.len(),
            p.valid(),
            facts@ == slice_of(rel.facts@.take(i as int), col, *p, w as int),
        decreases rel.facts.len() - i,
    {
        proof {
            assert(rel.facts@.take(i + 1).drop_last() =~= rel.facts@.take(i as int));
        }
        let (key, _entry) = split(rel.facts[i], col);
        if p.shard_of(key) == w {
            facts.push(rel.facts[i]);
        }
        i = i + 1;
    }
    proof {
        assert(rel.facts@.take(rel.facts.len() as int) =~= rel.facts@);
    }
    Relation { facts }
}

/// Splits `rel` into one shard for each worker: a fact goes to the owner of
/// its column `col`, and keeps its place among the facts of that shard.
pub fn partition<P: Partitioner>(rel: &Relation, col: Column, p: &P) -> (shards: Vec<Relation>)
    requires
        p.valid(),
    ensures
        shards@.len() == p.shards(),
        forall|w: int|
            0 <= w < p.shards() ==> (#[trigger] shards@[w]).facts@ == slice_of(
                rel.facts@,
                col,
                *p,
                w,
            ),
{
    let workers = p.count();
    let mut shards: Vec<Relation> = Vec::new();
    let mut w: usize = 0;
    while w < workers
        invariant
            0 <= w <= workers,
            workers == p.shards(),
            p.valid(),
            shards@.len() == w,
            forall|v: int|
                0 <= v < w ==> (#[trigger] shards@[v]).facts@ == slice_of(
                    rel.facts@,
                    col,
                    *p,
                    v,
                ),
        decreases workers - w,
    {
        let shard = take_slice(rel, col, p, w);
        shards.push(shard);
        w = w + 1;
    }
    shards
}

/// Collects the entries of all the shards into one relation, shard after
/// shard. A pair that several shards hold has an entry from each of them.
pub fn gather(shards: &Vec<Relation>) -> (out: Relation)
    ensures
        out.facts@ == merged(shards@),
{
    let mut facts: Vec<Fact> = Vec::new();
    let mut w: usize = 0;
    while w < shards.len()
        invariant
            0 <= w <= shards.len(),
            facts@ == merged(shards@.take(w as int)),
        decreases shards.len() - w,
    {
        proof {
            assert(shards@.take(w + 1).drop_last() =~= shards@.take(w as int));
        }
        append(&mut facts, &shards[w].facts);
        w = w + 1;
    }
    proof {
        assert(shards@.take(shards.len() as int) =~= shards@);
    }
    Relation { facts }
}

/// The number of pairs of positive multiplicity that the shards hold
/// between them. A pair that several shards hold is counted once.
pub fn gather_count(shards: &Vec<Relation>) -> (n: usize)
    ensures
        n == Set::new(|p: (u32, u32)| net(merged(shards@), p.0, p.1) > 0).len(),
{
    let all = gather(shards);
    let once = all.distinct();
    proof {
        lemma_pairs_len(once.facts@);
    }
    once.len()
}

/// Partitioning loses and invents nothing: what is gathered from the
/// shards holds the pairs of the relation, whatever the partitioner.
pub proof fn lemma_partition_keeps_pairs<P: Partitioner>(
    s: Seq<Fact>,
    col: Column,
    p: P,
    shards: Seq<Relation>,
)
    requires
        p.valid(),
        shards.len() == p.shards(),
        forall|w: int|
            0 <= w < p.shards() ==> (#[trigger] shards[w]).facts@ == slice_of(s, col, p, w),
    ensures
        pairs(merged(shards)) == pairs(s),
{
    assert forall|q: (u32, u32)| pairs(merged(shards)).contains(q) == pairs(s).contains(q) by {
        lemma_merged_occurs(shards, q.0, q.1);
        if pairs(merged(shards)).contains(q) {
            let w = choose|w: int|
                0 <= w < shards.len() && occurs((#[trigger] shards[w]).facts@, q.0, q.1);
            lemma_slice_occurs(s, col, p, w, q.0, q.1);
        }
        if pairs(s).contains(q) {
            p.lemma_owner_in_range(key_of(Fact { from: q.0, to: q.1, weight: 1 }, col));
            let w = p.owner(key_of(Fact { from: q.0, to: q.1, weight: 1 }, col)) as int;
            lemma_slice_occurs(s, col, p, w, q.0, q.1);
            assert(occurs(shards[w].facts@, q.0, q.1));
        }
    }
    assert(pairs(merged(shards)) =~= pairs(s));
}

/// A shard of a canonical relation is canonical.
pub proof fn lemma_slice_is_set<P: Partitioner>(s: Seq<Fact>, col: Column, p: P, w: int)
    requires
        is_set(s),
    ensures
        is_set(slice_of(s, col, p, w)),
    decreases s.len(),
{
    if s.len() > 0 {
        let t = s.drop_last();
        let f = s.last();
        lemma_is_set_drop_last(s);
        lemma_slice_is_set(t, col, p, w);
        if p.owner(key_of(f, col)) == w {
            lemma_slice_occurs(t, col, p, w, f.from, f.to);
            lemma_is_set_push(slice_of(t, col, p, w), f);
        }
    }
}

/// Canonical shards, each with only pairs whose far end it owns, gather
/// into a canonical relation: no pair comes from two shards.
pub proof fn lemma_merged_is_set<P: Partitioner>(shards: Seq<Relation>, p: P)
    requires
        forall|w: int| 0 <= w < shards.len() ==> is_set((#[trigger] shards[w]).facts@),
        forall|w: int, x: u32, y: u32|
            #![trigger occurs(shards[w].facts@, x, y)]
            0 <= w < shards.len() && occurs(shards[w].facts@, x, y) ==> p.owner(y) == w,
    ensures
        is_set(merged(shards)),
    decreases shards.len(),
{
    if shards.len() > 0 {
        let t = shards.drop_last();
        let last = shards[shards.len() - 1];
        assert forall|w: int| 0 <= w < t.len() implies is_set((#[trigger] t[w]).facts@) by {
            assert(t[w] == shards[w]);
        }
        assert forall|w: int, x: u32, y: u32|
            #![trigger occurs(t[w].facts@, x, y)]
            0 <= w < t.len() && occurs(t[w].facts@, x, y) implies p.owner(y) == w by {
            assert(t[w] == shards[w]);
            assert(occurs(shards[w].facts@, x, y));
        }
        lemma_merged_is_set(t, p);
        assert forall|x: u32, y: u32| !(#[trigger] occurs(merged(t), x, y) && occurs(
            last.facts@,
            x,
            y,
        )) by {
            if occurs(merged(t), x, y) && occurs(last.facts@, x, y) {
                lemma_merged_occurs(t, x, y);
                let w = choose|w: int|
                    0 <= w < t.len() && occurs((#[trigger] t[w]).facts@, x, y);
                assert(t[w] == shards[w]);
                assert(occurs(shards[w].facts@, x, y));
                assert(occurs(shards[shards.len() - 1].facts@, x, y));
            }
        }
        assert(is_set(last.facts@));
        lemma_is_set_concat(merged(t), last.facts@);
    } else {
        assert(is_set(merged(shards)));
    }
}

/// Adds the facts of `derived` to the canonical relation `known`, shard by
/// shard. Each fact is shipped to the shard that owns the far end of its
/// pair; each shard unites what it knew with what came in, collapses the
/// multiplicities and finds what is new to it; then the shards are
/// gathered. The first result is everything known after that, the second
/// what is new, both in canonical form.
pub fn sharded_merge<P: Partitioner>(known: &Relation, derived: &Relation, p: &P) -> (r: (
    Relation,
    Relation,
))
    requires
        p.valid(),
        known.is_distinct(),
        unit_weights(derived.facts@),
    ensures
        r.0.is_distinct(),
        r.1.is_distinct(),
        pairs(r.0.facts@) == pairs(known.facts@).union(pairs(derived.facts@)),
        pairs(r.1.facts@) == pairs(derived.facts@).difference(pairs(known.facts@)),
{
    let workers = p.count();
    let ks = partition(known, Column::To, p);
    let ds = partition(derived, Column::To, p);
    let mut nexts: Vec<Relation> = Vec::new();
    let mut deltas: Vec<Relation> = Vec::new();
    let mut w: usize = 0;
    while w < workers
        invariant
            0 <= w <= workers,
            workers == p.shards(),
            p.valid(),
            known.is_distinct(),
            unit_weights(derived.facts@),
            ks@.len() == workers,
            ds@.len() == workers,
            forall|v: int|
                0 <= v < workers ==> (#[trigger] ks@[v]).facts@ == slice_of(
                    known.facts@,
                    Column::To,
                    *p,
                    v,
                ),
            forall|v: int|
                0 <= v < workers ==> (#[trigger] ds@[v]).facts@ == slice_of(
                    derived.facts@,
                    Column::To,
                    *p,
                    v,
                ),
            nexts@.len() == w,
            deltas@.len() == w,
            forall|v: int|
                0 <= v < w ==> is_set((#[trigger] nexts@[v]).facts@) && pairs(nexts@[v].facts@)
                    == pairs(slice_of(known.facts@, Column::To, *p, v)).union(
                    pairs(slice_of(derived.facts@, Column::To, *p, v)),
                ),
            forall|v: int|
                0 <= v < w ==> is_set((#[trigger] deltas@[v]).facts@) && pairs(
                    deltas@[v].facts@,
                ) == pairs(slice_of(derived.facts@, Column::To, *p, v)).difference(
                    pairs(slice_of(known.facts@, Column::To, *p, v)),
                ),
        decreases workers - w,
    {
        let both = ks[w].union(&ds[w]);
        let next = both.distinct();
        let delta = next.delta_from(&ks[w]);
        proof {
            let k = slice_of(known.facts@, Column::To, *p, w as int);
            let d = slice_of(derived.facts@, Column::To, *p, w as int);
            assert(ks@[w as int].facts@ == k);
            assert(ds@[w as int].facts@ == d);
            lemma_slice_is_set(known.facts@, Column::To, *p, w as int);
            lemma_slice_unit(derived.facts@, Column::To, *p, w as int);
            lemma_union_members(ks@[w as int], ds@[w as int], both);
            lemma_delta_pairs(next, ks@[w as int]);
            assert(pairs(next.facts@) == pairs(k).union(pairs(d)));
            assert(pairs(delta.facts@) =~= pairs(d).difference(pairs(k)));
        }
        let ghost nexts_before = nexts@;
        let ghost deltas_before = deltas@;
        nexts.push(next);
        deltas.push(delta);
        proof {
            assert forall|v: int| 0 <= v < w + 1 implies is_set((#[trigger] nexts@[v]).facts@)
                && pairs(nexts@[v].facts@) == pairs(
                slice_of(known.facts@, Column::To, *p, v),
            ).union(pairs(slice_of(derived.facts@, Column::To, *p, v))) by {
                if v < w {
                    assert(nexts@[v] == nexts_before[v]);
                }
            }
            assert forall|v: int| 0 <= v < w + 1 implies is_set((#[trigger] deltas@[v]).facts@)
                && pairs(deltas@[v].facts@) == pairs(
                slice_of(derived.facts@, Column::To, *p, v),
            ).difference(pairs(slice_of(known.facts@, Column::To, *p, v))) by {
                if v < w {
                    assert(deltas@[v] == deltas_before[v]);
                }
            }
        }
        w = w + 1;
    }
    let next = gather(&nexts);
    let delta = gather(&deltas);
    proof {
        let a = pairs(known.facts@);
        let b = pairs(derived.facts@);
        assert forall|v: int, x: u32, y: u32|
            #![trigger occurs(nexts@[v].facts@, x, y)]
            0 <= v < nexts@.len() && occurs(nexts@[v].facts@, x, y) implies p.owner(y) == v by {
            assert(pairs(nexts@[v].facts@).contains((x, y)));
            lemma_slice_occurs(known.facts@, Column::To, *p, v, x, y);
            lemma_slice_occurs(derived.facts@, Column::To, *p, v, x, y);
        }
        assert forall|v: int, x: u32, y: u32|
            #![trigger occurs(deltas@[v].facts@, x, y)]
            0 <= v < deltas@.len() && occurs(deltas@[v].facts@, x, y) implies p.owner(y)
            == v by {
            assert(pairs(deltas@[v].facts@).contains((x, y)));
            lemma_slice_occurs(derived.facts@, Column::To, *p, v, x, y);
        }
        lemma_merged_is_set(nexts@, *p);
        lemma_merged_is_set(deltas@, *p);
        assert forall|q: (u32, u32)| pairs(next.facts@).contains(q) == a.union(b).contains(
            q,
        ) by {
            lemma_merged_occurs(nexts@, q.0, q.1);
            p.lemma_owner_in_range(q.1);
            let home = p.owner(q.1) as int;
            lemma_slice_occurs(known.facts@, Column::To, *p, home, q.0, q.1);
            lemma_slice_occurs(derived.facts@, Column::To, *p, home, q.0, q.1);
            if pairs(next.facts@).contains(q) {
                let v = choose|v: int|
                    0 <= v < nexts@.len() && occurs((#[trigger] nexts@[v]).facts@, q.0, q.1);
                assert(pairs(nexts@[v].facts@).contains(q));
                lemma_slice_occurs(known.facts@, Column::To, *p, v, q.0, q.1);
                lemma_slice_occurs(derived.facts@, Column::To, *p, v, q.0, q.1);
            }
            if a.union(b).contains(q) {
                assert(pairs(nexts@[home].facts@).contains(q));
                assert(occurs(nexts@[home].facts@, q.0, q.1));
            }
        }
        assert(pairs(next.facts@) =~= a.union(b));
        assert forall|q: (u32, u32)| pairs(delta.facts@).contains(q) == b.difference(
            a,
        ).contains(q) by {
            lemma_merged_occurs(deltas@, q.0, q.1);
            p.lemma_owner_in_range(q.1);
            let home = p.owner(q.1) as int;
            lemma_slice_occurs(known.facts@, Column::To, *p, home, q.0, q.1);
            lemma_slice_occurs(derived.facts@, Column::To, *p, home, q.0, q.1);
            if pairs(delta.facts@).contains(q) {
                let v = choose|v: int|
                    0 <= v < deltas@.len() && occurs((#[trigger] deltas@[v]).facts@, q.0, q.1);
                assert(pairs(deltas@[v].facts@).contains(q));
                lemma_slice_occurs(known.facts@, Column::To, *p, v, q.0, q.1);
                lemma_slice_occurs(derived.facts@, Column::To, *p, v, q.0, q.1);
            }
            if b.difference(a).contains(q) {
                assert(pairs(deltas@[home].facts@).contains(q));
                assert(occurs(deltas@[home].facts@, q.0, q.1));
            }
        }
        assert(pairs(delta.facts@) =~= b.difference(a));
    }
    (next, delta)
}

/// The join of `left`, keyed by the far end of its pairs, with `right`,
/// keyed by the near end, computed shard by shard. Each fact goes to the
/// shard that owns its join key, so that both sides of a match meet in one
/// shard; the results of the shards are gathered.
pub fn sharded_join<P: Partitioner>(left: &Relation, right: &Relation, p: &P) -> (out: Relation)
    requires
        p.valid(),
        unit_weights(left.facts@),
        unit_weights(right.facts@),
    ensures
        pairs(out.facts@) == compose(pairs(left.facts@), pairs(right.facts@)),
        unit_weights(out.facts@),
{
    let workers = p.count();
    let ls = partition(left, Column::To, p);
    let rs = partition(right, Column::From, p);
    let mut outs: Vec<Relation> = Vec::new();
    let mut w: usize = 0;
    while w < workers
        invariant
            0 <= w <= workers,
            workers == p.shards(),
            p.valid(),
            unit_weights(left.facts@),
            unit_weights(right.facts@),
            ls@.len() == workers,
            rs@.len() == workers,
            forall|v: int|
                0 <= v < workers ==> (#[trigger] ls@[v]).facts@ == slice_of(
                    left.facts@,
                    Column::To,
                    *p,
                    v,
                ),
            forall|v: int|
                0 <= v < workers ==> (#[trigger] rs@[v]).facts@ == slice_of(
                    right.facts@,
                    Column::From,
                    *p,
                    v,
                ),
            outs@.len() == w,
            forall|v: int|
                0 <= v < w ==> unit_weights((#[trigger] outs@[v]).facts@) && pairs(
                    outs@[v].facts@,
                ) == compose(
                    pairs(slice_of(left.facts@, Column::To, *p, v)),
                    pairs(slice_of(right.facts@, Column::From, *p, v)),
                ),
        decreases workers - w,
    {
        let li = Index::build(&ls[w], Column::To);
        let ri = Index::build(&rs[w], Column::From);
        proof {
            assert(ls@[w as int].facts@ == slice_of(left.facts@, Column::To, *p, w as int));
            assert(rs@[w as int].facts@ == slice_of(right.facts@, Column::From, *p, w as int));
            lemma_slice_unit(left.facts@, Column::To, *p, w as int);
            lemma_slice_unit(right.facts@, Column::From, *p, w as int);
            lemma_join_unit(
                ls@[w as int].facts@,
                Column::To,
                rs@[w as int].facts@,
                Column::From,
                li,
                ri,
            );
            lemma_join_composes(ls@[w as int].facts@, rs@[w as int].facts@, li, ri);
        }
        let o = join(&li, &ri);
        let ghost before = outs@;
        outs.push(o);
        proof {
            assert forall|v: int| 0 <= v < w + 1 implies unit_weights(
                (#[trigger] outs@[v]).facts@,
            ) && pairs(outs@[v].facts@) == compose(
                pairs(slice_of(left.facts@, Column::To, *p, v)),
                pairs(slice_of(right.facts@, Column::From, *p, v)),
            ) by {
                if v < w {
                    assert(outs@[v] == before[v]);
                }
            }
        }
        w = w + 1;
    }
    let out = gather(&outs);
    proof {
        lemma_merged_unit(outs@);
        let a = pairs(left.facts@);
        let b = pairs(right.facts@);
        assert forall|q: (u32, u32)| pairs(out.facts@).contains(q) == compose(a, b).contains(
            q,
        ) by {
            lemma_merged_occurs(outs@, q.0, q.1);
            if pairs(out.facts@).contains(q) {
                let v = choose|v: int|
                    0 <= v < outs@.len() && occurs((#[trigger] outs@[v]).facts@, q.0, q.1);
                let sa = pairs(slice_of(left.facts@, Column::To, *p, v));
                let sb = pairs(slice_of(right.facts@, Column::From, *p, v));
                assert(pairs(outs@[v].facts@).contains(q));
                assert(compose(sa, sb).contains(q));
                let y = choose|y: u32| linked(sa, sb, q, y);
                lemma_slice_occurs(left.facts@, Column::To, *p, v, q.0, y);
                lemma_slice_occurs(right.facts@, Column::From, *p, v, y, q.1);
                assert(linked(a, b, q, y));
            }
            if compose(a, b).contains(q) {
                let y = choose|y: u32| linked(a, b, q, y);
                p.lemma_owner_in_range(y);
                let v = p.owner(y) as int;
                let sa = pairs(slice_of(left.facts@, Column::To, *p, v));
                let sb = pairs(slice_of(right.facts@, Column::From, *p, v));
                lemma_slice_occurs(left.facts@, Column::To, *p, v, q.0, y);
                lemma_slice_occurs(right.facts@, Column::From, *p, v, y, q.1);
                assert(linked(sa, sb, q, y));
                assert(compose(sa, sb).contains(q));
                assert(pairs(outs@[v].facts@).contains(q));
                assert(occurs(outs@[v].facts@, q.0, q.1));
            }
        }
        assert(pairs(out.facts@) =~= compose(a, b));
    }
    out
}

} // verus!
