//! Grouping a relation by one of its columns.

use vstd::prelude::*;
use crate::relation::{unit_weights, Fact, Relation};

verus! {

/// The column of a fact that serves as the key of an index.
#[derive(Clone, Copy, Debug, PartialEq, Eq, Structural)]
pub enum Column {
    From,
    To,
}

/// What an index keeps of a fact under its key: the other column and the
/// weight.
#[derive(Clone, Copy, Debug, PartialEq, Eq, Structural)]
pub struct Entry {
    pub value: u32,
    pub weight: i64,
}

/// All the entries that share one key, in the order of the relation.
#[derive(Debug)]
pub struct Bucket {
    pub key: u32,
    pub entries: Vec<Entry>,
}

/// A mapping from each key to the list of entries under it.
#[derive(Debug)]
pub struct Index {
    pub buckets: Vec<Bucket>,
}

/// The column of `f` that an index on `col` is keyed by.
pub open spec fn key_of(f: Fact, col: Column) -> u32 {
    match col {
        Column::From => f.from,
        Column::To => f.to,
    }
}

/// The column of `f` that an index on `col` keeps as the value.
pub open spec fn value_of(f: Fact, col: Column) -> u32 {
    match col {
        Column::From => f.to,
        Column::To => f.from,
    }
}

/// The entry that an index on `col` keeps of `f`.
pub open spec fn entry_of(f: Fact, col: Column) -> Entry {
    Entry { value: value_of(f, col), weight: f.weight }
}

/// The entries of the facts of `s` whose key column holds `k`, one for each
/// occurrence, in order.
pub open spec fn project(s: Seq<Fact>, col: Column, k: u32) -> Seq<Entry>
    decreases s.len(),
{
    if s.len() == 0 {
        Seq::empty()
    } else if key_of(s.last(), col) == k {
        project(s.drop_last(), col, k).push(entry_of(s.last(), col))
    } else {
        project(s.drop_last(), col, k)
    }
}

/// The entries that the buckets `bs` hold under the key `k`; none where no
/// bucket has that key.
pub open spec fn entries_for(bs: Seq<Bucket>, k: u32) -> Seq<Entry>
    decreases bs.len(),
{
    if bs.len() == 0 {
        Seq::empty()
    } else if bs.last().key == k {
        bs.last().entries@
    } else {
        entries_for(bs.drop_last(), k)
    }
}

/// Some bucket of `bs` has the key `k`.
pub open spec fn has_bucket(bs: Seq<Bucket>, k: u32) -> bool {
    exists|i: int| 0 <= i < bs.len() && (#[trigger] bs[i]).key == k
}

/// Some fact of `s` has `k` in its key column and `v` in the other.
pub open spec fn has_fact(s: Seq<Fact>, col: Column, k: u32, v: u32) -> bool {
    exists|i: int| 0 <= i < s.len() && key_of(#[trigger] s[i], col) == k && value_of(s[i], col) == v
}

/// Some entry of `es` holds the value `v`.
pub open spec fn has_value(es: Seq<Entry>, v: u32) -> bool {
    exists|i: int| 0 <= i < es.len() && (#[trigger] es[i]).value == v
}

/// Every entry of `es` has weight one.
pub open spec fn unit_entries(es: Seq<Entry>) -> bool {
    forall|i: int| 0 <= i < es.len() ==> (#[trigger] es[i]).weight == 1
}

/// The entries under a key are those of one bucket with that key, or none
/// where no bucket has it.
pub proof fn lemma_entries_for(bs: Seq<Bucket>, k: u32)
    ensures
        has_bucket(bs, k) ==> exists|i: int|
            0 <= i < bs.len() && (#[trigger] bs[i]).key == k && entries_for(bs, k)
                == bs[i].entries@,
        !has_bucket(bs, k) ==> entries_for(bs, k) == Seq::<Entry>::empty(),
    decreases bs.len(),
{
    if bs.len() > 0 {
        let t = bs.drop_last();
        lemma_entries_for(t, k);
        if bs.last().key == k {
            assert(bs[bs.len() - 1].key == k);
        } else {
            if has_bucket(bs, k) {
                let i = choose|i: int| 0 <= i < bs.len() && (#[trigger] bs[i]).key == k;
                assert(t[i].key == k);
                let j = choose|j: int|
                    0 <= j < t.len() && (#[trigger] t[j]).key == k && entries_for(t, k)
                        == t[j].entries@;
                assert(bs[j].key == k && entries_for(bs, k) == bs[j].entries@);
            } else {
                if has_bucket(t, k) {
                    let i = choose|i: int| 0 <= i < t.len() && (#[trigger] t[i]).key == k;
                    assert(bs[i].key == k);
                }
            }
        }
    }
}

/// The values under a key are those of the facts with that key.
pub proof fn lemma_project_values(s: Seq<Fact>, col: Column, k: u32, v: u32)
    ensures
        has_value(project(s, col, k), v) <==> has_fact(s, col, k, v),
    decreases s.len(),
{
    if s.len() > 0 {
        let t = s.drop_last();
        let f = s.last();
        lemma_project_values(t, col, k, v);
        let pt = project(t, col, k);
        let ps = project(s, col, k);
        if has_fact(t, col, k, v) {
            let i = choose|i: int|
                0 <= i < t.len() && key_of(#[trigger] t[i], col) == k && value_of(t[i], col) == v;
            assert(key_of(s[i], col) == k && value_of(s[i], col) == v);
        }
        if has_fact(s, col, k, v) {
            let i = choose|i: int|
                0 <= i < s.len() && key_of(#[trigger] s[i], col) == k && value_of(s[i], col) == v;
            if i < t.len() {
                assert(key_of(t[i], col) == k && value_of(t[i], col) == v);
            }
        }
        if key_of(f, col) == k {
            assert(ps == pt.push(entry_of(f, col)));
            if has_value(pt, v) {
                let i = choose|i: int| 0 <= i < pt.len() && (#[trigger] pt[i]).value == v;
                assert(ps[i].value == v);
            }
            if has_value(ps, v) {
                let i = choose|i: int| 0 <= i < ps.len() && (#[trigger] ps[i]).value == v;
                if i < pt.len() {
                    assert(pt[i].value == v);
                } else {
                    assert(key_of(s[s.len() - 1], col) == k && value_of(s[s.len() - 1], col) == v);
                }
            }
            if value_of(f, col) == v {
                assert(ps[pt.len() as int].value == v);
                assert(key_of(s[s.len() - 1], col) == k && value_of(s[s.len() - 1], col) == v);
            }
        }
    }
}

/// A key has entries exactly where some fact has that key.
pub proof fn lemma_project_len(s: Seq<Fact>, col: Column, k: u32)
    ensures
        project(s, col, k).len() > 0 <==> exists|i: int|
            0 <= i < s.len() && key_of(#[trigger] s[i], col) == k,
    decreases s.len(),
{
    if s.len() > 0 {
        let t = s.drop_last();
        lemma_project_len(t, col, k);
        if key_of(s.last(), col) == k {
            assert(key_of(s[s.len() - 1], col) == k);
        } else {
            if project(t, col, k).len() > 0 {
                let i = choose|i: int| 0 <= i < t.len() && key_of(#[trigger] t[i], col) == k;
                assert(key_of(s[i], col) == k);
            }
            if exists|i: int| 0 <= i < s.len() && key_of(#[trigger] s[i], col) == k {
                let i = choose|i: int| 0 <= i < s.len() && key_of(#[trigger] s[i], col) == k;
                assert(key_of(t[i], col) == k);
            }
        }
    }
}

/// Entries of facts of weight one have weight one.
pub proof fn lemma_project_unit(s: Seq<Fact>, col: Column, k: u32)
    requires
        unit_weights(s),
    ensures
        unit_entries(project(s, col, k)),
    decreases s.len(),
{
    if s.len() > 0 {
        let t = s.drop_last();
        assert forall|i: int| 0 <= i < t.len() implies (#[trigger] t[i]).weight == 1 by {
            assert(t[i] == s[i]);
        }
        lemma_project_unit(t, col, k);
        assert(s[s.len() - 1].weight == 1);
    }
}

/// The key and the entry of `f` for an index on `col`.
pub(crate) fn split(f: Fact, col: Column) -> (r: (u32, Entry))
    ensures
        r.0 == key_of(f, col),
        r.1 == entry_of(f, col),
{
    match col {
        Column::From => (f.from, Entry { value: f.to, weight: f.weight }),
        Column::To => (f.to, Entry { value: f.from, weight: f.weight }),
    }
}

/// The entries of `facts` under the key `k`.
fn collect(facts: &Vec<Fact>, col: Column, k: u32) -> (entries: Vec<Entry>)
    ensures
        entries@ == project(facts@, col, k),
{
    let mut entries: Vec<Entry> = Vec::new();
    let mut i: usize = 0;
    while i < facts.len()
        invariant
            0 <= i <= facts.len(),
            entries@ == project(facts@.take(i as int), col, k),
        decreases facts.len() - i,
    {
        proof {
            assert(facts@.take(i + 1).drop_last() =~= facts@.take(i as int));
        }
        let (key, entry) = split(facts[i], col);
        if key == k {
            entries.push(entry);
        }
        i = i + 1;
    }
    proof {
        assert(facts@.take(facts.len() as int) =~= facts@);
    }
    entries
}

/// The position of the bucket that answers for the key `k`, if any.
pub fn find_bucket(buckets: &Vec<Bucket>, k: u32) -> (at: Option<usize>)
    ensures
        match at {
            Some(i) => i < buckets@.len() && buckets@[i as int].key == k && entries_for(
                buckets@,
                k,
            ) == buckets@[i as int].entries@,
            None => !has_bucket(buckets@, k) && entries_for(buckets@, k) == Seq::<Entry>::empty(),
        },
{
    let mut i: usize = buckets.len();
    proof {
        assert(buckets@.take(i as int) =~= buckets@);
    }
    while i > 0
        invariant
            0 <= i <= buckets.len(),
            entries_for(buckets@, k) == entries_for(buckets@.take(i as int), k),
            forall|j: int| i <= j < buckets.len() ==> (#[trigger] buckets@[j]).key != k,
        decreases i,
    {
        proof {
            assert(buckets@.take(i as int).drop_last() =~= buckets@.take(i - 1));
        }
        i = i - 1;
        if buckets[i].key == k {
            return Some(i);
        }
    }
    None
}

impl Index {
    /// The list of entries under the key `k`, empty where the key is absent.
    pub open spec fn lookup(&self, k: u32) -> Seq<Entry> {
        entries_for(self.buckets@, k)
    }

    /// The index is that of `s` on `col`: no key has two buckets, no bucket
    /// is empty, and each key answers with every occurrence of it in `s`.
    pub open spec fn indexes(&self, s: Seq<Fact>, col: Column) -> bool {
        &&& forall|i: int, j: int|
            0 <= i < j < self.buckets@.len() ==> (#[trigger] self.buckets@[i]).key != (
            #[trigger] self.buckets@[j]).key
        &&& forall|i: int|
            0 <= i < self.buckets@.len() ==> (#[trigger] self.buckets@[i]).entries@ == project(
                s,
                col,
                self.buckets@[i].key,
            ) && self.buckets@[i].entries@.len() > 0
        &&& forall|k: u32| #[trigger] self.lookup(k) == project(s, col, k)
    }

    /// Groups the facts of `rel` by the column `col`. To key a relation by
    /// the far end of its pairs is to invert it and key it by the near end.
    pub fn build(rel: &Relation, col: Column) -> (idx: Index)
        ensures
            idx.indexes(rel.facts@, col),
    {
        let mut buckets: Vec<Bucket> = Vec::new();
        let mut i: usize = 0;
        while i < rel.facts.len()
            invariant
                0 <= i <= rel.facts.len(),
                forall|a: int, b: int|
                    0 <= a < b < buckets@.len() ==> (#[trigger] buckets@[a]).key != (
                    #[trigger] buckets@[b]).key,
                forall|a: int|
                    0 <= a < buckets@.len() ==> (#[trigger] buckets@[a]).entries@ == project(
                        rel.facts@,
                        col,
                        buckets@[a].key,
                    ) && buckets@[a].entries@.len() > 0,
                forall|j: int|
                    0 <= j < i ==> has_bucket(buckets@, key_of(#[trigger] rel.facts@[j], col)),
            decreases rel.facts.len() - i,
        {
            let (k, _entry) = split(rel.facts[i], col);
            let ghost before = buckets@;
            if find_bucket(&buckets, k).is_none() {
                let entries = collect(&rel.facts, col, k);
                proof {
                    lemma_project_len(rel.facts@, col, k);
                    assert(key_of(rel.facts@[i as int], col) == k);
                }
                buckets.push(Bucket { key: k, entries });
                proof {
                    assert(buckets@[before.len() as int].key == k);
                    assert forall|j: int| 0 <= j < i implies has_bucket(
                        buckets@,
                        key_of(#[trigger] rel.facts@[j], col),
                    ) by {
                        let kj = key_of(rel.facts@[j], col);
                        let a = choose|a: int| 0 <= a < before.len() && (#[trigger] before[a]).key == kj;
                        assert(buckets@[a].key == kj);
                    }
                    assert forall|a: int, b: int| 0 <= a < b < buckets@.len() implies (
                    #[trigger] buckets@[a]).key != (#[trigger] buckets@[b]).key by {
                        assert(buckets@[a] == before[a]);
                        if b < before.len() {
                            assert(buckets@[b] == before[b]);
                        }
                    }
                    assert forall|a: int| 0 <= a < buckets@.len() implies (
                    #[trigger] buckets@[a]).entries@ == project(rel.facts@, col, buckets@[a].key)
                        && buckets@[a].entries@.len() > 0 by {
                        if a < before.len() {
                            assert(buckets@[a] == before[a]);
                        }
                    }
                }
            }
            i = i + 1;
        }
        let idx = Index { buckets };
        proof {
            assert forall|k: u32| #[trigger] idx.lookup(k) == project(rel.facts@, col, k) by {
                lemma_entries_for(idx.buckets@, k);
                if !has_bucket(idx.buckets@, k) {
                    lemma_project_len(rel.facts@, col, k);
                    if project(rel.facts@, col, k).len() > 0 {
                        let j = choose|j: int|
                            0 <= j < rel.facts@.len() && key_of(#[trigger] rel.facts@[j], col)
                                == k;
                        assert(has_bucket(idx.buckets@, key_of(rel.facts@[j], col)));
                    }
                    assert(project(rel.facts@, col, k) =~= Seq::<Entry>::empty());
                }
            }
        }
        idx
    }

    /// The number of keys.
    pub fn len(&self) -> (n: usize)
        ensures
            n == self.buckets@.len(),
    {
        self.buckets.len()
    }
}

} // verus!
