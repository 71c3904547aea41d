//! The indexed join: for every key that both indexes hold, the full cross
//! product of the two lists under it.

use vstd::prelude::*;
use crate::closure::{compose, linked};
use crate::index::{
    entries_for, find_bucket, has_bucket, has_fact, has_value, key_of, lemma_entries_for,
    lemma_project_unit, lemma_project_values, project, unit_entries, value_of, Bucket, Column,
    Entry, Index,
};
use crate::relation::{lemma_occurs_concat, occurs, pairs, unit_weights, Fact, Relation};

verus! {

/// The fact that a left entry and a right entry of one key combine to: from
/// the left value to the right value, with the product of the weights.
pub open spec fn combine(l: Entry, r: Entry) -> Fact {
    Fact { from: l.value, to: r.value, weight: (l.weight * r.weight) as i64 }
}

/// The product of the two weights is a weight.
pub open spec fn product_fits(l: Entry, r: Entry) -> bool {
    i64::MIN <= l.weight * r.weight <= i64::MAX
}

/// Every left entry can be combined with every right entry.
pub open spec fn products_fit(l: Seq<Entry>, r: Seq<Entry>) -> bool {
    forall|i: int, j: int|
        0 <= i < l.len() && 0 <= j < r.len() ==> product_fits(#[trigger] l[i], #[trigger] r[j])
}

/// One left entry against the whole right list.
pub open spec fn row(l: Entry, r: Seq<Entry>) -> Seq<Fact> {
    Seq::new(r.len(), |j: int| combine(l, r[j]))
}

/// The cross product of two lists: the rows of the left entries, in order.
pub open spec fn cross(l: Seq<Entry>, r: Seq<Entry>) -> Seq<Fact>
    decreases l.len(),
{
    if l.len() == 0 {
        Seq::empty()
    } else {
        cross(l.drop_last(), r) + row(l.last(), r)
    }
}

/// The join of the left buckets `lb` with the right buckets `rb`: for each
/// left bucket, the cross product with the right list of the same key.
pub open spec fn join_all(lb: Seq<Bucket>, rb: Seq<Bucket>) -> Seq<Fact>
    decreases lb.len(),
{
    if lb.len() == 0 {
        Seq::empty()
    } else {
        join_all(lb.drop_last(), rb) + cross(lb.last().entries@, entries_for(rb, lb.last().key))
    }
}

/// Every pair of lists that the join combines has products that fit.
pub open spec fn joinable(lb: Seq<Bucket>, rb: Seq<Bucket>) -> bool {
    forall|i: int|
        0 <= i < lb.len() ==> products_fit(
            (#[trigger] lb[i]).entries@,
            entries_for(rb, lb[i].key),
        )
}

/// The cross product has one fact for each pair of entries.
pub proof fn lemma_cross_len(l: Seq<Entry>, r: Seq<Entry>)
    ensures
        cross(l, r).len() == l.len() * r.len(),
    decreases l.len(),
{
    if l.len() > 0 {
        lemma_cross_len(l.drop_last(), r);
        assert((l.len() - 1) * r.len() + r.len() == l.len() * r.len()) by (nonlinear_arith);
    } else {
        assert(0 * r.len() == 0);
    }
}

/// A row holds the pairs from its left value to each right value.
pub proof fn lemma_row_occurs(l: Entry, r: Seq<Entry>, x: u32, z: u32)
    ensures
        occurs(row(l, r), x, z) <==> l.value == x && has_value(r, z),
{
    let s = row(l, r);
    if occurs(s, x, z) {
        let j = choose|j: int| 0 <= j < s.len() && (#[trigger] s[j]).from == x && s[j].to == z;
        assert(r[j].value == z);
    }
    if l.value == x && has_value(r, z) {
        let j = choose|j: int| 0 <= j < r.len() && (#[trigger] r[j]).value == z;
        assert(s[j].from == x && s[j].to == z);
    }
}

/// A cross product holds the pairs from each left value to each right value.
pub proof fn lemma_cross_occurs(l: Seq<Entry>, r: Seq<Entry>, x: u32, z: u32)
    ensures
        occurs(cross(l, r), x, z) <==> has_value(l, x) && has_value(r, z),
    decreases l.len(),
{
    if l.len() > 0 {
        let t = l.drop_last();
        lemma_cross_occurs(t, r, x, z);
        lemma_row_occurs(l.last(), r, x, z);
        lemma_occurs_concat(cross(t, r), row(l.last(), r), x, z);
        if has_value(t, x) {
            let i = choose|i: int| 0 <= i < t.len() && (#[trigger] t[i]).value == x;
            assert(l[i].value == x);
        }
        if l.last().value == x {
            assert(l[l.len() - 1].value == x);
        }
        if has_value(l, x) {
            let i = choose|i: int| 0 <= i < l.len() && (#[trigger] l[i]).value == x;
            if i < t.len() {
                assert(t[i].value == x);
            }
        }
    }
}

/// Some left bucket holds `x` and the right list of its key holds `z`.
pub open spec fn meets(lb: Seq<Bucket>, rb: Seq<Bucket>, x: u32, z: u32) -> bool {
    exists|i: int|
        0 <= i < lb.len() && has_value((#[trigger] lb[i]).entries@, x) && has_value(
            entries_for(rb, lb[i].key),
            z,
        )
}

/// A join holds the pairs that some key brings together.
pub proof fn lemma_join_all_occurs(lb: Seq<Bucket>, rb: Seq<Bucket>, x: u32, z: u32)
    ensures
        occurs(join_all(lb, rb), x, z) <==> meets(lb, rb, x, z),
    decreases lb.len(),
{
    if lb.len() > 0 {
        let t = lb.drop_last();
        let b = lb.last();
        lemma_join_all_occurs(t, rb, x, z);
        lemma_cross_occurs(b.entries@, entries_for(rb, b.key), x, z);
        lemma_occurs_concat(join_all(t, rb), cross(b.entries@, entries_for(rb, b.key)), x, z);
        if meets(t, rb, x, z) {
            let i = choose|i: int|
                0 <= i < t.len() && has_value((#[trigger] t[i]).entries@, x) && has_value(
                    entries_for(rb, t[i].key),
                    z,
                );
            assert(lb[i] == t[i]);
        }
        if has_value(b.entries@, x) && has_value(entries_for(rb, b.key), z) {
            assert(lb[lb.len() - 1] == b);
        }
        if meets(lb, rb, x, z) {
            let i = choose|i: int|
                0 <= i < lb.len() && has_value((#[trigger] lb[i]).entries@, x) && has_value(
                    entries_for(rb, lb[i].key),
                    z,
                );
            if i < t.len() {
                assert(t[i] == lb[i]);
            }
        }
    }
}

/// A relation has the pair `(x, y)` where it has a fact keyed `y` with the
/// value `x` on its far column, and likewise on its near column.
pub proof fn lemma_has_fact_occurs(s: Seq<Fact>, x: u32, y: u32)
    ensures
        has_fact(s, Column::To, y, x) <==> occurs(s, x, y),
        has_fact(s, Column::From, x, y) <==> occurs(s, x, y),
{
    if has_fact(s, Column::To, y, x) {
        let i = choose|i: int|
            0 <= i < s.len() && key_of(#[trigger] s[i], Column::To) == y && value_of(
                s[i],
                Column::To,
            ) == x;
        assert(s[i].from == x && s[i].to == y);
    }
    if has_fact(s, Column::From, x, y) {
        let i = choose|i: int|
            0 <= i < s.len() && key_of(#[trigger] s[i], Column::From) == x && value_of(
                s[i],
                Column::From,
            ) == y;
        assert(s[i].from == x && s[i].to == y);
    }
    if occurs(s, x, y) {
        let i = choose|i: int| 0 <= i < s.len() && (#[trigger] s[i]).from == x && s[i].to == y;
        assert(key_of(s[i], Column::To) == y && value_of(s[i], Column::To) == x);
        assert(key_of(s[i], Column::From) == x && value_of(s[i], Column::From) == y);
    }
}

/// The join of `a`, keyed by the far end of its pairs, with `b`, keyed by
/// the near end, holds exactly the pairs of the composition of the two.
pub proof fn lemma_join_composes(a: Seq<Fact>, b: Seq<Fact>, left: Index, right: Index)
    requires
        left.indexes(a, Column::To),
        right.indexes(b, Column::From),
    ensures
        pairs(join_all(left.buckets@, right.buckets@)) == compose(pairs(a), pairs(b)),
{
    let lb = left.buckets@;
    let rb = right.buckets@;
    let out = join_all(lb, rb);
    assert forall|p: (u32, u32)| pairs(out).contains(p) == compose(pairs(a), pairs(b)).contains(
        p,
    ) by {
        lemma_join_all_occurs(lb, rb, p.0, p.1);
        if meets(lb, rb, p.0, p.1) {
            let i = choose|i: int|
                0 <= i < lb.len() && has_value((#[trigger] lb[i]).entries@, p.0) && has_value(
                    entries_for(rb, lb[i].key),
                    p.1,
                );
            let y = lb[i].key;
            assert(right.lookup(y) == project(b, Column::From, y));
            lemma_project_values(a, Column::To, y, p.0);
            lemma_project_values(b, Column::From, y, p.1);
            lemma_has_fact_occurs(a, p.0, y);
            lemma_has_fact_occurs(b, y, p.1);
            assert(linked(pairs(a), pairs(b), p, y));
        }
        if compose(pairs(a), pairs(b)).contains(p) {
            let y = choose|y: u32| linked(pairs(a), pairs(b), p, y);
            lemma_has_fact_occurs(a, p.0, y);
            lemma_has_fact_occurs(b, y, p.1);
            lemma_project_values(a, Column::To, y, p.0);
            lemma_project_values(b, Column::From, y, p.1);
            assert(left.lookup(y) == project(a, Column::To, y));
            assert(right.lookup(y) == project(b, Column::From, y));
            lemma_entries_for(lb, y);
            if !has_bucket(lb, y) {
                let j = choose|j: int|
                    0 <= j < project(a, Column::To, y).len() && (#[trigger] project(
                        a,
                        Column::To,
                        y,
                    )[j]).value == p.0;
                assert(false);
            }
            let i = choose|i: int|
                0 <= i < lb.len() && (#[trigger] lb[i]).key == y && entries_for(lb, y)
                    == lb[i].entries@;
            assert(has_value(lb[i].entries@, p.0) && has_value(entries_for(rb, lb[i].key), p.1));
        }
    }
    assert(pairs(out) =~= compose(pairs(a), pairs(b)));
}

/// Entries of weight one can be combined, into facts of weight one.
pub proof fn lemma_cross_unit(l: Seq<Entry>, r: Seq<Entry>)
    requires
        unit_entries(l),
        unit_entries(r),
    ensures
        unit_weights(cross(l, r)),
        products_fit(l, r),
    decreases l.len(),
{
    assert forall|i: int, j: int| 0 <= i < l.len() && 0 <= j < r.len() implies product_fits(
        #[trigger] l[i],
        #[trigger] r[j],
    ) by {
        assert(l[i].weight == 1 && r[j].weight == 1);
    }
    if l.len() > 0 {
        let t = l.drop_last();
        assert(unit_entries(t)) by {
            assert forall|i: int| 0 <= i < t.len() implies (#[trigger] t[i]).weight == 1 by {
                assert(t[i] == l[i]);
            }
        }
        lemma_cross_unit(t, r);
        let c = cross(t, r);
        let w = row(l.last(), r);
        assert(l[l.len() - 1].weight == 1);
        assert forall|i: int| 0 <= i < (c + w).len() implies (#[trigger] (c + w)[i]).weight
            == 1 by {
            if i < c.len() {
                assert((c + w)[i] == c[i]);
            } else {
                let j = i - c.len();
                assert((c + w)[i] == w[j]);
                assert(r[j].weight == 1);
            }
        }
    }
}

/// Buckets of entries of weight one can be joined, into facts of weight one.
pub proof fn lemma_join_all_unit(lb: Seq<Bucket>, rb: Seq<Bucket>)
    requires
        forall|i: int|
            0 <= i < lb.len() ==> unit_entries((#[trigger] lb[i]).entries@) && unit_entries(
                entries_for(rb, lb[i].key),
            ),
    ensures
        unit_weights(join_all(lb, rb)),
        joinable(lb, rb),
    decreases lb.len(),
{
    assert forall|i: int| 0 <= i < lb.len() implies products_fit(
        (#[trigger] lb[i]).entries@,
        entries_for(rb, lb[i].key),
    ) by {
        lemma_cross_unit(lb[i].entries@, entries_for(rb, lb[i].key));
    }
    if lb.len() > 0 {
        let t = lb.drop_last();
        assert forall|i: int| 0 <= i < t.len() implies unit_entries((#[trigger] t[i]).entries@)
            && unit_entries(entries_for(rb, t[i].key)) by {
            assert(t[i] == lb[i]);
        }
        lemma_join_all_unit(t, rb);
        let b = lb[lb.len() - 1];
        lemma_cross_unit(b.entries@, entries_for(rb, b.key));
        let c = join_all(t, rb);
        let w = cross(b.entries@, entries_for(rb, b.key));
        assert forall|i: int| 0 <= i < (c + w).len() implies (#[trigger] (c + w)[i]).weight
            == 1 by {
            if i < c.len() {
                assert((c + w)[i] == c[i]);
            } else {
                assert((c + w)[i] == w[i - c.len()]);
            }
        }
    }
}

/// Indexes of relations whose weights are all one can be joined, and the
/// join has weights of one only.
pub proof fn lemma_join_unit(
    a: Seq<Fact>,
    ca: Column,
    b: Seq<Fact>,
    cb: Column,
    left: Index,
    right: Index,
)
    requires
        left.indexes(a, ca),
        right.indexes(b, cb),
        unit_weights(a),
        unit_weights(b),
    ensures
        joinable(left.buckets@, right.buckets@),
        unit_weights(join_all(left.buckets@, right.buckets@)),
{
    let lb = left.buckets@;
    let rb = right.buckets@;
    assert forall|i: int| 0 <= i < lb.len() implies unit_entries((#[trigger] lb[i]).entries@)
        && unit_entries(entries_for(rb, lb[i].key)) by {
        lemma_project_unit(a, ca, lb[i].key);
        lemma_project_unit(b, cb, lb[i].key);
        assert(right.lookup(lb[i].key) == project(b, cb, lb[i].key));
    }
    lemma_join_all_unit(lb, rb);
}

/// Appends to `out` the row of `l` against `r`.
fn emit_row(out: &mut Vec<Fact>, l: Entry, r: &Vec<Entry>)
    requires
        forall|j: int| 0 <= j < r@.len() ==> product_fits(l, #[trigger] r@[j]),
    ensures
        final(out)@ == old(out)@ + row(l, r@),
{
    let ghost start = out@;
    let mut j: usize = 0;
    while j < r.len()
        invariant
            0 <= j <= r.len(),
            forall|j: int| 0 <= j < r@.len() ==> product_fits(l, #[trigger] r@[j]),
            out@ == start + row(l, r@).take(j as int),
        decreases r.len() - j,
    {
        let e = r[j];
        assert(product_fits(l, r@[j as int]));
        out.push(Fact { from: l.value, to: e.value, weight: l.weight * e.weight });
        proof {
            assert(row(l, r@).take(j + 1) =~= row(l, r@).take(j as int).push(combine(l, e)));
            assert(out@ =~= start + row(l, r@).take(j + 1));
        }
        j = j + 1;
    }
    proof {
        assert(row(l, r@).take(r.len() as int) =~= row(l, r@));
    }
}

/// Appends to `out` the cross product of `l` and `r`.
fn emit_cross(out: &mut Vec<Fact>, l: &Vec<Entry>, r: &Vec<Entry>)
    requires
        products_fit(l@, r@),
    ensures
        final(out)@ == old(out)@ + cross(l@, r@),
{
    let ghost start = out@;
    let mut i: usize = 0;
    while i < l.len()
        invariant
            0 <= i <= l.len(),
            products_fit(l@, r@),
            out@ == start + cross(l@.take(i as int), r@),
        decreases l.len() - i,
    {
        let ghost before = out@;
        assert forall|j: int| 0 <= j < r@.len() implies product_fits(l@[i as int], #[trigger] r@[j]) by {
            assert(product_fits(l@[i as int], r@[j]));
        }
        emit_row(out, l[i], r);
        proof {
            assert(l@.take(i + 1).drop_last() =~= l@.take(i as int));
            assert(out@ =~= start + cross(l@.take(i + 1), r@));
        }
        i = i + 1;
    }
    proof {
        assert(l@.take(l.len() as int) =~= l@);
    }
}

/// Joins two indexes on their keys. For every key that both hold, each left
/// entry is combined with each right entry: a key with `k` entries on the
/// left and `m` on the right gives `k * m` facts, each from the left value
/// to the right value with the product of the two weights.
pub fn join(left: &Index, right: &Index) -> (out: Relation)
    requires
        joinable(left.buckets@, right.buckets@),
    ensures
        out.facts@ == join_all(left.buckets@, right.buckets@),
{
    let mut facts: Vec<Fact> = Vec::new();
    let mut i: usize = 0;
    while i < left.buckets.len()
        invariant
            0 <= i <= left.buckets.len(),
            joinable(left.buckets@, right.buckets@),
            facts@ == join_all(left.buckets@.take(i as int), right.buckets@),
        decreases left.buckets.len() - i,
    {
        let ghost before = facts@;
        let bucket = &left.buckets[i];
        proof {
            assert(left.buckets@.take(i + 1).drop_last() =~= left.buckets@.take(i as int));
            assert(products_fit(
                left.buckets@[i as int].entries@,
                entries_for(right.buckets@, left.buckets@[i as int].key),
            ));
        }
        match find_bucket(&right.buckets, bucket.key) {
            Some(j) => {
                emit_cross(&mut facts, &bucket.entries, &right.buckets[j].entries);
            },
            None => {
                proof {
                    assert(cross(bucket.entries@, Seq::<Entry>::empty()) =~= Seq::<Fact>::empty())
                        by {
                        lemma_cross_len(bucket.entries@, Seq::<Entry>::empty());
                    }
                    assert(facts@ =~= before + Seq::<Fact>::empty());
                }
            },
        }
        i = i + 1;
    }
    proof {
        assert(left.buckets@.take(left.buckets.len() as int) =~= left.buckets@);
    }
    Relation { facts }
}

} // verus!
