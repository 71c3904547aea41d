//! Weighted facts and relations, with union, distinct and delta.

use vstd::prelude::*;

verus! {

/// A pair of node identifiers with a multiplicity.
#[derive(Clone, Copy, Debug, PartialEq, Eq, Structural)]
pub struct Fact {
    pub from: u32,
    pub to: u32,
    pub weight: i64,
}

/// What the entry `f` adds to the multiplicity of the pair `(from, to)`.
pub open spec fn contribution(f: Fact, from: u32, to: u32) -> int {
    if f.from == from && f.to == to {
        f.weight as int
    } else {
        0
    }
}

/// The net multiplicity of `(from, to)` in `s`: the sum of the weights of
/// all entries for that pair.
pub open spec fn net(s: Seq<Fact>, from: u32, to: u32) -> int
    decreases s.len(),
{
    if s.len() == 0 {
        0
    } else {
        net(s.drop_last(), from, to) + contribution(s.last(), from, to)
    }
}

/// Some entry of `s` is for the pair `(from, to)`.
pub open spec fn occurs(s: Seq<Fact>, from: u32, to: u32) -> bool {
    exists|i: int| 0 <= i < s.len() && (#[trigger] s[i]).from == from && s[i].to == to
}

/// The pairs that have an entry in `s`.
pub open spec fn pairs(s: Seq<Fact>) -> Set<(u32, u32)> {
    Set::new(|p: (u32, u32)| occurs(s, p.0, p.1))
}

/// The set of the pairs listed in `edges`.
pub open spec fn edge_set(edges: Seq<(u32, u32)>) -> Set<(u32, u32)> {
    Set::new(|p: (u32, u32)| edges.contains(p))
}

/// Every entry has weight one and no pair has two entries.
pub open spec fn is_set(s: Seq<Fact>) -> bool {
    &&& forall|i: int| 0 <= i < s.len() ==> (#[trigger] s[i]).weight == 1
    &&& forall|i: int, j: int|
        0 <= i < j < s.len() ==> !((#[trigger] s[i]).from == (#[trigger] s[j]).from && s[i].to
            == s[j].to)
}

/// Every entry has weight one.
pub open spec fn unit_weights(s: Seq<Fact>) -> bool {
    forall|i: int| 0 <= i < s.len() ==> (#[trigger] s[i]).weight == 1
}

/// Every entry has a strictly positive weight.
pub open spec fn all_positive(s: Seq<Fact>) -> bool {
    forall|i: int| 0 <= i < s.len() ==> (#[trigger] s[i]).weight > 0
}

/// The multiplicity that distinct gives to a pair of net weight `w`.
pub open spec fn collapse(w: int) -> int {
    if w > 0 {
        1
    } else {
        0
    }
}

/// A new entry adds its contribution to the net multiplicity.
pub proof fn lemma_net_push(s: Seq<Fact>, f: Fact, from: u32, to: u32)
    ensures
        net(s.push(f), from, to) == net(s, from, to) + contribution(f, from, to),
{
    assert(s.push(f).drop_last() =~= s);
}

/// The net multiplicity over two lists is the sum of those over each.
pub proof fn lemma_net_concat(a: Seq<Fact>, b: Seq<Fact>, from: u32, to: u32)
    ensures
        net(a + b, from, to) == net(a, from, to) + net(b, from, to),
    decreases b.len(),
{
    if b.len() == 0 {
        assert(a + b =~= a);
    } else {
        lemma_net_concat(a, b.drop_last(), from, to);
        assert((a + b).drop_last() =~= a + b.drop_last());
    }
}

/// A pair of net multiplicity other than zero has an entry.
pub proof fn lemma_net_nonzero_occurs(s: Seq<Fact>, from: u32, to: u32)
    requires
        net(s, from, to) != 0,
    ensures
        occurs(s, from, to),
    decreases s.len(),
{
    if s.len() > 0 {
        if s.last().from == from && s.last().to == to {
            assert(s[s.len() - 1].from == from);
        } else {
            lemma_net_nonzero_occurs(s.drop_last(), from, to);
            let i = choose|i: int|
                0 <= i < s.drop_last().len() && (#[trigger] s.drop_last()[i]).from == from
                    && s.drop_last()[i].to == to;
            assert(s[i].from == from && s[i].to == to);
        }
    }
}

/// In a canonical list a pair has multiplicity one where it has an entry, and
/// zero elsewhere.
pub proof fn lemma_net_of_set(s: Seq<Fact>, from: u32, to: u32)
    requires
        is_set(s),
    ensures
        net(s, from, to) == if occurs(s, from, to) {
            1int
        } else {
            0int
        },
    decreases s.len(),
{
    if s.len() > 0 {
        let t = s.drop_last();
        assert(is_set(t)) by {
            assert forall|i: int| 0 <= i < t.len() implies (#[trigger] t[i]).weight == 1 by {
                assert(t[i] == s[i]);
            }
            assert forall|i: int, j: int| 0 <= i < j < t.len() implies !((#[trigger] t[i]).from
                == (#[trigger] t[j]).from && t[i].to == t[j].to) by {
                assert(t[i] == s[i] && t[j] == s[j]);
            }
        }
        lemma_net_of_set(t, from, to);
        if s.last().from == from && s.last().to == to {
            assert(s[s.len() - 1].from == from);
            if occurs(t, from, to) {
                let i = choose|i: int|
                    0 <= i < t.len() && (#[trigger] t[i]).from == from && t[i].to == to;
                assert(s[i] == t[i]);
                assert(s[i].from == s[s.len() - 1].from);
            }
        } else {
            if occurs(t, from, to) {
                let i = choose|i: int|
                    0 <= i < t.len() && (#[trigger] t[i]).from == from && t[i].to == to;
                assert(s[i].from == from && s[i].to == to);
            }
            if occurs(s, from, to) {
                let i = choose|i: int|
                    0 <= i < s.len() && (#[trigger] s[i]).from == from && s[i].to == to;
                assert(t[i].from == from && t[i].to == to);
            }
        }
    }
}

/// With positive weights only, a pair has positive multiplicity exactly
/// where it has an entry.
pub proof fn lemma_net_of_positive(s: Seq<Fact>, from: u32, to: u32)
    requires
        all_positive(s),
    ensures
        net(s, from, to) >= 0,
        net(s, from, to) > 0 <==> occurs(s, from, to),
    decreases s.len(),
{
    if s.len() > 0 {
        let t = s.drop_last();
        assert(all_positive(t)) by {
            assert forall|i: int| 0 <= i < t.len() implies (#[trigger] t[i]).weight > 0 by {
                assert(t[i] == s[i]);
            }
        }
        lemma_net_of_positive(t, from, to);
        assert(s[s.len() - 1].weight > 0);
        if occurs(t, from, to) {
            let i = choose|i: int|
                0 <= i < t.len() && (#[trigger] t[i]).from == from && t[i].to == to;
            assert(s[i].from == from && s[i].to == to);
        }
        if occurs(s, from, to) && !(s.last().from == from && s.last().to == to) {
            let i = choose|i: int|
                0 <= i < s.len() && (#[trigger] s[i]).from == from && s[i].to == to;
            assert(t[i].from == from && t[i].to == to);
        }
        if s.last().from == from && s.last().to == to {
            assert(s[s.len() - 1].from == from);
        }
    }
}

/// In a canonical relation the pairs of positive multiplicity are the
/// pairs that have an entry.
pub proof fn lemma_members_of_set(s: Seq<Fact>)
    requires
        is_set(s),
    ensures
        Set::new(|p: (u32, u32)| net(s, p.0, p.1) > 0) == pairs(s),
{
    assert forall|p: (u32, u32)| (net(s, p.0, p.1) > 0) == pairs(s).contains(p) by {
        lemma_net_of_set(s, p.0, p.1);
    }
    assert(Set::new(|p: (u32, u32)| net(s, p.0, p.1) > 0) =~= pairs(s));
}

/// A canonical list has as many entries as it has pairs.
pub proof fn lemma_pairs_len(s: Seq<Fact>)
    requires
        is_set(s),
    ensures
        pairs(s).finite(),
        pairs(s).len() == s.len(),
    decreases s.len(),
{
    if s.len() == 0 {
        assert(pairs(s) =~= Set::<(u32, u32)>::empty());
    } else {
        let t = s.drop_last();
        let f = s.last();
        assert(is_set(t)) by {
            assert forall|i: int| 0 <= i < t.len() implies (#[trigger] t[i]).weight == 1 by {
                assert(t[i] == s[i]);
            }
            assert forall|i: int, j: int| 0 <= i < j < t.len() implies !((#[trigger] t[i]).from
                == (#[trigger] t[j]).from && t[i].to == t[j].to) by {
                assert(t[i] == s[i] && t[j] == s[j]);
            }
        }
        lemma_pairs_len(t);
        assert(s =~= t.push(f));
        assert forall|p: (u32, u32)|
            pairs(s).contains(p) == pairs(t).insert((f.from, f.to)).contains(p) by {
            lemma_occurs_push(t, f, p.0, p.1);
        }
        assert(pairs(s) =~= pairs(t).insert((f.from, f.to)));
        if occurs(t, f.from, f.to) {
            let i = choose|i: int|
                0 <= i < t.len() && (#[trigger] t[i]).from == f.from && t[i].to == f.to;
            assert(s[i] == t[i]);
            assert(s[i].from == s[s.len() - 1].from && s[i].to == s[s.len() - 1].to);
        }
    }
}

/// Where a canonical list holds the pairs of another and those of a third
/// that shares none with it, its length is the sum of their lengths.
pub proof fn lemma_grown_len(prev: Seq<Fact>, added: Seq<Fact>, next: Seq<Fact>)
    requires
        is_set(prev),
        is_set(added),
        is_set(next),
        pairs(prev).subset_of(pairs(next)),
        pairs(added) == pairs(next).difference(pairs(prev)),
    ensures
        next.len() == prev.len() + added.len(),
{
    lemma_pairs_len(prev);
    lemma_pairs_len(added);
    lemma_pairs_len(next);
    assert(pairs(prev).disjoint(pairs(added)));
    assert(pairs(prev) + pairs(added) =~= pairs(next));
    vstd::set_lib::lemma_set_disjoint_lens(pairs(prev), pairs(added));
}

/// A canonical list without its last entry is canonical.
pub proof fn lemma_is_set_drop_last(s: Seq<Fact>)
    requires
        is_set(s),
        s.len() > 0,
    ensures
        is_set(s.drop_last()),
        !occurs(s.drop_last(), s.last().from, s.last().to),
        s.last().weight == 1,
{
    let t = s.drop_last();
    assert forall|i: int| 0 <= i < t.len() implies (#[trigger] t[i]).weight == 1 by {
        assert(t[i] == s[i]);
    }
    assert forall|i: int, j: int| 0 <= i < j < t.len() implies !((#[trigger] t[i]).from == (
    #[trigger] t[j]).from && t[i].to == t[j].to) by {
        assert(t[i] == s[i] && t[j] == s[j]);
    }
    if occurs(t, s.last().from, s.last().to) {
        let i = choose|i: int|
            0 <= i < t.len() && (#[trigger] t[i]).from == s.last().from && t[i].to == s.last().to;
        assert(s[i] == t[i]);
        assert(s[i].from == s[s.len() - 1].from && s[i].to == s[s.len() - 1].to);
    }
    assert(s[s.len() - 1].weight == 1);
}

/// Two canonical lists that share no pair make a canonical list together.
pub proof fn lemma_is_set_concat(a: Seq<Fact>, b: Seq<Fact>)
    requires
        is_set(a),
        is_set(b),
        forall|x: u32, y: u32| !(#[trigger] occurs(a, x, y) && occurs(b, x, y)),
    ensures
        is_set(a + b),
{
    let t = a + b;
    assert forall|i: int| 0 <= i < t.len() implies (#[trigger] t[i]).weight == 1 by {
        if i < a.len() {
            assert(t[i] == a[i]);
        } else {
            assert(t[i] == b[i - a.len()]);
        }
    }
    assert forall|i: int, j: int| 0 <= i < j < t.len() implies !((#[trigger] t[i]).from == (
    #[trigger] t[j]).from && t[i].to == t[j].to) by {
        if j < a.len() {
            assert(t[i] == a[i] && t[j] == a[j]);
        } else if i >= a.len() {
            assert(t[i] == b[i - a.len()] && t[j] == b[j - a.len()]);
        } else {
            assert(t[i] == a[i] && t[j] == b[j - a.len()]);
            if a[i].from == b[j - a.len()].from && a[i].to == b[j - a.len()].to {
                assert(occurs(a, a[i].from, a[i].to));
                assert(occurs(b, a[i].from, a[i].to));
            }
        }
    }
}

/// The net multiplicity of `(from, to)` among the entries of `v`.
pub fn net_weight(v: &Vec<Fact>, from: u32, to: u32) -> (w: i128)
    ensures
        w == net(v@, from, to),
{
    let mut acc: i128 = 0;
    let mut i: usize = 0;
    while i < v.len()
        invariant
            0 <= i <= v.len(),
            acc == net(v@.take(i as int), from, to),
            -(i * 0x8000_0000_0000_0000) <= acc <= i * 0x8000_0000_0000_0000,
        decreases v.len() - i,
    {
        proof {
            assert(v@.take(i + 1).drop_last() =~= v@.take(i as int));
        }
        if v[i].from == from && v[i].to == to {
            acc = acc + v[i].weight as i128;
        }
        i = i + 1;
    }
    proof {
        assert(v@.take(v.len() as int) =~= v@);
    }
    acc
}

/// Whether some entry of `v` is for the pair `(from, to)`.
pub fn has_pair(v: &Vec<Fact>, from: u32, to: u32) -> (found: bool)
    ensures
        found == occurs(v@, from, to),
{
    let mut i: usize = 0;
    while i < v.len()
        invariant
            0 <= i <= v.len(),
            forall|j: int| 0 <= j < i ==> !((#[trigger] v@[j]).from == from && v@[j].to == to),
        decreases v.len() - i,
    {
        if v[i].from == from && v[i].to == to {
            assert(v@[i as int].from == from);
            return true;
        }
        i = i + 1;
    }
    false
}

/// The pairs of an extended list are those of the list and the new one.
pub proof fn lemma_occurs_push(s: Seq<Fact>, f: Fact, from: u32, to: u32)
    ensures
        occurs(s.push(f), from, to) <==> occurs(s, from, to) || (f.from == from && f.to == to),
{
    let t = s.push(f);
    if occurs(s, from, to) {
        let i = choose|i: int| 0 <= i < s.len() && (#[trigger] s[i]).from == from && s[i].to == to;
        assert(t[i].from == from && t[i].to == to);
    }
    if f.from == from && f.to == to {
        assert(t[s.len() as int].from == from && t[s.len() as int].to == to);
    }
    if occurs(t, from, to) {
        let i = choose|i: int| 0 <= i < t.len() && (#[trigger] t[i]).from == from && t[i].to == to;
        if i < s.len() {
            assert(s[i].from == from && s[i].to == to);
        }
    }
}

/// The pairs of two lists together are those of either.
pub proof fn lemma_occurs_concat(a: Seq<Fact>, b: Seq<Fact>, from: u32, to: u32)
    ensures
        occurs(a + b, from, to) <==> occurs(a, from, to) || occurs(b, from, to),
{
    let t = a + b;
    if occurs(a, from, to) {
        let i = choose|i: int| 0 <= i < a.len() && (#[trigger] a[i]).from == from && a[i].to == to;
        assert(t[i].from == from && t[i].to == to);
    }
    if occurs(b, from, to) {
        let i = choose|i: int| 0 <= i < b.len() && (#[trigger] b[i]).from == from && b[i].to == to;
        assert(t[a.len() + i].from == from && t[a.len() + i].to == to);
    }
    if occurs(t, from, to) {
        let i = choose|i: int| 0 <= i < t.len() && (#[trigger] t[i]).from == from && t[i].to == to;
        if i < a.len() {
            assert(a[i].from == from && a[i].to == to);
        } else {
            assert(b[i - a.len()].from == from && b[i - a.len()].to == to);
        }
    }
}

/// A canonical list stays canonical when a pair that it lacks is added with
/// weight one.
pub proof fn lemma_is_set_push(s: Seq<Fact>, f: Fact)
    requires
        is_set(s),
        !occurs(s, f.from, f.to),
        f.weight == 1,
    ensures
        is_set(s.push(f)),
{
    let t = s.push(f);
    assert forall|i: int| 0 <= i < t.len() implies (#[trigger] t[i]).weight == 1 by {
        if i < s.len() {
            assert(t[i] == s[i]);
        }
    }
    assert forall|i: int, j: int| 0 <= i < j < t.len() implies !((#[trigger] t[i]).from == (
    #[trigger] t[j]).from && t[i].to == t[j].to) by {
        assert(t[i] == s[i]);
        if j < s.len() {
            assert(t[j] == s[j]);
        } else {
            assert(t[j] == f);
            if s[i].from == f.from && s[i].to == f.to {
                assert(occurs(s, f.from, f.to));
            }
        }
    }
}

/// Appends the entries of `src` to `out`, in order.
pub(crate) fn append(out: &mut Vec<Fact>, src: &Vec<Fact>)
    ensures
        final(out)@ == old(out)@ + src@,
{
    let ghost start = out@;
    let mut i: usize = 0;
    while i < src.len()
        invariant
            0 <= i <= src.len(),
            out@ == start + src@.take(i as int),
        decreases src.len() - i,
    {
        out.push(src[i]);
        proof {
            assert(src@.take(i + 1) =~= src@.take(i as int).push(src@[i as int]));
            assert(out@ =~= start + src@.take(i + 1));
        }
        i = i + 1;
    }
    proof {
        assert(src@.take(src.len() as int) =~= src@);
    }
}

/// Appends to `out`, with weight one, each pair of `source` that `out`
/// lacks and whose net weight in `plus` exceeds its net weight in `minus`.
fn absorb(out: &mut Vec<Fact>, source: &Vec<Fact>, plus: &Vec<Fact>, minus: &Vec<Fact>)
    requires
        is_set(old(out)@),
    ensures
        is_set(final(out)@),
        forall|a: u32, b: u32|
            #![trigger occurs(final(out)@, a, b)]
            occurs(final(out)@, a, b) <==> occurs(old(out)@, a, b) || (occurs(source@, a, b)
                && net(plus@, a, b) > net(minus@, a, b)),
{
    let ghost start = out@;
    let mut i: usize = 0;
    while i < source.len()
        invariant
            0 <= i <= source.len(),
            is_set(out@),
            forall|a: u32, b: u32|
                #![trigger occurs(out@, a, b)]
                occurs(out@, a, b) <==> occurs(start, a, b) || (occurs(
                    source@.take(i as int),
                    a,
                    b,
                ) && net(plus@, a, b) > net(minus@, a, b)),
        decreases source.len() - i,
    {
        let f = source[i];
        let ghost before = out@;
        let ghost added = Fact { from: f.from, to: f.to, weight: 1 };
        let mut grown = false;
        if !has_pair(out, f.from, f.to) {
            let p = net_weight(plus, f.from, f.to);
            let m = net_weight(minus, f.from, f.to);
            if p > m {
                out.push(Fact { from: f.from, to: f.to, weight: 1 });
                grown = true;
                proof {
                    lemma_is_set_push(before, added);
                }
            }
        }
        proof {
            assert(source@.take(i + 1) =~= source@.take(i as int).push(f));
            assert forall|a: u32, b: u32| #![trigger occurs(out@, a, b)]
                occurs(out@, a, b) <==> occurs(start, a, b) || (occurs(
                    source@.take(i + 1),
                    a,
                    b,
                ) && net(plus@, a, b) > net(minus@, a, b)) by {
                lemma_occurs_push(source@.take(i as int), f, a, b);
                lemma_occurs_push(before, added, a, b);
                assert(occurs(before, a, b) <==> occurs(start, a, b) || (occurs(
                    source@.take(i as int),
                    a,
                    b,
                ) && net(plus@, a, b) > net(minus@, a, b)));
                if grown {
                    assert(out@ == before.push(added));
                } else {
                    assert(out@ == before);
                }
            }
        }
        i = i + 1;
    }
    proof {
        assert(source@.take(source.len() as int) =~= source@);
    }
}

/// A finite collection of weighted facts. The multiplicity of a pair is the
/// sum of the weights of its entries.
#[derive(Debug)]
pub struct Relation {
    pub facts: Vec<Fact>,
}

impl Relation {
    /// The multiplicity of the pair `(from, to)`.
    pub open spec fn weight_of(&self, from: u32, to: u32) -> int {
        net(self.facts@, from, to)
    }

    /// The pairs of strictly positive multiplicity.
    pub open spec fn members(&self) -> Set<(u32, u32)> {
        Set::new(|p: (u32, u32)| net(self.facts@, p.0, p.1) > 0)
    }

    /// The relation is in canonical form: one entry of weight one per member.
    pub open spec fn is_distinct(&self) -> bool {
        is_set(self.facts@)
    }

    /// The empty relation, the identity of union.
    pub fn new() -> (r: Relation)
        ensures
            r.facts@ == Seq::<Fact>::empty(),
            r.is_distinct(),
            forall|a: u32, b: u32| r.weight_of(a, b) == 0,
            r.members() == Set::<(u32, u32)>::empty(),
    {
        let r = Relation { facts: Vec::new() };
        proof {
            assert(r.members() =~= Set::<(u32, u32)>::empty());
        }
        r
    }

    /// Adds `weight` occurrences of the pair `(from, to)`.
    pub fn insert(&mut self, from: u32, to: u32, weight: i64)
        ensures
            final(self).facts@ == old(self).facts@.push(Fact { from, to, weight }),
            forall|a: u32, b: u32|
                final(self).weight_of(a, b) == old(self).weight_of(a, b) + (if a == from && b
                    == to {
                    weight as int
                } else {
                    0
                }),
    {
        let ghost before = self.facts@;
        self.facts.push(Fact { from, to, weight });
        proof {
            assert forall|a: u32, b: u32|
                net(self.facts@, a, b) == net(before, a, b) + (if a == from && b == to {
                    weight as int
                } else {
                    0
                }) by {
                lemma_net_push(before, Fact { from, to, weight }, a, b);
            }
        }
    }

    /// A relation with one entry of weight one for each pair of `edges`, in
    /// order.
    pub fn from_pairs(edges: &Vec<(u32, u32)>) -> (r: Relation)
        ensures
            r.facts@.len() == edges@.len(),
            forall|i: int|
                0 <= i < edges@.len() ==> (#[trigger] r.facts@[i]) == (Fact {
                    from: edges@[i].0,
                    to: edges@[i].1,
                    weight: 1,
                }),
            unit_weights(r.facts@),
            r.members() == edge_set(edges@),
    {
        let mut facts: Vec<Fact> = Vec::new();
        let mut i: usize = 0;
        while i < edges.len()
            invariant
                0 <= i <= edges.len(),
                facts@.len() == i,
                forall|j: int|
                    0 <= j < i ==> (#[trigger] facts@[j]) == (Fact {
                        from: edges@[j].0,
                        to: edges@[j].1,
                        weight: 1,
                    }),
            decreases edges.len() - i,
        {
            let e = edges[i];
            facts.push(Fact { from: e.0, to: e.1, weight: 1 });
            i = i + 1;
        }
        let r = Relation { facts };
        proof {
            assert forall|p: (u32, u32)| r.members().contains(p) == edges@.contains(p) by {
                lemma_net_of_positive(r.facts@, p.0, p.1);
                if occurs(r.facts@, p.0, p.1) {
                    let i = choose|i: int|
                        0 <= i < r.facts@.len() && (#[trigger] r.facts@[i]).from == p.0
                            && r.facts@[i].to == p.1;
                    assert(edges@[i] == p);
                }
                if edges@.contains(p) {
                    let i = choose|i: int| 0 <= i < edges@.len() && edges@[i] == p;
                    assert(r.facts@[i].from == p.0 && r.facts@[i].to == p.1);
                }
            }
            assert(r.members() =~= edge_set(edges@));
        }
        r
    }

    /// The pairs of the entries, in order, without their weights.
    pub fn to_pairs(&self) -> (out: Vec<(u32, u32)>)
        ensures
            out@.len() == self.facts@.len(),
            forall|i: int|
                0 <= i < out@.len() ==> (#[trigger] out@[i]) == (self.facts@[i].from, self.facts@[i].to),
    {
        let mut out: Vec<(u32, u32)> = Vec::new();
        let mut i: usize = 0;
        while i < self.facts.len()
            invariant
                0 <= i <= self.facts.len(),
                out@.len() == i,
                forall|j: int|
                    0 <= j < i ==> (#[trigger] out@[j]) == (self.facts@[j].from, self.facts@[j].to),
            decreases self.facts.len() - i,
        {
            out.push((self.facts[i].from, self.facts[i].to));
            i = i + 1;
        }
        out
    }

    /// A relation with the same entries.
    pub fn copy(&self) -> (r: Relation)
        ensures
            r.facts@ == self.facts@,
    {
        let mut facts: Vec<Fact> = Vec::new();
        append(&mut facts, &self.facts);
        proof {
            assert(facts@ =~= self.facts@);
        }
        Relation { facts }
    }

    /// The number of entries held, duplicates included.
    pub fn len(&self) -> (n: usize)
        ensures
            n == self.facts@.len(),
    {
        self.facts.len()
    }

    /// Whether the relation holds no entry at all.
    pub fn is_empty(&self) -> (e: bool)
        ensures
            e == (self.facts@.len() == 0),
    {
        self.facts.len() == 0
    }

    /// The multiplicity of the pair `(from, to)`.
    pub fn weight(&self, from: u32, to: u32) -> (w: i128)
        ensures
            w == self.weight_of(from, to),
    {
        net_weight(&self.facts, from, to)
    }

    /// Whether the pair `(from, to)` has strictly positive multiplicity.
    pub fn contains(&self, from: u32, to: u32) -> (found: bool)
        ensures
            found == self.members().contains((from, to)),
    {
        net_weight(&self.facts, from, to) > 0
    }

    /// The union of two relations: multiplicities add up, pair by pair.
    pub fn union(&self, other: &Relation) -> (r: Relation)
        ensures
            r.facts@ == self.facts@ + other.facts@,
            forall|a: u32, b: u32|
                r.weight_of(a, b) == self.weight_of(a, b) + other.weight_of(a, b),
            pairs(r.facts@) == pairs(self.facts@).union(pairs(other.facts@)),
    {
        let mut facts: Vec<Fact> = Vec::new();
        append(&mut facts, &self.facts);
        append(&mut facts, &other.facts);
        proof {
            assert(facts@ =~= self.facts@ + other.facts@);
            assert forall|a: u32, b: u32|
                net(facts@, a, b) == net(self.facts@, a, b) + net(other.facts@, a, b) by {
                lemma_net_concat(self.facts@, other.facts@, a, b);
            }
            assert forall|p: (u32, u32)|
                pairs(facts@).contains(p) == pairs(self.facts@).union(
                    pairs(other.facts@),
                ).contains(p) by {
                lemma_occurs_concat(self.facts@, other.facts@, p.0, p.1);
            }
            assert(pairs(facts@) =~= pairs(self.facts@).union(pairs(other.facts@)));
        }
        Relation { facts }
    }

    /// Collapses multiplicities: a pair of strictly positive multiplicity is
    /// kept with weight one, every other pair is dropped.
    pub fn distinct(&self) -> (r: Relation)
        ensures
            r.is_distinct(),
            forall|a: u32, b: u32| r.weight_of(a, b) == collapse(self.weight_of(a, b)),
            r.members() == self.members(),
            pairs(r.facts@) == self.members(),
    {
        let mut facts: Vec<Fact> = Vec::new();
        let none: Vec<Fact> = Vec::new();
        absorb(&mut facts, &self.facts, &self.facts, &none);
        let r = Relation { facts };
        proof {
            assert forall|a: u32, b: u32|
                net(r.facts@, a, b) == collapse(net(self.facts@, a, b)) && (occurs(
                    r.facts@,
                    a,
                    b,
                ) <==> net(self.facts@, a, b) > 0) by {
                lemma_net_of_set(r.facts@, a, b);
                if net(self.facts@, a, b) > 0 {
                    lemma_net_nonzero_occurs(self.facts@, a, b);
                }
                assert(occurs(r.facts@, a, b) <==> occurs(Seq::<Fact>::empty(), a, b) || (
                occurs(self.facts@, a, b) && net(self.facts@, a, b) > net(none@, a, b)));
            }
            assert(r.members() =~= self.members());
            assert(pairs(r.facts@) =~= self.members());
        }
        r
    }

    /// The change from `prev` to `self`, in canonical form: the pairs whose
    /// multiplicity in `self` exceeds their multiplicity in `prev`.
    pub fn delta_from(&self, prev: &Relation) -> (r: Relation)
        ensures
            r.is_distinct(),
            forall|a: u32, b: u32|
                r.weight_of(a, b) == collapse(self.weight_of(a, b) - prev.weight_of(a, b)),
            pairs(r.facts@) == Set::new(
                |p: (u32, u32)| self.weight_of(p.0, p.1) > prev.weight_of(p.0, p.1),
            ),
    {
        let mut facts: Vec<Fact> = Vec::new();
        absorb(&mut facts, &self.facts, &self.facts, &prev.facts);
        let ghost mid = facts@;
        absorb(&mut facts, &prev.facts, &self.facts, &prev.facts);
        let r = Relation { facts };
        proof {
            assert forall|a: u32, b: u32|
                net(r.facts@, a, b) == collapse(net(self.facts@, a, b) - net(prev.facts@, a, b))
                    && (occurs(r.facts@, a, b) <==> net(self.facts@, a, b) > net(
                    prev.facts@,
                    a,
                    b,
                )) by {
                lemma_net_of_set(r.facts@, a, b);
                if net(self.facts@, a, b) != 0 {
                    lemma_net_nonzero_occurs(self.facts@, a, b);
                }
                if net(prev.facts@, a, b) != 0 {
                    lemma_net_nonzero_occurs(prev.facts@, a, b);
                }
                assert(occurs(mid, a, b) <==> occurs(Seq::<Fact>::empty(), a, b) || (occurs(
                    self.facts@,
                    a,
                    b,
                ) && net(self.facts@, a, b) > net(prev.facts@, a, b)));
                assert(occurs(r.facts@, a, b) <==> occurs(mid, a, b) || (occurs(
                    prev.facts@,
                    a,
                    b,
                ) && net(self.facts@, a, b) > net(prev.facts@, a, b)));
            }
            assert(pairs(r.facts@) =~= Set::new(
                |p: (u32, u32)| self.weight_of(p.0, p.1) > prev.weight_of(p.0, p.1),
            ));
        }
        r
    }
}

/// Union is commutative and associative, and the empty relation is its
/// identity: the order and the grouping of the operands change no
/// multiplicity.
pub proof fn lemma_union_laws(a: Seq<Fact>, b: Seq<Fact>, c: Seq<Fact>, from: u32, to: u32)
    ensures
        net(a + b, from, to) == net(b + a, from, to),
        net((a + b) + c, from, to) == net(a + (b + c), from, to),
        net(a + Seq::<Fact>::empty(), from, to) == net(a, from, to),
        net(Seq::<Fact>::empty() + a, from, to) == net(a, from, to),
{
    lemma_net_concat(a, b, from, to);
    lemma_net_concat(b, a, from, to);
    lemma_net_concat(a + b, c, from, to);
    lemma_net_concat(b, c, from, to);
    lemma_net_concat(a, b + c, from, to);
    lemma_net_concat(a, Seq::<Fact>::empty(), from, to);
    lemma_net_concat(Seq::<Fact>::empty(), a, from, to);
}

/// Distinct is idempotent: a second application to the result of a first
/// changes no multiplicity.
pub proof fn lemma_distinct_idempotent(r: Relation, once: Relation, twice: Relation)
    requires
        forall|a: u32, b: u32| once.weight_of(a, b) == collapse(r.weight_of(a, b)),
        forall|a: u32, b: u32| twice.weight_of(a, b) == collapse(once.weight_of(a, b)),
    ensures
        forall|a: u32, b: u32| twice.weight_of(a, b) == once.weight_of(a, b),
        twice.members() == once.members(),
{
    assert forall|p: (u32, u32)| twice.members().contains(p) == once.members().contains(p) by {
        assert(twice.weight_of(p.0, p.1) == collapse(once.weight_of(p.0, p.1)));
        assert(once.weight_of(p.0, p.1) == collapse(r.weight_of(p.0, p.1)));
    }
    assert(twice.members() =~= once.members());
}

/// The pairs of positive multiplicity in the union of a canonical relation
/// with one of positive weights are the pairs of either.
pub proof fn lemma_union_members(acc: Relation, joined: Relation, both: Relation)
    requires
        acc.is_distinct(),
        unit_weights(joined.facts@),
        forall|a: u32, b: u32| both.weight_of(a, b) == acc.weight_of(a, b) + joined.weight_of(a, b),
    ensures
        both.members() == pairs(acc.facts@).union(pairs(joined.facts@)),
{
    assert forall|p: (u32, u32)| both.members().contains(p) == pairs(acc.facts@).union(
        pairs(joined.facts@),
    ).contains(p) by {
        assert(both.weight_of(p.0, p.1) == acc.weight_of(p.0, p.1) + joined.weight_of(p.0, p.1));
        lemma_net_of_set(acc.facts@, p.0, p.1);
        lemma_net_of_positive(joined.facts@, p.0, p.1);
    }
    assert(both.members() =~= pairs(acc.facts@).union(pairs(joined.facts@)));
}

/// The delta of a canonical relation from another holds the pairs that
/// the first has and the second lacks.
pub proof fn lemma_delta_pairs(next: Relation, prev: Relation)
    requires
        next.is_distinct(),
        prev.is_distinct(),
    ensures
        Set::new(|p: (u32, u32)| next.weight_of(p.0, p.1) > prev.weight_of(p.0, p.1)) == pairs(
            next.facts@,
        ).difference(pairs(prev.facts@)),
{
    let d = Set::new(|p: (u32, u32)| next.weight_of(p.0, p.1) > prev.weight_of(p.0, p.1));
    assert forall|p: (u32, u32)| d.contains(p) == pairs(next.facts@).difference(
        pairs(prev.facts@),
    ).contains(p) by {
        lemma_net_of_set(next.facts@, p.0, p.1);
        lemma_net_of_set(prev.facts@, p.0, p.1);
    }
    assert(d =~= pairs(next.facts@).difference(pairs(prev.facts@)));
}

/// A relation without entries has no pairs, and one with an entry has one.
pub proof fn lemma_pairs_empty(r: Relation)
    ensures
        r.facts@.len() == 0 <==> pairs(r.facts@) == Set::<(u32, u32)>::empty(),
{
    if r.facts@.len() == 0 {
        assert(pairs(r.facts@) =~= Set::<(u32, u32)>::empty());
    } else {
        let f = r.facts@[0];
        assert(occurs(r.facts@, f.from, f.to));
        assert(pairs(r.facts@).contains((f.from, f.to)));
    }
}

} // verus!
