//! The mathematical model of the closure: sets of pairs, relational
//! composition, and the rounds of the two recursive definitions.

use vstd::prelude::*;

verus! {

/// A set of pairs of node identifiers.
pub type Pairs = Set<(u32, u32)>;

/// `y` links `p.0` to `p.1`: first a step in `a`, then a step in `b`.
pub open spec fn linked(a: Pairs, b: Pairs, p: (u32, u32), y: u32) -> bool {
    a.contains((p.0, y)) && b.contains((y, p.1))
}

/// Relational composition: the pairs `(x, z)` with `(x, y)` in `a` and
/// `(y, z)` in `b` for some `y`.
pub open spec fn compose(a: Pairs, b: Pairs) -> Pairs {
    Set::new(|p: (u32, u32)| exists|y: u32| linked(a, b, p, y))
}

/// The pairs joined by a walk of at least one and at most `n` edges, by
/// the rule that extends a known path with an edge at its end.
pub open spec fn within(e: Pairs, n: nat) -> Pairs
    decreases n,
{
    if n == 0 {
        Set::empty()
    } else {
        e.union(compose(within(e, (n - 1) as nat), e))
    }
}

/// The same pairs by the rule that puts an edge in front of a known path.
pub open spec fn within_front(e: Pairs, n: nat) -> Pairs
    decreases n,
{
    if n == 0 {
        Set::empty()
    } else {
        e.union(compose(e, within_front(e, (n - 1) as nat)))
    }
}

/// The transitive closure of `e`: the pairs joined by a walk of any
/// positive length.
pub open spec fn closure(e: Pairs) -> Pairs {
    Set::new(|p: (u32, u32)| exists|n: nat| within(e, n).contains(p))
}

/// The closure by the rule that puts an edge in front.
pub open spec fn closure_front(e: Pairs) -> Pairs {
    Set::new(|p: (u32, u32)| exists|n: nat| within_front(e, n).contains(p))
}

/// Walks of up to `n + 1` edges reach nothing that walks of up to `n`
/// edges do not.
pub open spec fn stable_at(e: Pairs, n: nat) -> bool {
    within(e, n + 1) == within(e, n)
}

/// `d` is the diameter of `e`, the length of the longest shortest walk:
/// every pair of the closure is joined by a walk of at most `d` edges, and,
/// unless there is no edge at all, some pair by none of fewer than `d`.
pub open spec fn is_diameter(e: Pairs, d: nat) -> bool {
    &&& closure(e) == within(e, d)
    &&& d > 0 ==> exists|p: (u32, u32)|
        #[trigger] within(e, d).contains(p) && !within(e, (d - 1) as nat).contains(p)
}

/// Composition distributes over a union on its left.
pub proof fn lemma_compose_union_left(a: Pairs, b: Pairs, c: Pairs)
    ensures
        compose(a.union(b), c) == compose(a, c).union(compose(b, c)),
{
    let l = compose(a.union(b), c);
    let r = compose(a, c).union(compose(b, c));
    assert forall|p: (u32, u32)| l.contains(p) == r.contains(p) by {
        if l.contains(p) {
            let y = choose|y: u32| linked(a.union(b), c, p, y);
            assert(linked(a, c, p, y) || linked(b, c, p, y));
        }
        if compose(a, c).contains(p) {
            let y = choose|y: u32| linked(a, c, p, y);
            assert(linked(a.union(b), c, p, y));
        }
        if compose(b, c).contains(p) {
            let y = choose|y: u32| linked(b, c, p, y);
            assert(linked(a.union(b), c, p, y));
        }
    }
    assert(l =~= r);
}

/// Composition distributes over a union on its right.
pub proof fn lemma_compose_union_right(a: Pairs, b: Pairs, c: Pairs)
    ensures
        compose(a, b.union(c)) == compose(a, b).union(compose(a, c)),
{
    let l = compose(a, b.union(c));
    let r = compose(a, b).union(compose(a, c));
    assert forall|p: (u32, u32)| l.contains(p) == r.contains(p) by {
        if l.contains(p) {
            let y = choose|y: u32| linked(a, b.union(c), p, y);
            assert(linked(a, b, p, y) || linked(a, c, p, y));
        }
        if compose(a, b).contains(p) {
            let y = choose|y: u32| linked(a, b, p, y);
            assert(linked(a, b.union(c), p, y));
        }
        if compose(a, c).contains(p) {
            let y = choose|y: u32| linked(a, c, p, y);
            assert(linked(a, b.union(c), p, y));
        }
    }
    assert(l =~= r);
}

/// Composition is associative.
pub proof fn lemma_compose_assoc(a: Pairs, b: Pairs, c: Pairs)
    ensures
        compose(compose(a, b), c) == compose(a, compose(b, c)),
{
    let l = compose(compose(a, b), c);
    let r = compose(a, compose(b, c));
    assert forall|p: (u32, u32)| l.contains(p) == r.contains(p) by {
        if l.contains(p) {
            let z = choose|z: u32| linked(compose(a, b), c, p, z);
            let y = choose|y: u32| linked(a, b, (p.0, z), y);
            assert(linked(b, c, (y, p.1), z));
            assert(compose(b, c).contains((y, p.1)));
            assert(linked(a, compose(b, c), p, y));
        }
        if r.contains(p) {
            let y = choose|y: u32| linked(a, compose(b, c), p, y);
            let z = choose|z: u32| linked(b, c, (y, p.1), z);
            assert(linked(a, b, (p.0, z), y));
            assert(compose(a, b).contains((p.0, z)));
            assert(linked(compose(a, b), c, p, z));
        }
    }
    assert(l =~= r);
}

/// Composition with more on the left gives more.
pub proof fn lemma_compose_monotone(a: Pairs, b: Pairs, c: Pairs)
    requires
        a.subset_of(b),
    ensures
        compose(a, c).subset_of(compose(b, c)),
{
    assert forall|p: (u32, u32)| compose(a, c).contains(p) implies compose(b, c).contains(p) by {
        let y = choose|y: u32| linked(a, c, p, y);
        assert(linked(b, c, p, y));
    }
}

/// Composition with the empty set is empty.
pub proof fn lemma_compose_empty(c: Pairs)
    ensures
        compose(Set::empty(), c) == Set::<(u32, u32)>::empty(),
        compose(c, Set::empty()) == Set::<(u32, u32)>::empty(),
{
    let none = Set::<(u32, u32)>::empty();
    assert forall|p: (u32, u32)| !compose(none, c).contains(p) && !compose(c, none).contains(
        p,
    ) by {
        if compose(none, c).contains(p) {
            let y = choose|y: u32| linked(none, c, p, y);
        }
        if compose(c, none).contains(p) {
            let y = choose|y: u32| linked(c, none, p, y);
        }
    }
    assert(compose(none, c) =~= none);
    assert(compose(c, none) =~= none);
}

/// A longer bound on the walks reaches at least as much.
pub proof fn lemma_within_grows(e: Pairs, m: nat, n: nat)
    requires
        m <= n,
    ensures
        within(e, m).subset_of(within(e, n)),
    decreases n,
{
    if m == 0 || m == n {
    } else {
        lemma_within_grows(e, (m - 1) as nat, (n - 1) as nat);
        lemma_compose_monotone(within(e, (m - 1) as nat), within(e, (n - 1) as nat), e);
    }
}

/// Once a round adds nothing, no later round does.
pub proof fn lemma_stable_stays(e: Pairs, n: nat, k: nat)
    requires
        stable_at(e, n),
        n <= k,
    ensures
        within(e, k) == within(e, n),
    decreases k,
{
    if k > n {
        lemma_stable_stays(e, n, (k - 1) as nat);
    }
}

/// At a stable round the bounded walks are the whole closure.
pub proof fn lemma_stable_is_closure(e: Pairs, n: nat)
    requires
        stable_at(e, n),
    ensures
        closure(e) == within(e, n),
{
    assert forall|p: (u32, u32)| closure(e).contains(p) implies within(e, n).contains(p) by {
        let k = choose|k: nat| within(e, k).contains(p);
        if k <= n {
            lemma_within_grows(e, k, n);
        } else {
            lemma_stable_stays(e, n, k);
        }
    }
    assert(closure(e) =~= within(e, n));
}

/// The `i`-th step of the node sequence `w` is an edge of `e`.
pub open spec fn is_step(e: Pairs, w: Seq<u32>, i: int) -> bool {
    e.contains((w[i], w[i + 1]))
}

/// `w` is a walk in `e`: a sequence of at least two nodes, each joined to
/// the next by an edge.
pub open spec fn is_walk(e: Pairs, w: Seq<u32>) -> bool {
    w.len() >= 2 && forall|i: int| 0 <= i < w.len() - 1 ==> #[trigger] is_step(e, w, i)
}

/// Some walk of at most `n` edges leads from `p.0` to `p.1`.
pub open spec fn joined_within(e: Pairs, p: (u32, u32), n: nat) -> bool {
    exists|w: Seq<u32>|
        #[trigger] is_walk(e, w) && w.len() - 1 <= n && w[0] == p.0 && w[w.len() - 1] == p.1
}

/// The rounds hold what their name says: `within(e, n)` has a pair exactly
/// where a walk of at most `n` edges joins it.
pub proof fn lemma_within_is_walks(e: Pairs, n: nat, p: (u32, u32))
    ensures
        within(e, n).contains(p) <==> joined_within(e, p, n),
    decreases n,
{
    if n == 0 {
        assert(!within(e, 0).contains(p));
    } else {
        let less = within(e, (n - 1) as nat);
        if within(e, n).contains(p) {
            if e.contains(p) {
                let w = seq![p.0, p.1];
                assert forall|i: int| 0 <= i < w.len() - 1 implies #[trigger] is_step(
                    e,
                    w,
                    i,
                ) by {
                    assert(w[0] == p.0 && w[1] == p.1);
                }
                assert(is_walk(e, w) && w.len() - 1 <= n && w[0] == p.0 && w[w.len() - 1] == p.1);
            } else {
                let y = choose|y: u32| linked(less, e, p, y);
                lemma_within_is_walks(e, (n - 1) as nat, (p.0, y));
                let v = choose|v: Seq<u32>|
                    #[trigger] is_walk(e, v) && v.len() - 1 <= n - 1 && v[0] == p.0 && v[v.len()
                        - 1] == y;
                let w = v.push(p.1);
                assert forall|i: int| 0 <= i < w.len() - 1 implies #[trigger] is_step(
                    e,
                    w,
                    i,
                ) by {
                    if i < v.len() - 1 {
                        assert(is_step(e, v, i));
                        assert(w[i] == v[i] && w[i + 1] == v[i + 1]);
                    } else {
                        assert(w[i] == y && w[i + 1] == p.1);
                    }
                }
                assert(is_walk(e, w) && w.len() - 1 <= n && w[0] == p.0 && w[w.len() - 1] == p.1);
            }
        }
        if joined_within(e, p, n) {
            let w = choose|w: Seq<u32>|
                #[trigger] is_walk(e, w) && w.len() - 1 <= n && w[0] == p.0 && w[w.len() - 1]
                    == p.1;
            if w.len() == 2 {
                assert(is_step(e, w, 0));
            } else {
                let v = w.drop_last();
                let y = w[w.len() - 2];
                assert forall|i: int| 0 <= i < v.len() - 1 implies #[trigger] is_step(
                    e,
                    v,
                    i,
                ) by {
                    assert(is_step(e, w, i));
                    assert(v[i] == w[i] && v[i + 1] == w[i + 1]);
                }
                assert(is_walk(e, v) && v.len() - 1 <= n - 1 && v[0] == p.0 && v[v.len() - 1]
                    == y);
                lemma_within_is_walks(e, (n - 1) as nat, (p.0, y));
                assert(is_step(e, w, w.len() - 2));
                assert(linked(less, e, p, y));
            }
        }
    }
}

/// A walk of at most `m` edges followed by one of at most `n` edges is a
/// walk of at most `m + n` edges.
pub proof fn lemma_within_joins(e: Pairs, m: nat, n: nat)
    ensures
        compose(within(e, m), within(e, n)).subset_of(within(e, m + n)),
    decreases n,
{
    if n == 0 {
        lemma_compose_empty(within(e, m));
    } else {
        let wm = within(e, m);
        let wn = within(e, (n - 1) as nat);
        lemma_within_joins(e, m, (n - 1) as nat);
        lemma_compose_union_right(wm, e, compose(wn, e));
        lemma_compose_assoc(wm, wn, e);
        lemma_compose_monotone(compose(wm, wn), within(e, (m + n - 1) as nat), e);
        lemma_within_grows(e, m + 1, m + n);
    }
}

/// The closure holds every edge.
pub proof fn lemma_closure_holds_edges(e: Pairs)
    ensures
        e.subset_of(closure(e)),
{
    assert forall|p: (u32, u32)| e.contains(p) implies closure(e).contains(p) by {
        assert(within(e, 1).contains(p));
    }
}

/// The closure is transitive.
pub proof fn lemma_closure_transitive(e: Pairs)
    ensures
        compose(closure(e), closure(e)).subset_of(closure(e)),
{
    assert forall|p: (u32, u32)| compose(closure(e), closure(e)).contains(p) implies closure(
        e,
    ).contains(p) by {
        let y = choose|y: u32| linked(closure(e), closure(e), p, y);
        let m = choose|m: nat| within(e, m).contains((p.0, y));
        let n = choose|n: nat| within(e, n).contains((y, p.1));
        assert(linked(within(e, m), within(e, n), p, y));
        lemma_within_joins(e, m, n);
        assert(within(e, m + n).contains(p));
    }
}

/// Every transitive relation that holds the edges holds the bounded walks.
pub proof fn lemma_within_below(e: Pairs, t: Pairs, n: nat)
    requires
        e.subset_of(t),
        compose(t, t).subset_of(t),
    ensures
        within(e, n).subset_of(t),
    decreases n,
{
    if n > 0 {
        let w = within(e, (n - 1) as nat);
        lemma_within_below(e, t, (n - 1) as nat);
        assert forall|p: (u32, u32)| compose(w, e).contains(p) implies t.contains(p) by {
            let y = choose|y: u32| linked(w, e, p, y);
            assert(linked(t, t, p, y));
            assert(compose(t, t).contains(p));
        }
    }
}

/// The closure is the least transitive relation that holds the edges.
pub proof fn lemma_closure_least(e: Pairs, t: Pairs)
    requires
        e.subset_of(t),
        compose(t, t).subset_of(t),
    ensures
        closure(e).subset_of(t),
{
    assert forall|p: (u32, u32)| closure(e).contains(p) implies t.contains(p) by {
        let n = choose|n: nat| within(e, n).contains(p);
        lemma_within_below(e, t, n);
    }
}

/// The first round that adds nothing is the diameter.
pub proof fn lemma_first_stable_is_diameter(e: Pairs, d: nat)
    requires
        stable_at(e, d),
        forall|m: nat| m < d ==> !#[trigger] stable_at(e, m),
    ensures
        is_diameter(e, d),
{
    lemma_stable_is_closure(e, d);
    if d > 0 {
        let less = within(e, (d - 1) as nat);
        assert(!stable_at(e, (d - 1) as nat));
        lemma_within_grows(e, (d - 1) as nat, d);
        if forall|p: (u32, u32)| within(e, d).contains(p) ==> less.contains(p) {
            assert(within(e, d) =~= less);
        }
    }
}

/// A graph has one diameter.
pub proof fn lemma_diameter_unique(e: Pairs, a: nat, b: nat)
    requires
        is_diameter(e, a),
        is_diameter(e, b),
    ensures
        a == b,
{
    if a < b {
        let p = choose|p: (u32, u32)|
            #[trigger] within(e, b).contains(p) && !within(e, (b - 1) as nat).contains(p);
        assert(closure(e).contains(p));
        lemma_within_grows(e, a, (b - 1) as nat);
    }
    if b < a {
        let p = choose|p: (u32, u32)|
            #[trigger] within(e, a).contains(p) && !within(e, (a - 1) as nat).contains(p);
        assert(closure(e).contains(p));
        lemma_within_grows(e, b, (a - 1) as nat);
    }
}

/// The step of the incremental evaluation: joining only what the last
/// round added gives the same next round as joining everything known.
pub proof fn lemma_delta_step(e: Pairs, n: nat)
    requires
        n >= 1,
    ensures
        within(e, n + 1) == within(e, n).union(
            compose(within(e, n).difference(within(e, (n - 1) as nat)), e),
        ),
{
    let prev = within(e, (n - 1) as nat);
    let cur = within(e, n);
    let delta = cur.difference(prev);
    lemma_within_grows(e, (n - 1) as nat, n);
    assert(cur =~= prev.union(delta));
    lemma_compose_union_left(prev, delta, e);
    assert(within(e, n + 1) =~= cur.union(compose(delta, e)));
}

/// An edge in front of a bounded walk is a bounded walk with an edge at
/// its end.
pub proof fn lemma_within_commutes(e: Pairs, n: nat)
    ensures
        compose(e, within(e, n)) == compose(within(e, n), e),
    decreases n,
{
    if n == 0 {
        lemma_compose_empty(e);
    } else {
        let w = within(e, (n - 1) as nat);
        lemma_within_commutes(e, (n - 1) as nat);
        lemma_compose_union_right(e, e, compose(w, e));
        lemma_compose_assoc(e, w, e);
        lemma_compose_union_left(e, compose(w, e), e);
    }
}

/// Both recursive rules give the same rounds.
pub proof fn lemma_rules_agree(e: Pairs, n: nat)
    ensures
        within_front(e, n) == within(e, n),
    decreases n,
{
    if n > 0 {
        lemma_rules_agree(e, (n - 1) as nat);
        lemma_within_commutes(e, (n - 1) as nat);
    }
}

/// The step of the rule evaluation: an edge in front of what the last
/// round added gives the same next round as an edge in front of everything
/// known.
pub proof fn lemma_delta_step_front(e: Pairs, n: nat)
    requires
        n >= 1,
    ensures
        within_front(e, n + 1) == within_front(e, n).union(
            compose(e, within_front(e, n).difference(within_front(e, (n - 1) as nat))),
        ),
{
    let prev = within_front(e, (n - 1) as nat);
    let cur = within_front(e, n);
    let delta = cur.difference(prev);
    lemma_rules_agree(e, (n - 1) as nat);
    lemma_rules_agree(e, n);
    lemma_within_grows(e, (n - 1) as nat, n);
    assert(cur =~= prev.union(delta));
    lemma_compose_union_right(e, prev, delta);
    assert(within_front(e, n + 1) =~= cur.union(compose(e, delta)));
}

/// Both recursive rules give the same closure.
pub proof fn lemma_closures_agree(e: Pairs)
    ensures
        closure_front(e) == closure(e),
{
    assert forall|p: (u32, u32)| closure_front(e).contains(p) == closure(e).contains(p) by {
        if closure_front(e).contains(p) {
            let n = choose|n: nat| within_front(e, n).contains(p);
            lemma_rules_agree(e, n);
        }
        if closure(e).contains(p) {
            let n = choose|n: nat| within(e, n).contains(p);
            lemma_rules_agree(e, n);
        }
    }
    assert(closure_front(e) =~= closure(e));
}

} // verus!
