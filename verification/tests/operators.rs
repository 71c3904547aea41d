use transitive_closure::index::{find_bucket, Column, Entry, Index};
use transitive_closure::join::join;
use transitive_closure::relation::{has_pair, net_weight, Fact, Relation};
use transitive_closure::shard::{
    gather, gather_count, partition, sharded_join, sharded_merge, Blocks, Modulo, Partitioner,
};

fn rel(facts: &[(u32, u32, i64)]) -> Relation {
    let mut r = Relation::new();
    for (a, b, w) in facts {
        r.insert(*a, *b, *w);
    }
    r
}

fn triples(r: &Relation) -> Vec<(u32, u32, i64)> {
    let mut v: Vec<(u32, u32, i64)> = r.facts.iter().map(|f| (f.from, f.to, f.weight)).collect();
    v.sort();
    v
}

#[test]
fn new_relation_is_empty() {
    let r = Relation::new();
    assert!(r.is_empty());
    assert_eq!(r.len(), 0);
    assert_eq!(r.weight(1, 2), 0);
    assert!(!r.contains(1, 2));
}

#[test]
fn insert_adds_to_the_weight_of_its_pair_only() {
    let mut r = Relation::new();
    r.insert(1, 2, 3);
    r.insert(1, 2, -1);
    r.insert(2, 1, 5);
    assert_eq!(r.len(), 3);
    assert_eq!(r.weight(1, 2), 2);
    assert_eq!(r.weight(2, 1), 5);
    assert_eq!(r.weight(1, 1), 0);
    assert_eq!(r.facts[0], Fact { from: 1, to: 2, weight: 3 });
    assert_eq!(net_weight(&r.facts, 1, 2), 2);
    assert!(has_pair(&r.facts, 2, 1));
    assert!(!has_pair(&r.facts, 2, 2));
}

#[test]
fn weights_near_the_limits_add_up_exactly() {
    let r = rel(&[(1, 1, i64::MAX), (1, 1, i64::MAX), (2, 2, i64::MIN), (2, 2, i64::MIN)]);
    assert_eq!(r.weight(1, 1), 2 * (i64::MAX as i128));
    assert_eq!(r.weight(2, 2), 2 * (i64::MIN as i128));
    assert!(r.contains(1, 1));
    assert!(!r.contains(2, 2));
}

#[test]
fn union_sums_weights_and_loses_nothing() {
    let a = rel(&[(1, 2, 1), (2, 3, 2)]);
    let b = rel(&[(2, 3, 4), (3, 4, 1)]);
    let u = a.union(&b);
    assert_eq!(u.weight(1, 2), 1);
    assert_eq!(u.weight(2, 3), 6);
    assert_eq!(u.weight(3, 4), 1);
    assert_eq!(u.len(), 4);
    let v = b.union(&a);
    assert_eq!(v.weight(2, 3), 6);
    assert_eq!(v.weight(1, 2), 1);
}

#[test]
fn union_with_empty_is_identity() {
    let a = rel(&[(1, 2, 1), (2, 3, 2)]);
    let u = a.union(&Relation::new());
    assert_eq!(triples(&u), triples(&a));
    let v = Relation::new().union(&a);
    assert_eq!(triples(&v), triples(&a));
}

#[test]
fn union_is_associative_on_weights() {
    let a = rel(&[(1, 2, 1)]);
    let b = rel(&[(1, 2, 2), (5, 6, 1)]);
    let c = rel(&[(1, 2, -3), (5, 6, 7)]);
    let left = a.union(&b).union(&c);
    let right = a.union(&b.union(&c));
    assert_eq!(left.weight(1, 2), 0);
    assert_eq!(right.weight(1, 2), 0);
    assert_eq!(left.weight(5, 6), 8);
    assert_eq!(right.weight(5, 6), 8);
}

#[test]
fn distinct_keeps_positive_pairs_with_weight_one() {
    let r = rel(&[(1, 2, 3), (2, 3, -1), (3, 4, 0), (1, 2, 2), (4, 5, 2), (4, 5, -2), (6, 7, -1), (6, 7, 2)]);
    let d = r.distinct();
    assert_eq!(triples(&d), vec![(1, 2, 1), (6, 7, 1)]);
}

#[test]
fn distinct_twice_is_distinct_once() {
    let r = rel(&[(1, 2, 3), (2, 3, -1), (1, 2, 2), (9, 9, 1), (9, 9, 1)]);
    let once = r.distinct();
    let twice = once.distinct();
    assert_eq!(triples(&once), triples(&twice));
    assert_eq!(triples(&once), vec![(1, 2, 1), (9, 9, 1)]);
}

#[test]
fn delta_is_what_the_new_relation_has_more_of() {
    let prev = rel(&[(1, 2, 1), (2, 3, 1)]);
    let next = rel(&[(1, 2, 1), (2, 3, 1), (1, 3, 1)]);
    assert_eq!(triples(&next.delta_from(&prev)), vec![(1, 3, 1)]);
    assert!(prev.delta_from(&next).is_empty());
    assert!(next.delta_from(&next).is_empty());
    let negative = rel(&[(7, 8, -2)]);
    assert_eq!(triples(&Relation::new().delta_from(&negative)), vec![(7, 8, 1)]);
}

#[test]
fn from_pairs_and_back() {
    let edges = vec![(3, 4), (1, 2), (3, 4)];
    let r = Relation::from_pairs(&edges);
    assert_eq!(r.to_pairs(), edges);
    assert_eq!(r.weight(3, 4), 2);
    assert_eq!(r.copy().to_pairs(), edges);
}

#[test]
fn index_keeps_every_occurrence_in_order() {
    let r = rel(&[(1, 10, 1), (2, 20, 1), (1, 11, 2), (1, 10, 1), (2, 21, 3)]);
    let idx = Index::build(&r, Column::From);
    assert_eq!(idx.len(), 2);
    let one = find_bucket(&idx.buckets, 1).unwrap();
    assert_eq!(
        idx.buckets[one].entries,
        vec![
            Entry { value: 10, weight: 1 },
            Entry { value: 11, weight: 2 },
            Entry { value: 10, weight: 1 }
        ]
    );
    let two = find_bucket(&idx.buckets, 2).unwrap();
    assert_eq!(
        idx.buckets[two].entries,
        vec![Entry { value: 20, weight: 1 }, Entry { value: 21, weight: 3 }]
    );
    assert!(find_bucket(&idx.buckets, 3).is_none());
}

#[test]
fn index_on_the_far_column_inverts_the_pairs() {
    let r = rel(&[(1, 10, 1), (2, 10, 4), (3, 11, 1)]);
    let idx = Index::build(&r, Column::To);
    assert_eq!(idx.len(), 2);
    let ten = find_bucket(&idx.buckets, 10).unwrap();
    assert_eq!(
        idx.buckets[ten].entries,
        vec![Entry { value: 1, weight: 1 }, Entry { value: 2, weight: 4 }]
    );
}

#[test]
fn join_gives_the_full_cross_product_of_a_key() {
    let left = rel(&[(1, 5, 1), (2, 5, 1)]);
    let right = rel(&[(5, 7, 1), (5, 8, 1), (5, 9, 1)]);
    let out = join(&Index::build(&left, Column::To), &Index::build(&right, Column::From));
    assert_eq!(out.len(), 6);
    assert_eq!(
        triples(&out),
        vec![(1, 7, 1), (1, 8, 1), (1, 9, 1), (2, 7, 1), (2, 8, 1), (2, 9, 1)]
    );
}

#[test]
fn join_multiplies_weights_and_keeps_duplicates() {
    let left = rel(&[(1, 5, 2), (1, 5, 3)]);
    let right = rel(&[(5, 7, 4), (5, 7, -1)]);
    let out = join(&Index::build(&left, Column::To), &Index::build(&right, Column::From));
    assert_eq!(out.len(), 4);
    assert_eq!(triples(&out), vec![(1, 7, -3), (1, 7, -2), (1, 7, 8), (1, 7, 12)]);
    assert_eq!(out.weight(1, 7), 15);
}

#[test]
fn join_skips_keys_that_one_side_lacks() {
    let left = rel(&[(1, 5, 1), (2, 6, 1)]);
    let right = rel(&[(6, 7, 1), (8, 9, 1)]);
    let out = join(&Index::build(&left, Column::To), &Index::build(&right, Column::From));
    assert_eq!(triples(&out), vec![(2, 7, 1)]);
    let none = join(&Index::build(&Relation::new(), Column::To), &Index::build(&right, Column::From));
    assert!(none.is_empty());
}

#[test]
fn owner_of_a_key_is_its_remainder() {
    assert_eq!(Modulo { workers: 16 }.shard_of(0), 0);
    assert_eq!(Modulo { workers: 16 }.shard_of(17), 1);
    assert_eq!(Modulo { workers: 16 }.shard_of(4294967295), 15);
    assert_eq!(Modulo { workers: 1 }.shard_of(12345), 0);
    assert_eq!(Modulo { workers: 4 }.shard_of(7), 3);
    assert_eq!(Modulo { workers: 4 }.count(), 4);
}

#[test]
fn blocks_of_keys_share_an_owner() {
    let p = Blocks { workers: 3, width: 10 };
    assert_eq!(p.count(), 3);
    assert_eq!(p.shard_of(0), 0);
    assert_eq!(p.shard_of(9), 0);
    assert_eq!(p.shard_of(10), 1);
    assert_eq!(p.shard_of(29), 2);
    assert_eq!(p.shard_of(30), 0);
    assert_eq!(p.shard_of(4294967295), 429496729 % 3);
}

#[test]
fn partition_sends_each_fact_to_the_owner_of_its_key() {
    let r = rel(&[(0, 5, 1), (1, 6, 1), (4, 7, 2), (5, 4, 1), (8, 8, 1)]);
    let shards = partition(&r, Column::From, &Modulo { workers: 4 });
    assert_eq!(shards.len(), 4);
    assert_eq!(shards[0].facts, vec![
        Fact { from: 0, to: 5, weight: 1 },
        Fact { from: 4, to: 7, weight: 2 },
        Fact { from: 8, to: 8, weight: 1 }
    ]);
    assert_eq!(shards[1].facts, vec![
        Fact { from: 1, to: 6, weight: 1 },
        Fact { from: 5, to: 4, weight: 1 }
    ]);
    assert!(shards[2].is_empty());
    assert!(shards[3].is_empty());
    let by_to = partition(&r, Column::To, &Modulo { workers: 4 });
    assert_eq!(triples(&by_to[0]), vec![(5, 4, 1), (8, 8, 1)]);
    assert_eq!(triples(&by_to[1]), vec![(0, 5, 1)]);
    assert_eq!(triples(&by_to[2]), vec![(1, 6, 1)]);
    assert_eq!(triples(&by_to[3]), vec![(4, 7, 2)]);
}

#[test]
fn gather_gives_back_what_was_partitioned() {
    let r = rel(&[(0, 5, 1), (1, 6, 1), (4, 7, 2), (5, 4, 1), (8, 8, 1)]);
    for n in [1usize, 4, 16] {
        let shards = partition(&r, Column::From, &Modulo { workers: n });
        assert_eq!(shards.len(), n);
        let back = gather(&shards);
        assert_eq!(triples(&back), triples(&r));
    }
    assert!(gather(&Vec::new()).is_empty());
}

#[test]
fn sharded_join_finds_the_matches_of_every_shard() {
    let left = rel(&[(1, 5, 1), (2, 6, 1), (3, 7, 1)]);
    let right = rel(&[(5, 50, 1), (6, 60, 1), (6, 61, 1), (9, 90, 1)]);
    for n in [1usize, 4, 16] {
        let out = sharded_join(&left, &right, &Modulo { workers: n });
        assert_eq!(triples(&out), vec![(1, 50, 1), (2, 60, 1), (2, 61, 1)]);
    }
}

#[test]
fn sharded_join_by_blocks_finds_the_same_matches() {
    let left = rel(&[(1, 5, 1), (2, 6, 1), (3, 7, 1)]);
    let right = rel(&[(5, 50, 1), (6, 60, 1), (6, 61, 1), (9, 90, 1)]);
    let out = sharded_join(&left, &right, &Blocks { workers: 4, width: 2 });
    assert_eq!(triples(&out), vec![(1, 50, 1), (2, 60, 1), (2, 61, 1)]);
}

#[test]
fn partition_by_blocks_keeps_neighbours_together() {
    let r = rel(&[(0, 5, 1), (1, 6, 1), (4, 7, 2), (5, 4, 1), (8, 8, 1)]);
    let shards = partition(&r, Column::From, &Blocks { workers: 2, width: 4 });
    assert_eq!(shards.len(), 2);
    assert_eq!(triples(&shards[0]), vec![(0, 5, 1), (1, 6, 1), (8, 8, 1)]);
    assert_eq!(triples(&shards[1]), vec![(4, 7, 2), (5, 4, 1)]);
    assert_eq!(triples(&gather(&shards)), triples(&r));
}

#[test]
fn gather_count_counts_a_replicated_pair_once() {
    let shards = vec![
        rel(&[(1, 2, 1), (2, 3, 1)]),
        rel(&[(1, 2, 1), (3, 4, 1)]),
        rel(&[(5, 6, -1)]),
        rel(&[]),
    ];
    assert_eq!(gather(&shards).len(), 5);
    assert_eq!(gather_count(&shards), 3);
    assert_eq!(gather_count(&Vec::new()), 0);
}

#[test]
fn sharded_merge_adds_what_is_new_once() {
    let known = rel(&[(1, 2, 1), (2, 3, 1)]);
    let derived = rel(&[(1, 3, 1), (1, 3, 1), (2, 3, 1), (4, 9, 1)]);
    for n in [1usize, 4, 16] {
        let (next, delta) = sharded_merge(&known, &derived, &Modulo { workers: n });
        assert_eq!(triples(&next), vec![(1, 2, 1), (1, 3, 1), (2, 3, 1), (4, 9, 1)]);
        assert_eq!(triples(&delta), vec![(1, 3, 1), (4, 9, 1)]);
    }
    let (next, delta) = sharded_merge(&known, &Relation::new(), &Blocks { workers: 3, width: 2 });
    assert_eq!(triples(&next), triples(&known));
    assert!(delta.is_empty());
}
