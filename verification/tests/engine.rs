use transitive_closure::relation::Relation;
use transitive_closure::scheduler::{incremental_closure, incremental_closure_by, Phase, Scheduler};
use transitive_closure::shard::{Blocks, Modulo};
use transitive_closure::seminaive::{rule_closure, RuleProgram};

fn sorted(rel: &Relation) -> Vec<(u32, u32)> {
    let mut v = rel.to_pairs();
    v.sort();
    v
}

fn all_pairs(nodes: &[u32]) -> Vec<(u32, u32)> {
    let mut v = Vec::new();
    for a in nodes {
        for b in nodes {
            v.push((*a, *b));
        }
    }
    v.sort();
    v
}

#[test]
fn chain_of_two_edges_gains_one_path() {
    let edges = vec![(1, 2), (2, 3)];
    let path = incremental_closure(&edges, 16);
    assert_eq!(sorted(&path), vec![(1, 2), (1, 3), (2, 3)]);
    let path = rule_closure(&edges);
    assert_eq!(sorted(&path), vec![(1, 2), (1, 3), (2, 3)]);
}

#[test]
fn self_loop_converges_after_one_round() {
    let mut s = Scheduler::new(Modulo { workers: 16 });
    s.load(&Relation::from_pairs(&vec![(1, 1)]));
    assert_eq!(s.phase, Phase::Iterating);
    assert_eq!(s.rounds, 1);
    assert_eq!(sorted(&s.accumulated), vec![(1, 1)]);
    s.step();
    assert_eq!(s.phase, Phase::Converged);
    assert_eq!(s.rounds, 1);
    assert!(s.delta.is_empty());
    assert_eq!(sorted(&s.accumulated), vec![(1, 1)]);
    assert_eq!(s.count(), 1);
    s.run();
    assert_eq!(s.phase, Phase::Converged);
    assert_eq!(sorted(&s.accumulated), vec![(1, 1)]);
}

#[test]
fn three_cycle_reaches_every_pair() {
    let edges = vec![(1, 2), (2, 3), (3, 1)];
    let path = incremental_closure(&edges, 16);
    assert_eq!(path.len(), 9);
    assert_eq!(sorted(&path), all_pairs(&[1, 2, 3]));
    let path = rule_closure(&edges);
    assert_eq!(sorted(&path), all_pairs(&[1, 2, 3]));
}

#[test]
fn empty_input_converges_at_once() {
    let mut s = Scheduler::new(Modulo { workers: 4 });
    assert_eq!(s.phase, Phase::Initializing);
    s.load(&Relation::from_pairs(&Vec::new()));
    assert_eq!(s.phase, Phase::Converged);
    assert_eq!(s.rounds, 0);
    assert_eq!(s.count(), 0);
    assert!(incremental_closure(&Vec::new(), 16).is_empty());
    assert!(rule_closure(&Vec::new()).is_empty());
}

#[test]
fn run_from_initializing_stays_there() {
    let mut s = Scheduler::new(Modulo { workers: 2 });
    s.run();
    assert_eq!(s.phase, Phase::Initializing);
    assert!(!s.is_iterating());
    assert!(!s.is_converged());
}

#[test]
fn rounds_equal_the_diameter_of_a_chain() {
    let mut s = Scheduler::new(Modulo { workers: 4 });
    s.load(&Relation::from_pairs(&vec![(1, 2), (2, 3), (3, 4)]));
    s.run();
    assert!(s.is_converged());
    assert_eq!(s.rounds, 3);
    assert_eq!(sorted(&s.accumulated), vec![(1, 2), (1, 3), (1, 4), (2, 3), (2, 4), (3, 4)]);

    let mut p = RuleProgram::new(&Relation::from_pairs(&vec![(1, 2), (2, 3), (3, 4)]));
    p.run();
    assert!(p.done);
    assert_eq!(p.rounds, 3);
}

#[test]
fn rounds_of_a_star_are_two() {
    let mut s = Scheduler::new(Modulo { workers: 3 });
    s.load(&Relation::from_pairs(&vec![(1, 0), (2, 0), (0, 3), (0, 4)]));
    s.run();
    assert!(s.is_converged());
    assert_eq!(s.rounds, 2);
    assert_eq!(s.count(), 8);
}

#[test]
fn paths_only_grow_from_round_to_round() {
    let mut s = Scheduler::new(Modulo { workers: 4 });
    s.load(&Relation::from_pairs(&vec![(1, 2), (2, 3), (3, 4), (4, 5), (5, 1)]));
    let mut seen = sorted(&s.accumulated);
    while s.is_iterating() {
        s.step();
        let now = sorted(&s.accumulated);
        for p in &seen {
            assert!(now.contains(p));
        }
        assert!(now.len() >= seen.len());
        seen = now;
    }
    assert_eq!(seen, all_pairs(&[1, 2, 3, 4, 5]));
}

#[test]
fn delta_holds_only_what_is_new() {
    let mut s = Scheduler::new(Modulo { workers: 4 });
    s.load(&Relation::from_pairs(&vec![(1, 2), (2, 3), (3, 4)]));
    assert_eq!(sorted(&s.delta), vec![(1, 2), (2, 3), (3, 4)]);
    s.step();
    assert_eq!(sorted(&s.delta), vec![(1, 3), (2, 4)]);
    s.step();
    assert_eq!(sorted(&s.delta), vec![(1, 4)]);
    assert_eq!(s.phase, Phase::Iterating);
    s.step();
    assert!(s.delta.is_empty());
    assert_eq!(s.phase, Phase::Converged);
}

#[test]
fn worker_count_does_not_change_the_result() {
    let edges = vec![(1, 2), (2, 3), (3, 4), (4, 2), (7, 8), (8, 9), (9, 7), (4, 7), (10, 10)];
    let one = sorted(&incremental_closure(&edges, 1));
    let four = sorted(&incremental_closure(&edges, 4));
    let sixteen = sorted(&incremental_closure(&edges, 16));
    assert_eq!(one, four);
    assert_eq!(four, sixteen);
    assert_eq!(one.len(), 34);
}

#[test]
fn both_evaluators_agree() {
    let graphs: Vec<Vec<(u32, u32)>> = vec![
        vec![],
        vec![(5, 5)],
        vec![(1, 2), (2, 1)],
        vec![(1, 2), (1, 2), (2, 3), (2, 3)],
        vec![(0, 1), (1, 2), (2, 3), (3, 0), (2, 4), (4, 5)],
        vec![(1, 10), (1, 11), (10, 20), (11, 20), (20, 30)],
        vec![(4294967295, 0), (0, 4294967295)],
    ];
    for edges in &graphs {
        let a = sorted(&incremental_closure(edges, 4));
        let b = sorted(&rule_closure(edges));
        assert_eq!(a, b);
    }
}

#[test]
fn two_routes_to_one_node_give_one_path() {
    let edges = vec![(1, 10), (1, 11), (10, 20), (11, 20)];
    let path = incremental_closure(&edges, 16);
    assert_eq!(sorted(&path), vec![(1, 10), (1, 11), (1, 20), (10, 20), (11, 20)]);
    assert_eq!(path.weight(1, 20), 1);
}

#[test]
fn duplicate_edges_count_once() {
    let edges = vec![(1, 2), (1, 2), (1, 2)];
    let path = incremental_closure(&edges, 2);
    assert_eq!(sorted(&path), vec![(1, 2)]);
    let mut p = RuleProgram::new(&Relation::from_pairs(&edges));
    assert_eq!(p.edge.len(), 1);
    p.round();
    assert!(!p.done);
    assert_eq!(p.rounds, 1);
    p.round();
    assert!(p.done);
    assert_eq!(p.rounds, 1);
    assert_eq!(sorted(&p.path), vec![(1, 2)]);
}

#[test]
fn each_round_but_the_last_adds_paths() {
    let mut s = Scheduler::new(Modulo { workers: 4 });
    s.load(&Relation::from_pairs(&vec![(1, 2), (2, 3), (3, 4), (4, 5)]));
    let mut held = s.count();
    assert_eq!(held, 4);
    while s.is_iterating() {
        s.step();
        assert_eq!(s.count(), held + s.delta.len());
        assert_eq!(s.is_converged(), s.delta.is_empty());
        held = s.count();
    }
    assert_eq!(held, 10);
    assert_eq!(s.rounds, 4);
}

#[test]
fn partition_function_does_not_change_the_result() {
    let edges = vec![(1, 2), (2, 3), (3, 4), (4, 2), (7, 8), (8, 9), (9, 7), (4, 7), (10, 10)];
    let turn = sorted(&incremental_closure_by(&edges, Modulo { workers: 4 }));
    let blocks = sorted(&incremental_closure_by(&edges, Blocks { workers: 4, width: 3 }));
    let wide = sorted(&incremental_closure_by(&edges, Blocks { workers: 16, width: 1000 }));
    assert_eq!(turn, blocks);
    assert_eq!(turn, wide);
    assert_eq!(turn, sorted(&rule_closure(&edges)));

    let mut a = Scheduler::new(Modulo { workers: 1 });
    a.load(&Relation::from_pairs(&edges));
    a.run();
    let mut b = Scheduler::new(Blocks { workers: 16, width: 2 });
    b.load(&Relation::from_pairs(&edges));
    b.run();
    assert_eq!(a.rounds, b.rounds);
    assert_eq!(sorted(&a.accumulated), sorted(&b.accumulated));
}
