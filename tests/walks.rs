use staircase_paths::network::{Node, Staircase, StructuralError};
use staircase_paths::table::{BuildError, PathTable};
use std::collections::BTreeSet;

fn stair(begin: usize, end: usize, feeding: Option<usize>, returning: Option<usize>) -> Staircase {
    Staircase { begin, end, feeding, returning }
}

fn node(id: usize, rank: usize) -> Node {
    Node { staircase_id: id, step_rank: rank }
}

fn build(net: Vec<Staircase>, moves: Vec<usize>) -> PathTable {
    match PathTable::build(net, moves) {
        Ok(t) => t,
        Err(e) => panic!("unexpected build error {:?}", e),
    }
}

fn key(n: &Node) -> (usize, usize) {
    (n.staircase_id, n.step_rank)
}

// A direct, unoptimised reading of the walking rules, used as an oracle.

fn naive_hop(net: &[Staircase], n: Node) -> Option<Node> {
    let s = &net[n.staircase_id - 1];
    if n == node(1, net[0].end) {
        None
    } else if n.step_rank < s.end {
        Some(node(n.staircase_id, n.step_rank + 1))
    } else {
        s.returning.map(|r| node(r, n.step_rank))
    }
}

fn naive_close(net: &[Staircase], front: &BTreeSet<(usize, usize)>) -> BTreeSet<(usize, usize)> {
    let mut set = front.clone();
    loop {
        let mut grown = set.clone();
        for &(id, rank) in &set {
            for (i, s) in net.iter().enumerate() {
                if s.feeding == Some(id) && s.begin == rank {
                    grown.insert((i + 1, rank));
                }
            }
        }
        if grown == set {
            return set;
        }
        set = grown;
    }
}

fn naive_successors(net: &[Staircase], moves: &[usize], n: Node) -> Vec<Node> {
    let mut start: BTreeSet<(usize, usize)> = BTreeSet::new();
    start.insert(key(&n));
    let mut front = naive_close(net, &start);
    let mut out: BTreeSet<(usize, usize)> = BTreeSet::new();
    let max = moves.iter().copied().max().unwrap_or(0);
    for k in 1..=max {
        let mut landed = BTreeSet::new();
        for &(id, rank) in &front {
            if let Some(m) = naive_hop(net, node(id, rank)) {
                landed.insert(key(&m));
            }
        }
        let next = naive_close(net, &landed);
        if moves.contains(&k) {
            out.extend(next.iter().copied());
        }
        front = next;
    }
    out.into_iter().map(|(i, r)| node(i, r)).collect()
}

fn naive_walks(net: &[Staircase], moves: &[usize], n: Node) -> Vec<Vec<Node>> {
    let top = node(1, net[0].end);
    if n == top {
        return vec![vec![n]];
    }
    let mut all = vec![];
    for m in naive_successors(net, moves, n) {
        for tail in naive_walks(net, moves, m) {
            let mut w = vec![n];
            w.extend(tail);
            all.push(w);
        }
    }
    all
}

fn render(path: &[Node]) -> String {
    path.iter()
        .map(|n| format!("S{}_{}", n.staircase_id, n.step_rank))
        .collect::<Vec<_>>()
        .join("-")
}

fn check_against_oracle(net: Vec<Staircase>, moves: Vec<usize>) {
    let walks = naive_walks(&net, &moves, node(1, net[0].begin));
    let t = build(net, moves);
    let total = t.total_path_count();
    assert_eq!(total, walks.len() as u128);
    for (i, w) in walks.iter().enumerate() {
        assert_eq!(&t.select(i as u128 + 1), w);
    }
}

fn side_branch() -> Vec<Staircase> {
    vec![stair(0, 6, None, None), stair(2, 4, Some(1), Some(1))]
}

#[test]
fn single_staircase_fibonacci_count() {
    let t = build(vec![stair(0, 5, None, None)], vec![1, 2]);
    assert_eq!(t.total_path_count(), 8);
}

#[test]
fn single_staircase_first_and_last_walks() {
    let t = build(vec![stair(0, 5, None, None)], vec![1, 2]);
    assert_eq!(render(&t.select(1)), "S1_0-S1_1-S1_2-S1_3-S1_4-S1_5");
    assert_eq!(render(&t.select(8)), "S1_0-S1_2-S1_4-S1_5");
}

#[test]
fn degenerate_pass_through_is_rejected() {
    let net = vec![stair(0, 3, None, Some(2)), stair(3, 3, Some(1), None)];
    assert_eq!(
        PathTable::build(net, vec![1]).err(),
        Some(BuildError::Malformed(StructuralError::EmptySpan { id: 2 }))
    );
    let alone = vec![stair(0, 3, None, None), stair(3, 3, Some(1), None)];
    assert_eq!(
        PathTable::build(alone, vec![1]).err(),
        Some(BuildError::Malformed(StructuralError::EmptySpan { id: 2 }))
    );
}

#[test]
fn side_branch_and_return_with_unit_moves() {
    let t = build(side_branch(), vec![1]);
    assert_eq!(t.total_path_count(), 3);
    assert_eq!(render(&t.select(1)), "S1_0-S1_1-S1_2-S1_3-S1_4-S1_5-S1_6");
    assert_eq!(render(&t.select(2)), "S1_0-S1_1-S1_2-S2_3-S2_4-S1_4-S1_5-S1_6");
    assert_eq!(render(&t.select(3)), "S1_0-S1_1-S2_2-S2_3-S2_4-S1_4-S1_5-S1_6");
}

#[test]
fn feed_is_a_zero_cost_branch() {
    let t = build(side_branch(), vec![1]);
    assert_eq!(t.successors(node(1, 2)), Some(vec![node(1, 3), node(2, 3)]));
    assert_eq!(t.successors(node(1, 1)), Some(vec![node(1, 2), node(2, 2)]));
    assert_eq!(t.successors(node(1, 0)), Some(vec![node(1, 1)]));
    assert_eq!(t.successors(node(2, 2)), Some(vec![node(2, 3)]));
    assert_eq!(t.successors(node(2, 4)), Some(vec![node(1, 4)]));
    assert_eq!(t.successors(node(3, 0)), None);
    assert_eq!(t.successors(node(2, 5)), None);
}

#[test]
fn walks_from_each_node() {
    let t = build(side_branch(), vec![1]);
    assert_eq!(t.walks_from(node(1, 6)), Some(1));
    assert_eq!(t.walks_from(node(2, 3)), Some(1));
    assert_eq!(t.walks_from(node(1, 2)), Some(2));
    assert_eq!(t.walks_from(node(1, 7)), None);
}

#[test]
fn unknown_returning_id_is_a_structural_error() {
    let net = vec![stair(0, 6, None, None), stair(2, 4, Some(1), Some(7))];
    assert_eq!(
        PathTable::build(net, vec![1, 2]).err(),
        Some(BuildError::Malformed(StructuralError::UnknownReturning { id: 2 }))
    );
}

#[test]
fn unknown_feeding_id_is_a_structural_error() {
    let net = vec![stair(0, 6, None, None), stair(2, 4, Some(0), Some(1))];
    assert_eq!(
        PathTable::build(net, vec![1]).err(),
        Some(BuildError::Malformed(StructuralError::UnknownFeeding { id: 2 }))
    );
}

#[test]
fn staircase_outside_corridor_is_rejected() {
    let net = vec![stair(0, 6, None, None), stair(2, 8, Some(1), None)];
    assert_eq!(
        PathTable::build(net, vec![1]).err(),
        Some(BuildError::Malformed(StructuralError::OutsideCorridor { id: 2 }))
    );
}

#[test]
fn detached_return_is_rejected() {
    let net = vec![stair(0, 6, None, None), stair(1, 3, Some(1), Some(3)), stair(4, 6, Some(1), None)];
    assert_eq!(
        PathTable::build(net, vec![1]).err(),
        Some(BuildError::Malformed(StructuralError::DetachedReturn { id: 2 }))
    );
}

#[test]
fn start_errors() {
    assert_eq!(
        PathTable::build(vec![], vec![1]).err(),
        Some(BuildError::Malformed(StructuralError::MissingStart))
    );
    let all_fed = vec![stair(0, 6, Some(2), None), stair(2, 4, Some(1), Some(1))];
    assert_eq!(
        PathTable::build(all_fed, vec![1]).err(),
        Some(BuildError::Malformed(StructuralError::MissingStart))
    );
    let late_start = vec![stair(0, 6, Some(2), None), stair(2, 4, None, Some(1))];
    assert_eq!(
        PathTable::build(late_start, vec![1]).err(),
        Some(BuildError::Malformed(StructuralError::StartNotPrimary { id: 2 }))
    );
    let two_starts = vec![stair(0, 6, None, None), stair(2, 4, Some(1), Some(1)), stair(3, 5, None, Some(1))];
    assert_eq!(
        PathTable::build(two_starts, vec![1]).err(),
        Some(BuildError::Malformed(StructuralError::SeveralStarts { id: 3 }))
    );
}

#[test]
fn first_fault_in_list_order_wins() {
    let net = vec![stair(0, 6, None, None), stair(4, 2, Some(1), Some(9)), stair(2, 4, Some(8), None)];
    assert_eq!(
        PathTable::build(net, vec![1]).err(),
        Some(BuildError::Malformed(StructuralError::EmptySpan { id: 2 }))
    );
}

#[test]
fn count_overflow_is_reported() {
    // On one staircase with moves {1, 2}, the count from rank r of 0..=200
    // is a Fibonacci number; the first rank from the top whose count does
    // not fit in 128 bits is the reported node.
    let mut counts: Vec<Option<u128>> = vec![None; 201];
    counts[200] = Some(1);
    counts[199] = Some(1);
    let mut first_bad = None;
    for r in (0..199).rev() {
        let v = match (counts[r + 1], counts[r + 2]) {
            (Some(a), Some(b)) => a.checked_add(b),
            _ => None,
        };
        counts[r] = v;
        if v.is_none() && first_bad.is_none() {
            first_bad = Some(r);
        }
    }
    let r = first_bad.unwrap();
    assert_eq!(
        PathTable::build(vec![stair(0, 200, None, None)], vec![1, 2]).err(),
        Some(BuildError::Overflow(node(1, r)))
    );
}

#[test]
fn large_count_fits() {
    // 186 ranks with moves {1, 2}: Fibonacci(187), just below 2^128.
    let t = build(vec![stair(0, 185, None, None)], vec![1, 2]);
    let (mut a, mut b): (u128, u128) = (1, 1);
    for _ in 0..184 {
        let c = a + b;
        a = b;
        b = c;
    }
    assert_eq!(t.total_path_count(), b);
}

#[test]
fn no_allowed_moves_gives_no_walks() {
    let t = build(side_branch(), vec![]);
    assert_eq!(t.total_path_count(), 0);
    assert_eq!(t.successors(node(1, 0)), Some(vec![]));
}

#[test]
fn zero_and_oversized_moves_are_harmless() {
    let t = build(vec![stair(0, 5, None, None)], vec![0, 2, 1, 40]);
    assert_eq!(t.total_path_count(), 8);
}

#[test]
fn count_matches_brute_force() {
    check_against_oracle(side_branch(), vec![1, 2]);
    check_against_oracle(side_branch(), vec![2, 3]);
    check_against_oracle(vec![stair(0, 12, None, None)], vec![1, 3, 4]);
    check_against_oracle(
        vec![stair(0, 10, None, None), stair(2, 6, Some(1), Some(1)), stair(4, 9, Some(2), Some(1))],
        vec![1, 2, 3],
    );
}

#[test]
fn chained_feeds_at_one_rank() {
    // Staircase 3 is fed by staircase 2 at the rank where 2 itself begins,
    // so both branches open from staircase 1 at no cost.
    let net = vec![stair(0, 8, None, None), stair(2, 5, Some(1), Some(1)), stair(2, 7, Some(2), Some(1))];
    let t = build(net.clone(), vec![1]);
    assert_eq!(t.successors(node(1, 2)), Some(vec![node(1, 3), node(2, 3), node(3, 3)]));
    check_against_oracle(net, vec![1, 2]);
}

#[test]
fn return_at_the_top_reaches_the_end() {
    let net = vec![stair(0, 6, None, None), stair(3, 6, Some(1), Some(1))];
    let t = build(net.clone(), vec![1]);
    assert_eq!(t.total_path_count(), 3);
    assert_eq!(render(&t.select(2)), "S1_0-S1_1-S1_2-S1_3-S2_4-S2_5-S2_6-S1_6");
    assert_eq!(render(&t.select(3)), "S1_0-S1_1-S1_2-S2_3-S2_4-S2_5-S2_6-S1_6");
    check_against_oracle(net, vec![1, 2, 3]);
}

#[test]
fn first_rank_is_lexicographically_smallest() {
    let net = vec![stair(0, 10, None, None), stair(2, 6, Some(1), Some(1)), stair(4, 9, Some(2), Some(1))];
    let t = build(net.clone(), vec![1, 2, 3]);
    let total = t.total_path_count();
    let mut walks: Vec<Vec<(usize, usize)>> = (1..=total)
        .map(|r| t.select(r).iter().map(key).collect())
        .collect();
    let first = walks[0].clone();
    let last = walks[walks.len() - 1].clone();
    walks.sort();
    assert_eq!(walks[0], first);
    assert_eq!(walks[walks.len() - 1], last);
}

#[test]
fn rank_past_total_is_clamped() {
    let t = build(side_branch(), vec![1, 2]);
    let total = t.total_path_count();
    assert_eq!(t.select(total + 1), t.select(total));
    assert_eq!(t.select(u128::MAX), t.select(total));
}

#[test]
fn select_is_idempotent() {
    let t = build(side_branch(), vec![1, 2]);
    assert_eq!(t.select(3), t.select(3));
    assert_eq!(t.select(1), t.select(1));
}

#[test]
fn selected_walk_rank_round_trips() {
    let net = vec![stair(0, 9, None, None), stair(1, 5, Some(1), Some(1)), stair(3, 8, Some(1), Some(1))];
    let t = build(net.clone(), vec![1, 2]);
    let total = t.total_path_count();
    let mut ordered: Vec<Vec<(usize, usize)>> = naive_walks(&net, &[1, 2], node(1, 0))
        .iter()
        .map(|w| w.iter().map(key).collect())
        .collect();
    ordered.sort();
    for r in 1..=total + 2 {
        let w: Vec<(usize, usize)> = t.select(r).iter().map(key).collect();
        let before = ordered.iter().filter(|o| **o < w).count() as u128;
        assert_eq!(before + 1, r.min(total));
    }
}

#[test]
fn branch_landing_is_a_successor() {
    // One sub-step from S1_0 reaches S1_1, and S2 begins there fed by S1.
    let net = vec![stair(0, 3, None, None), stair(1, 3, Some(1), Some(1))];
    let t = build(net.clone(), vec![1]);
    assert_eq!(t.successors(node(1, 0)), Some(vec![node(1, 1), node(2, 1)]));
    check_against_oracle(net, vec![1, 2]);
}

#[test]
fn hand_off_onto_a_staircase_ending_at_the_same_rank() {
    // S2 ends at 3 and hands off onto S3, which also ends at 3 and hands off
    // onto S1.
    let net = vec![stair(0, 4, None, None), stair(1, 3, Some(1), Some(3)), stair(2, 3, Some(1), Some(1))];
    let t = build(net.clone(), vec![1]);
    assert_eq!(t.successors(node(2, 3)), Some(vec![node(3, 3)]));
    assert_eq!(t.successors(node(3, 3)), Some(vec![node(1, 3)]));
    check_against_oracle(net.clone(), vec![1]);
    check_against_oracle(net, vec![1, 2, 3]);
}

#[test]
fn endless_hand_off_is_rejected() {
    let net = vec![stair(0, 4, None, None), stair(1, 3, Some(1), Some(3)), stair(2, 3, Some(1), Some(2))];
    assert_eq!(
        PathTable::build(net, vec![1]).err(),
        Some(BuildError::Malformed(StructuralError::EndlessHandOff { id: 2 }))
    );
}
