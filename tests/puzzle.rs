use staircase_paths::corridor::path_count;
use staircase_paths::network::{Node, Staircase, StructuralError};
use staircase_paths::puzzle::{parse_input, solve_part1, solve_part2, solve_part3, Data};
use staircase_paths::successors::expand;
use staircase_paths::table::{allowed_starting_paths, successors, PathTable};
use staircase_paths::text::render_path;
use staircase_paths::topology::{feeding_branches, nodes_to_explore, visiting_order};

const SIDE_BRANCH_TEXT: &str = "S1 : 0 -> 6 : FROM START TO END\nS2 : 2 -> 4 : FROM S1 TO S1\n\nPossible Moves : 1\n";

fn node(id: usize, rank: usize) -> Node {
    Node::new(id, rank)
}

fn side_branch() -> Vec<Staircase> {
    vec![Staircase::new(0, 6, None, None), Staircase::new(2, 4, Some(1), Some(1))]
}

fn parsed(text: &str) -> Data {
    match parse_input(text) {
        Some(d) => d,
        None => panic!("text not read"),
    }
}

#[test]
fn parse_reads_staircases_and_moves() {
    let d = parsed(SIDE_BRANCH_TEXT);
    assert_eq!(d.staircases, side_branch());
    assert_eq!(d.allowed_moves, vec![1]);
    let d2 = parsed("S1 : 0 -> 10 : FROM START TO END\n\nPossible Moves : 1, 3, 5");
    assert_eq!(d2.staircases, vec![Staircase::new(0, 10, None, None)]);
    assert_eq!(d2.allowed_moves, vec![1, 3, 5]);
}

#[test]
fn parse_rejects_other_text() {
    assert!(parse_input("S2 : 0 -> 6 : FROM START TO END\n\nPossible Moves : 1\n").is_none());
    assert!(parse_input("S1 : 0 -> 6 : FROM START TO END\nPossible Moves : 1\n").is_none());
    assert!(parse_input("S1 : 00 -> 6 : FROM START TO END\n\nPossible Moves : 1\n").is_none());
    assert!(parse_input("S1 : 0 -> 6 : FROM START TO END\n\nPossible Moves : 1\n\n").is_none());
    assert!(parse_input("S1 : 0 -> 6 : FROM BEGIN TO END\n\nPossible Moves : 1\n").is_none());
    assert!(parse_input("S1 : 0 -> 6 : FROM START TO END\n\nPossible Moves : 1,2\n").is_none());
    assert!(parse_input("").is_none());
}

#[test]
fn parse_reads_large_numbers() {
    let d = parsed("S1 : 7 -> 18446744073709551614 : FROM START TO END\n\nPossible Moves : 12\n");
    assert_eq!(d.staircases[0].end, 18446744073709551614);
    assert!(parse_input("S1 : 7 -> 18446744073709551616 : FROM START TO END\n\nPossible Moves : 1\n").is_none());
}

#[test]
fn corridor_counts() {
    assert_eq!(path_count(5, &vec![1, 2]), Some(8));
    assert_eq!(path_count(0, &vec![]), Some(1));
    assert_eq!(path_count(3, &vec![]), Some(0));
    assert_eq!(path_count(4, &vec![2]), Some(1));
    assert_eq!(path_count(5, &vec![2]), Some(0));
    assert_eq!(path_count(6, &vec![1, 2, 2]), Some(13));
    assert_eq!(path_count(4, &vec![0, 1]), Some(1));
    assert_eq!(path_count(200, &vec![1, 2]), None);
}

#[test]
fn parts_of_the_puzzle() {
    let d = parsed(SIDE_BRANCH_TEXT);
    assert_eq!(solve_part1(&d), Some(1));
    assert_eq!(solve_part2(&d), Ok(3));
    assert_eq!(
        solve_part3(&d),
        Ok(Some(b"S1_0-S1_1-S2_2-S2_3-S2_4-S1_4-S1_5-S1_6".to_vec()))
    );
    let d2 = parsed("S1 : 0 -> 6 : FROM START TO END\nS2 : 2 -> 4 : FROM S1 TO S1\n\nPossible Moves : 1, 2\n");
    assert_eq!(solve_part1(&d2), Some(13));
}

#[test]
fn part_three_without_walks() {
    let d = Data::new(side_branch(), vec![]);
    assert_eq!(solve_part3(&d), Ok(None));
    assert_eq!(solve_part2(&d), Ok(0));
}

#[test]
fn nodes_in_visiting_order() {
    let order = nodes_to_explore(&side_branch());
    assert_eq!(
        order,
        vec![
            node(1, 0),
            node(1, 1),
            node(1, 2),
            node(2, 2),
            node(1, 3),
            node(2, 3),
            node(2, 4),
            node(1, 4),
            node(1, 5),
            node(1, 6),
        ]
    );
}

#[test]
fn feeding_index() {
    let b = feeding_branches(&side_branch());
    assert_eq!(b.len(), 7);
    for (k, row) in b.iter().enumerate() {
        assert_eq!(row.len(), 2);
        for (f, list) in row.iter().enumerate() {
            if k == 2 && f == 0 {
                assert_eq!(list, &vec![2]);
            } else {
                assert!(list.is_empty());
            }
        }
    }
}

#[test]
fn frontier_expansion() {
    let net = side_branch();
    let mut zero = expand(&net, node(1, 2), 0);
    zero.sort_by_key(|n| (n.staircase_id, n.step_rank));
    assert_eq!(zero, vec![node(1, 2), node(2, 2)]);
    assert_eq!(expand(&net, node(1, 1), 0), vec![node(1, 1)]);
    let mut one = expand(&net, node(1, 2), 1);
    one.sort_by_key(|n| (n.staircase_id, n.step_rank));
    assert_eq!(one, vec![node(1, 3), node(2, 3)]);
    let mut three = expand(&net, node(1, 2), 3);
    three.sort_by_key(|n| (n.staircase_id, n.step_rank));
    assert_eq!(three, vec![node(1, 4), node(1, 5)]);
    assert!(expand(&net, node(1, 6), 1).is_empty());
}

#[test]
fn successor_table() {
    let t = successors(&side_branch(), &vec![1]);
    assert_eq!(
        t,
        vec![
            vec![
                vec![node(1, 1)],
                vec![node(1, 2), node(2, 2)],
                vec![node(1, 3), node(2, 3)],
                vec![node(1, 4)],
                vec![node(1, 5)],
                vec![node(1, 6)],
                vec![],
            ],
            vec![vec![node(2, 3)], vec![node(2, 4)], vec![node(1, 4)]],
        ]
    );
}

#[test]
fn walk_counts_per_node() {
    let c = allowed_starting_paths(&side_branch(), &vec![1]);
    assert_eq!(c, Ok(vec![vec![3, 3, 2, 1, 1, 1, 1], vec![1, 1, 1]]));
    let over = allowed_starting_paths(&vec![Staircase::new(0, 200, None, None)], &vec![1, 2]);
    assert!(over.is_err());
}

#[test]
fn rank_of_selected_walks() {
    let net = vec![
        Staircase::new(0, 10, None, None),
        Staircase::new(2, 6, Some(1), Some(1)),
        Staircase::new(4, 9, Some(2), Some(1)),
    ];
    let t = match PathTable::build(net, vec![1, 2, 3]) {
        Ok(t) => t,
        Err(e) => panic!("unexpected build error {:?}", e),
    };
    let total = t.total_path_count();
    assert!(total > 10);
    for r in 1..=total {
        assert_eq!(t.rank_of_walk(&t.select(r)), Some(r));
    }
}

#[test]
fn rank_of_non_walks() {
    let t = match PathTable::build(side_branch(), vec![1]) {
        Ok(t) => t,
        Err(e) => panic!("unexpected build error {:?}", e),
    };
    assert_eq!(t.rank_of_walk(&vec![]), None);
    assert_eq!(t.rank_of_walk(&vec![node(1, 1), node(1, 2)]), None);
    assert_eq!(t.rank_of_walk(&vec![node(1, 0), node(1, 1)]), None);
    assert_eq!(t.rank_of_walk(&vec![node(1, 0), node(1, 2)]), None);
    let mut past_top = t.select(1);
    past_top.push(node(1, 6));
    assert_eq!(t.rank_of_walk(&past_top), None);
    assert_eq!(t.start(), node(1, 0));
    assert_eq!(t.end(), node(1, 6));
    assert_eq!(t.staircases(), &side_branch());
    assert_eq!(t.allowed_moves(), &vec![1]);
}

#[test]
fn labels_and_rendering() {
    assert_eq!(node(12, 305).label(), b"S12_305".to_vec());
    assert_eq!(node(1, 0).label(), b"S1_0".to_vec());
    assert_eq!(render_path(&vec![]), Vec::<u8>::new());
    assert_eq!(render_path(&vec![node(1, 9), node(2, 10)]), b"S1_9-S2_10".to_vec());
}

#[test]
fn fault_names_its_staircase() {
    assert_eq!(StructuralError::EmptySpan { id: 3 }.staircase_id(), Some(3));
    assert_eq!(StructuralError::SeveralStarts { id: 2 }.staircase_id(), Some(2));
    assert_eq!(StructuralError::MissingStart.staircase_id(), None);
}

#[test]
fn visiting_order_checks_the_network() {
    assert_eq!(visiting_order(&side_branch()), Ok(nodes_to_explore(&side_branch())));
    let bad = vec![Staircase::new(0, 6, None, None), Staircase::new(2, 4, Some(1), Some(9))];
    assert_eq!(visiting_order(&bad), Err(StructuralError::UnknownReturning { id: 2 }));
    let empty = vec![Staircase::new(0, 6, None, None), Staircase::new(4, 4, Some(1), None)];
    assert_eq!(visiting_order(&empty), Err(StructuralError::EmptySpan { id: 2 }));
}
