use countdown::room::has_room;
use countdown::search::{all_solutions, collect_solutions, solve};
use countdown::step::{BinOp, Op};
use countdown::strategy::{pick_best, Strategy};

fn take(tiles: &mut Vec<u32>, v: u32) -> bool {
    match tiles.iter().position(|&t| t == v) {
        Some(at) => {
            tiles.remove(at);
            true
        }
        None => false,
    }
}

fn replays(tiles: &[u32], target: u32, steps: &[BinOp]) -> bool {
    let mut left = tiles.to_vec();
    let mut last = None;
    for step in steps {
        if !take(&mut left, step.l) || !take(&mut left, step.r) {
            return false;
        }
        let expected = match step.op {
            Op::Add => step.l.checked_add(step.r),
            Op::Mul => step.l.checked_mul(step.r),
            Op::Sub => step.l.checked_sub(step.r),
            Op::Div => {
                if step.r != 0 && step.l % step.r == 0 {
                    Some(step.l / step.r)
                } else {
                    None
                }
            }
        };
        if expected.is_none() || step.apply() != expected {
            return false;
        }
        left.push(expected.unwrap());
        last = expected;
    }
    last == Some(target)
}

#[test]
fn solve_finds_a_single_step() {
    assert_eq!(solve(&vec![3, 4], 12), vec![BinOp::new(Op::Mul, 3, 4)]);
    assert_eq!(solve(&vec![3, 4], 7), vec![BinOp::new(Op::Add, 3, 4)]);
    assert_eq!(solve(&vec![3, 4], 1), vec![BinOp::new(Op::Sub, 4, 3)]);
}

#[test]
fn solve_finds_two_steps() {
    let steps = solve(&vec![2, 3, 4], 14);
    assert_eq!(steps.len(), 2);
    assert!(replays(&[2, 3, 4], 14, &steps));
}

#[test]
fn solve_keeps_the_first_of_equally_short_solutions() {
    assert_eq!(
        solve(&vec![2, 3, 4], 14),
        vec![BinOp::new(Op::Add, 3, 4), BinOp::new(Op::Mul, 2, 7)]
    );
}

#[test]
fn solve_returns_nothing_without_a_solution() {
    assert_eq!(solve(&vec![3, 4], 100), vec![]);
    assert_eq!(solve(&vec![5], 5), vec![]);
    assert_eq!(solve(&vec![], 0), vec![]);
}

#[test]
fn solve_six_consecutive_tiles() {
    let tiles = vec![1, 2, 3, 4, 5, 6];
    let steps = solve(&tiles, 21);
    assert_eq!(steps.len(), 2);
    assert!(replays(&tiles, 21, &steps));
}

#[test]
fn the_sum_of_six_consecutive_tiles_is_a_solution() {
    let sum = vec![
        BinOp::new(Op::Add, 1, 2),
        BinOp::new(Op::Add, 3, 3),
        BinOp::new(Op::Add, 6, 4),
        BinOp::new(Op::Add, 10, 5),
        BinOp::new(Op::Add, 15, 6),
    ];
    assert!(replays(&[1, 2, 3, 4, 5, 6], 21, &sum));
    let short = vec![BinOp::new(Op::Mul, 6, 4), BinOp::new(Op::Sub, 24, 3)];
    assert!(replays(&[1, 2, 3, 4, 5, 6], 21, &short));
}

#[test]
fn solve_six_twos_make_three_through_a_quotient() {
    assert_eq!(
        solve(&vec![2, 2, 2, 2, 2, 2], 3),
        vec![BinOp::new(Op::Div, 2, 2), BinOp::new(Op::Add, 1, 2)]
    );
}

#[test]
fn all_solutions_of_six_twos_for_three_need_a_quotient() {
    let tiles = vec![2, 2, 2, 2, 2, 2];
    let found = all_solutions(&tiles, 3);
    assert!(!found.is_empty());
    for steps in &found {
        assert!(replays(&tiles, 3, steps));
        assert!(steps.iter().any(|step| step.op == Op::Div));
    }
}

#[test]
fn solve_six_twos_cannot_make_sixty_five() {
    assert_eq!(solve(&vec![2, 2, 2, 2, 2, 2], 65), vec![]);
}

#[test]
fn all_solutions_of_six_twos_for_sixty_five_are_none() {
    assert_eq!(all_solutions(&vec![2, 2, 2, 2, 2, 2], 65), Vec::<Vec<BinOp>>::new());
}

#[test]
fn six_zeros_make_nothing_but_zero() {
    assert_eq!(solve(&vec![0, 0, 0, 0, 0, 0], 1), vec![]);
    assert_eq!(all_solutions(&vec![0, 0, 0, 0, 0, 0], 1), Vec::<Vec<BinOp>>::new());
    assert_eq!(solve(&vec![0, 0, 0, 0, 0, 0], 0), vec![BinOp::new(Op::Add, 0, 0)]);
}

#[test]
fn solve_with_equal_tiles() {
    let steps = solve(&vec![2, 2, 2], 8);
    assert_eq!(steps.len(), 2);
    assert!(replays(&[2, 2, 2], 8, &steps));
    assert_eq!(solve(&vec![2, 2], 5), vec![]);
}

#[test]
fn solve_twice_gives_the_same() {
    let tiles = vec![3, 7, 25, 50];
    let first = solve(&tiles, 82);
    let second = solve(&tiles, 82);
    assert_eq!(first, second);
    assert!(replays(&tiles, 82, &first));
}

#[test]
fn solve_leaves_out_steps_that_do_not_fit() {
    assert_eq!(solve(&vec![u32::MAX, 1], 0), vec![]);
    assert_eq!(
        solve(&vec![u32::MAX, 1], u32::MAX),
        vec![BinOp::new(Op::Mul, u32::MAX, 1)]
    );
}

#[test]
fn all_solutions_of_two_tiles() {
    assert_eq!(
        all_solutions(&vec![2, 2], 4),
        vec![vec![BinOp::new(Op::Add, 2, 2)], vec![BinOp::new(Op::Mul, 2, 2)]]
    );
    assert_eq!(
        all_solutions(&vec![2, 2], 0),
        vec![vec![BinOp::new(Op::Sub, 2, 2)], vec![BinOp::new(Op::Sub, 2, 2)]]
    );
}

#[test]
fn all_solutions_of_three_tiles_in_order() {
    let found = all_solutions(&vec![1, 2, 3], 6);
    assert_eq!(
        found,
        vec![
            vec![BinOp::new(Op::Add, 1, 2), BinOp::new(Op::Add, 3, 3)],
            vec![BinOp::new(Op::Mul, 1, 2), BinOp::new(Op::Mul, 2, 3)],
            vec![BinOp::new(Op::Div, 2, 1), BinOp::new(Op::Mul, 2, 3)],
            vec![BinOp::new(Op::Add, 1, 3), BinOp::new(Op::Add, 4, 2)],
            vec![BinOp::new(Op::Mul, 1, 3), BinOp::new(Op::Mul, 3, 2)],
            vec![BinOp::new(Op::Div, 3, 1), BinOp::new(Op::Mul, 2, 3)],
            vec![BinOp::new(Op::Add, 2, 3), BinOp::new(Op::Add, 1, 5)],
            vec![BinOp::new(Op::Mul, 2, 3)],
        ]
    );
}

#[test]
fn all_solutions_stop_at_the_target() {
    let found = all_solutions(&vec![1, 2, 3, 4], 3);
    assert!(!found.is_empty());
    for steps in &found {
        assert!(replays(&[1, 2, 3, 4], 3, steps));
        for step in &steps[..steps.len() - 1] {
            assert_ne!(step.apply(), Some(3));
        }
    }
    assert!(found.contains(&vec![BinOp::new(Op::Add, 1, 2)]));
}

#[test]
fn all_solutions_replay() {
    let tiles = vec![2, 3, 5, 7];
    let found = all_solutions(&tiles, 24);
    assert!(!found.is_empty());
    for steps in &found {
        assert!(replays(&tiles, 24, steps));
    }
}

#[test]
fn solve_is_no_longer_than_any_listed_solution() {
    let tiles = vec![2, 3, 5, 7];
    for target in 0u32..60 {
        let shortest = solve(&tiles, target);
        let found = all_solutions(&tiles, target);
        assert_eq!(shortest.is_empty(), found.is_empty());
        for steps in &found {
            assert!(shortest.len() <= steps.len());
        }
        if !shortest.is_empty() {
            assert!(replays(&tiles, target, &shortest));
            assert!(found.iter().any(|steps| steps.len() == shortest.len()));
        }
    }
}

#[test]
fn collect_solutions_adds_to_what_is_there() {
    let before = vec![BinOp::new(Op::Add, 9, 9)];
    let prefix = vec![BinOp::new(Op::Sub, 7, 5)];
    let mut found = vec![before.clone()];
    collect_solutions(&vec![2, 2], 4, &prefix, &mut found);
    assert_eq!(
        found,
        vec![
            before,
            vec![BinOp::new(Op::Sub, 7, 5), BinOp::new(Op::Add, 2, 2)],
            vec![BinOp::new(Op::Sub, 7, 5), BinOp::new(Op::Mul, 2, 2)],
        ]
    );
}

#[test]
fn collect_solutions_of_one_tile_adds_nothing() {
    let mut found: Vec<Vec<BinOp>> = Vec::new();
    collect_solutions(&vec![4], 4, &vec![], &mut found);
    assert!(found.is_empty());
}

#[test]
fn solve_returns_the_first_shortest_of_the_listing() {
    let tiles = vec![1, 3, 4, 6];
    for target in 0u32..80 {
        let found = all_solutions(&tiles, target);
        let shortest = solve(&tiles, target);
        match pick_best(&found, Strategy::Shortest) {
            Ok(best) => assert_eq!(shortest, best),
            Err(_) => assert_eq!(shortest, vec![]),
        }
    }
}

#[test]
fn tiles_of_the_game_have_room() {
    assert!(has_room(&vec![100, 75, 50, 25, 10, 10]));
    assert!(has_room(&vec![1, 2, 3, 4, 5, 6]));
    assert!(has_room(&vec![]));
    assert!(has_room(&vec![u32::MAX]));
    assert!(has_room(&vec![65535, 65535]));
    assert!(has_room(&vec![0, 0, 0, u32::MAX, 0, 0]));
}

#[test]
fn large_tiles_have_no_room() {
    assert!(!has_room(&vec![u32::MAX, 1]));
    assert!(!has_room(&vec![65536, 65535]));
    assert!(!has_room(&vec![100, 100, 100, 100, 100, 100]));
    assert!(!has_room(&vec![u32::MAX, u32::MAX, u32::MAX, u32::MAX, u32::MAX, u32::MAX]));
}

#[test]
fn with_room_every_legal_step_has_a_result() {
    let tiles = vec![100, 75, 50, 25];
    assert!(has_room(&tiles));
    for steps in all_solutions(&tiles, 7500 * 50 * 25) {
        assert!(replays(&tiles, 7500 * 50 * 25, &steps));
    }
    assert_eq!(solve(&tiles, 100 * 75 * 50 * 25).len(), 3);
}
