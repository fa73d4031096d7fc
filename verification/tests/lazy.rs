use countdown::lazy::Solutions;
use countdown::puzzle::Puzzle;
use countdown::search::{all_solutions, solve};
use countdown::step::{BinOp, Op};

fn puzzle(tiles: [u32; 6], target: u32) -> Puzzle {
    Puzzle::new(tiles.to_vec(), target).unwrap()
}

fn ends_at(steps: &[BinOp], target: u32) -> bool {
    match steps.last() {
        Some(step) => step.apply() == Some(target),
        None => false,
    }
}

#[test]
fn from_puzzle_keeps_the_target() {
    let search = Solutions::from_puzzle(&puzzle([1, 2, 3, 4, 5, 6], 21));
    assert_eq!(search.target(), 21);
}

#[test]
fn first_solution_is_a_shortest_one() {
    let p = puzzle([1, 2, 3, 4, 5, 6], 21);
    let mut search = Solutions::from_puzzle(&p);
    let first = search.next().unwrap();
    assert_eq!(first.len(), solve(p.values(), 21).len());
    assert!(ends_at(&first, 21));
}

#[test]
fn first_solution_of_one_step() {
    let mut search = Solutions::from_puzzle(&puzzle([1, 2, 3, 4, 5, 6], 30));
    assert_eq!(search.next(), Some(vec![BinOp::new(Op::Mul, 5, 6)]));
}

#[test]
fn solutions_come_in_the_order_of_their_length() {
    let mut search = Solutions::from_puzzle(&puzzle([1, 2, 3, 4, 5, 6], 3));
    let mut last = 0;
    for _ in 0..40 {
        let steps = search.next().unwrap();
        assert!(ends_at(&steps, 3));
        assert!(steps.len() >= last);
        last = steps.len();
    }
}

#[test]
fn solutions_go_on_past_the_target() {
    let mut search = Solutions::from_puzzle(&puzzle([1, 1, 1, 1, 1, 2], 2));
    let mut through = false;
    for _ in 0..200 {
        let steps = match search.next() {
            Some(steps) => steps,
            None => break,
        };
        assert!(ends_at(&steps, 2));
        if steps[..steps.len() - 1].iter().any(|step| step.apply() == Some(2)) {
            through = true;
        }
    }
    assert!(through);
}

#[test]
fn one_step_solutions_come_in_the_order_of_the_steps() {
    let mut search = Solutions::from_puzzle(&puzzle([2, 2, 9, 9, 9, 9], 4));
    assert_eq!(search.next(), Some(vec![BinOp::new(Op::Add, 2, 2)]));
    assert_eq!(search.next(), Some(vec![BinOp::new(Op::Mul, 2, 2)]));
}

#[test]
fn short_solutions_are_those_of_the_exhaustive_search() {
    let p = puzzle([1, 2, 3, 4, 5, 6], 3);
    let mut search = Solutions::from_puzzle(&p);
    let mut handed: Vec<Vec<BinOp>> = Vec::new();
    loop {
        let steps = search.next().unwrap();
        if steps.len() > 2 {
            break;
        }
        if steps[..steps.len() - 1].iter().all(|step| step.apply() != Some(3)) {
            handed.push(steps);
        }
    }
    let listed: Vec<Vec<BinOp>> = all_solutions(p.values(), 3)
        .into_iter()
        .filter(|steps| steps.len() <= 2)
        .collect();
    let mut ones: Vec<Vec<BinOp>> = listed.iter().filter(|s| s.len() == 1).cloned().collect();
    let twos: Vec<Vec<BinOp>> = listed.iter().filter(|s| s.len() == 2).cloned().collect();
    ones.extend(twos);
    assert!(!handed.is_empty());
    assert_eq!(handed, ones);
}

#[test]
fn every_solution_handed_out_replays() {
    let tiles = [3, 7, 25, 50, 75, 100];
    let mut search = Solutions::from_puzzle(&puzzle(tiles, 28));
    for _ in 0..30 {
        let steps = search.next().unwrap();
        let mut left = tiles.to_vec();
        for step in &steps {
            let l = left.iter().position(|&t| t == step.l).unwrap();
            left.remove(l);
            let r = left.iter().position(|&t| t == step.r).unwrap();
            left.remove(r);
            left.push(step.apply().unwrap());
        }
        assert!(ends_at(&steps, 28));
    }
}
