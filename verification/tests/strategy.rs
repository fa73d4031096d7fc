use countdown::puzzle::Puzzle;
use countdown::search::all_solutions;
use countdown::solver::best_solution;
use countdown::step::{BinOp, Op};
use countdown::strategy::{best_index, count_divides, is_better, pick_best, NoSolution, Strategy};

fn add(l: u32, r: u32) -> BinOp {
    BinOp::new(Op::Add, l, r)
}

fn div(l: u32, r: u32) -> BinOp {
    BinOp::new(Op::Div, l, r)
}

#[test]
fn count_divides_counts_divisions_only() {
    assert_eq!(count_divides(&vec![]), 0);
    assert_eq!(count_divides(&vec![add(1, 2), div(6, 3), div(4, 2)]), 2);
    assert_eq!(count_divides(&vec![add(1, 2), BinOp::new(Op::Mul, 2, 2)]), 0);
}

#[test]
fn shortest_prefers_fewer_steps() {
    let one = vec![add(1, 2)];
    let two = vec![add(1, 2), add(3, 3)];
    assert!(is_better(Strategy::Shortest, &one, &two));
    assert!(!is_better(Strategy::Shortest, &two, &one));
    assert!(!is_better(Strategy::Shortest, &one, &one));
}

#[test]
fn longest_prefers_more_steps() {
    let one = vec![add(1, 2)];
    let two = vec![add(1, 2), add(3, 3)];
    assert!(is_better(Strategy::Longest, &two, &one));
    assert!(!is_better(Strategy::Longest, &one, &two));
    assert!(!is_better(Strategy::Longest, &two, &two));
}

#[test]
fn most_divides_prefers_divisions_then_fewer_steps() {
    let plain = vec![add(1, 2)];
    let rich = vec![div(8, 4), div(2, 2)];
    let wordy = vec![add(1, 1), div(8, 4), div(2, 2)];
    assert!(is_better(Strategy::MostDivides, &rich, &plain));
    assert!(!is_better(Strategy::MostDivides, &plain, &rich));
    assert!(is_better(Strategy::MostDivides, &rich, &wordy));
    assert!(!is_better(Strategy::MostDivides, &wordy, &rich));
    assert!(!is_better(Strategy::MostDivides, &rich, &rich));
}

#[test]
fn pick_best_of_nothing_fails() {
    assert_eq!(pick_best(&vec![], Strategy::Shortest), Err(NoSolution));
    assert_eq!(pick_best(&vec![], Strategy::Longest), Err(NoSolution));
    assert_eq!(pick_best(&vec![], Strategy::MostDivides), Err(NoSolution));
    assert_eq!(best_index(&vec![], Strategy::Shortest), None);
}

#[test]
fn pick_best_keeps_the_first_of_equals() {
    let list = vec![
        vec![add(1, 2), add(3, 3)],
        vec![add(5, 1)],
        vec![add(2, 4)],
        vec![add(1, 1), add(2, 2), add(4, 2)],
        vec![add(2, 2), add(1, 1), add(4, 2)],
    ];
    assert_eq!(best_index(&list, Strategy::Shortest), Some(1));
    assert_eq!(pick_best(&list, Strategy::Shortest), Ok(vec![add(5, 1)]));
    assert_eq!(best_index(&list, Strategy::Longest), Some(3));
    assert_eq!(
        pick_best(&list, Strategy::Longest),
        Ok(vec![add(1, 1), add(2, 2), add(4, 2)])
    );
    assert_eq!(best_index(&list, Strategy::MostDivides), Some(1));
}

#[test]
fn pick_best_by_divisions() {
    let list = vec![
        vec![add(1, 2)],
        vec![add(1, 1), div(8, 4), div(2, 2)],
        vec![div(8, 4), div(2, 2)],
        vec![div(4, 2), div(2, 2)],
        vec![div(8, 4)],
    ];
    assert_eq!(best_index(&list, Strategy::MostDivides), Some(2));
    assert_eq!(pick_best(&list, Strategy::MostDivides), Ok(vec![div(8, 4), div(2, 2)]));
}

#[test]
fn pick_best_of_one() {
    let list = vec![vec![add(1, 2)]];
    assert_eq!(pick_best(&list, Strategy::Longest), Ok(vec![add(1, 2)]));
}

#[test]
fn default_strategy_is_shortest() {
    assert_eq!(Strategy::default(), Strategy::Shortest);
}

#[test]
fn strategies_have_names() {
    assert_eq!(Strategy::from_name("shortest"), Some(Strategy::Shortest));
    assert_eq!(Strategy::from_name("longest"), Some(Strategy::Longest));
    assert_eq!(Strategy::from_name("most-divides"), Some(Strategy::MostDivides));
    assert_eq!(Strategy::from_name("Shortest"), None);
    assert_eq!(Strategy::from_name("shortes"), None);
    assert_eq!(Strategy::from_name("shortest "), None);
    assert_eq!(Strategy::from_name(""), None);
}

#[test]
fn most_divides_on_a_puzzle_rich_in_divisions() {
    let tiles = vec![8, 4, 2, 1, 1, 1];
    let p = Puzzle::new(tiles.clone(), 1).unwrap();
    let found = all_solutions(&tiles, 1);
    assert!(!found.is_empty());
    let best = pick_best(&found, Strategy::MostDivides).unwrap();
    assert_eq!(best_solution(&p, Strategy::MostDivides), Ok(best.clone()));
    let most = found.iter().map(|steps| count_divides(steps)).max().unwrap();
    assert_eq!(count_divides(&best), most);
    let fewest = found
        .iter()
        .filter(|steps| count_divides(steps) == most)
        .map(|steps| steps.len())
        .min()
        .unwrap();
    assert_eq!(best.len(), fewest);
}

#[test]
fn best_solution_without_a_solution_fails() {
    let p = Puzzle::new(vec![2, 2, 2, 2, 2, 2], 65).unwrap();
    assert_eq!(best_solution(&p, Strategy::Shortest), Err(NoSolution));
    assert_eq!(best_solution(&p, Strategy::MostDivides), Err(NoSolution));
}

#[test]
fn best_solution_twice_gives_the_same() {
    let p = Puzzle::new(vec![1, 2, 3, 4, 5, 6], 2).unwrap();
    let first = best_solution(&p, Strategy::MostDivides).unwrap();
    let second = best_solution(&p, Strategy::MostDivides).unwrap();
    assert_eq!(first.len(), second.len());
    assert_eq!(count_divides(&first), count_divides(&second));
    assert_eq!(first, second);
}

#[test]
fn shortest_strategy_agrees_with_solve() {
    let p = Puzzle::new(vec![1, 2, 3, 4, 5, 6], 21).unwrap();
    let best = best_solution(&p, Strategy::Shortest).unwrap();
    assert_eq!(best.len(), 2);
    assert_eq!(best.len(), countdown::search::solve(p.values(), 21).len());
}
