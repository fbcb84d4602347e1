use tile_game::board::Board;
use tile_game::search::{factorial, find_all_boards_iteratively, Search, SearchStep};

#[test]
fn factorial_values() {
    assert_eq!(factorial(0), 1);
    assert_eq!(factorial(1), 1);
    assert_eq!(factorial(4), 24);
    assert_eq!(factorial(9), 362_880);
    assert_eq!(factorial(12), 479_001_600);
}

#[test]
fn two_by_two_puzzle_reaches_half_the_permutations() {
    let board = Board::new(vec![0, 1, 2, 3], &(2, 2));
    assert_eq!(find_all_boards_iteratively(board, factorial(4) / 2), Some(12));
}

#[test]
fn two_by_three_puzzle_reaches_half_the_permutations() {
    let board = Board::new((0..6).collect(), &(2, 3));
    assert_eq!(find_all_boards_iteratively(board, factorial(6) / 2), Some(360));
}

#[test]
fn single_cell_puzzle_has_one_state() {
    let board = Board::new(vec![0], &(1, 1));
    assert_eq!(find_all_boards_iteratively(board, 1), Some(1));
}

#[test]
fn three_by_three_puzzle_reaches_half_the_permutations() {
    let board = Board::new((0..9).collect(), &(3, 3));
    let n_solns = factorial(9) / 2;
    assert_eq!(find_all_boards_iteratively(board, n_solns), Some(181_440));
}

#[test]
fn undersized_estimate_still_counts_everything() {
    let board = Board::new((0..6).collect(), &(3, 2));
    assert_eq!(find_all_boards_iteratively(board, 1), Some(360));
}

/// Runs a search to its end, keeping spilled batches in memory and checking
/// that each one asked back is the newest kept.
fn run_search(mut search: Search) -> usize {
    let mut kept: Vec<Vec<Board>> = Vec::new();
    loop {
        match search.step() {
            SearchStep::Done(n) => return n,
            SearchStep::Full(n) => panic!("the set filled up after {n} boards"),
            SearchStep::Expanded(mut batches) => kept.append(&mut batches),
            SearchStep::Reload => search.reload(kept.pop().unwrap()),
        }
    }
}

#[test]
fn search_with_a_small_spilling_frontier() {
    let board = Board::new(vec![1, 2, 3, 4, 5, 6, 7, 0], &(2, 4));
    assert_eq!(run_search(Search::new(board, 20_160, 16)), 20_160);
}

#[test]
fn search_with_the_smallest_frontier() {
    let board = Board::new((0..6).collect(), &(2, 3));
    assert_eq!(run_search(Search::new(board, 360, 2)), 360);
}

#[test]
fn search_steps_report_spills_and_reloads() {
    let board = Board::new((0..6).collect(), &(3, 2));
    let mut search = Search::new(board, 360, 4);
    let mut kept: Vec<Vec<Board>> = Vec::new();
    let (mut spilled, mut reloaded) = (0, 0);
    let n = loop {
        match search.step() {
            SearchStep::Done(n) => break n,
            SearchStep::Full(n) => panic!("the set filled up after {n} boards"),
            SearchStep::Expanded(mut batches) => {
                assert!(batches.iter().all(|b| b.len() == 2));
                spilled += batches.len();
                kept.append(&mut batches);
            }
            SearchStep::Reload => {
                reloaded += 1;
                search.reload(kept.pop().unwrap());
            }
        }
    };
    assert_eq!(n, 360);
    assert!(spilled > 0);
    assert_eq!(spilled, reloaded);
    assert!(kept.is_empty());
    // A finished search stays finished.
    assert!(matches!(search.step(), SearchStep::Done(360)));
}

#[test]
fn board_count_does_not_depend_on_the_estimate() {
    for estimate in [0, 1, 360, 100_000] {
        let board = Board::new((0..6).collect(), &(2, 3));
        assert_eq!(find_all_boards_iteratively(board, estimate), Some(360));
    }
}
