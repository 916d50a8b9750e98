use pour_sort::bottle::Bottle;
use pour_sort::check::wp_check;
use pour_sort::list::List;
use pour_sort::puzzle::Puzzle;
use pour_sort::solve::{wp_search, wp_solve, Outcome};

/// Apply one maximal legal pour; None when the pour is illegal.
fn pour_once(board: &mut Vec<Vec<u16>>, s: usize, d: usize) -> Option<()> {
    if s >= board.len() || d >= board.len() || s == d {
        return None;
    }
    let fs = board[s].iter().take_while(|&&c| c == 0).count();
    let fd = board[d].iter().take_while(|&&c| c == 0).count();
    if fs == board[s].len() || fd == 0 {
        return None;
    }
    let color = board[s][fs];
    if fd < board[d].len() && board[d][fd] != color {
        return None;
    }
    let run = board[s][fs..].iter().take_while(|&&c| c == color).count();
    let amt = run.min(fd);
    for i in fs..fs + amt {
        board[s][i] = 0;
    }
    for i in fd - amt..fd {
        board[d][i] = color;
    }
    Some(())
}

fn is_terminal(board: &Vec<Vec<u16>>) -> bool {
    board.iter().all(|row| {
        row.iter().all(|&c| c == 0) || (row[0] != 0 && row.iter().all(|&c| c == row[0]))
    })
}

/// Replay a move list as maximal pours; true when all pours are legal and the
/// final state is terminal everywhere.
fn replays_to_terminal(board: &Vec<Vec<u16>>, moves: &[(usize, usize)]) -> bool {
    let mut work = board.clone();
    for &(s, d) in moves {
        if pour_once(&mut work, s, d).is_none() {
            return false;
        }
    }
    is_terminal(&work)
}

/// Exhaustive search over all legal pour sequences on small boards.
fn brute_force_solvable(board: &Vec<Vec<u16>>, seen: &mut Vec<Vec<Vec<u16>>>) -> bool {
    if is_terminal(board) {
        return true;
    }
    if seen.contains(board) {
        return false;
    }
    seen.push(board.clone());
    for s in 0..board.len() {
        for d in 0..board.len() {
            let mut next = board.clone();
            if pour_once(&mut next, s, d).is_some() && brute_force_solvable(&next, seen) {
                return true;
            }
        }
    }
    false
}

const A: u16 = 65;
const B: u16 = 66;

#[test]
fn validator_accepts_divisible_counts() {
    // two colors, each appearing twice, capacity two
    let board = vec![vec![A, B], vec![B, A]];
    assert!(wp_check(&board, 2));
}

#[test]
fn validator_rejects_gap() {
    // an empty slot below a colored cell, although every count divides
    let board = vec![vec![B, 0], vec![B, 0]];
    assert!(!wp_check(&board, 2));
}

#[test]
fn validator_rejects_indivisible_count() {
    // color A appears once; capacity is two
    let board = vec![vec![0, A], vec![B, B]];
    assert!(!wp_check(&board, 2));
}

#[test]
fn validator_idempotent_and_pure() {
    let board = vec![vec![A, B], vec![0, B], vec![0, A]];
    let copy = board.clone();
    let v1 = wp_check(&board, 2);
    let v2 = wp_check(&board, 2);
    assert_eq!(v1, v2);
    assert_eq!(board, copy);
}

#[test]
fn trivial_full_board_needs_no_moves() {
    // one container already full of one color
    let board = vec![vec![A, A]];
    assert!(wp_check(&board, 2));
    let moves = wp_solve(&board, 2);
    assert!(moves.is_empty());
}

#[test]
fn small_solvable_board_three_moves() {
    // capacity 2, containers "AB", "BA", "", "" (first cell accessible)
    let board = vec![vec![A, B], vec![B, A], vec![0, 0], vec![0, 0]];
    assert!(wp_check(&board, 2));
    let moves = wp_solve(&board, 2);
    assert_eq!(moves.len(), 3);
    assert_eq!(moves[0], (0, 2));
    assert_eq!(moves[1], (1, 0));
    assert!(replays_to_terminal(&board, &moves));
    // exactly two containers end full and two end empty
    let mut work = board.clone();
    for &(s, d) in &moves {
        pour_once(&mut work, s, d).unwrap();
    }
    let full = work.iter().filter(|r| r.iter().all(|&c| c != 0)).count();
    let empty = work.iter().filter(|r| r.iter().all(|&c| c == 0)).count();
    assert_eq!(full, 2);
    assert_eq!(empty, 2);
}

#[test]
fn solver_deterministic() {
    let board = vec![vec![A, B], vec![B, A], vec![0, 0], vec![0, 0]];
    let first = wp_solve(&board, 2);
    let second = wp_solve(&board, 2);
    assert_eq!(first, second);
}

#[test]
fn unsolvable_board_returns_empty() {
    // validator-passing, yet no legal pour exists and nothing is terminal
    let board = vec![vec![A, B], vec![B, A]];
    assert!(wp_check(&board, 2));
    let moves = wp_solve(&board, 2);
    assert!(moves.is_empty());
    // confirmed independently: no legal move sequence solves it
    let mut seen = Vec::new();
    assert!(!brute_force_solvable(&board, &mut seen));
    // and it is not already solved, unlike the trivial full board
    assert!(!is_terminal(&board));
}

#[test]
fn solver_capacity_four() {
    let c = 67u16;
    let board = vec![
        vec![A, A, B, B],
        vec![B, B, c, c],
        vec![c, c, A, A],
        vec![0, 0, 0, 0],
        vec![0, 0, 0, 0],
    ];
    assert!(wp_check(&board, 4));
    let moves = wp_solve(&board, 4);
    assert!(!moves.is_empty());
    assert!(replays_to_terminal(&board, &moves));
}

#[test]
fn bottle_encodes_runs() {
    let b = Bottle::new(&vec![0, 0, A, B]);
    assert_eq!(b.air, 2);
    assert_eq!(b.data, vec![(B, 1), (A, 1)]);
    assert!(!b.is_full());
    assert!(!b.is_empty());
}

#[test]
fn bottle_terminal_states() {
    let full = Bottle::new(&vec![A, A, A]);
    assert!(full.is_full());
    assert!(!full.is_empty());
    let empty = Bottle::new(&vec![0, 0, 0]);
    assert!(empty.is_empty());
    assert!(!empty.is_full());
    assert_eq!(empty.air, 3);
}

#[test]
fn list_remove_restore_roundtrip() {
    let mut l = List::new(3);
    assert_eq!(l.iter(), vec![0, 1, 2]);
    l.remove(1);
    assert_eq!(l.iter(), vec![0, 2]);
    l.restore(1);
    assert_eq!(l.iter(), vec![0, 1, 2]);
    l.remove(0);
    l.remove(2);
    assert_eq!(l.iter(), vec![1]);
    l.restore(2);
    l.restore(0);
    assert_eq!(l.iter(), vec![0, 1, 2]);
}

#[test]
fn puzzle_pour_merges_runs() {
    // ids below count: colors 1 and 2, capacity 2, count 3
    let cells = vec![vec![1, 2], vec![2, 1], vec![0, 0]];
    let mut p = Puzzle::new(3, &cells, 2);
    assert!(!p.is_done());
    // pour the top unit of container 0 into the empty container 2
    p.pour(0, 2, 1);
    assert_eq!(p.board[0].air, 1);
    assert_eq!(p.board[0].data, vec![(2, 1)]);
    assert_eq!(p.board[2].air, 1);
    assert_eq!(p.board[2].data, vec![(1, 1)]);
    // pour the top unit of container 1 onto the same color in container 0
    p.pour(1, 0, 1);
    assert_eq!(p.board[0].air, 0);
    assert_eq!(p.board[0].data, vec![(2, 2)]);
    assert!(p.board[0].is_full());
}

#[test]
fn puzzle_hash_tracks_contents() {
    let cells = vec![vec![1, 2], vec![2, 1], vec![0, 0]];
    let p = Puzzle::new(3, &cells, 2);
    let h1 = p.hash();
    let mut q = Puzzle::new(3, &cells, 2);
    assert_eq!(h1, q.hash());
    q.pour(0, 2, 1);
    assert_ne!(h1, q.hash());
}

#[test]
fn puzzle_get_kind_groups_by_top_color() {
    let cells = vec![vec![1, 2], vec![2, 1], vec![0, 0]];
    let p = Puzzle::new(3, &cells, 2);
    let kind = p.get_kind();
    assert_eq!(kind.len(), 3);
    assert_eq!(kind[0], vec![(2, 2, 0)]);
    assert_eq!(kind[1], vec![(0, 0, 1)]);
    assert_eq!(kind[2], vec![(1, 0, 1)]);
}

#[test]
fn solver_agrees_with_brute_force() {
    let board = vec![
        vec![A, B, A, B],
        vec![B, A, B, A],
        vec![0, 0, 0, 0],
        vec![0, 0, 0, 0],
    ];
    assert!(wp_check(&board, 4));
    let moves = wp_solve(&board, 4);
    let mut seen = Vec::new();
    if brute_force_solvable(&board, &mut seen) {
        assert!(!moves.is_empty());
        assert!(replays_to_terminal(&board, &moves));
    } else {
        assert!(moves.is_empty());
    }
}

#[test]
fn search_reports_exhausted() {
    // no legal pour exists and the board is not terminal
    let board = vec![vec![A, B], vec![B, A]];
    assert!(matches!(wp_search(&board, 2, u64::MAX), Outcome::Exhausted));
}

#[test]
fn search_reports_aborted_on_tiny_budget() {
    let board = vec![vec![A, B], vec![B, A], vec![0, 0], vec![0, 0]];
    assert!(matches!(wp_search(&board, 2, 1), Outcome::Aborted));
}

#[test]
fn search_reports_solved() {
    let board = vec![vec![A, B], vec![B, A], vec![0, 0], vec![0, 0]];
    match wp_search(&board, 2, u64::MAX) {
        Outcome::Solved(mv) => assert_eq!(mv.len(), 3),
        _ => panic!("expected a solution"),
    }
    // an already-terminal board is solved by the empty move list
    let done = vec![vec![A, A]];
    match wp_search(&done, 2, u64::MAX) {
        Outcome::Solved(mv) => assert!(mv.is_empty()),
        _ => panic!("expected the solved outcome"),
    }
}

#[test]
fn list_iter_matches_new_and_membership() {
    // a fresh list yields every index ascending; removal takes one out
    let mut l = List::new(5);
    assert_eq!(l.iter(), vec![0, 1, 2, 3, 4]);
    l.remove(3);
    assert_eq!(l.iter(), vec![0, 1, 2, 4]);
    l.remove(0);
    assert_eq!(l.iter(), vec![1, 2, 4]);
    l.restore(0);
    l.restore(3);
    assert_eq!(l.iter(), vec![0, 1, 2, 3, 4]);
}
