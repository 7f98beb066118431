use eight_puzzle::heuristic::{hamming_value, manhattan_value, Heuristic};
use eight_puzzle::search::Problem;

fn labels(words: &[&str]) -> Vec<String> {
    words.iter().map(|w| w.to_string()).collect()
}

// The expanded/generated counts below are those of this engine, which scores
// every candidate board against the goal under both strategies; the two
// strategies disagree on how many nodes they touch, not on the answer.

#[test]
fn manhattan_first_case() {
    let mut p = Problem::new(
        vec![1, 2, 3, 7, 4, 5, 6, 8, 0],
        vec![1, 2, 3, 8, 6, 4, 7, 5, 0],
    );
    let sol = p.solve(Heuristic::Manhattan).unwrap();
    assert_eq!(
        sol.moves,
        labels(&["Up", "Left", "Down", "Left", "Up", "Right", "Down", "Right"])
    );
    assert_eq!(sol.expanded_count, 11);
    assert_eq!(sol.generated_count, 22);
}

#[test]
fn hamming_first_case() {
    let mut p = Problem::new(
        vec![1, 2, 3, 7, 4, 5, 6, 8, 0],
        vec![1, 2, 3, 8, 6, 4, 7, 5, 0],
    );
    let sol = p.solve(Heuristic::Hamming).unwrap();
    assert_eq!(
        sol.moves,
        labels(&["Up", "Left", "Down", "Left", "Up", "Right", "Down", "Right"])
    );
    assert_eq!(sol.expanded_count, 18);
    assert_eq!(sol.generated_count, 34);
}

#[test]
fn manhattan_second_case() {
    let mut p = Problem::new(
        vec![2, 8, 1, 3, 4, 6, 7, 5, 0],
        vec![3, 2, 1, 8, 0, 4, 7, 5, 6],
    );
    let sol = p.solve(Heuristic::Manhattan).unwrap();
    assert_eq!(
        sol.moves,
        labels(&["Up", "Left", "Up", "Left", "Down", "Right"])
    );
    assert_eq!(sol.expanded_count, 6);
    assert_eq!(sol.generated_count, 13);
}

#[test]
fn hamming_second_case() {
    let mut p = Problem::new(
        vec![2, 8, 1, 3, 4, 6, 7, 5, 0],
        vec![3, 2, 1, 8, 0, 4, 7, 5, 6],
    );
    let sol = p.solve(Heuristic::Hamming).unwrap();
    assert_eq!(
        sol.moves,
        labels(&["Up", "Left", "Up", "Left", "Down", "Right"])
    );
    assert_eq!(sol.expanded_count, 7);
    assert_eq!(sol.generated_count, 15);
}

#[test]
fn manhattan_third_case() {
    let mut p = Problem::new(
        vec![0, 1, 3, 4, 2, 5, 7, 8, 6],
        vec![1, 2, 3, 4, 5, 6, 7, 8, 0],
    );
    let sol = p.solve(Heuristic::Manhattan).unwrap();
    assert_eq!(sol.moves, labels(&["Right", "Down", "Right", "Down"]));
    assert_eq!(sol.expanded_count, 4);
    assert_eq!(sol.generated_count, 10);
}

#[test]
fn hamming_third_case() {
    let mut p = Problem::new(
        vec![0, 1, 3, 4, 2, 5, 7, 8, 6],
        vec![1, 2, 3, 4, 5, 6, 7, 8, 0],
    );
    let sol = p.solve(Heuristic::Hamming).unwrap();
    assert_eq!(sol.moves, labels(&["Right", "Down", "Right", "Down"]));
    assert_eq!(sol.expanded_count, 4);
    assert_eq!(sol.generated_count, 10);
}

#[test]
fn replaying_a_solution_reaches_the_goal() {
    let initial: Vec<isize> = vec![1, 2, 3, 7, 4, 5, 6, 8, 0];
    let goal: Vec<isize> = vec![1, 2, 3, 8, 6, 4, 7, 5, 0];
    let mut p = Problem::new(initial.clone(), goal.clone());
    let sol = p.solve(Heuristic::Manhattan).unwrap();
    let mut board = initial;
    for m in sol.moves.iter() {
        let blank = board.iter().position(|&x| x == 0).unwrap();
        let target = match m.as_str() {
            "Up" => blank - 3,
            "Down" => blank + 3,
            "Left" => blank - 1,
            _ => blank + 1,
        };
        board.swap(blank, target);
    }
    assert_eq!(board, goal);
}

#[test]
fn already_solved_needs_no_moves() {
    let board: Vec<isize> = vec![1, 2, 3, 4, 5, 6, 7, 8, 0];
    let mut p = Problem::new(board.clone(), board);
    let sol = p.solve(Heuristic::Manhattan).unwrap();
    assert!(sol.moves.is_empty());
    assert_eq!(sol.expanded_count, 0);
    assert_eq!(sol.generated_count, 0);
}

#[test]
fn unsolvable_exhausts_frontier() {
    let mut p = Problem::new(
        vec![0, 3, 1, 4, 2, 5, 7, 8, 6],
        vec![1, 2, 3, 4, 5, 6, 7, 8, 0],
    );
    assert!(p.solve(Heuristic::Manhattan).is_err());
}

#[test]
fn repeated_solves_agree() {
    let initial = vec![1, 2, 3, 7, 4, 5, 6, 8, 0];
    let goal = vec![1, 2, 3, 8, 6, 4, 7, 5, 0];
    let mut a = Problem::new(initial.clone(), goal.clone());
    let sa = a.solve(Heuristic::Manhattan).unwrap();
    let mut b = Problem::new(initial, goal);
    let sb = b.solve(Heuristic::Manhattan).unwrap();
    assert_eq!(sa.moves, sb.moves);
    assert_eq!(sa.expanded_count, sb.expanded_count);
    assert_eq!(sa.generated_count, sb.generated_count);
}

#[test]
fn heuristics_are_zero_on_the_goal_itself() {
    let boards = [
        vec![1isize, 2, 3, 4, 5, 6, 7, 8, 0],
        vec![0isize, 3, 1, 4, 2, 5, 7, 8, 6],
        vec![8isize, 7, 6, 5, 4, 3, 2, 1, 0],
    ];
    for b in boards.iter() {
        assert_eq!(manhattan_value(b, b), 0);
        assert_eq!(hamming_value(b, b), 0);
    }
}

#[test]
fn heuristic_values_on_a_near_goal_board() {
    let b = vec![1isize, 2, 3, 4, 5, 6, 7, 0, 8];
    let g = vec![1isize, 2, 3, 4, 5, 6, 7, 8, 0];
    assert_eq!(hamming_value(&b, &g), 2);
    assert_eq!(manhattan_value(&b, &g), 2);
}

#[test]
fn heuristic_counts_the_blank_too() {
    // tiles 2..=8 all in place; only the tile 1 and the blank are swapped, so
    // both strategies count two cells, the blank's among them
    let b = vec![0isize, 1, 2, 3, 4, 5, 6, 7, 8];
    let g = vec![1isize, 0, 2, 3, 4, 5, 6, 7, 8];
    assert_eq!(hamming_value(&b, &g), 2);
    assert_eq!(manhattan_value(&b, &g), 2);
}
