use eight_puzzle::board::{enc_of, is_valid_board, label_of, Move};
use eight_puzzle::frontier::{Entry, Frontier};
use eight_puzzle::heuristic::find;
use eight_puzzle::search::{Problem, State};

#[test]
fn expand_from_a_corner_blank() {
    let mut p = Problem::new(
        vec![0, 1, 3, 4, 2, 5, 7, 8, 6],
        vec![1, 2, 3, 4, 5, 6, 7, 8, 0],
    );
    let out = p.expand();
    // blank in the top-left corner: only Down and Right are legal, nothing
    // is visited yet, so both survive, in the fixed trial order
    assert_eq!(out, vec![1, 2]);
    assert_eq!(p.no_expanded, 1);
    assert_eq!(p.no_generated, 2);
    assert_eq!(p.arena.len(), 3);
    assert_eq!(p.arena[1].kind, Some(Move::Down));
    assert_eq!(p.arena[1].is, vec![4, 1, 3, 0, 2, 5, 7, 8, 6]);
    assert_eq!(p.arena[1].g, 1);
    assert_eq!(p.arena[1].cost, p.arena[1].g + p.arena[1].h);
    assert_eq!(p.arena[2].kind, Some(Move::Right));
    assert_eq!(p.arena[2].is, vec![1, 0, 3, 4, 2, 5, 7, 8, 6]);
    assert_eq!(p.arena[2].parent, Some(0));
}

#[test]
fn expand_counts_one_expansion_even_when_nothing_survives() {
    let mut p = Problem::new(
        vec![0, 1, 3, 4, 2, 5, 7, 8, 6],
        vec![1, 2, 3, 4, 5, 6, 7, 8, 0],
    );
    let first = p.expand();
    assert_eq!(first.len(), 2);
    assert_eq!(p.no_expanded, 1);
    let again = p.expand();
    // the same two successors are generated again: nothing was visited
    assert_eq!(again.len(), 2);
    assert_eq!(p.no_expanded, 2);
    assert_eq!(p.no_generated, 4);
}

#[test]
fn frontier_pops_cheapest_first() {
    let mut f = Frontier::new();
    for (cost, idx) in [(5isize, 1usize), (3, 2), (8, 3), (3, 4), (1, 5)] {
        f.push(Entry { cost, idx });
    }
    let mut costs = Vec::new();
    while let Some(e) = f.pop() {
        costs.push(e.cost);
    }
    assert_eq!(costs, vec![1, 3, 3, 5, 8]);
}

#[test]
fn frontier_append_keeps_everything() {
    let mut f = Frontier::from_vec(vec![
        Entry { cost: 4, idx: 1 },
        Entry { cost: 2, idx: 2 },
    ]);
    let mut g = Frontier::from_vec(vec![
        Entry { cost: 3, idx: 3 },
        Entry { cost: 1, idx: 4 },
        Entry { cost: 5, idx: 5 },
    ]);
    f.append(&mut g);
    assert_eq!(g.len(), 0);
    assert_eq!(f.len(), 5);
    let mut costs = Vec::new();
    while let Some(e) = f.pop() {
        costs.push(e.cost);
    }
    assert_eq!(costs, vec![1, 2, 3, 4, 5]);
}

#[test]
fn state_ordering_is_inverted_by_cost() {
    let cheap = State {
        is: vec![1, 2, 3, 4, 5, 6, 7, 8, 0],
        cost: 3,
        g: 1,
        h: 2,
        parent: None,
        kind: None,
    };
    let dear = State {
        is: vec![1, 2, 3, 4, 5, 6, 7, 0, 8],
        cost: 9,
        g: 4,
        h: 5,
        parent: None,
        kind: None,
    };
    // the cheaper state ranks higher: it compares greater
    assert!(cheap > dear);
    assert!(dear < cheap);
    let same = State {
        is: vec![0, 1, 2, 3, 4, 5, 6, 7, 8],
        cost: 3,
        g: 0,
        h: 3,
        parent: None,
        kind: None,
    };
    // equality for the ordering is cost equality, not board equality
    assert!(cheap == same);
}

#[test]
fn find_locates_a_value_in_a_grid() {
    let b: Vec<isize> = vec![1, 2, 3, 4, 5, 6, 7, 8, 0];
    let grid: Vec<&[isize]> = vec![&b[0..3], &b[3..6], &b[6..9]];
    assert_eq!(find(&grid, &5), (1, 1));
    assert_eq!(find(&grid, &1), (0, 0));
    assert_eq!(find(&grid, &0), (2, 2));
    assert_eq!(find(&grid, &42), (0, 0));
}

#[test]
fn find_reports_the_last_occurrence() {
    let top: Vec<isize> = vec![2, 7];
    let bottom: Vec<isize> = vec![7, 2];
    let grid: Vec<&[isize]> = vec![&top[..], &bottom[..]];
    assert_eq!(find(&grid, &7), (1, 0));
    assert_eq!(find(&grid, &2), (1, 1));
}

#[test]
fn board_validity_is_checked_exactly() {
    assert!(is_valid_board(&vec![1, 2, 3, 4, 5, 6, 7, 8, 0]));
    assert!(is_valid_board(&vec![8, 7, 6, 5, 4, 3, 2, 1, 0]));
    assert!(!is_valid_board(&vec![1, 2, 3, 4, 5, 6, 7, 8]));
    assert!(!is_valid_board(&vec![1, 2, 3, 4, 5, 6, 7, 8, 9]));
    assert!(!is_valid_board(&vec![1, 1, 3, 4, 5, 6, 7, 8, 0]));
    assert!(!is_valid_board(&vec![-1, 2, 3, 4, 5, 6, 7, 8, 0]));
}

#[test]
fn board_encodings_differ_between_boards() {
    let a = vec![1isize, 2, 3, 4, 5, 6, 7, 8, 0];
    let b = vec![1isize, 2, 3, 4, 5, 6, 7, 0, 8];
    assert_ne!(enc_of(&a), enc_of(&b));
    assert_eq!(enc_of(&a), enc_of(&a.clone()));
    // the base-9 value of the digits read least significant first
    assert_eq!(enc_of(&a), 42374116);
}

#[test]
fn move_labels_spell_the_four_directions() {
    assert_eq!(label_of(Move::Up), "Up");
    assert_eq!(label_of(Move::Down), "Down");
    assert_eq!(label_of(Move::Left), "Left");
    assert_eq!(label_of(Move::Right), "Right");
}
