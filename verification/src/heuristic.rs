//! Heuristic evaluation: two interchangeable estimates of the distance from a
//! board to a goal board, the Manhattan tile-distance sum and the Hamming
//! mismatch count.  Both range over all nine positions, the blank included,
//! and both are zero exactly on the goal board.

use vstd::prelude::*;

use crate::board::{lemma_pos_of, pos_of, valid_board};

verus! {

/// The heuristic strategy a session uses, fixed for the whole solve.
#[derive(Clone, Copy, PartialEq, Eq, Structural, Debug)]
pub enum Heuristic {
    Manhattan,
    Hamming,
}

pub open spec fn abs_val(x: int) -> int {
    if x < 0 {
        -x
    } else {
        x
    }
}

/// The Manhattan distance of the tile with value `v` between its position on
/// `b` and its position on `g` (row is `i / 3`, column is `i % 3`).
pub open spec fn tile_dist(b: Seq<isize>, g: Seq<isize>, v: isize) -> int {
    abs_val(pos_of(g, v) / 3 - pos_of(b, v) / 3) + abs_val(pos_of(g, v) % 3 - pos_of(b, v) % 3)
}

/// The Manhattan sum over the first `k` goal values.
pub open spec fn manhattan_upto(b: Seq<isize>, g: Seq<isize>, k: int) -> int
    decreases k,
{
    if k <= 0 {
        0
    } else {
        manhattan_upto(b, g, k - 1) + tile_dist(b, g, g[k - 1])
    }
}

/// The Manhattan heuristic: for each value on the goal board, the row distance
/// plus the column distance between its two positions.
pub open spec fn manhattan_spec(b: Seq<isize>, g: Seq<isize>) -> int {
    manhattan_upto(b, g, 9)
}

/// The Hamming count over the first `k` positions.
pub open spec fn hamming_upto(b: Seq<isize>, g: Seq<isize>, k: int) -> int
    decreases k,
{
    if k <= 0 {
        0
    } else {
        hamming_upto(b, g, k - 1) + if b[k - 1] == g[k - 1] {
            0int
        } else {
            1int
        }
    }
}

/// The Hamming heuristic: the number of positions whose values differ.
pub open spec fn hamming_spec(b: Seq<isize>, g: Seq<isize>) -> int {
    hamming_upto(b, g, 9)
}

/// The estimate the selected strategy assigns to a board.
pub open spec fn heuristic_spec(b: Seq<isize>, g: Seq<isize>, h: Heuristic) -> int {
    match h {
        Heuristic::Manhattan => manhattan_spec(b, g),
        Heuristic::Hamming => hamming_spec(b, g),
    }
}

/// Finds the position of value `v` on a valid board.
pub fn find_tile(b: &Vec<isize>, v: isize) -> (p: usize)
    requires
        valid_board(b@),
        0 <= v <= 8,
    ensures
        p as int == pos_of(b@, v),
        p < 9,
        b@[p as int] == v,
{
    proof {
        lemma_pos_of(b@, v);
    }
    let mut p: usize = 0;
    while p < 8 && b[p] != v
        invariant
            p <= 8,
            valid_board(b@),
            0 <= v <= 8,
            forall|j: int| 0 <= j < p ==> b@[j] != v,
        decreases 8 - p,
    {
        p += 1;
    }
    proof {
        lemma_pos_of(b@, v);
        if p == 8 && b@[8] != v {
            assert(!b@.contains(v));
        }
    }
    p
}

proof fn lemma_manhattan_upto_bounds(b: Seq<isize>, g: Seq<isize>, k: int)
    requires
        valid_board(b),
        valid_board(g),
        0 <= k <= 9,
    ensures
        0 <= manhattan_upto(b, g, k) <= 4 * k,
    decreases k,
{
    if k > 0 {
        lemma_manhattan_upto_bounds(b, g, k - 1);
        lemma_pos_of(b, g[k - 1]);
        lemma_pos_of(g, g[k - 1]);
    }
}

proof fn lemma_hamming_upto_bounds(b: Seq<isize>, g: Seq<isize>, k: int)
    requires
        0 <= k <= 9,
    ensures
        0 <= hamming_upto(b, g, k) <= k,
    decreases k,
{
    if k > 0 {
        lemma_hamming_upto_bounds(b, g, k - 1);
    }
}

/// On any valid board, both heuristics give zero against the board itself.
pub proof fn lemma_heuristic_self_zero(b: Seq<isize>, h: Heuristic)
    requires
        valid_board(b),
    ensures
        heuristic_spec(b, b, h) == 0,
{
    lemma_manhattan_upto_self_zero(b, 9);
    lemma_hamming_upto_self_zero(b, 9);
}

proof fn lemma_manhattan_upto_self_zero(b: Seq<isize>, k: int)
    requires
        valid_board(b),
        0 <= k <= 9,
    ensures
        manhattan_upto(b, b, k) == 0,
    decreases k,
{
    if k > 0 {
        lemma_manhattan_upto_self_zero(b, k - 1);
    }
}

proof fn lemma_hamming_upto_self_zero(b: Seq<isize>, k: int)
    requires
        0 <= k <= 9,
    ensures
        hamming_upto(b, b, k) == 0,
    decreases k,
{
    if k > 0 {
        lemma_hamming_upto_self_zero(b, k - 1);
    }
}

proof fn lemma_manhattan_upto_zero_terms(b: Seq<isize>, g: Seq<isize>, k: int, j: int)
    requires
        valid_board(b),
        valid_board(g),
        0 <= j < k <= 9,
        manhattan_upto(b, g, k) == 0,
    ensures
        tile_dist(b, g, g[j]) == 0,
    decreases k,
{
    lemma_manhattan_upto_bounds(b, g, k - 1);
    lemma_pos_of(b, g[k - 1]);
    lemma_pos_of(g, g[k - 1]);
    if j < k - 1 {
        lemma_manhattan_upto_zero_terms(b, g, k - 1, j);
    }
}

proof fn lemma_hamming_upto_zero_terms(b: Seq<isize>, g: Seq<isize>, k: int, j: int)
    requires
        0 <= j < k <= 9,
        hamming_upto(b, g, k) == 0,
    ensures
        b[j] == g[j],
    decreases k,
{
    lemma_hamming_upto_bounds(b, g, k - 1);
    if j < k - 1 {
        lemma_hamming_upto_zero_terms(b, g, k - 1, j);
    }
}

/// A heuristic estimate of zero means the board is the goal board, and
/// conversely; the driving loop recognises the goal by this.
pub proof fn lemma_heuristic_zero_iff_goal(b: Seq<isize>, g: Seq<isize>, h: Heuristic)
    requires
        valid_board(b),
        valid_board(g),
    ensures
        heuristic_spec(b, g, h) == 0 <==> b == g,
{
    if b == g {
        lemma_heuristic_self_zero(b, h);
    }
    if heuristic_spec(b, g, h) == 0 {
        match h {
            Heuristic::Hamming => {
                assert forall|i: int| 0 <= i < 9 implies b[i] == g[i] by {
                    lemma_hamming_upto_zero_terms(b, g, 9, i);
                }
                assert(b =~= g);
            },
            Heuristic::Manhattan => {
                assert forall|i: int| 0 <= i < 9 implies b[i] == g[i] by {
                    let v = g[i];
                    lemma_pos_of(g, v);
                    lemma_pos_of(b, v);
                    assert(pos_of(g, v) == i);
                    lemma_manhattan_upto_zero_terms(b, g, 9, i);
                    let p = pos_of(b, v);
                    assert(p / 3 == i / 3 && p % 3 == i % 3);
                    assert(p == 3 * (p / 3) + p % 3);
                    assert(i == 3 * (i / 3) + i % 3);
                }
                assert(b =~= g);
            },
        }
    }
}

/// Computes the Manhattan heuristic of `b` against `goal`.
pub fn manhattan_value(b: &Vec<isize>, goal: &Vec<isize>) -> (r: isize)
    requires
        valid_board(b@),
        valid_board(goal@),
    ensures
        r == manhattan_spec(b@, goal@),
        0 <= r <= 36,
{
    let mut cost: isize = 0;
    let mut k: usize = 0;
    while k < 9
        invariant
            k <= 9,
            valid_board(b@),
            valid_board(goal@),
            cost == manhattan_upto(b@, goal@, k as int),
            0 <= cost <= 4 * k,
        decreases 9 - k,
    {
        let v = goal[k];
        let gp = find_tile(goal, v);
        let bp = find_tile(b, v);
        let dr = (gp as isize) / 3 - (bp as isize) / 3;
        let dc = (gp as isize) % 3 - (bp as isize) % 3;
        let term = (if dr < 0 {
            -dr
        } else {
            dr
        }) + (if dc < 0 {
            -dc
        } else {
            dc
        });
        proof {
            lemma_pos_of(goal@, v);
            lemma_pos_of(b@, v);
            assert(term == tile_dist(b@, goal@, v));
        }
        cost += term;
        k += 1;
    }
    cost
}

/// Computes the Hamming heuristic of `b` against `goal`.
pub fn hamming_value(b: &Vec<isize>, goal: &Vec<isize>) -> (r: isize)
    requires
        valid_board(b@),
        valid_board(goal@),
    ensures
        r == hamming_spec(b@, goal@),
        0 <= r <= 9,
{
    let mut cost: isize = 0;
    let mut k: usize = 0;
    while k < 9
        invariant
            k <= 9,
            valid_board(b@),
            valid_board(goal@),
            cost == hamming_upto(b@, goal@, k as int),
            0 <= cost <= k,
        decreases 9 - k,
    {
        if b[k] != goal[k] {
            cost += 1;
        }
        k += 1;
    }
    cost
}

/// Evaluates the selected heuristic on `b` against `goal`.
pub fn heuristic_value(b: &Vec<isize>, goal: &Vec<isize>, h: Heuristic) -> (r: isize)
    requires
        valid_board(b@),
        valid_board(goal@),
    ensures
        r == heuristic_spec(b@, goal@, h),
        0 <= r <= 36,
{
    match h {
        Heuristic::Manhattan => manhattan_value(b, goal),
        Heuristic::Hamming => hamming_value(b, goal),
    }
}

/// Whether value `v` occurs in row `i` of the grid.
pub open spec fn row_has(grid: Seq<&[isize]>, i: int, v: isize) -> bool {
    exists|j: int| 0 <= j < grid[i]@.len() && grid[i]@[j] == v
}

/// Finds the two-dimensional indices of a number in a grid of rows, scanning
/// every row: the row reported is the last row that holds the number, and the
/// column is the last column at which any row holds it from that row on;
/// `(0, 0)` when the number is absent.
pub fn find(grid: &Vec<&[isize]>, r: &isize) -> (ret: (isize, isize))
    requires
        grid@.len() <= 0x7fff_ffff,
        forall|i: int| 0 <= i < grid@.len() ==> (#[trigger] grid@[i])@.len() <= 0x7fff_ffff,
    ensures
        (exists|i: int| 0 <= i < grid@.len() && row_has(grid@, i, *r)) ==> {
            &&& 0 <= ret.0 < grid@.len()
            &&& row_has(grid@, ret.0 as int, *r)
            &&& forall|i: int| ret.0 < i < grid@.len() ==> !row_has(grid@, i, *r)
            &&& 0 <= ret.1 < grid@[ret.0 as int]@.len()
            &&& grid@[ret.0 as int]@[ret.1 as int] == *r
            &&& forall|j: int|
                ret.1 < j < grid@[ret.0 as int]@.len() ==> grid@[ret.0 as int]@[j] != *r
        },
        !(exists|i: int| 0 <= i < grid@.len() && row_has(grid@, i, *r)) ==> ret == (0isize, 0isize),
{
    let mut x: usize = 0;
    let mut y: usize = 0;
    let mut seen = false;
    let mut i: usize = 0;
    while i < grid.len()
        invariant
            i <= grid@.len(),
            grid@.len() <= 0x7fff_ffff,
            forall|k: int| 0 <= k < grid@.len() ==> (#[trigger] grid@[k])@.len() <= 0x7fff_ffff,
            !seen ==> x == 0 && y == 0,
            !seen ==> forall|k: int| 0 <= k < i ==> !row_has(grid@, k, *r),
            seen ==> {
                &&& 0 <= (x as int) < i
                &&& row_has(grid@, x as int, *r)
                &&& forall|k: int| x < k < i ==> !row_has(grid@, k, *r)
                &&& (y as int) < grid@[x as int]@.len()
                &&& grid@[x as int]@[y as int] == *r
                &&& forall|j: int| y < j < grid@[x as int]@.len() ==> grid@[x as int]@[j] != *r
            },
        decreases grid@.len() - i,
    {
        let row: &[isize] = grid[i];
        let mut j: usize = 0;
        let mut row_seen = false;
        while j < row.len()
            invariant
                j <= row@.len(),
                row@.len() <= 0x7fff_ffff,
                row@ == grid@[i as int]@,
                i < grid@.len(),
                grid@.len() <= 0x7fff_ffff,
                forall|k: int| 0 <= k < grid@.len() ==> (#[trigger] grid@[k])@.len()
                    <= 0x7fff_ffff,
                !row_seen ==> forall|l: int| 0 <= l < j ==> row@[l] != *r,
                row_seen ==> {
                    &&& x == i
                    &&& (y as int) < j
                    &&& row@[y as int] == *r
                    &&& forall|l: int| y < l < j ==> row@[l] != *r
                },
                !row_seen ==> {
                    &&& (!seen ==> x == 0 && y == 0 && forall|k: int|
                        0 <= k < i ==> !row_has(grid@, k, *r))
                    &&& (seen ==> {
                        &&& 0 <= (x as int) < i
                        &&& row_has(grid@, x as int, *r)
                        &&& forall|k: int| x < k < i ==> !row_has(grid@, k, *r)
                        &&& (y as int) < grid@[x as int]@.len()
                        &&& grid@[x as int]@[y as int] == *r
                        &&& forall|l: int| y < l < grid@[x as int]@.len() ==> grid@[x as int]@[l]
                            != *r
                    })
                },
            decreases row@.len() - j,
        {
            if row[j] == *r {
                x = i;
                y = j;
                row_seen = true;
            }
            j += 1;
        }
        proof {
            if !row_seen {
                assert(!row_has(grid@, i as int, *r));
            }
        }
        if row_seen {
            seen = true;
        }
        i += 1;
    }
    (x as isize, y as isize)
}

} // verus!
