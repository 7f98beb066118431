//! The search engine: states, the session that owns the frontier and the
//! visited set, successor generation, the best-first driving loop, and
//! backward path reconstruction.

use vstd::prelude::*;
use vstd::seq_lib::group_to_multiset_ensures;
use vstd::std_specs::hash::group_hash_axioms;

use core::cmp::Ordering;
use std::collections::HashSet;

use crate::board::{
    apply_move, apply_moves, blank_of, boards_equal, clone_board, enc_key, enc_of, enc_spec,
    label_of, label_spec, lemma_apply_move_valid, lemma_apply_moves_push, lemma_enc_bound,
    lemma_enc_injective, lemma_pos_of, lemma_pow9_9, move_legal, swap_tiles, valid_board, Move,
};
use crate::frontier::{is_heap, Entry, Frontier, FRONTIER_CAP};
use crate::heuristic::{
    find_tile, heuristic_spec, heuristic_value, lemma_heuristic_zero_iff_goal, Heuristic,
};

verus! {

broadcast use group_hash_axioms, group_to_multiset_ensures, vstd::multiset::group_multiset_axioms;

/// The driving loop gives up after this many expansions; the bound exists so
/// that every loop of the library provably terminates, and it is far beyond
/// what any 8-puzzle search can visit.
pub const MAX_EXPANDED: isize = 0x40_0000;

/// One search node: a board, its bookkeeping costs, and the handle of the
/// state it was generated from.
pub struct State {
    /// The board arrangement of this node.
    pub is: Vec<isize>,
    /// Total estimated cost `g + h`, the priority key (zero on the root).
    pub cost: isize,
    /// Moves taken from the root.
    pub g: isize,
    /// The heuristic estimate against the session goal (a placeholder on the
    /// root, which is never scored).
    pub h: isize,
    /// The arena handle of the parent state; absent on the root.
    pub parent: Option<usize>,
    /// The move that produced this state from its parent; absent on the root.
    pub kind: Option<Move>,
}

/// States order by `cost` alone, inverted, so that inside a maximum-first
/// priority container the state with the least total cost ranks highest.
/// Equality for this ordering is equality of `cost`, not of boards.
impl PartialEq for State {
    fn eq(&self, other: &State) -> (r: bool) {
        self.cost == other.cost
    }
}

impl vstd::std_specs::cmp::PartialEqSpecImpl for State {
    open spec fn obeys_eq_spec() -> bool {
        true
    }

    open spec fn eq_spec(&self, other: &State) -> bool {
        self.cost == other.cost
    }
}

impl Eq for State {

}

impl PartialOrd for State {
    fn partial_cmp(&self, other: &State) -> (r: Option<Ordering>) {
        if other.cost < self.cost {
            Some(Ordering::Less)
        } else if other.cost == self.cost {
            Some(Ordering::Equal)
        } else {
            Some(Ordering::Greater)
        }
    }
}

impl vstd::std_specs::cmp::PartialOrdSpecImpl for State {
    open spec fn obeys_partial_cmp_spec() -> bool {
        true
    }

    open spec fn partial_cmp_spec(&self, other: &State) -> Option<Ordering> {
        if other.cost < self.cost {
            Some(Ordering::Less)
        } else if other.cost == self.cost {
            Some(Ordering::Equal)
        } else {
            Some(Ordering::Greater)
        }
    }
}

/// Well-formedness of the state at arena position `i`: a valid board, sane
/// cost bookkeeping, and a backward link to an earlier state that this
/// state's board follows from by one legal move.
pub open spec fn wf_state_at(sts: Seq<State>, i: int) -> bool {
    let s = sts[i];
    &&& valid_board(s.is@)
    &&& 0 <= s.h <= 999
    &&& match s.parent {
        Option::None => s.g == 0 && s.kind is None && s.cost == 0 && s.h == 999,
        Option::Some(p) => {
            &&& 0 <= (p as int) < i
            &&& s.kind is Some
            &&& move_legal(blank_of(sts[p as int].is@), s.kind.unwrap())
            &&& s.is@ == apply_move(sts[p as int].is@, s.kind.unwrap())
            &&& s.g == sts[p as int].g + 1
            &&& s.cost == s.g + s.h
        },
    }
}

/// The moves that lead from the root to arena position `i`, read off the
/// backward links.
pub open spec fn chain_moves(sts: Seq<State>, i: int) -> Seq<Move>
    decreases i,
{
    match sts[i].parent {
        Option::None => Seq::<Move>::empty(),
        Option::Some(p) => if 0 <= (p as int) < i {
            chain_moves(sts, p as int).push(
                match sts[i].kind {
                    Option::Some(m) => m,
                    Option::None => Move::Up,
                },
            )
        } else {
            Seq::<Move>::empty()
        },
    }
}

/// Replaying the backward-link chain of any well-formed state from the root
/// board reproduces that state's board, in as many moves as its path cost.
pub proof fn lemma_chain_replay(sts: Seq<State>, i: int)
    requires
        0 <= i < sts.len(),
        forall|j: int| 0 <= j < sts.len() ==> #[trigger] wf_state_at(sts, j),
        forall|j: int| 1 <= j < sts.len() ==> (#[trigger] sts[j]).parent is Some,
    ensures
        chain_moves(sts, i).len() == sts[i].g,
        apply_moves(sts[0].is@, chain_moves(sts, i)) == sts[i].is@,
    decreases i,
{
    assert(wf_state_at(sts, i));
    match sts[i].parent {
        Option::None => {
            assert(i == 0);
            assert(apply_moves(sts[i].is@, Seq::<Move>::empty()) == sts[i].is@);
            assert(sts[i].g == 0);
        },
        Option::Some(p) => {
            let m = sts[i].kind.unwrap();
            lemma_chain_replay(sts, p as int);
            lemma_apply_moves_push(sts[0].is@, chain_moves(sts, p as int), m);
        },
    }
}

/// Whether the move `m` from board `b` yields a candidate that survives the
/// visited-set check.
pub open spec fn survives(b: Seq<isize>, visited: Set<u64>, m: Move) -> bool {
    move_legal(blank_of(b), m) && !visited.contains(enc_key(apply_move(b, m)))
}

/// The moves whose candidates one expansion emits, in the fixed trial order
/// Up, Down, Left, Right.
pub open spec fn survivors(b: Seq<isize>, visited: Set<u64>) -> Seq<Move> {
    let s0 = if survives(b, visited, Move::Up) {
        seq![Move::Up]
    } else {
        Seq::<Move>::empty()
    };
    let s1 = if survives(b, visited, Move::Down) {
        s0.push(Move::Down)
    } else {
        s0
    };
    let s2 = if survives(b, visited, Move::Left) {
        s1.push(Move::Left)
    } else {
        s1
    };
    if survives(b, visited, Move::Right) {
        s2.push(Move::Right)
    } else {
        s2
    }
}

/// What one successful generation writes into the arena.
pub open spec fn child_matches(
    s: State,
    par: State,
    pidx: usize,
    m: Move,
    goal: Seq<isize>,
    heur: Heuristic,
) -> bool {
    &&& s.is@ == apply_move(par.is@, m)
    &&& s.g == par.g + 1
    &&& s.h == heuristic_spec(s.is@, goal, heur)
    &&& s.cost == s.g + s.h
    &&& s.parent == Some(pidx)
    &&& s.kind == Some(m)
}

/// One solve session: the arena of states, the current state, the goal, the
/// visited set (keyed by board encoding), the frontier, and the two counters.
pub struct Problem {
    /// Every state this session has created; position 0 is the root.
    pub arena: Vec<State>,
    /// The arena handle of the state being expanded.
    pub current: usize,
    /// The goal arrangement, fixed for the session.
    pub goal_state: Vec<isize>,
    /// Encodings of every board already adopted as `current` by a pop.
    pub visited: HashSet<u64>,
    /// Generated-but-not-yet-visited candidates, ranked by total cost.
    pub under_consideration: Frontier,
    /// How many states have been generated (survived the visited check).
    pub no_generated: isize,
    /// How many expansions have run.
    pub no_expanded: isize,
    /// The heuristic this session scores candidates with.
    pub heuristic: Heuristic,
}

/// The result of a successful solve.
#[derive(Debug)]
pub struct Solution {
    /// The reported move labels, from the root forward.
    pub moves: Vec<String>,
    /// How many nodes the search expanded.
    pub expanded_count: isize,
    /// How many nodes the search generated.
    pub generated_count: isize,
}

/// The sole failure of a solve: the frontier was exhausted (or the expansion
/// bound was reached) without meeting the goal.
#[derive(Clone, Copy, PartialEq, Eq, Structural, Debug)]
pub struct Fatal;

impl Problem {
    /// The session invariant.
    pub open spec fn wf(self) -> bool {
        &&& valid_board(self.goal_state@)
        &&& 1 <= self.arena@.len()
        &&& (self.current as int) < self.arena@.len()
        &&& forall|i: int| 0 <= i < self.arena@.len() ==> #[trigger] wf_state_at(self.arena@, i)
        &&& forall|i: int|
            1 <= i < self.arena@.len() ==> (#[trigger] self.arena@[i]).parent is Some
        &&& forall|i: int|
            1 <= i < self.arena@.len() ==> (#[trigger] self.arena@[i]).h == heuristic_spec(
                self.arena@[i].is@,
                self.goal_state@,
                self.heuristic,
            )
        &&& forall|i: int|
            0 <= i < self.arena@.len() ==> (#[trigger] self.arena@[i]).g <= self.no_expanded
        &&& 0 <= self.no_expanded <= MAX_EXPANDED
        &&& 0 <= self.no_generated <= 4 * self.no_expanded
        &&& self.arena@.len() <= 1 + self.no_generated
    }

    /// A session on which no expansion has run yet.
    pub open spec fn is_fresh(self) -> bool {
        &&& self.arena@.len() == 1
        &&& self.current == 0
        &&& self.visited@ == Set::<u64>::empty()
        &&& self.under_consideration@ == Seq::<Entry>::empty()
        &&& self.no_expanded == 0
        &&& self.no_generated == 0
    }

    /// Constructs a session from an initial and a goal arrangement.  Both
    /// must be permutations of 0 through 8; `crate::board::is_valid_board`
    /// decides that.  The heuristic starts as Manhattan until `solve` picks.
    pub fn new(init_state: Vec<isize>, goal_state: Vec<isize>) -> (p: Problem)
        requires
            valid_board(init_state@),
            valid_board(goal_state@),
        ensures
            p.wf(),
            p.is_fresh(),
            p.arena@[0].is@ == init_state@,
            p.goal_state@ == goal_state@,
            p.heuristic == Heuristic::Manhattan,
            is_heap(p.under_consideration@),
    {
        let root = State {
            is: init_state,
            cost: 0,
            g: 0,
            h: 999,
            parent: None,
            kind: None,
        };
        let mut arena: Vec<State> = Vec::new();
        arena.push(root);
        Problem {
            arena,
            current: 0,
            goal_state,
            visited: HashSet::new(),
            under_consideration: Frontier::new(),
            no_generated: 0,
            no_expanded: 0,
            heuristic: Heuristic::Manhattan,
        }
    }

    /// Tries one direction from the current state: builds the swapped board,
    /// discards it silently when its encoding is already visited, and
    /// otherwise scores it and appends the new state to the arena and its
    /// handle to `out`.
    #[verifier::rlimit(100)]
    fn try_move(&mut self, loc: usize, m: Move, out: &mut Vec<usize>)
        requires
            old(self).wf(),
            loc as int == blank_of(old(self).arena@[old(self).current as int].is@),
            move_legal(loc as int, m),
            old(self).arena@[old(self).current as int].g < old(self).no_expanded,
            old(self).no_generated < 4 * old(self).no_expanded,
        ensures
            ({
                let b = old(self).arena@[old(self).current as int].is@;
                let b2 = apply_move(b, m);
                &&& (!old(self).visited@.contains(enc_key(b2)) ==> {
                    &&& final(self).arena@.len() == old(self).arena@.len() + 1
                    &&& forall|k: int|
                        0 <= k < old(self).arena@.len() ==> final(self).arena@[k] == old(
                            self,
                        ).arena@[k]
                    &&& child_matches(
                        final(self).arena@.last(),
                        old(self).arena@[old(self).current as int],
                        old(self).current,
                        m,
                        old(self).goal_state@,
                        old(self).heuristic,
                    )
                    &&& final(out)@ == old(out)@.push((old(self).arena@.len()) as usize)
                    &&& final(self).no_generated == old(self).no_generated + 1
                })
                &&& (old(self).visited@.contains(enc_key(b2)) ==> {
                    &&& final(self).arena@ == old(self).arena@
                    &&& final(out)@ == old(out)@
                    &&& final(self).no_generated == old(self).no_generated
                })
            }),
            final(self).wf(),
            final(self).current == old(self).current,
            final(self).goal_state@ == old(self).goal_state@,
            final(self).visited == old(self).visited,
            final(self).under_consideration == old(self).under_consideration,
            final(self).no_expanded == old(self).no_expanded,
            final(self).heuristic == old(self).heuristic,
    {
        let ghost b = self.arena@[self.current as int].is@;
        let cur = self.current;
        let mut nb = clone_board(&self.arena[cur].is);
        proof {
            assert(wf_state_at(self.arena@, cur as int));
            lemma_pos_of(b, 0);
        }
        let tgt: usize = match m {
            Move::Up => loc - 3,
            Move::Down => loc + 3,
            Move::Left => loc - 1,
            Move::Right => loc + 1,
        };
        swap_tiles(&mut nb, loc, tgt);
        proof {
            assert(nb@ == apply_move(b, m));
            lemma_apply_move_valid(b, m);
        }
        let key = enc_of(&nb);
        if !self.visited.contains(&key) {
            let h = heuristic_value(&nb, &self.goal_state, self.heuristic);
            let g = self.arena[cur].g + 1;
            let idx = self.arena.len();
            let child = State {
                is: nb,
                cost: g + h,
                g,
                h,
                parent: Some(cur),
                kind: Some(m),
            };
            self.arena.push(child);
            out.push(idx);
            self.no_generated = self.no_generated + 1;
            proof {
                let a1 = self.arena@;
                let a0 = old(self).arena@;
                assert(a1.last() == a1[idx as int]);
                assert forall|i: int| 0 <= i < a1.len() implies #[trigger] wf_state_at(a1, i) by {
                    if i < idx {
                        assert(wf_state_at(a0, i));
                        assert(a1[i] == a0[i]);
                        match a0[i].parent {
                            Option::None => {},
                            Option::Some(p) => {
                                assert(a1[p as int] == a0[p as int]);
                            },
                        }
                    } else {
                        assert(a1[i] == child);
                        assert(a1[cur as int] == a0[cur as int]);
                    }
                }
            }
        }
    }

    /// Expands the current state: counts one expansion, tries the four
    /// directions in the order Up, Down, Left, Right, and returns the arena
    /// handles of the candidates that survived the visited check, in that
    /// order.  Exactly one expansion is counted per call, and exactly one
    /// generation per emitted candidate.
    #[verifier::rlimit(100)]
    pub fn expand(&mut self) -> (r: Vec<usize>)
        requires
            old(self).wf(),
            old(self).no_expanded < MAX_EXPANDED,
        ensures
            final(self).wf(),
            ({
                let b = old(self).arena@[old(self).current as int].is@;
                let ms = survivors(b, old(self).visited@);
                let n0 = old(self).arena@.len() as int;
                &&& final(self).no_expanded == old(self).no_expanded + 1
                &&& final(self).no_generated == old(self).no_generated + ms.len()
                &&& final(self).arena@.len() == n0 + ms.len()
                &&& forall|k: int| 0 <= k < n0 ==> final(self).arena@[k] == old(self).arena@[k]
                &&& forall|k: int|
                    0 <= k < ms.len() ==> child_matches(
                        #[trigger] final(self).arena@[n0 + k],
                        old(self).arena@[old(self).current as int],
                        old(self).current,
                        ms[k],
                        old(self).goal_state@,
                        old(self).heuristic,
                    )
                &&& r@.len() == ms.len()
                &&& forall|k: int| 0 <= k < ms.len() ==> r@[k] == n0 + k
            }),
            final(self).current == old(self).current,
            final(self).goal_state@ == old(self).goal_state@,
            final(self).visited == old(self).visited,
            final(self).under_consideration == old(self).under_consideration,
            final(self).heuristic == old(self).heuristic,
    {
        let ghost b = self.arena@[self.current as int].is@;
        let ghost vis = self.visited@;
        proof {
            assert(wf_state_at(self.arena@, self.current as int));
            lemma_pos_of(b, 0);
        }
        let cur = self.current;
        let loc = find_tile(&self.arena[cur].is, 0);
        self.no_expanded = self.no_expanded + 1;
        let mut out: Vec<usize> = Vec::new();
        let ghost n0 = self.arena@.len() as int;
        let ghost s0 = if survives(b, vis, Move::Up) {
            seq![Move::Up]
        } else {
            Seq::<Move>::empty()
        };
        let ghost s1 = if survives(b, vis, Move::Down) {
            s0.push(Move::Down)
        } else {
            s0
        };
        let ghost s2 = if survives(b, vis, Move::Left) {
            s1.push(Move::Left)
        } else {
            s1
        };
        let ghost s3 = if survives(b, vis, Move::Right) {
            s2.push(Move::Right)
        } else {
            s2
        };
        if loc / 3 != 0 {
            self.try_move(loc, Move::Up, &mut out);
        }
        if loc / 3 != 2 {
            self.try_move(loc, Move::Down, &mut out);
        }
        if loc % 3 != 0 {
            self.try_move(loc, Move::Left, &mut out);
        }
        if loc % 3 != 2 {
            self.try_move(loc, Move::Right, &mut out);
        }
        proof {
            assert(survivors(b, vis) == s3);
        }
        out
    }

    /// Walks the backward links from the current state to the root and
    /// reports, in forward (root-first) order, the move labels of the whole
    /// chain; the root's sentinel is not a move and is not reported.  On the
    /// root itself the list is empty.
    pub fn trace_soln(&self) -> (r: Vec<String>)
        requires
            self.wf(),
        ensures
            ({
                let ms = chain_moves(self.arena@, self.current as int);
                &&& r@.len() == ms.len()
                &&& forall|k: int| 0 <= k < ms.len() ==> (#[trigger] r@[k])@ == label_spec(ms[k])
            }),
    {
        let ghost target = chain_moves(self.arena@, self.current as int);
        let mut rev: Vec<String> = Vec::new();
        let ghost mut collected = Seq::<Move>::empty();
        proof {
            assert(wf_state_at(self.arena@, self.current as int));
            assert(target == chain_moves(self.arena@, self.current as int)
                + Seq::<Move>::empty().reverse()) by {
                assert(target =~= target + Seq::<Move>::empty().reverse());
            }
        }
        let mut cursor: Option<usize> = Some(self.current);
        while cursor.is_some()
            invariant
                self.wf(),
                match cursor {
                    Option::Some(q) => {
                        &&& (q as int) < self.arena@.len()
                        &&& target == chain_moves(self.arena@, q as int) + collected.reverse()
                    },
                    Option::None => target == collected.reverse(),
                },
                rev@.len() == collected.len(),
                forall|k: int|
                    0 <= k < collected.len() ==> (#[trigger] rev@[k])@ == label_spec(collected[k]),
            decreases (match cursor {
                Option::Some(q) => q as int + 1,
                Option::None => 0int,
            }),
        {
            let p = cursor.unwrap();
            proof {
                assert(wf_state_at(self.arena@, p as int));
            }
            match self.arena[p].kind {
                Option::Some(m) => {
                    rev.push(label_of(m));
                    proof {
                        let q2 = self.arena@[p as int].parent.unwrap();
                        assert(chain_moves(self.arena@, p as int) == chain_moves(
                            self.arena@,
                            q2 as int,
                        ).push(m));
                        assert(chain_moves(self.arena@, q2 as int) + collected.push(m).reverse()
                            =~= chain_moves(self.arena@, p as int) + collected.reverse());
                    }
                },
                Option::None => {
                    proof {
                        assert(chain_moves(self.arena@, p as int) == Seq::<Move>::empty());
                        assert(Seq::<Move>::empty() + collected.reverse() =~= collected.reverse());
                    }
                },
            }
            proof {
                collected = if self.arena@[p as int].kind is Some {
                    collected.push(self.arena@[p as int].kind.unwrap())
                } else {
                    collected
                };
            }
            cursor = self.arena[p].parent;
        }
        // reverse the collected labels into forward order
        let mut fwd: Vec<String> = Vec::new();
        let ghost total = collected.len() as int;
        proof {
            assert(target.len() == collected.len());
        }
        while rev.len() > 0
            invariant
                rev@.len() + fwd@.len() == total,
                collected.len() == total,
                target == collected.reverse(),
                forall|k: int|
                    0 <= k < rev@.len() ==> (#[trigger] rev@[k])@ == label_spec(collected[k]),
                forall|k: int|
                    0 <= k < fwd@.len() ==> (#[trigger] fwd@[k])@ == label_spec(target[k]),
            decreases rev@.len(),
        {
            let s = rev.pop().unwrap();
            proof {
                let k = rev@.len() as int;
                assert(s@ == label_spec(collected[k]));
                assert(target[total - 1 - k] == collected.reverse()[total - 1 - k]);
                assert(collected.reverse()[total - 1 - k] == collected[k]);
                assert(fwd@.len() == total - 1 - k);
            }
            fwd.push(s);
        }
        fwd
    }

    /// Runs the best-first driving loop to completion under the chosen
    /// heuristic, on a fresh session: expand the current state, merge the
    /// surviving candidates into the frontier, pop the cheapest candidate,
    /// mark it visited and adopt it; stop with a solution when the adopted
    /// state's estimate is zero, and with `Fatal` when the frontier is
    /// exhausted (or the expansion bound is hit; the contract tells the two
    /// apart).  An already-solved instance yields the empty solution at once.
    /// On success the adopted state's board is the goal and the reported
    /// labels are its whole backward chain, whose replay from the initial
    /// board reaches the goal in exactly `g` moves.  On exhaustion, the
    /// visited set is closed under every legal move and excludes the goal,
    /// so no sequence of moves whatever reaches the goal from the initial
    /// board; that certificate is the `Err` case's first disjunct.
    #[verifier::rlimit(100)]
    #[verifier::loop_isolation(false)]
    pub fn solve(&mut self, heuristic: Heuristic) -> (r: Result<Solution, Fatal>)
        requires
            old(self).wf(),
            old(self).is_fresh(),
        ensures
            final(self).wf(),
            final(self).goal_state@ == old(self).goal_state@,
            final(self).arena@[0].is@ == old(self).arena@[0].is@,
            final(self).heuristic == heuristic,
            match r {
                Result::Ok(sol) => {
                    let a = final(self).arena@;
                    let t = final(self).current as int;
                    let ms = chain_moves(a, t);
                    &&& 0 <= t < a.len()
                    &&& a[t].is@ == final(self).goal_state@
                    &&& ms.len() == a[t].g
                    &&& apply_moves(a[0].is@, ms) == final(self).goal_state@
                    &&& sol.moves@.len() == ms.len()
                    &&& forall|k: int|
                        0 <= k < ms.len() ==> (#[trigger] sol.moves@[k])@ == label_spec(ms[k])
                    &&& sol.expanded_count == final(self).no_expanded
                    &&& sol.generated_count == final(self).no_generated
                },
                Result::Err(_) => {
                    ||| (final(self).under_consideration@.len() == 0 && forall|ms: Seq<Move>|
                        apply_moves(final(self).arena@[0].is@, ms) != final(self).goal_state@)
                    ||| final(self).no_expanded == MAX_EXPANDED
                },
            },
    {
        self.heuristic = heuristic;
        let ghost init = self.arena@[0].is@;
        let ghost goal = self.goal_state@;
        if boards_equal(&self.arena[0].is, &self.goal_state) {
            proof {
                assert(wf_state_at(self.arena@, 0));
                assert(chain_moves(self.arena@, 0) == Seq::<Move>::empty());
            }
            return Ok(
                Solution {
                    moves: Vec::new(),
                    expanded_count: self.no_expanded,
                    generated_count: self.no_generated,
                },
            );
        }
        loop
            invariant
                self.wf(),
                self.heuristic == heuristic,
                self.goal_state@ == old(self).goal_state@,
                self.goal_state@ == goal,
                self.arena@[0].is@ == init,
                init != goal,
                is_heap(self.under_consideration@),
                self.under_consideration@.len() <= 4 * self.no_expanded,
                forall|i: int|
                    0 <= i < self.under_consideration@.len() ==> frontier_entry_ok(
                        self.arena@,
                        #[trigger] self.under_consideration@[i],
                    ),
                self.arena@[self.current as int].is@ != goal,
                self.no_expanded == 0 ==> self.arena@[self.current as int].is@ == init,
                !self.visited@.contains(enc_key(goal)),
                // every visited board but the one about to be expanded is
                // closed: each legal move leads back into the visited set or
                // to a board some frontier entry stands for
                forall|b2: Seq<isize>, m: Move|
                    valid_board(b2) && self.visited@.contains(enc_key(b2)) && b2
                        != self.arena@[self.current as int].is@ && move_legal(blank_of(b2), m)
                        ==> self.visited@.contains(enc_key(#[trigger] apply_move(b2, m)))
                        || frontier_has(self.under_consideration@, self.arena@, apply_move(b2, m)),
                // the root, once expanded, is closed the same way
                self.no_expanded >= 1 ==> forall|m: Move|
                    move_legal(blank_of(init), m) ==> self.visited@.contains(
                        enc_key(#[trigger] apply_move(init, m)),
                    ) || frontier_has(self.under_consideration@, self.arena@, apply_move(init, m)),
            decreases MAX_EXPANDED - self.no_expanded,
        {
            if !(self.no_expanded < MAX_EXPANDED) {
                return Err(Fatal);
            }
            let ghost a_pre = self.arena@;
            let ghost fr_pre = self.under_consideration@;
            let ghost vis_pre = self.visited@;
            let ghost cb_pre = self.arena@[self.current as int].is@;
            let ghost ne_pre = self.no_expanded;
            let cands = self.expand();
            let ghost n0 = a_pre.len() as int;
            let ghost surv = survivors(cb_pre, vis_pre);
            let mut entries: Vec<Entry> = Vec::new();
            let mut k: usize = 0;
            while k < cands.len()
                invariant
                    k <= cands@.len(),
                    self.wf(),
                    forall|j: int| 0 <= j < cands@.len() ==> n0 <= #[trigger] cands@[j] < self.arena@.len(),
                    entries@.len() == k,
                    forall|j: int|
                        0 <= j < k ==> (#[trigger] entries@[j]).idx == cands@[j]
                            && entries@[j].cost == self.arena@[cands@[j] as int].cost,
                decreases cands@.len() - k,
            {
                let idx = cands[k];
                entries.push(Entry { cost: self.arena[idx].cost, idx });
                k += 1;
            }
            proof {
                assert(entries@.len() <= 4);
            }
            let mut incoming = Frontier::from_vec(entries);
            proof {
                assert forall|i: int| 0 <= i < incoming@.len() implies frontier_entry_ok(
                    self.arena@,
                    #[trigger] incoming@[i],
                ) by {
                    let e = incoming@[i];
                    assert(incoming@.contains(e));
                    assert(incoming@.to_multiset().count(e) > 0);
                    assert(entries@.to_multiset().count(e) > 0);
                    assert(entries@.contains(e));
                    let j = choose|j: int| 0 <= j < entries@.len() && entries@[j] == e;
                    assert(entries@[j].idx == cands@[j]);
                }
                assert forall|i: int| 0 <= i < self.under_consideration@.len() implies
                frontier_entry_ok(self.arena@, #[trigger] self.under_consideration@[i]) by {
                    let e = self.under_consideration@[i];
                    assert(frontier_entry_ok(a_pre, e));
                    assert(self.arena@[e.idx as int] == a_pre[e.idx as int]);
                }
            }
            let ghost fr_a = self.under_consideration@;
            let ghost fr_b = incoming@;
            self.under_consideration.append(&mut incoming);
            proof {
                assert forall|i: int| 0 <= i < self.under_consideration@.len() implies
                frontier_entry_ok(self.arena@, #[trigger] self.under_consideration@[i]) by {
                    let e = self.under_consideration@[i];
                    assert(self.under_consideration@.to_multiset().contains(e));
                    assert(fr_a.to_multiset().add(fr_b.to_multiset()).count(e) > 0);
                    if fr_a.to_multiset().count(e) > 0 {
                        let j = choose|j: int| 0 <= j < fr_a.len() && fr_a[j] == e;
                        assert(frontier_entry_ok(self.arena@, fr_a[j]));
                    } else {
                        assert(fr_b.to_multiset().count(e) > 0);
                        let j = choose|j: int| 0 <= j < fr_b.len() && fr_b[j] == e;
                        assert(frontier_entry_ok(self.arena@, fr_b[j]));
                    }
                }
            }
            let ghost fr_merged = self.under_consideration@;
            let ghost a_post = self.arena@;
            proof {
                assert(forall|i: int|
                    0 <= i < fr_merged.len() ==> frontier_entry_ok(
                        a_post,
                        #[trigger] fr_merged[i],
                    ));
                assert(fr_a == fr_pre);
                // boards the old frontier stood for are still stood for
                assert forall|x: Seq<isize>| frontier_has(fr_pre, a_pre, x) implies frontier_has(
                    fr_merged,
                    a_post,
                    x,
                ) by {
                    let i = choose|i: int|
                        0 <= i < fr_pre.len() && a_pre[fr_pre[i].idx as int].is@ == x;
                    assert(frontier_entry_ok(a_pre, fr_pre[i]));
                    assert(a_post[fr_pre[i].idx as int] == a_pre[fr_pre[i].idx as int]);
                    assert(fr_pre.contains(fr_pre[i]));
                    assert(fr_pre.to_multiset().count(fr_pre[i]) > 0);
                    assert(fr_merged.to_multiset().count(fr_pre[i]) > 0);
                    assert(fr_merged.contains(fr_pre[i]));
                    let j = choose|j: int| 0 <= j < fr_merged.len() && fr_merged[j] == fr_pre[i];
                    assert(a_post[fr_merged[j].idx as int].is@ == x);
                }
                // every surviving candidate's board is stood for after the merge
                assert forall|k: int| 0 <= k < surv.len() implies frontier_has(
                    fr_merged,
                    a_post,
                    apply_move(cb_pre, surv[k]),
                ) by {
                    assert(entries@[k].idx == cands@[k]);
                    assert(cands@[k] == n0 + k);
                    assert(a_post[n0 + k].is@ == apply_move(cb_pre, surv[k]));
                    assert(entries@.contains(entries@[k]));
                    assert(entries@.to_multiset().count(entries@[k]) > 0);
                    assert(fr_b.to_multiset().count(entries@[k]) > 0);
                    assert(fr_merged.to_multiset().count(entries@[k]) > 0);
                    assert(fr_merged.contains(entries@[k]));
                    let j = choose|j: int| 0 <= j < fr_merged.len() && fr_merged[j] == entries@[k];
                    assert(a_post[fr_merged[j].idx as int].is@ == apply_move(cb_pre, surv[k]));
                }
                // with the expansion folded in, the whole visited region (and
                // the root) is closed: every legal move from it lands in the
                // visited set or on a board the merged frontier stands for
                assert(valid_board(init)) by {
                    assert(wf_state_at(a_pre, 0));
                }
                assert forall|b2: Seq<isize>, m: Move|
                    valid_board(b2) && (b2 == init || vis_pre.contains(enc_key(b2)))
                        && move_legal(blank_of(b2), m) implies (vis_pre.contains(
                    enc_key(#[trigger] apply_move(b2, m)),
                ) || frontier_has(fr_merged, a_post, apply_move(b2, m))) by {
                    if b2 == cb_pre {
                        if !vis_pre.contains(enc_key(apply_move(b2, m))) {
                            assert(survives(cb_pre, vis_pre, m));
                            lemma_survivor_index(cb_pre, vis_pre, m);
                            let k = choose|k: int|
                                0 <= k < surv.len() && surv[k] == m;
                            assert(frontier_has(fr_merged, a_post, apply_move(cb_pre, surv[k])));
                        }
                    } else if b2 == init {
                        assert(ne_pre >= 1) by {
                            if ne_pre == 0 {
                                assert(cb_pre == init);
                            }
                        }
                        assert(frontier_has(fr_pre, a_pre, apply_move(init, m))
                            ==> frontier_has(fr_merged, a_post, apply_move(init, m)));
                    } else {
                        assert(frontier_has(fr_pre, a_pre, apply_move(b2, m))
                            ==> frontier_has(fr_merged, a_post, apply_move(b2, m)));
                    }
                }
            }
            match self.under_consideration.pop() {
                Option::None => {
                    proof {
                        assert(fr_merged.len() == 0);
                        assert(fr_b.len() == 0);
                        assert(entries@.len() == 0);
                        assert(cands@.len() == 0);
                        assert(surv.len() == 0);
                        // the frontier is empty, so the closure stays wholly
                        // inside the visited set ...
                        assert forall|b2: Seq<isize>, m: Move|
                            valid_board(b2) && (b2 == init || vis_pre.contains(enc_key(b2)))
                                && move_legal(blank_of(b2), m) implies vis_pre.contains(
                            enc_key(#[trigger] apply_move(b2, m)),
                        ) by {
                            assert(!frontier_has(fr_merged, a_post, apply_move(b2, m)));
                        }
                        // ... and no replay of any move sequence escapes it
                        assert(valid_board(init));
                        assert forall|ms: Seq<Move>| apply_moves(init, ms) != goal by {
                            lemma_no_escape(vis_pre, init, goal, init, ms);
                        }
                    }
                    return Err(Fatal);
                },
                Option::Some(e) => {
                    let ghost fr_after = self.under_consideration@;
                    let ghost be = self.arena@[e.idx as int].is@;
                    proof {
                        assert(frontier_entry_ok(self.arena@, e));
                        assert(wf_state_at(self.arena@, e.idx as int));
                        assert forall|i: int| 0 <= i < fr_after.len() implies frontier_entry_ok(
                            self.arena@,
                            #[trigger] fr_after[i],
                        ) by {
                            let x = fr_after[i];
                            assert(fr_after.contains(x));
                            assert(fr_after.to_multiset().count(x) > 0);
                            assert(fr_merged.to_multiset().count(x) > 0);
                            assert(fr_merged.contains(x));
                            let j = choose|j: int| 0 <= j < fr_merged.len() && fr_merged[j] == x;
                            assert(frontier_entry_ok(self.arena@, fr_merged[j]));
                        }
                        // a board the merged frontier stood for is still stood
                        // for after the pop, or it is the popped board itself
                        assert forall|x: Seq<isize>| frontier_has(fr_merged, a_post, x) implies (
                        frontier_has(fr_after, a_post, x) || x == be) by {
                            let i = choose|i: int|
                                0 <= i < fr_merged.len() && a_post[fr_merged[i].idx as int].is@
                                    == x;
                            if fr_merged[i] == e {
                                assert(x == be);
                            } else {
                                assert(fr_merged.contains(fr_merged[i]));
                                assert(fr_merged.to_multiset().count(fr_merged[i]) > 0);
                                assert(fr_after.to_multiset() == fr_merged.to_multiset().remove(e));
                                assert(fr_after.to_multiset().count(fr_merged[i]) > 0);
                                assert(fr_after.contains(fr_merged[i]));
                                let j = choose|j: int|
                                    0 <= j < fr_after.len() && fr_after[j] == fr_merged[i];
                                assert(a_post[fr_after[j].idx as int].is@ == x);
                            }
                        }
                    }
                    let key = enc_of(&self.arena[e.idx].is);
                    self.visited.insert(key);
                    self.current = e.idx;
                    if self.arena[self.current].h == 0 {
                        proof {
                            let t = self.current as int;
                            assert(self.arena@[t].h == heuristic_spec(
                                self.arena@[t].is@,
                                self.goal_state@,
                                heuristic,
                            ));
                            lemma_heuristic_zero_iff_goal(
                                self.arena@[t].is@,
                                self.goal_state@,
                                heuristic,
                            );
                            lemma_chain_replay(self.arena@, t);
                        }
                        let moves = self.trace_soln();
                        return Ok(
                            Solution {
                                moves,
                                expanded_count: self.no_expanded,
                                generated_count: self.no_generated,
                            },
                        );
                    }
                    proof {
                        let t = self.current as int;
                        assert(self.arena@[t].h == heuristic_spec(be, goal, heuristic));
                        lemma_heuristic_zero_iff_goal(be, goal, heuristic);
                        assert(be != goal);
                        assert(valid_board(be));
                        assert(self.visited@ == vis_pre.insert(enc_key(be)));
                        // the goal stays outside the visited set
                        assert(!self.visited@.contains(enc_key(goal))) by {
                            if enc_key(be) == enc_key(goal) {
                                lemma_board_key_unique(be, goal);
                            }
                        }
                        // a board newly visited under another name is the
                        // popped board itself
                        assert forall|b2: Seq<isize>|
                            valid_board(b2) && self.visited@.contains(enc_key(b2)) && b2
                                != be implies vis_pre.contains(enc_key(b2)) by {
                            if !vis_pre.contains(enc_key(b2)) {
                                assert(enc_key(b2) == enc_key(be));
                                lemma_board_key_unique(b2, be);
                            }
                        }
                        // closure away from the newly adopted state
                        assert forall|b2: Seq<isize>, m: Move|
                            valid_board(b2) && self.visited@.contains(enc_key(b2)) && b2 != be
                                && move_legal(blank_of(b2), m) implies (self.visited@.contains(
                            enc_key(#[trigger] apply_move(b2, m)),
                        ) || frontier_has(
                            self.under_consideration@,
                            self.arena@,
                            apply_move(b2, m),
                        )) by {
                            assert(vis_pre.contains(enc_key(b2)));
                            assert(vis_pre.contains(enc_key(apply_move(b2, m))) || frontier_has(
                                fr_merged,
                                a_post,
                                apply_move(b2, m),
                            ));
                            if frontier_has(fr_merged, a_post, apply_move(b2, m)) {
                                if apply_move(b2, m) == be {
                                    assert(self.visited@.contains(enc_key(be)));
                                } else {
                                    assert(frontier_has(fr_after, a_post, apply_move(b2, m)));
                                }
                            }
                        }
                        // the root's closure, the same way
                        assert forall|m: Move| move_legal(blank_of(init), m) implies (self.visited@.contains(
                            enc_key(#[trigger] apply_move(init, m)),
                        ) || frontier_has(
                            self.under_consideration@,
                            self.arena@,
                            apply_move(init, m),
                        )) by {
                            assert(valid_board(init));
                            assert(vis_pre.contains(enc_key(apply_move(init, m))) || frontier_has(
                                fr_merged,
                                a_post,
                                apply_move(init, m),
                            ));
                            if frontier_has(fr_merged, a_post, apply_move(init, m)) {
                                if apply_move(init, m) == be {
                                    assert(self.visited@.contains(enc_key(be)));
                                } else {
                                    assert(frontier_has(fr_after, a_post, apply_move(init, m)));
                                }
                            }
                        }
                    }
                },
            }
        }
    }
}

/// What the session invariant holds of every frontier entry: a real handle
/// (never the root) whose recorded cost is its state's.
pub open spec fn frontier_entry_ok(sts: Seq<State>, e: Entry) -> bool {
    &&& 1 <= (e.idx as int) < sts.len()
    &&& sts[e.idx as int].cost == e.cost
    &&& sts[e.idx as int].parent is Some
}

/// Whether some frontier entry stands for a state whose board is `b`.
pub open spec fn frontier_has(fr: Seq<Entry>, sts: Seq<State>, b: Seq<isize>) -> bool {
    exists|i: int| 0 <= i < fr.len() && sts[fr[i].idx as int].is@ == b
}

/// A move that survives the visited check appears in the survivor sequence.
proof fn lemma_survivor_index(b: Seq<isize>, vis: Set<u64>, m: Move)
    requires
        survives(b, vis, m),
    ensures
        exists|k: int| 0 <= k < survivors(b, vis).len() && survivors(b, vis)[k] == m,
{
    let s0 = if survives(b, vis, Move::Up) {
        seq![Move::Up]
    } else {
        Seq::<Move>::empty()
    };
    let s1 = if survives(b, vis, Move::Down) {
        s0.push(Move::Down)
    } else {
        s0
    };
    let s2 = if survives(b, vis, Move::Left) {
        s1.push(Move::Left)
    } else {
        s1
    };
    let s3 = if survives(b, vis, Move::Right) {
        s2.push(Move::Right)
    } else {
        s2
    };
    assert(survivors(b, vis) == s3);
    match m {
        Move::Up => {
            assert(s3[0] == Move::Up);
        },
        Move::Down => {
            assert(s3[s0.len() as int] == Move::Down);
        },
        Move::Left => {
            assert(s3[s1.len() as int] == Move::Left);
        },
        Move::Right => {
            assert(s3[s2.len() as int] == Move::Right);
        },
    }
}

/// From a region of boards closed under every legal move, with the goal
/// outside it, no move sequence escapes to the goal: each step of a replay
/// stays inside the region.
proof fn lemma_no_escape(
    visited: Set<u64>,
    init: Seq<isize>,
    goal: Seq<isize>,
    b: Seq<isize>,
    ms: Seq<Move>,
)
    requires
        valid_board(b),
        valid_board(goal),
        b == init || visited.contains(enc_key(b)),
        !visited.contains(enc_key(goal)),
        init != goal,
        forall|b2: Seq<isize>, m: Move|
            valid_board(b2) && (b2 == init || visited.contains(enc_key(b2))) && move_legal(
                blank_of(b2),
                m,
            ) ==> visited.contains(enc_key(#[trigger] apply_move(b2, m))),
    ensures
        apply_moves(b, ms) != goal,
    decreases ms.len(),
{
    if ms.len() == 0 {
        assert(apply_moves(b, ms) == b);
    } else {
        let b1 = apply_move(b, ms[0]);
        lemma_apply_move_valid(b, ms[0]);
        if !move_legal(blank_of(b), ms[0]) {
            assert(b1 == b);
        }
        lemma_no_escape(visited, init, goal, b1, ms.drop_first());
    }
}

/// Distinct valid boards have distinct visited-set keys, so a board can never
/// stand in the visited set twice under two keys, nor answer for another
/// board's membership test.
pub proof fn lemma_board_key_unique(a: Seq<isize>, b: Seq<isize>)
    requires
        valid_board(a),
        valid_board(b),
        enc_key(a) == enc_key(b),
    ensures
        a == b,
{
    lemma_enc_bound(a);
    lemma_enc_bound(b);
    lemma_pow9_9();
    assert(enc_spec(a) == enc_spec(b));
    lemma_enc_injective(a, b);
}

} // verus!
