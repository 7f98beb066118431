//! The board model: a 3-by-3 arrangement of the tiles 0 through 8, where 0 is
//! the blank, together with the four blank moves and an integer encoding of
//! boards used for the visited set.

use vstd::prelude::*;

verus! {

/// One sliding move of the blank tile.
#[derive(Clone, Copy, PartialEq, Eq, Structural, Debug)]
pub enum Move {
    Up,
    Down,
    Left,
    Right,
}

/// The label under which a move is reported.
pub open spec fn label_spec(m: Move) -> Seq<char> {
    match m {
        Move::Up => "Up"@,
        Move::Down => "Down"@,
        Move::Left => "Left"@,
        Move::Right => "Right"@,
    }
}

/// A valid board holds each of the values 0 through 8 exactly once.
pub open spec fn valid_board(b: Seq<isize>) -> bool {
    &&& b.len() == 9
    &&& forall|i: int| 0 <= i < 9 ==> 0 <= #[trigger] b[i] <= 8
    &&& forall|i: int, j: int| 0 <= i < j < 9 ==> b[i] != b[j]
    &&& forall|v: isize| 0 <= v <= 8 ==> b.contains(v)
}

/// The position of value `v` on board `b` (unique on a valid board).
pub open spec fn pos_of(b: Seq<isize>, v: isize) -> int {
    choose|i: int| 0 <= i < b.len() && b[i] == v
}

/// The position of the blank.
pub open spec fn blank_of(b: Seq<isize>) -> int {
    pos_of(b, 0)
}

pub proof fn lemma_pos_of(b: Seq<isize>, v: isize)
    requires
        valid_board(b),
        0 <= v <= 8,
    ensures
        0 <= pos_of(b, v) < 9,
        b[pos_of(b, v)] == v,
        forall|j: int| 0 <= j < 9 && b[j] == v ==> j == pos_of(b, v),
{
    assert(b.contains(v));
}

/// The sequence `b` with the values at `i` and `j` exchanged.
pub open spec fn swap_seq(b: Seq<isize>, i: int, j: int) -> Seq<isize> {
    b.update(i, b[j]).update(j, b[i])
}

pub proof fn lemma_swap_valid(b: Seq<isize>, i: int, j: int)
    requires
        valid_board(b),
        0 <= i < 9,
        0 <= j < 9,
    ensures
        valid_board(swap_seq(b, i, j)),
{
    let s = swap_seq(b, i, j);
    assert forall|v: isize| 0 <= v <= 8 implies s.contains(v) by {
        lemma_pos_of(b, v);
        let p = pos_of(b, v);
        if p == i {
            assert(s[j] == v);
        } else if p == j {
            assert(s[i] == v);
        } else {
            assert(s[p] == v);
        }
    }
}

/// Where the blank lands under move `m` from position `loc`.
pub open spec fn move_target(loc: int, m: Move) -> int {
    match m {
        Move::Up => loc - 3,
        Move::Down => loc + 3,
        Move::Left => loc - 1,
        Move::Right => loc + 1,
    }
}

/// Whether move `m` is legal for a blank at position `loc`
/// (row is `loc / 3`, column is `loc % 3`).
pub open spec fn move_legal(loc: int, m: Move) -> bool {
    match m {
        Move::Up => loc / 3 != 0,
        Move::Down => loc / 3 != 2,
        Move::Left => loc % 3 != 0,
        Move::Right => loc % 3 != 2,
    }
}

/// The board after sliding the blank in direction `m`; an illegal move leaves
/// the board unchanged.
pub open spec fn apply_move(b: Seq<isize>, m: Move) -> Seq<isize> {
    if move_legal(blank_of(b), m) {
        swap_seq(b, blank_of(b), move_target(blank_of(b), m))
    } else {
        b
    }
}

/// The board after replaying the whole move sequence `ms` from `b`.
pub open spec fn apply_moves(b: Seq<isize>, ms: Seq<Move>) -> Seq<isize>
    decreases ms.len(),
{
    if ms.len() == 0 {
        b
    } else {
        apply_moves(apply_move(b, ms[0]), ms.drop_first())
    }
}

pub proof fn lemma_apply_moves_push(b: Seq<isize>, ms: Seq<Move>, m: Move)
    ensures
        apply_moves(b, ms.push(m)) == apply_move(apply_moves(b, ms), m),
    decreases ms.len(),
{
    if ms.len() == 0 {
        assert(ms.push(m).drop_first() =~= Seq::<Move>::empty());
        assert(ms.push(m)[0] == m);
        assert(apply_moves(b, ms) == b);
        assert(apply_moves(b, ms.push(m)) == apply_moves(apply_move(b, m), Seq::<Move>::empty()));
    } else {
        assert(ms.push(m).drop_first() =~= ms.drop_first().push(m));
        assert(ms.push(m)[0] == ms[0]);
        lemma_apply_moves_push(apply_move(b, ms[0]), ms.drop_first(), m);
    }
}

pub proof fn lemma_apply_move_valid(b: Seq<isize>, m: Move)
    requires
        valid_board(b),
    ensures
        valid_board(apply_move(b, m)),
{
    if move_legal(blank_of(b), m) {
        lemma_pos_of(b, 0);
        lemma_swap_valid(b, blank_of(b), move_target(blank_of(b), m));
    }
}

/// The base-9 integer encoding of a board, used as a key in the visited set.
pub open spec fn enc_spec(b: Seq<isize>) -> int
    decreases b.len(),
{
    if b.len() == 0 {
        0
    } else {
        b[0] + 9 * enc_spec(b.drop_first())
    }
}

/// The encoding of a board, as the key type the visited set stores.
pub open spec fn enc_key(b: Seq<isize>) -> u64 {
    enc_spec(b) as u64
}

pub open spec fn digits_ok(b: Seq<isize>) -> bool {
    forall|i: int| 0 <= i < b.len() ==> 0 <= #[trigger] b[i] <= 8
}

/// The spec function `pow9` gives the exclusive upper bound of `enc_spec`
/// on digit sequences of a given length.
pub open spec fn pow9(n: nat) -> int
    decreases n,
{
    if n == 0 {
        1
    } else {
        9 * pow9((n - 1) as nat)
    }
}

pub proof fn lemma_enc_bound(b: Seq<isize>)
    requires
        digits_ok(b),
    ensures
        0 <= enc_spec(b) < pow9(b.len()),
    decreases b.len(),
{
    if b.len() > 0 {
        assert(digits_ok(b.drop_first()));
        lemma_enc_bound(b.drop_first());
    }
}

pub proof fn lemma_pow9_9()
    ensures
        pow9(9) < 0x1_0000_0000u64 as int,
{
    assert(pow9(9) == 387420489) by {
        reveal_with_fuel(pow9, 10);
    }
}

/// Distinct digit sequences of one length have distinct encodings, so a board
/// never collides with another in the visited set.
pub proof fn lemma_enc_injective(a: Seq<isize>, b: Seq<isize>)
    requires
        a.len() == b.len(),
        digits_ok(a),
        digits_ok(b),
        enc_spec(a) == enc_spec(b),
    ensures
        a == b,
    decreases a.len(),
{
    if a.len() == 0 {
        assert(a =~= b);
    } else {
        assert(digits_ok(a.drop_first()));
        assert(digits_ok(b.drop_first()));
        lemma_enc_bound(a.drop_first());
        lemma_enc_bound(b.drop_first());
        let ra = enc_spec(a.drop_first());
        let rb = enc_spec(b.drop_first());
        assert(a[0] + 9 * ra == b[0] + 9 * rb);
        assert(a[0] == b[0] && ra == rb) by {
            assert(a[0] - b[0] == 9 * (rb - ra));
            assert(-9 < a[0] - b[0] < 9);
        }
        lemma_enc_injective(a.drop_first(), b.drop_first());
        assert forall|i: int| 0 <= i < a.len() implies a[i] == b[i] by {
            if i > 0 {
                assert(a.drop_first()[i - 1] == b.drop_first()[i - 1]);
            }
        }
        assert(a =~= b);
    }
}

/// Copies a board value.
pub fn clone_board(b: &Vec<isize>) -> (r: Vec<isize>)
    ensures
        r@ == b@,
{
    let mut r: Vec<isize> = Vec::new();
    let mut i: usize = 0;
    while i < b.len()
        invariant
            i <= b.len(),
            r@ == b@.take(i as int),
        decreases b.len() - i,
    {
        r.push(b[i]);
        assert(b@.take(i + 1 as int) =~= b@.take(i as int).push(b@[i as int]));
        i += 1;
    }
    assert(b@.take(b@.len() as int) =~= b@);
    r
}

/// Exchanges the values at `i` and `j`.
pub fn swap_tiles(v: &mut Vec<isize>, i: usize, j: usize)
    requires
        i < old(v)@.len(),
        j < old(v)@.len(),
    ensures
        final(v)@ == swap_seq(old(v)@, i as int, j as int),
{
    let a = v[i];
    let b = v[j];
    v.set(i, b);
    v.set(j, a);
}

/// Computes the base-9 encoding of a board.
pub fn enc_of(b: &Vec<isize>) -> (k: u64)
    requires
        b@.len() == 9,
        digits_ok(b@),
    ensures
        k == enc_key(b@),
{
    proof {
        lemma_pow9_9();
    }
    let mut acc: u64 = 0;
    let mut i: usize = 9;
    while i > 0
        invariant
            i <= 9,
            b@.len() == 9,
            digits_ok(b@),
            acc as int == enc_spec(b@.skip(i as int)),
            (acc as int) < pow9((9 - i) as nat),
            pow9(9) < 0x1_0000_0000u64 as int,
        decreases i,
    {
        proof {
            lemma_pow9_mono((9 - i) as nat, 9);
            assert(b@.skip(i - 1 as int).drop_first() =~= b@.skip(i as int));
            assert(b@.skip(i - 1 as int)[0] == b@[i - 1 as int]);
            lemma_enc_bound(b@.skip(i - 1 as int));
            assert(digits_ok(b@.skip(i - 1 as int)));
        }
        i -= 1;
        acc = acc * 9 + (b[i] as u64);
    }
    proof {
        assert(b@.skip(0) =~= b@);
        lemma_enc_bound(b@);
    }
    acc
}

pub proof fn lemma_pow9_mono(m: nat, n: nat)
    requires
        m <= n,
    ensures
        pow9(m) <= pow9(n),
    decreases n,
{
    if m < n {
        lemma_pow9_mono(m, (n - 1) as nat);
        lemma_enc_pow9_pos((n - 1) as nat);
    }
}

pub proof fn lemma_enc_pow9_pos(n: nat)
    ensures
        pow9(n) >= 1,
    decreases n,
{
    if n > 0 {
        lemma_enc_pow9_pos((n - 1) as nat);
    }
}

/// The label of a move, as reported in a solution.
pub fn label_of(m: Move) -> (r: String)
    ensures
        r@ == label_spec(m),
{
    match m {
        Move::Up => "Up".to_owned(),
        Move::Down => "Down".to_owned(),
        Move::Left => "Left".to_owned(),
        Move::Right => "Right".to_owned(),
    }
}

/// Decides equality of two board values.
pub fn boards_equal(a: &Vec<isize>, b: &Vec<isize>) -> (r: bool)
    ensures
        r == (a@ == b@),
{
    if a.len() != b.len() {
        return false;
    }
    let mut i: usize = 0;
    while i < a.len()
        invariant
            i <= a@.len(),
            a@.len() == b@.len(),
            forall|j: int| 0 <= j < i ==> a@[j] == #[trigger] b@[j],
        decreases a@.len() - i,
    {
        if a[i] != b[i] {
            return false;
        }
        i += 1;
    }
    proof {
        assert(a@ =~= b@);
    }
    true
}

/// Decides whether `b` is a valid board: a permutation of 0 through 8.
pub fn is_valid_board(b: &Vec<isize>) -> (r: bool)
    ensures
        r == valid_board(b@),
{
    if b.len() != 9 {
        return false;
    }
    let mut i: usize = 0;
    while i < 9
        invariant
            i <= 9,
            b@.len() == 9,
            forall|k: int| 0 <= k < i ==> 0 <= #[trigger] b@[k] <= 8,
        decreases 9 - i,
    {
        if b[i] < 0 || b[i] > 8 {
            return false;
        }
        i += 1;
    }
    let mut i: usize = 0;
    while i < 9
        invariant
            i <= 9,
            b@.len() == 9,
            forall|k: int| 0 <= k < 9 ==> 0 <= #[trigger] b@[k] <= 8,
            forall|k: int, l: int| 0 <= k < l < 9 && k < i ==> b@[k] != b@[l],
        decreases 9 - i,
    {
        let mut j: usize = i + 1;
        while j < 9
            invariant
                i < j <= 9,
                b@.len() == 9,
                forall|l: int| i < l < j ==> b@[i as int] != #[trigger] b@[l],
            decreases 9 - j,
        {
            if b[i] == b[j] {
                return false;
            }
            j += 1;
        }
        i += 1;
    }
    let mut v: usize = 0;
    while v < 9
        invariant
            v <= 9,
            b@.len() == 9,
            forall|k: int| 0 <= k < 9 ==> 0 <= #[trigger] b@[k] <= 8,
            forall|k: int, l: int| 0 <= k < l < 9 ==> b@[k] != b@[l],
            forall|w: isize| 0 <= w < v ==> b@.contains(w),
        decreases 9 - v,
    {
        let mut j: usize = 0;
        let mut found = false;
        while j < 9
            invariant
                j <= 9,
                v < 9,
                b@.len() == 9,
                found ==> b@.contains(v as isize),
                !found ==> forall|l: int| 0 <= l < j ==> b@[l] != v as isize,
            decreases 9 - j,
        {
            if b[j] == v as isize {
                found = true;
            }
            j += 1;
        }
        if !found {
            assert(!b@.contains(v as isize));
            return false;
        }
        v += 1;
    }
    true
}

} // verus!
