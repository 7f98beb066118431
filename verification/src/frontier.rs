//! The frontier: a priority collection of search candidates, popped in order
//! of least total cost.  It is a binary heap laid out in a `Vec`, and it
//! follows the array layout discipline of the standard library's binary heap
//! (sift-up on push, sift-down-to-the-bottom on pop, heapify on construction,
//! and the merge rule of `append`), under the inverted ordering that makes the
//! maximum-first layout behave as a minimum-first queue over `cost`.  The
//! layout discipline fixes how ties between equal costs are broken.

use vstd::prelude::*;
use vstd::arithmetic::power2::{lemma2_to64, lemma2_to64_rest, lemma_pow2_pos, pow2};
use vstd::seq_lib::group_to_multiset_ensures;

verus! {

broadcast use group_to_multiset_ensures;

/// A bound under which every frontier this crate builds stays; it keeps the
/// heap's index arithmetic free of overflow.
pub const FRONTIER_CAP: usize = 0x100_0000;

/// One frontier candidate: the total cost it is ranked by, and the handle of
/// the state it stands for.
#[derive(Clone, Copy, PartialEq, Eq, Structural, Debug)]
pub struct Entry {
    pub cost: isize,
    pub idx: usize,
}

/// The parent-child ordering at position `j` of the heap array: a child never
/// costs less than its parent, so the least cost sits at the root.
pub open spec fn edge_ok(s: Seq<Entry>, j: int) -> bool {
    s[j].cost >= s[(j - 1) / 2].cost
}

/// The heap layout invariant over the whole array.
pub open spec fn is_heap(s: Seq<Entry>) -> bool {
    forall|j: int| 1 <= j < s.len() ==> #[trigger] edge_ok(s, j)
}

/// In a heap array, the root has the least cost.
pub proof fn lemma_heap_root_min(s: Seq<Entry>, i: int)
    requires
        is_heap(s),
        0 <= i < s.len(),
    ensures
        s[0].cost <= s[i].cost,
    decreases i,
{
    if i > 0 {
        assert(edge_ok(s, i));
        lemma_heap_root_min(s, (i - 1) / 2);
    }
}

/// Exchanging two positions of a sequence keeps its multiset of elements.
pub proof fn lemma_swap_multiset<A>(s: Seq<A>, i: int, j: int)
    requires
        0 <= i < s.len(),
        0 <= j < s.len(),
    ensures
        s.update(i, s[j]).update(j, s[i]).to_multiset() == s.to_multiset(),
{
    if i == j {
        assert(s.update(i, s[j]).update(j, s[i]) =~= s);
    } else {
        let s1 = s.update(i, s[j]);
        assert(s.contains(s[i]));
        assert(s1.contains(s1[i]));
        assert(s.update(i, s[j]).update(j, s[i]).to_multiset() =~= s.to_multiset());
    }
}

/// The floor of the base-two logarithm, as the merge rule computes it.
pub open spec fn log2_spec(x: int) -> int
    decreases x,
{
    if x <= 1 {
        0
    } else {
        1 + log2_spec(x / 2)
    }
}

/// The frontier of a search: candidates not yet visited, ranked by cost.
pub struct Frontier {
    data: Vec<Entry>,
}

impl View for Frontier {
    type V = Seq<Entry>;

    closed spec fn view(&self) -> Seq<Entry> {
        self.data@
    }
}

impl Frontier {
    /// An empty frontier.
    pub fn new() -> (r: Frontier)
        ensures
            r@ == Seq::<Entry>::empty(),
            is_heap(r@),
    {
        Frontier { data: Vec::new() }
    }

    /// How many candidates are held.
    pub fn len(&self) -> (n: usize)
        ensures
            n == self@.len(),
    {
        self.data.len()
    }

    /// Restores the layout around a single out-of-place position `pos`, whose
    /// children (within the first `n` positions) are beyond `n`; the classic
    /// upward sift.  Positions at `n` and beyond are untouched.
    #[verifier::rlimit(100)]
    fn sift_up(&mut self, pos: usize, Ghost(n): Ghost<int>)
        requires
            pos < old(self)@.len(),
            (pos as int) < n <= old(self)@.len(),
            forall|j: int| 1 <= j < n && j != pos ==> #[trigger] edge_ok(old(self)@, j),
            2 * (pos as int) + 1 >= n,
        ensures
            final(self)@.len() == old(self)@.len(),
            forall|j: int| 1 <= j < n ==> #[trigger] edge_ok(final(self)@, j),
            final(self)@.to_multiset() == old(self)@.to_multiset(),
            forall|j: int| n <= j < old(self)@.len() ==> final(self)@[j] == old(self)@[j],
    {
        let e = self.data[pos];
        let mut hole: usize = pos;
        proof {
            assert(self.data@.update(pos as int, e) =~= self.data@);
        }
        while hole > 0 && e.cost < self.data[(hole - 1) / 2].cost
            invariant
                hole <= pos < old(self)@.len(),
                (pos as int) < n <= old(self)@.len(),
                2 * (pos as int) + 1 >= n,
                self.data@.len() == old(self)@.len(),
                ({
                    let t = self.data@.update(hole as int, e);
                    &&& t.to_multiset() == old(self)@.to_multiset()
                    &&& forall|j: int| 1 <= j < n && j != hole ==> #[trigger] edge_ok(t, j)
                    &&& (hole > 0 ==> forall|c: int|
                        (c == 2 * hole + 1 || c == 2 * hole + 2) && c < n ==> (#[trigger] t[c]).cost
                            >= t[((hole - 1) / 2) as int].cost)
                }),
                forall|j: int| n <= j < old(self)@.len() ==> self.data@[j] == old(self)@[j],
            decreases hole,
        {
            let ghost d0 = self.data@;
            let ghost h0 = hole as int;
            let ghost t0 = d0.update(h0, e);
            let parent = (hole - 1) / 2;
            let ghost p = parent as int;
            let pv = self.data[parent];
            self.data.set(hole, pv);
            hole = parent;
            proof {
                let t1 = self.data@.update(p, e);
                assert(t0[h0] == e);
                assert(t0[p] == pv);
                assert(t1 =~= t0.update(h0, t0[p]).update(p, t0[h0]));
                lemma_swap_multiset(t0, h0, p);
                assert forall|j: int| 1 <= j < n && j != p implies #[trigger] edge_ok(t1, j) by {
                    if j == h0 {
                        assert(t1[h0] == t0[p]);
                        assert(t1[p] == e);
                    } else if (j - 1) / 2 == p {
                        // the sibling of the old hole
                        assert(edge_ok(t0, j));
                    } else if (j - 1) / 2 == h0 {
                        // a child of the old hole: the grandparent bridge
                        assert(t0[j].cost >= t0[p].cost);
                    } else {
                        assert(edge_ok(t0, j));
                    }
                }
                if p > 0 {
                    let gp = (p - 1) / 2;
                    assert forall|c: int| (c == 2 * p + 1 || c == 2 * p + 2) && c < n implies (
                    #[trigger] t1[c]).cost >= t1[gp].cost by {
                        assert(edge_ok(t0, p));
                        if c == h0 {
                            assert(t1[c] == t0[p]);
                        } else {
                            assert(edge_ok(t0, c));
                        }
                    }
                }
            }
        }
        let ghost hf = hole as int;
        let ghost tf = self.data@.update(hf, e);
        self.data.set(hole, e);
        proof {
            assert(self.data@ == tf);
            assert forall|j: int| 1 <= j < n implies #[trigger] edge_ok(tf, j) by {
                if j == hf {
                    // the loop stopped: either at the root, or below a parent
                    // that does not cost more
                }
            }
        }
    }

    /// Restores the layout when position `pos` is out of place downward,
    /// considering only the first `end` positions; the classic downward sift,
    /// used by heap construction.
    #[verifier::rlimit(100)]
    fn sift_down_range(&mut self, pos: usize, end: usize)
        requires
            pos < end <= old(self)@.len(),
            end <= FRONTIER_CAP,
            forall|j: int|
                1 <= j < end && (j - 1) / 2 > pos ==> #[trigger] edge_ok(old(self)@, j),
        ensures
            final(self)@.len() == old(self)@.len(),
            final(self)@.to_multiset() == old(self)@.to_multiset(),
            forall|j: int|
                1 <= j < end && (j - 1) / 2 >= pos ==> #[trigger] edge_ok(final(self)@, j),
            forall|j: int| end <= j < old(self)@.len() ==> final(self)@[j] == old(self)@[j],
    {
        let e = self.data[pos];
        let mut hole: usize = pos;
        let mut child: usize = 2 * hole + 1;
        proof {
            assert(self.data@.update(pos as int, e) =~= self.data@);
        }
        while child + 2 <= end
            invariant
                pos <= hole < end <= old(self)@.len(),
                end <= FRONTIER_CAP,
                child == 2 * hole + 1,
                self.data@.len() == old(self)@.len(),
                ({
                    let t = self.data@.update(hole as int, e);
                    &&& t.to_multiset() == old(self)@.to_multiset()
                    &&& forall|j: int|
                        1 <= j < end && (j - 1) / 2 >= pos && (j - 1) / 2 != hole
                            ==> #[trigger] edge_ok(t, j)
                    &&& (hole > pos ==> t[((hole - 1) / 2) as int].cost <= e.cost)
                    &&& (hole > pos ==> (hole - 1) / 2 >= pos)
                    &&& (hole > pos ==> forall|c: int|
                        (c == 2 * hole + 1 || c == 2 * hole + 2) && c < end ==> (#[trigger] t[c]).cost
                            >= t[((hole - 1) / 2) as int].cost)
                }),
                forall|j: int| end <= j < old(self)@.len() ==> self.data@[j] == old(self)@[j],
            decreases end - hole,
        {
            let mut c = child;
            if self.data[c].cost >= self.data[c + 1].cost {
                c = c + 1;
            }
            if e.cost <= self.data[c].cost {
                let ghost hf = hole as int;
                let ghost tf = self.data@.update(hf, e);
                self.data.set(hole, e);
                proof {
                    assert(self.data@ == tf);
                    assert forall|j: int| 1 <= j < end && (j - 1) / 2 >= pos implies #[trigger]
                    edge_ok(tf, j) by {
                        if (j - 1) / 2 == hf {
                            assert(tf[j] == self.data@[j]);
                        }
                    }
                }
                return ;
            }
            let ghost d0 = self.data@;
            let ghost h0 = hole as int;
            let ghost t0 = d0.update(h0, e);
            let cv = self.data[c];
            let ghost ci = c as int;
            self.data.set(hole, cv);
            hole = c;
            child = 2 * hole + 1;
            proof {
                let t1 = self.data@.update(ci, e);
                assert(t0[h0] == e);
                assert(t0[ci] == cv);
                assert((ci - 1) / 2 == h0);
                assert(t1 =~= t0.update(h0, t0[ci]).update(ci, t0[h0]));
                lemma_swap_multiset(t0, h0, ci);
                assert forall|j: int|
                    1 <= j < end && (j - 1) / 2 >= pos && (j - 1) / 2 != ci implies #[trigger]
                edge_ok(t1, j) by {
                    if j == h0 {
                        assert(t1[h0] == t0[ci]);
                        assert(t0[ci].cost >= t0[((h0 - 1) / 2) as int].cost);
                    } else if (j - 1) / 2 == h0 {
                        // the sibling of the chosen child keeps its edge
                        assert(t1[h0] == t0[ci]);
                        assert(t0[j].cost >= t0[ci].cost);
                    } else {
                        assert(edge_ok(t0, j));
                    }
                }
                // the hole's parent now costs no more than the sifted value
                assert(t1[h0].cost <= e.cost);
                // and no more than the hole's children
                assert forall|c2: int| (c2 == 2 * ci + 1 || c2 == 2 * ci + 2) && c2 < end implies (
                #[trigger] t1[c2]).cost >= t1[((ci - 1) / 2) as int].cost by {
                    assert(edge_ok(t0, c2));
                    assert(t1[c2] == t0[c2]);
                }
            }
        }
        if child == end - 1 && e.cost > self.data[child].cost {
            let ghost d0 = self.data@;
            let ghost h0 = hole as int;
            let ghost t0 = d0.update(h0, e);
            let cv = self.data[child];
            let ghost ci = child as int;
            self.data.set(hole, cv);
            hole = child;
            proof {
                let t1 = self.data@.update(ci, e);
                assert(t0[h0] == e);
                assert(t0[ci] == cv);
                assert(t1 =~= t0.update(h0, t0[ci]).update(ci, t0[h0]));
                lemma_swap_multiset(t0, h0, ci);
                assert forall|j: int|
                    1 <= j < end && (j - 1) / 2 >= pos && (j - 1) / 2 != ci implies #[trigger]
                edge_ok(t1, j) by {
                    if j == h0 {
                        assert(t1[h0] == t0[ci]);
                        assert(t0[ci].cost >= t0[((h0 - 1) / 2) as int].cost);
                    } else if (j - 1) / 2 == h0 {
                        assert(t0[j].cost >= t0[ci].cost);
                    } else {
                        assert(edge_ok(t0, j));
                    }
                }
            }
        }
        let ghost hf = hole as int;
        let ghost tf = self.data@.update(hf, e);
        self.data.set(hole, e);
        proof {
            assert(self.data@ == tf);
            assert forall|j: int| 1 <= j < end && (j - 1) / 2 >= pos implies #[trigger] edge_ok(
                tf,
                j,
            ) by {}
        }
    }

    /// Moves the root's value along the cheaper-child path all the way to a
    /// leaf and lifts it back up; this is how the standard heap fills the hole
    /// a pop leaves, and the path it takes fixes which of two equal-cost
    /// candidates comes out first.
    #[verifier::rlimit(100)]
    fn sift_down_to_bottom(&mut self)
        requires
            1 <= old(self)@.len() <= FRONTIER_CAP,
            forall|j: int|
                1 <= j < old(self)@.len() && (j - 1) / 2 >= 1 ==> #[trigger] edge_ok(old(self)@, j),
        ensures
            final(self)@.len() == old(self)@.len(),
            final(self)@.to_multiset() == old(self)@.to_multiset(),
            is_heap(final(self)@),
    {
        let end = self.data.len();
        let e = self.data[0];
        let mut hole: usize = 0;
        let mut child: usize = 1;
        proof {
            assert(self.data@.update(0, e) =~= self.data@);
        }
        while child + 2 <= end
            invariant
                hole < end == self.data@.len() == old(self)@.len(),
                end <= FRONTIER_CAP,
                child == 2 * hole + 1,
                ({
                    let t = self.data@.update(hole as int, e);
                    &&& t.to_multiset() == old(self)@.to_multiset()
                    &&& forall|j: int|
                        1 <= j < end && (j - 1) / 2 != hole && j != hole ==> #[trigger] edge_ok(t, j)
                    &&& (hole > 0 ==> forall|c: int|
                        (c == 2 * hole + 1 || c == 2 * hole + 2) && c < end ==> (#[trigger] t[c]).cost
                            >= t[((hole - 1) / 2) as int].cost)
                }),
            decreases end - hole,
        {
            let mut c = child;
            if self.data[c].cost >= self.data[c + 1].cost {
                c = c + 1;
            }
            let ghost d0 = self.data@;
            let ghost h0 = hole as int;
            let ghost t0 = d0.update(h0, e);
            let cv = self.data[c];
            let ghost ci = c as int;
            self.data.set(hole, cv);
            hole = c;
            child = 2 * hole + 1;
            proof {
                let t1 = self.data@.update(ci, e);
                assert(t0[h0] == e);
                assert(t0[ci] == cv);
                assert(t1 =~= t0.update(h0, t0[ci]).update(ci, t0[h0]));
                lemma_swap_multiset(t0, h0, ci);
                assert forall|j: int|
                    1 <= j < end && (j - 1) / 2 != ci && j != ci implies #[trigger] edge_ok(
                    t1,
                    j,
                ) by {
                    if j == h0 {
                        assert(t1[h0] == t0[ci]);
                        assert(t0[ci].cost >= t0[((h0 - 1) / 2) as int].cost);
                    } else if (j - 1) / 2 == h0 {
                        assert(t0[j].cost >= t0[ci].cost);
                    } else {
                        assert(edge_ok(t0, j));
                    }
                }
                if ci > 0 {
                    assert forall|c2: int| (c2 == 2 * ci + 1 || c2 == 2 * ci + 2) && c2 < end
                        implies (#[trigger] t1[c2]).cost >= t1[((ci - 1) / 2) as int].cost by {
                        assert(edge_ok(t0, c2));
                        assert(t1[c2] == t0[c2]);
                        assert(t1[h0] == t0[ci]);
                    }
                }
            }
        }
        if child == end - 1 {
            let ghost d0 = self.data@;
            let ghost h0 = hole as int;
            let ghost t0 = d0.update(h0, e);
            let cv = self.data[child];
            let ghost ci = child as int;
            self.data.set(hole, cv);
            hole = child;
            proof {
                let t1 = self.data@.update(ci, e);
                assert(t0[h0] == e);
                assert(t0[ci] == cv);
                assert(t1 =~= t0.update(h0, t0[ci]).update(ci, t0[h0]));
                lemma_swap_multiset(t0, h0, ci);
                assert forall|j: int|
                    1 <= j < end && (j - 1) / 2 != ci && j != ci implies #[trigger] edge_ok(
                    t1,
                    j,
                ) by {
                    if j == h0 {
                        assert(t1[h0] == t0[ci]);
                        assert(t0[ci].cost >= t0[((h0 - 1) / 2) as int].cost);
                    } else if (j - 1) / 2 == h0 {
                        assert(t0[j].cost >= t0[ci].cost);
                    } else {
                        assert(edge_ok(t0, j));
                    }
                }
            }
        }
        let ghost hf = hole as int;
        let ghost tf = self.data@.update(hf, e);
        self.data.set(hole, e);
        proof {
            assert(self.data@ == tf);
            assert(2 * hf + 1 >= end);
        }
        self.sift_up(hole, Ghost(end as int));
    }

    /// Adds a candidate; it sifts up from the end of the array, as the
    /// standard heap's push does.
    pub fn push(&mut self, e: Entry)
        requires
            is_heap(old(self)@),
            old(self)@.len() < FRONTIER_CAP,
        ensures
            is_heap(final(self)@),
            final(self)@.len() == old(self)@.len() + 1,
            final(self)@.to_multiset() == old(self)@.to_multiset().insert(e),
    {
        let pos = self.data.len();
        self.data.push(e);
        proof {
            assert forall|j: int| 1 <= j < pos + 1 && j != pos implies #[trigger] edge_ok(
                self.data@,
                j,
            ) by {
                assert(edge_ok(old(self)@, j));
            }
        }
        self.sift_up(pos, Ghost(pos + 1 as int));
    }

    /// Removes and returns the least-cost candidate; `None` on an empty
    /// frontier.  What comes out never costs more than anything left behind.
    pub fn pop(&mut self) -> (r: Option<Entry>)
        requires
            is_heap(old(self)@),
            old(self)@.len() <= FRONTIER_CAP,
        ensures
            is_heap(final(self)@),
            match r {
                Option::None => final(self)@ == old(self)@ && old(self)@.len() == 0,
                Option::Some(e) => {
                    &&& old(self)@.len() >= 1
                    &&& e == old(self)@[0]
                    &&& final(self)@.len() == old(self)@.len() - 1
                    &&& final(self)@.to_multiset() == old(self)@.to_multiset().remove(e)
                    &&& forall|i: int|
                        0 <= i < old(self)@.len() ==> e.cost <= (#[trigger] old(self)@[i]).cost
                },
            },
    {
        let ghost d0 = self.data@;
        match self.data.pop() {
            Option::None => {
                proof {
                    assert(d0 =~= self.data@);
                }
                None
            },
            Option::Some(last) => {
                proof {
                    assert(d0 =~= self.data@.push(last));
                    assert forall|i: int| 0 <= i < d0.len() implies d0[0].cost <= (
                    #[trigger] d0[i]).cost by {
                        lemma_heap_root_min(d0, i);
                    }
                }
                if self.data.len() == 0 {
                    proof {
                        assert(d0 =~= seq![last]);
                        assert(d0.to_multiset().remove(last) =~= self.data@.to_multiset());
                    }
                    Some(last)
                } else {
                    let top = self.data[0];
                    let ghost d1 = self.data@;
                    self.data.set(0, last);
                    proof {
                        assert(d0[0] == top);
                        assert forall|j: int|
                            1 <= j < self.data@.len() && (j - 1) / 2 >= 1 implies #[trigger] edge_ok(
                            self.data@,
                            j,
                        ) by {
                            assert(edge_ok(d0, j));
                        }
                        // the multiset: d0 = d1.push(last); new = d1.update(0, last)
                        assert(d1.update(0, last).to_multiset() == d1.to_multiset().insert(
                            last,
                        ).remove(d1[0]));
                        assert(d0.to_multiset() == d1.to_multiset().insert(last));
                        assert(d1[0] == top);
                    }
                    self.sift_down_to_bottom();
                    Some(top)
                }
            },
        }
    }

    /// Rebuilds the layout from scratch by sifting every internal node down,
    /// exactly as the standard heap's construction from a vector does.
    fn rebuild(&mut self)
        requires
            old(self)@.len() <= FRONTIER_CAP,
        ensures
            final(self)@.len() == old(self)@.len(),
            final(self)@.to_multiset() == old(self)@.to_multiset(),
            is_heap(final(self)@),
    {
        let mut n = self.data.len() / 2;
        while n > 0
            invariant
                n <= self.data@.len() / 2,
                self.data@.len() == old(self)@.len() <= FRONTIER_CAP,
                self.data@.to_multiset() == old(self)@.to_multiset(),
                forall|j: int|
                    1 <= j < self.data@.len() && (j - 1) / 2 >= n ==> #[trigger] edge_ok(
                        self.data@,
                        j,
                    ),
            decreases n,
        {
            n -= 1;
            self.sift_down_range(n, self.data.len());
        }
        proof {
            assert forall|j: int| 1 <= j < self.data@.len() implies #[trigger] edge_ok(
                self.data@,
                j,
            ) by {}
        }
    }

    /// Builds a frontier from candidates in insertion order, heapifying them
    /// as the standard heap's conversion from a vector does.
    pub fn from_vec(v: Vec<Entry>) -> (r: Frontier)
        requires
            v@.len() <= FRONTIER_CAP,
        ensures
            is_heap(r@),
            r@.len() == v@.len(),
            r@.to_multiset() == v@.to_multiset(),
    {
        let mut r = Frontier { data: v };
        r.rebuild();
        r
    }

    /// Merges `other` into `self` and leaves `other` empty, by the standard
    /// heap's rule: the shorter of the two arrays is appended to the longer,
    /// and the tail is folded in either by a full rebuild or by sifting each
    /// appended candidate up, whichever the length heuristic picks.
    pub fn append(&mut self, other: &mut Frontier)
        requires
            is_heap(old(self)@),
            is_heap(old(other)@),
            old(self)@.len() + old(other)@.len() <= FRONTIER_CAP,
        ensures
            is_heap(final(self)@),
            final(self)@.len() == old(self)@.len() + old(other)@.len(),
            final(self)@.to_multiset() == old(self)@.to_multiset().add(
                old(other)@.to_multiset(),
            ),
            final(other)@.len() == 0,
    {
        if self.data.len() < other.data.len() {
            core::mem::swap(self, other);
        }
        let start = self.data.len();
        let ghost da = self.data@;
        let ghost db = other.data@;
        proof {
            assert(is_heap(da));
        }
        self.data.append(&mut other.data);
        proof {
            lemma_concat_multiset(da, db);
            assert(da.to_multiset().add(db.to_multiset()) =~= old(self)@.to_multiset().add(
                old(other)@.to_multiset(),
            ));
            assert forall|j: int| 1 <= j < start implies #[trigger] edge_ok(self.data@, j) by {
                assert(edge_ok(da, j));
                assert(self.data@[j] == da[j]);
                assert(self.data@[(j - 1) / 2] == da[(j - 1) / 2]);
            }
        }
        self.rebuild_tail(start);
    }

    /// Folds the appended tail starting at `start` into the heap layout.
    fn rebuild_tail(&mut self, start: usize)
        requires
            start <= old(self)@.len() <= FRONTIER_CAP,
            forall|j: int| 1 <= j < start ==> #[trigger] edge_ok(old(self)@, j),
        ensures
            final(self)@.len() == old(self)@.len(),
            final(self)@.to_multiset() == old(self)@.to_multiset(),
            is_heap(final(self)@),
    {
        if start == self.data.len() {
            return ;
        }
        let tail_len = self.data.len() - start;
        let better_to_rebuild = if start < tail_len {
            true
        } else {
            let lg = log2_fast(start);
            proof {
                assert(tail_len * lg <= FRONTIER_CAP * 63) by (nonlinear_arith)
                    requires
                        0 <= tail_len <= FRONTIER_CAP,
                        0 <= lg <= 63,
                ;
            }
            2 * self.data.len() < tail_len * lg
        };
        if better_to_rebuild {
            self.rebuild();
        } else {
            let mut i = start;
            while i < self.data.len()
                invariant
                    start <= i <= self.data@.len(),
                    self.data@.len() == old(self)@.len() <= FRONTIER_CAP,
                    self.data@.to_multiset() == old(self)@.to_multiset(),
                    forall|j: int| 1 <= j < i ==> #[trigger] edge_ok(self.data@, j),
                decreases self.data@.len() - i,
            {
                proof {
                    assert forall|j: int| 1 <= j < i + 1 && j != i implies #[trigger] edge_ok(
                        self.data@,
                        j,
                    ) by {}
                }
                self.sift_up(i, Ghost(i + 1 as int));
                i += 1;
            }
        }
    }
}

/// The multiset of a concatenation is the sum of the two multisets.
pub proof fn lemma_concat_multiset(a: Seq<Entry>, b: Seq<Entry>)
    ensures
        (a + b).to_multiset() == a.to_multiset().add(b.to_multiset()),
    decreases b.len(),
{
    if b.len() == 0 {
        assert(a + b =~= a);
        assert(a.to_multiset().add(b.to_multiset()) =~= a.to_multiset());
    } else {
        let b0 = b.drop_last();
        lemma_concat_multiset(a, b0);
        assert(a + b =~= (a + b0).push(b.last()));
        assert(b =~= b0.push(b.last()));
        assert((a + b).to_multiset() =~= a.to_multiset().add(b.to_multiset()));
    }
}

/// The floor of the base-two logarithm of `x`, the quantity the merge rule of
/// `append` weighs a rebuild against.
fn log2_fast(x: usize) -> (r: usize)
    requires
        x >= 1,
    ensures
        r == log2_spec(x as int),
        r <= 63,
{
    let mut v = x;
    let mut r: usize = 0;
    proof {
        lemma2_to64();
    }
    while v > 1
        invariant
            1 <= v <= x,
            r <= 63,
            log2_spec(x as int) == r + log2_spec(v as int),
            pow2(r as nat) * (v as int) <= x as int,
        decreases v,
    {
        proof {
            lemma2_to64();
            lemma2_to64_rest();
            lemma_pow2_pos(r as nat);
            assert(pow2((r + 1) as nat) == 2 * pow2(r as nat)) by {
                vstd::arithmetic::power2::lemma_pow2_unfold((r + 1) as nat);
            }
            assert(pow2((r + 1) as nat) * ((v as int) / 2) <= pow2(r as nat) * (v as int)) by (
            nonlinear_arith)
                requires
                    pow2((r + 1) as nat) == 2 * pow2(r as nat),
                    pow2(r as nat) >= 1,
                    v >= 2,
            ;
            if r == 63 {
                assert(pow2(63) * (v as int) >= pow2(63) * 2) by (nonlinear_arith)
                    requires
                        v >= 2,
                        pow2(63) >= 1,
                ;
                assert(pow2(63) == 0x8000000000000000);
                assert(false);
            }
        }
        v = v / 2;
        r += 1;
    }
    r
}

} // verus!
