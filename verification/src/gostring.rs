//! Chains of stones: a connected same-color group together with its
//! liberty set.

use vstd::prelude::*;
use vstd::seq_lib::*;
use vstd::set_lib::*;
use crate::gotypes::{Color, Point};

verus! {

/// True when `v` contains `p`.
pub(crate) fn contains_point(v: &Vec<Point>, p: Point) -> (r: bool)
    ensures
        r == v@.contains(p),
{
    let mut i: usize = 0;
    while i < v.len()
        invariant
            0 <= i <= v@.len(),
            forall|k: int| 0 <= k < i ==> v@[k] != p,
        decreases v@.len() - i,
    {
        if v[i] == p {
            return true;
        }
        i += 1;
    }
    false
}

/// Inserts `p` into the duplicate-free vector `v` unless it is already there.
pub(crate) fn push_unique(v: &mut Vec<Point>, p: Point)
    requires
        old(v)@.no_duplicates(),
    ensures
        final(v)@.no_duplicates(),
        final(v)@.to_set() == old(v)@.to_set().insert(p),
        forall|x: Point| final(v)@.contains(x) <==> old(v)@.contains(x) || x == p,
{
    if !contains_point(v, p) {
        proof {
            old(v)@.lemma_push_to_set_commute(p);
            lemma_push_no_dup(old(v)@, p);
        }
        v.push(p);
        proof {
            assert forall|x: Point| v@.contains(x) <==> old(v)@.contains(x) || x == p by {
                lemma_seq_contains_after_push(old(v)@, p, x);
            }
        }
    } else {
        proof {
            assert(v@.to_set() =~= v@.to_set().insert(p));
        }
    }
}

/// Removes `p` from the duplicate-free vector `v` if present; reports
/// whether it was there.
pub(crate) fn remove_point(v: &mut Vec<Point>, p: Point) -> (r: bool)
    requires
        old(v)@.no_duplicates(),
    ensures
        final(v)@.no_duplicates(),
        final(v)@.to_set() == old(v)@.to_set().remove(p),
        r == old(v)@.contains(p),
{
    let ghost s0 = old(v)@;
    let mut out: Vec<Point> = Vec::new();
    let mut found = false;
    let mut i: usize = 0;
    while i < v.len()
        invariant
            0 <= i <= v@.len(),
            v@ == s0,
            s0.no_duplicates(),
            out@.no_duplicates(),
            out@.to_set() == s0.take(i as int).to_set().remove(p),
            found == s0.take(i as int).contains(p),
        decreases v@.len() - i,
    {
        let x = v[i];
        proof {
            lemma_take_set_step(s0, i as int);
            assert(s0.take(i + 1).contains(s0[i as int])) by {
                assert(s0.take(i + 1)[i as int] == s0[i as int]);
            }
            assert forall|k: int| 0 <= k < i implies s0.take(i as int)[k] == s0[k] by {}
        }
        if x == p {
            found = true;
            proof {
                assert(out@.to_set() =~= s0.take(i + 1).to_set().remove(p));
            }
        } else {
            proof {
                assert(!out@.contains(x)) by {
                    if out@.contains(x) {
                        assert(out@.to_set().contains(x));
                        assert(s0.take(i as int).contains(x));
                    }
                }
                assert(!out@.to_set().contains(x)) by {
                    if s0.take(i as int).contains(x) {
                        let k = choose|k: int| 0 <= k < i && s0.take(i as int)[k] == x;
                        assert(s0[k] == x);
                        assert(s0[i as int] == x);
                        assert(false);
                    }
                }
                lemma_push_no_dup(out@, x);
                out@.lemma_push_to_set_commute(x);
            }
            out.push(x);
            proof {
                assert(out@.to_set() =~= s0.take(i + 1).to_set().remove(p));
                if s0.take(i + 1).contains(p) {
                    assert(s0.take(i as int).contains(p)) by {
                        let k = choose|k: int|
                            0 <= k < i + 1 && #[trigger] s0.take(i + 1)[k] == p;
                        assert(k != i);
                        assert(s0.take(i as int)[k] == p);
                    }
                }
            }
        }
        i += 1;
    }
    proof {
        assert(s0.take(s0.len() as int) =~= s0);
    }
    *v = out;
    found
}

/// Returns a copy of `v`.
pub(crate) fn copy_points(v: &Vec<Point>) -> (r: Vec<Point>)
    ensures
        r@ == v@,
{
    let mut r: Vec<Point> = Vec::new();
    let mut i: usize = 0;
    while i < v.len()
        invariant
            0 <= i <= v@.len(),
            r@ == v@.take(i as int),
        decreases v@.len() - i,
    {
        r.push(v[i]);
        proof {
            assert(r@ =~= v@.take(i + 1));
        }
        i += 1;
    }
    proof {
        assert(v@.take(v@.len() as int) =~= v@);
    }
    r
}

/// Returns a duplicate-free vector with the same point set as `v`.
pub(crate) fn dedup_points(v: &Vec<Point>) -> (r: Vec<Point>)
    ensures
        r@.no_duplicates(),
        r@.to_set() == v@.to_set(),
{
    let mut r: Vec<Point> = Vec::new();
    let mut i: usize = 0;
    while i < v.len()
        invariant
            0 <= i <= v@.len(),
            r@.no_duplicates(),
            r@.to_set() == v@.take(i as int).to_set(),
        decreases v@.len() - i,
    {
        push_unique(&mut r, v[i]);
        proof {
            lemma_take_set_step(v@, i as int);
        }
        i += 1;
    }
    proof {
        assert(v@.take(v@.len() as int) =~= v@);
    }
    r
}

/// True when the point sets of `a` and `b` satisfy
/// `a@.to_set() <= b@.to_set()`.
pub(crate) fn points_subset(a: &Vec<Point>, b: &Vec<Point>) -> (r: bool)
    ensures
        r == a@.to_set().subset_of(b@.to_set()),
{
    let mut i: usize = 0;
    while i < a.len()
        invariant
            0 <= i <= a@.len(),
            forall|k: int| 0 <= k < i ==> b@.contains(#[trigger] a@[k]),
        decreases a@.len() - i,
    {
        if !contains_point(b, a[i]) {
            proof {
                assert(a@.to_set().contains(a@[i as int]));
                assert(!b@.to_set().contains(a@[i as int]));
            }
            return false;
        }
        i += 1;
    }
    proof {
        assert forall|x: Point| a@.to_set().contains(x) implies b@.to_set().contains(x) by {
            let k = choose|k: int| 0 <= k < a@.len() && a@[k] == x;
            assert(b@.contains(a@[k]));
        }
    }
    true
}

/// True when `v` contains the index `u`.
pub(crate) fn contains_index(v: &Vec<usize>, u: usize) -> (r: bool)
    ensures
        r == v@.contains(u),
{
    let mut i: usize = 0;
    while i < v.len()
        invariant
            0 <= i <= v@.len(),
            forall|k: int| 0 <= k < i ==> v@[k] != u,
        decreases v@.len() - i,
    {
        if v[i] == u {
            return true;
        }
        i += 1;
    }
    false
}

/// Pushing an element that a duplicate-free index sequence does not contain
/// keeps it duplicate-free.
pub proof fn lemma_push_no_dup_index(s: Seq<usize>, u: usize)
    requires
        s.no_duplicates(),
        !s.contains(u),
    ensures
        s.push(u).no_duplicates(),
{
    let t = s.push(u);
    assert forall|i: int, j: int|
        0 <= i < t.len() && 0 <= j < t.len() && i != j implies t[i] != t[j] by {
        if i < s.len() && j < s.len() {
            assert(t[i] == s[i] && t[j] == s[j]);
        } else if j == s.len() {
            assert(t[i] == s[i] && t[j] == u);
            if s[i] == u {
                assert(s.contains(u));
            }
        } else {
            assert(t[j] == s[j] && t[i] == u);
            if s[j] == u {
                assert(s.contains(u));
            }
        }
    }
}

/// Inserts the index `u` into the duplicate-free vector `v` unless it is
/// already there.
pub(crate) fn push_unique_index(v: &mut Vec<usize>, u: usize)
    requires
        old(v)@.no_duplicates(),
    ensures
        final(v)@.no_duplicates(),
        forall|w: usize| final(v)@.contains(w) <==> old(v)@.contains(w) || w == u,
    {
    if !contains_index(v, u) {
        proof {
            lemma_push_no_dup_index(old(v)@, u);
        }
        v.push(u);
        proof {
            assert forall|w: usize| v@.contains(w) <==> old(v)@.contains(w) || w == u by {
                lemma_seq_contains_after_push(old(v)@, u, w);
            }
        }
    }
}

/// A chain of stones: a 4-connected group of one color, tracked with the
/// set of its liberties (empty points adjacent to the group).  A chain on
/// a board is replaced, never mutated in place, by the moves that touch it.
#[derive(Clone, Debug)]
#[verifier::ext_equal]
pub struct GoString {
    pub color: Color,
    pub stones: Vec<Point>,
    pub liberties: Vec<Point>,
}

impl GoString {
    /// The set of points occupied by the chain's stones.
    pub open spec fn stone_set(self) -> Set<Point> {
        self.stones@.to_set()
    }

    /// The set of the chain's liberties.
    pub open spec fn lib_set(self) -> Set<Point> {
        self.liberties@.to_set()
    }

    /// Internal well-formedness: both vectors represent sets.
    pub open spec fn wf(self) -> bool {
        self.stones@.no_duplicates() && self.liberties@.no_duplicates()
    }

    /// Constructs a chain from a color, its stones, and its liberties.
    /// Duplicates in the inputs are collapsed.
    pub fn new(color: Color, stones: Vec<Point>, liberties: Vec<Point>) -> (r: GoString)
        ensures
            r.wf(),
            r.color == color,
            r.stone_set() == stones@.to_set(),
            r.lib_set() == liberties@.to_set(),
    {
        GoString { color, stones: dedup_points(&stones), liberties: dedup_points(&liberties) }
    }

    /// The chain's color.
    pub fn get_color(&self) -> (r: Color)
        ensures
            r == self.color,
    {
        self.color
    }

    /// The chain's stones, as a fresh vector.
    pub fn get_stones(&self) -> (r: Vec<Point>)
        ensures
            r@ == self.stones@,
    {
        copy_points(&self.stones)
    }

    /// The chain's stones, borrowed.
    pub fn get_stones2(&self) -> (r: &Vec<Point>)
        ensures
            r@ == self.stones@,
    {
        &self.stones
    }

    /// True when `point` is one of the chain's stones.
    pub fn has_stone(&self, point: &Point) -> (r: bool)
        ensures
            r == self.stone_set().contains(*point),
    {
        contains_point(&self.stones, *point)
    }

    /// True when `point` is one of the chain's liberties.
    pub fn has_liberty(&self, point: &Point) -> (r: bool)
        ensures
            r == self.lib_set().contains(*point),
    {
        contains_point(&self.liberties, *point)
    }

    /// The number of the chain's liberties.
    pub fn num_liberties(&self) -> (r: usize)
        requires
            self.wf(),
        ensures
            r == self.lib_set().len(),
    {
        proof {
            self.liberties@.unique_seq_to_set();
        }
        self.liberties.len()
    }

    /// Adds a liberty; inserting one that is already present changes nothing.
    pub fn add_liberty(&mut self, point: Point)
        requires
            old(self).wf(),
        ensures
            final(self).wf(),
            final(self).color == old(self).color,
            final(self).stones@ == old(self).stones@,
            final(self).stone_set() == old(self).stone_set(),
            final(self).lib_set() == old(self).lib_set().insert(point),
    {
        push_unique(&mut self.liberties, point);
    }

    /// Removes a liberty; reports whether the point was present.
    pub fn remove_liberty(&mut self, point: &Point) -> (r: bool)
        requires
            old(self).wf(),
        ensures
            final(self).wf(),
            final(self).color == old(self).color,
            final(self).stones@ == old(self).stones@,
            final(self).stone_set() == old(self).stone_set(),
            final(self).lib_set() == old(self).lib_set().remove(*point),
            r == old(self).lib_set().contains(*point),
    {
        remove_point(&mut self.liberties, *point)
    }

    /// Merges `other` into this chain.  Only chains of one color can merge;
    /// the result holds the union of both stone sets, and the union of both
    /// liberty sets purged of every point that is now a stone of the merged
    /// chain.
    pub fn merged_with(&mut self, other: &GoString)
        requires
            old(self).wf(),
            other.wf(),
            old(self).color == other.color,
        ensures
            final(self).wf(),
            final(self).color == old(self).color,
            final(self).stone_set() == old(self).stone_set().union(other.stone_set()),
            final(self).lib_set() == old(self).lib_set().union(other.lib_set()).difference(
                old(self).stone_set().union(other.stone_set()),
            ),
    {
        let ghost s0 = old(self).stone_set();
        let ghost l0 = old(self).lib_set();
        let mut i: usize = 0;
        while i < other.stones.len()
            invariant
                0 <= i <= other.stones@.len(),
                self.color == old(self).color,
                self.liberties == old(self).liberties,
                self.stones@.no_duplicates(),
                self.liberties@.no_duplicates(),
                self.stones@.to_set() == s0.union(other.stones@.take(i as int).to_set()),
            decreases other.stones@.len() - i,
        {
            push_unique(&mut self.stones, other.stones[i]);
            proof {
                lemma_take_set_step(other.stones@, i as int);
                assert(self.stones@.to_set() =~= s0.union(other.stones@.take(i + 1).to_set()));
            }
            i += 1;
        }
        proof {
            assert(other.stones@.take(other.stones@.len() as int) =~= other.stones@);
        }
        let mut j: usize = 0;
        while j < other.liberties.len()
            invariant
                0 <= j <= other.liberties@.len(),
                self.color == old(self).color,
                self.stones@.no_duplicates(),
                self.liberties@.no_duplicates(),
                self.stones@.to_set() == s0.union(other.stone_set()),
                self.liberties@.to_set() == l0.union(other.liberties@.take(j as int).to_set()),
            decreases other.liberties@.len() - j,
        {
            push_unique(&mut self.liberties, other.liberties[j]);
            proof {
                lemma_take_set_step(other.liberties@, j as int);
                assert(self.liberties@.to_set() =~= l0.union(
                    other.liberties@.take(j + 1).to_set(),
                ));
            }
            j += 1;
        }
        proof {
            assert(other.liberties@.take(other.liberties@.len() as int) =~= other.liberties@);
        }
        let ghost lu = l0.union(other.lib_set());
        let mut k: usize = 0;
        while k < self.stones.len()
            invariant
                0 <= k <= self.stones@.len(),
                self.color == old(self).color,
                self.stones@.no_duplicates(),
                self.liberties@.no_duplicates(),
                self.stones@.to_set() == s0.union(other.stone_set()),
                self.liberties@.to_set() == lu.difference(self.stones@.take(k as int).to_set()),
            decreases self.stones@.len() - k,
        {
            let p = self.stones[k];
            remove_point(&mut self.liberties, p);
            proof {
                lemma_take_set_step(self.stones@, k as int);
                assert(self.liberties@.to_set() =~= lu.difference(
                    self.stones@.take(k + 1).to_set(),
                ));
            }
            k += 1;
        }
        proof {
            assert(self.stones@.take(self.stones@.len() as int) =~= self.stones@);
        }
    }

    /// Structural comparison of two chains: same color, same stone set,
    /// same liberty set.
    pub fn equal(&self, other: &GoString) -> (r: bool)
        ensures
            r == (self.color == other.color && self.stone_set() == other.stone_set()
                && self.lib_set() == other.lib_set()),
    {
        let r = self.color == other.color && points_subset(&self.stones, &other.stones)
            && points_subset(&other.stones, &self.stones)
            && points_subset(&self.liberties, &other.liberties)
            && points_subset(&other.liberties, &self.liberties);
        proof {
            if r {
                assert(self.stone_set() =~= other.stone_set());
                assert(self.lib_set() =~= other.lib_set());
            }
        }
        r
    }

    /// Returns a copy of the chain: same color, same stones, same liberties.
    pub fn duplicate(&self) -> (r: GoString)
        ensures
            r.color == self.color,
            r.stones@ == self.stones@,
            r.liberties@ == self.liberties@,
            r.wf() == self.wf(),
            r.stone_set() == self.stone_set(),
            r.lib_set() == self.lib_set(),
    {
        GoString {
            color: self.color,
            stones: copy_points(&self.stones),
            liberties: copy_points(&self.liberties),
        }
    }
}

/// Pushing an element that a duplicate-free sequence does not contain
/// keeps it duplicate-free.
pub proof fn lemma_push_no_dup(s: Seq<Point>, p: Point)
    requires
        s.no_duplicates(),
        !s.contains(p),
    ensures
        s.push(p).no_duplicates(),
{
    let t = s.push(p);
    assert forall|i: int, j: int|
        0 <= i < t.len() && 0 <= j < t.len() && i != j implies t[i] != t[j] by {
        if i < s.len() && j < s.len() {
            assert(t[i] == s[i] && t[j] == s[j]);
        } else if j == s.len() {
            assert(t[i] == s[i] && t[j] == p);
            if s[i] == p {
                assert(s.contains(p));
            }
        } else {
            assert(t[j] == s[j] && t[i] == p);
            if s[j] == p {
                assert(s.contains(p));
            }
        }
    }
}

/// Taking one more element of a sequence adds exactly that element to the
/// set of the prefix.
pub proof fn lemma_take_set_step(s: Seq<Point>, i: int)
    requires
        0 <= i < s.len(),
    ensures
        s.take(i + 1).to_set() == s.take(i).to_set().insert(s[i]),
{
    assert(s.take(i + 1) =~= s.take(i).push(s[i]));
    s.take(i).lemma_push_to_set_commute(s[i]);
}

/// Merging two chains with disjoint stone sets yields a stone count equal
/// to the sum of the two counts; together with `merged_with`'s contract
/// this pins down the merge of two adjacent singleton chains.
pub proof fn lemma_merged_stone_count(a: GoString, b: GoString)
    requires
        a.wf(),
        b.wf(),
        a.stone_set().disjoint(b.stone_set()),
    ensures
        a.stone_set().union(b.stone_set()).len() == a.stone_set().len() + b.stone_set().len(),
{
    broadcast use vstd::seq_lib::seq_to_set_is_finite;

    lemma_set_disjoint_lens(a.stone_set(), b.stone_set());
}

} // verus!
