//! The board: a grid holding disjoint chains of stones, with stone
//! placement, liberty bookkeeping, and capture.

use vstd::prelude::*;
use crate::error::{FatalError, FatalKind};
use crate::gostring::{
    contains_index, lemma_take_set_step, push_unique, push_unique_index, GoString,
};
use crate::gotypes::{adjacent, points_adjacent, Color, Point, Stone};

verus! {

/// A board of `num_rows × num_cols` points holding the chains currently
/// alive on it.  Each occupied point belongs to exactly one chain.
#[derive(Clone, Debug)]
#[verifier::ext_equal]
pub struct Board {
    pub num_rows: usize,
    pub num_cols: usize,
    pub chains: Vec<GoString>,
}

impl Board {
    /// True when `p` lies within the grid.
    pub open spec fn on_grid_spec(self, p: Point) -> bool {
        1 <= p.row <= self.num_rows && 1 <= p.col <= self.num_cols
    }

    /// True when some chain occupies `p`.
    pub open spec fn occupied(self, p: Point) -> bool {
        exists|j: int|
            0 <= j < self.chains@.len() && (#[trigger] self.chains@[j]).stone_set().contains(p)
    }

    /// The chain occupying `p`; meaningful only when `occupied(p)` holds,
    /// in which case well-formedness makes it unique.
    pub open spec fn chain_at(self, p: Point) -> GoString {
        self.chains@[choose|j: int|
            0 <= j < self.chains@.len() && (#[trigger] self.chains@[j]).stone_set().contains(p)]
    }

    /// The color of the stone on `p`, or `None` for an empty point.
    pub open spec fn color_at(self, p: Point) -> Option<Color> {
        if self.occupied(p) {
            Some(self.chain_at(p).color)
        } else {
            None
        }
    }

    /// Well-formedness of the chain stored at index `i`.
    pub open spec fn chain_ok(self, i: int) -> bool {
        let c = self.chains@[i];
        &&& c.wf()
        &&& c.stones@.len() > 0
        &&& c.stone_set().disjoint(c.lib_set())
        &&& forall|p: Point| #[trigger] c.stone_set().contains(p) ==> self.on_grid_spec(p)
    }

    /// Well-formedness of the whole board: valid dimensions, every chain
    /// well-formed, non-empty, liberty-disjoint and on the grid, and no
    /// point occupied by two chains.
    pub open spec fn wf(self) -> bool {
        &&& 1 <= self.num_rows < usize::MAX
        &&& 1 <= self.num_cols < usize::MAX
        &&& forall|i: int| 0 <= i < self.chains@.len() ==> #[trigger] self.chain_ok(i)
        &&& forall|i: int, j: int|
            0 <= i < self.chains@.len() && 0 <= j < self.chains@.len() && i != j
                ==> (#[trigger] self.chains@[i]).stone_set().disjoint(
                (#[trigger] self.chains@[j]).stone_set(),
            )
    }

    /// On a well-formed board the chain holding a point is unique: any
    /// index whose chain contains `p` yields `chain_at(p)`.
    pub proof fn lemma_chain_at(self, i: int, p: Point)
        requires
            self.wf(),
            0 <= i < self.chains@.len(),
            self.chains@[i].stone_set().contains(p),
        ensures
            self.occupied(p),
            self.chain_at(p) == self.chains@[i],
    {
        assert(self.occupied(p));
        let j = choose|j: int|
            0 <= j < self.chains@.len() && (#[trigger] self.chains@[j]).stone_set().contains(p);
        if i != j {
            assert(self.chains@[i].stone_set().disjoint(self.chains@[j].stone_set()));
            assert(false);
        }
    }

    /// The chain at an occupied point of a well-formed board is itself
    /// well-formed.
    pub proof fn lemma_chain_at_ok(self, p: Point)
        requires
            self.wf(),
            self.occupied(p),
        ensures
            self.chain_at(p).wf(),
            self.chain_at(p).stones@.len() > 0,
            self.chain_at(p).stone_set().disjoint(self.chain_at(p).lib_set()),
    {
        let j = choose|j: int|
            0 <= j < self.chains@.len() && (#[trigger] self.chains@[j]).stone_set().contains(p);
        assert(self.chain_ok(j));
    }

    /// Every occupied point lies on the grid.
    pub proof fn lemma_occupied_on_grid(self, p: Point)
        requires
            self.wf(),
            self.occupied(p),
        ensures
            self.on_grid_spec(p),
    {
        let j = choose|j: int|
            0 <= j < self.chains@.len() && (#[trigger] self.chains@[j]).stone_set().contains(p);
        assert(self.chain_ok(j));
    }

    /// Constructs an empty board.
    pub fn new(num_rows: usize, num_cols: usize) -> (r: Board)
        requires
            1 <= num_rows < usize::MAX,
            1 <= num_cols < usize::MAX,
        ensures
            r.wf(),
            r.num_rows == num_rows,
            r.num_cols == num_cols,
            forall|p: Point| !r.occupied(p),
    {
        Board { num_rows, num_cols, chains: Vec::new() }
    }

    /// True when `point` lies within the grid.
    pub fn is_on_grid(&self, point: &Point) -> (r: bool)
        ensures
            r == self.on_grid_spec(*point),
    {
        1 <= point.row && point.row <= self.num_rows && 1 <= point.col && point.col <= self.num_cols
    }

    /// The index of the chain occupying `point`, if any.
    pub(crate) fn find_chain_index(&self, point: &Point) -> (r: Option<usize>)
        requires
            self.wf(),
        ensures
            match r {
                None => !self.occupied(*point),
                Some(i) => i < self.chains@.len() && self.chains@[i as int].stone_set().contains(
                    *point,
                ) && self.occupied(*point) && self.chain_at(*point) == self.chains@[i as int],
            },
    {
        let mut i: usize = 0;
        while i < self.chains.len()
            invariant
                self.wf(),
                0 <= i <= self.chains@.len(),
                forall|k: int|
                    0 <= k < i ==> !(#[trigger] self.chains@[k]).stone_set().contains(*point),
            decreases self.chains@.len() - i,
        {
            if self.chains[i].has_stone(point) {
                proof {
                    self.lemma_chain_at(i as int, *point);
                }
                return Some(i);
            }
            i += 1;
        }
        None
    }

    /// The chain occupying `point`, if any.
    pub fn get_go_string(&self, point: &Point) -> (r: Option<&GoString>)
        requires
            self.wf(),
        ensures
            match r {
                None => !self.occupied(*point),
                Some(c) => self.occupied(*point) && *c == self.chain_at(*point),
            },
    {
        match self.find_chain_index(point) {
            None => None,
            Some(i) => Some(&self.chains[i]),
        }
    }

    /// Returns a copy of the board showing the same position.  Historical
    /// snapshots stay valid: a move applied to the copy never touches the
    /// original.
    pub fn duplicate(&self) -> (r: Board)
        ensures
            r.num_rows == self.num_rows,
            r.num_cols == self.num_cols,
            r.chains@.len() == self.chains@.len(),
            forall|i: int|
                0 <= i < self.chains@.len() ==> {
                    let c = #[trigger] r.chains@[i];
                    c.color == self.chains@[i].color && c.stones@ == self.chains@[i].stones@
                        && c.liberties@ == self.chains@[i].liberties@
                },
            self.wf() ==> r.wf() && r.same_position(*self),
    {
        let mut chains: Vec<GoString> = Vec::new();
        let mut i: usize = 0;
        while i < self.chains.len()
            invariant
                0 <= i <= self.chains@.len(),
                chains@.len() == i,
                forall|k: int|
                    0 <= k < i ==> {
                        let c = #[trigger] chains@[k];
                        c.color == self.chains@[k].color && c.stones@ == self.chains@[k].stones@
                            && c.liberties@ == self.chains@[k].liberties@
                    },
            decreases self.chains@.len() - i,
        {
            chains.push(self.chains[i].duplicate());
            i += 1;
        }
        let r = Board { num_rows: self.num_rows, num_cols: self.num_cols, chains };
        proof {
            if self.wf() {
                assert forall|k: int| 0 <= k < r.chains@.len() implies r.chain_ok(k) by {
                    assert(self.chain_ok(k));
                    assert(r.chains@[k].stone_set() == self.chains@[k].stone_set());
                    assert(r.chains@[k].lib_set() == self.chains@[k].lib_set());
                    assert(r.chains@[k].wf());
                    assert forall|p: Point|
                        r.chains@[k].stone_set().contains(p) implies r.on_grid_spec(p) by {
                        assert(self.chains@[k].stone_set().contains(p));
                    }
                }
                assert forall|k: int, j: int|
                    0 <= k < r.chains@.len() && 0 <= j < r.chains@.len() && k
                        != j implies (#[trigger] r.chains@[k]).stone_set().disjoint(
                    (#[trigger] r.chains@[j]).stone_set(),
                ) by {
                    assert(self.chains@[k].stone_set().disjoint(self.chains@[j].stone_set()));
                }
                assert(r.wf());
                assert forall|p: Point| #[trigger] r.color_at(p) == self.color_at(p) by {
                    if self.occupied(p) {
                        let j = choose|j: int|
                            0 <= j < self.chains@.len() && (#[trigger] self.chains@[j]).stone_set().contains(p);
                        assert(r.chains@[j].stone_set().contains(p));
                        r.lemma_chain_at(j, p);
                        self.lemma_chain_at(j, p);
                    } else if r.occupied(p) {
                        let j = choose|j: int|
                            0 <= j < r.chains@.len() && (#[trigger] r.chains@[j]).stone_set().contains(p);
                        assert(self.chains@[j].stone_set().contains(p));
                    }
                }
            }
        }
        r
    }

    /// Two chains holding the same value sit at the same index: chains are
    /// non-empty and pairwise stone-disjoint.
    pub proof fn lemma_value_eq_index(self, i: int, j: int)
        requires
            self.wf(),
            0 <= i < self.chains@.len(),
            0 <= j < self.chains@.len(),
            self.chains@[i] == self.chains@[j],
        ensures
            i == j,
    {
        assert(self.chain_ok(i));
        let p = self.chains@[i].stones@[0];
        assert(self.chains@[i].stone_set().contains(p));
        if i != j {
            assert(self.chains@[i].stone_set().disjoint(self.chains@[j].stone_set()));
        }
    }

    /// The chain at index `i` has a stone adjacent to `pt`.
    pub open spec fn chain_adjacent(self, pt: Point, i: int) -> bool {
        exists|q: Point|
            adjacent(q, pt) && (#[trigger] self.chains@[i].stone_set().contains(q))
    }

    /// The union of the stone sets of the chains at the indices in `idxs`.
    pub open spec fn stones_of(self, idxs: Seq<usize>) -> Set<Point> {
        Set::new(
            |x: Point|
                exists|k: int|
                    0 <= k < idxs.len() && (#[trigger] self.chains@[idxs[k] as int].stone_set().contains(x)),
        )
    }

    /// The union of the liberty sets of the chains at the indices in `idxs`.
    pub open spec fn libs_of(self, idxs: Seq<usize>) -> Set<Point> {
        Set::new(
            |y: Point|
                exists|k: int|
                    0 <= k < idxs.len() && (#[trigger] self.chains@[idxs[k] as int].lib_set().contains(y)),
        )
    }

    /// Extending an index list by one element adds exactly that chain's
    /// stones and liberties to the unions.
    pub proof fn lemma_of_take_step(self, idxs: Seq<usize>, m: int)
        requires
            0 <= m < idxs.len(),
        ensures
            self.stones_of(idxs.take(m + 1)) == self.stones_of(idxs.take(m)).union(
                self.chains@[idxs[m] as int].stone_set(),
            ),
            self.libs_of(idxs.take(m + 1)) == self.libs_of(idxs.take(m)).union(
                self.chains@[idxs[m] as int].lib_set(),
            ),
    {
        let a = idxs.take(m);
        let b = idxs.take(m + 1);
        assert forall|k: int| 0 <= k < m + 1 implies #[trigger] b[k] == idxs[k] by {}
        assert forall|k: int| 0 <= k < m implies #[trigger] a[k] == idxs[k] by {}
        assert(self.stones_of(b) =~= self.stones_of(a).union(
            self.chains@[idxs[m] as int].stone_set(),
        )) by {
            assert forall|x: Point| self.stones_of(b).contains(x) implies self.stones_of(a).union(
                self.chains@[idxs[m] as int].stone_set(),
            ).contains(x) by {
                let k = choose|k: int|
                    0 <= k < b.len() && (#[trigger] self.chains@[b[k] as int].stone_set().contains(
                        x,
                    ));
                if k < m {
                    assert(self.chains@[a[k] as int].stone_set().contains(x));
                }
            }
            assert forall|x: Point|
                self.stones_of(a).contains(x) implies self.stones_of(b).contains(x) by {
                let k = choose|k: int|
                    0 <= k < a.len() && (#[trigger] self.chains@[a[k] as int].stone_set().contains(
                        x,
                    ));
                assert(self.chains@[b[k] as int].stone_set().contains(x));
            }
            assert forall|x: Point|
                self.chains@[idxs[m] as int].stone_set().contains(x) implies self.stones_of(
                b,
            ).contains(x) by {
                assert(self.chains@[b[m] as int].stone_set().contains(x));
            }
        }
        assert(self.libs_of(b) =~= self.libs_of(a).union(self.chains@[idxs[m] as int].lib_set()))
            by {
            assert forall|y: Point| self.libs_of(b).contains(y) implies self.libs_of(a).union(
                self.chains@[idxs[m] as int].lib_set(),
            ).contains(y) by {
                let k = choose|k: int|
                    0 <= k < b.len() && (#[trigger] self.chains@[b[k] as int].lib_set().contains(
                        y,
                    ));
                if k < m {
                    assert(self.chains@[a[k] as int].lib_set().contains(y));
                }
            }
            assert forall|y: Point| self.libs_of(a).contains(y) implies self.libs_of(b).contains(
                y,
            ) by {
                let k = choose|k: int|
                    0 <= k < a.len() && (#[trigger] self.chains@[a[k] as int].lib_set().contains(
                        y,
                    ));
                assert(self.chains@[b[k] as int].lib_set().contains(y));
            }
            assert forall|y: Point|
                self.chains@[idxs[m] as int].lib_set().contains(y) implies self.libs_of(
                b,
            ).contains(y) by {
                assert(self.chains@[b[m] as int].lib_set().contains(y));
            }
        }
    }

    /// The empty on-grid neighbors of `pt`: the liberties a lone stone
    /// played on `pt` starts with.
    pub open spec fn new_liberties(self, pt: Point) -> Set<Point> {
        Set::new(|q: Point| adjacent(q, pt) && self.on_grid_spec(q) && !self.occupied(q))
    }

    /// `x` belongs to a chain that has a stone adjacent to `pt`.
    pub open spec fn in_adjacent_chain(self, pt: Point, x: Point) -> bool {
        self.occupied(x) && exists|q: Point|
            adjacent(q, pt) && self.occupied(q) && #[trigger] self.chain_at(q) == self.chain_at(x)
    }

    /// The stones of the chains of color `c` adjacent to `pt`.
    pub open spec fn friendly_points(self, pt: Point, c: Color) -> Set<Point> {
        Set::new(|x: Point| self.in_adjacent_chain(pt, x) && self.chain_at(x).color == c)
    }

    /// The liberties of the chains of color `c` adjacent to `pt`.
    pub open spec fn friendly_liberties(self, pt: Point, c: Color) -> Set<Point> {
        Set::new(
            |y: Point|
                exists|x: Point|
                    (#[trigger] self.chain_at(x)).lib_set().contains(y) && self.in_adjacent_chain(
                        pt,
                        x,
                    ) && self.chain_at(x).color == c,
        )
    }

    /// The stones of the merged chain created by playing a stone of color
    /// `c` on `pt`: the point itself united with every adjacent chain of
    /// the same color.
    pub open spec fn merged_stones(self, pt: Point, c: Color) -> Set<Point> {
        self.friendly_points(pt, c).insert(pt)
    }

    /// The liberties of the merged chain before capture processing: the
    /// empty neighbors of `pt` and the liberties of the absorbed chains,
    /// purged of the merged chain's own stones.
    pub open spec fn merged_base_liberties(self, pt: Point, c: Color) -> Set<Point> {
        self.new_liberties(pt).union(self.friendly_liberties(pt, c)).difference(
            self.merged_stones(pt, c),
        )
    }

    /// The stones of the opposite-color chains adjacent to `pt` whose only
    /// liberty is `pt` itself: playing on `pt` captures exactly these.
    pub open spec fn doomed_points(self, pt: Point, c: Color) -> Set<Point> {
        Set::new(
            |x: Point|
                self.in_adjacent_chain(pt, x) && self.chain_at(x).color != c && self.chain_at(
                    x,
                ).lib_set().subset_of(Set::empty().insert(pt)),
        )
    }

    /// The liberty set of the chain owning the played stone once capture
    /// processing has run: each captured point adjacent to the chain is
    /// regained as a liberty.
    pub open spec fn placed_chain_liberties(self, stone: Stone) -> Set<Point> {
        self.merged_base_liberties(stone.point, stone.color).union(
            restored_liberties(
                self.merged_stones(stone.point, stone.color),
                self.doomed_points(stone.point, stone.color),
            ),
        )
    }

    /// The move is suicide: after captures, the played stone's chain would
    /// have no liberties.
    pub open spec fn placement_is_suicide(self, stone: Stone) -> bool {
        forall|y: Point| !(#[trigger] self.placed_chain_liberties(stone).contains(y))
    }

    /// Point-by-point occupancy after placing `stone`: the played point is
    /// taken, captured points become empty, everything else is unchanged.
    pub open spec fn placed_color_at(self, stone: Stone, p: Point) -> Option<Color> {
        if p == stone.point {
            Some(stone.color)
        } else if self.occupied(p) && !self.doomed_points(stone.point, stone.color).contains(p) {
            Some(self.chain_at(p).color)
        } else {
            None
        }
    }

    /// A point of a chain adjacent to `pt` witnesses that chain's index as
    /// adjacent to `pt`.
    pub proof fn lemma_in_adjacent_chain_index(self, pt: Point, x: Point, ii: int)
        requires
            self.wf(),
            self.in_adjacent_chain(pt, x),
            0 <= ii < self.chains@.len(),
            self.chains@[ii].stone_set().contains(x),
        ensures
            self.chain_adjacent(pt, ii),
            self.chain_at(x) == self.chains@[ii],
    {
        self.lemma_chain_at(ii, x);
        let q = choose|q: Point|
            adjacent(q, pt) && self.occupied(q) && #[trigger] self.chain_at(q) == self.chain_at(x);
        let iq = choose|j: int|
            0 <= j < self.chains@.len() && (#[trigger] self.chains@[j]).stone_set().contains(q);
        self.lemma_chain_at(iq, q);
        self.lemma_value_eq_index(ii, iq);
        assert(self.chains@[ii].stone_set().contains(q));
    }

    /// Conversely, every stone of a chain adjacent to `pt` lies in an
    /// adjacent chain.
    pub proof fn lemma_chain_adjacent_point(self, pt: Point, ii: int, x: Point)
        requires
            self.wf(),
            0 <= ii < self.chains@.len(),
            self.chain_adjacent(pt, ii),
            self.chains@[ii].stone_set().contains(x),
        ensures
            self.in_adjacent_chain(pt, x),
            self.chain_at(x) == self.chains@[ii],
    {
        self.lemma_chain_at(ii, x);
        let q = choose|q: Point|
            adjacent(q, pt) && (#[trigger] self.chains@[ii].stone_set().contains(q));
        self.lemma_chain_at(ii, q);
        assert(self.occupied(q) && self.chain_at(q) == self.chain_at(x));
    }

    /// An index list that holds exactly the adjacent same-color chains
    /// denotes the friendly stone and liberty sets.
    pub proof fn lemma_same_idxs_sets(self, pt: Point, c: Color, idxs: Seq<usize>)
        requires
            self.wf(),
            forall|u: usize|
                #[trigger] idxs.contains(u) ==> u < self.chains@.len()
                    && self.chains@[u as int].color == c && self.chain_adjacent(pt, u as int),
            forall|u: usize|
                u < self.chains@.len() && #[trigger] self.chain_adjacent(pt, u as int)
                    && self.chains@[u as int].color == c ==> idxs.contains(u),
        ensures
            self.stones_of(idxs) == self.friendly_points(pt, c),
            self.libs_of(idxs) == self.friendly_liberties(pt, c),
    {
        assert forall|u: usize, x: Point|
            idxs.contains(u) && (#[trigger] self.chains@[u as int].stone_set().contains(
                x,
            )) implies #[trigger] self.in_adjacent_chain(pt, x) && self.chain_at(x).color == c by {
            let q = choose|q: Point|
                adjacent(q, pt) && (#[trigger] self.chains@[u as int].stone_set().contains(q));
            self.lemma_chain_at(u as int, q);
            self.lemma_chain_at(u as int, x);
            assert(self.occupied(q) && self.chain_at(q) == self.chain_at(x));
        }
        assert forall|x: Point|
            #[trigger] self.in_adjacent_chain(pt, x) && self.chain_at(x).color
                == c implies exists|u: usize|
            #[trigger] idxs.contains(u) && self.chains@[u as int].stone_set().contains(x)
                && self.chains@[u as int] == self.chain_at(x) by {
            let ix = choose|j: int|
                0 <= j < self.chains@.len() && (#[trigger] self.chains@[j]).stone_set().contains(
                    x,
                );
            self.lemma_chain_at(ix, x);
            let q = choose|q: Point|
                adjacent(q, pt) && self.occupied(q) && #[trigger] self.chain_at(q)
                    == self.chain_at(x);
            let iq = choose|j: int|
                0 <= j < self.chains@.len() && (#[trigger] self.chains@[j]).stone_set().contains(
                    q,
                );
            self.lemma_chain_at(iq, q);
            self.lemma_value_eq_index(ix, iq);
            assert(self.chains@[ix].stone_set().contains(q));
            assert(self.chain_adjacent(pt, ix));
            assert(self.chains@.len() <= usize::MAX) by {
                assert(self.chains.len() == self.chains@.len());
            }
            assert((ix as usize) as int == ix);
            assert(self.chain_adjacent(pt, (ix as usize) as int));
            assert(idxs.contains(ix as usize));
            assert(self.chains@[ix as usize as int].stone_set().contains(x));
        }
        assert(self.stones_of(idxs) =~= self.friendly_points(pt, c)) by {
            assert forall|x: Point|
                self.stones_of(idxs).contains(x) implies self.friendly_points(pt, c).contains(
                x,
            ) by {
                let k = choose|k: int|
                    0 <= k < idxs.len() && (#[trigger] self.chains@[idxs[k] as int].stone_set().contains(
                        x,
                    ));
                assert(idxs.contains(idxs[k]));
            }
            assert forall|x: Point|
                self.friendly_points(pt, c).contains(x) implies self.stones_of(idxs).contains(
                x,
            ) by {
                let u = choose|u: usize|
                    #[trigger] idxs.contains(u) && self.chains@[u as int].stone_set().contains(x)
                        && self.chains@[u as int] == self.chain_at(x);
                let k = choose|k: int| 0 <= k < idxs.len() && idxs[k] == u;
                assert(self.chains@[idxs[k] as int].stone_set().contains(x));
            }
        }
        assert(self.libs_of(idxs) =~= self.friendly_liberties(pt, c)) by {
            assert forall|y: Point|
                self.libs_of(idxs).contains(y) implies self.friendly_liberties(pt, c).contains(
                y,
            ) by {
                let k = choose|k: int|
                    0 <= k < idxs.len() && (#[trigger] self.chains@[idxs[k] as int].lib_set().contains(
                        y,
                    ));
                let u = idxs[k];
                assert(idxs.contains(u));
                assert(self.chain_ok(u as int));
                let x = self.chains@[u as int].stones@[0];
                assert(self.chains@[u as int].stone_set().contains(x));
                self.lemma_chain_at(u as int, x);
                assert(self.chain_at(x).lib_set().contains(y));
            }
            assert forall|y: Point|
                self.friendly_liberties(pt, c).contains(y) implies self.libs_of(idxs).contains(
                y,
            ) by {
                let x = choose|x: Point|
                    (#[trigger] self.chain_at(x)).lib_set().contains(y) && self.in_adjacent_chain(
                        pt,
                        x,
                    ) && self.chain_at(x).color == c;
                let u = choose|u: usize|
                    #[trigger] idxs.contains(u) && self.chains@[u as int].stone_set().contains(x)
                        && self.chains@[u as int] == self.chain_at(x);
                let k = choose|k: int| 0 <= k < idxs.len() && idxs[k] == u;
                assert(self.chains@[idxs[k] as int].lib_set().contains(y));
            }
        }
    }

    /// An index list that holds exactly the adjacent opposite-color chains
    /// whose only liberty is the played point denotes the captured stones.
    pub proof fn lemma_doomed_idxs_sets(self, pt: Point, c: Color, idxs: Seq<usize>)
        requires
            self.wf(),
            forall|u: usize|
                #[trigger] idxs.contains(u) ==> u < self.chains@.len()
                    && self.chains@[u as int].color != c && self.chain_adjacent(pt, u as int)
                    && self.chains@[u as int].lib_set().subset_of(Set::empty().insert(pt)),
            forall|u: usize|
                u < self.chains@.len() && #[trigger] self.chain_adjacent(pt, u as int)
                    && self.chains@[u as int].color != c
                    && self.chains@[u as int].lib_set().subset_of(Set::empty().insert(pt))
                    ==> idxs.contains(u),
        ensures
            self.stones_of(idxs) == self.doomed_points(pt, c),
    {
        assert(self.stones_of(idxs) =~= self.doomed_points(pt, c)) by {
            assert forall|x: Point|
                self.stones_of(idxs).contains(x) implies self.doomed_points(pt, c).contains(x) by {
                let k = choose|k: int|
                    0 <= k < idxs.len() && (#[trigger] self.chains@[idxs[k] as int].stone_set().contains(
                        x,
                    ));
                let u = idxs[k];
                assert(idxs.contains(u));
                let q = choose|q: Point|
                    adjacent(q, pt) && (#[trigger] self.chains@[u as int].stone_set().contains(q));
                self.lemma_chain_at(u as int, q);
                self.lemma_chain_at(u as int, x);
                assert(self.occupied(q) && self.chain_at(q) == self.chain_at(x));
                assert(self.in_adjacent_chain(pt, x));
            }
            assert forall|x: Point|
                self.doomed_points(pt, c).contains(x) implies self.stones_of(idxs).contains(x) by {
                let ix = choose|j: int|
                    0 <= j < self.chains@.len() && (#[trigger] self.chains@[j]).stone_set().contains(
                        x,
                    );
                self.lemma_chain_at(ix, x);
                let q = choose|q: Point|
                    adjacent(q, pt) && self.occupied(q) && #[trigger] self.chain_at(q)
                        == self.chain_at(x);
                let iq = choose|j: int|
                    0 <= j < self.chains@.len() && (#[trigger] self.chains@[j]).stone_set().contains(
                        q,
                    );
                self.lemma_chain_at(iq, q);
                self.lemma_value_eq_index(ix, iq);
                assert(self.chains@[ix].stone_set().contains(q));
                assert(self.chain_adjacent(pt, ix));
                assert(self.chains@.len() <= usize::MAX) by {
                    assert(self.chains.len() == self.chains@.len());
                }
                assert((ix as usize) as int == ix);
                assert(self.chain_adjacent(pt, (ix as usize) as int));
                assert(idxs.contains(ix as usize));
                let k = choose|k: int| 0 <= k < idxs.len() && idxs[k] == ix as usize;
                assert(self.chains@[idxs[k] as int].stone_set().contains(x));
            }
        }
    }

    /// Two boards show the same position: same dimensions and the same
    /// stone color (or emptiness) on every point.
    pub open spec fn same_position(self, other: Board) -> bool {
        &&& self.num_rows == other.num_rows
        &&& self.num_cols == other.num_cols
        &&& forall|p: Point| #[trigger] self.color_at(p) == other.color_at(p)
    }

    /// The color of the stone on `point`, or `None` for an empty point.
    pub fn point_color(&self, point: &Point) -> (r: Option<Color>)
        requires
            self.wf(),
        ensures
            r == self.color_at(*point),
    {
        match self.find_chain_index(point) {
            None => None,
            Some(i) => Some(self.chains[i].get_color()),
        }
    }

    /// Compares the full content of two boards, point by point.
    pub fn same_position_as(&self, other: &Board) -> (r: bool)
        requires
            self.wf(),
            other.wf(),
        ensures
            r == self.same_position(*other),
    {
        if self.num_rows != other.num_rows || self.num_cols != other.num_cols {
            return false;
        }
        let mut row: usize = 1;
        while row <= self.num_rows
            invariant
                self.wf(),
                other.wf(),
                self.num_rows == other.num_rows,
                self.num_cols == other.num_cols,
                1 <= row <= self.num_rows + 1,
                forall|p: Point|
                    self.on_grid_spec(p) && p.row < row ==> #[trigger] self.color_at(p)
                        == other.color_at(p),
            decreases self.num_rows + 1 - row,
        {
            let mut col: usize = 1;
            while col <= self.num_cols
                invariant
                    self.wf(),
                    other.wf(),
                    self.num_rows == other.num_rows,
                    self.num_cols == other.num_cols,
                    1 <= row <= self.num_rows,
                    1 <= col <= self.num_cols + 1,
                    forall|p: Point|
                        self.on_grid_spec(p) && p.row < row ==> #[trigger] self.color_at(p)
                            == other.color_at(p),
                    forall|p: Point|
                        self.on_grid_spec(p) && p.row == row && p.col < col
                            ==> #[trigger] self.color_at(p) == other.color_at(p),
                decreases self.num_cols + 1 - col,
            {
                let p = Point { row, col };
                let a = self.point_color(&p);
                let b = other.point_color(&p);
                let eq = match (a, b) {
                    (None, None) => true,
                    (Some(x), Some(y)) => x == y,
                    _ => false,
                };
                if !eq {
                    return false;
                }
                col += 1;
            }
            row += 1;
        }
        proof {
            assert forall|p: Point| #[trigger] self.color_at(p) == other.color_at(p) by {
                if self.on_grid_spec(p) {
                    assert(p.row < row);
                } else {
                    if self.occupied(p) {
                        self.lemma_occupied_on_grid(p);
                    }
                    if other.occupied(p) {
                        other.lemma_occupied_on_grid(p);
                    }
                }
            }
        }
        true
    }

    /// Full description of a successful placement, relating the board `b`
    /// that results from playing `stone` to `self`, the board before.
    pub open spec fn placement_ok(self, stone: Stone, b: Board) -> bool {
        let pt = stone.point;
        let c = stone.color;
        let doomed = self.doomed_points(pt, c);
        let mstones = self.merged_stones(pt, c);
        &&& b.wf()
        &&& b.num_rows == self.num_rows
        &&& b.num_cols == self.num_cols
        // occupancy: the played point is taken, captured chains are gone,
        // nothing else moves
        &&& forall|p: Point|
            #[trigger] b.occupied(p) <==> (p == pt || (self.occupied(p) && !doomed.contains(p)))
        // the chain now owning the played point
        &&& b.occupied(pt)
        &&& b.chain_at(pt).color == c
        &&& b.chain_at(pt).stone_set() == mstones
        &&& b.chain_at(pt).lib_set() == self.placed_chain_liberties(stone)
        &&& b.chain_at(pt).lib_set().disjoint(b.chain_at(pt).stone_set())
        &&& forall|p: Point| #[trigger] mstones.contains(p) ==> b.chain_at(p) == b.chain_at(pt)
        // surviving chains: stones and color unchanged; they lose the played
        // point as a liberty if they touch it, and regain every captured
        // point adjacent to them
        &&& forall|p: Point|
            self.occupied(p) && !mstones.contains(p) && !doomed.contains(p) ==> {
                let oc = #[trigger] self.chain_at(p);
                let nc = b.chain_at(p);
                &&& nc.color == oc.color
                &&& nc.stone_set() == oc.stone_set()
                &&& nc.lib_set() == (if self.in_adjacent_chain(pt, p) && oc.color != c {
                    oc.lib_set().remove(pt)
                } else {
                    oc.lib_set()
                }).union(restored_liberties(oc.stone_set(), doomed))
            }
        // what a renderer sees
        &&& forall|p: Point| #[trigger] b.color_at(p) == self.placed_color_at(stone, p)
    }

    /// Scans the four neighbors of `pt` and classifies them: empty points
    /// (the new stone's liberties), indices of adjacent chains of color
    /// `c`, and indices of adjacent chains of the opposite color.
    fn scan_neighbors(&self, pt: Point, c: Color) -> (r: (Vec<Point>, Vec<usize>, Vec<usize>))
        requires
            self.wf(),
            self.on_grid_spec(pt),
            !self.occupied(pt),
        ensures
            r.0@.no_duplicates(),
            r.0@.to_set() == self.new_liberties(pt),
            r.1@.no_duplicates(),
            r.2@.no_duplicates(),
            forall|u: usize|
                #[trigger] r.1@.contains(u) ==> u < self.chains@.len()
                    && self.chains@[u as int].color == c && self.chain_adjacent(pt, u as int),
            forall|u: usize|
                #[trigger] r.2@.contains(u) ==> u < self.chains@.len()
                    && self.chains@[u as int].color != c && self.chain_adjacent(pt, u as int),
            forall|u: usize|
                u < self.chains@.len() && #[trigger] self.chain_adjacent(pt, u as int) ==> {
                    if self.chains@[u as int].color == c {
                        r.1@.contains(u)
                    } else {
                        r.2@.contains(u)
                    }
                },
    {
        let nbrs = pt.neighbors();
        let mut libs: Vec<Point> = Vec::new();
        let mut same_idxs: Vec<usize> = Vec::new();
        let mut opp_idxs: Vec<usize> = Vec::new();
        let mut k: usize = 0;
        while k < 4
            invariant
                self.wf(),
                self.on_grid_spec(pt),
                !self.occupied(pt),
                0 <= k <= 4,
                nbrs@.len() == 4,
                forall|q: Point| nbrs@.contains(q) <==> adjacent(q, pt),
                libs@.no_duplicates(),
                same_idxs@.no_duplicates(),
                opp_idxs@.no_duplicates(),
                forall|q: Point|
                    #[trigger] libs@.contains(q) ==> self.on_grid_spec(q) && !self.occupied(q)
                        && adjacent(q, pt),
                forall|j: int|
                    0 <= j < k && self.on_grid_spec(#[trigger] nbrs@[j]) && !self.occupied(nbrs@[j])
                        ==> libs@.contains(nbrs@[j]),
                forall|u: usize|
                    #[trigger] same_idxs@.contains(u) ==> u < self.chains@.len()
                        && self.chains@[u as int].color == c && self.chain_adjacent(pt, u as int),
                forall|u: usize|
                    #[trigger] opp_idxs@.contains(u) ==> u < self.chains@.len()
                        && self.chains@[u as int].color != c && self.chain_adjacent(pt, u as int),
                forall|u: usize, j: int|
                    u < self.chains@.len() && 0 <= j < k
                        && (#[trigger] self.chains@[u as int].stone_set().contains(
                        #[trigger] nbrs@[j],
                    )) ==> {
                        if self.chains@[u as int].color == c {
                            same_idxs@.contains(u)
                        } else {
                            opp_idxs@.contains(u)
                        }
                    },
            decreases 4 - k,
        {
            let q = nbrs[k];
            if self.is_on_grid(&q) {
                match self.find_chain_index(&q) {
                    None => {
                        push_unique(&mut libs, q);
                        proof {
                            assert(nbrs@.contains(nbrs@[k as int]));
                            assert forall|u: usize, j: int|
                                u < self.chains@.len() && 0 <= j < k + 1
                                    && (#[trigger] self.chains@[u as int].stone_set().contains(
                                    #[trigger] nbrs@[j],
                                )) implies {
                                if self.chains@[u as int].color == c {
                                    same_idxs@.contains(u)
                                } else {
                                    opp_idxs@.contains(u)
                                }
                            } by {
                                if j == k {
                                    assert(self.occupied(nbrs@[j]));
                                }
                            }
                        }
                    },
                    Some(i) => {
                        proof {
                            assert(nbrs@.contains(nbrs@[k as int]));
                        }
                        if self.chains[i].get_color() == c {
                            push_unique_index(&mut same_idxs, i);
                        } else {
                            push_unique_index(&mut opp_idxs, i);
                        }
                        proof {
                            assert(self.chain_adjacent(pt, i as int));
                            assert forall|u: usize, j: int|
                                u < self.chains@.len() && 0 <= j < k + 1
                                    && (#[trigger] self.chains@[u as int].stone_set().contains(
                                    #[trigger] nbrs@[j],
                                )) implies {
                                if self.chains@[u as int].color == c {
                                    same_idxs@.contains(u)
                                } else {
                                    opp_idxs@.contains(u)
                                }
                            } by {
                                if j == k {
                                    assert(self.chains@[i as int].stone_set().contains(nbrs@[j]));
                                    if u as int != i as int {
                                        assert(self.chains@[u as int].stone_set().disjoint(
                                            self.chains@[i as int].stone_set(),
                                        ));
                                        assert(false);
                                    }
                                }
                            }
                        }
                    },
                }
            } else {
                proof {
                    assert(nbrs@.contains(nbrs@[k as int]));
                    assert forall|u: usize, j: int|
                        u < self.chains@.len() && 0 <= j < k + 1
                            && (#[trigger] self.chains@[u as int].stone_set().contains(
                            #[trigger] nbrs@[j],
                        )) implies {
                        if self.chains@[u as int].color == c {
                            same_idxs@.contains(u)
                        } else {
                            opp_idxs@.contains(u)
                        }
                    } by {
                        if j == k {
                            assert(self.chain_ok(u as int));
                            assert(self.on_grid_spec(nbrs@[j]));
                        }
                    }
                }
            }
            k += 1;
        }
        proof {
            assert(libs@.to_set() =~= self.new_liberties(pt)) by {
                assert forall|q: Point| self.new_liberties(pt).contains(q) implies libs@.contains(
                    q,
                ) by {
                    assert(nbrs@.contains(q));
                    let j = choose|j: int| 0 <= j < nbrs@.len() && nbrs@[j] == q;
                    assert(libs@.contains(nbrs@[j]));
                }
            }
            assert forall|u: usize|
                u < self.chains@.len() && #[trigger] self.chain_adjacent(pt, u as int) implies {
                if self.chains@[u as int].color == c {
                    same_idxs@.contains(u)
                } else {
                    opp_idxs@.contains(u)
                }
            } by {
                let q = choose|q: Point|
                    adjacent(q, pt) && (#[trigger] self.chains@[u as int].stone_set().contains(q));
                assert(nbrs@.contains(q));
                let j = choose|j: int| 0 <= j < nbrs@.len() && nbrs@[j] == q;
                assert(self.chains@[u as int].stone_set().contains(nbrs@[j]));
            }
        }
        (libs, same_idxs, opp_idxs)
    }

    /// Builds the chain created by playing a stone of color `c` on `pt`:
    /// a singleton chain with liberties `libs`, merged with every adjacent
    /// chain of the same color (listed by index in `same_idxs`).
    fn build_merged(&self, pt: Point, c: Color, libs: Vec<Point>, same_idxs: &Vec<usize>) -> (r:
        GoString)
        requires
            self.wf(),
            libs@.no_duplicates(),
            !libs@.contains(pt),
            forall|u: usize|
                #[trigger] same_idxs@.contains(u) ==> u < self.chains@.len()
                    && self.chains@[u as int].color == c,
        ensures
            r.wf(),
            r.color == c,
            r.stone_set() == self.stones_of(same_idxs@).insert(pt),
            r.lib_set() == libs@.to_set().union(self.libs_of(same_idxs@)).difference(
                r.stone_set(),
            ),
    {
        let ghost l0 = libs@.to_set();
        let mut stone_vec: Vec<Point> = Vec::new();
        stone_vec.push(pt);
        proof {
            assert(stone_vec@.to_set() =~= Set::empty().insert(pt)) by {
                assert(stone_vec@[0] == pt);
                assert(stone_vec@.contains(pt));
                assert forall|x: Point| stone_vec@.contains(x) implies x == pt by {
                    let k = choose|k: int| 0 <= k < stone_vec@.len() && stone_vec@[k] == x;
                }
            }
        }
        let mut merged = GoString::new(c, stone_vec, libs);
        proof {
            assert(self.stones_of(same_idxs@.take(0)) =~= Set::<Point>::empty()) by {
                assert forall|x: Point| !self.stones_of(same_idxs@.take(0)).contains(x) by {}
            }
            assert(self.libs_of(same_idxs@.take(0)) =~= Set::<Point>::empty()) by {
                assert forall|y: Point| !self.libs_of(same_idxs@.take(0)).contains(y) by {}
            }
            assert(merged.stone_set() =~= self.stones_of(same_idxs@.take(0)).insert(pt));
            assert(!l0.contains(pt));
            assert(merged.lib_set() =~= l0.union(self.libs_of(same_idxs@.take(0))).difference(
                merged.stone_set(),
            ));
        }
        let mut m: usize = 0;
        while m < same_idxs.len()
            invariant
                self.wf(),
                forall|u: usize|
                    #[trigger] same_idxs@.contains(u) ==> u < self.chains@.len()
                        && self.chains@[u as int].color == c,
                0 <= m <= same_idxs@.len(),
                merged.wf(),
                merged.color == c,
                merged.stone_set() == self.stones_of(same_idxs@.take(m as int)).insert(pt),
                merged.lib_set() == l0.union(self.libs_of(same_idxs@.take(m as int))).difference(
                    merged.stone_set(),
                ),
            decreases same_idxs@.len() - m,
        {
            let u = same_idxs[m];
            proof {
                assert(same_idxs@.contains(u));
                assert(self.chain_ok(u as int));
            }
            let ghost sprev = merged.stone_set();
            let ghost lprev = merged.lib_set();
            merged.merged_with(&self.chains[u]);
            proof {
                self.lemma_of_take_step(same_idxs@, m as int);
                let su = self.chains@[u as int].stone_set();
                let lu = self.chains@[u as int].lib_set();
                assert(merged.stone_set() =~= self.stones_of(same_idxs@.take(m + 1)).insert(pt));
                assert(merged.lib_set() =~= l0.union(
                    self.libs_of(same_idxs@.take(m + 1)),
                ).difference(merged.stone_set())) by {
                    assert(merged.lib_set() == lprev.union(lu).difference(sprev.union(su)));
                    assert(merged.stone_set() == sprev.union(su));
                    assert forall|y: Point|
                        l0.union(self.libs_of(same_idxs@.take(m + 1))).difference(
                            merged.stone_set(),
                        ).contains(y) implies merged.lib_set().contains(y) by {
                        if !lu.contains(y) {
                            assert(l0.union(self.libs_of(same_idxs@.take(m as int))).contains(y));
                            assert(!sprev.contains(y));
                            assert(lprev.contains(y));
                        }
                    }
                }
            }
            m += 1;
        }
        proof {
            assert(same_idxs@.take(same_idxs@.len() as int) =~= same_idxs@);
        }
        merged
    }

    /// Filters the adjacent opposite-color chains (by index) down to those
    /// that playing on `pt` captures: their only liberty is `pt` itself.
    fn doomed_indices(&self, pt: Point, opp_idxs: &Vec<usize>) -> (r: Vec<usize>)
        requires
            self.wf(),
            forall|u: usize| #[trigger] opp_idxs@.contains(u) ==> u < self.chains@.len(),
        ensures
            forall|u: usize|
                #[trigger] r@.contains(u) <==> opp_idxs@.contains(u)
                    && self.chains@[u as int].lib_set().subset_of(Set::empty().insert(pt)),
    {
        let mut doomed: Vec<usize> = Vec::new();
        let mut m: usize = 0;
        while m < opp_idxs.len()
            invariant
                self.wf(),
                forall|u: usize| #[trigger] opp_idxs@.contains(u) ==> u < self.chains@.len(),
                0 <= m <= opp_idxs@.len(),
                forall|u: usize|
                    #[trigger] doomed@.contains(u) <==> opp_idxs@.take(m as int).contains(u)
                        && self.chains@[u as int].lib_set().subset_of(Set::empty().insert(pt)),
            decreases opp_idxs@.len() - m,
        {
            let u = opp_idxs[m];
            proof {
                assert(opp_idxs@.contains(u));
                assert(opp_idxs@.take(m + 1) =~= opp_idxs@.take(m as int).push(u));
                assert forall|w: usize| #[trigger] opp_idxs@.take(m + 1).contains(w)
                    <==> opp_idxs@.take(m as int).contains(w) || w == u by {
                    vstd::seq_lib::lemma_seq_contains_after_push(opp_idxs@.take(m as int), u, w);
                }
            }
            let ghost doomed0 = doomed@;
            if libs_within(&self.chains[u], pt) {
                doomed.push(u);
                proof {
                    assert forall|w: usize| #[trigger] doomed@.contains(w) <==> doomed0.contains(w)
                        || w == u by {
                        vstd::seq_lib::lemma_seq_contains_after_push(doomed0, u, w);
                    }
                }
            }
            m += 1;
        }
        proof {
            assert(opp_idxs@.take(opp_idxs@.len() as int) =~= opp_idxs@);
        }
        doomed
    }

    /// Collects, without duplicates, every stone of the chains listed by
    /// index in `idxs`.
    fn collect_points(&self, idxs: &Vec<usize>) -> (r: Vec<Point>)
        requires
            self.wf(),
            forall|u: usize| #[trigger] idxs@.contains(u) ==> u < self.chains@.len(),
        ensures
            r@.no_duplicates(),
            r@.to_set() == self.stones_of(idxs@),
    {
        let mut out: Vec<Point> = Vec::new();
        proof {
            assert(out@.to_set() =~= self.stones_of(idxs@.take(0))) by {
                assert forall|x: Point| !self.stones_of(idxs@.take(0)).contains(x) by {}
                assert forall|x: Point| !out@.to_set().contains(x) by {}
            }
        }
        let mut m: usize = 0;
        while m < idxs.len()
            invariant
                self.wf(),
                forall|u: usize| #[trigger] idxs@.contains(u) ==> u < self.chains@.len(),
                0 <= m <= idxs@.len(),
                out@.no_duplicates(),
                out@.to_set() == self.stones_of(idxs@.take(m as int)),
            decreases idxs@.len() - m,
        {
            let u = idxs[m];
            proof {
                assert(idxs@.contains(u));
            }
            let ghost base = out@.to_set();
            let ch = &self.chains[u];
            let mut t: usize = 0;
            while t < ch.stones.len()
                invariant
                    0 <= t <= ch.stones@.len(),
                    out@.no_duplicates(),
                    out@.to_set() == base.union(ch.stones@.take(t as int).to_set()),
                decreases ch.stones@.len() - t,
            {
                push_unique(&mut out, ch.stones[t]);
                proof {
                    lemma_take_set_step(ch.stones@, t as int);
                    assert(out@.to_set() =~= base.union(ch.stones@.take(t + 1).to_set()));
                }
                t += 1;
            }
            proof {
                assert(ch.stones@.take(ch.stones@.len() as int) =~= ch.stones@);
                self.lemma_of_take_step(idxs@, m as int);
                assert(out@.to_set() =~= self.stones_of(idxs@.take(m + 1)));
            }
            m += 1;
        }
        proof {
            assert(idxs@.take(idxs@.len() as int) =~= idxs@);
        }
        out
    }

    /// The board that results from placing `stone` on this board, which is
    /// left untouched.  Placement rejects off-grid and occupied points;
    /// otherwise it merges the new stone with the adjacent chains of its
    /// color, takes the played point from the liberties of the adjacent
    /// opposite-color chains, removes those left with none from the board,
    /// and hands every vacated point back as a liberty to the surviving
    /// chains adjacent to it.
    #[verifier::rlimit(100)]
    pub fn placed(&self, stone: Stone) -> (r: Result<Board, FatalError>)
        requires
            self.wf(),
        ensures
            r is Ok <==> self.on_grid_spec(stone.point) && !self.occupied(stone.point),
            r matches Err(e) ==> e.kind == (if !self.on_grid_spec(stone.point) {
                FatalKind::OutOfBounds
            } else {
                FatalKind::Occupied
            }),
            r matches Ok(b) ==> self.placement_ok(stone, b),
    {
        let pt = stone.point;
        let c = stone.color;
        if !self.is_on_grid(&pt) {
            return Err(FatalError::new(FatalKind::OutOfBounds));
        }
        match self.find_chain_index(&pt) {
            Some(_) => {
                return Err(FatalError::new(FatalKind::Occupied));
            },
            None => {},
        }
        let (libs, same_idxs, opp_idxs) = self.scan_neighbors(pt, c);
        proof {
            assert(self.chains@.len() <= usize::MAX) by {
                assert(self.chains.len() == self.chains@.len());
            }
            assert(!libs@.contains(pt)) by {
                if libs@.contains(pt) {
                    assert(libs@.to_set().contains(pt));
                    assert(adjacent(pt, pt));
                }
            }
        }
        let mut merged = self.build_merged(pt, c, libs, &same_idxs);
        proof {
            self.lemma_same_idxs_sets(pt, c, same_idxs@);
            assert(merged.stone_set() == self.merged_stones(pt, c));
            assert(merged.lib_set() == self.merged_base_liberties(pt, c));
        }
        let doomed_idxs = self.doomed_indices(pt, &opp_idxs);
        proof {
            self.lemma_doomed_idxs_sets(pt, c, doomed_idxs@);
        }
        let captured = self.collect_points(&doomed_idxs);
        let ghost dp = self.doomed_points(pt, c);
        let ghost ms = self.merged_stones(pt, c);
        let ghost fp = self.friendly_points(pt, c);
        proof {
            assert(captured@.to_set() == dp);
        }
        restore_captured(&mut merged, &captured);
        proof {
            assert(merged.stone_set() == ms);
            assert(merged.lib_set() == self.placed_chain_liberties(stone));
            assert(merged.color == c);
        }
        let mut new_chains: Vec<GoString> = Vec::new();
        let ghost mut origins: Seq<int> = Seq::empty();
        let mut i: usize = 0;
        while i < self.chains.len()
            invariant
                self.wf(),
                self.on_grid_spec(pt),
                !self.occupied(pt),
                0 <= i <= self.chains@.len(),
                captured@.no_duplicates(),
                captured@.to_set() == dp,
                dp == self.doomed_points(pt, c),
                forall|u: usize|
                    #[trigger] same_idxs@.contains(u) ==> u < self.chains@.len()
                        && self.chains@[u as int].color == c && self.chain_adjacent(pt, u as int),
                forall|u: usize|
                    #[trigger] opp_idxs@.contains(u) ==> u < self.chains@.len()
                        && self.chains@[u as int].color != c && self.chain_adjacent(pt, u as int),
                forall|u: usize|
                    u < self.chains@.len() && #[trigger] self.chain_adjacent(pt, u as int) ==> {
                        if self.chains@[u as int].color == c {
                            same_idxs@.contains(u)
                        } else {
                            opp_idxs@.contains(u)
                        }
                    },
                forall|u: usize|
                    #[trigger] doomed_idxs@.contains(u) <==> opp_idxs@.contains(u)
                        && self.chains@[u as int].lib_set().subset_of(Set::empty().insert(pt)),
                origins.len() == new_chains@.len(),
                forall|t: int| 0 <= t < origins.len() ==> 0 <= #[trigger] origins[t] < i,
                forall|t1: int, t2: int|
                    0 <= t1 < origins.len() && 0 <= t2 < origins.len() && t1 != t2
                        ==> (#[trigger] origins[t1]) != (#[trigger] origins[t2]),
                forall|t: int|
                    0 <= t < origins.len() ==> !same_idxs@.contains(
                        (#[trigger] origins[t]) as usize,
                    ) && !doomed_idxs@.contains(origins[t] as usize),
                forall|ii: int|
                    #![trigger same_idxs@.contains(ii as usize)]
                    0 <= ii < i && !same_idxs@.contains(ii as usize) && !doomed_idxs@.contains(
                        ii as usize,
                    ) ==> exists|t: int| 0 <= t < origins.len() && #[trigger] origins[t] == ii,
                forall|t: int|
                    0 <= t < origins.len() ==> {
                        let ii = #[trigger] origins[t];
                        let nc = new_chains@[t];
                        let oc = self.chains@[ii];
                        &&& nc.wf()
                        &&& nc.color == oc.color
                        &&& nc.stones@ == oc.stones@
                        &&& nc.lib_set() == (if opp_idxs@.contains(ii as usize) {
                            oc.lib_set().remove(pt)
                        } else {
                            oc.lib_set()
                        }).union(restored_liberties(oc.stone_set(), dp))
                    },
            decreases self.chains@.len() - i,
        {
            let in_same = contains_index(&same_idxs, i);
            let in_doomed = contains_index(&doomed_idxs, i);
            if !in_same && !in_doomed {
                proof {
                    assert(self.chain_ok(i as int));
                }
                let mut ch = self.chains[i].duplicate();
                if contains_index(&opp_idxs, i) {
                    ch.remove_liberty(&pt);
                }
                restore_captured(&mut ch, &captured);
                let ghost pre = new_chains@;
                let ghost orig0 = origins;
                new_chains.push(ch);
                proof {
                    origins = origins.push(i as int);
                    assert forall|t: int| 0 <= t < origins.len() implies {
                        let ii = #[trigger] origins[t];
                        let nc = new_chains@[t];
                        let oc = self.chains@[ii];
                        &&& nc.wf()
                        &&& nc.color == oc.color
                        &&& nc.stones@ == oc.stones@
                        &&& nc.lib_set() == (if opp_idxs@.contains(ii as usize) {
                            oc.lib_set().remove(pt)
                        } else {
                            oc.lib_set()
                        }).union(restored_liberties(oc.stone_set(), dp))
                    } by {
                        if t < origins.len() - 1 {
                            assert(new_chains@[t] == pre[t]);
                        } else {
                            assert(origins[t] == i as int);
                            assert(new_chains@[t] == ch);
                        }
                    }
                    assert forall|ii: int|
                        #![trigger same_idxs@.contains(ii as usize)]
                        0 <= ii < i + 1 && !same_idxs@.contains(ii as usize)
                            && !doomed_idxs@.contains(ii as usize) implies exists|t: int|
                        0 <= t < origins.len() && #[trigger] origins[t] == ii by {
                        if ii == i as int {
                            assert(origins[origins.len() - 1] == ii);
                        } else {
                            let t = choose|t: int|
                                0 <= t < orig0.len() && #[trigger] orig0[t] == ii;
                            assert(origins[t] == ii);
                        }
                    }
                }
            }
            i += 1;
        }
        let ghost pre = new_chains@;
        let ghost tm = pre.len() as int;
        new_chains.push(merged);
        let b = Board { num_rows: self.num_rows, num_cols: self.num_cols, chains: new_chains };
        proof {
            let b0 = *self;
            let n = b0.chains@.len() as int;
            assert(i as int == n);
            assert(b0.chains@.len() <= usize::MAX) by {
                assert(self.chains.len() == self.chains@.len());
            }
            assert(b.chains@.len() == tm + 1);
            assert(b.chains@[tm] == merged);
            assert forall|t: int| 0 <= t < tm implies b.chains@[t] == pre[t] by {}
            // membership facts about the spec-level sets
            assert forall|x: Point| #[trigger] dp.contains(x) implies b0.occupied(x)
                && !ms.contains(x) by {
                assert(b0.in_adjacent_chain(pt, x));
                if ms.contains(x) {
                    if x == pt {
                        assert(b0.occupied(pt));
                    } else {
                        assert(fp.contains(x));
                        assert(b0.chain_at(x).color == c);
                        assert(b0.chain_at(x).color != c);
                    }
                }
            }
            assert forall|x: Point| #[trigger] fp.contains(x) implies b0.occupied(x) by {
                assert(b0.in_adjacent_chain(pt, x));
            }
            assert(ms.contains(pt));
            // an index outside same/doomed never holds a captured or merged stone
            assert forall|ii: int, x: Point|
                0 <= ii < n && (#[trigger] b0.chains@[ii].stone_set().contains(x))
                    && dp.contains(x) implies doomed_idxs@.contains(ii as usize) by {
                assert(b0.in_adjacent_chain(pt, x) && b0.chain_at(x).color != c && b0.chain_at(
                    x,
                ).lib_set().subset_of(Set::empty().insert(pt)));
                b0.lemma_in_adjacent_chain_index(pt, x, ii);
                assert((ii as usize) as int == ii);
                assert(self.chain_adjacent(pt, (ii as usize) as int));
                assert(opp_idxs@.contains(ii as usize));
            }
            assert forall|ii: int, x: Point|
                0 <= ii < n && (#[trigger] b0.chains@[ii].stone_set().contains(x))
                    && fp.contains(x) implies same_idxs@.contains(ii as usize) by {
                assert(b0.in_adjacent_chain(pt, x) && b0.chain_at(x).color == c);
                b0.lemma_in_adjacent_chain_index(pt, x, ii);
                assert((ii as usize) as int == ii);
                assert(self.chain_adjacent(pt, (ii as usize) as int));
            }
            // well-formedness of the new board, chain by chain
            assert forall|t: int| 0 <= t < b.chains@.len() implies b.chain_ok(t) by {
                if t < tm {
                    let ii = origins[t];
                    let nc = b.chains@[t];
                    let oc = b0.chains@[ii];
                    assert(b0.chain_ok(ii));
                    assert(nc.stone_set() == oc.stone_set());
                    assert(nc.stones@.len() > 0);
                    assert forall|p2: Point|
                        #[trigger] nc.stone_set().contains(p2) implies b.on_grid_spec(p2) by {
                        assert(oc.stone_set().contains(p2));
                    }
                    assert forall|p2: Point|
                        #[trigger] nc.stone_set().contains(p2) implies !nc.lib_set().contains(
                        p2,
                    ) by {
                        assert(oc.stone_set().contains(p2));
                        assert(!oc.lib_set().contains(p2));
                        if restored_liberties(oc.stone_set(), dp).contains(p2) {
                            assert(dp.contains(p2));
                            assert(doomed_idxs@.contains(ii as usize));
                        }
                    }
                    assert(b.chain_ok(t));
                } else {
                    assert(b.chains@[t] == merged);
                    assert(merged.stones@.to_set().contains(pt));
                    assert(merged.stones@.contains(pt));
                    assert(merged.stones@.len() > 0);
                    assert forall|p2: Point|
                        #[trigger] merged.stone_set().contains(p2) implies b.on_grid_spec(p2) by {
                        if p2 != pt {
                            assert(fp.contains(p2));
                            b0.lemma_occupied_on_grid(p2);
                        }
                    }
                    assert forall|p2: Point|
                        #[trigger] merged.stone_set().contains(p2) implies !merged.lib_set().contains(
                        p2,
                    ) by {
                        if merged.lib_set().contains(p2) {
                            if b0.merged_base_liberties(pt, c).contains(p2) {
                                assert(!ms.contains(p2));
                            } else {
                                assert(restored_liberties(ms, dp).contains(p2));
                                assert(dp.contains(p2));
                            }
                        }
                    }
                    assert(b.chain_ok(t));
                }
            }
            // pairwise disjointness
            assert forall|t1: int, t2: int|
                0 <= t1 < b.chains@.len() && 0 <= t2 < b.chains@.len() && t1
                    != t2 implies (#[trigger] b.chains@[t1]).stone_set().disjoint(
                (#[trigger] b.chains@[t2]).stone_set(),
            ) by {
                assert forall|x: Point|
                    b.chains@[t1].stone_set().contains(x) implies !b.chains@[t2].stone_set().contains(
                    x,
                ) by {
                    if b.chains@[t2].stone_set().contains(x) {
                        if t1 < tm && t2 < tm {
                            let i1 = origins[t1];
                            let i2 = origins[t2];
                            assert(b0.chains@[i1].stone_set().contains(x));
                            assert(b0.chains@[i2].stone_set().contains(x));
                            assert(i1 != i2);
                            assert(b0.chains@[i1].stone_set().disjoint(
                                b0.chains@[i2].stone_set(),
                            ));
                        } else if t1 == tm && t2 < tm {
                            let i2 = origins[t2];
                            assert(ms.contains(x));
                            assert(b0.chains@[i2].stone_set().contains(x));
                            if x == pt {
                                b0.lemma_chain_at(i2, pt);
                            } else {
                                assert(fp.contains(x));
                                assert(same_idxs@.contains(i2 as usize));
                            }
                        } else {
                            let i1 = origins[t1];
                            assert(ms.contains(x));
                            assert(b0.chains@[i1].stone_set().contains(x));
                            if x == pt {
                                b0.lemma_chain_at(i1, pt);
                            } else {
                                assert(fp.contains(x));
                                assert(same_idxs@.contains(i1 as usize));
                            }
                        }
                    }
                }
            }
            assert(b.wf());
            // occupancy
            assert forall|p: Point|
                #[trigger] b.occupied(p) <==> (p == pt || (b0.occupied(p) && !dp.contains(
                    p,
                ))) by {
                if b.occupied(p) {
                    let t = choose|j: int|
                        0 <= j < b.chains@.len() && (#[trigger] b.chains@[j]).stone_set().contains(
                            p,
                        );
                    if t == tm {
                        assert(ms.contains(p));
                        if p != pt {
                            assert(fp.contains(p));
                            assert(!dp.contains(p));
                        }
                    } else {
                        let ii = origins[t];
                        assert(b0.chains@[ii].stone_set().contains(p));
                        assert(b0.occupied(p));
                        if dp.contains(p) {
                            assert(doomed_idxs@.contains(ii as usize));
                        }
                    }
                }
                if p == pt {
                    assert(b.chains@[tm].stone_set().contains(pt));
                    assert(b.occupied(pt));
                }
                if p != pt && b0.occupied(p) && !dp.contains(p) {
                    let ii = choose|j: int|
                        0 <= j < b0.chains@.len() && (#[trigger] b0.chains@[j]).stone_set().contains(
                            p,
                        );
                    if same_idxs@.contains(ii as usize) {
                        b0.lemma_chain_adjacent_point(pt, ii, p);
                        assert(b0.chain_at(p).color == c);
                        assert(fp.contains(p));
                        assert(b.chains@[tm].stone_set().contains(p));
                        assert(b.occupied(p));
                    } else if doomed_idxs@.contains(ii as usize) {
                        b0.lemma_chain_adjacent_point(pt, ii, p);
                        assert(b0.chain_at(p).color != c);
                        assert(dp.contains(p));
                    } else {
                        let t = choose|t: int|
                            0 <= t < origins.len() && #[trigger] origins[t] == ii;
                        assert(b.chains@[t].stone_set() == b0.chains@[ii].stone_set());
                        assert(b.chains@[t].stone_set().contains(p));
                        assert(b.occupied(p));
                    }
                }
            }
            // the merged chain owns the played point
            b.lemma_chain_at(tm, pt);
            assert(b.chain_at(pt) == merged);
            assert forall|y: Point|
                b.chain_at(pt).lib_set().contains(y) implies !b.chain_at(pt).stone_set().contains(
                y,
            ) by {
                assert(b.chain_ok(tm));
            }
            assert forall|p: Point| #[trigger] ms.contains(p) implies b.chain_at(p) == b.chain_at(
                pt,
            ) by {
                assert(b.chains@[tm].stone_set().contains(p));
                b.lemma_chain_at(tm, p);
            }
            // surviving chains
            assert forall|p: Point|
                b0.occupied(p) && !ms.contains(p) && !dp.contains(p) implies {
                let oc = #[trigger] b0.chain_at(p);
                let nc = b.chain_at(p);
                &&& nc.color == oc.color
                &&& nc.stone_set() == oc.stone_set()
                &&& nc.lib_set() == (if b0.in_adjacent_chain(pt, p) && oc.color != c {
                    oc.lib_set().remove(pt)
                } else {
                    oc.lib_set()
                }).union(restored_liberties(oc.stone_set(), dp))
            } by {
                let ii = choose|j: int|
                    0 <= j < b0.chains@.len() && (#[trigger] b0.chains@[j]).stone_set().contains(
                        p,
                    );
                b0.lemma_chain_at(ii, p);
                if same_idxs@.contains(ii as usize) {
                    b0.lemma_chain_adjacent_point(pt, ii, p);
                    assert(fp.contains(p));
                    assert(false);
                }
                if doomed_idxs@.contains(ii as usize) {
                    b0.lemma_chain_adjacent_point(pt, ii, p);
                    assert(dp.contains(p));
                    assert(false);
                }
                let t = choose|t: int| 0 <= t < origins.len() && #[trigger] origins[t] == ii;
                assert(b.chains@[t].stone_set() == b0.chains@[ii].stone_set());
                assert(b.chains@[t].stone_set().contains(p));
                b.lemma_chain_at(t, p);
                assert(b.chain_at(p) == b.chains@[t]);
                // the conditional on losing the played point matches
                if b0.in_adjacent_chain(pt, p) && b0.chain_at(p).color != c {
                    b0.lemma_in_adjacent_chain_index(pt, p, ii);
                    assert((ii as usize) as int == ii);
                    assert(self.chain_adjacent(pt, (ii as usize) as int));
                    assert(opp_idxs@.contains(ii as usize));
                } else {
                    if opp_idxs@.contains(ii as usize) {
                        b0.lemma_chain_adjacent_point(pt, ii, p);
                        assert(false);
                    }
                }
            }
            // what a renderer sees
            assert forall|p: Point| #[trigger] b.color_at(p) == b0.placed_color_at(stone, p) by {
                if p == pt {
                    assert(b.occupied(pt));
                    assert(b.chain_at(pt).color == c);
                } else if b0.occupied(p) && !dp.contains(p) {
                    assert(b.occupied(p));
                    if ms.contains(p) {
                        assert(fp.contains(p));
                        assert(b0.chain_at(p).color == c);
                        assert(b.chain_at(p) == b.chain_at(pt));
                    }
                } else {
                    assert(!b.occupied(p));
                }
            }
            assert(b0.placement_ok(stone, b));
        }
        Ok(b)
    }

    /// Places `stone` on this board in place: the rejection conditions and
    /// the resulting position are those of `placed`.
    pub fn place_stone(&mut self, stone: Stone) -> (r: Result<(), FatalError>)
        requires
            old(self).wf(),
        ensures
            final(self).wf(),
            r is Ok <==> old(self).on_grid_spec(stone.point) && !old(self).occupied(stone.point),
            r matches Err(e) ==> *final(self) == *old(self) && e.kind == (if !old(
                self,
            ).on_grid_spec(stone.point) {
                FatalKind::OutOfBounds
            } else {
                FatalKind::Occupied
            }),
            r is Ok ==> old(self).placement_ok(stone, *final(self)),
    {
        match self.placed(stone) {
            Ok(b) => {
                *self = b;
                Ok(())
            },
            Err(e) => Err(e),
        }
    }
}

/// True when every liberty of `ch` equals `pt`, so that removing `pt`
/// leaves the chain with no liberty at all.
fn libs_within(ch: &GoString, pt: Point) -> (r: bool)
    ensures
        r == ch.lib_set().subset_of(Set::empty().insert(pt)),
{
    let mut i: usize = 0;
    while i < ch.liberties.len()
        invariant
            0 <= i <= ch.liberties@.len(),
            forall|k: int| 0 <= k < i ==> #[trigger] ch.liberties@[k] == pt,
        decreases ch.liberties@.len() - i,
    {
        if !(ch.liberties[i] == pt) {
            proof {
                assert(ch.lib_set().contains(ch.liberties@[i as int]));
            }
            return false;
        }
        i += 1;
    }
    proof {
        assert forall|y: Point| ch.lib_set().contains(y) implies Set::empty().insert(pt).contains(
            y,
        ) by {
            let k = choose|k: int| 0 <= k < ch.liberties@.len() && ch.liberties@[k] == y;
        }
    }
    true
}

/// True when some stone of `ch` is adjacent to `y`.
fn chain_touches(ch: &GoString, y: Point) -> (r: bool)
    ensures
        r == exists|s: Point| #[trigger] ch.stone_set().contains(s) && adjacent(s, y),
{
    let mut i: usize = 0;
    while i < ch.stones.len()
        invariant
            0 <= i <= ch.stones@.len(),
            forall|k: int| 0 <= k < i ==> !adjacent(#[trigger] ch.stones@[k], y),
        decreases ch.stones@.len() - i,
    {
        if points_adjacent(ch.stones[i], y) {
            proof {
                assert(ch.stone_set().contains(ch.stones@[i as int]));
            }
            return true;
        }
        i += 1;
    }
    proof {
        assert forall|s: Point| ch.stone_set().contains(s) implies !adjacent(s, y) by {
            let k = choose|k: int| 0 <= k < ch.stones@.len() && ch.stones@[k] == s;
        }
    }
    false
}

/// Adds to `ch` every point of `captured` adjacent to one of its stones:
/// the liberties regained when the chains standing on `captured` leave
/// the board.
fn restore_captured(ch: &mut GoString, captured: &Vec<Point>)
    requires
        old(ch).wf(),
    ensures
        final(ch).wf(),
        final(ch).color == old(ch).color,
        final(ch).stones@ == old(ch).stones@,
        final(ch).stone_set() == old(ch).stone_set(),
        final(ch).lib_set() == old(ch).lib_set().union(
            restored_liberties(old(ch).stone_set(), captured@.to_set()),
        ),
{
    let ghost s = old(ch).stone_set();
    let ghost l0 = old(ch).lib_set();
    let mut m: usize = 0;
    while m < captured.len()
        invariant
            0 <= m <= captured@.len(),
            ch.wf(),
            ch.color == old(ch).color,
            ch.stones@ == old(ch).stones@,
            ch.stone_set() == s,
            ch.lib_set() == l0.union(restored_liberties(s, captured@.take(m as int).to_set())),
        decreases captured@.len() - m,
    {
        let y = captured[m];
        let ghost tprev = captured@.take(m as int).to_set();
        let touches = chain_touches(ch, y);
        if touches {
            ch.add_liberty(y);
        }
        proof {
            lemma_take_set_step(captured@, m as int);
            let tnext = captured@.take(m + 1).to_set();
            assert(tnext == tprev.insert(y));
            assert(ch.stone_set() == s);
            if touches {
                assert(restored_liberties(s, tnext) =~= restored_liberties(s, tprev).insert(y))
                    by {
                    assert forall|z: Point|
                        restored_liberties(s, tnext).contains(z) implies restored_liberties(
                        s,
                        tprev,
                    ).insert(y).contains(z) by {
                        if z != y {
                            assert(tprev.contains(z));
                            assert(restored_liberties(s, tprev).contains(z));
                        }
                    }
                    assert forall|z: Point|
                        restored_liberties(s, tprev).insert(y).contains(z) implies restored_liberties(
                        s,
                        tnext,
                    ).contains(z) by {
                        if z == y {
                            assert(tnext.contains(y));
                            assert(exists|w: Point| #[trigger] s.contains(w) && adjacent(w, y));
                        } else {
                            assert(restored_liberties(s, tprev).contains(z));
                            assert(tprev.contains(z));
                            assert(tnext.contains(z));
                        }
                    }
                }
                assert(ch.lib_set() =~= l0.union(restored_liberties(s, tnext)));
            } else {
                assert(restored_liberties(s, tnext) =~= restored_liberties(s, tprev)) by {
                    assert forall|z: Point|
                        restored_liberties(s, tnext).contains(z) implies restored_liberties(
                        s,
                        tprev,
                    ).contains(z) by {
                        assert(z != y);
                        assert(tprev.contains(z));
                    }
                    assert forall|z: Point|
                        restored_liberties(s, tprev).contains(z) implies restored_liberties(
                        s,
                        tnext,
                    ).contains(z) by {
                        assert(tprev.contains(z));
                        assert(tnext.contains(z));
                    }
                }
            }
        }
        m += 1;
    }
    proof {
        assert(captured@.take(captured@.len() as int) =~= captured@);
    }
}

/// The points of `cap` adjacent to at least one point of `stones`: the
/// liberties a chain regains when the chains standing on `cap` are captured.
pub open spec fn restored_liberties(stones: Set<Point>, cap: Set<Point>) -> Set<Point> {
    cap.filter(|y: Point| exists|s: Point| #[trigger] stones.contains(s) && adjacent(s, y))
}

} // verus!
