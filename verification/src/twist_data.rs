//! The logical twists of a puzzle, and the slices of a twist: which slicing circles bound them
//! and which stickers they hold. Where the circles lie in the plane is worked out elsewhere; a
//! twist data here knows how many there are.
use crate::slice_mask::{mask_to_slice, mask_to_slices, slices_in};
use vstd::prelude::*;

verus! {

/// An index into a puzzle's twist data.
pub type TwistDataId = usize;

/// What a twist turns about: a face, an edge or a vertex.
#[derive(Clone, Copy, Debug, PartialEq, Eq, Structural)]
pub enum ElementType {
    Face,
    Edge,
    Vertex,
}

/// All the copies of one logical twist (twist data identified with each other). Saved twists
/// refer to these by index.
#[derive(Clone, Debug, Default)]
pub struct IdentifiedTwistData {
    /// Our index in the puzzle's list of all identified twist data.
    pub index: usize,
    pub twist_data_for_drawing: Vec<TwistDataId>,
    pub twist_data_for_state_calcs: Vec<TwistDataId>,
}

/// One twist of the puzzle's template or of a cell: its kind, its order, its slicing circles
/// (counted) and whether it is systolic (has pants), and what it affects.
pub struct TwistData {
    pub twist_type: ElementType,
    pub order: i32,
    pub reverse: bool,
    /// The number of slicing circles.
    pub num_circles: usize,
    /// Whether the twist has pants, which makes it systolic.
    pub has_pants: bool,
    /// The number of slices, where set apart from the circles.
    pub num_slices: Option<i32>,
    pub num_slices_no_opp: i32,
    /// The stickers in each slice.
    pub affected_stickers: Option<Vec<Vec<usize>>>,
    pub affected_master_cells: Option<Vec<usize>>,
    pub identified: Option<usize>,
}

/// Whether slicing circle `i`, out of `count`, bounds one of the slices of `mask` up to
/// `num_slices`: slice `s` lies between circles `s - 2` and `s - 1`.
pub open spec fn bounds_slice(i: int, mask: i32, num_slices: i32, count: int) -> bool {
    &&& 0 <= i < count
    &&& exists|s: i32|
        #![trigger slices_in(mask).contains(s)]
        slices_in(mask).contains(s) && s <= num_slices && (i == s - 2 || i == s - 1)
}

/// The circles of a systolic slice: two of the six, by pants direction.
pub open spec fn systolic_circles(slice: i32, count: int) -> Seq<usize> {
    let first: int = if slice == 1 {
        2
    } else if slice == 2 {
        4
    } else if slice == 3 {
        0
    } else {
        -1
    };
    if first >= 0 && first + 2 <= count {
        seq![first as usize, (first + 1) as usize]
    } else {
        Seq::empty()
    }
}

/// Whether a list of indices is in increasing order.
pub open spec fn increasing(v: Seq<usize>) -> bool {
    forall|i: int, j: int| 0 <= i < j < v.len() ==> v[i] < v[j]
}

/// Adds an index to an increasing list, keeping it increasing.
fn insert_sorted(v: &mut Vec<usize>, x: usize)
    requires
        increasing(old(v)@),
    ensures
        increasing(final(v)@),
        forall|y: usize|
            #![trigger final(v)@.contains(y)]
            #![trigger old(v)@.contains(y)]
            final(v)@.contains(y) <==> (old(v)@.contains(y) || y == x),
{
    let mut p: usize = 0;
    while p < v.len() && v[p] < x
        invariant
            0 <= p <= v.len(),
            v@ == old(v)@,
            increasing(v@),
            forall|i: int| 0 <= i < p ==> v@[i] < x,
        decreases v.len() - p,
    {
        p = p + 1;
    }
    if p < v.len() && v[p] == x {
        assert(v@[p as int] == x);
        return;
    }
    let ghost before = v@;
    v.insert(p, x);
    assert forall|i: int, j: int| 0 <= i < j < v@.len() implies v@[i] < v@[j] by {
        if j < p {
            assert(v@[i] == before[i] && v@[j] == before[j]);
        } else if j == p {
            assert(v@[i] == before[i]);
        } else if i == p {
            assert(v@[j] == before[j - 1]);
            assert(before[p as int] > x || p == before.len());
            if j - 1 > p {
                assert(before[p as int] < before[j - 1]);
            }
        } else if i < p {
            assert(v@[i] == before[i] && v@[j] == before[j - 1]);
        } else {
            assert(v@[i] == before[i - 1] && v@[j] == before[j - 1]);
        }
    }
    assert(before == old(v)@);
    assert forall|y: usize|
        #![trigger v@.contains(y)]
        #![trigger before.contains(y)]
        v@.contains(y) <==> (before.contains(y) || y == x) by {
        if v@.contains(y) {
            let k = choose|k: int| 0 <= k < v@.len() && v@[k] == y;
            if k < p {
                assert(before[k] == y);
            } else if k > p {
                assert(before[k - 1] == y);
            }
        }
        if before.contains(y) {
            let k = choose|k: int| 0 <= k < before.len() && before[k] == y;
            if k < p {
                assert(v@[k] == y);
            } else {
                assert(v@[k + 1] == y);
            }
        }
        if y == x {
            assert(v@[p as int] == x);
        }
    }
}

impl TwistData {
    pub fn new(twist_type: ElementType, order: i32) -> (r: TwistData)
        ensures
            r.twist_type == twist_type,
            r.order == order,
            !r.reverse,
            r.num_circles == 0,
            !r.has_pants,
            r.num_slices_no_opp == 0,
            r.affected_stickers is None,
            r.affected_master_cells is None,
            r.identified is None,
            r.num_slices_spec() == 0,
    {
        TwistData {
            twist_type,
            order,
            reverse: false,
            num_circles: 0,
            has_pants: false,
            num_slices: None,
            num_slices_no_opp: 0,
            affected_stickers: None,
            affected_master_cells: None,
            identified: None,
        }
    }

    /// The number of slices: as set, or one per slicing circle.
    pub open spec fn num_slices_spec(&self) -> i32 {
        match self.num_slices {
            Some(n) => n,
            None => self.num_circles as i32,
        }
    }

    pub fn systolic(&self) -> (r: bool)
        ensures
            r == self.has_pants,
    {
        self.has_pants
    }

    /// Earthquake twists have pants and three slicing circles.
    pub fn earthquake(&self) -> (r: bool)
        ensures
            r == (self.has_pants && self.num_circles == 3),
    {
        self.has_pants && self.num_circles == 3
    }

    pub fn num_slices(&self) -> (r: i32)
        ensures
            r == self.num_slices_spec(),
    {
        match self.num_slices {
            Some(n) => n,
            None => self.num_circles as i32,
        }
    }

    pub fn set_num_slices(&mut self, n: i32)
        ensures
            final(self).num_slices_spec() == n,
            final(self).twist_type == old(self).twist_type,
            final(self).order == old(self).order,
            final(self).reverse == old(self).reverse,
            final(self).num_circles == old(self).num_circles,
            final(self).has_pants == old(self).has_pants,
            final(self).num_slices_no_opp == old(self).num_slices_no_opp,
            final(self).affected_stickers == old(self).affected_stickers,
            final(self).affected_master_cells == old(self).affected_master_cells,
            final(self).identified == old(self).identified,
    {
        self.num_slices = Some(n);
    }

    /// The slicing circles of a systolic slice (by pants direction), as indices.
    pub fn circles_for_systolic_slice(&self, slice: i32) -> (r: Vec<usize>)
        ensures
            r@ == systolic_circles(slice, self.num_circles as int),
    {
        let first: usize = match slice {
            1 => 2,
            2 => 4,
            3 => 0,
            _ => {
                return Vec::new();
            },
        };
        let mut r: Vec<usize> = Vec::new();
        if first + 2 <= self.num_circles {
            r.push(first);
            r.push(first + 1);
        }
        r
    }

    /// The slicing circles bounding the slices of a mask, as indices in increasing order: all
    /// of them for earthquake twists, a direction's two for systolic ones.
    pub fn circles_for_slice_mask(&self, mask: i32) -> (r: Vec<usize>)
        ensures
            self.has_pants && self.num_circles == 3 ==> r@ == seq![0usize, 1, 2],
            self.has_pants && self.num_circles != 3 ==> r@ == systolic_circles(
                crate::slice_mask::first_slice(mask),
                self.num_circles as int,
            ),
            !self.has_pants ==> increasing(r@) && forall|i: usize|
                r@.contains(i) <==> bounds_slice(
                    i as int,
                    mask,
                    self.num_slices_spec(),
                    self.num_circles as int,
                ),
    {
        if self.earthquake() {
            let mut all: Vec<usize> = Vec::new();
            all.push(0);
            all.push(1);
            all.push(2);
            return all;
        }
        if self.systolic() {
            return self.circles_for_systolic_slice(mask_to_slice(mask));
        }
        let num_slices = self.num_slices();
        let slices = mask_to_slices(mask);
        let mut indexes: Vec<usize> = Vec::new();
        let mut k: usize = 0;
        while k < slices.len()
            invariant
                0 <= k <= slices.len(),
                slices@ == slices_in(mask),
                num_slices == self.num_slices_spec(),
                increasing(indexes@),
                forall|i: usize|
                    indexes@.contains(i) <==> (i < self.num_circles && exists|j: int|
                        0 <= j < k && #[trigger] slices@[j] <= num_slices && (i == slices@[j] - 2 || i
                            == slices@[j] - 1)),
            decreases slices.len() - k,
        {
            let s = slices[k];
            proof {
                assert(slices_in(mask).contains(s));
                assert(0 <= s <= 10) by {
                    assert(slices_in(mask) == Seq::new(11, |i: int| i as i32).filter(|i: i32| crate::slice_mask::mask_of(i as int) & mask != 0));
                    Seq::new(11, |i: int| i as i32).lemma_filter_contains_rev(|i: i32| crate::slice_mask::mask_of(i as int) & mask != 0, s);
                }
            }
            let ghost before = indexes@;
            if s <= num_slices {
                if s >= 2 && ((s - 2) as usize) < self.num_circles {
                    insert_sorted(&mut indexes, (s - 2) as usize);
                }
                if s >= 1 && ((s - 1) as usize) < self.num_circles {
                    insert_sorted(&mut indexes, (s - 1) as usize);
                }
            }
            proof {
                assert forall|i: usize|
                    indexes@.contains(i) <==> (i < self.num_circles && exists|j: int|
                        0 <= j < k + 1 && #[trigger] slices@[j] <= num_slices && (i == slices@[j] - 2
                            || i == slices@[j] - 1)) by {
                    if indexes@.contains(i) && !before.contains(i) {
                        assert(slices@[k as int] <= num_slices);
                    }
                    if before.contains(i) {
                        let j = choose|j: int|
                            0 <= j < k && #[trigger] slices@[j] <= num_slices && (i == slices@[j] - 2
                                || i == slices@[j] - 1);
                    }
                }
            }
            k = k + 1;
        }
        proof {
            assert forall|i: usize| indexes@.contains(i) <==> bounds_slice(
                i as int,
                mask,
                num_slices,
                self.num_circles as int,
            ) by {
                if indexes@.contains(i) {
                    let j = choose|j: int|
                        0 <= j < slices@.len() && #[trigger] slices@[j] <= num_slices && (i == slices@[j]
                            - 2 || i == slices@[j] - 1);
                    assert(slices_in(mask).contains(slices@[j]));
                }
                if bounds_slice(i as int, mask, num_slices, self.num_circles as int) {
                    let s = choose|s: i32|
                        #![trigger slices_in(mask).contains(s)]
                        slices_in(mask).contains(s) && s <= num_slices && (i == s - 2 || i == s - 1);
                    let j = choose|j: int| 0 <= j < slices@.len() && slices@[j] == s;
                    assert(slices@[j] <= num_slices);
                }
            }
        }
        indexes
    }
}

/// The lists of stickers in the slices `slices` picks out of `lists` (slices numbered from 1;
/// those past the end are skipped), in order.
pub open spec fn slice_lists(lists: Seq<Vec<usize>>, slices: Seq<i32>) -> Seq<Seq<usize>>
    decreases slices.len(),
{
    if slices.len() == 0 {
        Seq::empty()
    } else {
        let rest = slice_lists(lists, slices.drop_last());
        let s = slices.last();
        if 1 <= s <= lists.len() {
            rest.push(lists[s - 1]@)
        } else {
            rest
        }
    }
}

/// The views of a list of sticker lists.
pub open spec fn views_of(r: Seq<&[usize]>) -> Seq<Seq<usize>> {
    r.map_values(|x: &[usize]| x@)
}

impl TwistData {
    /// The stickers a twist of a slice mask moves, slice by slice: every slice for earthquake
    /// twists, the mask's direction's for systolic ones, else the mask's slices that there are.
    pub open spec fn slice_stickers(&self, mask: i32) -> Seq<Seq<usize>> {
        match self.affected_stickers {
            None => Seq::empty(),
            Some(a) => if self.has_pants && self.num_circles == 3 {
                a@.map_values(|x: Vec<usize>| x@)
            } else if self.has_pants {
                let d = crate::slice_mask::first_slice(mask);
                if 1 <= d <= a.len() {
                    seq![a@[d - 1]@]
                } else {
                    Seq::<Seq<usize>>::empty()
                }
            } else {
                slice_lists(a@, slices_in(mask))
            },
        }
    }

    /// The stickers moved by a twist of a slice mask, slice by slice: every slice for
    /// earthquake twists, a direction's for systolic ones.
    pub fn affected_stickers_for_slice_mask(&self, mask: i32) -> (r: Vec<&[usize]>)
        ensures
            views_of(r@) == self.slice_stickers(mask),
    {
        let mut r: Vec<&[usize]> = Vec::new();
        let affected = match &self.affected_stickers {
            Some(a) => a,
            None => {
                assert(views_of(r@) =~= Seq::<Seq<usize>>::empty());
                return r;
            },
        };
        if self.earthquake() {
            let mut k: usize = 0;
            while k < affected.len()
                invariant
                    0 <= k <= affected.len(),
                    views_of(r@) == affected@.map_values(|x: Vec<usize>| x@).take(k as int),
                decreases affected.len() - k,
            {
                let sl = affected[k].as_slice();
                let ghost r0 = r@;
                r.push(sl);
                assert(views_of(r@) =~= views_of(r0).push(affected@[k as int]@));
                assert(affected@.map_values(|x: Vec<usize>| x@).take(k + 1) =~= affected@.map_values(
                    |x: Vec<usize>| x@,
                ).take(k as int).push(affected@[k as int]@));
                k = k + 1;
            }
            assert(affected@.map_values(|x: Vec<usize>| x@).take(affected.len() as int)
                =~= affected@.map_values(|x: Vec<usize>| x@));
            return r;
        }
        if self.systolic() {
            let direction = mask_to_slice(mask);
            if 1 <= direction && ((direction - 1) as usize) < affected.len() {
                let sl = affected[(direction - 1) as usize].as_slice();
                r.push(sl);
                assert(views_of(r@) =~= seq![affected@[direction - 1]@]);
            } else {
                assert(views_of(r@) =~= Seq::<Seq<usize>>::empty());
            }
            return r;
        }
        let slices = mask_to_slices(mask);
        let mut k: usize = 0;
        assert(slices@.take(0) =~= Seq::<i32>::empty());
        assert(views_of(r@) =~= Seq::<Seq<usize>>::empty());
        while k < slices.len()
            invariant
                0 <= k <= slices.len(),
                views_of(r@) == slice_lists(affected@, slices@.take(k as int)),
            decreases slices.len() - k,
        {
            let s = slices[k];
            assert(slices@.take(k + 1).drop_last() =~= slices@.take(k as int));
            let ghost r0 = r@;
            if 1 <= s && ((s - 1) as usize) < affected.len() {
                let sl = affected[(s - 1) as usize].as_slice();
                r.push(sl);
                assert(views_of(r@) =~= views_of(r0).push(affected@[s - 1]@));
            }
            assert(slices@.take(k + 1).last() == s);
            k = k + 1;
            assert(views_of(r@) =~= slice_lists(affected@, slices@.take(k as int)));
        }
        assert(slices@.take(slices.len() as int) =~= slices@);
        r
    }
}

} // verus!
