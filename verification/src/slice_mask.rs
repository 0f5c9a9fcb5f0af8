//! Slice masks: bit masks selecting which slices (layers) a twist moves.

use vstd::prelude::*;

verus! {

pub const SLICEMASK_1: i32 = 0x0001;
pub const SLICEMASK_2: i32 = 0x0002;
pub const SLICEMASK_3: i32 = 0x0004;
pub const SLICEMASK_4: i32 = 0x0008;
pub const SLICEMASK_5: i32 = 0x0010;
pub const SLICEMASK_6: i32 = 0x0020;
pub const SLICEMASK_7: i32 = 0x0040;
pub const SLICEMASK_8: i32 = 0x0080;
pub const SLICEMASK_9: i32 = 0x0100;
pub const SLICEMASK_10: i32 = 0x0200;

/// The mask bit of a slice: slices are numbered from 1 (innermost) to 10; anything else has no bit.
pub open spec fn mask_of(slice: int) -> i32 {
    if 1 <= slice <= 10 {
        (1i32 << ((slice - 1) as u32)) as i32
    } else {
        0
    }
}

/// The slices (from 0 to 10, ascending) whose bit is set in `mask`.
pub open spec fn slices_in(mask: i32) -> Seq<i32> {
    Seq::new(11, |i: int| i as i32).filter(|i: i32| mask_of(i as int) & mask != 0)
}

/// The pants direction (hexagon segment) of a systolic slice.
pub open spec fn dir_seg_of(slice: int) -> i32 {
    if slice == 1 {
        1
    } else if slice == 2 {
        3
    } else if slice == 3 {
        5
    } else {
        0
    }
}

/// Slices are numbered from 1 (innermost) to 10.
pub fn slice_to_mask(slice: i32) -> (r: i32)
    ensures
        r == mask_of(slice as int),
{
    if 1 <= slice && slice <= 10 {
        1i32 << ((slice - 1) as u32)
    } else {
        0
    }
}

/// For systolic puzzles, where "slices" mark the three pants directions (hexagon segments 1, 3, 5).
pub fn dir_seg_to_mask(dir_seg: i32) -> (r: i32)
    ensures
        r == (if dir_seg == 1 {
            SLICEMASK_1
        } else if dir_seg == 3 {
            SLICEMASK_2
        } else if dir_seg == 5 {
            SLICEMASK_3
        } else {
            0i32
        }),
{
    match dir_seg {
        1 => SLICEMASK_1,
        3 => SLICEMASK_2,
        5 => SLICEMASK_3,
        _ => 0,
    }
}

pub fn slice_to_dir_seg(slice: i32) -> (r: i32)
    ensures
        r == dir_seg_of(slice as int),
{
    match slice {
        1 => 1,
        2 => 3,
        3 => 5,
        _ => 0,
    }
}

pub fn mask_to_dir_seg(mask: i32) -> (r: i32)
    ensures
        r == dir_seg_of(first_slice(mask) as int),
{
    slice_to_dir_seg(mask_to_slice(mask))
}

/// The first slice of a mask, defaulting to 1.
pub open spec fn first_slice(mask: i32) -> i32 {
    if slices_in(mask).len() > 0 {
        slices_in(mask)[0]
    } else {
        1
    }
}

/// The first slice in a mask (meant for single-slice masks on systolic puzzles), defaulting to 1.
pub fn mask_to_slice(mask: i32) -> (r: i32)
    ensures
        r == first_slice(mask),
{
    let slices = mask_to_slices(mask);
    if slices.len() > 0 {
        slices[0]
    } else {
        1
    }
}

pub fn mask_to_slices(mask: i32) -> (r: Vec<i32>)
    ensures
        r@ == slices_in(mask),
{
    let mut r: Vec<i32> = Vec::new();
    let ghost all = Seq::new(11, |i: int| i as i32);
    let ghost pred = |i: i32| mask_of(i as int) & mask != 0;
    let mut i: i32 = 0;
    while i <= 10
        invariant
            0 <= i <= 11,
            all == Seq::new(11, |i: int| i as i32),
            pred == (|i: i32| mask_of(i as int) & mask != 0),
            r@ == all.take(i as int).filter(pred),
        decreases 11 - i,
    {
        assert(all.take(i as int + 1) =~= all.take(i as int).push(i));
        proof {
            all.take(i as int).lemma_filter_push(i, pred);
        }
        if slice_to_mask(i) & mask != 0 {
            r.push(i);
        }
        i = i + 1;
    }
    assert(all.take(11) =~= all);
    r
}

proof fn lemma_filter_single(all: Seq<i32>, pred: spec_fn(i32) -> bool, slice: i32, k: int)
    requires
        0 <= k <= 11,
        1 <= slice <= 10,
        all == Seq::new(11, |i: int| i as i32),
        forall|i: i32| 0 <= i <= 10 ==> (#[trigger] pred(i) <==> i == slice),
    ensures
        all.take(k).filter(pred) == (if k > slice {
            seq![slice]
        } else {
            Seq::<i32>::empty()
        }),
    decreases k,
{
    if k == 0 {
        assert(all.take(0) =~= Seq::<i32>::empty());
        assert(all.take(0).filter(pred) =~= Seq::<i32>::empty()) by {
            reveal_with_fuel(Seq::filter, 1);
        }
    } else {
        lemma_filter_single(all, pred, slice, k - 1);
        assert(all.take(k) =~= all.take(k - 1).push((k - 1) as i32));
        all.take(k - 1).lemma_filter_push((k - 1) as i32, pred);
        assert(pred((k - 1) as i32) <==> k - 1 == slice);
    }
}

/// A single slice's mask holds that slice and no other.
pub proof fn lemma_slice_mask_round_trip(slice: i32)
    requires
        1 <= slice <= 10,
    ensures
        slices_in(mask_of(slice as int)) == seq![slice],
        first_slice(mask_of(slice as int)) == slice,
{
    let m = mask_of(slice as int);
    let all = Seq::new(11, |i: int| i as i32);
    let pred = |i: i32| mask_of(i as int) & m != 0;
    assert forall|i: i32| 0 <= i <= 10 implies (#[trigger] pred(i) <==> i == slice) by {
        if i == 0 {
            assert(0i32 & m == 0) by (bit_vector);
        } else {
            let a = (i - 1) as u32;
            let b = (slice - 1) as u32;
            assert(0 <= a < 10 && 0 <= b < 10);
            assert(0 <= a < 10 && 0 <= b < 10 ==> (((1i32 << a) & (1i32 << b)) != 0 <==> a == b))
                by (bit_vector);
        }
    }
    lemma_filter_single(all, pred, slice, 11);
    assert(all.take(11) =~= all);
}

} // verus!
