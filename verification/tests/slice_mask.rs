use magictile::slice_mask::{
    dir_seg_to_mask, mask_to_dir_seg, mask_to_slice, mask_to_slices, slice_to_dir_seg, slice_to_mask,
    SLICEMASK_1, SLICEMASK_10, SLICEMASK_2, SLICEMASK_3,
};

#[test]
fn masks() {
    assert_eq!(slice_to_mask(1), 1);
    assert_eq!(slice_to_mask(10), 0x200);
    assert_eq!(slice_to_mask(11), 0);
    assert_eq!(mask_to_slices(SLICEMASK_1 | SLICEMASK_3), vec![1, 3]);
    assert_eq!(mask_to_slice(0), 1);
    assert_eq!(mask_to_dir_seg(SLICEMASK_2), 3);
}

#[test]
fn slices_round_trip_through_masks() {
    for s in 1..=10 {
        assert_eq!(mask_to_slices(slice_to_mask(s)), vec![s]);
        assert_eq!(mask_to_slice(slice_to_mask(s)), s);
    }
}

#[test]
fn out_of_range_slices_have_no_mask() {
    assert_eq!(slice_to_mask(0), 0);
    assert_eq!(slice_to_mask(-3), 0);
    assert_eq!(mask_to_slices(0), Vec::<i32>::new());
}

#[test]
fn dir_segs() {
    assert_eq!(dir_seg_to_mask(1), SLICEMASK_1);
    assert_eq!(dir_seg_to_mask(3), SLICEMASK_2);
    assert_eq!(dir_seg_to_mask(5), SLICEMASK_3);
    assert_eq!(dir_seg_to_mask(0), 0);
    assert_eq!(slice_to_dir_seg(1), 1);
    assert_eq!(slice_to_dir_seg(3), 5);
    assert_eq!(slice_to_dir_seg(4), 0);
    assert_eq!(mask_to_dir_seg(SLICEMASK_3), 5);
    assert_eq!(mask_to_dir_seg(SLICEMASK_10), 0);
    assert_eq!(mask_to_slice(SLICEMASK_2 | SLICEMASK_3), 2);
}
