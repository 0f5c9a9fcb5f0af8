use magictile::puzzle::{affected_master_cells, state_calc_twist_data, twist_order};
use magictile::slice_mask::slice_to_mask;
use magictile::twist::SingleTwist;
use magictile::twist_data::{ElementType, IdentifiedTwistData, TwistData};

fn plain(circles: usize) -> TwistData {
    let mut t = TwistData::new(ElementType::Face, 4);
    t.num_circles = circles;
    t
}

#[test]
fn slices_lie_between_their_circles() {
    let t = plain(3);
    assert_eq!(t.num_slices(), 3);
    // Slice 1 is inside circle 0; slice 2 between circles 0 and 1; slice 4 outside circle 2.
    assert_eq!(t.circles_for_slice_mask(slice_to_mask(1)), vec![0]);
    assert_eq!(t.circles_for_slice_mask(slice_to_mask(2)), vec![0, 1]);
    assert_eq!(t.circles_for_slice_mask(slice_to_mask(1) | slice_to_mask(3)), vec![0, 1, 2]);
    // Slice 4 is past the number of slices.
    assert!(t.circles_for_slice_mask(slice_to_mask(4)).is_empty());
    let mut more = plain(3);
    more.set_num_slices(4);
    assert_eq!(more.num_slices(), 4);
    assert_eq!(more.circles_for_slice_mask(slice_to_mask(4)), vec![2]);
    assert_eq!(more.circles_for_slice_mask(slice_to_mask(2) | slice_to_mask(4)), vec![0, 1, 2]);
}

#[test]
fn systolic_twists_use_a_direction() {
    let mut t = plain(6);
    t.has_pants = true;
    assert!(t.systolic() && !t.earthquake());
    assert_eq!(t.circles_for_systolic_slice(1), vec![2, 3]);
    assert_eq!(t.circles_for_systolic_slice(2), vec![4, 5]);
    assert_eq!(t.circles_for_systolic_slice(3), vec![0, 1]);
    assert!(t.circles_for_systolic_slice(4).is_empty());
    assert_eq!(t.circles_for_slice_mask(slice_to_mask(2)), vec![4, 5]);
    let mut quake = plain(3);
    quake.has_pants = true;
    assert!(quake.earthquake());
    assert_eq!(quake.circles_for_slice_mask(slice_to_mask(2)), vec![0, 1, 2]);
    assert!(quake.circles_for_systolic_slice(1).is_empty(), "only three circles");
}

#[test]
fn affected_stickers_by_slice() {
    let mut t = plain(2);
    assert!(t.affected_stickers_for_slice_mask(1).is_empty(), "not worked out yet");
    t.affected_stickers = Some(vec![vec![1, 2], vec![3], vec![4, 5, 6]]);
    let got = t.affected_stickers_for_slice_mask(slice_to_mask(1) | slice_to_mask(3));
    assert_eq!(got, vec![&[1usize, 2][..], &[4, 5, 6][..]]);
    assert!(t.affected_stickers_for_slice_mask(slice_to_mask(5)).is_empty());
    t.has_pants = true;
    t.num_circles = 6;
    assert_eq!(t.affected_stickers_for_slice_mask(slice_to_mask(2)), vec![&[3usize][..]]);
    t.num_circles = 3;
    assert_eq!(t.affected_stickers_for_slice_mask(slice_to_mask(2)).len(), 3);
}

#[test]
fn twists_are_timed_and_traced_through_their_twist_data() {
    let mut a = plain(1);
    a.order = 5;
    a.affected_master_cells = Some(vec![7, 8]);
    let mut b = plain(1);
    b.order = 3;
    b.affected_master_cells = Some(vec![8, 9]);
    let twist_data = vec![a, b];
    let all = vec![
        IdentifiedTwistData { index: 0, twist_data_for_drawing: vec![1], twist_data_for_state_calcs: vec![0, 1] },
        IdentifiedTwistData { index: 1, twist_data_for_drawing: vec![1], twist_data_for_state_calcs: vec![] },
        IdentifiedTwistData { index: 2, twist_data_for_drawing: vec![], twist_data_for_state_calcs: vec![] },
    ];
    assert_eq!(twist_order(&all, &twist_data, 0), 5);
    assert_eq!(twist_order(&all, &twist_data, 1), 3);
    assert_eq!(twist_order(&all, &twist_data, 2), 1);
    assert_eq!(affected_master_cells(&all, &twist_data, 0), vec![7, 8, 9]);
    assert!(affected_master_cells(&all, &twist_data, 1).is_empty());
    let twist = SingleTwist { identified: 0, identified_systolic: Some(0), ..Default::default() };
    assert_eq!(state_calc_twist_data(&all, &twist), vec![0, 1, 0, 1]);
    let plain_twist = SingleTwist { identified: 1, ..Default::default() };
    assert!(state_calc_twist_data(&all, &plain_twist).is_empty());
}
