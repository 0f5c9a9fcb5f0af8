use magictile::cell::Cell;
use magictile::controller::{
    mark_macro_block, random_left_click, random_slice_mask, random_twist_index, scramble_identified,
    scramble_toggles, scramble_twist, Completed, TwistController,
};
use magictile::twist_data::{ElementType, IdentifiedTwistData, TwistData};
use magictile::macros::MacroTwists;
use magictile::state::State;
use magictile::slice_mask::slice_to_mask;
use magictile::twist::{SingleTwist, TwistHistory};
use rand::rngs::StdRng;
use rand::SeedableRng;

fn ct(i: usize) -> SingleTwist {
    SingleTwist { identified: i, slice_mask: 1, ..Default::default() }
}

#[test]
fn macro_blocks_are_marked() {
    let marked = mark_macro_block(vec![ct(1), ct(2), ct(3)]);
    assert!(marked[0].macro_start && !marked[0].macro_end);
    assert!(!marked[1].macro_start && !marked[1].macro_end);
    assert!(!marked[2].macro_start && marked[2].macro_end);
    let single = mark_macro_block(vec![ct(4)]);
    assert!(!single[0].macro_start && !single[0].macro_end);
    assert!(mark_macro_block(Vec::new()).is_empty());
}

#[test]
fn completions_are_celebrated_when_scrambled() {
    let mut h = TwistHistory::default();
    assert_eq!(Completed::after(&h, true), Completed { solved: false });
    h.scrambles = 5;
    assert_eq!(Completed::after(&h, true), Completed { solved: true });
    assert_eq!(Completed::after(&h, false), Completed { solved: false });
    h.update(&ct(1));
    h.get_undo_twist();
    assert_eq!(Completed::after(&h, true), Completed { solved: false });
}

#[test]
fn scramble_choices_stay_in_range() {
    let mut rng = StdRng::seed_from_u64(7);
    let cells = scramble_toggles(&mut rng, 6, 40);
    assert_eq!(cells.len(), 40);
    assert!(cells.iter().all(|&c| c < 6));
    assert!(scramble_toggles(&mut rng, 0, 0).is_empty());
    for _ in 0..50 {
        assert!(random_twist_index(&mut rng, 3) < 3);
        let mask = random_slice_mask(&mut rng, 4);
        assert!((1..=4).any(|s| slice_to_mask(s) == mask));
        assert_eq!(random_slice_mask(&mut rng, 0), 1);
    }
    let lefts = (0..100).filter(|_| random_left_click(&mut rng)).count();
    assert!(lefts > 0 && lefts < 100);
}


fn rev(t: &SingleTwist) -> SingleTwist {
    SingleTwist { left_click: !t.left_click, ..t.clone() }
}

#[test]
fn animated_twists_complete_into_the_history() {
    let mut c = TwistController::default();
    let mut h = TwistHistory::default();
    assert!(!c.twisting());
    assert!(c.advance(&mut h, false).is_none(), "nothing animating");
    assert!(c.start_rotate(ct(1)));
    assert!(!c.start_rotate(ct(2)), "one twist at a time");
    assert_eq!(c.current_twist(), Some(&ct(1)));
    let (done, steps) = c.advance(&mut h, false).unwrap();
    assert_eq!(done, Completed { solved: false });
    assert!(steps.instant.is_empty() && steps.animate.is_none());
    assert!(!c.twisting());
    assert_eq!(h.all_twists(), &[ct(1)]);
    // An undo animates the reversed twist; completing it takes it off the history.
    let steps = c.undo(&mut h);
    assert!(steps.instant.is_empty());
    assert_eq!(steps.animate, Some(rev(&ct(1))));
    assert!(c.twisting());
    assert!(c.undo(&mut h).animate.is_none(), "ignored while twisting");
    c.advance(&mut h, true).unwrap();
    assert!(h.all_twists().is_empty());
    // And a redo brings it back.
    let steps = c.redo(&mut h);
    assert_eq!(steps.animate, Some(ct(1)));
    c.advance(&mut h, false).unwrap();
    assert_eq!(h.all_twists(), &[ct(1)]);
}

#[test]
fn macros_are_undone_and_redone_at_once() {
    let mut c = TwistController::default();
    let mut h = TwistHistory::default();
    let applied = c.apply_macro_twists(&mut h, vec![ct(1), ct(2), ct(3)]);
    assert_eq!(applied, mark_macro_block(vec![ct(1), ct(2), ct(3)]));
    assert_eq!(h.all_twists(), &applied[..]);
    let steps = c.undo(&mut h);
    assert!(steps.animate.is_none());
    assert_eq!(steps.instant, vec![rev(&applied[2]), rev(&applied[1]), rev(&applied[0])]);
    assert!(h.all_twists().is_empty());
    let steps = c.redo(&mut h);
    assert!(steps.animate.is_none());
    assert_eq!(steps.instant, applied);
    assert_eq!(h.all_twists(), &applied[..]);
}

#[test]
fn solving_undoes_everything_and_forgets_the_scramble() {
    let mut c = TwistController::default();
    let mut h = TwistHistory::default();
    for i in 0..3 {
        c.start_rotate(ct(i));
        c.advance(&mut h, false);
    }
    h.scrambles = 3;
    let steps = c.solve(&mut h);
    assert!(c.solving);
    assert_eq!(steps.animate, Some(rev(&ct(2))));
    let mut undone = vec![steps.animate.unwrap()];
    while let Some((_, steps)) = c.advance(&mut h, false) {
        undone.extend(steps.instant);
        if let Some(t) = steps.animate {
            undone.push(t);
        }
    }
    assert_eq!(undone, vec![rev(&ct(2)), rev(&ct(1)), rev(&ct(0))]);
    assert!(!c.solving);
    assert!(h.all_twists().is_empty());
    assert_eq!(h.scrambles, 0);
}

#[test]
fn macros_run_forwards_and_backwards() {
    let mut c = TwistController::default();
    let mut h = TwistHistory::default();
    let m = MacroTwists::from_twists(vec![ct(4), ct(5)]);
    let back = c.apply_macro(&mut h, &m, true);
    assert_eq!(back, mark_macro_block(vec![rev(&ct(5)), rev(&ct(4))]));
    let forward = c.apply_macro(&mut h, &m, false);
    assert_eq!(forward, mark_macro_block(vec![ct(4), ct(5)]));
    assert_eq!(h.all_twists().len(), 4);
}

#[test]
fn setup_moves_unwind_and_commute() {
    let mut c = TwistController::default();
    let mut h = TwistHistory::default();
    c.setup_moves.start_recording();
    c.start_rotate(ct(1));
    c.advance(&mut h, false);
    c.setup_moves.stop_recording();
    c.start_rotate(ct(2));
    c.advance(&mut h, false);
    let done = c.commutator(&mut h);
    assert_eq!(done, mark_macro_block(vec![rev(&ct(1)), rev(&ct(2))]));
    assert!(!c.setup_moves.recording_setup() && !c.setup_moves.recording_commutator());
    c.setup_moves.start_recording();
    c.start_rotate(ct(3));
    c.advance(&mut h, false);
    assert_eq!(c.unwind(&mut h), vec![rev(&ct(3))]);
}

#[test]
fn resetting_clears_the_history() {
    let mut c = TwistController::default();
    let mut h = TwistHistory::default();
    let mut state = State::new(2, 3);
    c.apply_macro_twists(&mut h, vec![ct(1), ct(2)]);
    c.working_macro.start_recording();
    c.reset_state(&mut state, &mut h);
    assert!(h.all_twists().is_empty());
    assert!(!c.working_macro.recording);
    assert!(state.is_solved());
}

fn identified(state_calcs: Vec<usize>) -> IdentifiedTwistData {
    IdentifiedTwistData { index: 0, twist_data_for_drawing: Vec::new(), twist_data_for_state_calcs: state_calcs }
}

#[test]
fn scramble_avoids_the_last_twist() {
    let mut rng = StdRng::seed_from_u64(11);
    for _ in 0..200 {
        let r = scramble_identified(&mut rng, 4, Some(2));
        assert!(r < 4 && r != 2);
        assert!(scramble_identified(&mut rng, 2, Some(1)) < 2);
        assert!(scramble_identified(&mut rng, 5, None) < 5);
    }
    // Every other one comes up.
    let seen: Vec<usize> = (0..200).map(|_| scramble_identified(&mut rng, 4, Some(3))).collect();
    for i in 0..3 {
        assert!(seen.contains(&i));
    }
}

#[test]
fn scramble_twists_pick_a_slice_of_the_first_twist_data() {
    let mut rng = StdRng::seed_from_u64(3);
    let mut td = TwistData::new(ElementType::Face, 4);
    td.num_circles = 3;
    let tds = vec![td, TwistData::new(ElementType::Edge, 2)];
    let all = vec![identified(vec![0]), identified(vec![1]), identified(vec![0, 1])];
    let mut history = TwistHistory::default();
    for _ in 0..100 {
        let t = scramble_twist(&mut rng, &history, &all, &tds).unwrap();
        assert!(t.identified < 3);
        if !history.all_twists().is_empty() {
            assert_ne!(t.identified, history.all_twists().last().unwrap().identified);
        }
        let first = all[t.identified].twist_data_for_state_calcs[0];
        let n = tds[first].num_slices().max(1);
        assert!((1..=n).any(|s| slice_to_mask(s) == t.slice_mask));
        assert_eq!(t.identified_systolic, None);
        assert!(!t.macro_start && !t.macro_end);
        history.update(&t);
    }
    // With nothing to twist, the turn is skipped.
    let empty = vec![identified(Vec::new())];
    assert_eq!(scramble_twist(&mut rng, &history, &empty, &tds), None);
}

#[test]
fn current_twist_order_follows_the_twist() {
    let tds = vec![TwistData::new(ElementType::Face, 5)];
    let all = vec![identified(vec![0]), identified(Vec::new())];
    let mut c = TwistController::default();
    assert_eq!(c.current_twist_order(&all, &tds), 1);
    c.start_rotate(ct(0));
    assert_eq!(c.current_twist_order(&all, &tds), 5);
    let mut c = TwistController::default();
    c.start_rotate(ct(1));
    assert_eq!(c.current_twist_order(&all, &tds), 1);
    let mut c = TwistController::default();
    c.start_rotate(SingleTwist { identified_systolic: Some(1), ..ct(0) });
    assert_eq!(c.current_twist_order(&all, &tds), 10);
}

#[test]
fn toggling_all_lights_on_after_a_scramble_is_celebrated() {
    let mut cells = Vec::new();
    for (i, neighbors) in [vec![0, 1], vec![0, 1]].into_iter().enumerate() {
        let mut c = Cell::new();
        c.index_of_master = i as i32;
        c.neighbors = neighbors;
        cells.push(c);
    }
    let mut state = State::new(2, 1);
    let mut history = TwistHistory::default();
    let mut c = TwistController::default();
    assert!(!c.toggle(&cells, &mut state, &mut history, 0, None).solved);
    assert!(!state.is_all_on());
    history.set_scrambles(1);
    assert!(c.toggle(&cells, &mut state, &mut history, 0, None).solved);
    assert!(state.is_all_on());
    assert_eq!(history.all_toggles(), &[0, 0]);
}
