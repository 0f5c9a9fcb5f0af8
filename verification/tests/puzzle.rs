use magictile::controller::Completed;
use magictile::library::{MenuKind, MenuNode};
use magictile::cell::Cell;
use magictile::config::TogglingMode;
use magictile::cell::Sticker;
use magictile::puzzle::{
    add_unique, all_cells, all_slave_cells, is_state_calc_cell, master_or_self, set_twisting, slave_cells,
    status, status_after, toggle, update_state, BuildError, BuildProgress,
};
use magictile::twist::SingleTwist;
use magictile::twist_data::TwistData;
use magictile::state::{State, OFF_COLOR};
use magictile::twist::TwistHistory;
use magictile::twist_data::{ElementType, IdentifiedTwistData};

struct Recorder {
    messages: Vec<String>,
    cancel: bool,
}

impl BuildProgress for Recorder {
    fn status(&mut self, message: &str) {
        self.messages.push(message.to_string());
    }

    fn cancelled(&self) -> bool {
        self.cancel
    }
}

#[test]
fn status_reports_unless_cancelled() {
    let mut r = Recorder { messages: Vec::new(), cancel: false };
    assert_eq!(status(&mut r, "tiling"), Ok(()));
    assert_eq!(r.messages, vec!["tiling".to_string()]);
    r.cancel = true;
    assert_eq!(status(&mut r, "cells"), Err(BuildError::Cancelled));
    assert_eq!(r.messages.len(), 1);
    assert_eq!(status(&mut (), "quiet"), Ok(()));
    assert_eq!(status_after(true), Err(BuildError::Cancelled));
}

#[test]
fn build_error_messages() {
    assert_eq!(BuildError::Cancelled.message(), "puzzle building cancelled");
    assert_eq!(BuildError::Invalid("bad".into()).message(), "puzzle build failure: bad");
}

#[test]
fn add_unique_skips_present_items() {
    let mut v = vec![3, 5];
    add_unique(&mut v, 5);
    add_unique(&mut v, 7);
    assert_eq!(v, vec![3, 5, 7]);
}

#[test]
fn menu_children() {
    let leaf = MenuNode { label: "Klein".into(), kind: MenuKind::Puzzle(4) };
    assert!(leaf.children().is_empty());
    let g = MenuNode::group("Classics", vec![leaf]);
    assert_eq!(g.label, "Classics");
    assert_eq!(g.children().len(), 1);
    assert_eq!(g.children()[0].label, "Klein");
}

#[test]
fn plain_data() {
    let c = Completed::default();
    assert!(!c.solved);
    let t = IdentifiedTwistData { index: 2, ..Default::default() };
    assert_eq!(t.index, 2);
    assert!(t.twist_data_for_drawing.is_empty());
    assert_ne!(ElementType::Face, ElementType::Edge);
}

fn lights_cells() -> Vec<Cell> {
    let mut cells = Vec::new();
    for (i, neighbors) in [vec![0, 1, 2], vec![0, 1], vec![0, 2]].into_iter().enumerate() {
        let mut c = Cell::new();
        c.index_of_master = i as i32;
        c.neighbors = neighbors;
        cells.push(c);
    }
    let mut slave = Cell::new();
    slave.index_of_master = 0;
    slave.master = Some(0);
    cells.push(slave);
    cells
}

#[test]
fn master_or_self_follows_master() {
    let cells = lights_cells();
    assert_eq!(master_or_self(&cells, 3), 0);
    assert_eq!(master_or_self(&cells, 2), 2);
    assert!(cells[1].is_master());
    assert!(!cells[3].is_master());
}

#[test]
fn toggle_flips_neighbors_of_the_master() {
    let cells = lights_cells();
    let mut state = State::new(3, 1);
    let mut history = TwistHistory::default();
    toggle(&cells, &mut state, &mut history, 3, Some(TogglingMode::NeighborsOnly));
    assert_eq!(state.sticker_color_index(0, 0), 0);
    assert_eq!(state.sticker_color_index(1, 0), OFF_COLOR);
    assert_eq!(state.sticker_color_index(2, 0), OFF_COLOR);
    assert_eq!(history.all_toggles(), &[0]);
    toggle(&cells, &mut state, &mut history, 0, Some(TogglingMode::NeighborsAndSelf));
    assert_eq!(state.sticker_color_index(0, 0), OFF_COLOR);
    assert_eq!(state.sticker_color_index(1, 0), 1);
    assert_eq!(state.sticker_color_index(2, 0), 2);
    assert_eq!(history.all_toggles(), &[0, 0]);
    toggle(&cells, &mut state, &mut history, 1, None);
    assert_eq!(state.sticker_color_index(0, 0), 0);
    assert_eq!(state.sticker_color_index(1, 0), 1);
    assert!(state.is_all_on());
}

fn one_sticker_cells(n: usize) -> Vec<Sticker> {
    (0..n).map(|c| Sticker { cell_index: c as i32, sticker_index: 0, twisting: false }).collect()
}

#[test]
fn update_state_cycles_colors() {
    let stickers = one_sticker_cells(3);
    let mut state = State::new(3, 1);
    let pairs = update_state(&stickers, &mut state, &[(0, 10, 11), (1, 11, 12), (2, 12, 10)]);
    assert_eq!(pairs, vec![(0, 1), (1, 2), (2, 0)]);
    assert_eq!(state.sticker_color_index(0, 0), 2);
    assert_eq!(state.sticker_color_index(1, 0), 0);
    assert_eq!(state.sticker_color_index(2, 0), 1);
    // Three more turns bring it back.
    for _ in 0..2 {
        update_state(&stickers, &mut state, &[(0, 10, 11), (1, 11, 12), (2, 12, 10)]);
    }
    for c in 0..3 {
        assert_eq!(state.sticker_color_index(c, 0), c as i32);
    }
}

#[test]
fn update_state_skips_lost_and_dropped_stickers() {
    let mut stickers = one_sticker_cells(3);
    stickers[2].cell_index = -1;
    let mut state = State::new(3, 1);
    // Sticker 0 reaches a position nobody left; sticker 1 lands on a dropped cell.
    let pairs = update_state(&stickers, &mut state, &[(0, 10, 99), (1, 11, 12), (2, 12, 11)]);
    assert!(pairs.is_empty());
    for c in 0..3 {
        assert_eq!(state.sticker_color_index(c, 0), c as i32);
    }
}

#[test]
fn update_state_uses_last_moves() {
    let stickers = one_sticker_cells(3);
    let mut state = State::new(3, 1);
    // Sticker 0 moves twice and ends where sticker 2 was; sticker 1 stays put.
    let pairs =
        update_state(&stickers, &mut state, &[(0, 10, 11), (1, 11, 11), (0, 10, 12), (2, 12, 10)]);
    assert_eq!(pairs, vec![(0, 2), (2, 0)]);
    assert_eq!(state.sticker_color_index(0, 0), 2);
    assert_eq!(state.sticker_color_index(1, 0), 1);
    assert_eq!(state.sticker_color_index(2, 0), 0);
}

#[test]
fn cells_of_masters_come_master_first() {
    // Cells 0 and 1 are masters; 2 and 3 are slaves of 0, 4 of 1.
    let mut cells = Vec::new();
    for (i, master) in [None, None, Some(0), Some(0), Some(1)].into_iter().enumerate() {
        let mut c = Cell::new();
        c.master = master;
        c.index_of_master = match master {
            None => i as i32,
            Some(m) => m as i32,
        };
        cells.push(c);
    }
    let masters = vec![0, 1];
    let slaves = vec![vec![2, 3], vec![4]];
    assert_eq!(slave_cells(&cells, &slaves, 0), &[2, 3]);
    assert_eq!(slave_cells(&cells, &slaves, 1), &[4]);
    assert!(slave_cells(&cells, &slaves, 2).is_empty());
    assert_eq!(all_cells(&cells, &masters, &slaves), vec![0, 2, 3, 1, 4]);
    assert_eq!(all_slave_cells(&cells, &masters, &slaves), vec![2, 3, 4]);
    assert!(is_state_calc_cell(&[true, false], 0));
    assert!(!is_state_calc_cell(&[true, false], 1));
    assert!(!is_state_calc_cell(&[true, false], 7));
}

#[test]
fn set_twisting_marks_the_moved_slices() {
    let mut td = TwistData::new(ElementType::Face, 4);
    td.num_circles = 2;
    td.affected_stickers = Some(vec![vec![0, 1], vec![2], vec![3]]);
    let mut other = TwistData::new(ElementType::Edge, 2);
    other.affected_stickers = Some(vec![vec![4]]);
    let tds = vec![td, other];
    let all = vec![
        IdentifiedTwistData { index: 0, twist_data_for_drawing: vec![1], twist_data_for_state_calcs: vec![0] },
        IdentifiedTwistData { index: 1, twist_data_for_drawing: vec![], twist_data_for_state_calcs: vec![1] },
    ];
    let mut stickers = one_sticker_cells(6);
    // Slices 1 and 3 of the first twist data.
    let twist = SingleTwist { identified: 0, slice_mask: 0b101, ..Default::default() };
    set_twisting(&mut stickers, &all, &tds, &twist, true, false);
    let twisting: Vec<bool> = stickers.iter().map(|s| s.twisting).collect();
    assert_eq!(twisting, vec![true, true, false, true, false, false]);
    // A systolic twist also moves its second twist's stickers (with the same mask).
    let systolic = SingleTwist { identified: 0, identified_systolic: Some(1), slice_mask: 1, ..Default::default() };
    set_twisting(&mut stickers, &all, &tds, &systolic, false, false);
    let twisting: Vec<bool> = stickers.iter().map(|s| s.twisting).collect();
    assert_eq!(twisting, vec![false, false, false, true, false, false]);
    // Spherical puzzles move the twist data drawn.
    set_twisting(&mut stickers, &all, &tds, &twist, true, true);
    assert!(stickers[4].twisting && !stickers[0].twisting);
}

#[test]
fn toggling_twice_puts_the_lights_back() {
    let cells = lights_cells();
    let mut state = State::new(3, 1);
    let mut history = TwistHistory::default();
    toggle(&cells, &mut state, &mut history, 1, Some(TogglingMode::NeighborsAndSelf));
    assert!(!state.is_all_on());
    toggle(&cells, &mut state, &mut history, 1, Some(TogglingMode::NeighborsAndSelf));
    assert!(state.is_all_on());
    assert_eq!(history.all_toggles(), &[1, 1]);
}

#[test]
fn a_twist_then_its_reverse_restores_the_colors() {
    let stickers = one_sticker_cells(4);
    let mut state = State::new(4, 1);
    state.set_sticker_color_index(3, 0, 1);
    state.commit_changes();
    let forward = [(0, 10, 11), (1, 11, 12), (2, 12, 10)];
    let back = [(0, 10, 12), (1, 11, 10), (2, 12, 11)];
    update_state(&stickers, &mut state, &forward);
    assert_eq!(state.sticker_color_index(1, 0), 0);
    update_state(&stickers, &mut state, &back);
    for (c, want) in [0, 1, 2, 1].into_iter().enumerate() {
        assert_eq!(state.sticker_color_index(c, 0), want);
    }
}
