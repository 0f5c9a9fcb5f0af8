use magictile::state::{load_cell, save_color, save_row, State, OFF_COLOR};
use magictile::xml::XmlDocument;

fn cell_chars(s: &str) -> Vec<char> {
    s.chars().collect()
}

#[test]
fn solved_and_toggling() {
    let mut s = State::new(3, 4);
    assert!(s.is_solved() && s.is_all_on());
    s.set_sticker_color_index(0, 1, 2);
    assert!(s.is_solved(), "not committed yet");
    s.commit_changes();
    assert!(!s.is_solved());

    let mut t = State::new(2, 1);
    t.toggle_sticker_color_index(1, 0);
    t.commit_changes();
    assert_eq!(t.sticker_color_index(1, 0), OFF_COLOR);
    assert!(!t.is_all_on());
    t.toggle_sticker_color_index(1, 0);
    t.commit_changes();
    assert!(t.is_all_on());
}

#[test]
fn save_load() {
    let mut s = State::new(20, 3);
    s.set_sticker_color_index(19, 2, 17);
    s.set_sticker_color_index(0, 0, OFF_COLOR);
    s.commit_changes();
    let e = s.save();
    assert_eq!(e.children[19].text.as_deref(), Some("131311"));
    let text = e.to_pretty_string();
    let doc = XmlDocument::parse(&text).unwrap();
    let mut t = State::new(20, 3);
    t.load(&doc, doc.root_element().unwrap()).unwrap();
    for c in 0..20 {
        for k in 0..3 {
            assert_eq!(t.sticker_color_index(c, k), s.sticker_color_index(c, k));
        }
    }
    // The old off-color output reads back too.
    assert_eq!(load_cell(&cell_chars("0ffffffff0101"), 3), Some(vec![OFF_COLOR, 1, 1]));
}

#[test]
fn new_state_is_solved_with_cell_colors() {
    let s = State::new(4, 2);
    assert_eq!(s.num_cells(), 4);
    assert_eq!(s.num_stickers(), 2);
    assert_eq!(s.sticker_color_index(3, 1), 3);
}

#[test]
fn commit_cell_commits_one_cell() {
    let mut s = State::new(3, 2);
    s.set_sticker_color_index(1, 0, 2);
    s.set_sticker_color_index(2, 0, 0);
    s.commit_cell(1);
    assert_eq!(s.sticker_color_index(1, 0), 2);
    assert_eq!(s.sticker_color_index(2, 0), 2);
    s.reset();
    assert_eq!(s.sticker_color_index(1, 0), 1);
    assert!(s.is_solved());
}

#[test]
fn colors_are_two_hex_digits() {
    assert_eq!(save_color(17).iter().collect::<String>(), "11");
    assert_eq!(save_color(0).iter().collect::<String>(), "00");
    assert_eq!(save_color(OFF_COLOR).iter().collect::<String>(), "ff");
    assert_eq!(save_row(&[1, 2, 254]).iter().collect::<String>(), "0102fe");
}

#[test]
fn cells_read_back() {
    let row = [3, OFF_COLOR, 254, 0];
    assert_eq!(load_cell(&save_row(&row), 4), Some(row.to_vec()));
    assert_eq!(load_cell(&cell_chars(" 0a0b \n"), 2), Some(vec![10, 11]));
}

#[test]
fn malformed_cells_are_rejected() {
    assert_eq!(load_cell(&cell_chars("0a0"), 2), None);
    assert_eq!(load_cell(&cell_chars("0x0b"), 2), None);
    assert_eq!(load_cell(&cell_chars("éé"), 1), None);
}

#[test]
fn loading_too_many_cells_fails() {
    let big = State::new(3, 1);
    let doc = XmlDocument::parse(&big.save().to_pretty_string()).unwrap();
    let mut small = State::new(2, 1);
    let e = small.load(&doc, doc.root_element().unwrap()).unwrap_err();
    assert_eq!(e, "saved state has more than 2 cells");
    // The cells before the bad one were loaded.
    assert_eq!(small.sticker_color_index(1, 0), 1);
}

#[test]
fn loading_a_bad_cell_fails() {
    let doc = XmlDocument::parse("<State><Cell>00</Cell><Cell>zz</Cell></State>").unwrap();
    let mut s = State::new(2, 1);
    let e = s.load(&doc, doc.root_element().unwrap()).unwrap_err();
    assert_eq!(e, "invalid saved state for cell 1 (expected 1 stickers)");
}
