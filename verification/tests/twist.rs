use magictile::twist::{load_twists, save_twists, SingleTwist, TwistHistory};
use magictile::xml::{XElement, XmlDocument};

fn twist(i: usize, left: bool) -> SingleTwist {
    SingleTwist { identified: i, left_click: left, slice_mask: 1, ..Default::default() }
}

#[test]
fn string_round_trip() {
    let mut t = twist(12, true);
    t.macro_start = true;
    assert_eq!(t.save_to_string(), "[12:L:1");
    assert_eq!(SingleTwist::load_from_string("[12:L:1", 20), Some(t));
    let single = SingleTwist::load_from_string("[3:R:0]", 20).unwrap();
    assert!(!single.macro_start && !single.macro_end && single.slice_mask == 1);
    assert_eq!(SingleTwist::load_from_string("30:R:1", 20), None);
}

#[test]
fn blocks_match_original_format() {
    let twists: Vec<_> = (0..12).map(|i| twist(i, i % 2 == 0)).collect();
    let mut e = XElement::new("History");
    save_twists(&mut e, &twists);
    assert_eq!(e.children.len(), 2);
    assert!(!e.children[0].text.as_ref().unwrap().ends_with('\t'));
    assert_eq!(e.children[1].text.as_deref(), Some("10:L:1\t11:R:1\t"));

    let s = e.to_pretty_string();
    let doc = XmlDocument::parse(&s).unwrap();
    assert_eq!(load_twists(&doc, doc.root_element().unwrap(), 20).unwrap(), twists);
}

#[test]
fn undo_redo() {
    let mut h = TwistHistory::default();
    h.update(&twist(1, true));
    h.update(&twist(2, true));
    let undo = h.get_undo_twist().unwrap();
    assert_eq!(undo, twist(2, false));
    h.update(&undo);
    assert_eq!(h.all_twists(), &[twist(1, true)]);
    let redo = h.get_redo_twist().unwrap();
    assert_eq!(redo, twist(2, true));
    h.update(&redo);
    assert_eq!(h.all_twists().len(), 2);
    assert!(h.get_redo_twist().is_none());
}

#[test]
fn reversing_twice_is_identity_and_undoes() {
    let t = twist(4, true);
    let mut r = t.clone();
    r.reverse_twist();
    assert!(r.is_undo(&t));
    assert!(t.is_undo(&r));
    assert!(!t.is_undo(&t));
    r.reverse_twist();
    assert_eq!(r, t);
}

#[test]
fn same_twist_ignores_macro_markers() {
    let mut a = twist(7, false);
    let b = twist(7, false);
    a.macro_end = true;
    assert!(a.same_twist(&b));
    assert!(!a.same_twist(&twist(7, true)));
}

#[test]
fn the_systolic_companion_counts() {
    let a = twist(7, false);
    let mut b = twist(7, false);
    b.identified_systolic = Some(3);
    assert!(!a.same_twist(&b));
    let mut c = b.clone();
    assert!(b.same_twist(&c));
    c.identified_systolic = Some(4);
    assert!(!b.same_twist(&c));
    let mut r = b.clone();
    r.reverse_twist();
    assert!(r.is_undo(&b));
    assert!(!r.is_undo(&a));
}

#[test]
fn saved_twists_read_back() {
    let mut t = twist(5, false);
    t.slice_mask = 6;
    t.macro_end = true;
    assert_eq!(t.save_to_string(), "5:R:6]");
    assert_eq!(SingleTwist::load_from_string(&t.save_to_string(), 6), Some(t));
}

#[test]
fn malformed_twists_are_rejected() {
    assert_eq!(SingleTwist::load_from_string("1:L", 5), None);
    assert_eq!(SingleTwist::load_from_string("x:L:1", 5), None);
    assert_eq!(SingleTwist::load_from_string("1:L:y", 5), None);
    assert_eq!(SingleTwist::load_from_string("-1:L:1", 5), None);
    assert_eq!(SingleTwist::load_from_string(" 2 :L: 3 ", 5).map(|t| (t.identified, t.slice_mask)), Some((2, 3)));
}

#[test]
fn loading_a_bad_twist_reports_it() {
    let doc = XmlDocument::parse("<H><Block>1:L:1\t9:R:1\t</Block></H>").unwrap();
    let e = load_twists(&doc, doc.root_element().unwrap(), 5).unwrap_err();
    assert_eq!(e, "invalid twist '9:R:1' (the puzzle has 5 twists)");
}

#[test]
fn history_counts_and_toggles() {
    let mut h = TwistHistory::default();
    assert!(!h.scrambled());
    h.scrambles = 3;
    assert!(h.scrambled());
    h.update(&twist(1, true));
    h.update_toggle(4);
    assert_eq!(h.all_toggles(), &[4]);
    assert_eq!(h.all_moves_count(), 2);
    assert!(!h.undoing());
    h.clear();
    assert_eq!(h.all_twists().len(), 0);
    assert_eq!(h.scrambles, 0);
}

#[test]
fn history_saves_and_loads() {
    let mut h = TwistHistory::default();
    for i in 0..15 {
        h.update(&twist(i, i % 3 == 0));
    }
    let e = h.save();
    let doc = XmlDocument::parse(&e.to_pretty_string()).unwrap();
    let mut g = TwistHistory::default();
    g.load(&doc, doc.root_element().unwrap(), 20).unwrap();
    assert_eq!(g.all_twists(), h.all_twists());
}

#[test]
fn twists_of_missing_twist_data_do_not_read_back() {
    let mut t = twist(9, true);
    t.slice_mask = 0;
    assert_eq!(SingleTwist::load_from_string(&t.save_to_string(), 9), None);
    let back = SingleTwist::load_from_string(&t.save_to_string(), 10).unwrap();
    assert_eq!(back.slice_mask, 1);
    assert_eq!(back.identified, 9);
}

#[test]
fn toggles_count_as_moves() {
    let mut h = TwistHistory::default();
    h.update(&twist(1, true));
    assert_eq!(h.all_moves_count(), 1);
    h.update_toggle(4);
    assert_eq!(h.all_moves_count(), 2);
    assert_eq!(h.all_toggles().last(), Some(&4));
}
