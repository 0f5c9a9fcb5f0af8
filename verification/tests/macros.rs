use magictile::macros::{check_macro_file, MacroTwists, SetupMoves};
use magictile::xml::XmlDocument;
use magictile::twist::SingleTwist;

fn t(i: usize, left: bool) -> SingleTwist {
    SingleTwist { identified: i, left_click: left, slice_mask: 1, ..Default::default() }
}

#[test]
fn recording_drops_undos() {
    let mut m = MacroTwists::default();
    m.update(&t(1, true));
    assert!(m.twists().is_empty(), "not recording");
    m.start_recording();
    m.update(&t(1, true));
    m.update(&t(2, true));
    m.update(&t(2, false));
    assert_eq!(m.twists(), &[t(1, true)]);
    assert_eq!(m.reverse_twists(), vec![t(1, false)]);
}

#[test]
fn markings_are_cleared() {
    let mut a = t(3, true);
    a.macro_start = true;
    let mut b = t(4, false);
    b.macro_end = true;
    let mut m = MacroTwists::from_twists(vec![a, b]);
    m.clear_start_end_markings();
    assert_eq!(m.twists(), &[t(3, true), t(4, false)]);
    m.stop_recording();
    assert!(!m.recording);
    m.reset();
    assert!(m.twists().is_empty());
}

#[test]
fn reverse_twists_undo_in_reverse_order() {
    let m = MacroTwists::from_twists(vec![t(1, true), t(2, false), t(3, true)]);
    assert_eq!(m.reverse_twists(), vec![t(3, false), t(2, true), t(1, false)]);
    let back = MacroTwists::from_twists(m.reverse_twists());
    assert_eq!(back.reverse_twists(), m.twists());
}

#[test]
fn setup_moves_and_commutators() {
    let mut s = SetupMoves::default();
    s.start_recording();
    assert!(s.recording_setup());
    s.update(&t(1, true));
    s.update(&t(2, true));
    s.stop_recording();
    assert!(!s.recording_setup() && s.recording_commutator());
    s.update(&t(5, false));
    let second = s.take_commutator_twists();
    assert_eq!(second, vec![t(2, false), t(1, false), t(5, true)]);
    assert!(!s.recording_commutator());

    s.start_recording();
    s.update(&t(7, true));
    assert_eq!(s.take_unwind_twists(), vec![t(7, false)]);
    s.reset();
    assert!(!s.recording_setup());
}

#[test]
fn macro_files_must_match_the_puzzle() {
    let text = r#"<MacroList Version="2.1"><PuzzleID>abc</PuzzleID><PuzzleName>Cube</PuzzleName></MacroList>"#;
    let doc = XmlDocument::parse(text).unwrap();
    let root = doc.root_element().unwrap();
    assert_eq!(check_macro_file(&doc, root, true, "2.1", "abc"), Ok(root));
    assert_eq!(check_macro_file(&doc, root, false, "3.0", "abc"), Ok(root));
    assert_eq!(
        check_macro_file(&doc, root, true, "2.0", "abc"),
        Err("Sorry, this macro file is not compatible with this puzzle. The macro file was saved with version 2.1, but the puzzle is version 2.0".to_string())
    );
    assert_eq!(
        check_macro_file(&doc, root, true, "2.1", "xyz"),
        Err("Sorry, we only support loading macro files which apply to the active puzzle. These macros were saved for the puzzle with display name 'Cube' and having id 'abc'".to_string())
    );
    // A saved log keeps its macros in a child element.
    let log = XmlDocument::parse("<Log><Macros><PuzzleID>abc</PuzzleID></Macros></Log>").unwrap();
    let root = log.root_element().unwrap();
    let macros = log.child(root, "Macros").unwrap();
    assert_eq!(check_macro_file(&log, root, false, "2.1", "abc"), Ok(macros));
}
