use magictile::group_presentation::{read_relations, PresentationError};

#[test]
fn reads_relations() {
    let r = read_relations("[ R^4, S^3, (R * S)^2 ]").unwrap();
    // R^4 = (ab)^4
    assert_eq!(r[0], vec![0, 1, 0, 1, 0, 1, 0, 1]);
    // S^3 = (bc)^3
    assert_eq!(r[1], vec![1, 2, 1, 2, 1, 2]);
    // (RS)^2 = (ab bc)^2
    assert_eq!(r[2], vec![0, 1, 1, 2, 0, 1, 1, 2]);
}

#[test]
fn negative_powers_reverse() {
    let r = read_relations("[(R*S^-1)^2]").unwrap();
    // S^-1 = s = cb, so (R s)^2 = (ab cb)^2
    assert_eq!(r[0], vec![0, 1, 2, 1, 0, 1, 2, 1]);
}

#[test]
fn reflections_pass_through() {
    let r = read_relations("[a*b*c, T^2]").unwrap();
    assert_eq!(r, vec![vec![0, 1, 2], vec![1, 1]]);
}

#[test]
fn empty_presentation_has_one_empty_relation() {
    assert_eq!(read_relations("[]").unwrap(), vec![Vec::<usize>::new()]);
}

#[test]
fn unbalanced_parentheses_are_rejected() {
    let e = read_relations("[(R*S^2]").unwrap_err();
    assert_eq!(e, PresentationError("unbalanced parentheses".to_string()));
}

#[test]
fn parentheses_need_a_power() {
    let e = read_relations("[(R*S)]").unwrap_err();
    assert_eq!(e, PresentationError("expected a power after parentheses".to_string()));
}

#[test]
fn leading_caret_is_rejected() {
    assert!(read_relations("[^2]").is_err());
}

#[test]
fn bad_power_is_rejected() {
    assert!(read_relations("[R^x]").is_err());
}

#[test]
fn unknown_generator_inverse_is_rejected() {
    assert!(read_relations("[(R*Q)^-1]").is_err());
}

#[test]
fn missing_power_is_rejected() {
    assert_eq!(read_relations("[R^]").unwrap_err(), PresentationError("missing power".to_string()));
}

#[test]
fn bad_power_is_named() {
    assert_eq!(read_relations("[S^x]").unwrap_err(), PresentationError("bad power x".to_string()));
}

#[test]
fn powers_inside_reversed_words_are_rejected() {
    assert_eq!(
        read_relations("[((R)^2)^-1]").unwrap_err(),
        PresentationError("can't reverse a word containing powers".to_string())
    );
}

#[test]
fn unknown_generators_are_named() {
    assert_eq!(read_relations("[(R*Q)^-1]").unwrap_err(), PresentationError("unknown generator Q".to_string()));
}
