use magictile::cayley::{cycle, cycles, identity, inverse, mul, swap, word, Perm, Route};

fn perm(digits: &[u8]) -> Perm {
    let mut p = [0u8; 9];
    p[..digits.len()].copy_from_slice(digits);
    p
}

#[test]
fn words_and_cycles() {
    let g = perm(&[3, 1, 4, 5, 2]);
    assert_eq!(word(&g, 5), "31452");
    assert_eq!(cycles(&g, 5), "(1 3 4 5 2)");
    assert_eq!(cycles(&perm(&[3, 5, 4, 1, 2]), 5), "(1 3 4)(2 5)");
    assert_eq!(cycles(&identity(5), 5), "identity");
}

#[test]
fn cycle_steps_rotate_and_swaps_exchange() {
    let g = perm(&[3, 1, 4, 5, 2]);
    assert_eq!(word(&mul(&g, &cycle(5), 5), 5), "14523");
    assert_eq!(word(&mul(&g, &swap(5), 5), 5), "13452");
}

#[test]
fn identity_and_inverse() {
    let g = perm(&[2, 4, 1, 3]);
    assert_eq!(mul(&g, &identity(4), 4), g);
    assert_eq!(mul(&identity(4), &g, 4), g);
    let inv = inverse(&g, 4);
    assert_eq!(inv, perm(&[3, 1, 4, 2]));
    assert_eq!(mul(&inv, &g, 4), identity(4));
    assert_eq!(mul(&g, &inv, 4), identity(4));
}

#[test]
fn cycle_has_order_q() {
    let c = cycle(5);
    let mut p = identity(5);
    for _ in 0..5 {
        p = mul(&p, &c, 5);
    }
    assert_eq!(p, identity(5));
    assert_eq!(word(&c, 5), "23451");
}

#[test]
fn routes_hold_their_path() {
    let r = Route { hops: 2, path: vec![0, 4, 7] };
    assert_eq!(r.hops, 2);
    assert_eq!(r.path.len(), 3);
}
