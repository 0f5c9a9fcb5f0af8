use magictile::cayley::{cycle, identity, mul, swap, word, Perm};
use magictile::cayley_graph::{back_link, Cayley, Vertex};

/// Every permutation of `1..=q`, in one-line form.
fn all_perms(q: usize) -> Vec<Perm> {
    fn extend(prefix: &mut Vec<u8>, q: usize, out: &mut Vec<Perm>) {
        if prefix.len() == q {
            let mut p = [0u8; 9];
            p[..q].copy_from_slice(prefix);
            out.push(p);
            return;
        }
        for d in 1..=q as u8 {
            if !prefix.contains(&d) {
                prefix.push(d);
                extend(prefix, q, out);
                prefix.pop();
            }
        }
    }
    let mut out = Vec::new();
    extend(&mut Vec::new(), q, &mut out);
    out
}

/// The Cayley graph of S_q with the cycle and the swap as generators, laid out as a truncated
/// tiling's rings and edges: one ring per coset of the cycle, one edge per pair `g`, `g t`.
fn symmetric_group_graph(q: usize) -> (Vec<Perm>, Vec<Vec<usize>>, Vec<(usize, usize)>) {
    let perms = all_perms(q);
    let index = |g: &Perm| perms.iter().position(|p| p == g).unwrap();
    let (c, t) = (cycle(q), swap(q));
    let mut seen = vec![false; perms.len()];
    let mut rings = Vec::new();
    for start in 0..perms.len() {
        if seen[start] {
            continue;
        }
        let mut ring = Vec::new();
        let mut g = perms[start];
        for _ in 0..q {
            let i = index(&g);
            seen[i] = true;
            ring.push(i);
            g = mul(&g, &c, q);
        }
        rings.push(ring);
    }
    let mut swaps = Vec::new();
    for (i, g) in perms.iter().enumerate() {
        let j = index(&mul(g, &t, q));
        if i < j {
            swaps.push((i, j));
        }
    }
    (perms, rings, swaps)
}

#[test]
fn labels_the_symmetric_group_on_its_cayley_graph() {
    let (perms, rings, swaps) = symmetric_group_graph(5);
    let first = perms.iter().position(|p| *p == identity(5)).unwrap();
    let c = Cayley::build(4, 5, &rings, &swaps, perms.len(), first).expect("t{4,5} is a Cayley graph of S5");
    assert_eq!(c.distinct_labels(), 120);
    assert!(c.incomplete.is_empty());
    for (v, g) in perms.iter().enumerate() {
        assert_eq!(c.label(v), Some(*g));
        assert_eq!(c.copies_of(v), &[v][..]);
    }
    assert_eq!(c.vertices_with_label(&identity(5)), &[first][..]);
}

#[test]
fn steps_rotate_and_swap_the_shown_words() {
    let (perms, rings, swaps) = symmetric_group_graph(4);
    let first = perms.iter().position(|p| *p == identity(4)).unwrap();
    let c = Cayley::build(3, 4, &rings, &swaps, perms.len(), first).unwrap();
    let frame = c.identity_perm();
    for v in 0..c.vertices.len() {
        let w = c.label_word(v, &frame).unwrap();
        let next = c.vertices[v].next.unwrap();
        let rotated = format!("{}{}", &w[1..], &w[..1]);
        assert_eq!(c.label_word(next, &frame).unwrap(), rotated);
        let across = c.vertices[v].across.unwrap();
        let mut swapped: Vec<char> = w.chars().collect();
        swapped.swap(0, 1);
        assert_eq!(c.label_word(across, &frame).unwrap(), swapped.into_iter().collect::<String>());
        let back = back_link(&c.vertices, v).unwrap();
        assert_eq!(c.vertices[back].next, Some(v));
    }
}

#[test]
fn recentering_multiplies_the_shown_labels_on_the_left() {
    let (perms, rings, swaps) = symmetric_group_graph(4);
    let first = perms.iter().position(|p| *p == identity(4)).unwrap();
    let c = Cayley::build(6, 4, &rings, &swaps, perms.len(), first).unwrap();
    let frame = perms[7];
    for v in 0..perms.len() {
        let shown = c.displayed(v, &frame).unwrap();
        assert_eq!(shown, c.compose(&frame, &perms[v]));
        assert_eq!(c.label_word(v, &frame).unwrap(), word(&shown, 4));
    }
    let inv = c.inverse_of(&frame);
    assert_eq!(c.compose(&inv, &frame), c.identity_perm());
    assert_eq!(c.label_cycles(first, &frame), Some(magictile::cayley::cycles(&frame, 4)));
}

#[test]
fn refuses_labellings_that_cannot_be_consistent() {
    let (perms, rings, swaps) = symmetric_group_graph(4);
    let first = perms.iter().position(|p| *p == identity(4)).unwrap();
    // q - 1 = 3 does not divide 4: going around an 8-gon does not close up.
    assert!(Cayley::build(4, 4, &rings, &swaps, perms.len(), first).is_none());
    // q outside the range that can be labelled.
    assert!(Cayley::build(2, 2, &rings, &swaps, perms.len(), first).is_none());
    assert!(Cayley::build(9, 10, &rings, &swaps, perms.len(), first).is_none());
    // Rewiring two edges breaks the relations.
    let mut crossed = swaps.clone();
    let (a, b) = crossed[0];
    let (c, d) = crossed[1];
    crossed[0] = (a, d);
    crossed[1] = (c, b);
    assert!(Cayley::build(3, 4, &rings, &crossed, perms.len(), first).is_none());
}

#[test]
fn a_partial_patch_labels_what_it_reaches() {
    // One triangle and one edge out of it, for q = 3: the rest of the graph is missing.
    let rings = vec![vec![0, 1, 2]];
    let swaps = vec![(0, 3)];
    let c = Cayley::build(2, 3, &rings, &swaps, 5, 0).unwrap();
    assert_eq!(c.label(0), Some(identity(3)));
    assert_eq!(c.label(1), Some(cycle(3)));
    assert_eq!(c.label(3), Some(swap(3)));
    assert_eq!(c.label(4), None);
    assert_eq!(c.copies_of(4), &[] as &[usize]);
    assert_eq!(c.distinct_labels(), 4);
    // The corners 1 and 2 have no edge across, and vertex 3 has no ring at all.
    assert_eq!(c.incomplete, vec![1, 2, 3]);
    assert_eq!(c.label_word(4, &c.identity_perm()), None);
}

#[test]
fn back_links_close_rings_only() {
    let ring = |next: Option<usize>| Vertex { label: None, next, across: None };
    let closed = vec![ring(Some(1)), ring(Some(2)), ring(Some(0))];
    assert_eq!(back_link(&closed, 0), Some(2));
    assert_eq!(back_link(&closed, 1), Some(0));
    let open = vec![ring(Some(1)), ring(Some(2)), ring(None)];
    assert_eq!(back_link(&open, 0), None);
    let lasso = vec![ring(Some(1)), ring(Some(2)), ring(Some(1))];
    assert_eq!(back_link(&lasso, 0), None);
    assert_eq!(back_link(&lasso, 1), Some(2));
    let single = vec![ring(Some(0))];
    assert_eq!(back_link(&single, 0), Some(0));
}

#[test]
fn a_neighbor_prefers_the_edge_across() {
    let v = Vertex { label: None, next: Some(4), across: Some(7) };
    assert_eq!(v.neighbor(), Some(7));
    let w = Vertex { label: None, next: Some(4), across: None };
    assert_eq!(w.neighbor(), Some(4));
}

/// Word lengths in S_q from the identity, by a search over the group itself.
fn word_lengths(q: usize) -> Vec<(Perm, usize)> {
    let c = cycle(q);
    let generators = [c, magictile::cayley::inverse(&c, q), swap(q)];
    let mut lengths: Vec<(Perm, usize)> = vec![(identity(q), 0)];
    let mut head = 0;
    while head < lengths.len() {
        let (g, d) = lengths[head];
        for s in &generators {
            let h = mul(&g, s, q);
            if !lengths.iter().any(|(p, _)| *p == h) {
                lengths.push((h, d + 1));
            }
        }
        head += 1;
    }
    lengths
}

#[test]
fn hop_counts_match_the_word_metric() {
    let (perms, rings, swaps) = symmetric_group_graph(5);
    let first = perms.iter().position(|p| *p == identity(5)).unwrap();
    let c = Cayley::build(4, 5, &rings, &swaps, perms.len(), first).unwrap();
    let lengths = word_lengths(5);
    assert_eq!(lengths.len(), 120);
    assert_eq!(lengths.iter().map(|(_, d)| *d).max(), Some(10), "S5 with these generators has diameter 10");
    let length_of = |g: &Perm| lengths.iter().find(|(p, _)| p == g).unwrap().1;
    let inv = |g: &Perm| magictile::cayley::inverse(g, 5);
    for a in (0..120).step_by(7) {
        for b in (0..120).step_by(5) {
            let route = c.route(a, b).expect("a route should exist");
            let expected = length_of(&mul(&inv(&perms[a]), &perms[b], 5));
            assert_eq!(route.hops, expected, "hops from {a} to {b}");
            assert_eq!(route.path.len(), route.hops + 1, "the whole graph is there");
            assert_eq!(route.path[0], a);
            assert_eq!(c.label(*route.path.last().unwrap()), c.label(b));
            for step in route.path.windows(2) {
                let v = &c.vertices[step[0]];
                let back = back_link(&c.vertices, step[0]);
                assert!(v.next == Some(step[1]) || v.across == Some(step[1]) || back == Some(step[1]));
            }
        }
    }
}

#[test]
fn routes_stop_where_the_patch_runs_out() {
    // A triangle for q = 3 and one edge out of it.
    let rings = vec![vec![0, 1, 2]];
    let swaps = vec![(1, 3)];
    let c = Cayley::build(2, 3, &rings, &swaps, 4, 0).unwrap();
    // From 0 to 3 (labelled c t): two steps, on and across.
    let r = c.route(0, 3).unwrap();
    assert_eq!(r.hops, 2);
    assert_eq!(r.path, vec![0, 1, 3]);
    // Back from 3 to 0 spells (c t)⁻¹ = c t again, which starts around 3's q-gon: the patch
    // has no q-gon there, so the path stops at once while the hop count stays exact.
    let back = c.route(3, 0).unwrap();
    assert_eq!(back.hops, 2);
    assert_eq!(back.path, vec![3]);
    let unlabelled = Cayley::build(2, 3, &rings, &swaps, 5, 0).unwrap();
    assert!(unlabelled.route(0, 4).is_none());
}

#[test]
fn words_of_labels_in_a_recentered_view() {
    let (perms, rings, swaps) = symmetric_group_graph(4);
    let first = perms.iter().position(|p| *p == identity(4)).unwrap();
    let c = Cayley::build(3, 4, &rings, &swaps, perms.len(), first).unwrap();
    let frame = cycle(4);
    assert_eq!(c.word_of(&identity(4), &frame), "2341");
    assert_eq!(c.word_of(&swap(4), &frame), "3241");
    assert_eq!(c.word_of(&swap(4), &c.identity_perm()), "2134");
}
