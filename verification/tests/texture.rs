use magictile::texture_helper::{calc_element_indices, num_div, texture_elements, triangular_number, TextureHelper};

#[test]
fn element_lattice_sizes() {
    let elements = calc_element_indices(7, 3);
    assert_eq!(elements.len(), 4);
    let points = 7 * triangular_number(num_div(3) + 1);
    assert_eq!(points, 7 * 45);
    for (lod, e) in elements.iter().enumerate() {
        let per_side = 1usize << (2 * lod); // 4^lod triangles per base triangle
        assert_eq!(e.len(), 7 * per_side * 3, "lod {lod}");
        assert!(e.iter().all(|&i| (i as usize) < points));
    }
}

#[test]
fn small_lattice() {
    let e = texture_elements(2, 1, 2);
    let first = [0, 1, 3, 1, 2, 4, 3, 1, 4, 3, 4, 5];
    let second: Vec<u32> = first.iter().map(|i| i + 6).collect();
    assert_eq!(&e[..12], &first);
    assert_eq!(&e[12..], &second[..]);
}

#[test]
fn coarsest_level_is_one_triangle_per_base() {
    assert_eq!(texture_elements(3, 0, 4), vec![0, 4, 14, 15, 19, 29, 30, 34, 44]);
    assert_eq!(texture_elements(0, 0, 4), Vec::<u32>::new());
}

#[test]
fn helpers() {
    assert_eq!(num_div(3), 8);
    assert_eq!(triangular_number(9), 45);
    assert!(TextureHelper::default().element_indices.is_empty());
}
