use magictile::topology::Topology;
use magictile::twist_data::ElementType;

#[test]
fn groups_sharing_points_are_one_element() {
    let faces = vec![(10, vec![11, 12]), (20, vec![])];
    let edges = vec![(1, vec![2]), (2, vec![3]), (4, vec![5]), (6, vec![])];
    let vertices = vec![(1, vec![2]), (3, vec![4]), (2, vec![4])];
    let t = Topology::analyze(&faces, &edges, &vertices);
    assert_eq!(t.f(), 2);
    assert_eq!(t.e(), 3, "{{1, 2, 3}}, {{4, 5}}, {{6}}");
    assert_eq!(t.v(), 1, "the third group joins the first two");
    assert_eq!(t.euler_characteristic(), 0);
    assert_eq!(t.summary(), "F=2, E=3, V=1, χ=0");
}

#[test]
fn logical_indices_run_across_element_types() {
    let faces = vec![(10, vec![11]), (20, vec![21])];
    let edges = vec![(1, vec![2]), (3, vec![4])];
    let vertices = vec![(5, vec![6, 7])];
    let t = Topology::analyze(&faces, &edges, &vertices);
    assert_eq!(t.logical_element_index(ElementType::Face, 21), Some(1));
    assert_eq!(t.logical_element_index(ElementType::Edge, 4), Some(3));
    assert_eq!(t.logical_element_index(ElementType::Vertex, 7), Some(4));
    assert_eq!(t.logical_element_index(ElementType::Vertex, 1), None);
    assert_eq!(t.summary(), "F=2, E=2, V=1, χ=1");
}
