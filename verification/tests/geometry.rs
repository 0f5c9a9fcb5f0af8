use magictile::geometry2d::{num_platonic_facets, Geometry};
use magictile::models::{HyperbolicModel, SphericalModel};
use magictile::near_tree::Metric;
use magictile::view::Model;

#[test]
fn geometries() {
    assert_eq!(Geometry::from_pq(4, 3), Geometry::Spherical);
    assert_eq!(Geometry::from_pq(6, 3), Geometry::Euclidean);
    assert_eq!(Geometry::from_pq(4, 4), Geometry::Euclidean);
    assert_eq!(Geometry::from_pq(7, 3), Geometry::Hyperbolic);
}

#[test]
fn geometry_edge_cases() {
    assert_eq!(Geometry::from_pq(0, 5), Geometry::Spherical);
    assert_eq!(Geometry::from_pq(2, 100), Geometry::Spherical);
    assert_eq!(Geometry::from_pq(1, -2), Geometry::Euclidean);
    assert_eq!(Geometry::from_pq(-1, 1), Geometry::Hyperbolic);
    assert_eq!(Geometry::from_pq(i32::MAX, i32::MAX), Geometry::Hyperbolic);
    assert_eq!(Geometry::from_pq(3, 6), Geometry::Euclidean);
}

#[test]
fn platonic_solids() {
    assert_eq!(num_platonic_facets(3, 3), Some(4));
    assert_eq!(num_platonic_facets(4, 3), Some(6));
    assert_eq!(num_platonic_facets(5, 3), Some(12));
    assert_eq!(num_platonic_facets(3, 4), Some(8));
    assert_eq!(num_platonic_facets(3, 5), Some(20));
    assert_eq!(num_platonic_facets(4, 4), None);
    for p in 3..12 {
        for q in 3..12 {
            assert_eq!(num_platonic_facets(p, q).is_some(), Geometry::from_pq(p, q) == Geometry::Spherical);
        }
    }
}

#[test]
fn metrics_follow_geometry() {
    assert_eq!(Metric::from(Geometry::Hyperbolic), Metric::Hyperbolic);
    assert_eq!(Metric::from(Geometry::Spherical), Metric::Spherical);
    assert_eq!(Metric::from(Geometry::Euclidean), Metric::Euclidean);
}

#[test]
fn models_for_puzzles() {
    let h = HyperbolicModel::Klein;
    let s = SphericalModel::Gnomonic;
    assert_eq!(Model::for_puzzle(Geometry::Hyperbolic, h, s), Model::Hyperbolic(h));
    assert_eq!(Model::for_puzzle(Geometry::Spherical, h, s), Model::Spherical(s));
    assert_eq!(Model::for_puzzle(Geometry::Euclidean, h, s), Model::Plain);
    assert_eq!(Model::for_puzzle(Geometry::Hyperbolic, HyperbolicModel::Poincare, s), Model::Plain);
    assert_eq!(Model::for_puzzle(Geometry::Spherical, h, SphericalModel::Sterographic), Model::Plain);
    assert!(Model::Spherical(SphericalModel::HemisphereDisks).is_hemisphere_disks());
    assert!(!Model::Plain.is_hemisphere_disks());
    assert_eq!(HyperbolicModel::default(), HyperbolicModel::Poincare);
    assert_eq!(SphericalModel::default(), SphericalModel::Sterographic);
}
