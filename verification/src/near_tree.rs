//! Distance metrics for nearest-point searches.
use crate::geometry2d::Geometry;
use vstd::prelude::*;

verus! {

/// The distance metric (anything obeying the triangle inequality works).
#[derive(Clone, Copy, Debug, PartialEq, Eq, Structural)]
pub enum Metric {
    Spherical,
    Euclidean,
    Hyperbolic,
}

/// The metric of a geometry.
pub open spec fn metric_of(g: Geometry) -> Metric {
    match g {
        Geometry::Spherical => Metric::Spherical,
        Geometry::Euclidean => Metric::Euclidean,
        Geometry::Hyperbolic => Metric::Hyperbolic,
    }
}

impl From<Geometry> for Metric {
    fn from(g: Geometry) -> (r: Metric) {
        match g {
            Geometry::Spherical => Metric::Spherical,
            Geometry::Euclidean => Metric::Euclidean,
            Geometry::Hyperbolic => Metric::Hyperbolic,
        }
    }
}

impl vstd::std_specs::convert::FromSpecImpl<Geometry> for Metric {
    open spec fn obeys_from_spec() -> bool {
        true
    }

    open spec fn from_spec(g: Geometry) -> Metric {
        metric_of(g)
    }
}

} // verus!
