//! The projections a tiling can be viewed in.
use vstd::prelude::*;

verus! {

#[derive(Clone, Copy, Debug, Default, PartialEq, Eq, Hash, Structural)]
pub enum HyperbolicModel {
    #[default]
    Poincare,
    Klein,
    UpperHalfPlane,
    Orthographic,
}

#[derive(Clone, Copy, Debug, Default, PartialEq, Eq, Hash, Structural)]
pub enum SphericalModel {
    #[default]
    Sterographic,
    Gnomonic,
    Fisheye,
    HemisphereDisks,
}

} // verus!
