//! How the tiling is viewed: the projection in use, and what a drag does.
use crate::geometry2d::Geometry;
use crate::models::{HyperbolicModel, SphericalModel};
use vstd::prelude::*;

verus! {

/// Which kind of drag.
#[derive(Clone, Copy, Debug, PartialEq, Eq, Structural)]
pub enum DragButton {
    /// Pan.
    Primary,
    /// Rotate.
    Middle,
    /// Zoom.
    Secondary,
}

/// The model (projection) currently in use.
#[derive(Clone, Copy, Debug, PartialEq, Eq, Structural)]
pub enum Model {
    Plain,
    Hyperbolic(HyperbolicModel),
    Spherical(SphericalModel),
}

/// The model to draw a puzzle of a geometry in: the chosen one, unless it is the standard
/// (Poincaré or stereographic) one or doesn't apply to the geometry, when we draw plainly.
pub open spec fn model_for(g: Geometry, hyperbolic: HyperbolicModel, spherical: SphericalModel) -> Model {
    match g {
        Geometry::Hyperbolic => if hyperbolic != HyperbolicModel::Poincare {
            Model::Hyperbolic(hyperbolic)
        } else {
            Model::Plain
        },
        Geometry::Spherical => if spherical != SphericalModel::Sterographic {
            Model::Spherical(spherical)
        } else {
            Model::Plain
        },
        Geometry::Euclidean => Model::Plain,
    }
}

impl Model {
    pub fn for_puzzle(geometry: Geometry, hyperbolic: HyperbolicModel, spherical: SphericalModel) -> (r:
        Model)
        ensures
            r == model_for(geometry, hyperbolic, spherical),
    {
        match geometry {
            Geometry::Hyperbolic => if hyperbolic != HyperbolicModel::Poincare {
                Model::Hyperbolic(hyperbolic)
            } else {
                Model::Plain
            },
            Geometry::Spherical => if spherical != SphericalModel::Sterographic {
                Model::Spherical(spherical)
            } else {
                Model::Plain
            },
            Geometry::Euclidean => Model::Plain,
        }
    }

    pub fn is_hemisphere_disks(self) -> (r: bool)
        ensures
            r == (self == Model::Spherical(SphericalModel::HemisphereDisks)),
    {
        self == Model::Spherical(SphericalModel::HemisphereDisks)
    }
}

/// What a frame of navigation saw happen.
#[derive(Clone, Copy, Debug, Default)]
pub struct Navigation {
    /// A button was pressed on the view; the flag says whether it stopped gliding.
    pub pressed: Option<bool>,
    /// A drag just ended.
    pub drag_stopped: bool,
}

} // verus!
