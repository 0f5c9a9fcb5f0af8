//! The three 2D geometries, and which one a {p,q} tiling lives in.
use vstd::prelude::*;

verus! {

#[derive(Clone, Copy, Debug, PartialEq, Eq, Hash, Structural)]
pub enum Geometry {
    Spherical,
    Euclidean,
    Hyperbolic,
}

/// The geometry of {p,q} (p-gons, q meeting at each vertex): spherical when 1/p + 1/q is more
/// than 1/2 (a zero p or q counts as more), Euclidean when it is exactly 1/2, hyperbolic when it
/// is less. Multiplying through by `2 (p q)²` keeps it in integers.
pub open spec fn geometry_of(p: int, q: int) -> Geometry {
    let d = (2 * (p + q) - p * q) * (p * q);
    if p == 0 || q == 0 || d > 0 {
        Geometry::Spherical
    } else if d == 0 {
        Geometry::Euclidean
    } else {
        Geometry::Hyperbolic
    }
}

impl Geometry {
    /// The geometry induced by {p,q}: p-gons, q meeting at each vertex.
    pub fn from_pq(p: i32, q: i32) -> (r: Geometry)
        ensures
            r == geometry_of(p as int, q as int),
    {
        let a = p as i128;
        let b = q as i128;
        assert(-0x4000_0000_0000_0000 <= a * b <= 0x4000_0000_0000_0000) by (nonlinear_arith)
            requires
                -0x8000_0000 <= a <= 0x7fff_ffff,
                -0x8000_0000 <= b <= 0x7fff_ffff,
        ;
        let pq = a * b;
        let s = 2 * (a + b) - pq;
        assert(-0x4000_0000_0000_0000_0000_0000_0000_0000 < s * pq
            < 0x4000_0000_0000_0000_0000_0000_0000_0000) by (nonlinear_arith)
            requires
                -0x4000_0002_0000_0000 <= s <= 0x4000_0002_0000_0000,
                -0x4000_0000_0000_0000 <= pq <= 0x4000_0000_0000_0000,
        ;
        let d = s * pq;
        if p == 0 || q == 0 || d > 0 {
            Geometry::Spherical
        } else if d == 0 {
            Geometry::Euclidean
        } else {
            Geometry::Hyperbolic
        }
    }
}

/// The number of faces of the Platonic solid {p,q}, if it is one.
pub open spec fn platonic_facets(p: int, q: int) -> Option<i32> {
    if p == 3 && q == 3 {
        Some(4)
    } else if p == 4 && q == 3 {
        Some(6)
    } else if p == 5 && q == 3 {
        Some(12)
    } else if p == 3 && q == 4 {
        Some(8)
    } else if p == 3 && q == 5 {
        Some(20)
    } else {
        None
    }
}

pub fn num_platonic_facets(p: i32, q: i32) -> (r: Option<i32>)
    ensures
        r == platonic_facets(p as int, q as int),
{
    match (p, q) {
        (3, 3) => Some(4),
        (4, 3) => Some(6),
        (5, 3) => Some(12),
        (3, 4) => Some(8),
        (3, 5) => Some(20),
        _ => None,
    }
}

/// The Platonic solids are exactly the spherical {p,q} with p, q at least 3.
pub proof fn lemma_platonic_are_spherical(p: int, q: int)
    requires
        p >= 3,
        q >= 3,
    ensures
        platonic_facets(p, q) is Some <==> geometry_of(p, q) == Geometry::Spherical,
{
    let a = p - 2;
    let b = q - 2;
    assert(2 * (p + q) - p * q == 4 - a * b) by (nonlinear_arith)
        requires
            a == p - 2,
            b == q - 2,
    ;
    assert(p * q > 0) by (nonlinear_arith)
        requires
            p >= 3,
            q >= 3,
    ;
    if a * b < 4 {
        assert(a <= 3 && b <= 3) by (nonlinear_arith)
            requires
                a >= 1,
                b >= 1,
                a * b < 4,
        ;
        assert((a == 1 && b <= 3) || (b == 1 && a <= 3)) by (nonlinear_arith)
            requires
                a >= 1,
                b >= 1,
                a <= 3,
                b <= 3,
                a * b < 4,
        ;
        assert((4 - a * b) * (p * q) > 0) by (nonlinear_arith)
            requires
                4 - a * b > 0,
                p * q > 0,
        ;
    } else {
        assert((4 - a * b) * (p * q) <= 0) by (nonlinear_arith)
            requires
                4 - a * b <= 0,
                p * q > 0,
        ;
        assert(!((a == 1 && b <= 3) || (b == 1 && a <= 3))) by (nonlinear_arith)
            requires
                a >= 1,
                b >= 1,
                a * b >= 4,
        ;
    }
}

} // verus!
