//! The drawing commands of a puzzle frame.
use std::ops::Range;
use vstd::prelude::*;

verus! {

/// Drawing commands, executed in order.
#[derive(Debug)]
pub enum Cmd {
    /// Solid triangles (indices into `solid`), optionally restricted to the clip region.
    Solid { range: Range<u32>, clipped: bool },
    /// Textured cell triangles (indices into `cell_indices`).
    Cells(Range<u32>),
    /// A concave (or inverted) polygon filled with the stencil buffer: a fan into the stencil
    /// (`fan`), then a covering quad (`solid`) drawn where the stencil is set.
    Fill { fan: Range<u32>, cover: Range<u32>, inverted: bool, clipped: bool },
    /// Marks the clip region with triangles from `solid` (stencil bit 1).
    SetClip(Range<u32>),
    ClearClip,
}

fn copy_range(r: &Range<u32>) -> (c: Range<u32>)
    ensures
        c == *r,
{
    Range { start: r.start, end: r.end }
}

impl Clone for Cmd {
    fn clone(&self) -> (r: Self)
        ensures
            r == *self,
    {
        match self {
            Cmd::Solid { range, clipped } => Cmd::Solid { range: copy_range(range), clipped: *clipped },
            Cmd::Cells(r) => Cmd::Cells(copy_range(r)),
            Cmd::Fill { fan, cover, inverted, clipped } => Cmd::Fill {
                fan: copy_range(fan),
                cover: copy_range(cover),
                inverted: *inverted,
                clipped: *clipped,
            },
            Cmd::SetClip(r) => Cmd::SetClip(copy_range(r)),
            Cmd::ClearClip => Cmd::ClearClip,
        }
    }
}

/// The commands after drawing the solid triangles `start..end`: nothing for an empty range;
/// otherwise the last command grows when it is a solid draw, clipped alike, that ends where
/// this one starts; otherwise a new solid draw.
pub open spec fn with_solid(cmds: Seq<Cmd>, start: u32, end: u32, clipped: bool) -> Seq<Cmd> {
    if start >= end {
        cmds
    } else if cmds.len() > 0 && (cmds.last() matches Cmd::Solid { range, clipped: c } && c
        == clipped && range.end == start) {
        cmds.update(
            cmds.len() - 1,
            Cmd::Solid { range: Range { start: cmds.last()->range.start, end }, clipped },
        )
    } else {
        cmds.push(Cmd::Solid { range: Range { start, end }, clipped })
    }
}

/// Draws solid triangles, merging with the previous command when it draws the triangles just
/// before these (so runs of simple polygons and lines become a single draw).
pub fn push_solid(cmds: &mut Vec<Cmd>, range: Range<u32>, clipped: bool)
    ensures
        final(cmds)@ == with_solid(old(cmds)@, range.start, range.end, clipped),
{
    if range.start >= range.end {
        return;
    }
    let n = cmds.len();
    if n > 0 {
        let merged = match &cmds[n - 1] {
            Cmd::Solid { range: last, clipped: c } => if *c == clipped && last.end == range.start {
                Some(last.start)
            } else {
                None
            },
            _ => None,
        };
        if let Some(s) = merged {
            cmds.set(n - 1, Cmd::Solid { range: Range { start: s, end: range.end }, clipped });
            return;
        }
    }
    cmds.push(Cmd::Solid { range, clipped });
}

} // verus!
