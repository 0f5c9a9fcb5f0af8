use magictile::draw::{push_solid, Cmd};
use magictile::scene;

fn solid(cmd: &Cmd) -> Option<(u32, u32, bool)> {
    match cmd {
        Cmd::Solid { range, clipped } => Some((range.start, range.end, *clipped)),
        _ => None,
    }
}

#[test]
fn adjacent_solid_draws_merge() {
    let mut cmds = Vec::new();
    push_solid(&mut cmds, 0..6, false);
    push_solid(&mut cmds, 6..12, false);
    assert_eq!(cmds.len(), 1);
    assert_eq!(solid(&cmds[0]), Some((0, 12, false)));
    // A clipped draw can't join an unclipped one, nor a draw that isn't adjacent.
    push_solid(&mut cmds, 12..15, true);
    push_solid(&mut cmds, 20..21, true);
    assert_eq!(cmds.len(), 3);
    // Empty ranges draw nothing.
    push_solid(&mut cmds, 21..21, true);
    assert_eq!(cmds.len(), 3);
    cmds.push(Cmd::ClearClip);
    push_solid(&mut cmds, 21..24, true);
    assert_eq!(cmds.len(), 5);
    assert!(matches!(cmds[4].clone(), Cmd::Solid { .. }));
}

#[test]
fn scene_adjacent_solid_draws_merge() {
    let mut cmds = Vec::new();
    scene::push_solid(&mut cmds, 3..6, true);
    scene::push_solid(&mut cmds, 6..9, true);
    assert_eq!(cmds.len(), 1);
    assert!(matches!(&cmds[0], scene::Cmd::Solid { range, clipped: true } if *range == (3..9)));
}
