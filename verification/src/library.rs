//! The puzzle menu: a tree of groups whose leaves are puzzles.
use vstd::prelude::*;

verus! {

#[derive(Debug)]
pub struct MenuNode {
    /// Text for the puzzle tree.
    pub label: String,
    pub kind: MenuKind,
}

#[derive(Debug)]
pub enum MenuKind {
    Group(Vec<MenuNode>),
    /// An index into the library's puzzle configurations.
    Puzzle(usize),
}

impl MenuNode {
    /// A group of menu entries.
    pub fn group(label: &str, children: Vec<MenuNode>) -> (r: MenuNode)
        ensures
            r.label@ == label@,
            r.kind matches MenuKind::Group(c) && c@ == children@,
    {
        MenuNode { label: label.to_owned(), kind: MenuKind::Group(children) }
    }

    /// The entries of a group (none for a puzzle).
    pub fn children(&self) -> (r: &[MenuNode])
        ensures
            match self.kind {
                MenuKind::Group(c) => r@ == c@,
                MenuKind::Puzzle(_) => r@.len() == 0,
            },
    {
        match &self.kind {
            MenuKind::Group(c) => c.as_slice(),
            MenuKind::Puzzle(_) => &[],
        }
    }
}

} // verus!
