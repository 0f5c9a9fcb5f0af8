//! Recording macros (twist sequences that can be applied anywhere) and setup moves (for
//! conjugates and commutators).
use crate::text::{append_chars, chars_of, string_of};
use crate::twist::{reversed, same_twist, SingleTwist};
use crate::xml::{attribute_value, chars_equal, children_named, node_text, XmlDocument};
use vstd::prelude::*;

verus! {

/// The twists of a macro, and whether we are recording them.
pub struct MacroTwists {
    pub recording: bool,
    twists: Vec<SingleTwist>,
}

pub struct MacroTwistsView {
    pub recording: bool,
    pub twists: Seq<SingleTwist>,
}

impl View for MacroTwists {
    type V = MacroTwistsView;

    closed spec fn view(&self) -> MacroTwistsView {
        MacroTwistsView { recording: self.recording, twists: self.twists@ }
    }
}

/// The recorded twists after a twist: unchanged unless recording; a twist that undoes the
/// last one recorded removes it; any other is added.
pub open spec fn recorded_after(m: MacroTwistsView, twist: SingleTwist) -> MacroTwistsView {
    if !m.recording {
        m
    } else if m.twists.len() > 0 && same_twist(reversed(twist), m.twists.last()) {
        MacroTwistsView { twists: m.twists.drop_last(), ..m }
    } else {
        MacroTwistsView { twists: m.twists.push(twist), ..m }
    }
}

/// The twists that undo a sequence: each reversed, last first.
pub open spec fn reverse_of(ts: Seq<SingleTwist>) -> Seq<SingleTwist> {
    Seq::new(ts.len(), |i: int| reversed(ts[ts.len() - 1 - i]))
}

/// A twist without its macro markers.
pub open spec fn unmarked(t: SingleTwist) -> SingleTwist {
    SingleTwist { macro_start: false, macro_end: false, ..t }
}

impl Default for MacroTwists {
    fn default() -> (r: MacroTwists)
        ensures
            r@ == (MacroTwistsView { recording: false, twists: Seq::empty() }),
    {
        MacroTwists { recording: false, twists: Vec::new() }
    }
}

impl MacroTwists {
    /// A macro of the given twists, not recording.
    pub fn from_twists(twists: Vec<SingleTwist>) -> (r: MacroTwists)
        ensures
            r@ == (MacroTwistsView { recording: false, twists: twists@ }),
    {
        MacroTwists { recording: false, twists }
    }

    pub fn reset(&mut self)
        ensures
            final(self)@ == (MacroTwistsView { recording: false, twists: Seq::empty() }),
    {
        self.twists.clear();
        self.recording = false;
    }

    pub fn start_recording(&mut self)
        ensures
            final(self)@ == (MacroTwistsView { recording: true, twists: Seq::empty() }),
    {
        self.twists.clear();
        self.recording = true;
    }

    pub fn stop_recording(&mut self)
        ensures
            final(self)@ == (MacroTwistsView { recording: false, ..old(self)@ }),
    {
        self.recording = false;
    }

    /// Records a twist (if recording), dropping it and the previous twist if it undoes it.
    pub fn update(&mut self, twist: &SingleTwist)
        ensures
            final(self)@ == recorded_after(old(self)@, *twist),
    {
        if !self.recording {
            return;
        }
        let n = self.twists.len();
        if n > 0 && twist.is_undo(&self.twists[n - 1]) {
            self.twists.pop();
            return;
        }
        self.twists.push(twist.copy());
    }

    /// Clears macro markings on our twists (to avoid nesting issues when using macros while
    /// creating others).
    pub fn clear_start_end_markings(&mut self)
        ensures
            final(self)@.recording == old(self)@.recording,
            final(self)@.twists == old(self)@.twists.map_values(|t: SingleTwist| unmarked(t)),
    {
        let mut i: usize = 0;
        while i < self.twists.len()
            invariant
                0 <= i <= self@.twists.len(),
                self@.twists.len() == old(self)@.twists.len(),
                self@.recording == old(self)@.recording,
                forall|j: int| 0 <= j < i ==> #[trigger] self@.twists[j] == unmarked(old(self)@.twists[j]),
                forall|j: int| i <= j < self@.twists.len() ==> #[trigger] self@.twists[j] == old(
                    self,
                )@.twists[j],
            decreases self@.twists.len() - i,
        {
            let mut t = self.twists[i].copy();
            t.macro_start = false;
            t.macro_end = false;
            self.twists.set(i, t);
            i = i + 1;
        }
        assert(self@.twists =~= old(self)@.twists.map_values(|t: SingleTwist| unmarked(t)));
    }

    pub fn twists(&self) -> (r: &[SingleTwist])
        ensures
            r@ == self@.twists,
    {
        self.twists.as_slice()
    }

    /// The twists undoing this macro.
    pub fn reverse_twists(&self) -> (r: Vec<SingleTwist>)
        ensures
            r@ == reverse_of(self@.twists),
    {
        let mut r: Vec<SingleTwist> = Vec::new();
        let n = self.twists.len();
        let mut i: usize = n;
        while i > 0
            invariant
                0 <= i <= n,
                n == self@.twists.len(),
                r@.len() == n - i,
                forall|j: int| 0 <= j < n - i ==> #[trigger] r@[j] == reversed(self@.twists[n - 1 - j]),
            decreases i,
        {
            let mut t = self.twists[i - 1].copy();
            t.reverse_twist();
            r.push(t);
            i = i - 1;
        }
        assert(r@ =~= reverse_of(self@.twists));
        r
    }
}

/// Setup moves, for conjugates (setup, twist, unwind) and commutators.
pub struct SetupMoves {
    setup_moves: MacroTwists,
    commutator_moves: MacroTwists,
    recording_setup: bool,
    recording_commutator: bool,
}

pub struct SetupMovesView {
    pub setup_moves: MacroTwistsView,
    pub commutator_moves: MacroTwistsView,
    pub recording_setup: bool,
    pub recording_commutator: bool,
}

impl View for SetupMoves {
    type V = SetupMovesView;

    closed spec fn view(&self) -> SetupMovesView {
        SetupMovesView {
            setup_moves: self.setup_moves@,
            commutator_moves: self.commutator_moves@,
            recording_setup: self.recording_setup,
            recording_commutator: self.recording_commutator,
        }
    }
}

/// The setup moves after a twist: recorded into whichever of the two is recording.
pub open spec fn setup_after(s: SetupMovesView, twist: SingleTwist) -> SetupMovesView {
    SetupMovesView {
        setup_moves: if s.recording_setup {
            recorded_after(s.setup_moves, twist)
        } else {
            s.setup_moves
        },
        commutator_moves: if s.recording_commutator {
            recorded_after(s.commutator_moves, twist)
        } else {
            s.commutator_moves
        },
        ..s
    }
}

/// Setup moves with nothing recorded.
pub open spec fn no_setup_moves() -> SetupMovesView {
    SetupMovesView {
        setup_moves: MacroTwistsView { recording: false, twists: Seq::empty() },
        commutator_moves: MacroTwistsView { recording: false, twists: Seq::empty() },
        recording_setup: false,
        recording_commutator: false,
    }
}

impl Default for SetupMoves {
    fn default() -> (r: SetupMoves)
        ensures
            r@ == no_setup_moves(),
    {
        SetupMoves {
            setup_moves: MacroTwists::default(),
            commutator_moves: MacroTwists::default(),
            recording_setup: false,
            recording_commutator: false,
        }
    }
}

impl SetupMoves {
    pub fn reset(&mut self)
        ensures
            final(self)@ == no_setup_moves(),
    {
        self.setup_moves.reset();
        self.commutator_moves.reset();
        self.recording_setup = false;
        self.recording_commutator = false;
    }

    pub fn start_recording(&mut self)
        ensures
            final(self)@ == (SetupMovesView {
                setup_moves: MacroTwistsView { recording: true, twists: Seq::empty() },
                recording_setup: true,
                ..old(self)@
            }),
    {
        self.setup_moves.start_recording();
        self.recording_setup = true;
    }

    pub fn update(&mut self, twist: &SingleTwist)
        ensures
            final(self)@ == setup_after(old(self)@, *twist),
    {
        if self.recording_setup {
            self.setup_moves.update(twist);
        }
        if self.recording_commutator {
            self.commutator_moves.update(twist);
        }
    }

    /// Ends the setup moves, and starts recording the moves for a commutator.
    pub fn stop_recording(&mut self)
        ensures
            final(self)@ == (SetupMovesView {
                setup_moves: MacroTwistsView { recording: false, ..old(self)@.setup_moves },
                commutator_moves: MacroTwistsView { recording: true, twists: Seq::empty() },
                recording_setup: false,
                recording_commutator: true,
            }),
    {
        self.setup_moves.stop_recording();
        self.recording_setup = false;
        self.commutator_moves.start_recording();
        self.recording_commutator = true;
    }

    pub fn recording_setup(&self) -> (r: bool)
        ensures
            r == self@.recording_setup,
    {
        self.recording_setup
    }

    pub fn recording_commutator(&self) -> (r: bool)
        ensures
            r == self@.recording_commutator,
    {
        self.recording_commutator
    }

    /// The twists undoing the setup moves (this stops recording).
    pub fn take_unwind_twists(&mut self) -> (r: Vec<SingleTwist>)
        ensures
            r@ == reverse_of(old(self)@.setup_moves.twists),
            final(self)@ == no_setup_moves(),
    {
        let result = self.setup_moves.reverse_twists();
        self.reset();
        result
    }

    /// The second half of a commutator ABA'B' (AB having been done already). This stops
    /// recording.
    pub fn take_commutator_twists(&mut self) -> (r: Vec<SingleTwist>)
        ensures
            r@ == reverse_of(old(self)@.setup_moves.twists) + reverse_of(
                old(self)@.commutator_moves.twists,
            ),
            final(self)@ == no_setup_moves(),
    {
        let mut result = self.setup_moves.reverse_twists();
        let mut second = self.commutator_moves.reverse_twists();
        result.append(&mut second);
        self.reset();
        result
    }
}

/// Undoing the undo of a sequence gives the sequence back.
pub proof fn lemma_reverse_of_reverse(ts: Seq<SingleTwist>)
    ensures
        reverse_of(reverse_of(ts)) == ts,
{
    assert forall|i: int| 0 <= i < ts.len() implies reverse_of(reverse_of(ts))[i] == ts[i] by {
        crate::twist::lemma_reverse_involution(ts[i]);
    }
    assert(reverse_of(reverse_of(ts)) =~= ts);
}

/// While recording, a twist followed by a twist that undoes it leaves the recording as it
/// was (when the first twist was itself recorded rather than cancelling an earlier one).
pub proof fn lemma_twist_then_undo(m: MacroTwistsView, t: SingleTwist, u: SingleTwist)
    requires
        m.recording,
        !(m.twists.len() > 0 && same_twist(reversed(t), m.twists.last())),
        same_twist(reversed(u), t),
    ensures
        recorded_after(recorded_after(m, t), u) == m,
{
    let m1 = recorded_after(m, t);
    assert(m1.twists.last() == t);
    assert(m1.twists.drop_last() =~= m.twists);
}

/// The text of the first child element of `node` with a name (empty if there is none).
pub open spec fn child_text(nodes: Seq<crate::xml::XmlNode>, node: int, name: Seq<char>) -> Seq<char> {
    let kids = children_named(nodes, node, name);
    if kids.len() > 0 {
        node_text(nodes, kids[0] as int)
    } else {
        Seq::empty()
    }
}

/// What a saved macro file is checked for before its macros are read: for puzzles twisting at
/// edges or vertices, the version it was saved with (its root's `Version` attribute) must be the
/// puzzle's; and the puzzle ID it names must be the puzzle's. Its macros are in its `Macros`
/// element where it has one (a saved log), else in its root. Gives that element, or the message
/// of the first check that fails.
pub open spec fn macro_file_check(
    nodes: Seq<crate::xml::XmlNode>,
    root: int,
    edge_or_vertex_twisting: bool,
    version: Seq<char>,
    id: Seq<char>,
) -> Result<usize, Seq<char>> {
    let saved_version = match attribute_value(nodes[root], None, "Version"@) {
        Some(v) => v,
        None => Seq::empty(),
    };
    if edge_or_vertex_twisting && saved_version != version {
        Err(
            "Sorry, this macro file is not compatible with this puzzle. The macro file was saved with version "@
                + saved_version + ", but the puzzle is version "@ + version,
        )
    } else {
        let macros = children_named(nodes, root, "Macros"@);
        let node = if macros.len() > 0 {
            macros[0] as int
        } else {
            root
        };
        let saved_id = child_text(nodes, node, "PuzzleID"@);
        if saved_id != id {
            Err(
                "Sorry, we only support loading macro files which apply to the active puzzle. These macros were saved for the puzzle with display name '"@
                    + child_text(nodes, node, "PuzzleName"@) + "' and having id '"@ + saved_id
                    + "'"@,
            )
        } else {
            Ok(node as usize)
        }
    }
}

fn child_text_of(doc: &XmlDocument, node: usize, name: &str) -> (r: Vec<char>)
    requires
        doc.wf(),
    ensures
        r@ == child_text(doc.nodes@, node as int, name@),
{
    match doc.child(node, name) {
        Some(c) => doc.text(c),
        None => Vec::new(),
    }
}

/// Checks a saved macro file against the puzzle (see [`macro_file_check`]): the element holding
/// its macros, or why they do not apply.
pub fn check_macro_file(
    doc: &XmlDocument,
    root: usize,
    edge_or_vertex_twisting: bool,
    version: &str,
    id: &str,
) -> (r: Result<usize, String>)
    requires
        doc.wf(),
        root < doc.nodes@.len(),
    ensures
        match macro_file_check(doc.nodes@, root as int, edge_or_vertex_twisting, version@, id@) {
            Ok(n) => r == Ok::<usize, String>(n),
            Err(m) => r matches Err(e) && e@ == m,
        },
{
    let saved_version = match doc.attribute(root, None, "Version") {
        Some(v) => chars_of(v.as_str()),
        None => Vec::new(),
    };
    let version_chars = chars_of(version);
    if edge_or_vertex_twisting && !chars_equal(&saved_version, &version_chars) {
        let mut m = chars_of(
            "Sorry, this macro file is not compatible with this puzzle. The macro file was saved with version ",
        );
        append_chars(&mut m, &saved_version);
        append_chars(&mut m, &chars_of(", but the puzzle is version "));
        append_chars(&mut m, &version_chars);
        return Err(string_of(&m));
    }
    let node = match doc.child(root, "Macros") {
        Some(c) => c,
        None => root,
    };
    let saved_id = child_text_of(doc, node, "PuzzleID");
    if !chars_equal(&saved_id, &chars_of(id)) {
        let mut m = chars_of(
            "Sorry, we only support loading macro files which apply to the active puzzle. These macros were saved for the puzzle with display name '",
        );
        append_chars(&mut m, &child_text_of(doc, node, "PuzzleName"));
        append_chars(&mut m, &chars_of("' and having id '"));
        append_chars(&mut m, &saved_id);
        append_chars(&mut m, &chars_of("'"));
        return Err(string_of(&m));
    }
    Ok(node)
}

} // verus!
