//! The twisting controller: animated twists, undo, redo and solving (a twist that ends a macro
//! block undoes the whole block at once), macros and setup moves, how a completed twist is
//! reported, and the random choices of a scramble. Turning the puzzle's state by a twist is
//! geometry, and the caller's: each decision hands back the twists to apply, in order.
use crate::macros::{
    recorded_after, setup_after, MacroTwists, MacroTwistsView, SetupMoves, SetupMovesView,
};
use crate::slice_mask::mask_of;
use crate::state::{State, StateView};
use crate::puzzle::{lists_within, toggle, twist_order};
use crate::config::TogglingMode;
use crate::cell::{Cell, CellId};
use crate::twist_data::{IdentifiedTwistData, TwistData};
use crate::twist::{
    default_twist, after_get_redo, after_get_undo, after_update, pop, HistoryView, SingleTwist, TwistHistory,
};
use rand::rngs::StdRng;
use rand::RngExt;
use vstd::prelude::*;

verus! {

/// What happened when a twist (or toggle) completed.
#[derive(Clone, Copy, Debug, Default, PartialEq, Eq, Structural)]
pub struct Completed {
    /// A scrambled puzzle was solved by the user (worth celebrating).
    pub solved: bool,
}

impl Completed {
    /// The report for a twist that leaves the puzzle solved or not: worth celebrating when the
    /// puzzle was scrambled and the user (not an undo) solved it.
    pub fn after(history: &TwistHistory, solved: bool) -> (r: Completed)
        ensures
            r.solved == (!history@.undo_mode && history@.scrambles != 0 && solved),
    {
        Completed { solved: !history.undoing() && history.scrambled() && solved }
    }
}

/// Twists marked as one macro block: the first marked as its start and the last as its end,
/// when there is more than one.
pub open spec fn marked_block(ts: Seq<SingleTwist>) -> Seq<SingleTwist> {
    Seq::new(
        ts.len(),
        |i: int|
            SingleTwist {
                macro_start: if ts.len() > 1 && i == 0 {
                    true
                } else {
                    ts[i].macro_start
                },
                macro_end: if ts.len() > 1 && i == ts.len() - 1 {
                    true
                } else {
                    ts[i].macro_end
                },
                ..ts[i]
            },
    )
}

/// Marks twists as a macro block (only if there's more than one twist).
pub fn mark_macro_block(twists: Vec<SingleTwist>) -> (r: Vec<SingleTwist>)
    ensures
        r@ == marked_block(twists@),
{
    let mut r = twists;
    let n = r.len();
    if n > 1 {
        let mut first = r[0].copy();
        first.macro_start = true;
        r.set(0, first);
        let mut last = r[n - 1].copy();
        last.macro_end = true;
        r.set(n - 1, last);
    }
    assert(r@ =~= marked_block(twists@));
    r
}

#[verifier::external_type_specification]
#[verifier::external_body]
pub struct ExStdRng(StdRng);

/// `rand`'s `RngExt::random_range` on `0..n` for `usize`: a number below `n` (the call panics
/// on an empty range). Nothing is claimed of which number.
#[verifier::external_body]
fn random_index(rng: &mut StdRng, n: usize) -> (r: usize)
    requires
        n > 0,
    ensures
        r < n,
{
    rng.random_range(0..n)
}

/// `rand`'s `RngExt::random_range` on `0..n` for `i32` (which samples differently from
/// `usize`): a number from 0 below `n`. Nothing is claimed of which number.
#[verifier::external_body]
fn random_i32_below(rng: &mut StdRng, n: i32) -> (r: i32)
    requires
        n > 0,
    ensures
        0 <= r < n,
{
    rng.random_range(0..n)
}

/// The master cells a scramble of a toggling puzzle toggles: `num_twists` random indices of
/// its `num_masters` master cells.
pub fn scramble_toggles(rng: &mut StdRng, num_masters: usize, num_twists: usize) -> (r: Vec<usize>)
    requires
        num_twists == 0 || num_masters > 0,
    ensures
        r@.len() == num_twists,
        forall|i: int| 0 <= i < r@.len() ==> #[trigger] r@[i] < num_masters,
{
    let mut r: Vec<usize> = Vec::new();
    let mut k: usize = 0;
    while k < num_twists
        invariant
            0 <= k <= num_twists,
            num_twists == 0 || num_masters > 0,
            r@.len() == k,
            forall|i: int| 0 <= i < r@.len() ==> #[trigger] r@[i] < num_masters,
        decreases num_twists - k,
    {
        r.push(random_index(rng, num_masters));
        k = k + 1;
    }
    r
}

/// A random direction for a scramble twist.
pub fn random_left_click(rng: &mut StdRng) -> (r: bool) {
    random_i32_below(rng, 2) == 1
}

/// A random twist data index for a scramble twist, out of `count`.
pub fn random_twist_index(rng: &mut StdRng, count: usize) -> (r: usize)
    requires
        count > 0,
    ensures
        r < count,
{
    random_index(rng, count)
}

/// A random slice mask for a scramble twist: one of the first `num_slices` slices (the first,
/// if there are none).
pub fn random_slice_mask(rng: &mut StdRng, num_slices: i32) -> (r: i32)
    ensures
        exists|s: int|
            1 <= s <= (if num_slices < 1 {
                1
            } else {
                num_slices as int
            }) && r == mask_of(s),
{
    let n = if num_slices < 1 {
        1
    } else {
        num_slices
    };
    let s = random_i32_below(rng, n) + 1;
    let r = crate::slice_mask::slice_to_mask(s);
    assert(1 <= s <= n && r == mask_of(s as int));
    r
}

/// The identified twist data a scramble twists next, out of `count`: random, but another than
/// the last twist's (`last`) when there are more than two to choose from. Every other one is
/// as likely.
pub fn scramble_identified(rng: &mut StdRng, count: usize, last: Option<usize>) -> (r: usize)
    requires
        count > 0,
    ensures
        r < count,
        last matches Some(l) ==> (count > 2 ==> r != l),
{
    match last {
        Some(l) if count > 2 && l < count => {
            let r = random_index(rng, count - 1);
            if r >= l {
                r + 1
            } else {
                r
            }
        },
        _ => random_index(rng, count),
    }
}

/// The twist a scramble of a twisting puzzle makes next, given its identified twist data
/// (`all`) and twist data (`tds`): a random direction, a random identified twist data (see
/// [`scramble_identified`]; the last twist is the history's) and a random one of the slices of
/// its first twist data for the state calculations. None when that identified twist data has
/// none: the scramble skips the turn. (An earthquake puzzle's scramble then adds the systolic
/// companion of the twist.)
pub fn scramble_twist(
    rng: &mut StdRng,
    history: &TwistHistory,
    all: &[IdentifiedTwistData],
    tds: &[TwistData],
) -> (r: Option<SingleTwist>)
    requires
        all.len() > 0,
        forall|i: int| 0 <= i < all.len() ==> lists_within(#[trigger] all@[i], tds.len() as nat),
    ensures
        match r {
            Some(t) => {
                let td = all@[t.identified as int].twist_data_for_state_calcs@[0];
                let n = tds@[td as int].num_slices_spec();
                &&& t.identified < all.len()
                &&& history@.twists.len() > 0 && all.len() > 2 ==> t.identified
                    != history@.twists.last().identified
                &&& all@[t.identified as int].twist_data_for_state_calcs.len() > 0
                &&& exists|s: int|
                    1 <= s <= (if n < 1 {
                        1
                    } else {
                        n as int
                    }) && t.slice_mask == mask_of(s)
                &&& t == (SingleTwist {
                    identified: t.identified,
                    left_click: t.left_click,
                    slice_mask: t.slice_mask,
                    ..default_twist()
                })
            },
            None => exists|i: int|
                0 <= i < all.len() && (#[trigger] all@[i]).twist_data_for_state_calcs.len() == 0,
        },
{
    let left_click = random_left_click(rng);
    let twists = history.all_twists();
    let last = if twists.len() > 0 {
        Some(twists[twists.len() - 1].identified)
    } else {
        None
    };
    let identified = scramble_identified(rng, all.len(), last);
    let c = &all[identified];
    if c.twist_data_for_state_calcs.len() == 0 {
        return None;
    }
    assert(c.twist_data_for_state_calcs@[0] < tds.len());
    let td = &tds[c.twist_data_for_state_calcs[0]];
    let slice_mask = random_slice_mask(rng, td.num_slices());
    Some(SingleTwist { identified, left_click, slice_mask, ..SingleTwist::default() })
}

/// The twisting controller: the twist animating, whether we are undoing everything, the setup
/// moves and the macro being recorded. How far the animation has turned is the caller's: it
/// calls [`TwistController::advance`] once the twist has turned all the way, and applies the
/// twists each call hands back to the puzzle's state, in order.
pub struct TwistController {
    current: Option<SingleTwist>,
    /// Whether we're undoing everything, one animated twist at a time.
    pub solving: bool,
    pub setup_moves: SetupMoves,
    /// The macro being recorded.
    pub working_macro: MacroTwists,
}

pub struct ControllerView {
    pub current: Option<SingleTwist>,
    pub solving: bool,
    pub setup_moves: SetupMovesView,
    pub working_macro: MacroTwistsView,
}

impl View for TwistController {
    type V = ControllerView;

    closed spec fn view(&self) -> ControllerView {
        ControllerView {
            current: self.current,
            solving: self.solving,
            setup_moves: self.setup_moves@,
            working_macro: self.working_macro@,
        }
    }
}

/// What the puzzle has to do after the controller decides: apply twists at once, in order, and
/// then start animating one.
pub struct Steps {
    pub instant: Vec<SingleTwist>,
    pub animate: Option<SingleTwist>,
}

/// The controller and the history once a twist has completed: nothing animating, and the twist
/// recorded in the history, the setup moves and the macro.
pub open spec fn completed_view(c: ControllerView, h: HistoryView, t: SingleTwist) -> (
    ControllerView,
    HistoryView,
) {
    (
        ControllerView {
            current: None,
            setup_moves: setup_after(c.setup_moves, t),
            working_macro: recorded_after(c.working_macro, t),
            ..c
        },
        after_update(h, t),
    )
}

/// Undoing the rest of a macro block at once, after its last twist: the twists undone, and the
/// controller and history afterwards. It stops after the block's first twist, or when there is
/// nothing left to undo.
pub open spec fn undo_rest(c: ControllerView, h: HistoryView) -> (
    Seq<SingleTwist>,
    ControllerView,
    HistoryView,
)
    decreases h.twists.len(),
{
    let (h1, u) = after_get_undo(h);
    match u {
        None => (Seq::empty(), c, h1),
        Some(x) => {
            let (c2, h2) = completed_view(c, h1, x);
            if x.macro_start {
                (seq![x], c2, h2)
            } else {
                let (r, c3, h3) = undo_rest(c2, h2);
                (seq![x] + r, c3, h3)
            }
        },
    }
}

/// Redoing the rest of a macro block at once, after its first twist.
pub open spec fn redo_rest(c: ControllerView, h: HistoryView) -> (
    Seq<SingleTwist>,
    ControllerView,
    HistoryView,
)
    decreases 2 * h.redo_twists.len() + if h.undo_mode {
        3int
    } else {
        0int
    },
{
    let (h1, r) = after_get_redo(h);
    match r {
        None => (Seq::empty(), c, h1),
        Some(x) => {
            let (c2, h2) = completed_view(c, h1, x);
            if x.macro_end {
                (seq![x], c2, h2)
            } else {
                let (rest, c3, h3) = redo_rest(c2, h2);
                (seq![x] + rest, c3, h3)
            }
        },
    }
}

pub proof fn lemma_undo_rest_shrinks(c: ControllerView, h: HistoryView)
    ensures
        undo_rest(c, h).2.twists.len() <= h.twists.len(),
        !h.undo_mode ==> !undo_rest(c, h).2.undo_mode,
    decreases h.twists.len(),
{
    let (h1, u) = after_get_undo(h);
    if let Some(x) = u {
        let (c2, h2) = completed_view(c, h1, x);
        if !x.macro_start {
            lemma_undo_rest_shrinks(c2, h2);
        }
    }
}

/// Undoing, not while a twist animates: the twists applied at once, the twist to animate,
/// whether there was anything to undo, and the controller and history afterwards. A twist that
/// ends a macro block undoes the whole block at once; when solving, the undoing goes on.
pub open spec fn undo_steps(c: ControllerView, h: HistoryView) -> (
    Seq<SingleTwist>,
    Option<SingleTwist>,
    bool,
    ControllerView,
    HistoryView,
)
    decreases h.twists.len(),
{
    let (h1, u) = after_get_undo(h);
    match u {
        None => (Seq::empty(), None, false, c, h1),
        Some(x) => if !x.macro_end {
            (Seq::empty(), Some(x), true, ControllerView { current: Some(x), ..c }, h1)
        } else {
            let (c1, h2) = completed_view(c, h1, x);
            let (blk, c3, h3) = if x.macro_start {
                (Seq::<SingleTwist>::empty(), c1, h2)
            } else {
                undo_rest(c1, h2)
            };
            if c3.solving {
                proof {
                    lemma_undo_rest_shrinks(c1, h2);
                }
                let (more, anim, found, c4, h4) = undo_steps(c3, h3);
                (seq![x] + blk + more, anim, true, ControllerView { solving: found, ..c4 }, h4)
            } else {
                (seq![x] + blk, None, true, c3, h3)
            }
        },
    }
}

/// Redoing, not while a twist animates: a twist that starts a macro block redoes the whole
/// block at once.
pub open spec fn redo_steps(c: ControllerView, h: HistoryView) -> (
    Seq<SingleTwist>,
    Option<SingleTwist>,
    ControllerView,
    HistoryView,
) {
    let (h1, r) = after_get_redo(h);
    match r {
        None => (Seq::empty(), None, c, h1),
        Some(x) => if !x.macro_start {
            (Seq::empty(), Some(x), ControllerView { current: Some(x), ..c }, h1)
        } else {
            let (c1, h2) = completed_view(c, h1, x);
            if x.macro_end {
                (seq![x], None, c1, h2)
            } else {
                let (rest, c3, h3) = redo_rest(c1, h2);
                (seq![x] + rest, None, c3, h3)
            }
        },
    }
}

/// Applying twists at once, one after another: the controller and history afterwards.
pub open spec fn applied(c: ControllerView, h: HistoryView, ts: Seq<SingleTwist>) -> (
    ControllerView,
    HistoryView,
)
    decreases ts.len(),
{
    if ts.len() == 0 {
        (c, h)
    } else {
        let (c1, h1) = applied(c, h, ts.drop_last());
        completed_view(c1, h1, ts.last())
    }
}

impl Default for TwistController {
    fn default() -> (r: TwistController)
        ensures
            r@ == (ControllerView {
                current: None,
                solving: false,
                setup_moves: crate::macros::no_setup_moves(),
                working_macro: MacroTwistsView { recording: false, twists: Seq::empty() },
            }),
    {
        TwistController {
            current: None,
            solving: false,
            setup_moves: SetupMoves::default(),
            working_macro: MacroTwists::default(),
        }
    }
}

impl TwistController {
    /// Call when a new puzzle is loaded.
    pub fn reset(&mut self)
        ensures
            final(self)@ == (ControllerView {
                current: None,
                solving: false,
                setup_moves: crate::macros::no_setup_moves(),
                working_macro: MacroTwistsView { recording: false, twists: Seq::empty() },
            }),
    {
        *self = TwistController::default();
    }

    /// The order of the twist animating: that of its identified twist data (see
    /// [`twist_order`]), 10 for a systolic twist, 1 when none is animating.
    pub fn current_twist_order(&self, all: &[IdentifiedTwistData], tds: &[TwistData]) -> (r: i32)
        requires
            self@.current matches Some(t) ==> (t.identified_systolic is None ==> t.identified
                < all.len() && lists_within(all@[t.identified as int], tds.len() as nat)),
        ensures
            r == match self@.current {
                Some(t) => if t.identified_systolic is None {
                    match crate::puzzle::timing_twist_data(all@[t.identified as int]) {
                        Some(td) => tds@[td as int].order,
                        None => 1,
                    }
                } else {
                    10
                },
                None => 1,
            },
    {
        match &self.current {
            Some(t) => if t.identified_systolic.is_none() {
                twist_order(all, tds, t.identified)
            } else {
                10
            },
            None => 1,
        }
    }

    /// A toggling ("lights on") move on a cell (see [`toggle`]), reported as solved when it
    /// turns every light on in a scrambled puzzle.
    pub fn toggle(
        &mut self,
        cells: &[Cell],
        state: &mut State,
        history: &mut TwistHistory,
        cell: CellId,
        toggling_mode: Option<TogglingMode>,
    ) -> (r: Completed)
        requires
            cell < cells.len(),
            crate::puzzle::master_of(cells@, cell as int) < cells.len(),
            crate::puzzle::neighbors_within(
                cells@,
                crate::puzzle::master_of(cells@, cell as int),
                old(state)@.n_cells,
            ),
            old(state)@.n_stickers > 0,
            old(state).inv(),
        ensures
            ({
                let master = crate::puzzle::master_of(cells@, cell as int);
                let with_self = toggling_mode == Some(TogglingMode::NeighborsAndSelf);
                let staged = crate::puzzle::toggled(
                    old(state)@.staged,
                    cells@,
                    master,
                    cells@[master].neighbors.len() as int,
                    with_self,
                );
                &&& final(state)@ == (StateView { colors: staged, staged, ..old(state)@ })
                &&& final(history)@ == (HistoryView {
                    toggles: old(history)@.toggles.push(master as usize),
                    ..old(history)@
                })
                &&& r.solved == (!old(history)@.undo_mode && old(history)@.scrambles != 0
                    && final(state)@.all_on())
            }),
            final(state).inv(),
            final(self)@ == old(self)@,
    {
        toggle(cells, state, history, cell, toggling_mode);
        let solved = state.is_all_on();
        Completed::after(history, solved)
    }

    /// Whether a twist is animating.
    pub fn twisting(&self) -> (r: bool)
        ensures
            r == self@.current is Some,
    {
        self.current.is_some()
    }

    pub fn current_twist(&self) -> (r: Option<&SingleTwist>)
        ensures
            match r {
                Some(t) => self@.current == Some(*t),
                None => self@.current is None,
            },
    {
        self.current.as_ref()
    }

    /// Starts animating a twist (ignored if one is already animating). `true` if it started: the
    /// caller then turns it from nothing and marks its stickers as moving.
    pub fn start_rotate(&mut self, twist: SingleTwist) -> (started: bool)
        ensures
            started == old(self)@.current is None,
            final(self)@ == if started {
                ControllerView { current: Some(twist), ..old(self)@ }
            } else {
                old(self)@
            },
    {
        if self.twisting() {
            return false;
        }
        self.current = Some(twist);
        true
    }

    /// Completes the animating twist, once the caller has applied it to the puzzle's state and
    /// found whether that `solved` the puzzle: records it in the history, the setup moves and the
    /// macro being recorded.
    pub fn finish_rotate(&mut self, history: &mut TwistHistory, solved: bool) -> (r: Completed)
        ensures
            match old(self)@.current {
                None => {
                    &&& r == (Completed { solved: false })
                    &&& final(self)@ == old(self)@
                    &&& final(history)@ == old(history)@
                },
                Some(t) => {
                    &&& r.solved == (!old(history)@.undo_mode && old(history)@.scrambles != 0
                        && solved)
                    &&& (final(self)@, final(history)@) == completed_view(old(self)@, old(history)@, t)
                },
            },
    {
        let twist = match self.current.take() {
            Some(t) => t,
            None => {
                return Completed { solved: false };
            },
        };
        let completed = Completed::after(history, solved);
        history.update(&twist);
        self.setup_moves.update(&twist);
        self.working_macro.update(&twist);
        completed
    }

    /// Completes a twist at once.
    fn apply_instantly(&mut self, history: &mut TwistHistory, twist: &SingleTwist)
        ensures
            (final(self)@, final(history)@) == completed_view(old(self)@, old(history)@, *twist),
    {
        history.update(twist);
        self.setup_moves.update(twist);
        self.working_macro.update(twist);
        self.current = None;
    }
}

impl TwistController {
    /// Undoes the rest of a macro block at once, adding the twists undone to `out`.
    fn undo_block_rest(&mut self, history: &mut TwistHistory, out: &mut Vec<SingleTwist>)
        ensures
            ({
                let (r, c, h) = undo_rest(old(self)@, old(history)@);
                &&& final(out)@ == old(out)@ + r
                &&& final(self)@ == c
                &&& final(history)@ == h
            }),
    {
        let ghost total = undo_rest(self@, history@);
        let ghost out0 = out@;
        let mut done = false;
        while !done
            invariant
                !done ==> out@ + undo_rest(self@, history@).0 == out0 + total.0,
                !done ==> undo_rest(self@, history@).1 == total.1,
                !done ==> undo_rest(self@, history@).2 == total.2,
                done ==> out@ == out0 + total.0 && self@ == total.1 && history@ == total.2,
            decreases if done {
                0
            } else {
                history@.twists.len() + 1
            },
        {
            let ghost c0 = self@;
            let ghost h0 = history@;
            match history.get_undo_twist() {
                None => {
                    assert(out@ + Seq::<SingleTwist>::empty() =~= out@);
                    done = true;
                },
                Some(x) => {
                    let ghost h1 = history@;
                    self.apply_instantly(history, &x);
                    let ghost o1 = out@;
                    out.push(x.copy());
                    if x.macro_start {
                        assert(o1 + seq![x] =~= out@);
                        done = true;
                    } else {
                        assert(o1 + (seq![x] + undo_rest(self@, history@).0) =~= out@ + undo_rest(
                            self@,
                            history@,
                        ).0);
                    }
                },
            }
        }
    }

    /// Redoes the rest of a macro block at once, adding the twists redone to `out`.
    fn redo_block_rest(&mut self, history: &mut TwistHistory, out: &mut Vec<SingleTwist>)
        ensures
            ({
                let (r, c, h) = redo_rest(old(self)@, old(history)@);
                &&& final(out)@ == old(out)@ + r
                &&& final(self)@ == c
                &&& final(history)@ == h
            }),
    {
        let ghost total = redo_rest(self@, history@);
        let ghost out0 = out@;
        let mut done = false;
        while !done
            invariant
                !done ==> out@ + redo_rest(self@, history@).0 == out0 + total.0,
                !done ==> redo_rest(self@, history@).1 == total.1,
                !done ==> redo_rest(self@, history@).2 == total.2,
                done ==> out@ == out0 + total.0 && self@ == total.1 && history@ == total.2,
            decreases if done {
                0
            } else {
                2 * history@.redo_twists.len() + (if history@.undo_mode {
                    3int
                } else {
                    0int
                }) + 1
            },
        {
            match history.get_redo_twist() {
                None => {
                    assert(out@ + Seq::<SingleTwist>::empty() =~= out@);
                    done = true;
                },
                Some(x) => {
                    self.apply_instantly(history, &x);
                    let ghost o1 = out@;
                    out.push(x.copy());
                    if x.macro_end {
                        assert(o1 + seq![x] =~= out@);
                        done = true;
                    } else {
                        assert(o1 + (seq![x] + redo_rest(self@, history@).0) =~= out@ + redo_rest(
                            self@,
                            history@,
                        ).0);
                    }
                },
            }
        }
    }

    /// Undoes the last twist, not while a twist animates: a twist ending a macro block undoes
    /// the whole block at once, adding its twists to `out`, and then goes on if solving.
    /// Returns the twist to animate, and whether there was anything to undo.
    fn undo_internal(&mut self, history: &mut TwistHistory, out: &mut Vec<SingleTwist>) -> (r: (
        Option<SingleTwist>,
        bool,
    ))
        ensures
            ({
                let (i, a, found, c, h) = undo_steps(old(self)@, old(history)@);
                &&& final(out)@ == old(out)@ + i
                &&& r == (a, found)
                &&& final(self)@ == c
                &&& final(history)@ == h
            }),
        decreases old(history)@.twists.len(),
    {
        let ghost c0 = self@;
        let ghost h0 = history@;
        let ghost out0 = out@;
        let x = match history.get_undo_twist() {
            Some(x) => x,
            None => {
                assert(out@ + Seq::<SingleTwist>::empty() =~= out@);
                return (None, false);
            },
        };
        if !x.macro_end {
            self.current = Some(x.copy());
            assert(out@ + Seq::<SingleTwist>::empty() =~= out@);
            return (Some(x), true);
        }
        self.apply_instantly(history, &x);
        out.push(x.copy());
        let ghost c1 = self@;
        let ghost h2 = history@;
        if !x.macro_start {
            self.undo_block_rest(history, out);
        }
        proof {
            let (blk, c3, h3) = if x.macro_start {
                (Seq::<SingleTwist>::empty(), c1, h2)
            } else {
                undo_rest(c1, h2)
            };
            assert(out@ == out0 + seq![x] + blk);
            assert(self@ == c3 && history@ == h3);
            lemma_undo_rest_shrinks(c1, h2);
        }
        if self.solving {
            let ghost o2 = out@;
            let (anim, found) = self.undo_internal(history, out);
            self.solving = found;
            assert(out@ == out0 + undo_steps(c0, h0).0) by {
                let (blk, c3, h3) = if x.macro_start {
                    (Seq::<SingleTwist>::empty(), c1, h2)
                } else {
                    undo_rest(c1, h2)
                };
                assert(out0 + seq![x] + blk + undo_steps(c3, h3).0 =~= out0 + (seq![x] + blk
                    + undo_steps(c3, h3).0));
            }
            (anim, true)
        } else {
            assert(out@ == out0 + undo_steps(c0, h0).0) by {
                let (blk, c3, h3) = if x.macro_start {
                    (Seq::<SingleTwist>::empty(), c1, h2)
                } else {
                    undo_rest(c1, h2)
                };
                assert(out0 + seq![x] + blk =~= out0 + (seq![x] + blk));
            }
            (None, true)
        }
    }

    /// Undoes the last twist (ignored while a twist animates).
    pub fn undo(&mut self, history: &mut TwistHistory) -> (r: Steps)
        ensures
            old(self)@.current is Some ==> r.instant@ == Seq::<SingleTwist>::empty() && r.animate
                is None && final(self)@ == old(self)@ && final(history)@ == old(history)@,
            old(self)@.current is None ==> {
                let (i, a, found, c, h) = undo_steps(old(self)@, old(history)@);
                &&& r.instant@ == i
                &&& r.animate == a
                &&& final(self)@ == c
                &&& final(history)@ == h
            },
    {
        let mut instant: Vec<SingleTwist> = Vec::new();
        if self.twisting() {
            return Steps { instant, animate: None };
        }
        let (animate, _found) = self.undo_internal(history, &mut instant);
        assert(Seq::<SingleTwist>::empty() + undo_steps(old(self)@, old(history)@).0 =~= undo_steps(
            old(self)@,
            old(history)@,
        ).0);
        Steps { instant, animate }
    }

    /// Undoes everything, one twist at a time (ignored while a twist animates).
    pub fn solve(&mut self, history: &mut TwistHistory) -> (r: Steps)
        ensures
            old(self)@.current is Some ==> r.instant@ == Seq::<SingleTwist>::empty() && r.animate
                is None && final(self)@ == old(self)@ && final(history)@ == old(history)@,
            old(self)@.current is None ==> {
                let (i, a, found, c, h) = undo_steps(old(self)@, old(history)@);
                &&& r.instant@ == i
                &&& r.animate == a
                &&& final(self)@ == (ControllerView { solving: found, ..c })
                &&& final(history)@ == h
            },
    {
        let mut instant: Vec<SingleTwist> = Vec::new();
        if self.twisting() {
            return Steps { instant, animate: None };
        }
        let (animate, found) = self.undo_internal(history, &mut instant);
        self.solving = found;
        assert(Seq::<SingleTwist>::empty() + undo_steps(old(self)@, old(history)@).0 =~= undo_steps(
            old(self)@,
            old(history)@,
        ).0);
        Steps { instant, animate }
    }

    /// Redoes the last twist undone (ignored while a twist animates): a twist starting a macro
    /// block redoes the whole block at once.
    pub fn redo(&mut self, history: &mut TwistHistory) -> (r: Steps)
        ensures
            old(self)@.current is Some ==> r.instant@ == Seq::<SingleTwist>::empty() && r.animate
                is None && final(self)@ == old(self)@ && final(history)@ == old(history)@,
            old(self)@.current is None ==> {
                let (i, a, c, h) = redo_steps(old(self)@, old(history)@);
                &&& r.instant@ == i
                &&& r.animate == a
                &&& final(self)@ == c
                &&& final(history)@ == h
            },
    {
        let mut instant: Vec<SingleTwist> = Vec::new();
        if self.twisting() {
            return Steps { instant, animate: None };
        }
        let x = match history.get_redo_twist() {
            Some(x) => x,
            None => {
                return Steps { instant, animate: None };
            },
        };
        if !x.macro_start {
            self.current = Some(x.copy());
            return Steps { instant, animate: Some(x) };
        }
        self.apply_instantly(history, &x);
        instant.push(x.copy());
        if !x.macro_end {
            self.redo_block_rest(history, &mut instant);
        }
        Steps { instant, animate: None }
    }

    /// Completes the animating twist once it has turned all the way, after the caller has
    /// applied it to the puzzle's state and found whether that `solved` the puzzle. When
    /// solving, the next undo follows; when there is none left, solving stops and the scramble
    /// no longer counts.
    pub fn advance(&mut self, history: &mut TwistHistory, solved: bool) -> (r: Option<
        (Completed, Steps),
    >)
        ensures
            old(self)@.current is None ==> {
                &&& r is None
                &&& final(self)@ == old(self)@
                &&& final(history)@ == old(history)@
            },
            old(self)@.current matches Some(t) ==> {
                let (c1, h1) = completed_view(old(self)@, old(history)@, t);
                &&& r matches Some(pair)
                &&& pair.0.solved == (!old(history)@.undo_mode && old(history)@.scrambles != 0
                    && solved)
                &&& if c1.solving {
                    let (i, a, found, c2, h2) = undo_steps(c1, h1);
                    &&& pair.1.instant@ == i
                    &&& pair.1.animate == a
                    &&& final(self)@ == if found {
                        c2
                    } else {
                        ControllerView { solving: false, ..c2 }
                    }
                    &&& final(history)@ == if found {
                        h2
                    } else {
                        HistoryView { scrambles: 0, ..h2 }
                    }
                } else {
                    &&& pair.1.instant@ == Seq::<SingleTwist>::empty()
                    &&& pair.1.animate is None
                    &&& final(self)@ == c1
                    &&& final(history)@ == h1
                }
            },
    {
        if !self.twisting() {
            return None;
        }
        let completed = self.finish_rotate(history, solved);
        let mut instant: Vec<SingleTwist> = Vec::new();
        let mut animate: Option<SingleTwist> = None;
        if self.solving {
            let (a, found) = self.undo_internal(history, &mut instant);
            animate = a;
            if !found {
                self.solving = false;
                history.set_scrambles(0);
            }
            assert(Seq::<SingleTwist>::empty() + undo_steps(
                completed_view(old(self)@, old(history)@, old(self)@.current->0).0,
                completed_view(old(self)@, old(history)@, old(self)@.current->0).1,
            ).0 =~= instant@);
        }
        Some((completed, Steps { instant, animate }))
    }
}

impl TwistController {
    /// Applies twists at once, marked as one macro block when there is more than one (not
    /// meant for undo and redo). Returns the twists applied, for the caller to apply to the
    /// puzzle's state in order.
    pub fn apply_macro_twists(&mut self, history: &mut TwistHistory, twists: Vec<SingleTwist>) -> (r:
        Vec<SingleTwist>)
        ensures
            r@ == marked_block(twists@),
            (final(self)@, final(history)@) == applied(old(self)@, old(history)@, r@),
    {
        let marked = mark_macro_block(twists);
        let mut i: usize = 0;
        while i < marked.len()
            invariant
                0 <= i <= marked.len(),
                (self@, history@) == applied(old(self)@, old(history)@, marked@.subrange(0, i as int)),
            decreases marked.len() - i,
        {
            proof {
                assert(marked@.subrange(0, i + 1).drop_last() =~= marked@.subrange(0, i as int));
            }
            self.apply_instantly(history, &marked[i]);
            i = i + 1;
        }
        assert(marked@.subrange(0, marked.len() as int) =~= marked@);
        marked
    }

    /// Applies a macro at once (reversed, for right clicks).
    pub fn apply_macro(&mut self, history: &mut TwistHistory, m: &MacroTwists, reverse: bool) -> (r:
        Vec<SingleTwist>)
        ensures
            r@ == marked_block(
                if reverse {
                    crate::macros::reverse_of(m@.twists)
                } else {
                    m@.twists
                },
            ),
            (final(self)@, final(history)@) == applied(old(self)@, old(history)@, r@),
    {
        let twists = if reverse {
            m.reverse_twists()
        } else {
            copy_twists(m.twists())
        };
        self.apply_macro_twists(history, twists)
    }

    /// Undoes the setup moves.
    pub fn unwind(&mut self, history: &mut TwistHistory) -> (r: Vec<SingleTwist>)
        ensures
            r@ == marked_block(crate::macros::reverse_of(old(self)@.setup_moves.setup_moves.twists)),
            (final(self)@, final(history)@) == applied(
                ControllerView { setup_moves: crate::macros::no_setup_moves(), ..old(self)@ },
                old(history)@,
                r@,
            ),
    {
        let twists = self.setup_moves.take_unwind_twists();
        self.apply_macro_twists(history, twists)
    }

    /// Completes a commutator.
    pub fn commutator(&mut self, history: &mut TwistHistory) -> (r: Vec<SingleTwist>)
        ensures
            r@ == marked_block(
                crate::macros::reverse_of(old(self)@.setup_moves.setup_moves.twists)
                    + crate::macros::reverse_of(old(self)@.setup_moves.commutator_moves.twists),
            ),
            (final(self)@, final(history)@) == applied(
                ControllerView { setup_moves: crate::macros::no_setup_moves(), ..old(self)@ },
                old(history)@,
                r@,
            ),
    {
        let twists = self.setup_moves.take_commutator_twists();
        self.apply_macro_twists(history, twists)
    }

    /// Back to the solved state, clearing the history, the setup moves and the macro.
    pub fn reset_state(&mut self, state: &mut State, history: &mut TwistHistory)
        requires
            old(state).inv(),
        ensures
            final(state)@.n_cells == old(state)@.n_cells,
            final(state)@.n_stickers == old(state)@.n_stickers,
            final(state)@.colors == crate::state::solved_rows(
                old(state)@.n_cells,
                old(state)@.n_stickers,
            ),
            final(state)@.staged == crate::state::solved_rows(
                old(state)@.n_cells,
                old(state)@.n_stickers,
            ),
            final(state).inv(),
            final(history)@ == (HistoryView {
                twists: Seq::empty(),
                redo_twists: Seq::empty(),
                toggles: Seq::empty(),
                scrambles: 0,
                ..old(history)@
            }),
            final(self)@ == (ControllerView {
                setup_moves: crate::macros::no_setup_moves(),
                working_macro: MacroTwistsView { recording: false, twists: Seq::empty() },
                ..old(self)@
            }),
    {
        state.reset();
        history.clear();
        self.setup_moves.reset();
        self.working_macro.reset();
    }
}

/// A copy of a list of twists.
fn copy_twists(ts: &[SingleTwist]) -> (r: Vec<SingleTwist>)
    ensures
        r@ == ts@,
{
    let mut r: Vec<SingleTwist> = Vec::new();
    let mut i: usize = 0;
    while i < ts.len()
        invariant
            0 <= i <= ts.len(),
            r@ == ts@.subrange(0, i as int),
        decreases ts.len() - i,
    {
        r.push(ts[i].copy());
        i = i + 1;
        assert(r@ =~= ts@.subrange(0, i as int));
    }
    assert(ts@.subrange(0, ts.len() as int) =~= ts@);
    r
}

/// Twists applied at once outside undo and redo go on the history's list of twists, clear the
/// list to redo, and leave nothing animating.
proof fn lemma_applied_plain(c: ControllerView, h: HistoryView, ts: Seq<SingleTwist>)
    requires
        !h.undo_mode,
        !h.redo_mode,
        ts.len() > 0,
    ensures
        applied(c, h, ts).1.twists == h.twists + ts,
        !applied(c, h, ts).1.undo_mode,
        !applied(c, h, ts).1.redo_mode,
        applied(c, h, ts).0.current is None,
        applied(c, h, ts).0.solving == c.solving,
    decreases ts.len(),
{
    if ts.len() == 1 {
        assert(ts.drop_last() =~= Seq::<SingleTwist>::empty());
        assert(h.twists + ts =~= h.twists.push(ts.last()));
    } else {
        lemma_applied_plain(c, h, ts.drop_last());
        assert(h.twists + ts =~= (h.twists + ts.drop_last()).push(ts.last()));
    }
}

/// Undoing the rest of a block whose only start marker is on its first twist undoes all of it:
/// each twist reversed, last first.
proof fn lemma_undo_rest_block(
    c: ControllerView,
    h: HistoryView,
    base: Seq<SingleTwist>,
    blk: Seq<SingleTwist>,
)
    requires
        !h.undo_mode,
        h.twists == base + blk,
        blk.len() > 0,
        blk[0].macro_start,
        forall|i: int| 0 < i < blk.len() ==> !(#[trigger] blk[i]).macro_start,
    ensures
        undo_rest(c, h).0 == crate::macros::reverse_of(blk),
        undo_rest(c, h).2.twists == base,
        !undo_rest(c, h).2.undo_mode,
        undo_rest(c, h).1.solving == c.solving,
        undo_rest(c, h).1.current is None,
    decreases blk.len(),
{
    let (h1, u) = after_get_undo(h);
    assert(h.twists.last() == blk.last());
    let x = crate::twist::reversed(blk.last());
    let (c2, h2) = completed_view(c, h1, x);
    assert(h2.twists =~= base + blk.drop_last());
    if blk.len() == 1 {
        assert(crate::macros::reverse_of(blk) =~= seq![x]);
    } else {
        assert(!blk.last().macro_start);
        let rest = blk.drop_last();
        assert forall|i: int| 0 < i < rest.len() implies !(#[trigger] rest[i]).macro_start by {
            assert(rest[i] == blk[i]);
        }
        lemma_undo_rest_block(c2, h2, base, rest);
        assert(crate::macros::reverse_of(blk) =~= seq![x] + crate::macros::reverse_of(rest));
    }
}

/// A macro applied at once is undone at once: after applying a block of two or more twists
/// (none but the first marked as a start), one undo undoes all of them, each reversed and last
/// first, and the history's twists are what they were.
pub proof fn lemma_macro_undone_at_once(c: ControllerView, h: HistoryView, ts: Seq<SingleTwist>)
    requires
        !c.solving,
        !h.undo_mode,
        !h.redo_mode,
        ts.len() >= 2,
        forall|i: int| 0 < i < ts.len() ==> !(#[trigger] ts[i]).macro_start,
    ensures
        ({
            let (c1, h1) = applied(c, h, marked_block(ts));
            let (instant, animate, found, c2, h2) = undo_steps(c1, h1);
            &&& found
            &&& animate is None
            &&& instant == crate::macros::reverse_of(marked_block(ts))
            &&& h2.twists == h.twists
            &&& c2.current is None
            &&& !c2.solving
        }),
{
    let m = marked_block(ts);
    lemma_applied_plain(c, h, m);
    let (c1, h1) = applied(c, h, m);
    let (hu, u) = after_get_undo(h1);
    assert(h1.twists.last() == m.last());
    let x = crate::twist::reversed(m.last());
    assert(x.macro_end);
    assert(!x.macro_start);
    let (cc, h2) = completed_view(c1, hu, x);
    let blk = m.drop_last();
    assert(h2.twists =~= h.twists + blk);
    assert forall|i: int| 0 < i < blk.len() implies !(#[trigger] blk[i]).macro_start by {
        assert(blk[i] == m[i]);
    }
    lemma_undo_rest_block(cc, h2, h.twists, blk);
    assert(crate::macros::reverse_of(m) =~= seq![x] + crate::macros::reverse_of(blk));
}

} // verus!
