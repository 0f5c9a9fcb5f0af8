//! Progress and failure while building a puzzle, the small list helpers building uses, and what
//! a puzzle reads of its twist data to turn a twist: its order, the twist data a twist moves and
//! the master cells it changes. Also the moves themselves: carrying colors along a twist's
//! sticker moves (positions given as ids), lights-on toggling, which stickers are twisting, and
//! masters and their slaves.
use crate::cell::{Cell, CellId, Sticker, StickerId};
use crate::nethash::{keys_of, lemma_match_found, lemma_match_prefix, lookup, newest_match, NetMap};
use crate::config::TogglingMode;
use crate::state::{rows_of, State, StateView, OFF_COLOR};
use crate::twist::{HistoryView, SingleTwist, TwistHistory};
use crate::twist_data::{views_of, IdentifiedTwistData, TwistData, TwistDataId};
use std::collections::HashMap;
use vstd::prelude::*;

verus! {

broadcast use vstd::std_specs::hash::group_hash_axioms;

/// Receives progress while building (and can cancel it).
pub trait BuildProgress {
    fn status(&mut self, message: &str) {
    }

    fn cancelled(&self) -> (r: bool)
        default_ensures
            !r,
    {
        false
    }
}

/// Ignores progress.
impl BuildProgress for () {

}

#[derive(Debug, Clone, PartialEq)]
pub enum BuildError {
    Cancelled,
    Invalid(String),
}

/// The text of a build error.
pub open spec fn error_text(e: BuildError) -> Seq<char> {
    match e {
        BuildError::Cancelled => "puzzle building cancelled"@,
        BuildError::Invalid(m) => "puzzle build failure: "@ + m@,
    }
}

impl BuildError {
    /// The error as text.
    pub fn message(&self) -> (r: String)
        ensures
            r@ == error_text(*self),
    {
        match self {
            BuildError::Cancelled => String::from_str("puzzle building cancelled"),
            BuildError::Invalid(m) => {
                let mut s = String::from_str("puzzle build failure: ");
                s.append(m.as_str());
                s
            },
        }
    }
}

/// What a progress report comes to, given whether the build was cancelled.
pub fn status_after(cancelled: bool) -> (r: Result<(), BuildError>)
    ensures
        r == (if cancelled {
            Err(BuildError::Cancelled)
        } else {
            Ok(())
        }),
{
    if cancelled {
        Err(BuildError::Cancelled)
    } else {
        Ok(())
    }
}

/// Reports progress, unless the build was cancelled (which it is an error to go on from).
pub fn status<P: BuildProgress>(progress: &mut P, message: &str) -> (r: Result<(), BuildError>)
    ensures
        r == Ok::<(), BuildError>(()) || r == Err::<(), BuildError>(BuildError::Cancelled),
{
    let cancelled = progress.cancelled();
    match status_after(cancelled) {
        Err(e) => Err(e),
        Ok(()) => {
            progress.status(message);
            Ok(())
        },
    }
}

/// Adds an item unless the list has it already.
pub fn add_unique(v: &mut Vec<usize>, c: usize)
    ensures
        final(v)@ == (if old(v)@.contains(c) {
            old(v)@
        } else {
            old(v)@.push(c)
        }),
{
    let mut i: usize = 0;
    while i < v.len()
        invariant
            0 <= i <= v@.len(),
            v@ == old(v)@,
            forall|j: int| 0 <= j < i ==> v@[j] != c,
        decreases v@.len() - i,
    {
        if v[i] == c {
            return;
        }
        i = i + 1;
    }
    v.push(c);
}

/// The twist data a logical twist is timed by: its first one for state calculations, else its
/// first one for drawing.
pub open spec fn timing_twist_data(c: IdentifiedTwistData) -> Option<TwistDataId> {
    if c.twist_data_for_state_calcs.len() > 0 {
        Some(c.twist_data_for_state_calcs@[0])
    } else if c.twist_data_for_drawing.len() > 0 {
        Some(c.twist_data_for_drawing@[0])
    } else {
        None
    }
}

/// Whether every twist data a logical twist lists is one of the puzzle's.
pub open spec fn lists_within(c: IdentifiedTwistData, n: nat) -> bool {
    &&& forall|i: int|
        0 <= i < c.twist_data_for_state_calcs.len() ==> #[trigger] c.twist_data_for_state_calcs@[i]
            < n
    &&& forall|i: int|
        0 <= i < c.twist_data_for_drawing.len() ==> #[trigger] c.twist_data_for_drawing@[i] < n
}

/// The order of a twist (the number of twists to get back to the start): that of the twist data
/// it is timed by, or 1.
pub fn twist_order(all_twist_data: &[IdentifiedTwistData], twist_data: &[TwistData], identified: usize) -> (r:
    i32)
    requires
        identified < all_twist_data.len(),
        lists_within(all_twist_data@[identified as int], twist_data.len() as nat),
    ensures
        r == match timing_twist_data(all_twist_data@[identified as int]) {
            Some(td) => twist_data@[td as int].order,
            None => 1,
        },
{
    let c = &all_twist_data[identified];
    if c.twist_data_for_state_calcs.len() > 0 {
        twist_data[c.twist_data_for_state_calcs[0]].order
    } else if c.twist_data_for_drawing.len() > 0 {
        twist_data[c.twist_data_for_drawing[0]].order
    } else {
        1
    }
}

/// The twist data in the state calculations for a twist: those of its logical twist, and of
/// its second one for a systolic twist.
pub fn state_calc_twist_data(all_twist_data: &[IdentifiedTwistData], twist: &SingleTwist) -> (r: Vec<
    TwistDataId,
>)
    requires
        twist.identified < all_twist_data.len(),
        twist.identified_systolic matches Some(s) ==> s < all_twist_data.len(),
    ensures
        r@ == all_twist_data@[twist.identified as int].twist_data_for_state_calcs@ + match twist.identified_systolic {
            Some(s) => all_twist_data@[s as int].twist_data_for_state_calcs@,
            None => Seq::<TwistDataId>::empty(),
        },
{
    let mut result = copy_ids(&all_twist_data[twist.identified].twist_data_for_state_calcs);
    match twist.identified_systolic {
        Some(s) => {
            let mut more = copy_ids(&all_twist_data[s].twist_data_for_state_calcs);
            result.append(&mut more);
        },
        None => {
            assert(result@ + Seq::<TwistDataId>::empty() =~= result@);
        },
    }
    result
}

fn copy_ids(v: &Vec<usize>) -> (r: Vec<usize>)
    ensures
        r@ == v@,
{
    let mut r: Vec<usize> = Vec::new();
    let mut i: usize = 0;
    while i < v.len()
        invariant
            0 <= i <= v.len(),
            r@ == v@.take(i as int),
        decreases v.len() - i,
    {
        r.push(v[i]);
        i = i + 1;
        assert(r@ =~= v@.take(i as int));
    }
    assert(v@.take(v.len() as int) =~= v@);
    r
}

/// Adding items one by one, each unless already present.
pub open spec fn added_unique(acc: Seq<usize>, items: Seq<usize>) -> Seq<usize>
    decreases items.len(),
{
    if items.len() == 0 {
        acc
    } else {
        let before = added_unique(acc, items.drop_last());
        if before.contains(items.last()) {
            before
        } else {
            before.push(items.last())
        }
    }
}

/// The master cells the twist data `tds` change, in order.
pub open spec fn master_cells_of(twist_data: Seq<TwistData>, tds: Seq<TwistDataId>) -> Seq<usize>
    decreases tds.len(),
{
    if tds.len() == 0 {
        Seq::empty()
    } else {
        master_cells_of(twist_data, tds.drop_last()) + match twist_data[tds.last() as int].affected_master_cells {
            Some(cells) => cells@,
            None => Seq::empty(),
        }
    }
}

/// The master cells whose appearance a twist changes, each once.
pub fn affected_master_cells(
    all_twist_data: &[IdentifiedTwistData],
    twist_data: &[TwistData],
    identified: usize,
) -> (r: Vec<usize>)
    requires
        identified < all_twist_data.len(),
        lists_within(all_twist_data@[identified as int], twist_data.len() as nat),
    ensures
        r@ == added_unique(
            Seq::empty(),
            master_cells_of(
                twist_data@,
                all_twist_data@[identified as int].twist_data_for_state_calcs@,
            ),
        ),
{
    let tds = &all_twist_data[identified].twist_data_for_state_calcs;
    let mut result: Vec<usize> = Vec::new();
    let mut k: usize = 0;
    while k < tds.len()
        invariant
            0 <= k <= tds.len(),
            forall|i: int| 0 <= i < tds.len() ==> #[trigger] tds@[i] < twist_data.len(),
            result@ == added_unique(Seq::empty(), master_cells_of(twist_data@, tds@.take(k as int))),
        decreases tds.len() - k,
    {
        let td = tds[k];
        assert(tds@.take(k + 1).drop_last() =~= tds@.take(k as int));
        assert(tds@.take(k + 1).last() == td);
        let ghost before = master_cells_of(twist_data@, tds@.take(k as int));
        match &twist_data[td].affected_master_cells {
            Some(cells) => {
                let mut j: usize = 0;
                while j < cells.len()
                    invariant
                        0 <= j <= cells.len(),
                        result@ == added_unique(Seq::empty(), before + cells@.take(j as int)),
                    decreases cells.len() - j,
                {
                    assert((before + cells@.take(j + 1)).drop_last() =~= before + cells@.take(j as int));
                    assert((before + cells@.take(j + 1)).last() == cells@[j as int]);
                    add_unique(&mut result, cells[j]);
                    j = j + 1;
                }
                assert(cells@.take(cells.len() as int) =~= cells@);
            },
            None => {
                assert(before + Seq::<usize>::empty() =~= before);
            },
        }
        k = k + 1;
    }
    assert(tds@.take(tds.len() as int) =~= tds@);
    result
}

/// The master of a cell, or the cell itself if it is a master.
pub fn master_or_self(cells: &[Cell], cell: CellId) -> (r: CellId)
    requires
        cell < cells.len(),
    ensures
        r == match cells@[cell as int].master {
            Some(m) => m,
            None => cell,
        },
{
    match cells[cell].master {
        Some(m) => m,
        None => cell,
    }
}

/// A sticker toggled between on (its cell's color) and off.
pub open spec fn toggled_color(color: i32, cell: int) -> i32 {
    if color == OFF_COLOR {
        cell as i32
    } else {
        OFF_COLOR
    }
}

/// The staged colors after toggling the first sticker of each of the first `k` neighbors of
/// `master` (the master itself only when toggling it too), where the neighbor counts in the
/// state calculations.
pub open spec fn toggled(
    staged: Seq<Seq<i32>>,
    cells: Seq<Cell>,
    master: int,
    k: int,
    with_self: bool,
) -> Seq<Seq<i32>>
    decreases k,
{
    if k <= 0 {
        staged
    } else {
        let before = toggled(staged, cells, master, k - 1, with_self);
        let nb = cells[master].neighbors@[k - 1] as int;
        let i = cells[nb].index_of_master as int;
        if (nb != master || with_self) && i >= 0 {
            before.update(i, before[i].update(0, toggled_color(before[i][0], i)))
        } else {
            before
        }
    }
}

/// Whether every neighbor of a cell is a cell, and the ones that count in the state
/// calculations are rows of the state.
pub open spec fn neighbors_within(cells: Seq<Cell>, master: int, n_cells: nat) -> bool {
    forall|k: int|
        0 <= k < cells[master].neighbors.len() ==> {
            let nb = #[trigger] cells[master].neighbors@[k];
            &&& nb < cells.len()
            &&& cells[nb as int].index_of_master < n_cells
        }
}

/// A toggling ("lights on") move on a cell: toggles its master's neighbors (and the master
/// itself, when toggling clicked tiles too), and records the move.
pub fn toggle(
    cells: &[Cell],
    state: &mut State,
    history: &mut TwistHistory,
    cell: CellId,
    toggling_mode: Option<TogglingMode>,
)
    requires
        cell < cells.len(),
        master_of(cells@, cell as int) < cells.len(),
        neighbors_within(cells@, master_of(cells@, cell as int), old(state)@.n_cells),
        old(state)@.n_stickers > 0,
        old(state).inv(),
    ensures
        ({
            let master = master_of(cells@, cell as int);
            let with_self = toggling_mode == Some(TogglingMode::NeighborsAndSelf);
            let staged = toggled(
                old(state)@.staged,
                cells@,
                master,
                cells@[master].neighbors.len() as int,
                with_self,
            );
            &&& final(state)@ == (StateView { colors: staged, staged, ..old(state)@ })
            &&& final(state).inv()
            &&& final(history)@ == (HistoryView {
                toggles: old(history)@.toggles.push(master as usize),
                ..old(history)@
            })
        }),
{
    let master = master_or_self(cells, cell);
    let with_self = match toggling_mode {
        Some(TogglingMode::NeighborsAndSelf) => true,
        _ => false,
    };
    let neighbors = &cells[master].neighbors;
    let mut k: usize = 0;
    while k < neighbors.len()
        invariant
            0 <= k <= neighbors.len(),
            master < cells.len(),
            neighbors == cells@[master as int].neighbors,
            neighbors_within(cells@, master as int, state@.n_cells),
            state.inv(),
            state@.n_cells == old(state)@.n_cells,
            state@.n_stickers == old(state)@.n_stickers,
            state@.n_stickers > 0,
            state@.colors == old(state)@.colors,
            state@.staged == toggled(old(state)@.staged, cells@, master as int, k as int, with_self),
        decreases neighbors.len() - k,
    {
        let neighbor = neighbors[k];
        assert(neighbor < cells.len());
        let i = cells[neighbor].index_of_master;
        if (neighbor != master || with_self) && i >= 0 {
            state.toggle_sticker_color_index(i as usize, 0);
        }
        k = k + 1;
    }
    state.commit_changes();
    history.update_toggle(master);
}

/// The master of a cell, or the cell itself.
pub open spec fn master_of(cells: Seq<Cell>, cell: int) -> int {
    match cells[cell].master {
        Some(m) => m as int,
        None => cell,
    }
}

/// A sticker's move in a twist: the sticker, the id of the position it leaves and the id of the
/// position it reaches. Equal ids are equal positions.
pub type StickerMove = (StickerId, i64, i64);

/// A sticker lies within the state: on a dropped cell (index -1), or on a cell and at an index
/// that the state has.
pub open spec fn fits(s: Sticker, n_cells: nat, n_stickers: nat) -> bool {
    s.cell_index < 0 || (s.cell_index < n_cells && s.sticker_index < n_stickers)
}

/// Every moved sticker is a sticker, and lies within the state.
pub open spec fn moves_fit(
    moves: Seq<StickerMove>,
    stickers: Seq<Sticker>,
    n_cells: nat,
    n_stickers: nat,
) -> bool {
    forall|i: int|
        0 <= i < moves.len() ==> {
            let s = (#[trigger] moves[i]).0;
            &&& s < stickers.len()
            &&& fits(stickers[s as int], n_cells, n_stickers)
        }
}

/// The sticker that, among the first `n` moves, last left the position `pos`.
pub open spec fn sticker_from(moves: Seq<StickerMove>, pos: i64, n: int) -> Option<StickerId>
    decreases n,
{
    if n <= 0 {
        None
    } else if moves[n - 1].1 == pos {
        Some(moves[n - 1].0)
    } else {
        sticker_from(moves, pos, n - 1)
    }
}

/// The last of the first `n` entries that belongs to the sticker `s`.
pub open spec fn entry_of(entries: Seq<(StickerId, i64)>, s: StickerId, n: int) -> Option<int>
    decreases n,
{
    if n <= 0 {
        None
    } else if entries[n - 1].0 == s {
        Some(n - 1)
    } else {
        entry_of(entries, s, n - 1)
    }
}

/// Each sticker of the first `n` moves, in the order it first moves, with the position it last
/// reaches.
pub open spec fn destinations(moves: Seq<StickerMove>, n: int) -> Seq<(StickerId, i64)>
    decreases n,
{
    if n <= 0 {
        Seq::empty()
    } else {
        let e = destinations(moves, n - 1);
        let m = moves[n - 1];
        match entry_of(e, m.0, e.len() as int) {
            Some(i) => e.update(i, (m.0, m.2)),
            None => e.push((m.0, m.2)),
        }
    }
}

/// Where a destination entry sends a color: the sticker it comes from and the sticker it goes
/// to, when the position it reaches is one that a moved sticker left and neither sticker lies
/// on a dropped cell.
pub open spec fn carried(
    stickers: Seq<Sticker>,
    moves: Seq<StickerMove>,
    entry: (StickerId, i64),
) -> Option<(StickerId, StickerId)> {
    match sticker_from(moves, entry.1, moves.len() as int) {
        Some(s2) => if stickers[entry.0 as int].cell_index >= 0 && stickers[s2 as int].cell_index
            >= 0 {
            Some((entry.0, s2))
        } else {
            None
        },
        None => None,
    }
}

/// The staged colors after carrying the committed color of each of the first `k` destination
/// entries' stickers to the sticker it reaches.
pub open spec fn carried_colors(
    staged: Seq<Seq<i32>>,
    colors: Seq<Seq<i32>>,
    stickers: Seq<Sticker>,
    moves: Seq<StickerMove>,
    entries: Seq<(StickerId, i64)>,
    k: int,
) -> Seq<Seq<i32>>
    decreases k,
{
    if k <= 0 {
        staged
    } else {
        let before = carried_colors(staged, colors, stickers, moves, entries, k - 1);
        match carried(stickers, moves, entries[k - 1]) {
            Some((s1, s2)) => {
                let (a, b) = (stickers[s1 as int], stickers[s2 as int]);
                let c2 = b.cell_index as int;
                before.update(
                    c2,
                    before[c2].update(
                        b.sticker_index as int,
                        colors[a.cell_index as int][a.sticker_index as int],
                    ),
                )
            },
            None => before,
        }
    }
}

/// The sticker pairs (from, to) of the first `k` destination entries whose color lands on
/// another sticker.
pub open spec fn carried_pairs(
    stickers: Seq<Sticker>,
    moves: Seq<StickerMove>,
    entries: Seq<(StickerId, i64)>,
    k: int,
) -> Seq<(StickerId, StickerId)>
    decreases k,
{
    if k <= 0 {
        Seq::empty()
    } else {
        let before = carried_pairs(stickers, moves, entries, k - 1);
        match carried(stickers, moves, entries[k - 1]) {
            Some((s1, s2)) => {
                let (a, b) = (stickers[s1 as int], stickers[s2 as int]);
                if a.cell_index != b.cell_index || a.sticker_index != b.sticker_index {
                    before.push((s1, s2))
                } else {
                    before
                }
            },
            None => before,
        }
    }
}

/// The entries of a map from positions to stickers, filled by inserting the first `n` moves'
/// (position left, sticker) in turn, a present position keeping its place and taking the new
/// sticker.
spec fn placed(moves: Seq<StickerMove>, n: int) -> Seq<(i64, StickerId)>
    decreases n,
{
    if n <= 0 {
        Seq::empty()
    } else {
        let e = placed(moves, n - 1);
        let m = moves[n - 1];
        match lookup(keys_of(e), m.1) {
            Some(i) => e.update(i as int, (e[i as int].0, m.0)),
            None => e.push((m.1, m.0)),
        }
    }
}

/// Looking a position up in such a map finds the sticker that last left it.
proof fn lemma_placed(moves: Seq<StickerMove>, n: int)
    requires
        0 <= n <= moves.len(),
        moves.len() <= usize::MAX,
    ensures
        placed(moves, n).len() <= n,
        forall|pos: i64|
            match #[trigger] lookup(keys_of(placed(moves, n)), pos) {
                Some(i) => i < placed(moves, n).len() && sticker_from(moves, pos, n) == Some(
                    placed(moves, n)[i as int].1,
                ),
                None => sticker_from(moves, pos, n) is None,
            },
    decreases n,
{
    if n > 0 {
        lemma_placed(moves, n - 1);
        let e = placed(moves, n - 1);
        let m = moves[n - 1];
        let keys = keys_of(e);
        lemma_match_found(keys, m.1, keys.len() as int);
        match lookup(keys, m.1) {
            Some(i) => {
                let e2 = e.update(i as int, (e[i as int].0, m.0));
                assert(keys_of(e2) =~= keys);
                assert forall|pos: i64|
                    match #[trigger] lookup(keys_of(e2), pos) {
                        Some(j) => j < e2.len() && sticker_from(moves, pos, n) == Some(
                            e2[j as int].1,
                        ),
                        None => sticker_from(moves, pos, n) is None,
                    } by {
                    lemma_match_found(keys, pos, keys.len() as int);
                    assert(lookup(keys, pos) == lookup(keys_of(placed(moves, n - 1)), pos));
                }
            },
            None => {
                let e2 = e.push((m.1, m.0));
                let keys2 = keys_of(e2);
                assert(keys2 =~= keys.push(m.1));
                assert forall|pos: i64|
                    match #[trigger] lookup(keys_of(e2), pos) {
                        Some(j) => j < e2.len() && sticker_from(moves, pos, n) == Some(
                            e2[j as int].1,
                        ),
                        None => sticker_from(moves, pos, n) is None,
                    } by {
                    lemma_match_prefix(keys2, keys, pos, keys.len() as int);
                    assert(lookup(keys, pos) == lookup(keys_of(placed(moves, n - 1)), pos));
                }
            },
        }
    }
}

/// A found entry belongs to the sticker, and comes before `n`.
proof fn lemma_entry_found(entries: Seq<(StickerId, i64)>, s: StickerId, n: int)
    requires
        0 <= n <= entries.len(),
    ensures
        entry_of(entries, s, n) matches Some(i) ==> 0 <= i < n && entries[i].0 == s,
    decreases n,
{
    if n > 0 {
        lemma_entry_found(entries, s, n - 1);
    }
}

/// The entry found for a sticker depends only on which sticker each entry belongs to.
proof fn lemma_entry_same_stickers(
    a: Seq<(StickerId, i64)>,
    b: Seq<(StickerId, i64)>,
    s: StickerId,
    n: int,
)
    requires
        0 <= n <= a.len(),
        n <= b.len(),
        forall|j: int| 0 <= j < n ==> (#[trigger] a[j]).0 == b[j].0,
    ensures
        entry_of(a, s, n) == entry_of(b, s, n),
    decreases n,
{
    if n > 0 {
        lemma_entry_same_stickers(a, b, s, n - 1);
    }
}

/// Every destination entry belongs to a moved sticker, so it lies within the state; there are
/// no more entries than moves.
proof fn lemma_destinations_fit(
    moves: Seq<StickerMove>,
    stickers: Seq<Sticker>,
    n_cells: nat,
    n_stickers: nat,
    n: int,
)
    requires
        0 <= n <= moves.len(),
        moves_fit(moves, stickers, n_cells, n_stickers),
    ensures
        destinations(moves, n).len() <= n,
        forall|j: int|
            0 <= j < destinations(moves, n).len() ==> {
                let s = (#[trigger] destinations(moves, n)[j]).0;
                &&& s < stickers.len()
                &&& fits(stickers[s as int], n_cells, n_stickers)
            },
    decreases n,
{
    if n > 0 {
        lemma_destinations_fit(moves, stickers, n_cells, n_stickers, n - 1);
        let e = destinations(moves, n - 1);
        lemma_entry_found(e, moves[n - 1].0, e.len() as int);
        assert(moves[n - 1].0 < stickers.len());
    }
}

/// The sticker that last left a position is a moved sticker, so it lies within the state.
proof fn lemma_sticker_from_fits(
    moves: Seq<StickerMove>,
    stickers: Seq<Sticker>,
    n_cells: nat,
    n_stickers: nat,
    pos: i64,
    n: int,
)
    requires
        0 <= n <= moves.len(),
        moves_fit(moves, stickers, n_cells, n_stickers),
    ensures
        sticker_from(moves, pos, n) matches Some(s) ==> s < stickers.len() && fits(
            stickers[s as int],
            n_cells,
            n_stickers,
        ),
    decreases n,
{
    if n > 0 {
        lemma_sticker_from_fits(moves, stickers, n_cells, n_stickers, pos, n - 1);
        assert(moves[n - 1].0 < stickers.len());
    }
}

/// Applies a twist's sticker moves to the state: each moved sticker's color goes to the sticker
/// whose position it reaches, and the change is committed. A sticker that moves more than once
/// goes to where it last arrives; a position that several stickers leave belongs to the last
/// of them. Moves to a position no sticker leaves (on the puzzle's boundary, or at infinity),
/// and moves from or to a dropped cell, change nothing. Returns the (from, to) sticker pairs
/// whose color landed on another sticker, in the order the stickers first move.
pub fn update_state(stickers: &[Sticker], state: &mut State, moves: &[StickerMove]) -> (r: Vec<
    (StickerId, StickerId),
>)
    requires
        old(state).inv(),
        moves_fit(moves@, stickers@, old(state)@.n_cells, old(state)@.n_stickers),
    ensures
        ({
            let entries = destinations(moves@, moves@.len() as int);
            let staged = carried_colors(
                old(state)@.staged,
                old(state)@.colors,
                stickers@,
                moves@,
                entries,
                entries.len() as int,
            );
            &&& final(state)@ == (StateView { colors: staged, staged, ..old(state)@ })
            &&& r@ == carried_pairs(stickers@, moves@, entries, entries.len() as int)
        }),
        final(state).inv(),
{
    let ghost mv = moves@;
    let ghost n_cells = state@.n_cells;
    let ghost n_stickers = state@.n_stickers;
    // Positions left to stickers, and stickers to the positions they reach.
    let mut old_map: NetMap<i64, StickerId> = NetMap::new();
    let mut new_map: Vec<(StickerId, i64)> = Vec::new();
    let mut new_index: HashMap<StickerId, usize> = HashMap::new();
    let mut k: usize = 0;
    while k < moves.len()
        invariant
            0 <= k <= moves.len(),
            mv == moves@,
            old_map.wf(),
            old_map@ == placed(mv, k as int),
            new_map@ == destinations(mv, k as int),
            new_map@.len() <= k,
            forall|s: StickerId|
                #![trigger new_index@.contains_key(s)]
                (new_index@.contains_key(s) <==> entry_of(new_map@, s, new_map@.len() as int) is Some)
                && (new_index@.contains_key(s) ==> entry_of(new_map@, s, new_map@.len() as int)
                == Some(new_index@[s] as int)),
        decreases moves.len() - k,
    {
        let (sticker, from, to) = moves[k];
        old_map.insert(from, sticker);
        let ghost e = new_map@;
        proof {
            lemma_entry_found(e, sticker, e.len() as int);
        }
        match new_index.get(&sticker) {
            Some(i) => {
                let i = *i;
                new_map.set(i, (sticker, to));
                proof {
                    assert forall|s: StickerId|
                        #![trigger new_index@.contains_key(s)]
                        entry_of(new_map@, s, new_map@.len() as int) == entry_of(e, s, e.len() as int) by {
                        lemma_entry_same_stickers(new_map@, e, s, e.len() as int);
                    }
                }
            },
            None => {
                new_index.insert(sticker, new_map.len());
                new_map.push((sticker, to));
                proof {
                    assert forall|s: StickerId|
                        #![trigger new_index@.contains_key(s)]
                        s != sticker ==> entry_of(new_map@, s, new_map@.len() as int) == entry_of(
                            e,
                            s,
                            e.len() as int,
                        ) by {
                        lemma_entry_same_stickers(new_map@, e, s, e.len() as int);
                    }
                }
            },
        }
        k = k + 1;
    }
    proof {
        lemma_placed(mv, mv.len() as int);
        lemma_destinations_fit(mv, stickers@, n_cells, n_stickers, mv.len() as int);
    }
    let ghost staged0 = state@.staged;
    let ghost colors0 = state@.colors;
    let mut updated: Vec<(StickerId, StickerId)> = Vec::new();
    let mut j: usize = 0;
    while j < new_map.len()
        invariant
            0 <= j <= new_map.len(),
            mv == moves@,
            new_map@ == destinations(mv, mv.len() as int),
            old_map.wf(),
            old_map@ == placed(mv, mv.len() as int),
            moves_fit(mv, stickers@, n_cells, n_stickers),
            forall|pos: i64|
                match #[trigger] lookup(keys_of(old_map@), pos) {
                    Some(i) => i < old_map@.len() && sticker_from(mv, pos, mv.len() as int) == Some(
                        old_map@[i as int].1,
                    ),
                    None => sticker_from(mv, pos, mv.len() as int) is None,
                },
            forall|t: int|
                0 <= t < new_map@.len() ==> {
                    let s = (#[trigger] new_map@[t]).0;
                    &&& s < stickers@.len()
                    &&& fits(stickers@[s as int], n_cells, n_stickers)
                },
            state.inv(),
            state@.n_cells == n_cells,
            state@.n_stickers == n_stickers,
            state@.colors == colors0,
            state@.staged == carried_colors(staged0, colors0, stickers@, mv, new_map@, j as int),
            updated@ == carried_pairs(stickers@, mv, new_map@, j as int),
        decreases new_map.len() - j,
    {
        let (sticker1, position) = new_map[j];
        assert(new_map@[j as int].0 == sticker1);
        proof {
            lemma_sticker_from_fits(mv, stickers@, n_cells, n_stickers, position, mv.len() as int);
        }
        match old_map.get(&position) {
            Some(s2) => {
                let sticker2 = *s2;
                let a = stickers[sticker1];
                let b = stickers[sticker2];
                if a.cell_index >= 0 && b.cell_index >= 0 {
                    let c1 = a.cell_index as usize;
                    let c2 = b.cell_index as usize;
                    let color = state.sticker_color_index(c1, a.sticker_index);
                    state.set_sticker_color_index(c2, b.sticker_index, color);
                    if c1 != c2 || a.sticker_index != b.sticker_index {
                        updated.push((sticker1, sticker2));
                    }
                }
            },
            None => {},
        }
        j = j + 1;
    }
    state.commit_changes();
    updated
}

/// The slaves of a cell: its row of `slaves` (rows follow the masters' indices), none for a
/// slave cell or a cell without a row.
pub open spec fn slaves_of(cells: Seq<Cell>, slaves: Seq<Vec<CellId>>, cell: int) -> Seq<CellId> {
    let i = cells[cell].index_of_master;
    if cells[cell].master is None && 0 <= i < slaves.len() {
        slaves[i as int]@
    } else {
        Seq::empty()
    }
}

/// The slaves of a master cell.
pub fn slave_cells<'a>(cells: &[Cell], slaves: &'a [Vec<CellId>], master: CellId) -> (r: &'a [CellId])
    requires
        master < cells.len(),
    ensures
        r@ == slaves_of(cells@, slaves@, master as int),
{
    let c = &cells[master];
    if c.is_master() && c.index_of_master >= 0 && (c.index_of_master as usize) < slaves.len() {
        slaves[c.index_of_master as usize].as_slice()
    } else {
        &[]
    }
}

/// The cells of the first `k` masters, each master (when `with_masters`) followed by its
/// slaves.
pub open spec fn cells_of_masters(
    cells: Seq<Cell>,
    masters: Seq<CellId>,
    slaves: Seq<Vec<CellId>>,
    with_masters: bool,
    k: int,
) -> Seq<CellId>
    decreases k,
{
    if k <= 0 {
        Seq::empty()
    } else {
        let m = masters[k - 1];
        cells_of_masters(cells, masters, slaves, with_masters, k - 1) + (if with_masters {
            seq![m]
        } else {
            Seq::empty()
        }) + slaves_of(cells, slaves, m as int)
    }
}

fn cells_under(cells: &[Cell], masters: &[CellId], slaves: &[Vec<CellId>], with_masters: bool) -> (r: Vec<
    CellId,
>)
    requires
        forall|i: int| 0 <= i < masters.len() ==> #[trigger] masters@[i] < cells.len(),
    ensures
        r@ == cells_of_masters(cells@, masters@, slaves@, with_masters, masters.len() as int),
{
    let mut r: Vec<CellId> = Vec::new();
    let mut k: usize = 0;
    while k < masters.len()
        invariant
            0 <= k <= masters.len(),
            forall|i: int| 0 <= i < masters.len() ==> #[trigger] masters@[i] < cells.len(),
            r@ == cells_of_masters(cells@, masters@, slaves@, with_masters, k as int),
        decreases masters.len() - k,
    {
        let m = masters[k];
        let ghost before = r@;
        if with_masters {
            r.push(m);
        }
        let ghost mid = r@;
        let list = slave_cells(cells, slaves, m);
        let mut j: usize = 0;
        while j < list.len()
            invariant
                0 <= j <= list.len(),
                r@ == mid + list@.take(j as int),
            decreases list.len() - j,
        {
            r.push(list[j]);
            assert(list@.take(j + 1) =~= list@.take(j as int).push(list@[j as int]));
            j = j + 1;
        }
        assert(list@.take(list.len() as int) =~= list@);
        assert(mid =~= before + (if with_masters {
            seq![m]
        } else {
            Seq::empty()
        }));
        k = k + 1;
    }
    r
}

/// All (master and slave) cells, masters first followed by their slaves.
pub fn all_cells(cells: &[Cell], masters: &[CellId], slaves: &[Vec<CellId>]) -> (r: Vec<CellId>)
    requires
        forall|i: int| 0 <= i < masters.len() ==> #[trigger] masters@[i] < cells.len(),
    ensures
        r@ == cells_of_masters(cells@, masters@, slaves@, true, masters.len() as int),
{
    cells_under(cells, masters, slaves, true)
}

/// The slaves of every master, in the masters' order.
pub fn all_slave_cells(cells: &[Cell], masters: &[CellId], slaves: &[Vec<CellId>]) -> (r: Vec<
    CellId,
>)
    requires
        forall|i: int| 0 <= i < masters.len() ==> #[trigger] masters@[i] < cells.len(),
    ensures
        r@ == cells_of_masters(cells@, masters@, slaves@, false, masters.len() as int),
{
    cells_under(cells, masters, slaves, false)
}

/// Whether a cell takes part in the state calculations (a cell past the end does not).
pub fn is_state_calc_cell(is_state_calc: &[bool], cell: CellId) -> (r: bool)
    ensures
        r == (cell < is_state_calc.len() && is_state_calc@[cell as int]),
{
    if cell < is_state_calc.len() {
        is_state_calc[cell]
    } else {
        false
    }
}

/// The lists of a sequence, one after another.
pub open spec fn flat(xs: Seq<Seq<usize>>) -> Seq<usize>
    decreases xs.len(),
{
    if xs.len() == 0 {
        Seq::empty()
    } else {
        flat(xs.drop_last()) + xs.last()
    }
}

/// The twist data of a logical twist that moves stickers: those drawn, for spherical puzzles
/// (drawn directly), else those in the state calculations.
pub open spec fn moving_twist_data(c: IdentifiedTwistData, spherical: bool) -> Seq<TwistDataId> {
    if spherical {
        c.twist_data_for_drawing@
    } else {
        c.twist_data_for_state_calcs@
    }
}

/// The stickers a logical twist moves with a slice mask, twist data by twist data.
pub open spec fn identified_stickers(
    all: Seq<IdentifiedTwistData>,
    tds: Seq<TwistData>,
    identified: usize,
    mask: i32,
    spherical: bool,
) -> Seq<usize> {
    let list = moving_twist_data(all[identified as int], spherical);
    flat(Seq::new(list.len(), |j: int| flat(tds[list[j] as int].slice_stickers(mask))))
}

/// The stickers a twist moves: those of its logical twist, then of its second one for a
/// systolic twist (both with the twist's slice mask).
pub open spec fn twist_stickers(
    all: Seq<IdentifiedTwistData>,
    tds: Seq<TwistData>,
    twist: SingleTwist,
    spherical: bool,
) -> Seq<usize> {
    identified_stickers(all, tds, twist.identified, twist.slice_mask, spherical) + match twist.identified_systolic {
        Some(i) => identified_stickers(all, tds, i, twist.slice_mask, spherical),
        None => Seq::empty(),
    }
}

/// The stickers, with those listed set twisting or not.
pub open spec fn with_twisting(stickers: Seq<Sticker>, listed: Seq<usize>, twisting: bool) -> Seq<Sticker> {
    Seq::new(
        stickers.len(),
        |s: int|
            if listed.contains(s as usize) {
                Sticker { twisting, ..stickers[s] }
            } else {
                stickers[s]
            },
    )
}

proof fn lemma_flat_step(xs: Seq<Seq<usize>>, k: int)
    requires
        0 <= k < xs.len(),
    ensures
        flat(xs.take(k + 1)) == flat(xs.take(k)) + xs[k],
{
    assert(xs.take(k + 1).drop_last() =~= xs.take(k));
}

/// The lists of a prefix come first among the lists of the whole.
proof fn lemma_flat_prefix(xs: Seq<Seq<usize>>, n: int)
    requires
        0 <= n <= xs.len(),
    ensures
        flat(xs.take(n)).len() <= flat(xs).len(),
        forall|i: int| 0 <= i < flat(xs.take(n)).len() ==> #[trigger] flat(xs.take(n))[i] == flat(xs)[i],
    decreases xs.len() - n,
{
    if n == xs.len() {
        assert(xs.take(n) =~= xs);
    } else {
        lemma_flat_step(xs, n);
        lemma_flat_prefix(xs, n + 1);
        assert forall|i: int| 0 <= i < flat(xs.take(n)).len() implies #[trigger] flat(xs.take(n))[i]
            == flat(xs)[i] by {
            assert(flat(xs.take(n + 1))[i] == flat(xs.take(n))[i]);
        }
    }
}

proof fn lemma_with_twisting_step(
    base: Seq<Sticker>,
    listed: Seq<usize>,
    twisting: bool,
    x: usize,
)
    requires
        x < base.len(),
        base.len() <= usize::MAX,
    ensures
        with_twisting(base, listed, twisting).update(
            x as int,
            Sticker { twisting, ..with_twisting(base, listed, twisting)[x as int] },
        ) =~= with_twisting(base, listed.push(x), twisting),
{
    let a = with_twisting(base, listed, twisting).update(
        x as int,
        Sticker { twisting, ..with_twisting(base, listed, twisting)[x as int] },
    );
    let b = with_twisting(base, listed.push(x), twisting);
    assert forall|s: int| 0 <= s < base.len() implies a[s] == b[s] by {
        assert(listed.push(x)[listed.len() as int] == x);
        if s != x {
            assert(listed.push(x).contains(s as usize) == listed.contains(s as usize)) by {
                if listed.push(x).contains(s as usize) {
                    let i = choose|i: int| 0 <= i < listed.len() + 1 && listed.push(x)[i] == s as usize;
                    assert(listed[i] == s as usize);
                }
                if listed.contains(s as usize) {
                    let i = choose|i: int| 0 <= i < listed.len() && listed[i] == s as usize;
                    assert(listed.push(x)[i] == s as usize);
                }
            }
        }
    }
}

/// Marks the stickers a logical twist moves as twisting or not.
fn set_identified_twisting(
    stickers: &mut Vec<Sticker>,
    all: &[IdentifiedTwistData],
    tds: &[TwistData],
    identified: usize,
    mask: i32,
    spherical: bool,
    twisting: bool,
    Ghost(base): Ghost<Seq<Sticker>>,
    Ghost(done): Ghost<Seq<usize>>,
)
    requires
        identified < all.len(),
        lists_within(all@[identified as int], tds.len() as nat),
        old(stickers)@ == with_twisting(base, done, twisting),
        base.len() <= usize::MAX,
        forall|i: int|
            0 <= i < identified_stickers(all@, tds@, identified, mask, spherical).len()
                ==> #[trigger] identified_stickers(all@, tds@, identified, mask, spherical)[i]
                < base.len(),
    ensures
        final(stickers)@ == with_twisting(
            base,
            done + identified_stickers(all@, tds@, identified, mask, spherical),
            twisting,
        ),
{
    let c = &all[identified];
    let list = if spherical {
        &c.twist_data_for_drawing
    } else {
        &c.twist_data_for_state_calcs
    };
    let ghost per_td = Seq::new(
        list@.len(),
        |j: int| flat(tds@[list@[j] as int].slice_stickers(mask)),
    );
    let ghost all_listed = identified_stickers(all@, tds@, identified, mask, spherical);
    assert(all_listed == flat(per_td));
    let mut j: usize = 0;
    assert(per_td.take(0) =~= Seq::<Seq<usize>>::empty());
    assert(done + flat(per_td.take(0)) =~= done);
    while j < list.len()
        invariant
            0 <= j <= list.len(),
            list@ == moving_twist_data(all@[identified as int], spherical),
            lists_within(all@[identified as int], tds.len() as nat),
            per_td.len() == list@.len(),
            forall|t: int| 0 <= t < list@.len() ==> #[trigger] per_td[t] == flat(tds@[list@[t] as int].slice_stickers(mask)),
            all_listed == flat(per_td),
            forall|i: int| 0 <= i < all_listed.len() ==> #[trigger] all_listed[i] < base.len(),
            stickers@ == with_twisting(base, done + flat(per_td.take(j as int)), twisting),
            base.len() <= usize::MAX,
        decreases list.len() - j,
    {
        assert(list@[j as int] < tds.len()) by {
            if spherical {
                assert(all@[identified as int].twist_data_for_drawing@[j as int] < tds.len());
            } else {
                assert(all@[identified as int].twist_data_for_state_calcs@[j as int] < tds.len());
            }
        }
        let td = &tds[list[j]];
        let lists = td.affected_stickers_for_slice_mask(mask);
        let ghost slices = td.slice_stickers(mask);
        assert(views_of(lists@) == slices);
        let ghost before = done + flat(per_td.take(j as int));
        proof {
            lemma_flat_step(per_td, j as int);
            lemma_flat_prefix(per_td, j as int + 1);
        }
        let mut k: usize = 0;
        assert(slices.take(0) =~= Seq::<Seq<usize>>::empty());
        assert(before + flat(slices.take(0)) =~= before);
        while k < lists.len()
            invariant
                0 <= k <= lists.len(),
                j < per_td.len(),
                views_of(lists@) == slices,
                slices == tds@[list@[j as int] as int].slice_stickers(mask),
                per_td[j as int] == flat(slices),
                forall|i: int| 0 <= i < flat(per_td.take(j + 1)).len() ==> #[trigger] flat(per_td.take(j + 1))[i] < base.len(),
                flat(per_td.take(j + 1)) == flat(per_td.take(j as int)) + per_td[j as int],
                before == done + flat(per_td.take(j as int)),
                stickers@ == with_twisting(base, before + flat(slices.take(k as int)), twisting),
                base.len() <= usize::MAX,
            decreases lists.len() - k,
        {
            let sl = lists[k];
            assert(sl@ == slices[k as int]);
            let ghost mid = before + flat(slices.take(k as int));
            proof {
                lemma_flat_step(slices, k as int);
                lemma_flat_prefix(slices, k as int + 1);
            }
            let mut l: usize = 0;
            assert(mid + sl@.take(0) =~= mid);
            while l < sl.len()
                invariant
                    0 <= l <= sl.len(),
                    j < per_td.len(),
                    k < slices.len(),
                    sl@ == slices[k as int],
                    flat(slices.take(k + 1)) == flat(slices.take(k as int)) + slices[k as int],
                    per_td[j as int] == flat(slices),
                    forall|i: int| 0 <= i < flat(per_td.take(j + 1)).len() ==> #[trigger] flat(per_td.take(j + 1))[i] < base.len(),
                    flat(per_td.take(j + 1)) == flat(per_td.take(j as int)) + per_td[j as int],
                    before == done + flat(per_td.take(j as int)),
                    mid == before + flat(slices.take(k as int)),
                    stickers@ == with_twisting(base, mid + sl@.take(l as int), twisting),
                    base.len() <= usize::MAX,
                decreases sl.len() - l,
            {
                let x = sl[l];
                proof {
                    lemma_flat_prefix(slices, k as int + 1);
                    lemma_flat_prefix(per_td, j as int + 1);
                    let p = flat(slices.take(k as int)).len() + l;
                    assert(flat(slices.take(k + 1))[p] == x);
                    assert(flat(slices)[p] == x);
                    assert(flat(per_td.take(j + 1))[flat(per_td.take(j as int)).len() + flat(slices.take(k as int)).len() + l] == x);
                }
                let mut st = stickers[x];
                st.twisting = twisting;
                proof {
                    lemma_with_twisting_step(base, mid + sl@.take(l as int), twisting, x);
                    assert(sl@.take(l + 1) =~= sl@.take(l as int).push(x));
                    assert(mid + sl@.take(l + 1) =~= (mid + sl@.take(l as int)).push(x));
                }
                stickers.set(x, st);
                l = l + 1;
            }
            assert(sl@.take(sl.len() as int) =~= sl@);
            assert(mid + sl@ =~= before + flat(slices.take(k + 1)));
            k = k + 1;
        }
        assert(slices.take(lists.len() as int) =~= slices);
        assert(before + flat(slices) =~= done + flat(per_td.take(j + 1)));
        j = j + 1;
    }
    assert(per_td.take(list.len() as int) =~= per_td);
}

/// Marks the stickers a twist moves (see [`twist_stickers`]) as twisting, or no longer
/// twisting; for drawing the twist as it turns.
pub fn set_twisting(
    stickers: &mut Vec<Sticker>,
    all: &[IdentifiedTwistData],
    tds: &[TwistData],
    twist: &SingleTwist,
    twisting: bool,
    spherical: bool,
)
    requires
        twist.identified < all.len(),
        lists_within(all@[twist.identified as int], tds.len() as nat),
        twist.identified_systolic matches Some(i) ==> i < all.len() && lists_within(
            all@[i as int],
            tds.len() as nat,
        ),
        forall|i: int|
            0 <= i < twist_stickers(all@, tds@, *twist, spherical).len() ==> #[trigger] twist_stickers(
                all@,
                tds@,
                *twist,
                spherical,
            )[i] < old(stickers).len(),
    ensures
        final(stickers)@ == with_twisting(
            old(stickers)@,
            twist_stickers(all@, tds@, *twist, spherical),
            twisting,
        ),
{
    let ghost base = stickers@;
    let ghost ts = twist_stickers(all@, tds@, *twist, spherical);
    let ghost first = identified_stickers(all@, tds@, twist.identified, twist.slice_mask, spherical);
    proof {
        assert(base.len() == stickers.len());
        assert(with_twisting(base, Seq::empty(), twisting) =~= base);
        assert(Seq::<usize>::empty() + first =~= first);
        assert forall|i: int| 0 <= i < first.len() implies #[trigger] first[i] < base.len() by {
            assert(ts[i] == first[i]);
        }
    }
    set_identified_twisting(
        stickers,
        all,
        tds,
        twist.identified,
        twist.slice_mask,
        spherical,
        twisting,
        Ghost(base),
        Ghost(Seq::empty()),
    );
    match twist.identified_systolic {
        Some(i) => {
            let ghost second = identified_stickers(all@, tds@, i, twist.slice_mask, spherical);
            proof {
                assert forall|t: int| 0 <= t < second.len() implies #[trigger] second[t] < base.len() by {
                    assert(ts[first.len() + t] == second[t]);
                }
            }
            set_identified_twisting(
                stickers,
                all,
                tds,
                i,
                twist.slice_mask,
                spherical,
                twisting,
                Ghost(base),
                Ghost(first),
            );
        },
        None => {
            assert(first =~= ts);
        },
    }
}

/// How many of the first `k` neighbors of `master` toggle row `i`.
spec fn toggle_hits(cells: Seq<Cell>, master: int, k: int, with_self: bool, i: int) -> nat
    decreases k,
{
    if k <= 0 {
        0
    } else {
        let nb = cells[master].neighbors@[k - 1] as int;
        let hit = (nb != master || with_self) && cells[nb].index_of_master as int == i && i >= 0;
        toggle_hits(cells, master, k - 1, with_self, i) + if hit {
            1nat
        } else {
            0nat
        }
    }
}

/// Every row has a first sticker, on (its row's color) or off.
pub open spec fn lights(staged: Seq<Seq<i32>>) -> bool {
    forall|i: int|
        0 <= i < staged.len() ==> #[trigger] staged[i].len() > 0 && (staged[i][0] == OFF_COLOR
            || staged[i][0] == i as i32)
}

/// After toggling the first `k` neighbors, a row is flipped when it was toggled an odd number of
/// times, and as it was otherwise.
proof fn lemma_toggled_rows(
    staged: Seq<Seq<i32>>,
    cells: Seq<Cell>,
    master: int,
    k: int,
    with_self: bool,
)
    requires
        0 <= master < cells.len(),
        0 <= k <= cells[master].neighbors.len(),
        neighbors_within(cells, master, staged.len()),
        lights(staged),
        staged.len() <= i32::MAX,
    ensures
        toggled(staged, cells, master, k, with_self).len() == staged.len(),
        forall|i: int|
            0 <= i < staged.len() ==> #[trigger] toggled(staged, cells, master, k, with_self)[i]
                == if toggle_hits(cells, master, k, with_self, i) % 2 == 1 {
                staged[i].update(0, toggled_color(staged[i][0], i))
            } else {
                staged[i]
            },
    decreases k,
{
    if k > 0 {
        lemma_toggled_rows(staged, cells, master, k - 1, with_self);
        let before = toggled(staged, cells, master, k - 1, with_self);
        let nb = cells[master].neighbors@[k - 1] as int;
        assert(nb < cells.len() && cells[nb].index_of_master < staged.len());
        let j = cells[nb].index_of_master as int;
        assert forall|i: int| 0 <= i < staged.len() implies #[trigger] toggled(
            staged,
            cells,
            master,
            k,
            with_self,
        )[i] == if toggle_hits(cells, master, k, with_self, i) % 2 == 1 {
            staged[i].update(0, toggled_color(staged[i][0], i))
        } else {
            staged[i]
        } by {
            if (nb != master || with_self) && j >= 0 && i == j {
                let s0 = staged[i][0];
                if toggle_hits(cells, master, k - 1, with_self, i) % 2 == 1 {
                    assert(before[i][0] == toggled_color(s0, i));
                    assert(toggled_color(toggled_color(s0, i), i) == s0);
                    assert(before[i].update(0, s0) =~= staged[i]);
                }
            }
        }
    }
}

/// Toggling a cell twice puts every light back as it was: a lights-on move undoes itself.
pub proof fn lemma_toggle_twice(
    staged: Seq<Seq<i32>>,
    cells: Seq<Cell>,
    master: int,
    with_self: bool,
)
    requires
        0 <= master < cells.len(),
        neighbors_within(cells, master, staged.len()),
        lights(staged),
        staged.len() <= i32::MAX,
    ensures
        ({
            let n = cells[master].neighbors.len() as int;
            toggled(toggled(staged, cells, master, n, with_self), cells, master, n, with_self)
                == staged
        }),
{
    let n = cells[master].neighbors.len() as int;
    let once = toggled(staged, cells, master, n, with_self);
    lemma_toggled_rows(staged, cells, master, n, with_self);
    assert(lights(once)) by {
        assert forall|i: int| 0 <= i < once.len() implies #[trigger] once[i].len() > 0 && (
        once[i][0] == OFF_COLOR || once[i][0] == i as i32) by {
            assert(staged[i].len() > 0);
        }
    }
    lemma_toggled_rows(once, cells, master, n, with_self);
    let twice = toggled(once, cells, master, n, with_self);
    assert forall|i: int| 0 <= i < staged.len() implies #[trigger] twice[i] == staged[i] by {
        if toggle_hits(cells, master, n, with_self, i) % 2 == 1 {
            let s0 = staged[i][0];
            assert(staged[i].len() > 0 && (s0 == OFF_COLOR || s0 == i as i32));
            assert(toggled_color(toggled_color(s0, i), i) == s0);
            assert(staged[i].update(0, toggled_color(s0, i)).update(0, s0) =~= staged[i]);
        }
    }
    assert(twice =~= staged);
}

/// Some move leaves position `p`.
#[verifier::opaque]
pub open spec fn leaves(moves: Seq<StickerMove>, p: i64) -> bool {
    exists|j: int| 0 <= j < moves.len() && moves[j].1 == p
}

/// Some move reaches position `p`.
#[verifier::opaque]
pub open spec fn reaches(moves: Seq<StickerMove>, p: i64) -> bool {
    exists|i: int| 0 <= i < moves.len() && moves[i].2 == p
}

/// The moves permute positions: no sticker moves twice, no position is left twice or reached
/// twice, and the positions reached are the positions left.
#[verifier::opaque]
pub open spec fn permutes(moves: Seq<StickerMove>) -> bool {
    &&& forall|i: int, j: int|
        0 <= i < moves.len() && 0 <= j < moves.len() && i != j ==> {
            &&& (#[trigger] moves[i]).0 != (#[trigger] moves[j]).0
            &&& moves[i].1 != moves[j].1
            &&& moves[i].2 != moves[j].2
        }
    &&& forall|i: int| 0 <= i < moves.len() ==> #[trigger] leaves(moves, moves[i].2)
    &&& forall|j: int| 0 <= j < moves.len() ==> #[trigger] reaches(moves, moves[j].1)
}

/// `back` reverses `moves`: the same stickers leave the same positions, in the same order, and
/// each goes back to where the sticker that reached its position came from.
#[verifier::opaque]
pub open spec fn reverses(back: Seq<StickerMove>, moves: Seq<StickerMove>) -> bool {
    &&& back.len() == moves.len()
    &&& forall|i: int|
        0 <= i < moves.len() ==> (#[trigger] back[i]).0 == moves[i].0 && back[i].1 == moves[i].1
    &&& forall|i: int, j: int|
        0 <= i < moves.len() && 0 <= j < moves.len() && (#[trigger] moves[i]).2 == (#[trigger] moves[j]).1
            ==> back[j].2 == moves[i].1
}

/// Every moved sticker lies on a kept cell, within the state, and no two share a place.
#[verifier::opaque]
pub open spec fn on_own_places(
    moves: Seq<StickerMove>,
    stickers: Seq<Sticker>,
    n_cells: nat,
    n_stickers: nat,
) -> bool {
    &&& moves_fit(moves, stickers, n_cells, n_stickers)
    &&& forall|i: int|
        0 <= i < moves.len() ==> stickers[(#[trigger] moves[i]).0 as int].cell_index >= 0
    &&& forall|i: int, j: int|
        0 <= i < moves.len() && 0 <= j < moves.len() && i != j ==> place(stickers, (#[trigger] moves[i]).0)
            != place(stickers, (#[trigger] moves[j]).0)
}

/// The three parts of a permutation make one.
proof fn lemma_permutes_intro(moves: Seq<StickerMove>)
    requires
        forall|i: int, j: int|
            0 <= i < moves.len() && 0 <= j < moves.len() && i != j ==> {
                &&& (#[trigger] moves[i]).0 != (#[trigger] moves[j]).0
                &&& moves[i].1 != moves[j].1
                &&& moves[i].2 != moves[j].2
            },
        forall|i: int| 0 <= i < moves.len() ==> #[trigger] leaves(moves, moves[i].2),
        forall|j: int| 0 <= j < moves.len() ==> #[trigger] reaches(moves, moves[j].1),
    ensures
        permutes(moves),
{
    reveal(permutes);
}

proof fn lemma_perm_distinct(moves: Seq<StickerMove>, i: int, j: int)
    requires
        permutes(moves),
        0 <= i < moves.len(),
        0 <= j < moves.len(),
        i != j,
    ensures
        moves[i].0 != moves[j].0,
        moves[i].1 != moves[j].1,
        moves[i].2 != moves[j].2,
{
    reveal(permutes);
    assert(moves[i].0 != moves[j].0);
}

/// The move whose position a move reaches.
proof fn lemma_perm_reaches(moves: Seq<StickerMove>, i: int) -> (j: int)
    requires
        permutes(moves),
        0 <= i < moves.len(),
    ensures
        0 <= j < moves.len(),
        moves[i].2 == moves[j].1,
{
    reveal(permutes);
    assert(leaves(moves, moves[i].2));
    reveal(leaves);
    choose|j: int| 0 <= j < moves.len() && moves[j].1 == moves[i].2
}

/// The move that reaches a move's position.
proof fn lemma_perm_reached_by(moves: Seq<StickerMove>, j: int) -> (i: int)
    requires
        permutes(moves),
        0 <= j < moves.len(),
    ensures
        0 <= i < moves.len(),
        moves[i].2 == moves[j].1,
{
    reveal(permutes);
    assert(reaches(moves, moves[j].1));
    reveal(reaches);
    choose|i: int| 0 <= i < moves.len() && moves[i].2 == moves[j].1
}

proof fn lemma_rev_same(back: Seq<StickerMove>, moves: Seq<StickerMove>, i: int)
    requires
        reverses(back, moves),
        0 <= i < moves.len(),
    ensures
        back.len() == moves.len(),
        back[i].0 == moves[i].0,
        back[i].1 == moves[i].1,
{
    reveal(reverses);
    assert(back[i].0 == moves[i].0);
}

proof fn lemma_rev_back(back: Seq<StickerMove>, moves: Seq<StickerMove>, i: int, j: int)
    requires
        reverses(back, moves),
        0 <= i < moves.len(),
        0 <= j < moves.len(),
        moves[i].2 == moves[j].1,
    ensures
        back[j].2 == moves[i].1,
{
    reveal(reverses);
    assert(moves[i].2 == moves[j].1);
}

proof fn lemma_own_place(
    moves: Seq<StickerMove>,
    stickers: Seq<Sticker>,
    n_cells: nat,
    n_stickers: nat,
    i: int,
)
    requires
        on_own_places(moves, stickers, n_cells, n_stickers),
        0 <= i < moves.len(),
    ensures
        moves[i].0 < stickers.len(),
        stickers[moves[i].0 as int].cell_index >= 0,
        0 <= place(stickers, moves[i].0).0 < n_cells,
        0 <= place(stickers, moves[i].0).1 < n_stickers,
{
    reveal(on_own_places);
    assert(stickers[moves[i].0 as int].cell_index >= 0);
    assert(moves[i].0 < stickers.len());
}

proof fn lemma_own_places_differ(
    moves: Seq<StickerMove>,
    stickers: Seq<Sticker>,
    n_cells: nat,
    n_stickers: nat,
    i: int,
    j: int,
)
    requires
        on_own_places(moves, stickers, n_cells, n_stickers),
        0 <= i < moves.len(),
        0 <= j < moves.len(),
        i != j,
    ensures
        place(stickers, moves[i].0) != place(stickers, moves[j].0),
{
    reveal(on_own_places);
    assert(place(stickers, moves[i].0) != place(stickers, moves[j].0));
}

/// Where a sticker lies in the state: its cell and its index there.
pub open spec fn place(stickers: Seq<Sticker>, s: StickerId) -> (int, int) {
    (stickers[s as int].cell_index as int, stickers[s as int].sticker_index as int)
}

/// Whether entry `i` carries a color to the place (c, x).
spec fn hits(
    stickers: Seq<Sticker>,
    moves: Seq<StickerMove>,
    entries: Seq<(StickerId, i64)>,
    i: int,
    c: int,
    x: int,
) -> bool {
    carried(stickers, moves, entries[i]) matches Some(p) && place(stickers, p.1) == (c, x)
}

/// The last of the first `k` entries that carries a color to the place (c, x).
spec fn last_hit(
    stickers: Seq<Sticker>,
    moves: Seq<StickerMove>,
    entries: Seq<(StickerId, i64)>,
    k: int,
    c: int,
    x: int,
) -> Option<int>
    decreases k,
{
    if k <= 0 {
        None
    } else if hits(stickers, moves, entries, k - 1, c, x) {
        Some(k - 1)
    } else {
        last_hit(stickers, moves, entries, k - 1, c, x)
    }
}

/// Every color carried comes from and goes to a place within the state.
spec fn carries_within(
    stickers: Seq<Sticker>,
    moves: Seq<StickerMove>,
    entries: Seq<(StickerId, i64)>,
    n_cells: nat,
    n_stickers: nat,
) -> bool {
    forall|i: int|
        0 <= i < entries.len() ==> match #[trigger] carried(stickers, moves, entries[i]) {
            Some(p) => {
                &&& 0 <= place(stickers, p.0).0 < n_cells
                &&& 0 <= place(stickers, p.0).1 < n_stickers
                &&& 0 <= place(stickers, p.1).0 < n_cells
                &&& 0 <= place(stickers, p.1).1 < n_stickers
            },
            None => true,
        }
}

/// Place by place, the colors after carrying: the source color of the last entry that reaches
/// the place, or the staged color where none does.
proof fn lemma_carried_places(
    staged: Seq<Seq<i32>>,
    colors: Seq<Seq<i32>>,
    stickers: Seq<Sticker>,
    moves: Seq<StickerMove>,
    entries: Seq<(StickerId, i64)>,
    k: int,
    n_cells: nat,
    n_stickers: nat,
)
    requires
        0 <= k <= entries.len(),
        rows_of(staged, n_cells, n_stickers),
        carries_within(stickers, moves, entries, n_cells, n_stickers),
    ensures
        rows_of(carried_colors(staged, colors, stickers, moves, entries, k), n_cells, n_stickers),
        forall|c: int, x: int|
            0 <= c < n_cells && 0 <= x < n_stickers ==> #[trigger] carried_colors(
                staged,
                colors,
                stickers,
                moves,
                entries,
                k,
            )[c][x] == match last_hit(stickers, moves, entries, k, c, x) {
                Some(i) => {
                    let p0 = place(stickers, entries[i].0);
                    colors[p0.0][p0.1]
                },
                None => staged[c][x],
            },
    decreases k,
{
    if k > 0 {
        lemma_carried_places(staged, colors, stickers, moves, entries, k - 1, n_cells, n_stickers);
        let before = carried_colors(staged, colors, stickers, moves, entries, k - 1);
        let r = carried_colors(staged, colors, stickers, moves, entries, k);
        match carried(stickers, moves, entries[k - 1]) {
            Some(p) => {
                let (a, b) = (stickers[p.0 as int], stickers[p.1 as int]);
                assert(p.0 == entries[k - 1].0);
                assert forall|c: int| 0 <= c < n_cells implies #[trigger] r[c].len() == n_stickers by {
                    assert(before[c].len() == n_stickers);
                }
                assert forall|c: int, x: int|
                    0 <= c < n_cells && 0 <= x < n_stickers implies #[trigger] r[c][x] == match last_hit(
                        stickers,
                        moves,
                        entries,
                        k,
                        c,
                        x,
                    ) {
                        Some(i) => {
                            let p0 = place(stickers, entries[i].0);
                            colors[p0.0][p0.1]
                        },
                        None => staged[c][x],
                    } by {
                    assert(before[c][x] == match last_hit(stickers, moves, entries, k - 1, c, x) {
                        Some(i) => {
                            let p0 = place(stickers, entries[i].0);
                            colors[p0.0][p0.1]
                        },
                        None => staged[c][x],
                    });
                }
            },
            None => {},
        }
    }
}

/// The last hit is the only one.
proof fn lemma_only_hit(
    stickers: Seq<Sticker>,
    moves: Seq<StickerMove>,
    entries: Seq<(StickerId, i64)>,
    k: int,
    c: int,
    x: int,
    i: int,
)
    requires
        0 <= i < k,
        hits(stickers, moves, entries, i, c, x),
        forall|j: int| 0 <= j < k && j != i ==> !hits(stickers, moves, entries, j, c, x),
    ensures
        last_hit(stickers, moves, entries, k, c, x) == Some(i),
    decreases k,
{
    if k - 1 != i {
        lemma_only_hit(stickers, moves, entries, k - 1, c, x, i);
    }
}

/// No hit, no last hit.
proof fn lemma_no_hit(
    stickers: Seq<Sticker>,
    moves: Seq<StickerMove>,
    entries: Seq<(StickerId, i64)>,
    k: int,
    c: int,
    x: int,
)
    requires
        forall|j: int| 0 <= j < k ==> !hits(stickers, moves, entries, j, c, x),
    ensures
        last_hit(stickers, moves, entries, k, c, x) is None,
    decreases k,
{
    if k > 0 {
        lemma_no_hit(stickers, moves, entries, k - 1, c, x);
    }
}

/// When no sticker moves twice, each moves once, straight to where it goes.
proof fn lemma_destinations_once(moves: Seq<StickerMove>, k: int)
    requires
        0 <= k <= moves.len(),
        permutes(moves),
    ensures
        destinations(moves, k) == Seq::new(k as nat, |i: int| (moves[i].0, moves[i].2)),
    decreases k,
{
    if k > 0 {
        lemma_destinations_once(moves, k - 1);
        let e = destinations(moves, k - 1);
        assert forall|j: int| 0 <= j < e.len() implies (#[trigger] e[j]).0 != moves[k - 1].0 by {
            lemma_perm_distinct(moves, j, k - 1);
        }
        lemma_entry_absent(e, moves[k - 1].0, e.len() as int);
        assert(destinations(moves, k) =~= Seq::new(k as nat, |i: int| (moves[i].0, moves[i].2)));
    }
}

/// An entry is found only for a sticker that has one.
proof fn lemma_entry_absent(entries: Seq<(StickerId, i64)>, s: StickerId, n: int)
    requires
        0 <= n <= entries.len(),
        forall|j: int| 0 <= j < n ==> (#[trigger] entries[j]).0 != s,
    ensures
        entry_of(entries, s, n) is None,
    decreases n,
{
    if n > 0 {
        lemma_entry_absent(entries, s, n - 1);
    }
}

/// When no position is left twice, the sticker that left a position is the one that did.
proof fn lemma_sticker_from_unique(moves: Seq<StickerMove>, j: int, n: int)
    requires
        0 <= j < n <= moves.len(),
        permutes(moves),
    ensures
        sticker_from(moves, moves[j].1, n) == Some(moves[j].0),
    decreases n,
{
    if n - 1 != j {
        lemma_perm_distinct(moves, n - 1, j);
        lemma_sticker_from_unique(moves, j, n - 1);
    }
}

/// A move of a permutation carries its sticker's color to the sticker whose position it reaches.
proof fn lemma_carry_of(
    stickers: Seq<Sticker>,
    moves: Seq<StickerMove>,
    n_cells: nat,
    n_stickers: nat,
    i: int,
    j: int,
)
    requires
        permutes(moves),
        on_own_places(moves, stickers, n_cells, n_stickers),
        0 <= i < moves.len(),
        0 <= j < moves.len(),
        moves[i].2 == moves[j].1,
    ensures
        carried(stickers, moves, (moves[i].0, moves[i].2)) == Some((moves[i].0, moves[j].0)),
        0 <= place(stickers, moves[i].0).0 < n_cells,
        0 <= place(stickers, moves[i].0).1 < n_stickers,
        0 <= place(stickers, moves[j].0).0 < n_cells,
        0 <= place(stickers, moves[j].0).1 < n_stickers,
{
    lemma_sticker_from_unique(moves, j, moves.len() as int);
    lemma_own_place(moves, stickers, n_cells, n_stickers, i);
    lemma_own_place(moves, stickers, n_cells, n_stickers, j);
}

/// Carrying the colors of a permutation of positions: each moved sticker's place takes the
/// color of the sticker that reaches its position; the other places keep theirs.
proof fn lemma_permuting_carry(
    colors: Seq<Seq<i32>>,
    n_cells: nat,
    n_stickers: nat,
    stickers: Seq<Sticker>,
    moves: Seq<StickerMove>,
)
    requires
        rows_of(colors, n_cells, n_stickers),
        permutes(moves),
        on_own_places(moves, stickers, n_cells, n_stickers),
    ensures
        ({
            let e = destinations(moves, moves.len() as int);
            let r = carried_colors(colors, colors, stickers, moves, e, e.len() as int);
            &&& rows_of(r, n_cells, n_stickers)
            &&& forall|c: int, x: int|
                0 <= c < n_cells && 0 <= x < n_stickers && (forall|j: int|
                    0 <= j < moves.len() ==> place(stickers, (#[trigger] moves[j]).0) != (c, x))
                    ==> #[trigger] r[c][x] == colors[c][x]
            &&& forall|i: int, j: int|
                0 <= i < moves.len() && 0 <= j < moves.len() && moves[i].2 == moves[j].1
                    ==> #[trigger] r[place(stickers, moves[j].0).0][place(stickers, moves[j].0).1]
                    == #[trigger] colors[place(stickers, moves[i].0).0][place(stickers, moves[i].0).1]
        }),
{
    let n = moves.len() as int;
    lemma_destinations_once(moves, n);
    let e = destinations(moves, n);
    assert(e.len() == n);
    let r = carried_colors(colors, colors, stickers, moves, e, n);
    assert(carries_within(stickers, moves, e, n_cells, n_stickers)) by {
        assert forall|i: int| 0 <= i < e.len() implies match #[trigger] carried(stickers, moves, e[i]) {
            Some(p) => {
                &&& 0 <= place(stickers, p.0).0 < n_cells
                &&& 0 <= place(stickers, p.0).1 < n_stickers
                &&& 0 <= place(stickers, p.1).0 < n_cells
                &&& 0 <= place(stickers, p.1).1 < n_stickers
            },
            None => true,
        } by {
            let j = lemma_perm_reaches(moves, i);
            lemma_carry_of(stickers, moves, n_cells, n_stickers, i, j);
        }
    }
    lemma_carried_places(colors, colors, stickers, moves, e, n, n_cells, n_stickers);
    assert forall|c: int, x: int|
        0 <= c < n_cells && 0 <= x < n_stickers && (forall|j: int|
            0 <= j < moves.len() ==> place(stickers, (#[trigger] moves[j]).0) != (c, x)) implies #[trigger] r[c][x]
        == colors[c][x] by {
        assert forall|i: int| 0 <= i < n implies !hits(stickers, moves, e, i, c, x) by {
            let j = lemma_perm_reaches(moves, i);
            lemma_carry_of(stickers, moves, n_cells, n_stickers, i, j);
            assert(place(stickers, moves[j].0) != (c, x));
        }
        lemma_no_hit(stickers, moves, e, n, c, x);
    }
    assert forall|i: int, j: int|
        0 <= i < moves.len() && 0 <= j < moves.len() && moves[i].2 == moves[j].1 implies #[trigger] r[place(
        stickers,
        moves[j].0,
    ).0][place(stickers, moves[j].0).1] == #[trigger] colors[place(stickers, moves[i].0).0][place(
        stickers,
        moves[i].0,
    ).1] by {
        let pl = place(stickers, moves[j].0);
        lemma_carry_of(stickers, moves, n_cells, n_stickers, i, j);
        assert(hits(stickers, moves, e, i, pl.0, pl.1));
        assert forall|i2: int| 0 <= i2 < n && i2 != i implies !hits(stickers, moves, e, i2, pl.0, pl.1) by {
            let j2 = lemma_perm_reaches(moves, i2);
            lemma_carry_of(stickers, moves, n_cells, n_stickers, i2, j2);
            if j2 != j {
                lemma_own_places_differ(moves, stickers, n_cells, n_stickers, j2, j);
            } else {
                lemma_perm_distinct(moves, i2, i);
            }
        }
        lemma_only_hit(stickers, moves, e, n, pl.0, pl.1, i);
    }
}

/// The reverse of a permutation of positions permutes them too, with the same stickers on the
/// same places.
proof fn lemma_reverse_permutes(
    back: Seq<StickerMove>,
    moves: Seq<StickerMove>,
    stickers: Seq<Sticker>,
    n_cells: nat,
    n_stickers: nat,
)
    requires
        permutes(moves),
        reverses(back, moves),
        on_own_places(moves, stickers, n_cells, n_stickers),
    ensures
        permutes(back),
        on_own_places(back, stickers, n_cells, n_stickers),
{
    let n = moves.len() as int;
    assert(back.len() == n) by {
        reveal(reverses);
    }
    assert forall|i: int, j: int| 0 <= i < n && 0 <= j < n && i != j implies {
        &&& (#[trigger] back[i]).0 != (#[trigger] back[j]).0
        &&& back[i].1 != back[j].1
        &&& back[i].2 != back[j].2
    } by {
        lemma_perm_distinct(moves, i, j);
        lemma_rev_same(back, moves, i);
        lemma_rev_same(back, moves, j);
        let ai = lemma_perm_reached_by(moves, i);
        let aj = lemma_perm_reached_by(moves, j);
        lemma_rev_back(back, moves, ai, i);
        lemma_rev_back(back, moves, aj, j);
        if ai != aj {
            lemma_perm_distinct(moves, ai, aj);
        }
    }
    assert forall|i: int| 0 <= i < n implies #[trigger] leaves(back, back[i].2) by {
        let a = lemma_perm_reached_by(moves, i);
        lemma_rev_back(back, moves, a, i);
        lemma_rev_same(back, moves, a);
        reveal(leaves);
        assert(back[a].1 == back[i].2);
    }
    assert forall|j: int| 0 <= j < n implies #[trigger] reaches(back, back[j].1) by {
        let k = lemma_perm_reaches(moves, j);
        lemma_rev_back(back, moves, j, k);
        lemma_rev_same(back, moves, j);
        reveal(reaches);
        assert(back[k].2 == back[j].1);
    }
    lemma_permutes_intro(back);
    assert forall|i: int| 0 <= i < n implies {
        let s = (#[trigger] back[i]).0;
        &&& s < stickers.len()
        &&& fits(stickers[s as int], n_cells, n_stickers)
    } by {
        lemma_rev_same(back, moves, i);
        lemma_own_place(moves, stickers, n_cells, n_stickers, i);
    }
    assert forall|i: int| 0 <= i < n implies stickers[(#[trigger] back[i]).0 as int].cell_index >= 0 by {
        lemma_rev_same(back, moves, i);
        lemma_own_place(moves, stickers, n_cells, n_stickers, i);
    }
    assert forall|i: int, j: int| 0 <= i < n && 0 <= j < n && i != j implies place(
        stickers,
        (#[trigger] back[i]).0,
    ) != place(stickers, (#[trigger] back[j]).0) by {
        lemma_rev_same(back, moves, i);
        lemma_rev_same(back, moves, j);
        lemma_own_places_differ(moves, stickers, n_cells, n_stickers, i, j);
    }
    assert(on_own_places(back, stickers, n_cells, n_stickers)) by {
        reveal(on_own_places);
    }
}

/// A twist that permutes positions, followed by the twist that reverses it, leaves every color
/// as it was (the state's changes committed: what [`update_state`] does to its colors, twice).
pub proof fn lemma_twist_then_reverse(
    colors: Seq<Seq<i32>>,
    n_cells: nat,
    n_stickers: nat,
    stickers: Seq<Sticker>,
    moves: Seq<StickerMove>,
    back: Seq<StickerMove>,
)
    requires
        rows_of(colors, n_cells, n_stickers),
        permutes(moves),
        reverses(back, moves),
        on_own_places(moves, stickers, n_cells, n_stickers),
    ensures
        ({
            let e = destinations(moves, moves.len() as int);
            let once = carried_colors(colors, colors, stickers, moves, e, e.len() as int);
            let f = destinations(back, back.len() as int);
            carried_colors(once, once, stickers, back, f, f.len() as int) == colors
        }),
{
    let n = moves.len() as int;
    lemma_reverse_permutes(back, moves, stickers, n_cells, n_stickers);
    assert(back.len() == n) by {
        reveal(reverses);
    }
    let e = destinations(moves, n);
    lemma_permuting_carry(colors, n_cells, n_stickers, stickers, moves);
    let once = carried_colors(colors, colors, stickers, moves, e, e.len() as int);
    let f = destinations(back, n);
    lemma_permuting_carry(once, n_cells, n_stickers, stickers, back);
    let twice = carried_colors(once, once, stickers, back, f, f.len() as int);
    assert forall|c: int| 0 <= c < n_cells implies #[trigger] twice[c] =~= colors[c] by {
        assert forall|x: int| 0 <= x < n_stickers implies #[trigger] twice[c][x] == colors[c][x] by {
            if exists|j: int| 0 <= j < n && place(stickers, (#[trigger] moves[j]).0) == (c, x) {
                let j = choose|j: int| 0 <= j < n && place(stickers, (#[trigger] moves[j]).0) == (c, x);
                let k = lemma_perm_reaches(moves, j);
                lemma_rev_back(back, moves, j, k);
                lemma_rev_same(back, moves, j);
                lemma_rev_same(back, moves, k);
                assert(back[k].2 == back[j].1);
                assert(twice[place(stickers, back[j].0).0][place(stickers, back[j].0).1]
                    == once[place(stickers, back[k].0).0][place(stickers, back[k].0).1]);
                assert(once[place(stickers, moves[k].0).0][place(stickers, moves[k].0).1]
                    == colors[place(stickers, moves[j].0).0][place(stickers, moves[j].0).1]);
            } else {
                assert forall|j: int| 0 <= j < n implies place(stickers, (#[trigger] back[j]).0) != (c, x) by {
                    lemma_rev_same(back, moves, j);
                }
                assert(twice[c][x] == once[c][x]);
            }
        }
    }
    assert(twice =~= colors);
}

} // verus!
