//! Puzzle state: the color (index) of every sticker on every master cell.

use crate::text::{
    append_chars, chars_of, hex2_chars, radix_chars, hex2_text, int_chars, int_text, parse_int, parse_int_chars,
    string_of, trim, trim_chars, CharClass,
};
use crate::xml::{node_text, children_named, XElement, XmlDocument};
use vstd::prelude::*;

verus! {

/// The color index used for "off" stickers in toggling (lights on) puzzles.
pub const OFF_COLOR: i32 = -1;

/// The colors of every sticker: committed (`colors`) and staged changes (`staged`), one row of
/// `n_stickers` per cell.
pub struct StateView {
    pub n_cells: nat,
    pub n_stickers: nat,
    pub colors: Seq<Seq<i32>>,
    pub staged: Seq<Seq<i32>>,
}

/// Every row of a table has `m` entries.
pub open spec fn rows_of(t: Seq<Seq<i32>>, n: nat, m: nat) -> bool {
    t.len() == n && forall|c: int| 0 <= c < n ==> #[trigger] t[c].len() == m
}

/// The solved coloring: every sticker of cell `c` has color `c`.
pub open spec fn solved_rows(n: nat, m: nat) -> Seq<Seq<i32>> {
    Seq::new(n, |c: int| Seq::new(m, |s: int| c as i32))
}

impl StateView {
    pub open spec fn color(self, cell: int, sticker: int) -> i32 {
        self.colors[cell][sticker]
    }

    /// Every cell a single color.
    pub open spec fn solved(self) -> bool {
        forall|c: int, s: int|
            0 <= c < self.n_cells && 0 <= s < self.n_stickers ==> #[trigger] self.colors[c][s]
                == self.colors[c][0]
    }

    /// Everything back on: the solved coloring.
    pub open spec fn all_on(self) -> bool {
        forall|c: int, s: int|
            0 <= c < self.n_cells && 0 <= s < self.n_stickers ==> #[trigger] self.colors[c][s]
                == c as i32
    }

    pub open spec fn wf(self) -> bool {
        rows_of(self.colors, self.n_cells, self.n_stickers) && rows_of(
            self.staged,
            self.n_cells,
            self.n_stickers,
        )
    }
}

pub struct State {
    n_cells: usize,
    n_stickers: usize,
    // Indexed by cell, then sticker. Changes go into `copy` and are then committed.
    state: Vec<Vec<i32>>,
    copy: Vec<Vec<i32>>,
    original: Vec<Vec<i32>>,
}

pub open spec fn rows_view(t: Seq<Vec<i32>>) -> Seq<Seq<i32>> {
    t.map_values(|r: Vec<i32>| r@)
}

impl View for State {
    type V = StateView;

    closed spec fn view(&self) -> StateView {
        StateView {
            n_cells: self.n_cells as nat,
            n_stickers: self.n_stickers as nat,
            colors: rows_view(self.state@),
            staged: rows_view(self.copy@),
        }
    }
}

proof fn lemma_rows(t: Seq<Vec<i32>>, n: nat, m: nat)
    requires
        t.len() == n,
        forall|c: int| 0 <= c < n ==> #[trigger] t[c]@.len() == m,
    ensures
        rows_of(rows_view(t), n, m),
{
    assert forall|c: int| 0 <= c < n implies #[trigger] rows_view(t)[c].len() == m by {
        assert(rows_view(t)[c] == t[c]@);
    }
}

/// A row of `m` copies of `c`.
fn row_of(c: i32, m: usize) -> (r: Vec<i32>)
    ensures
        r@ == Seq::new(m as nat, |s: int| c),
{
    let mut r: Vec<i32> = Vec::new();
    let mut i: usize = 0;
    while i < m
        invariant
            0 <= i <= m,
            r@ == Seq::new(i as nat, |s: int| c),
        decreases m - i,
    {
        r.push(c);
        i = i + 1;
        assert(r@ =~= Seq::new(i as nat, |s: int| c));
    }
    r
}

fn copy_row(row: &Vec<i32>) -> (r: Vec<i32>)
    ensures
        r@ == row@,
{
    let mut r: Vec<i32> = Vec::new();
    let mut i: usize = 0;
    while i < row.len()
        invariant
            0 <= i <= row@.len(),
            r@ == row@.take(i as int),
        decreases row.len() - i,
    {
        r.push(row[i]);
        i = i + 1;
        assert(r@ =~= row@.take(i as int));
    }
    assert(row@.take(row@.len() as int) =~= row@);
    r
}

fn solved_table(n: usize, m: usize) -> (r: Vec<Vec<i32>>)
    ensures
        rows_view(r@) == solved_rows(n as nat, m as nat),
        r@.len() == n,
{
    let mut r: Vec<Vec<i32>> = Vec::new();
    let mut c: usize = 0;
    while c < n
        invariant
            0 <= c <= n,
            r@.len() == c,
            rows_view(r@) == solved_rows(c as nat, m as nat),
        decreases n - c,
    {
        let row = row_of(c as i32, m);
        let ghost prev = r@;
        let ghost rv = row@;
        r.push(row);
        c = c + 1;
        assert forall|k: int| 0 <= k < c implies #[trigger] rows_view(r@)[k] =~= solved_rows(
            c as nat,
            m as nat,
        )[k] by {
            if k < c - 1 {
                assert(r@[k] == prev[k]);
                assert(rows_view(prev)[k] == solved_rows((c - 1) as nat, m as nat)[k]);
            } else {
                assert(r@[k]@ == rv);
            }
        }
        assert(rows_view(r@) =~= solved_rows(c as nat, m as nat));
    }
    r
}

impl State {
    /// The tables hold `n_cells` rows of `n_stickers`, and the original coloring is solved.
    pub closed spec fn inv(self) -> bool {
        &&& self.state@.len() == self.n_cells
        &&& self.copy@.len() == self.n_cells
        &&& rows_view(self.original@) == solved_rows(self.n_cells as nat, self.n_stickers as nat)
        &&& self.original@.len() == self.n_cells
        &&& forall|c: int| 0 <= c < self.n_cells ==> #[trigger] self.state@[c]@.len() == self.n_stickers
        &&& forall|c: int| 0 <= c < self.n_cells ==> #[trigger] self.copy@[c]@.len() == self.n_stickers
    }

    /// A state keeping its invariant has a full table of colors, committed and staged: one row
    /// of `n_stickers` for each of its `n_cells` cells.
    pub proof fn lemma_wf(self)
        requires
            self.inv(),
        ensures
            self@.wf(),
    {
        lemma_rows(self.state@, self.n_cells as nat, self.n_stickers as nat);
        lemma_rows(self.copy@, self.n_cells as nat, self.n_stickers as nat);
    }

    /// A solved state: every sticker of cell `c` has color `c`.
    pub fn new(n_cells: usize, n_stickers: usize) -> (r: State)
        ensures
            r@.n_cells == n_cells,
            r@.n_stickers == n_stickers,
            r@.colors == solved_rows(n_cells as nat, n_stickers as nat),
            r@.staged == solved_rows(n_cells as nat, n_stickers as nat),
            r@.wf(),
            r.inv(),
    {
        let state = solved_table(n_cells, n_stickers);
        let copy = solved_table(n_cells, n_stickers);
        let original = solved_table(n_cells, n_stickers);
        assert forall|c: int| 0 <= c < n_cells implies #[trigger] state@[c]@.len() == n_stickers by {
            assert(rows_view(state@)[c] == state@[c]@);
        }
        assert forall|c: int| 0 <= c < n_cells implies #[trigger] copy@[c]@.len() == n_stickers by {
            assert(rows_view(copy@)[c] == copy@[c]@);
        }
        let r = State { n_cells, n_stickers, state, copy, original };
        proof {
            r.lemma_wf();
        }
        r
    }

    /// Back to solved.
    pub fn reset(&mut self)
        requires
            old(self).inv(),
        ensures
            final(self)@.n_cells == old(self)@.n_cells,
            final(self)@.n_stickers == old(self)@.n_stickers,
            final(self)@.colors == solved_rows(old(self)@.n_cells, old(self)@.n_stickers),
            final(self)@.staged == solved_rows(old(self)@.n_cells, old(self)@.n_stickers),
            final(self)@.wf(),
            final(self).inv(),
    {
        *self = State::new(self.n_cells, self.n_stickers);
    }

    pub fn num_cells(&self) -> (r: usize)
        ensures
            r == self@.n_cells,
    {
        self.n_cells
    }

    pub fn num_stickers(&self) -> (r: usize)
        ensures
            r == self@.n_stickers,
    {
        self.n_stickers
    }

    pub fn sticker_color_index(&self, cell: usize, sticker: usize) -> (r: i32)
        requires
            self.inv(),
            cell < self@.n_cells,
            sticker < self@.n_stickers,
        ensures
            r == self@.color(cell as int, sticker as int),
    {
        self.state[cell][sticker]
    }

    /// Stages a change (visible after [`State::commit_changes`]).
    pub fn set_sticker_color_index(&mut self, cell: usize, sticker: usize, color: i32)
        requires
            old(self).inv(),
            cell < old(self)@.n_cells,
            sticker < old(self)@.n_stickers,
        ensures
            final(self)@ == (StateView {
                staged: old(self)@.staged.update(
                    cell as int,
                    old(self)@.staged[cell as int].update(sticker as int, color),
                ),
                ..old(self)@
            }),
            final(self)@.wf(),
            final(self).inv(),
    {
        self.copy[cell][sticker] = color;
        proof {
            assert(rows_view(self.copy@) =~= old(self)@.staged.update(
                cell as int,
                old(self)@.staged[cell as int].update(sticker as int, color),
            ));
            self.lemma_wf();
        }
    }

    /// Stages toggling a sticker between its original color and off.
    pub fn toggle_sticker_color_index(&mut self, cell: usize, sticker: usize)
        requires
            old(self).inv(),
            cell < old(self)@.n_cells,
            sticker < old(self)@.n_stickers,
        ensures
            final(self)@ == (StateView {
                staged: old(self)@.staged.update(
                    cell as int,
                    old(self)@.staged[cell as int].update(
                        sticker as int,
                        if old(self)@.staged[cell as int][sticker as int] == OFF_COLOR {
                            cell as i32
                        } else {
                            OFF_COLOR
                        },
                    ),
                ),
                ..old(self)@
            }),
            final(self)@.wf(),
            final(self).inv(),
    {
        proof {
            assert(rows_view(self.original@)[cell as int][sticker as int] == cell as i32);
        }
        let v = if self.copy[cell][sticker] == OFF_COLOR {
            self.original[cell][sticker]
        } else {
            OFF_COLOR
        };
        self.copy[cell][sticker] = v;
        proof {
            assert(rows_view(self.copy@) =~= old(self)@.staged.update(
                cell as int,
                old(self)@.staged[cell as int].update(sticker as int, v),
            ));
            self.lemma_wf();
        }
    }

    /// Makes the staged colors the current ones.
    pub fn commit_changes(&mut self)
        requires
            old(self).inv(),
        ensures
            final(self)@ == (StateView { colors: old(self)@.staged, ..old(self)@ }),
            final(self)@.wf(),
            final(self).inv(),
    {
        let mut c: usize = 0;
        while c < self.n_cells
            invariant
                0 <= c <= self.n_cells,
                self.n_cells == old(self).n_cells,
                self.n_stickers == old(self).n_stickers,
                self.copy == old(self).copy,
                self.original == old(self).original,
                self.state@.len() == self.n_cells,
                forall|k: int| 0 <= k < c ==> #[trigger] self.state@[k]@ == self.copy@[k]@,
                forall|k: int|
                    c <= k < self.n_cells ==> #[trigger] self.state@[k]@.len() == self.n_stickers,
                old(self).inv(),
            decreases self.n_cells - c,
        {
            let row = copy_row(&self.copy[c]);
            self.state[c] = row;
            c = c + 1;
        }
        proof {
            assert(rows_view(self.state@) =~= rows_view(self.copy@));
            self.lemma_wf();
        }
    }

    /// Makes the staged colors of one cell current.
    pub fn commit_cell(&mut self, cell: usize)
        requires
            old(self).inv(),
            cell < old(self)@.n_cells,
        ensures
            final(self)@ == (StateView {
                colors: old(self)@.colors.update(cell as int, old(self)@.staged[cell as int]),
                ..old(self)@
            }),
            final(self)@.wf(),
            final(self).inv(),
    {
        let row = copy_row(&self.copy[cell]);
        self.state[cell] = row;
        proof {
            assert(rows_view(self.state@) =~= old(self)@.colors.update(
                cell as int,
                old(self)@.staged[cell as int],
            ));
            self.lemma_wf();
        }
    }

    /// Every cell a single color.
    pub fn is_solved(&self) -> (r: bool)
        requires
            self.inv(),
        ensures
            r == self@.solved(),
    {
        let mut c: usize = 0;
        while c < self.state.len()
            invariant
                0 <= c <= self.n_cells,
                self.inv(),
                forall|k: int, s: int|
                    0 <= k < c && 0 <= s < self.n_stickers ==> #[trigger] self.state@[k]@[s]
                        == self.state@[k]@[0],
            decreases self.n_cells - c,
        {
            let row = &self.state[c];
            let mut s: usize = 0;
            while s < row.len()
                invariant
                    0 <= s <= row@.len(),
                    row@.len() == self.n_stickers,
                    c < self.n_cells,
                    self.inv(),
                    row@ == self.state@[c as int]@,
                    forall|t: int| 0 <= t < s ==> #[trigger] row@[t] == row@[0],
                decreases row.len() - s,
            {
                if row[s] != row[0] {
                    assert(self@.colors[c as int] == row@);
                    assert(self@.colors[c as int][s as int] != self@.colors[c as int][0]);
                    return false;
                }
                s = s + 1;
            }
            c = c + 1;
        }
        true
    }

    /// For toggling puzzles: everything back on.
    pub fn is_all_on(&self) -> (r: bool)
        requires
            self.inv(),
        ensures
            r == self@.all_on(),
    {
        let mut c: usize = 0;
        while c < self.state.len()
            invariant
                0 <= c <= self.n_cells,
                self.inv(),
                forall|k: int, s: int|
                    0 <= k < c && 0 <= s < self.n_stickers ==> #[trigger] self.state@[k]@[s]
                        == k as i32,
            decreases self.n_cells - c,
        {
            let row = &self.state[c];
            let orig = &self.original[c];
            proof {
                assert(rows_view(self.original@)[c as int] == orig@);
            }
            let mut s: usize = 0;
            while s < row.len()
                invariant
                    0 <= s <= row@.len(),
                    row@.len() == self.n_stickers,
                    orig@ == Seq::new(self.n_stickers as nat, |t: int| c as i32),
                    c < self.n_cells,
                    self.inv(),
                    row@ == self.state@[c as int]@,
                    forall|t: int| 0 <= t < s ==> #[trigger] row@[t] == c as i32,
                decreases row.len() - s,
            {
                if row[s] != orig[s] {
                    assert(self@.colors[c as int] == row@);
                    assert(self@.colors[c as int][s as int] != c as i32);
                    return false;
                }
                s = s + 1;
            }
            c = c + 1;
        }
        true
    }
}

/// How a color is saved: two lowercase hex digits, with "off" as `ff`.
pub open spec fn color_text(c: i32) -> Seq<char> {
    if c == OFF_COLOR {
        seq!['f', 'f']
    } else {
        hex2_text(c)
    }
}

/// How a cell's colors are saved.
pub open spec fn row_text(row: Seq<i32>) -> Seq<char>
    decreases row.len(),
{
    if row.len() == 0 {
        Seq::empty()
    } else {
        row_text(row.drop_last()) + color_text(row.last())
    }
}

/// Two lowercase hex digits; the off color (-1) is written as "ff". (Its older form,
/// "0ffffffff", is read back too.)
pub fn save_color(c: i32) -> (r: Vec<char>)
    ensures
        r@ == color_text(c),
{
    if c == OFF_COLOR {
        let mut r: Vec<char> = Vec::new();
        r.push('f');
        r.push('f');
        r
    } else {
        hex2_chars(c)
    }
}

/// The saved text of a row of colors.
pub fn save_row(row: &[i32]) -> (r: Vec<char>)
    ensures
        r@ == row_text(row@),
{
    let mut r: Vec<char> = Vec::new();
    let mut i: usize = 0;
    while i < row.len()
        invariant
            0 <= i <= row@.len(),
            r@ == row_text(row@.take(i as int)),
        decreases row.len() - i,
    {
        append_chars(&mut r, &save_color(row[i]));
        assert(row@.take(i + 1).drop_last() =~= row@.take(i as int));
        i = i + 1;
    }
    assert(row@.take(row@.len() as int) =~= row@);
    r
}

/// `s` with every occurrence of `pat` (left to right, not overlapping) replaced by `rep`, as
/// `str::replace` does.
pub open spec fn replace_all(s: Seq<char>, pat: Seq<char>, rep: Seq<char>) -> Seq<char>
    decreases s.len(),
{
    if s.len() == 0 {
        s
    } else if pat.len() > 0 && pat.len() <= s.len() && s.take(pat.len() as int) == pat {
        rep + replace_all(s.skip(pat.len() as int), pat, rep)
    } else {
        seq![s[0]] + replace_all(s.drop_first(), pat, rep)
    }
}

pub fn replace_chars(s: &[char], pat: &[char], rep: &[char]) -> (r: Vec<char>)
    ensures
        r@ == replace_all(s@, pat@, rep@),
{
    let mut r: Vec<char> = Vec::new();
    let mut i: usize = 0;
    assert(s@.skip(0) =~= s@);
    while i < s.len()
        invariant
            0 <= i <= s@.len(),
            r@ + replace_all(s@.skip(i as int), pat@, rep@) == replace_all(s@, pat@, rep@),
        decreases s.len() - i,
    {
        let ghost rest = s@.skip(i as int);
        let slen = s.len();
        let can = pat.len() > 0 && pat.len() <= slen - i;
        let mut j: usize = 0;
        if can {
            while j < pat.len()
                invariant
                    0 <= j <= pat@.len(),
                    i < s@.len(),
                    slen == s@.len(),
                    i + pat@.len() <= s@.len(),
                    rest == s@.skip(i as int),
                    pat@.take(j as int) == rest.take(j as int),
                ensures
                    0 <= j <= pat@.len(),
                    pat@.take(j as int) == rest.take(j as int),
                    j < pat@.len() ==> s@[i + j] != pat@[j as int],
                decreases pat.len() - j,
            {
                if s[i + j] != pat[j] {
                    break;
                }
                assert(pat@.take(j + 1) =~= pat@.take(j as int).push(pat@[j as int]));
                assert(rest.take(j + 1) =~= rest.take(j as int).push(rest[j as int]));
                j = j + 1;
            }
            if j < pat.len() {
                assert(s@[i + j] != pat@[j as int]);
                assert(rest.take(pat@.len() as int)[j as int] != pat@[j as int]);
            }
        }
        let matched = can && j == pat.len();
        if matched {
            assert(pat@.take(pat@.len() as int) =~= pat@);
            append_chars(&mut r, rep);
            assert(rest.skip(pat@.len() as int) =~= s@.skip(i + pat@.len()));
            i = i + pat.len();
        } else {
            r.push(s[i]);
            assert(rest.drop_first() =~= s@.skip(i + 1));
            i = i + 1;
        }
    }
    assert(s@.skip(s@.len() as int) =~= Seq::<char>::empty());
    assert(r@ =~= replace_all(s@, pat@, rep@));
    r
}

pub open spec fn is_ascii_seq(s: Seq<char>) -> bool {
    forall|i: int| 0 <= i < s.len() ==> (#[trigger] s[i] as u32) < 128
}

/// The saved text of one cell, trimmed, with the older off color `0ffffffff` read as `ff`.
pub open spec fn cell_text_cleaned(text: Seq<char>) -> Seq<char> {
    replace_all(
        trim(text, CharClass::Whitespace),
        seq!['0', 'f', 'f', 'f', 'f', 'f', 'f', 'f', 'f'],
        seq!['f', 'f'],
    )
}

/// The color in a pair of hex digits (`ff` is off).
pub open spec fn pair_color(t: Seq<char>, s: int) -> Option<i32> {
    match parse_int(t.subrange(2 * s, 2 * s + 2), 16, i32::MIN as int, i32::MAX as int) {
        Some(v) => Some(if v == 0xff {
            OFF_COLOR
        } else {
            v as i32
        }),
        None => None,
    }
}

/// The colors in the first `k` pairs, if they all parse.
pub open spec fn pair_colors(t: Seq<char>, k: int) -> Option<Seq<i32>>
    decreases k,
{
    if k <= 0 {
        Some(Seq::empty())
    } else {
        match (pair_colors(t, k - 1), pair_color(t, k - 1)) {
            (Some(p), Some(c)) => Some(p.push(c)),
            _ => None,
        }
    }
}

proof fn lemma_pair_colors_len(t: Seq<char>, k: int)
    requires
        k >= 0,
        pair_colors(t, k) is Some,
    ensures
        pair_colors(t, k)->0.len() == k,
    decreases k,
{
    if k > 0 {
        lemma_pair_colors_len(t, k - 1);
    }
}

proof fn lemma_pair_colors_none(t: Seq<char>, k: int, n: int)
    requires
        0 <= k <= n,
        pair_colors(t, k) is None,
    ensures
        pair_colors(t, n) is None,
    decreases n - k,
{
    if k < n {
        lemma_pair_colors_none(t, k, n - 1);
    }
}

/// The colors of a saved cell with `n` stickers, or `None` if it's malformed.
pub open spec fn cell_colors(text: Seq<char>, n: nat) -> Option<Seq<i32>> {
    let t = cell_text_cleaned(text);
    if t.len() != 2 * n || !is_ascii_seq(t) {
        None
    } else {
        pair_colors(t, n as int)
    }
}

/// Reads a saved cell with `n_stickers` stickers.
pub fn load_cell(text: &[char], n_stickers: usize) -> (r: Option<Vec<i32>>)
    requires
        2 * n_stickers <= usize::MAX,
    ensures
        match r {
            Some(v) => cell_colors(text@, n_stickers as nat) == Some(v@),
            None => cell_colors(text@, n_stickers as nat) is None,
        },
{
    let trimmed = trim_chars(text, CharClass::Whitespace);
    let pat: Vec<char> = vec!['0', 'f', 'f', 'f', 'f', 'f', 'f', 'f', 'f'];
    let rep: Vec<char> = vec!['f', 'f'];
    let t = replace_chars(&trimmed, &pat, &rep);
    proof {
        assert(pat@ =~= seq!['0', 'f', 'f', 'f', 'f', 'f', 'f', 'f', 'f']);
        assert(rep@ =~= seq!['f', 'f']);
    }
    if t.len() != 2 * n_stickers {
        return None;
    }
    let mut i: usize = 0;
    while i < t.len()
        invariant
            0 <= i <= t@.len(),
            t@.len() == 2 * n_stickers,
            t@ == cell_text_cleaned(text@),
            forall|j: int| 0 <= j < i ==> (#[trigger] t@[j] as u32) < 128,
        decreases t.len() - i,
    {
        if t[i] as u32 >= 128 {
            assert(!((t@[i as int] as u32) < 128));
            return None;
        }
        i = i + 1;
    }
    let mut colors: Vec<i32> = Vec::new();
    let mut s: usize = 0;
    while s < n_stickers
        invariant
            0 <= s <= n_stickers,
            2 * n_stickers <= usize::MAX,
            t@.len() == 2 * n_stickers,
            t@ == cell_text_cleaned(text@),
            is_ascii_seq(t@),
            pair_colors(t@, s as int) == Some(colors@),
        decreases n_stickers - s,
    {
        let pair = crate::text::copy_range(&t, 2 * s, 2 * s + 2);
        match parse_int_chars(&pair, 16, i32::MIN as i128, i32::MAX as i128) {
            Some(v) => {
                let c: i32 = if v == 0xff {
                    OFF_COLOR
                } else {
                    v as i32
                };
                colors.push(c);
            },
            None => {
                proof {
                    lemma_pair_colors_none(t@, s as int + 1, n_stickers as int);
                }
                return None;
            },
        }
        s = s + 1;
    }
    Some(colors)
}

/// Whether `pat` occurs nowhere in `s`.
pub open spec fn never_holds(s: Seq<char>, pat: Seq<char>) -> bool {
    forall|i: int| 0 <= i <= s.len() - pat.len() ==> #[trigger] s.subrange(i, i + pat.len()) != pat
}

proof fn lemma_replace_absent(s: Seq<char>, pat: Seq<char>, rep: Seq<char>)
    requires
        pat.len() > 0,
        never_holds(s, pat),
    ensures
        replace_all(s, pat, rep) == s,
    decreases s.len(),
{
    if s.len() > 0 {
        if pat.len() <= s.len() {
            let i: int = 0;
            assert(s.subrange(i, i + pat.len()) != pat);
            assert(s.subrange(i, i + pat.len()) =~= s.take(pat.len() as int));
        }
        assert forall|i: int| 0 <= i <= s.drop_first().len() - pat.len() implies #[trigger] s.drop_first().subrange(
            i,
            i + pat.len(),
        ) != pat by {
            assert(s.drop_first().subrange(i, i + pat.len()) =~= s.subrange(i + 1, i + 1 + pat.len()));
        }
        lemma_replace_absent(s.drop_first(), pat, rep);
        assert(replace_all(s, pat, rep) == seq![s[0]] + replace_all(s.drop_first(), pat, rep));
        assert(seq![s[0]] + s.drop_first() =~= s);
    }
}

/// The saved text of a row: two hex digits per color, the colors in order.
proof fn lemma_row_text(row: Seq<i32>)
    requires
        forall|i: int| 0 <= i < row.len() ==> -1 <= #[trigger] row[i] <= 254,
    ensures
        row_text(row).len() == 2 * row.len(),
        forall|j: int|
            0 <= j < row_text(row).len() ==> crate::text::is_digit_char(
                #[trigger] row_text(row)[j],
                16,
            ),
        forall|k: int|
            0 <= k < row.len() ==> #[trigger] row_text(row).subrange(2 * k, 2 * k + 2)
                == color_text(row[k]),
    decreases row.len(),
{
    if row.len() > 0 {
        let prev = row.drop_last();
        lemma_row_text(prev);
        let c = row.last();
        let ct = color_text(c);
        if c == OFF_COLOR {
            assert(ct =~= seq!['f', 'f']);
        } else {
            crate::text::lemma_hex2_parses(c);
        }
        assert(ct.len() == 2);
        let t = row_text(row);
        assert(t == row_text(prev) + ct);
        assert forall|j: int| 0 <= j < t.len() implies crate::text::is_digit_char(#[trigger] t[j], 16) by {
            if j < row_text(prev).len() {
                assert(t[j] == row_text(prev)[j]);
            } else {
                assert(t[j] == ct[j - row_text(prev).len()]);
            }
        }
        assert forall|k: int| 0 <= k < row.len() implies #[trigger] t.subrange(2 * k, 2 * k + 2)
            == color_text(row[k]) by {
            if k < prev.len() {
                assert(t.subrange(2 * k, 2 * k + 2) =~= row_text(prev).subrange(2 * k, 2 * k + 2));
                assert(prev[k] == row[k]);
            } else {
                assert(t.subrange(2 * k, 2 * k + 2) =~= ct);
            }
        }
    }
}

proof fn lemma_pair_colors_row(row: Seq<i32>, t: Seq<char>, k: int)
    requires
        0 <= k <= row.len(),
        forall|i: int| 0 <= i < row.len() ==> -1 <= #[trigger] row[i] <= 254,
        forall|m: int|
            0 <= m < row.len() ==> #[trigger] t.subrange(2 * m, 2 * m + 2) == color_text(row[m]),
    ensures
        pair_colors(t, k) == Some(row.take(k)),
    decreases k,
{
    if k > 0 {
        lemma_pair_colors_row(row, t, k - 1);
        let c = row[k - 1];
        assert(t.subrange(2 * (k - 1), 2 * (k - 1) + 2) == color_text(c));
        if c == OFF_COLOR {
            let ff = seq!['f', 'f'];
            assert(color_text(c) =~= ff);
            assert(ff.drop_last() =~= seq!['f']);
            assert(seq!['f'].drop_last() =~= Seq::<char>::empty());
            crate::text::lemma_digit_char(15, 16);
            assert(crate::text::digit_char(15) == 'f');
            assert(crate::text::digits_value(Seq::<char>::empty(), 16) == Some(0int));
            assert(crate::text::digits_value(seq!['f'], 16) == Some(15int));
            assert(crate::text::digits_value(ff, 16) == Some(255int));
        } else {
            crate::text::lemma_hex2_parses(c);
        }
        assert(row.take(k) =~= row.take(k - 1).push(c));
    }
}

/// A row of colors from "off" to 254 reads back as itself, as long as its saved text holds no
/// `0ffffffff` (which reads as an old-style off color).
pub proof fn lemma_cell_round_trip(row: Seq<i32>)
    requires
        forall|i: int| 0 <= i < row.len() ==> -1 <= #[trigger] row[i] <= 254,
        never_holds(row_text(row), seq!['0', 'f', 'f', 'f', 'f', 'f', 'f', 'f', 'f']),
    ensures
        cell_colors(row_text(row), row.len()) == Some(row),
{
    let t = row_text(row);
    lemma_row_text(row);
    assert forall|j: int| 0 <= j < t.len() implies !crate::text::in_class(
        #[trigger] t[j],
        CharClass::Whitespace,
    ) && (t[j] as u32) < 128 by {
        assert(crate::text::is_digit_char(t[j], 16));
    }
    if t.len() > 0 {
        crate::text::lemma_trim_noop(t, CharClass::Whitespace);
    } else {
        assert(trim(t, CharClass::Whitespace) =~= t);
    }
    lemma_replace_absent(t, seq!['0', 'f', 'f', 'f', 'f', 'f', 'f', 'f', 'f'], seq!['f', 'f']);
    lemma_pair_colors_row(row, t, row.len() as int);
    assert(row.take(row.len() as int) =~= row);
}

/// The message for a saved state with too many cells.
pub open spec fn too_many_cells_message(n_cells: nat) -> Seq<char> {
    "saved state has more than "@ + int_text(n_cells as int) + " cells"@
}

/// The message for a malformed saved cell.
pub open spec fn invalid_cell_message(cell: nat, n_stickers: nat) -> Seq<char> {
    "invalid saved state for cell "@ + int_text(cell as int) + " (expected "@ + int_text(
        n_stickers as int,
    ) + " stickers)"@
}

/// Loading the saved texts of cells, in order: the state after them (or after the first that
/// fails) and the error, if any. Each cell loaded is staged and committed.
pub open spec fn load_cells(v: StateView, texts: Seq<Seq<char>>) -> (StateView, Option<Seq<char>>)
    decreases texts.len(),
{
    if texts.len() == 0 {
        (v, None)
    } else {
        let (w, err) = load_cells(v, texts.drop_last());
        if err is Some {
            (w, err)
        } else {
            let c = texts.len() - 1;
            if c >= w.n_cells {
                (w, Some(too_many_cells_message(w.n_cells)))
            } else {
                match cell_colors(texts.last(), w.n_stickers) {
                    None => (w, Some(invalid_cell_message(c as nat, w.n_stickers))),
                    Some(row) => (
                        StateView {
                            colors: w.colors.update(c, row),
                            staged: w.staged.update(c, row),
                            ..w
                        },
                        None,
                    ),
                }
            }
        }
    }
}

/// Once loading fails, later cells change nothing.
proof fn lemma_load_cells_prefix(v: StateView, texts: Seq<Seq<char>>, k: int)
    requires
        0 <= k <= texts.len(),
        load_cells(v, texts.take(k)).1 is Some,
    ensures
        load_cells(v, texts) == load_cells(v, texts.take(k)),
    decreases texts.len() - k,
{
    if k < texts.len() {
        assert(texts.drop_last().take(k) =~= texts.take(k));
        lemma_load_cells_prefix(v, texts.drop_last(), k);
    } else {
        assert(texts.take(k) =~= texts);
    }
}

/// The texts of the `Cell` children of a saved `State` element.
pub open spec fn saved_cell_texts(nodes: Seq<crate::xml::XmlNode>, node: int) -> Seq<Seq<char>> {
    children_named(nodes, node, "Cell"@).map_values(|i: usize| node_text(nodes, i as int))
}

impl State {
    /// One `Cell` element per cell, with two hex digits per sticker.
    pub fn save(&self) -> (r: XElement)
        requires
            self.inv(),
        ensures
            r.name@ == "State"@,
            r.attrs@.len() == 0,
            r.text is None,
            r.children@.len() == self@.n_cells,
            forall|c: int|
                0 <= c < self@.n_cells ==> {
                    let e = #[trigger] r.children@[c];
                    &&& e.name@ == "Cell"@
                    &&& e.attrs@.len() == 0
                    &&& e.text matches Some(t) && t@ == row_text(self@.colors[c])
                    &&& e.children@.len() == 0
                },
    {
        let mut e = XElement::new("State");
        let mut c: usize = 0;
        while c < self.state.len()
            invariant
                0 <= c <= self.n_cells,
                self.inv(),
                e.name@ == "State"@,
                e.attrs@.len() == 0,
                e.text is None,
                e.children@.len() == c,
                forall|k: int|
                    0 <= k < c ==> {
                        let x = #[trigger] e.children@[k];
                        &&& x.name@ == "Cell"@
                        &&& x.attrs@.len() == 0
                        &&& x.text matches Some(t) && t@ == row_text(self@.colors[k])
                        &&& x.children@.len() == 0
                    },
            decreases self.n_cells - c,
        {
            let text = string_of(&save_row(&self.state[c]));
            e.push(XElement::with_text("Cell", text.as_str()));
            c = c + 1;
        }
        e
    }

    /// Loads a saved `State` element: each `Cell` child is staged and committed in turn.
    /// Fails (keeping the cells loaded so far) on more cells than we have, or a malformed cell.
    pub fn load(&mut self, doc: &XmlDocument, node: usize) -> (r: Result<(), String>)
        requires
            old(self).inv(),
            doc.wf(),
            2 * old(self)@.n_stickers <= usize::MAX,
        ensures
            final(self).inv(),
            ({
                let (v, err) = load_cells(old(self)@, saved_cell_texts(doc.nodes@, node as int));
                &&& final(self)@ == v
                &&& match r {
                    Ok(()) => err is None,
                    Err(e) => err == Some(e@),
                }
            }),
    {
        let cells = doc.children(node, "Cell");
        let ghost texts = saved_cell_texts(doc.nodes@, node as int);
        let mut c: usize = 0;
        while c < cells.len()
            invariant
                0 <= c <= cells@.len(),
                cells@ == children_named(doc.nodes@, node as int, "Cell"@),
                texts == saved_cell_texts(doc.nodes@, node as int),
                doc.wf(),
                self.inv(),
                self.n_cells == old(self).n_cells,
                self.n_stickers == old(self).n_stickers,
                2 * self.n_stickers <= usize::MAX,
                load_cells(old(self)@, texts.take(c as int)) == (self@, None::<Seq<char>>),
            decreases cells.len() - c,
        {
            assert(texts.take(c + 1).drop_last() =~= texts.take(c as int));
            assert(texts.take(c + 1).last() == node_text(doc.nodes@, cells@[c as int] as int));
            if c >= self.n_cells {
                let mut m = chars_of("saved state has more than ");
                append_chars(&mut m, &radix_chars(self.n_cells as u64, 10));
                append_chars(&mut m, &chars_of(" cells"));
                proof {
                    assert(m@ == too_many_cells_message(self@.n_cells));
                    assert(load_cells(old(self)@, texts.take(c + 1)) == (
                        self@,
                        Some(too_many_cells_message(self@.n_cells)),
                    ));
                    lemma_load_cells_prefix(old(self)@, texts, c as int + 1);
                }
                return Err(string_of(&m));
            }
            let text = doc.text(cells[c]);
            match load_cell(&text, self.n_stickers) {
                None => {
                    let mut m = chars_of("invalid saved state for cell ");
                    append_chars(&mut m, &radix_chars(c as u64, 10));
                    append_chars(&mut m, &chars_of(" (expected "));
                    append_chars(&mut m, &radix_chars(self.n_stickers as u64, 10));
                    append_chars(&mut m, &chars_of(" stickers)"));
                    proof {
                        assert(m@ == invalid_cell_message(c as nat, self@.n_stickers));
                        assert(load_cells(old(self)@, texts.take(c + 1)) == (
                            self@,
                            Some(invalid_cell_message(c as nat, self@.n_stickers)),
                        ));
                        lemma_load_cells_prefix(old(self)@, texts, c as int + 1);
                    }
                    return Err(string_of(&m));
                },
                Some(colors) => {
                    let ghost before = self@;
                    proof {
                        lemma_pair_colors_len(cell_text_cleaned(text@), self.n_stickers as int);
                        self.lemma_wf();
                        assert(colors@.take(0) + before.staged[c as int].skip(0)
                            =~= before.staged[c as int]);
                        assert(before.staged =~= before.staged.update(
                            c as int,
                            colors@.take(0) + before.staged[c as int].skip(0),
                        ));
                    }
                    let mut s: usize = 0;
                    while s < colors.len()
                        invariant
                            0 <= s <= colors@.len(),
                            colors@.len() == self.n_stickers,
                            c < self.n_cells,
                            self.inv(),
                            self.n_cells == old(self).n_cells,
                            self.n_stickers == old(self).n_stickers,
                            self@.colors == before.colors,
                            before.wf(),
                            before.n_cells == self.n_cells,
                            before.n_stickers == self.n_stickers,
                            self@.n_cells == self.n_cells,
                            self@.n_stickers == self.n_stickers,
                            self@.staged == before.staged.update(
                                c as int,
                                colors@.take(s as int) + before.staged[c as int].skip(s as int),
                            ),
                        decreases colors.len() - s,
                    {
                        proof {
                            self.lemma_wf();
                        }
                        self.set_sticker_color_index(c, s, colors[s]);
                        s = s + 1;
                        assert(colors@.take(s as int) + before.staged[c as int].skip(s as int)
                            =~= (colors@.take(s - 1) + before.staged[c as int].skip(s - 1)).update(
                            s - 1,
                            colors@[s - 1],
                        ));
                    }
                    proof {
                        self.lemma_wf();
                        assert(colors@.take(colors@.len() as int) + before.staged[c as int].skip(
                            colors@.len() as int,
                        ) =~= colors@);
                    }
                    self.commit_cell(c);
                },
            }
            c = c + 1;
        }
        assert(texts.take(cells@.len() as int) =~= texts);
        Ok(())
    }
}

} // verus!
