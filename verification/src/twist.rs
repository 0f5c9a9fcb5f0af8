//! Single twists, lists of them, and the undo/redo history.

use crate::text::{
    lemma_int_text_parses, lemma_split_single, lemma_trim_wrapped, append_chars, chars_of, int_chars, int_text, parse_int, parse_int_chars, radix_chars,
    split, split_chars, string_of, trim, trim_chars, CharClass,
};
use crate::xml::{children_named, node_text, XElement, XmlDocument};
use vstd::prelude::*;

verus! {

/// One twist of the puzzle.
#[derive(Clone, Debug, PartialEq, Eq, Structural)]
pub struct SingleTwist {
    /// Index of the identified twist data (the logical twist center).
    pub identified: usize,
    /// Systolic (earthquake) twists involve a second set of identified twist data.
    pub identified_systolic: Option<usize>,
    /// Left click twists CCW, right click CW.
    pub left_click: bool,
    pub slice_mask: i32,
    /// The extra slice mask for systolic twists.
    pub slice_mask_systolic: i32,
    pub macro_start: bool,
    pub macro_end: bool,
}

impl Default for SingleTwist {
    fn default() -> (r: SingleTwist)
        ensures
            r == default_twist(),
    {
        SingleTwist {
            identified: 0,
            identified_systolic: None,
            left_click: false,
            slice_mask: 0,
            slice_mask_systolic: 0,
            macro_start: false,
            macro_end: false,
        }
    }
}

/// A twist with every field zero, false or `None`.
pub open spec fn default_twist() -> SingleTwist {
    SingleTwist {
        identified: 0,
        identified_systolic: None,
        left_click: false,
        slice_mask: 0,
        slice_mask_systolic: 0,
        macro_start: false,
        macro_end: false,
    }
}

/// The same twist, ignoring the macro markers.
pub open spec fn same_twist(a: SingleTwist, b: SingleTwist) -> bool {
    a.identified == b.identified && a.identified_systolic == b.identified_systolic && a.left_click
        == b.left_click && a.slice_mask == b.slice_mask && a.slice_mask_systolic
        == b.slice_mask_systolic
}

/// The twist in the other direction.
pub open spec fn reversed(t: SingleTwist) -> SingleTwist {
    SingleTwist { left_click: !t.left_click, ..t }
}

/// How a twist is saved, e.g. `12:L:1`, with `[` before the first twist of a macro and `]`
/// after the last.
pub open spec fn twist_text(t: SingleTwist) -> Seq<char> {
    (if t.macro_start {
        seq!['[']
    } else {
        Seq::empty()
    }) + int_text(t.identified as int) + seq![':'] + (if t.left_click {
        seq!['L']
    } else {
        seq!['R']
    }) + seq![':'] + int_text(t.slice_mask as int) + (if t.macro_end {
        seq![']']
    } else {
        Seq::empty()
    })
}

/// The twist a saved one reads back as: with `num_twist_data` identified twist data, or `None`
/// if it is malformed or refers to twist data that doesn't exist. A macro of one twist loses
/// its markers, and a zero slice mask reads as 1.
pub open spec fn twist_from_text(saved: Seq<char>, num_twist_data: nat) -> Option<SingleTwist> {
    let start = saved.len() > 0 && saved[0] == '[';
    let end = saved.len() > 0 && saved.last() == ']';
    let parts = split(trim(saved, CharClass::Brackets), ':');
    if parts.len() != 3 {
        None
    } else {
        match (
            parse_int(trim(parts[0], CharClass::Whitespace), 10, 0, usize::MAX as int),
            parse_int(trim(parts[2], CharClass::Whitespace), 10, i32::MIN as int, i32::MAX as int),
        ) {
            (Some(index), Some(mask)) => if index < num_twist_data {
                Some(
                    SingleTwist {
                        identified: index as usize,
                        identified_systolic: None,
                        left_click: parts[1] == seq!['L'],
                        slice_mask: if mask == 0 {
                            1
                        } else {
                            mask as i32
                        },
                        slice_mask_systolic: 0,
                        macro_start: start && !end,
                        macro_end: end && !start,
                    },
                )
            } else {
                None
            },
            _ => None,
        }
    }
}

impl SingleTwist {
    /// A field-by-field copy.
    pub fn copy(&self) -> (r: SingleTwist)
        ensures
            r == *self,
    {
        SingleTwist {
            identified: self.identified,
            identified_systolic: self.identified_systolic,
            left_click: self.left_click,
            slice_mask: self.slice_mask,
            slice_mask_systolic: self.slice_mask_systolic,
            macro_start: self.macro_start,
            macro_end: self.macro_end,
        }
    }

    /// Compares twists, ignoring the macro markers.
    pub fn same_twist(&self, other: &SingleTwist) -> (r: bool)
        ensures
            r == same_twist(*self, *other),
    {
        let same_systolic = match (self.identified_systolic, other.identified_systolic) {
            (Some(a), Some(b)) => a == b,
            (None, None) => true,
            _ => false,
        };
        self.identified == other.identified && same_systolic && self.left_click == other.left_click
            && self.slice_mask == other.slice_mask && self.slice_mask_systolic
            == other.slice_mask_systolic
    }

    /// Whether we undo another twist.
    pub fn is_undo(&self, other: &SingleTwist) -> (r: bool)
        ensures
            r == same_twist(reversed(*self), *other),
    {
        let mut reversed = self.copy();
        reversed.reverse_twist();
        reversed.same_twist(other)
    }

    pub fn reverse_twist(&mut self)
        ensures
            *final(self) == reversed(*old(self)),
    {
        self.left_click = !self.left_click;
    }

    fn text(&self) -> (r: Vec<char>)
        ensures
            r@ == twist_text(*self),
    {
        let mut r: Vec<char> = Vec::new();
        if self.macro_start {
            r.push('[');
        }
        append_chars(&mut r, &radix_chars(self.identified as u64, 10));
        r.push(':');
        r.push(
            if self.left_click {
                'L'
            } else {
                'R'
            },
        );
        r.push(':');
        append_chars(&mut r, &int_chars(self.slice_mask as i64));
        if self.macro_end {
            r.push(']');
        }
        assert(r@ =~= twist_text(*self));
        r
    }

    /// E.g. "12:L:1", wrapped in brackets at macro boundaries.
    pub fn save_to_string(&self) -> (r: String)
        ensures
            r@ == twist_text(*self),
    {
        string_of(&self.text())
    }

    /// Parses a saved twist. Returns `None` if it's malformed or refers to twist data that
    /// doesn't exist (`num_twist_data`).
    pub fn load_from_string(saved: &str, num_twist_data: usize) -> (r: Option<SingleTwist>)
        ensures
            r == twist_from_text(saved@, num_twist_data as nat),
    {
        load_twist_chars(&chars_of(saved), num_twist_data)
    }
}

/// [`SingleTwist::load_from_string`] on characters.
pub fn load_twist_chars(saved: &[char], num_twist_data: usize) -> (r: Option<SingleTwist>)
    ensures
        r == twist_from_text(saved@, num_twist_data as nat),
{
    let start = saved.len() > 0 && saved[0] == '[';
    let end = saved.len() > 0 && saved[saved.len() - 1] == ']';
    let parts = split_chars(&trim_chars(saved, CharClass::Brackets), ':');
    if parts.len() != 3 {
        return None;
    }
    let index = match parse_int_chars(
        &trim_chars(&parts[0], CharClass::Whitespace),
        10,
        0,
        usize::MAX as i128,
    ) {
        Some(v) => v,
        None => {
            return None;
        },
    };
    let mask = match parse_int_chars(
        &trim_chars(&parts[2], CharClass::Whitespace),
        10,
        i32::MIN as i128,
        i32::MAX as i128,
    ) {
        Some(v) => v,
        None => {
            return None;
        },
    };
    if index >= num_twist_data as i128 {
        return None;
    }
    let left_click = parts[1].len() == 1 && parts[1][0] == 'L';
    assert(left_click == (parts@[1]@ == seq!['L'])) by {
        if parts@[1]@.len() == 1 {
            assert(parts@[1]@ =~= seq![parts@[1]@[0]]);
        }
    }
    Some(
        SingleTwist {
            identified: index as usize,
            identified_systolic: None,
            left_click,
            slice_mask: if mask == 0 {
                1
            } else {
                mask as i32
            },
            slice_mask_systolic: 0,
            macro_start: start && !end,
            macro_end: end && !start,
        },
    )
}

/// A saved twist reads back as itself (a macro of one twist loses its markers), as long as its
/// twist data exists, its slice mask is not zero and it is not systolic.
pub proof fn lemma_twist_text_round_trip(t: SingleTwist, num_twist_data: nat)
    requires
        t.identified < num_twist_data,
        t.slice_mask != 0,
        t.identified_systolic is None,
        t.slice_mask_systolic == 0,
    ensures
        twist_from_text(twist_text(t), num_twist_data) == Some(
            SingleTwist {
                macro_start: t.macro_start && !t.macro_end,
                macro_end: t.macro_end && !t.macro_start,
                ..t
            },
        ),
{
    lemma_twist_text_reads_back(t, num_twist_data);
}

/// Any saved twist reads back, its direction, slice mask (a zero mask read as the first slice)
/// and twist data kept, when that twist data is one of the first `num_twist_data`; it does not
/// read back at all otherwise.
pub proof fn lemma_twist_text_reads_back(t: SingleTwist, num_twist_data: nat)
    ensures
        twist_from_text(twist_text(t), num_twist_data) == if t.identified < num_twist_data {
            Some(
                SingleTwist {
                    identified: t.identified,
                    identified_systolic: None,
                    left_click: t.left_click,
                    slice_mask: if t.slice_mask == 0 {
                        1
                    } else {
                        t.slice_mask
                    },
                    slice_mask_systolic: 0,
                    macro_start: t.macro_start && !t.macro_end,
                    macro_end: t.macro_end && !t.macro_start,
                },
            )
        } else {
            None
        },
{
    let d1 = int_text(t.identified as int);
    let d2 = int_text(t.slice_mask as int);
    let lr = if t.left_click {
        seq!['L']
    } else {
        seq!['R']
    };
    let pre = if t.macro_start {
        seq!['[']
    } else {
        Seq::<char>::empty()
    };
    let post = if t.macro_end {
        seq![']']
    } else {
        Seq::<char>::empty()
    };
    lemma_int_text_parses(t.identified as int, 0, usize::MAX as int);
    lemma_int_text_parses(t.slice_mask as int, i32::MIN as int, i32::MAX as int);
    crate::text::lemma_int_text_nonempty(t.identified as int);
    crate::text::lemma_int_text_nonempty(t.slice_mask as int);
    let core = d1 + seq![':'] + lr + seq![':'] + d2;
    let text = twist_text(t);
    assert(text =~= pre + core + post);
    // The ends of the digits are neither brackets, white space nor separators.
    assert(!d1.contains(':')) by {
        if d1.contains(':') {
            let k = choose|k: int| 0 <= k < d1.len() && d1[k] == ':';
            assert(d1[k] == '-' || crate::text::is_digit_char(d1[k], 10));
        }
    }
    assert(!d2.contains(':')) by {
        if d2.contains(':') {
            let k = choose|k: int| 0 <= k < d2.len() && d2[k] == ':';
            assert(d2[k] == '-' || crate::text::is_digit_char(d2[k], 10));
        }
    }
    assert(!lr.contains(':')) by {
        if lr.contains(':') {
            let k = choose|k: int| 0 <= k < lr.len() && lr[k] == ':';
        }
    }
    let d1_first = d1[0];
    let d2_last = d2[d2.len() - 1];
    assert(d1_first == '-' || crate::text::is_digit_char(d1_first, 10));
    assert(d2_last == '-' || crate::text::is_digit_char(d2_last, 10));
    assert(core[0] == d1_first);
    assert(core.last() == d2_last);
    assert(d2.last() == d2_last);
    lemma_trim_wrapped(core, pre, post, CharClass::Brackets);
    // Which ends were brackets.
    if t.macro_start {
        assert(text[0] == '[');
    } else {
        assert(text[0] == core[0]);
    }
    if t.macro_end {
        assert(text.last() == ']');
    } else {
        assert(text.last() == core.last());
    }
    // The three pieces.
    lemma_split_single(d1, ':');
    crate::text::lemma_split_join(d1, lr, ':');
    crate::text::lemma_split_join(d1 + seq![':'] + lr, d2, ':');
    assert(split(core, ':') =~= seq![d1, lr, d2]);
    crate::text::lemma_trim_noop(d1, CharClass::Whitespace);
    crate::text::lemma_trim_noop(d2, CharClass::Whitespace);
    if !t.left_click {
        assert(lr != seq!['L']) by {
            assert(lr[0] != 'L');
        }
    }
}

/// The first `k` items of `s`, without the last one.
pub open spec fn pop<T>(s: Seq<T>) -> Seq<T> {
    if s.len() > 0 {
        s.drop_last()
    } else {
        s
    }
}

/// The twists in a saved block line: each followed by a tab, except that a full block of ten
/// drops its last tab (the saved-file format reads that way).
pub open spec fn block_line(chunk: Seq<SingleTwist>) -> Seq<char> {
    let line = tabbed(chunk);
    if chunk.len() == 10 {
        line.drop_last()
    } else {
        line
    }
}

/// Each twist's text followed by a tab.
pub open spec fn tabbed(ts: Seq<SingleTwist>) -> Seq<char>
    decreases ts.len(),
{
    if ts.len() == 0 {
        Seq::empty()
    } else {
        tabbed(ts.drop_last()) + twist_text(ts.last()) + seq!['\t']
    }
}

/// Twists in blocks of ten (the last block may be shorter).
pub open spec fn blocks(ts: Seq<SingleTwist>) -> Seq<Seq<SingleTwist>>
    decreases ts.len(),
{
    if ts.len() == 0 {
        Seq::empty()
    } else if ts.len() <= 10 {
        seq![ts]
    } else {
        seq![ts.take(10)] + blocks(ts.skip(10))
    }
}

/// A `Block` element holding a line of twists.
pub open spec fn is_block_element(e: XElement, chunk: Seq<SingleTwist>) -> bool {
    &&& e.name@ == "Block"@
    &&& e.attrs@.len() == 0
    &&& e.text matches Some(t) && t@ == block_line(chunk)
    &&& e.children@.len() == 0
}

fn tabbed_chars(ts: &[SingleTwist]) -> (r: Vec<char>)
    ensures
        r@ == tabbed(ts@),
{
    let mut r: Vec<char> = Vec::new();
    let mut i: usize = 0;
    while i < ts.len()
        invariant
            0 <= i <= ts@.len(),
            r@ == tabbed(ts@.take(i as int)),
        decreases ts.len() - i,
    {
        append_chars(&mut r, &ts[i].text());
        r.push('\t');
        assert(ts@.take(i + 1).drop_last() =~= ts@.take(i as int));
        i = i + 1;
    }
    assert(ts@.take(ts@.len() as int) =~= ts@);
    r
}

/// Saves twists as `Block` elements of up to 10 tab-separated twists.
pub fn save_twists(parent: &mut XElement, twists: &[SingleTwist])
    ensures
        final(parent).name == old(parent).name,
        final(parent).attrs == old(parent).attrs,
        final(parent).text == old(parent).text,
        final(parent).children@.len() == old(parent).children@.len() + blocks(twists@).len(),
        final(parent).children@.take(old(parent).children@.len() as int) == old(parent).children@,
        forall|k: int|
            0 <= k < blocks(twists@).len() ==> is_block_element(
                #[trigger] final(parent).children@[old(parent).children@.len() + k],
                blocks(twists@)[k],
            ),
{
    let ghost start = parent.children@;
    let mut i: usize = 0;
    proof {
        assert(twists@.take(0) =~= Seq::<SingleTwist>::empty());
        assert(blocks(twists@.take(0)) =~= Seq::<Seq<SingleTwist>>::empty());
        assert(twists@.skip(0) =~= twists@);
        assert(blocks(twists@) =~= blocks(twists@.take(0)) + blocks(twists@.skip(0)));
    }
    while i < twists.len()
        invariant
            0 <= i <= twists@.len(),
            i % 10 == 0 || i == twists@.len(),
            parent.name == old(parent).name,
            parent.attrs == old(parent).attrs,
            parent.text == old(parent).text,
            start == old(parent).children@,
            blocks(twists@) == blocks(twists@.take(i as int)) + blocks(twists@.skip(i as int)),
            parent.children@.len() == start.len() + blocks(twists@.take(i as int)).len(),
            parent.children@.take(start.len() as int) == start,
            forall|k: int|
                0 <= k < blocks(twists@.take(i as int)).len() ==> is_block_element(
                    #[trigger] parent.children@[start.len() + k],
                    blocks(twists@.take(i as int))[k],
                ),
        decreases twists.len() - i,
    {
        let end = if twists.len() - i > 10 {
            i + 10
        } else {
            twists.len()
        };
        let chunk = &twists[i..end];
        let mut line = tabbed_chars(chunk);
        if chunk.len() == 10 {
            line.pop();
        }
        let text = string_of(&line);
        let ghost before = parent.children@;
        parent.push(XElement::with_text("Block", text.as_str()));
        proof {
            lemma_blocks_step(twists@, i as int, end as int);
            assert(chunk@ =~= twists@.subrange(i as int, end as int));
            assert(parent.children@.take(start.len() as int) =~= start);
            assert(blocks(twists@) =~= blocks(twists@.take(end as int)) + blocks(twists@.skip(end as int)));
            let b = blocks(twists@.take(end as int));
            assert forall|k: int| 0 <= k < b.len() implies is_block_element(
                #[trigger] parent.children@[start.len() + k],
                b[k],
            ) by {
                if k < b.len() - 1 {
                    assert(parent.children@[start.len() + k] == before[start.len() + k]);
                }
            }
        }
        i = end;
    }
    proof {
        assert(twists@.take(twists@.len() as int) =~= twists@);
    }
}

/// Splitting off the next block of ten (or the rest).
proof fn lemma_blocks_step(ts: Seq<SingleTwist>, i: int, end: int)
    requires
        0 <= i < ts.len(),
        i % 10 == 0,
        end == if ts.len() - i > 10 {
            i + 10
        } else {
            ts.len() as int
        },
    ensures
        blocks(ts.take(end)) == blocks(ts.take(i)).push(ts.subrange(i, end)),
        blocks(ts.skip(i)) == seq![ts.subrange(i, end)] + blocks(ts.skip(end)),
    decreases i,
{
    let rest = ts.skip(i);
    if rest.len() <= 10 {
        assert(rest =~= ts.subrange(i, end));
        assert(ts.skip(end).len() == 0);
        assert(blocks(ts.skip(end)) =~= Seq::<Seq<SingleTwist>>::empty());
    } else {
        assert(rest.take(10) =~= ts.subrange(i, end));
        assert(rest.skip(10) =~= ts.skip(end));
    }
    lemma_blocks_prefix(ts, i, end);
}

/// `blocks` of a prefix ending on a block boundary, then one more block.
proof fn lemma_blocks_prefix(ts: Seq<SingleTwist>, i: int, end: int)
    requires
        0 <= i < end <= ts.len(),
        i % 10 == 0,
        end - i <= 10,
        end - i == 10 || end == ts.len(),
    ensures
        blocks(ts.take(end)) == blocks(ts.take(i)).push(ts.subrange(i, end)),
    decreases i,
{
    let p = ts.take(end);
    if i == 0 {
        assert(p =~= ts.subrange(0, end));
        assert(ts.take(0) =~= Seq::<SingleTwist>::empty());
        assert(blocks(ts.take(0)) =~= Seq::<Seq<SingleTwist>>::empty());
        assert(blocks(p) =~= seq![p]);
    } else {
        let q = ts.skip(10);
        lemma_blocks_prefix(q, i - 10, end - 10);
        assert(p.take(10) =~= ts.take(10));
        assert(p.skip(10) =~= q.take(end - 10));
        assert(ts.take(i).take(10) =~= ts.take(10));
        assert(ts.take(i).skip(10) =~= q.take(i - 10));
        assert(q.subrange(i - 10, end - 10) =~= ts.subrange(i, end));
        if i == 10 {
            assert(ts.take(i) =~= ts.take(10));
            assert(q.take(0) =~= Seq::<SingleTwist>::empty());
            assert(blocks(q.take(0)) =~= Seq::<Seq<SingleTwist>>::empty());
            assert(blocks(ts.take(i)) =~= seq![ts.take(10)]);
        }
        assert(blocks(ts.take(end)) =~= blocks(ts.take(i)).push(ts.subrange(i, end)));
    }
}

/// The non-empty pieces of a tab-separated line.
pub open spec fn line_items(line: Seq<char>) -> Seq<Seq<char>> {
    split(line, '\t').filter(|p: Seq<char>| p.len() > 0)
}

/// The saved twists under a node: the non-empty tab-separated items of its `Block` children,
/// in order.
pub open spec fn saved_items(nodes: Seq<crate::xml::XmlNode>, node: int) -> Seq<Seq<char>> {
    children_named(nodes, node, "Block"@).map_values(
        |b: usize| line_items(node_text(nodes, b as int)),
    ).flatten_alt()
}

/// The message for a twist that doesn't load.
pub open spec fn invalid_twist_message(item: Seq<char>, num_twist_data: nat) -> Seq<char> {
    "invalid twist '"@ + item + "' (the puzzle has "@ + int_text(num_twist_data as int)
        + " twists)"@
}

/// The twists of saved items, or the message for the first one that doesn't load.
pub open spec fn load_items(items: Seq<Seq<char>>, num_twist_data: nat) -> Result<
    Seq<SingleTwist>,
    Seq<char>,
>
    decreases items.len(),
{
    if items.len() == 0 {
        Ok(Seq::empty())
    } else {
        match load_items(items.drop_last(), num_twist_data) {
            Err(e) => Err(e),
            Ok(ts) => match twist_from_text(items.last(), num_twist_data) {
                Some(t) => Ok(ts.push(t)),
                None => Err(invalid_twist_message(items.last(), num_twist_data)),
            },
        }
    }
}

proof fn lemma_load_items_prefix(items: Seq<Seq<char>>, n: nat, k: int)
    requires
        0 <= k <= items.len(),
        load_items(items.take(k), n) is Err,
    ensures
        load_items(items, n) == load_items(items.take(k), n),
    decreases items.len() - k,
{
    if k < items.len() {
        assert(items.drop_last().take(k) =~= items.take(k));
        lemma_load_items_prefix(items.drop_last(), n, k);
    } else {
        assert(items.take(k) =~= items);
    }
}

/// The saved items under a node, as characters.
fn collect_items(doc: &XmlDocument, node: usize) -> (r: Vec<Vec<char>>)
    requires
        doc.wf(),
    ensures
        r@.map_values(|v: Vec<char>| v@) == saved_items(doc.nodes@, node as int),
{
    let blocks = doc.children(node, "Block");
    let ghost per_block = blocks@.map_values(|b: usize| line_items(node_text(doc.nodes@, b as int)));
    let mut r: Vec<Vec<char>> = Vec::new();
    let mut b: usize = 0;
    while b < blocks.len()
        invariant
            0 <= b <= blocks@.len(),
            doc.wf(),
            blocks@ == children_named(doc.nodes@, node as int, "Block"@),
            per_block == blocks@.map_values(|b: usize| line_items(node_text(doc.nodes@, b as int))),
            r@.map_values(|v: Vec<char>| v@) == per_block.take(b as int).flatten_alt(),
        decreases blocks.len() - b,
    {
        let text = doc.text(blocks[b]);
        let pieces = split_chars(&text, '\t');
        let ghost all = split(text@, '\t');
        let ghost base = per_block.take(b as int).flatten_alt();
        let ghost pred = |p: Seq<char>| p.len() > 0;
        let mut j: usize = 0;
        assert(all.take(0).filter(pred) =~= Seq::<Seq<char>>::empty());
        assert(base + all.take(0).filter(pred) =~= base);
        while j < pieces.len()
            invariant
                0 <= j <= pieces@.len(),
                pieces@.len() == all.len(),
                forall|i: int| 0 <= i < pieces@.len() ==> #[trigger] pieces@[i]@ == all[i],
                pred == (|p: Seq<char>| p.len() > 0),
                r@.map_values(|v: Vec<char>| v@) == base + all.take(j as int).filter(pred),
            decreases pieces.len() - j,
        {
            assert(all.take(j + 1) =~= all.take(j as int).push(all[j as int]));
            proof {
                all.take(j as int).lemma_filter_push(all[j as int], pred);
            }
            if pieces[j].len() > 0 {
                let ghost before = r@;
                r.push(crate::text::copy_range(&pieces[j], 0, pieces[j].len()));
                assert(pieces@[j as int]@.subrange(0, pieces@[j as int]@.len() as int)
                    =~= pieces@[j as int]@);
                assert(r@.map_values(|v: Vec<char>| v@) =~= before.map_values(|v: Vec<char>| v@).push(
                    all[j as int],
                ));
            }
            j = j + 1;
        }
        assert(all.take(all.len() as int) =~= all);
        assert(per_block.take(b + 1).drop_last() =~= per_block.take(b as int));
        b = b + 1;
    }
    assert(per_block.take(blocks@.len() as int) =~= per_block);
    r
}

/// Loads twists saved by [`save_twists`]. Returns an error message for invalid twists.
pub fn load_twists(doc: &XmlDocument, node: usize, num_twist_data: usize) -> (r: Result<
    Vec<SingleTwist>,
    String,
>)
    requires
        doc.wf(),
    ensures
        match (r, load_items(saved_items(doc.nodes@, node as int), num_twist_data as nat)) {
            (Ok(ts), Ok(s)) => ts@ == s,
            (Err(e), Err(m)) => e@ == m,
            _ => false,
        },
{
    let items = collect_items(doc, node);
    let ghost all = items@.map_values(|v: Vec<char>| v@);
    let mut twists: Vec<SingleTwist> = Vec::new();
    let mut i: usize = 0;
    while i < items.len()
        invariant
            0 <= i <= items@.len(),
            all == items@.map_values(|v: Vec<char>| v@),
            all == saved_items(doc.nodes@, node as int),
            load_items(all.take(i as int), num_twist_data as nat) == Ok::<Seq<SingleTwist>, Seq<char>>(
                twists@,
            ),
        decreases items.len() - i,
    {
        assert(all.take(i + 1).drop_last() =~= all.take(i as int));
        assert(all.take(i + 1).last() == items@[i as int]@);
        match load_twist_chars(&items[i], num_twist_data) {
            Some(t) => {
                twists.push(t);
            },
            None => {
                let mut m = chars_of("invalid twist '");
                append_chars(&mut m, &items[i]);
                append_chars(&mut m, &chars_of("' (the puzzle has "));
                append_chars(&mut m, &radix_chars(num_twist_data as u64, 10));
                append_chars(&mut m, &chars_of(" twists)"));
                proof {
                    assert(m@ == invalid_twist_message(items@[i as int]@, num_twist_data as nat));
                    assert(load_items(all.take(i + 1), num_twist_data as nat) == Err::<
                        Seq<SingleTwist>,
                        Seq<char>,
                    >(m@));
                    lemma_load_items_prefix(all, num_twist_data as nat, i + 1);
                }
                return Err(string_of(&m));
            },
        }
        i = i + 1;
    }
    assert(all.take(items@.len() as int) =~= all);
    Ok(twists)
}

/// The undo/redo history: the twists done, the twists undone (to redo, last first), the toggles
/// of lights-on puzzles, whether the twist in progress is an undo or a redo, and the number of
/// scramble twists.
pub struct HistoryView {
    pub twists: Seq<SingleTwist>,
    pub redo_twists: Seq<SingleTwist>,
    pub toggles: Seq<usize>,
    pub undo_mode: bool,
    pub redo_mode: bool,
    pub scrambles: usize,
}

/// The history after a completed twist: an undo moves the last twist to the redo list
/// (reversed back), a redo takes it off that list, and any other twist clears it.
pub open spec fn after_update(h: HistoryView, twist: SingleTwist) -> HistoryView {
    if h.undo_mode {
        HistoryView {
            twists: pop(h.twists),
            redo_twists: h.redo_twists.push(reversed(twist)),
            undo_mode: false,
            ..h
        }
    } else if h.redo_mode {
        HistoryView {
            twists: h.twists.push(twist),
            redo_twists: pop(h.redo_twists),
            redo_mode: false,
            ..h
        }
    } else {
        HistoryView { twists: h.twists.push(twist), redo_twists: Seq::empty(), ..h }
    }
}

/// The history after asking for the undo twist, and that twist: the last twist reversed, which
/// puts us in undo mode.
pub open spec fn after_get_undo(h: HistoryView) -> (HistoryView, Option<SingleTwist>) {
    if h.twists.len() == 0 {
        (h, None)
    } else {
        (HistoryView { undo_mode: true, ..h }, Some(reversed(h.twists.last())))
    }
}

/// The history after asking for the redo twist, and that twist (the last one undone).
pub open spec fn after_get_redo(h: HistoryView) -> (HistoryView, Option<SingleTwist>) {
    if h.redo_twists.len() == 0 {
        (h, None)
    } else {
        (HistoryView { redo_mode: true, ..h }, Some(h.redo_twists.last()))
    }
}

/// The history of twists, for undo, redo and "solving" (undoing everything).
#[derive(Debug)]
pub struct TwistHistory {
    twists: Vec<SingleTwist>,
    redo_twists: Vec<SingleTwist>,
    toggles: Vec<usize>,
    undo_mode: bool,
    redo_mode: bool,
    /// The number of scramble twists applied.
    pub scrambles: usize,
}

impl View for TwistHistory {
    type V = HistoryView;

    closed spec fn view(&self) -> HistoryView {
        HistoryView {
            twists: self.twists@,
            redo_twists: self.redo_twists@,
            toggles: self.toggles@,
            undo_mode: self.undo_mode,
            redo_mode: self.redo_mode,
            scrambles: self.scrambles,
        }
    }
}

impl Default for TwistHistory {
    fn default() -> (r: TwistHistory)
        ensures
            r@ == (HistoryView {
                twists: Seq::empty(),
                redo_twists: Seq::empty(),
                toggles: Seq::empty(),
                undo_mode: false,
                redo_mode: false,
                scrambles: 0,
            }),
    {
        TwistHistory {
            twists: Vec::new(),
            redo_twists: Vec::new(),
            toggles: Vec::new(),
            undo_mode: false,
            redo_mode: false,
            scrambles: 0,
        }
    }
}

impl TwistHistory {
    /// Forgets all twists, toggles and scrambles (an undo or redo in progress stays so).
    pub fn clear(&mut self)
        ensures
            final(self)@ == (HistoryView {
                twists: Seq::empty(),
                redo_twists: Seq::empty(),
                toggles: Seq::empty(),
                scrambles: 0,
                ..old(self)@
            }),
    {
        self.twists.clear();
        self.redo_twists.clear();
        self.toggles.clear();
        self.scrambles = 0;
    }

    /// Sets the number of scramble twists applied.
    pub fn set_scrambles(&mut self, scrambles: usize)
        ensures
            final(self)@ == (HistoryView { scrambles, ..old(self)@ }),
    {
        self.scrambles = scrambles;
    }

    pub fn scrambled(&self) -> (r: bool)
        ensures
            r == (self@.scrambles != 0),
    {
        self.scrambles != 0
    }

    /// Whether the twist in progress is an undo.
    pub fn undoing(&self) -> (r: bool)
        ensures
            r == self@.undo_mode,
    {
        self.undo_mode
    }

    /// Records a completed twist.
    pub fn update(&mut self, twist: &SingleTwist)
        ensures
            final(self)@ == after_update(old(self)@, *twist),
    {
        if self.undo_mode {
            self.twists.pop();
            let mut redo = twist.copy();
            redo.reverse_twist();
            self.redo_twists.push(redo);
            self.undo_mode = false;
            return;
        }
        if self.redo_mode {
            self.redo_twists.pop();
            self.redo_mode = false;
        } else {
            self.redo_twists.clear();
        }
        // Normal and redo twists.
        self.twists.push(twist.copy());
    }

    /// Records a toggling ("lights on") move.
    pub fn update_toggle(&mut self, cell: usize)
        ensures
            final(self)@ == (HistoryView { toggles: old(self)@.toggles.push(cell), ..old(self)@ }),
    {
        self.toggles.push(cell);
    }

    /// The twist that undoes the last one, putting us in undo mode for it.
    pub fn get_undo_twist(&mut self) -> (r: Option<SingleTwist>)
        ensures
            (final(self)@, r) == after_get_undo(old(self)@),
    {
        if self.twists.len() == 0 {
            return None;
        }
        let mut twist = self.twists[self.twists.len() - 1].copy();
        twist.reverse_twist();
        self.undo_mode = true;
        Some(twist)
    }

    /// The twist to redo, putting us in redo mode for it.
    pub fn get_redo_twist(&mut self) -> (r: Option<SingleTwist>)
        ensures
            (final(self)@, r) == after_get_redo(old(self)@),
    {
        if self.redo_twists.len() == 0 {
            return None;
        }
        let twist = self.redo_twists[self.redo_twists.len() - 1].copy();
        self.redo_mode = true;
        Some(twist)
    }

    pub fn all_twists(&self) -> (r: &[SingleTwist])
        ensures
            r@ == self@.twists,
    {
        self.twists.as_slice()
    }

    pub fn all_toggles(&self) -> (r: &[usize])
        ensures
            r@ == self@.toggles,
    {
        self.toggles.as_slice()
    }

    pub fn all_moves_count(&self) -> (r: usize)
        requires
            self@.twists.len() + self@.toggles.len() <= usize::MAX,
        ensures
            r == moves_count(self@),
    {
        self.twists.len() + self.toggles.len()
    }

    /// A `History` element: the number of scrambles, then the twists in blocks.
    pub fn save(&self) -> (r: XElement)
        ensures
            r.name@ == "History"@,
            r.attrs@.len() == 0,
            r.text is None,
            r.children@.len() == 1 + blocks(self@.twists).len(),
            r.children@[0].name@ == "Scrambles"@,
            r.children@[0].text matches Some(t) && t@ == int_text(self@.scrambles as int),
            r.children@[0].attrs@.len() == 0,
            r.children@[0].children@.len() == 0,
            forall|k: int|
                0 <= k < blocks(self@.twists).len() ==> is_block_element(
                    #[trigger] r.children@[1 + k],
                    blocks(self@.twists)[k],
                ),
    {
        let count = string_of(&radix_chars(self.scrambles as u64, 10));
        let mut e = XElement::new("History").child(XElement::with_text("Scrambles", count.as_str()));
        let ghost first = e.children@;
        save_twists(&mut e, self.twists.as_slice());
        assert(e.children@[0] == e.children@.take(1)[0]);
        assert(e.children@[0] == first[0]);
        e
    }

    /// Loads a saved `History` element: the scrambles (0 if missing or malformed) and the
    /// twists. On an invalid twist, the history is left with no twists.
    pub fn load(&mut self, doc: &XmlDocument, node: usize, num_twist_data: usize) -> (r: Result<
        (),
        String,
    >)
        requires
            doc.wf(),
        ensures
            final(self)@.scrambles == saved_scrambles(doc.nodes@, node as int),
            final(self)@.redo_twists.len() == 0,
            final(self)@.toggles.len() == 0,
            final(self)@.undo_mode == old(self)@.undo_mode,
            final(self)@.redo_mode == old(self)@.redo_mode,
            match (r, load_items(saved_items(doc.nodes@, node as int), num_twist_data as nat)) {
                (Ok(()), Ok(s)) => final(self)@.twists == s,
                (Err(e), Err(m)) => e@ == m && final(self)@.twists.len() == 0,
                _ => false,
            },
    {
        self.clear();
        self.scrambles = match doc.child(node, "Scrambles") {
            Some(n) => match parse_int_chars(
                &trim_chars(&doc.text(n), CharClass::Whitespace),
                10,
                0,
                usize::MAX as i128,
            ) {
                Some(v) => v as usize,
                None => 0,
            },
            None => 0,
        };
        match load_twists(doc, node, num_twist_data) {
            Ok(ts) => {
                self.twists = ts;
                Ok(())
            },
            Err(e) => Err(e),
        }
    }
}

/// Reversing a twist twice gives it back, and a reversed twist undoes the original.
pub proof fn lemma_reverse_involution(t: SingleTwist)
    ensures
        reversed(reversed(t)) == t,
        same_twist(reversed(reversed(t)), t),
        same_twist(reversed(t), reversed(t)),
{
}

/// Undo and redo: after a twist, the undo twist is its reverse; completing it restores the
/// earlier twists and leaves the twist to redo; redoing it restores the twist, with nothing
/// The number of moves a history holds: its twists and its toggles.
pub open spec fn moves_count(h: HistoryView) -> nat {
    h.twists.len() + h.toggles.len()
}

/// Recording a toggle adds that cell as the last toggle, and one move to the count; nothing
/// else changes.
pub proof fn lemma_toggle_adds_one_move(h: HistoryView, cell: usize)
    ensures
        ({
            let after = HistoryView { toggles: h.toggles.push(cell), ..h };
            &&& moves_count(after) == moves_count(h) + 1
            &&& after.toggles.last() == cell
            &&& after.twists == h.twists
        }),
{
}

/// left to redo.
pub proof fn lemma_undo_then_redo(h: HistoryView, t: SingleTwist)
    requires
        !h.undo_mode,
        !h.redo_mode,
    ensures
        ({
            let h1 = after_update(h, t);
            let (h2, u) = after_get_undo(h1);
            let h3 = after_update(h2, reversed(t));
            let (h4, r) = after_get_redo(h3);
            let h5 = after_update(h4, t);
            &&& h1.redo_twists.len() == 0
            &&& u == Some(reversed(t))
            &&& h3.twists == h.twists
            &&& h3.redo_twists == seq![t]
            &&& !h3.undo_mode && !h3.redo_mode
            &&& r == Some(t)
            &&& h5.twists == h.twists.push(t)
            &&& h5.redo_twists.len() == 0
            &&& !h5.undo_mode && !h5.redo_mode
        }),
{
    let h1 = after_update(h, t);
    assert(h1.twists.drop_last() =~= h.twists);
    assert(h1.redo_twists.push(reversed(reversed(t))) =~= seq![t]);
    let h3 = after_update(after_get_undo(h1).0, reversed(t));
    assert(h3.redo_twists.drop_last() =~= Seq::<SingleTwist>::empty());
}

/// The saved number of scrambles (0 if missing or malformed).
pub open spec fn saved_scrambles(nodes: Seq<crate::xml::XmlNode>, node: int) -> usize {
    let kids = children_named(nodes, node, "Scrambles"@);
    if kids.len() > 0 {
        match parse_int(
            trim(node_text(nodes, kids[0] as int), CharClass::Whitespace),
            10,
            0,
            usize::MAX as int,
        ) {
            Some(v) => v as usize,
            None => 0,
        }
    } else {
        0
    }
}

// ----- Saved twists read back ------------------------------------------------------------------

/// A twist that its saved text reads back as: its twist data exists, its slice mask is not
/// zero, it is not systolic, and it is not a macro of one twist.
pub open spec fn loadable(t: SingleTwist, num_twist_data: nat) -> bool {
    &&& t.identified < num_twist_data
    &&& t.slice_mask != 0
    &&& t.identified_systolic is None
    &&& t.slice_mask_systolic == 0
    &&& !(t.macro_start && t.macro_end)
}

/// The items of the saved block lines of `ts`, in order: what reading the blocks back splits
/// out of their text.
pub open spec fn saved_block_items(ts: Seq<SingleTwist>) -> Seq<Seq<char>> {
    blocks(ts).map_values(|c: Seq<SingleTwist>| line_items(block_line(c))).flatten_alt()
}

/// The texts of twists.
pub open spec fn twist_texts(ts: Seq<SingleTwist>) -> Seq<Seq<char>> {
    ts.map_values(|t: SingleTwist| twist_text(t))
}

proof fn lemma_twist_text_chars(t: SingleTwist)
    ensures
        twist_text(t).len() > 0,
        !twist_text(t).contains('\t'),
{
    lemma_int_text_parses(t.identified as int, 0, usize::MAX as int);
    lemma_int_text_parses(t.slice_mask as int, i32::MIN as int, i32::MAX as int);
    crate::text::lemma_int_text_nonempty(t.identified as int);
    let pre = if t.macro_start {
        seq!['[']
    } else {
        Seq::empty()
    };
    let lr = if t.left_click {
        seq!['L']
    } else {
        seq!['R']
    };
    let post = if t.macro_end {
        seq![']']
    } else {
        Seq::empty()
    };
    let d1 = int_text(t.identified as int);
    let d2 = int_text(t.slice_mask as int);
    let s = twist_text(t);
    assert(s == pre + d1 + seq![':'] + lr + seq![':'] + d2 + post);
    assert forall|i: int| 0 <= i < s.len() implies s[i] != '\t' by {
        let a = pre.len() as int;
        let b = a + d1.len();
        let c = b + 1 + lr.len() + 1;
        let e = c + d2.len();
        if i < a {
            assert(s[i] == pre[i]);
        } else if i < b {
            assert(s[i] == d1[i - a]);
        } else if i < c {
        } else if i < e {
            assert(s[i] == d2[i - c]);
        } else {
            assert(s[i] == post[i - e]);
        }
    }
}

/// The twists' texts, each followed by a tab, but for the last.
pub open spec fn joined(c: Seq<SingleTwist>) -> Seq<char> {
    tabbed(c).drop_last()
}

proof fn lemma_split_joined(c: Seq<SingleTwist>)
    requires
        c.len() >= 1,
    ensures
        split(joined(c), '\t') == twist_texts(c),
        tabbed(c) == joined(c) + seq!['\t'],
    decreases c.len(),
{
    let p = c.drop_last();
    let text = twist_text(c.last());
    lemma_twist_text_chars(c.last());
    assert(tabbed(c) == tabbed(p) + text + seq!['\t']);
    assert(joined(c) =~= tabbed(p) + text);
    assert(tabbed(c) =~= joined(c) + seq!['\t']);
    if c.len() == 1 {
        assert(p.len() == 0);
        assert(tabbed(p) =~= Seq::<char>::empty());
        assert(joined(c) =~= text);
        lemma_split_single(text, '\t');
        assert(twist_texts(c) =~= seq![text]);
    } else {
        lemma_split_joined(p);
        assert(joined(c) =~= joined(p) + seq!['\t'] + text);
        crate::text::lemma_split_join(joined(p), text, '\t');
        assert(twist_texts(c) =~= twist_texts(p).push(text));
    }
}

proof fn lemma_filter_nonempty(s: Seq<Seq<char>>)
    requires
        forall|i: int| 0 <= i < s.len() ==> (#[trigger] s[i]).len() > 0,
    ensures
        s.filter(|p: Seq<char>| p.len() > 0) == s,
    decreases s.len(),
{
    let pred = |p: Seq<char>| p.len() > 0;
    if s.len() == 0 {
        assert(s.filter(pred) =~= s) by {
            reveal_with_fuel(Seq::filter, 1);
        }
    } else {
        lemma_filter_nonempty(s.drop_last());
        s.drop_last().lemma_filter_push(s.last(), pred);
        assert(s.drop_last().push(s.last()) =~= s);
    }
}

proof fn lemma_block_items(c: Seq<SingleTwist>)
    requires
        1 <= c.len() <= 10,
    ensures
        line_items(block_line(c)) == twist_texts(c),
{
    let pred = |p: Seq<char>| p.len() > 0;
    lemma_split_joined(c);
    assert forall|i: int| 0 <= i < twist_texts(c).len() implies (#[trigger] twist_texts(c)[i]).len()
        > 0 by {
        lemma_twist_text_chars(c[i]);
    }
    lemma_filter_nonempty(twist_texts(c));
    if c.len() != 10 {
        crate::text::lemma_split_join(joined(c), Seq::<char>::empty(), '\t');
        assert(joined(c) + seq!['\t'] + Seq::<char>::empty() =~= tabbed(c));
        twist_texts(c).lemma_filter_push(Seq::<char>::empty(), pred);
    } else {
        assert(tabbed(c).drop_last() =~= joined(c));
    }
}

proof fn lemma_blocks_items(ts: Seq<SingleTwist>)
    ensures
        blocks(ts).map_values(|c: Seq<SingleTwist>| line_items(block_line(c))).flatten()
            == twist_texts(ts),
    decreases ts.len(),
{
    let f = |c: Seq<SingleTwist>| line_items(block_line(c));
    if ts.len() == 0 {
        assert(twist_texts(ts) =~= Seq::<Seq<char>>::empty());
    } else if ts.len() <= 10 {
        lemma_block_items(ts);
        let m = blocks(ts).map_values(f);
        assert(m =~= seq![twist_texts(ts)]);
        m.lemma_flatten_one_element();
    } else {
        let head = ts.take(10);
        let rest = ts.skip(10);
        lemma_block_items(head);
        lemma_blocks_items(rest);
        let m = blocks(ts).map_values(f);
        assert(m.first() == twist_texts(head));
        assert(m.drop_first() =~= blocks(rest).map_values(f));
        assert(twist_texts(ts) =~= twist_texts(head) + twist_texts(rest));
    }
}

proof fn lemma_load_texts(ts: Seq<SingleTwist>, n: nat)
    requires
        forall|i: int| 0 <= i < ts.len() ==> loadable(#[trigger] ts[i], n),
    ensures
        load_items(twist_texts(ts), n) == Ok::<Seq<SingleTwist>, Seq<char>>(ts),
    decreases ts.len(),
{
    if ts.len() > 0 {
        let t = ts.last();
        assert(loadable(ts[ts.len() - 1], n));
        lemma_load_texts(ts.drop_last(), n);
        lemma_twist_text_round_trip(t, n);
        assert(twist_texts(ts).drop_last() =~= twist_texts(ts.drop_last()));
        assert(twist_texts(ts).last() == twist_text(t));
        assert(SingleTwist { macro_start: t.macro_start && !t.macro_end, macro_end: t.macro_end
            && !t.macro_start, ..t } == t);
        assert(ts.drop_last().push(t) =~= ts);
    } else {
        assert(twist_texts(ts) =~= Seq::<Seq<char>>::empty());
        assert(ts =~= Seq::<SingleTwist>::empty());
    }
}

/// Twists saved in blocks read back as themselves: the items of the saved block lines load as
/// the twists that were saved, when each can be (see [`loadable`]).
pub proof fn lemma_saved_twists_read_back(ts: Seq<SingleTwist>, num_twist_data: nat)
    requires
        forall|i: int| 0 <= i < ts.len() ==> loadable(#[trigger] ts[i], num_twist_data),
    ensures
        load_items(saved_block_items(ts), num_twist_data) == Ok::<Seq<SingleTwist>, Seq<char>>(ts),
{
    let m = blocks(ts).map_values(|c: Seq<SingleTwist>| line_items(block_line(c)));
    lemma_blocks_items(ts);
    m.lemma_flatten_and_flatten_alt_are_equivalent();
    lemma_load_texts(ts, num_twist_data);
}

} // verus!
