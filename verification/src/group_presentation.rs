//! Reads presentations of regular maps, from
//! https://www.math.auckland.ac.nz/~conder/OrientableRegularMaps101.txt
//! (see also http://dfgm.math.msu.su/files/papers-sym/conder.pdf).

use crate::text::{
    append_chars, chars_of, parse_int, parse_int_chars, split, split_chars, string_of, trim,
    trim_chars, trim_end, CharClass, is_ws, is_whitespace,
};
use vstd::prelude::*;

verus! {

#[derive(Debug, Clone, PartialEq, Eq)]
pub struct PresentationError(pub String);

// ----- Reading powers -----------------------------------------------------------------------

pub open spec fn missing_power_message() -> Seq<char> {
    "missing power"@
}

pub open spec fn bad_power_message(s: Seq<char>) -> Seq<char> {
    "bad power "@ + s
}

/// The single digit power (possibly negative) after a caret.
pub open spec fn read_power(word: Seq<char>, caret: int) -> Result<int, Seq<char>> {
    let start = caret + 1;
    let length = if 0 <= start < word.len() && word[start] == '-' {
        2int
    } else {
        1int
    };
    if start + length > word.len() {
        Err(missing_power_message())
    } else {
        let s = word.subrange(start, start + length);
        match parse_int(s, 10, i32::MIN as int, i32::MAX as int) {
            Some(v) => Ok(v),
            None => Err(bad_power_message(s)),
        }
    }
}

// ----- Reversing words ----------------------------------------------------------------------

/// The inverse of a generator: `R` and `r`, `S` and `s` swap; `T` is its own inverse.
pub open spec fn inverse_generator(g: Seq<char>) -> Option<Seq<char>> {
    if g == seq!['R'] {
        Some(seq!['r'])
    } else if g == seq!['r'] {
        Some(seq!['R'])
    } else if g == seq!['S'] {
        Some(seq!['s'])
    } else if g == seq!['s'] {
        Some(seq!['S'])
    } else if g == seq!['T'] {
        Some(seq!['T'])
    } else {
        None
    }
}

pub open spec fn unknown_generator_message(g: Seq<char>) -> Seq<char> {
    "unknown generator "@ + g
}

pub open spec fn powers_in_reverse_message() -> Seq<char> {
    "can't reverse a word containing powers"@
}

/// The inverses of the generators, last first (the first unknown one, from the end, fails).
pub open spec fn inverses_reversed(gs: Seq<Seq<char>>) -> Result<Seq<Seq<char>>, Seq<char>>
    decreases gs.len(),
{
    if gs.len() == 0 {
        Ok(Seq::empty())
    } else {
        match inverse_generator(gs.last()) {
            None => Err(unknown_generator_message(gs.last())),
            Some(g) => match inverses_reversed(gs.drop_last()) {
                Err(e) => Err(e),
                Ok(r) => Ok(seq![g] + r),
            },
        }
    }
}

/// Pieces joined with a separator.
pub open spec fn join(pieces: Seq<Seq<char>>, sep: char) -> Seq<char>
    decreases pieces.len(),
{
    if pieces.len() == 0 {
        Seq::empty()
    } else if pieces.len() == 1 {
        pieces[0]
    } else {
        join(pieces.drop_last(), sep) + seq![sep] + pieces.last()
    }
}

/// The inverse of a word of generators separated by `*`.
pub open spec fn reverse_word(word: Seq<char>) -> Result<Seq<char>, Seq<char>> {
    if word.contains('^') {
        Err(powers_in_reverse_message())
    } else {
        match inverses_reversed(split(word, '*')) {
            Err(e) => Err(e),
            Ok(r) => Ok(join(r, '*')),
        }
    }
}

/// `val` repeated `power` times, joined by `*`; a negative power repeats the inverse.
pub open spec fn expand_power(power: int, val: Seq<char>) -> Result<Seq<char>, Seq<char>> {
    if power < 0 {
        match reverse_word(val) {
            Err(e) => Err(e),
            Ok(v) => Ok(join(Seq::new((-power) as nat, |i: int| v), '*')),
        }
    } else {
        Ok(join(Seq::new(power as nat, |i: int| val), '*'))
    }
}

// ----- Simple powers ------------------------------------------------------------------------

/// Whether position `i` holds a caret not preceded by a closing paren.
pub open spec fn is_simple_caret(chars: Seq<char>, i: int) -> bool {
    chars[i] == '^' && (i == 0 || chars[i - 1] != ')')
}

/// The simple carets among the first `k` characters, in order.
pub open spec fn simple_carets(chars: Seq<char>, k: int) -> Seq<int>
    decreases k,
{
    if k <= 0 {
        Seq::empty()
    } else if is_simple_caret(chars, k - 1) {
        simple_carets(chars, k - 1).push(k - 1)
    } else {
        simple_carets(chars, k - 1)
    }
}

/// Expanding the simple power at a caret, in the partly expanded `result`.
pub open spec fn simple_step(
    chars: Seq<char>,
    condensed: Seq<char>,
    result: Seq<char>,
    caret: int,
) -> Result<Seq<char>, Seq<char>> {
    if caret == 0 {
        Err(condensed)
    } else {
        match read_power(chars, caret) {
            Err(e) => Err(e),
            Ok(power) => match expand_power(power, seq![chars[caret - 1]]) {
                Err(e) => Err(e),
                Ok(expanded) => {
                    let length = if power < 0 {
                        4int
                    } else {
                        3int
                    };
                    let end = if caret - 1 + length < result.len() {
                        caret - 1 + length
                    } else {
                        result.len() as int
                    };
                    Ok(result.subrange(0, caret - 1) + expanded + result.subrange(end, result.len() as int))
                },
            },
        }
    }
}

/// Expanding the simple powers at the carets, last first.
pub open spec fn simple_loop(
    chars: Seq<char>,
    condensed: Seq<char>,
    carets: Seq<int>,
    result: Seq<char>,
) -> Result<Seq<char>, Seq<char>>
    decreases carets.len(),
{
    if carets.len() == 0 {
        Ok(result)
    } else {
        match simple_step(chars, condensed, result, carets.last()) {
            Err(e) => Err(e),
            Ok(r) => simple_loop(chars, condensed, carets.drop_last(), r),
        }
    }
}

/// Expands carets not preceded by a closing paren, e.g. `S^3` -> `S*S*S`.
pub open spec fn expand_simple_powers(condensed: Seq<char>) -> Result<Seq<char>, Seq<char>> {
    simple_loop(condensed, condensed, simple_carets(condensed, condensed.len() as int), condensed)
}

// ----- Parenthesized powers -----------------------------------------------------------------

/// The first `(` at or after `p`.
pub open spec fn first_open(s: Seq<char>, p: int) -> Option<int>
    decreases s.len() - p,
{
    if p < 0 || p >= s.len() {
        None
    } else if s[p] == '(' {
        Some(p)
    } else {
        first_open(s, p + 1)
    }
}

/// Where the count of open parens, `count` before position `p`, first drops to zero.
pub open spec fn close_from(s: Seq<char>, p: int, count: int) -> Option<int>
    decreases s.len() - p,
{
    if p < 0 || p >= s.len() {
        None
    } else {
        let c = if s[p] == '(' {
            count + 1
        } else if s[p] == ')' {
            count - 1
        } else {
            count
        };
        if c == 0 {
            Some(p)
        } else {
            close_from(s, p + 1, c)
        }
    }
}

pub open spec fn unbalanced_message() -> Seq<char> {
    "unbalanced parentheses"@
}

pub open spec fn expected_power_message() -> Seq<char> {
    "expected a power after parentheses"@
}

pub proof fn lemma_close_from_range(s: Seq<char>, p: int, count: int)
    requires
        0 <= p,
    ensures
        close_from(s, p, count) matches Some(e) ==> p <= e < s.len(),
    decreases s.len() - p,
{
    if 0 <= p < s.len() {
        let c = if s[p] == '(' {
            count + 1
        } else if s[p] == ')' {
            count - 1
        } else {
            count
        };
        if c != 0 {
            lemma_close_from_range(s, p + 1, c);
        }
    }
}

pub proof fn lemma_first_open_range(s: Seq<char>, p: int)
    requires
        0 <= p,
    ensures
        first_open(s, p) matches Some(a) ==> p <= a < s.len() && s[a] == '(' && forall|j: int|
            p <= j < a ==> s[j] != '(',
        first_open(s, p) is None ==> forall|j: int| p <= j < s.len() ==> s[j] != '(',
    decreases s.len() - p,
{
    if 0 <= p < s.len() && s[p] != '(' {
        lemma_first_open_range(s, p + 1);
    }
}

/// A measure of the work left in expanding parenthesized powers: each group counts ten times
/// what its inside does, plus one, so replacing it by at most nine copies of its inside makes
/// progress.
pub open spec fn paren_weight(s: Seq<char>) -> nat
    decreases s.len(),
{
    match first_open(s, 0) {
        None => 0,
        Some(a) => match close_from(s, a + 1, 1) {
            None => 0,
            Some(e) => {
                proof {
                    lemma_first_open_range(s, 0);
                    lemma_close_from_range(s, a + 1, 1);
                }
                10 * (paren_weight(s.subrange(a + 1, e)) + 1) + paren_weight(
                    s.subrange(e + 1, s.len() as int),
                )
            },
        },
    }
}

/// One expansion: the first parenthesized group, raised to its power, spliced in place of the
/// group and its power; then trailing spaces and `*` are trimmed.
pub open spec fn paren_step(s: Seq<char>, start: int) -> Result<Seq<char>, Seq<char>> {
    match close_from(s, start + 1, 1) {
        None => Err(unbalanced_message()),
        Some(end) => if !(end + 1 < s.len() && s[end + 1] == '^') {
            Err(expected_power_message())
        } else {
            match read_power(s, end + 1) {
                Err(e) => Err(e),
                Ok(power) => match expand_power(power, s.subrange(start + 1, end)) {
                    Err(e) => Err(e),
                    Ok(x) => {
                        let rest_start = if power < 0 {
                            end + 4
                        } else {
                            end + 3
                        };
                        let rest = if rest_start <= s.len() {
                            s.subrange(rest_start, s.len() as int)
                        } else {
                            Seq::empty()
                        };
                        Ok(trim_end(s.subrange(0, start) + x + rest, CharClass::SpaceOrStar))
                    },
                },
            }
        },
    }
}

// ----- Why expanding parenthesized powers terminates ---------------------------------------

pub open spec fn paren_delta(c: char) -> int {
    if c == '(' {
        1
    } else if c == ')' {
        -1
    } else {
        0
    }
}

/// Open parens minus closing ones.
pub open spec fn net(s: Seq<char>) -> int
    decreases s.len(),
{
    if s.len() == 0 {
        0
    } else {
        paren_delta(s[0]) + net(s.drop_first())
    }
}

/// Balanced parens: as many of each, and never more closing than open ones so far.
pub open spec fn balanced(x: Seq<char>) -> bool {
    net(x) == 0 && forall|k: int| 0 <= k <= x.len() ==> net(#[trigger] x.take(k)) >= 0
}

pub open spec fn no_open(s: Seq<char>) -> bool {
    forall|i: int| 0 <= i < s.len() ==> s[i] != '('
}

pub open spec fn no_parens(s: Seq<char>) -> bool {
    forall|i: int| 0 <= i < s.len() ==> s[i] != '(' && s[i] != ')'
}

proof fn lemma_net_concat(a: Seq<char>, b: Seq<char>)
    ensures
        net(a + b) == net(a) + net(b),
    decreases a.len(),
{
    if a.len() > 0 {
        assert((a + b).drop_first() =~= a.drop_first() + b);
        lemma_net_concat(a.drop_first(), b);
    } else {
        assert(a + b =~= b);
    }
}

proof fn lemma_net_no_parens(s: Seq<char>)
    requires
        no_parens(s),
    ensures
        net(s) == 0,
    decreases s.len(),
{
    if s.len() > 0 {
        lemma_net_no_parens(s.drop_first());
    }
}

proof fn lemma_balanced_concat(a: Seq<char>, b: Seq<char>)
    requires
        balanced(a),
        balanced(b),
    ensures
        balanced(a + b),
{
    lemma_net_concat(a, b);
    assert forall|k: int| 0 <= k <= (a + b).len() implies net(#[trigger] (a + b).take(k)) >= 0 by {
        if k <= a.len() {
            assert((a + b).take(k) =~= a.take(k));
        } else {
            assert((a + b).take(k) =~= a + b.take(k - a.len()));
            lemma_net_concat(a, b.take(k - a.len()));
        }
    }
}

proof fn lemma_balanced_no_parens(s: Seq<char>)
    requires
        no_parens(s),
    ensures
        balanced(s),
{
    lemma_net_no_parens(s);
    assert forall|k: int| 0 <= k <= s.len() implies net(#[trigger] s.take(k)) >= 0 by {
        lemma_net_no_parens(s.take(k));
    }
}

/// Scanning from `p` with a positive count: where it stops, the text scanned has net parens
/// `-count` and never got there before.
proof fn lemma_close_from_net(s: Seq<char>, p: int, count: int)
    requires
        0 <= p,
        count >= 1,
    ensures
        close_from(s, p, count) matches Some(e) ==> {
            &&& p <= e < s.len()
            &&& s[e] == ')'
            &&& count + net(s.subrange(p, e)) == 1
            &&& forall|q: int| p <= q <= e ==> count + net(#[trigger] s.subrange(p, q)) >= 1
        },
    decreases s.len() - p,
{
    if 0 <= p < s.len() {
        let c = count + paren_delta(s[p]);
        if c != 0 {
            lemma_close_from_net(s, p + 1, c);
            if let Some(e) = close_from(s, p, count) {
                assert forall|q: int| p <= q <= e implies count + net(#[trigger] s.subrange(p, q))
                    >= 1 by {
                    if q > p {
                        assert(s.subrange(p, q).drop_first() =~= s.subrange(p + 1, q));
                    } else {
                        assert(s.subrange(p, q) =~= Seq::<char>::empty());
                    }
                }
                assert(s.subrange(p, e).drop_first() =~= s.subrange(p + 1, e));
                assert(s.subrange(p + 1, e + 1).drop_first().len() >= 0);
            }
        } else {
            assert(s.subrange(p, p) =~= Seq::<char>::empty());
            assert forall|q: int| p <= q <= p implies count + net(#[trigger] s.subrange(p, q)) >= 1 by {
                assert(s.subrange(p, q) =~= Seq::<char>::empty());
            }
        }
    }
}

/// The inside of a group found by scanning is balanced.
proof fn lemma_group_inside_balanced(s: Seq<char>, start: int)
    requires
        0 <= start,
        close_from(s, start + 1, 1) is Some,
    ensures
        balanced(s.subrange(start + 1, close_from(s, start + 1, 1)->0)),
{
    let e = close_from(s, start + 1, 1)->0;
    lemma_close_from_net(s, start + 1, 1);
    let x = s.subrange(start + 1, e);
    assert forall|k: int| 0 <= k <= x.len() implies net(#[trigger] x.take(k)) >= 0 by {
        assert(x.take(k) =~= s.subrange(start + 1, start + 1 + k));
    }
}

proof fn lemma_close_from_shift(a: Seq<char>, z: Seq<char>, p: int, count: int)
    requires
        0 <= p,
    ensures
        close_from(a + z, a.len() + p, count) == match close_from(z, p, count) {
            Some(e) => Some(e + a.len()),
            None => None,
        },
    decreases z.len() - p,
{
    if p < z.len() {
        assert((a + z)[a.len() + p] == z[p]);
        let c = count + paren_delta(z[p]);
        if c != 0 {
            lemma_close_from_shift(a, z, p + 1, c);
        }
    }
}

proof fn lemma_close_from_extend(s: Seq<char>, z: Seq<char>, p: int, count: int)
    requires
        0 <= p,
        close_from(s, p, count) is Some,
    ensures
        close_from(s + z, p, count) == close_from(s, p, count),
    decreases s.len() - p,
{
    assert((s + z)[p] == s[p]);
    let c = count + paren_delta(s[p]);
    if c != 0 {
        lemma_close_from_extend(s, z, p + 1, c);
    }
}

proof fn lemma_close_from_no_parens(t: Seq<char>, p: int, count: int)
    requires
        0 <= p,
        count != 0,
        forall|i: int| p <= i < t.len() ==> t[i] != '(' && t[i] != ')',
    ensures
        close_from(t, p, count) is None,
    decreases t.len() - p,
{
    if p < t.len() {
        lemma_close_from_no_parens(t, p + 1, count);
    }
}

proof fn lemma_close_from_none_extend(s: Seq<char>, t: Seq<char>, p: int, count: int)
    requires
        0 <= p <= s.len(),
        count >= 1,
        close_from(s, p, count) is None,
        no_parens(t),
    ensures
        close_from(s + t, p, count) is None,
    decreases s.len() - p,
{
    if p < s.len() {
        assert((s + t)[p] == s[p]);
        let c = count + paren_delta(s[p]);
        lemma_close_from_none_extend(s, t, p + 1, c);
    } else {
        assert forall|i: int| p <= i < (s + t).len() implies (s + t)[i] != '(' && (s + t)[i]
            != ')' by {
            assert((s + t)[i] == t[i - s.len()]);
        }
        lemma_close_from_no_parens(s + t, p, count);
    }
}

proof fn lemma_first_open_shift(a: Seq<char>, z: Seq<char>, p: int)
    requires
        0 <= p,
    ensures
        first_open(a + z, a.len() + p) == match first_open(z, p) {
            Some(e) => Some(e + a.len()),
            None => None,
        },
    decreases z.len() - p,
{
    if p < z.len() {
        assert((a + z)[a.len() + p] == z[p]);
        lemma_first_open_shift(a, z, p + 1);
    }
}

proof fn lemma_first_open_skip(s: Seq<char>, p: int, q: int)
    requires
        0 <= p <= q <= s.len(),
        forall|i: int| p <= i < q ==> s[i] != '(',
    ensures
        first_open(s, p) == first_open(s, q),
    decreases q - p,
{
    if p < q {
        lemma_first_open_skip(s, p + 1, q);
    }
}

proof fn lemma_first_open_extend(s: Seq<char>, z: Seq<char>, p: int)
    requires
        0 <= p,
        first_open(s, p) is Some,
    ensures
        first_open(s + z, p) == first_open(s, p),
    decreases s.len() - p,
{
    assert((s + z)[p] == s[p]);
    if s[p] != '(' {
        lemma_first_open_extend(s, z, p + 1);
    }
}

/// Text without an open paren in front changes no weight.
proof fn lemma_weight_prefix(a: Seq<char>, z: Seq<char>)
    requires
        no_open(a),
    ensures
        paren_weight(a + z) == paren_weight(z),
{
    let s = a + z;
    lemma_first_open_skip(s, 0, a.len() as int);
    lemma_first_open_shift(a, z, 0);
    assert(a.len() + 0 == a.len());
    lemma_first_open_range(z, 0);
    if let Some(st) = first_open(z, 0) {
        lemma_close_from_shift(a, z, st + 1, 1);
        lemma_close_from_range(z, st + 1, 1);
        if let Some(e) = close_from(z, st + 1, 1) {
            assert(s.subrange(a.len() + st + 1, a.len() + e) =~= z.subrange(st + 1, e));
            assert(s.subrange(a.len() + e + 1, s.len() as int) =~= z.subrange(e + 1, z.len() as int));
        }
    }
}

/// Trailing text without parens changes no weight.
proof fn lemma_weight_suffix(s: Seq<char>, t: Seq<char>)
    requires
        no_parens(t),
    ensures
        paren_weight(s + t) == paren_weight(s),
    decreases s.len(),
{
    let w = s + t;
    lemma_first_open_range(s, 0);
    match first_open(s, 0) {
        None => {
            lemma_first_open_skip(w, 0, s.len() as int);
            lemma_first_open_shift(s, t, 0);
            lemma_first_open_range(t, 0);
            assert(first_open(t, 0) is None) by {
                if let Some(x) = first_open(t, 0) {
                    assert(t[x] == '(');
                }
            }
        },
        Some(st) => {
            lemma_first_open_extend(s, t, 0);
            lemma_close_from_range(s, st + 1, 1);
            match close_from(s, st + 1, 1) {
                None => {
                    lemma_close_from_none_extend(s, t, st + 1, 1);
                },
                Some(e) => {
                    lemma_close_from_extend(s, t, st + 1, 1);
                    assert(w.subrange(st + 1, e) =~= s.subrange(st + 1, e));
                    assert(w.subrange(e + 1, w.len() as int) =~= s.subrange(e + 1, s.len() as int) + t);
                    lemma_weight_suffix(s.subrange(e + 1, s.len() as int), t);
                },
            }
        },
    }
}

proof fn lemma_net_single(c: char)
    ensures
        net(seq![c]) == paren_delta(c),
{
    assert(seq![c].drop_first() =~= Seq::<char>::empty());
    assert(net(Seq::<char>::empty()) == 0);
}

proof fn lemma_net_take_step(x: Seq<char>, k: int)
    requires
        0 <= k < x.len(),
    ensures
        net(x.take(k + 1)) == net(x.take(k)) + paren_delta(x[k]),
{
    assert(x.take(k + 1) =~= x.take(k) + seq![x[k]]);
    lemma_net_concat(x.take(k), seq![x[k]]);
    lemma_net_single(x[k]);
}

/// In balanced text, a closing paren needs an open one before it.
proof fn lemma_balanced_no_close_before(x: Seq<char>, a: int)
    requires
        balanced(x),
        0 <= a <= x.len(),
        forall|i: int| 0 <= i < a ==> x[i] != '(',
    ensures
        forall|i: int| 0 <= i < a ==> x[i] != ')',
        net(x.take(a)) == 0,
    decreases a,
{
    if a > 0 {
        lemma_balanced_no_close_before(x, a - 1);
        lemma_net_take_step(x, a - 1);
        assert(net(x.take(a)) >= 0);
    } else {
        assert(x.take(0) =~= Seq::<char>::empty());
    }
}

proof fn lemma_net_subrange_step(s: Seq<char>, p: int, q: int)
    requires
        0 <= p < q <= s.len(),
    ensures
        net(s.subrange(p, q)) == paren_delta(s[p]) + net(s.subrange(p + 1, q)),
{
    assert(s.subrange(p, q).drop_first() =~= s.subrange(p + 1, q));
}

/// A scan whose count must reach zero finds its closing paren.
proof fn lemma_close_exists(s: Seq<char>, p: int, count: int)
    requires
        0 <= p <= s.len(),
        count >= 1,
        count + net(s.subrange(p, s.len() as int)) <= 0,
    ensures
        close_from(s, p, count) is Some,
    decreases s.len() - p,
{
    if p == s.len() {
        assert(s.subrange(p, p) =~= Seq::<char>::empty());
    } else {
        lemma_net_subrange_step(s, p, s.len() as int);
        let c = count + paren_delta(s[p]);
        if c != 0 {
            lemma_close_exists(s, p + 1, c);
        }
    }
}

/// Weight adds up over balanced text.
proof fn lemma_weight_concat(x: Seq<char>, z: Seq<char>)
    requires
        balanced(x),
    ensures
        paren_weight(x + z) == paren_weight(x) + paren_weight(z),
    decreases x.len(),
{
    let w = x + z;
    lemma_first_open_range(x, 0);
    match first_open(x, 0) {
        None => {
            lemma_balanced_no_close_before(x, x.len() as int);
            assert(no_open(x));
            lemma_weight_prefix(x, z);
        },
        Some(a) => {
            lemma_balanced_no_close_before(x, a);
            lemma_net_take_step(x, a);
            lemma_first_open_extend(x, z, 0);
            // The group closes inside x.
            assert(x =~= x.take(a + 1) + x.subrange(a + 1, x.len() as int));
            lemma_net_concat(x.take(a + 1), x.subrange(a + 1, x.len() as int));
            lemma_close_exists(x, a + 1, 1);
            let e = close_from(x, a + 1, 1)->0;
            lemma_close_from_net(x, a + 1, 1);
            lemma_close_from_extend(x, z, a + 1, 1);
            // What follows the group is balanced.
            let rest = x.subrange(e + 1, x.len() as int);
            assert(x.take(e + 1) =~= x.take(a + 1) + x.subrange(a + 1, e) + seq![x[e]]);
            lemma_net_concat(x.take(a + 1) + x.subrange(a + 1, e), seq![x[e]]);
            lemma_net_concat(x.take(a + 1), x.subrange(a + 1, e));
            lemma_net_single(x[e]);
            assert(net(x.take(e + 1)) == 0);
            assert forall|k: int| 0 <= k <= rest.len() implies net(#[trigger] rest.take(k)) >= 0 by {
                assert(x.take(e + 1 + k) =~= x.take(e + 1) + rest.take(k));
                lemma_net_concat(x.take(e + 1), rest.take(k));
            }
            assert(x =~= x.take(e + 1) + rest);
            lemma_net_concat(x.take(e + 1), rest);
            lemma_weight_concat(rest, z);
            assert(w.subrange(a + 1, e) =~= x.subrange(a + 1, e));
            assert(w.subrange(e + 1, w.len() as int) =~= rest + z);
        },
    }
}

pub open spec fn copies(v: Seq<char>, k: nat) -> Seq<Seq<char>> {
    Seq::new(k, |i: int| v)
}

proof fn lemma_join_balanced_weight(v: Seq<char>, k: nat)
    requires
        balanced(v),
    ensures
        balanced(join(copies(v, k), '*')),
        paren_weight(join(copies(v, k), '*')) == k * paren_weight(v),
    decreases k,
{
    let c = copies(v, k);
    if k == 0 {
        assert(join(c, '*') =~= Seq::<char>::empty());
        lemma_balanced_no_parens(Seq::<char>::empty());
        assert(first_open(Seq::<char>::empty(), 0) is None);
        assert(k * paren_weight(v) == 0) by (nonlinear_arith)
            requires
                k == 0,
        ;
    } else if k == 1 {
        assert(join(c, '*') == v);
        assert(k * paren_weight(v) == paren_weight(v)) by (nonlinear_arith)
            requires
                k == 1,
        ;
    } else {
        assert(c.drop_last() =~= copies(v, (k - 1) as nat));
        lemma_join_balanced_weight(v, (k - 1) as nat);
        let j = join(copies(v, (k - 1) as nat), '*');
        assert(join(c, '*') =~= j + (seq!['*'] + v));
        lemma_balanced_no_parens(seq!['*']);
        lemma_balanced_concat(seq!['*'], v);
        lemma_balanced_concat(j, seq!['*'] + v);
        lemma_weight_concat(j, seq!['*'] + v);
        lemma_weight_prefix(seq!['*'], v);
        assert(paren_weight(join(c, '*')) == paren_weight(j) + paren_weight(v));
        assert((k - 1) * paren_weight(v) + paren_weight(v) == k * paren_weight(v)) by (nonlinear_arith);
    }
}

proof fn lemma_join_no_parens(pieces: Seq<Seq<char>>)
    requires
        forall|i: int| 0 <= i < pieces.len() ==> no_parens(#[trigger] pieces[i]),
    ensures
        no_parens(join(pieces, '*')),
    decreases pieces.len(),
{
    if pieces.len() > 1 {
        lemma_join_no_parens(pieces.drop_last());
        let j = join(pieces.drop_last(), '*');
        assert forall|i: int| 0 <= i < join(pieces, '*').len() implies join(pieces, '*')[i] != '('
            && join(pieces, '*')[i] != ')' by {
            if i < j.len() {
                assert(join(pieces, '*')[i] == j[i]);
            } else if i > j.len() {
                assert(join(pieces, '*')[i] == pieces.last()[i - j.len() - 1]);
            }
        }
    }
}

proof fn lemma_inverses_no_parens(gs: Seq<Seq<char>>)
    requires
        inverses_reversed(gs) is Ok,
    ensures
        forall|i: int|
            0 <= i < inverses_reversed(gs)->Ok_0.len() ==> no_parens(
                #[trigger] inverses_reversed(gs)->Ok_0[i],
            ),
    decreases gs.len(),
{
    if gs.len() > 0 {
        lemma_inverses_no_parens(gs.drop_last());
        let g = inverse_generator(gs.last())->0;
        let r = inverses_reversed(gs.drop_last())->Ok_0;
        assert forall|i: int| 0 <= i < (seq![g] + r).len() implies no_parens(#[trigger] (seq![g] + r)[i]) by {
            if i > 0 {
                assert((seq![g] + r)[i] == r[i - 1]);
            }
        }
    }
}

/// A power read is a single digit, possibly negative; its characters are not parens.
proof fn lemma_read_power_small(word: Seq<char>, caret: int)
    requires
        0 <= caret,
        read_power(word, caret) is Ok,
    ensures
        -9 <= read_power(word, caret)->Ok_0 <= 9,
        caret + 2 + (if read_power(word, caret)->Ok_0 < 0 {
            1int
        } else {
            0
        }) <= word.len(),
        forall|i: int|
            caret + 1 <= i < caret + 2 + (if read_power(word, caret)->Ok_0 < 0 {
                1int
            } else {
                0
            }) ==> word[i] != '(' && word[i] != ')',
{
    let start = caret + 1;
    let length = if 0 <= start < word.len() && word[start] == '-' {
        2int
    } else {
        1int
    };
    let s = word.subrange(start, start + length);
    let c = s[length - 1];
    if length == 1 {
        assert(s.drop_last() =~= Seq::<char>::empty());
        assert(crate::text::digits_value(Seq::<char>::empty(), 10) == Some(0int));
    } else {
        assert(s.drop_first().drop_last() =~= Seq::<char>::empty());
        assert(crate::text::digits_value(Seq::<char>::empty(), 10) == Some(0int));
    }
    assert(word[start + length - 1] == c);
}

proof fn lemma_trim_end_split(t: Seq<char>, class: CharClass)
    ensures
        exists|k: int|
            0 <= k <= t.len() && trim_end(t, class) == t.take(k) && forall|i: int|
                k <= i < t.len() ==> crate::text::in_class(#[trigger] t[i], class),
    decreases t.len(),
{
    if t.len() > 0 && crate::text::in_class(t.last(), class) {
        lemma_trim_end_split(t.drop_last(), class);
        let k = choose|k: int|
            0 <= k <= t.drop_last().len() && trim_end(t.drop_last(), class) == t.drop_last().take(
                k,
            ) && forall|i: int|
                k <= i < t.drop_last().len() ==> crate::text::in_class(
                    #[trigger] t.drop_last()[i],
                    class,
                );
        assert(t.drop_last().take(k) =~= t.take(k));
        assert forall|i: int| k <= i < t.len() implies crate::text::in_class(#[trigger] t[i], class) by {
            if i < t.len() - 1 {
                assert(t[i] == t.drop_last()[i]);
            }
        }
    } else {
        assert(t.take(t.len() as int) =~= t);
    }
}

/// Each expansion step lowers the weight, so the expansion terminates.
pub proof fn lemma_paren_step_decreases(s: Seq<char>, start: int)
    requires
        first_open(s, 0) == Some(start),
        paren_step(s, start) is Ok,
    ensures
        paren_weight(paren_step(s, start)->Ok_0) < paren_weight(s),
{
    lemma_first_open_range(s, 0);
    let end = close_from(s, start + 1, 1)->0;
    lemma_close_from_range(s, start + 1, 1);
    lemma_group_inside_balanced(s, start);
    lemma_read_power_small(s, end + 1);
    let power = read_power(s, end + 1)->Ok_0;
    let sub = s.subrange(start + 1, end);
    let x = expand_power(power, sub)->Ok_0;
    let rest_start = if power < 0 {
        end + 4
    } else {
        end + 3
    };
    let rest = if rest_start <= s.len() {
        s.subrange(rest_start, s.len() as int)
    } else {
        Seq::empty()
    };
    let after = s.subrange(end + 1, s.len() as int);
    // The expansion is balanced, and weighs at most nine times the group's inside.
    if power < 0 {
        let gs = split(sub, '*');
        lemma_inverses_no_parens(gs);
        lemma_join_no_parens(inverses_reversed(gs)->Ok_0);
        let v = join(inverses_reversed(gs)->Ok_0, '*');
        assert forall|i: int| 0 <= i < copies(v, (-power) as nat).len() implies no_parens(
            #[trigger] copies(v, (-power) as nat)[i],
        ) by {}
        lemma_join_no_parens(copies(v, (-power) as nat));
        lemma_balanced_no_parens(x);
        lemma_weight_suffix(Seq::<char>::empty(), x);
        assert(Seq::<char>::empty() + x =~= x);
        assert(first_open(Seq::<char>::empty(), 0) is None);
        assert(paren_weight(x) == 0);
    } else {
        lemma_join_balanced_weight(sub, power as nat);
        assert(power * paren_weight(sub) <= 9 * paren_weight(sub)) by (nonlinear_arith)
            requires
                0 <= power <= 9,
        ;
    }
    // What follows the power weighs what followed the group.
    if rest_start <= s.len() {
        let skipped = s.subrange(end + 1, rest_start);
        assert(no_open(skipped)) by {
            assert forall|i: int| 0 <= i < skipped.len() implies skipped[i] != '(' by {
                assert(skipped[i] == s[end + 1 + i]);
            }
        }
        assert(after =~= skipped + rest);
        lemma_weight_prefix(skipped, rest);
    } else {
        assert(first_open(Seq::<char>::empty(), 0) is None);
    }
    // The splice, trimmed.
    let t = s.subrange(0, start) + x + rest;
    lemma_trim_end_split(t, CharClass::SpaceOrStar);
    let k = choose|k: int|
        0 <= k <= t.len() && trim_end(t, CharClass::SpaceOrStar) == t.take(k) && forall|i: int|
            k <= i < t.len() ==> crate::text::in_class(#[trigger] t[i], CharClass::SpaceOrStar);
    assert(t =~= t.take(k) + t.skip(k));
    assert(no_parens(t.skip(k))) by {
        assert forall|i: int| 0 <= i < t.skip(k).len() implies t.skip(k)[i] != '(' && t.skip(k)[i]
            != ')' by {
            assert(t.skip(k)[i] == t[k + i]);
        }
    }
    lemma_weight_suffix(t.take(k), t.skip(k));
    assert(no_open(s.subrange(0, start)));
    assert(t =~= s.subrange(0, start) + (x + rest));
    lemma_weight_prefix(s.subrange(0, start), x + rest);
    lemma_weight_concat(x, rest);
}

/// Expands parenthesized powers, first group first, e.g. `(R*S)^2` -> `R*S*R*S`.
pub open spec fn expand_paren_powers(s: Seq<char>) -> Result<Seq<char>, Seq<char>>
    decreases paren_weight(s),
{
    match first_open(s, 0) {
        None => Ok(s),
        Some(start) => match paren_step(s, start) {
            Err(e) => Err(e),
            Ok(n) => {
                proof {
                    lemma_paren_step_decreases(s, start);
                }
                expand_paren_powers(n)
            },
        },
    }
}

// ----- Reflections --------------------------------------------------------------------------

/// A rotary generator as reflections: `R` = `a*b`, `S` = `b*c`, their inverses reversed, and
/// `T` = `b`.
pub open spec fn rotary_char(c: char) -> Seq<char> {
    if c == 'R' {
        seq!['a', '*', 'b']
    } else if c == 'r' {
        seq!['b', '*', 'a']
    } else if c == 'S' {
        seq!['b', '*', 'c']
    } else if c == 's' {
        seq!['c', '*', 'b']
    } else if c == 'T' {
        seq!['b']
    } else {
        seq![c]
    }
}

/// Turn a rotary word (R, S, T) into a reflection one (a, b, c).
pub open spec fn rotary_to_reflections(s: Seq<char>) -> Seq<char>
    decreases s.len(),
{
    if s.len() == 0 {
        Seq::empty()
    } else {
        rotary_to_reflections(s.drop_last()) + rotary_char(s.last())
    }
}

/// A rotary generator's inverse: `R` and `r`, `S` and `s` swapped; `T` (a reflection) and
/// everything else as it is.
pub open spec fn inverse_letter(c: char) -> char {
    if c == 'R' {
        'r'
    } else if c == 'r' {
        'R'
    } else if c == 'S' {
        's'
    } else if c == 's' {
        'S'
    } else {
        c
    }
}

/// The inverse of a rotary word: its generators in reverse order, each inverted.
pub open spec fn inverse_word(w: Seq<char>) -> Seq<char> {
    w.reverse().map_values(|c: char| inverse_letter(c))
}

/// The rotary generators as reflections: `R` is the reflection in mirror a followed by the
/// reflection in b, `S` that in b followed by c, and `T` the reflection in b. Reflections undo
/// themselves, so an inverse generator is its reflections in reverse order; and so the
/// reflection word of the inverse of any rotary word is the reflection word of the word,
/// reversed.
pub proof fn lemma_inverse_reverses_reflections(w: Seq<char>)
    ensures
        rotary_char('R') == seq!['a', '*', 'b'],
        rotary_char('S') == seq!['b', '*', 'c'],
        rotary_char('T') == seq!['b'],
        rotary_char('r') == rotary_char('R').reverse(),
        rotary_char('s') == rotary_char('S').reverse(),
        rotary_to_reflections(inverse_word(w)) == rotary_to_reflections(w).reverse(),
        forall|g: Seq<char>|
            #[trigger] inverse_generator(g) is Some ==> rotary_to_reflections(
                inverse_generator(g)->0,
            ) == rotary_to_reflections(g).reverse(),
    decreases w.len(),
{
    assert forall|g: Seq<char>|
        #[trigger] inverse_generator(g) is Some implies rotary_to_reflections(
            inverse_generator(g)->0,
        ) == rotary_to_reflections(g).reverse() by {
        {
            let h = inverse_generator(g)->0;
            assert(g.len() == 1 && h.len() == 1);
            assert(g.drop_last() =~= Seq::<char>::empty());
            assert(h.drop_last() =~= Seq::<char>::empty());
            assert(rotary_to_reflections(Seq::<char>::empty()) == Seq::<char>::empty());
            assert(rotary_to_reflections(g) == rotary_to_reflections(g.drop_last()) + rotary_char(
                g.last(),
            ));
            assert(rotary_to_reflections(h) == rotary_to_reflections(h.drop_last()) + rotary_char(
                h.last(),
            ));
            assert(rotary_to_reflections(g) =~= rotary_char(g[0]));
            assert(rotary_to_reflections(h) =~= rotary_char(h[0]));
            assert(rotary_char(h[0]) =~= rotary_char(g[0]).reverse());
        }
    }
    assert(rotary_char('r') =~= rotary_char('R').reverse());
    assert(rotary_char('s') =~= rotary_char('S').reverse());
    if w.len() > 0 {
        let p = w.drop_last();
        let c = w.last();
        lemma_inverse_reverses_reflections(p);
        // The inverse starts with the last generator, inverted.
        let iw = inverse_word(w);
        let ip = inverse_word(p);
        assert(iw =~= seq![inverse_letter(c)] + ip);
        assert(rotary_char(inverse_letter(c)) =~= rotary_char(c).reverse());
        lemma_reflections_prepend(inverse_letter(c), ip);
        assert(rotary_to_reflections(w) == rotary_to_reflections(p) + rotary_char(c));
        assert((rotary_to_reflections(p) + rotary_char(c)).reverse() =~= rotary_char(c).reverse()
            + rotary_to_reflections(p).reverse());
    } else {
        assert(inverse_word(w) =~= Seq::<char>::empty());
        assert(rotary_to_reflections(w).reverse() =~= Seq::<char>::empty());
    }
}

/// A generator in front of a word puts its reflections in front.
proof fn lemma_reflections_prepend(c: char, w: Seq<char>)
    ensures
        rotary_to_reflections(seq![c] + w) == rotary_char(c) + rotary_to_reflections(w),
    decreases w.len(),
{
    if w.len() > 0 {
        lemma_reflections_prepend(c, w.drop_last());
        assert((seq![c] + w).drop_last() =~= seq![c] + w.drop_last());
        assert((seq![c] + w).last() == w.last());
        assert(rotary_char(c) + rotary_to_reflections(w.drop_last()) + rotary_char(w.last())
            =~= rotary_char(c) + (rotary_to_reflections(w.drop_last()) + rotary_char(w.last())));
    } else {
        let x = seq![c] + w;
        assert(x =~= seq![c]);
        assert(x.drop_last() =~= Seq::<char>::empty());
        assert(rotary_to_reflections(Seq::<char>::empty()) == Seq::<char>::empty());
        assert(rotary_to_reflections(w) == Seq::<char>::empty());
        assert(rotary_to_reflections(x) == rotary_to_reflections(x.drop_last()) + rotary_char(x.last()));
        assert(rotary_char(c) + Seq::<char>::empty() =~= rotary_char(c));
        assert(Seq::<char>::empty() + rotary_char(c) =~= rotary_char(c));
    }
}

/// The mirror index of a reflection: `a`, `b`, `c`, `d` are 0 to 3.
pub open spec fn mirror_of(p: Seq<char>) -> Option<usize> {
    if p == seq!['a'] {
        Some(0)
    } else if p == seq!['b'] {
        Some(1)
    } else if p == seq!['c'] {
        Some(2)
    } else if p == seq!['d'] {
        Some(3)
    } else {
        None
    }
}

/// The mirror indices of the pieces that are reflections (others are skipped).
pub open spec fn mirrors(pieces: Seq<Seq<char>>) -> Seq<usize>
    decreases pieces.len(),
{
    if pieces.len() == 0 {
        Seq::empty()
    } else {
        match mirror_of(pieces.last()) {
            Some(m) => mirrors(pieces.drop_last()).push(m),
            None => mirrors(pieces.drop_last()),
        }
    }
}

/// A word of reflections separated by `*`, as mirror indices.
pub open spec fn word_as_reflections(word: Seq<char>) -> Seq<usize> {
    mirrors(split(trim(word, CharClass::Whitespace), '*'))
}

/// One relation as mirror indices: simple powers, then parenthesized ones, then reflections.
pub open spec fn relation(condensed: Seq<char>) -> Result<Seq<usize>, Seq<char>> {
    match expand_simple_powers(condensed) {
        Err(e) => Err(e),
        Ok(r1) => match expand_paren_powers(r1) {
            Err(e) => Err(e),
            Ok(r2) => Ok(word_as_reflections(rotary_to_reflections(r2))),
        },
    }
}

/// The relations of pieces, in order, or the first error.
pub open spec fn relations(pieces: Seq<Seq<char>>) -> Result<Seq<Seq<usize>>, Seq<char>>
    decreases pieces.len(),
{
    if pieces.len() == 0 {
        Ok(Seq::empty())
    } else {
        match relations(pieces.drop_last()) {
            Err(e) => Err(e),
            Ok(rs) => match relation(pieces.last()) {
                Err(e) => Err(e),
                Ok(r) => Ok(rs.push(r)),
            },
        }
    }
}

/// The comma-separated relations of a presentation, without its brackets and white space.
pub open spec fn presentation_pieces(presentation: Seq<char>) -> Seq<Seq<char>> {
    split(trim(presentation, CharClass::Brackets).filter(|c: char| !is_ws(c)), ',')
}

/// What a presentation reads as.
pub open spec fn presentation_relations(presentation: Seq<char>) -> Result<Seq<Seq<usize>>, Seq<char>> {
    relations(presentation_pieces(presentation))
}

// ----- Executable reading -------------------------------------------------------------------

fn message(text: &str) -> (r: Vec<char>)
    ensures
        r@ == text@,
{
    chars_of(text)
}

/// The single digit power (possibly negative) after a caret.
fn read_power_chars(word: &[char], caret: usize) -> (r: Result<i32, Vec<char>>)
    requires
        caret < word@.len(),
    ensures
        match (r, read_power(word@, caret as int)) {
            (Ok(v), Ok(w)) => v == w,
            (Err(e), Err(m)) => e@ == m,
            _ => false,
        },
{
    let n = word.len();
    let start = caret + 1;
    let length: usize = if start < n && word[start] == '-' {
        2
    } else {
        1
    };
    if length > word.len() - start {
        return Err(message("missing power"));
    }
    let s = crate::text::copy_range(word, start, start + length);
    match parse_int_chars(&s, 10, i32::MIN as i128, i32::MAX as i128) {
        Some(v) => Ok(v as i32),
        None => {
            let mut m = message("bad power ");
            append_chars(&mut m, &s);
            Err(m)
        },
    }
}

/// The inverse of a generator, if it is one.
fn inverse_generator_char(g: &[char]) -> (r: Option<char>)
    ensures
        match (r, inverse_generator(g@)) {
            (Some(c), Some(h)) => h == seq![c],
            (None, None) => true,
            _ => false,
        },
{
    if g.len() != 1 {
        assert(g@ != seq!['R'] && g@ != seq!['r'] && g@ != seq!['S'] && g@ != seq!['s'] && g@
            != seq!['T']);
        return None;
    }
    assert(g@ =~= seq![g@[0]]);
    match g[0] {
        'R' => Some('r'),
        'r' => Some('R'),
        'S' => Some('s'),
        's' => Some('S'),
        'T' => Some('T'),
        _ => None,
    }
}

fn contains_char(s: &[char], c: char) -> (r: bool)
    ensures
        r == s@.contains(c),
{
    let mut i: usize = 0;
    while i < s.len()
        invariant
            0 <= i <= s@.len(),
            forall|j: int| 0 <= j < i ==> s@[j] != c,
        decreases s.len() - i,
    {
        if s[i] == c {
            assert(s@[i as int] == c);
            return true;
        }
        i = i + 1;
    }
    false
}

/// Appends `sep` then `piece`, or just `piece` to an empty join.
fn join_push(out: &mut Vec<char>, count: usize, piece: &[char], sep: char)
    ensures
        count == 0 ==> final(out)@ == old(out)@ + piece@,
        count > 0 ==> final(out)@ == old(out)@ + seq![sep] + piece@,
{
    if count > 0 {
        out.push(sep);
    }
    append_chars(out, piece);
}

proof fn lemma_join_push(pieces: Seq<Seq<char>>, p: Seq<char>, sep: char)
    ensures
        join(pieces.push(p), sep) == if pieces.len() == 0 {
            p
        } else {
            join(pieces, sep) + seq![sep] + p
        },
{
    assert(pieces.push(p).drop_last() =~= pieces);
    if pieces.len() == 0 {
        assert(pieces.push(p)[0] == p);
    }
}

/// The inverse of a word of generators separated by `*`.
fn reverse_word_chars(word: &[char]) -> (r: Result<Vec<char>, Vec<char>>)
    ensures
        match (r, reverse_word(word@)) {
            (Ok(v), Ok(w)) => v@ == w,
            (Err(e), Err(m)) => e@ == m,
            _ => false,
        },
{
    if contains_char(word, '^') {
        return Err(message("can't reverse a word containing powers"));
    }
    let gs = split_chars(word, '*');
    let ghost spec_gs = split(word@, '*');
    let mut out: Vec<char> = Vec::new();
    let ghost mut done: Seq<Seq<char>> = Seq::empty();
    let mut k: usize = gs.len();
    proof {
        assert(spec_gs.take(gs@.len() as int) =~= spec_gs);
        assert forall|r: Seq<Seq<char>>| done + r =~= r by {}
    }
    while k > 0
        invariant
            k <= gs@.len(),
            gs@.len() == spec_gs.len(),
            forall|i: int| 0 <= i < gs@.len() ==> #[trigger] gs@[i]@ == spec_gs[i],
            spec_gs == split(word@, '*'),
            !word@.contains('^'),
            done.len() == gs@.len() - k,
            inverses_reversed(spec_gs) == match inverses_reversed(spec_gs.take(k as int)) {
                Err(e) => Err(e),
                Ok(r) => Ok::<Seq<Seq<char>>, Seq<char>>(done + r),
            },
            out@ == join(done, '*'),
        decreases k,
    {
        let ghost before = spec_gs.take(k as int);
        assert(before.drop_last() =~= spec_gs.take(k - 1));
        assert(before.last() == gs@[k - 1]@);
        match inverse_generator_char(&gs[k - 1]) {
            None => {
                let mut m = message("unknown generator ");
                append_chars(&mut m, &gs[k - 1]);
                assert(inverses_reversed(before) == Err::<Seq<Seq<char>>, Seq<char>>(
                    unknown_generator_message(gs@[k - 1]@),
                ));
                assert(m@ == unknown_generator_message(gs@[k - 1]@));
                return Err(m);
            },
            Some(c) => {
                let piece: Vec<char> = vec![c];
                join_push(&mut out, gs.len() - k, &piece, '*');
                proof {
                    lemma_join_push(done, seq![c], '*');
                    assert(piece@ =~= seq![c]);
                    let old_done = done;
                    done = done.push(seq![c]);
                    assert(inverses_reversed(spec_gs) == match inverses_reversed(spec_gs.take(k - 1)) {
                        Err(e) => Err(e),
                        Ok(r) => Ok::<Seq<Seq<char>>, Seq<char>>(old_done + (seq![seq![c]] + r)),
                    });
                    assert forall|r: Seq<Seq<char>>| old_done + (seq![seq![c]] + r) =~= done + r by {}
                }
                k = k - 1;
            },
        }
    }
    assert(spec_gs.take(0) =~= Seq::<Seq<char>>::empty());
    assert(done + Seq::<Seq<char>>::empty() =~= done);
    Ok(out)
}

/// `val` repeated `power` times (never more than nine), joined by `*`.
fn repeat_join(val: &[char], power: usize) -> (r: Vec<char>)
    ensures
        r@ == join(copies(val@, power as nat), '*'),
{
    let mut out: Vec<char> = Vec::new();
    let mut i: usize = 0;
    while i < power
        invariant
            0 <= i <= power,
            out@ == join(copies(val@, i as nat), '*'),
        decreases power - i,
    {
        join_push(&mut out, i, val, '*');
        proof {
            lemma_join_push(copies(val@, i as nat), val@, '*');
            assert(copies(val@, i as nat).push(val@) =~= copies(val@, (i + 1) as nat));
        }
        i = i + 1;
    }
    out
}

/// `val` repeated `power` times, joined by `*`; a negative power repeats the inverse.
fn expand_power_chars(power: i32, val: &[char]) -> (r: Result<Vec<char>, Vec<char>>)
    requires
        -9 <= power <= 9,
    ensures
        match (r, expand_power(power as int, val@)) {
            (Ok(v), Ok(w)) => v@ == w,
            (Err(e), Err(m)) => e@ == m,
            _ => false,
        },
{
    if power < 0 {
        match reverse_word_chars(val) {
            Err(e) => Err(e),
            Ok(v) => {
                let r = repeat_join(&v, (-power) as usize);
                assert(copies(v@, (-power) as usize as nat) =~= Seq::new(
                    (-power) as nat,
                    |i: int| v@,
                ));
                Ok(r)
            },
        }
    } else {
        let r = repeat_join(val, power as usize);
        assert(copies(val@, power as usize as nat) =~= Seq::new(power as nat, |i: int| val@));
        Ok(r)
    }
}

fn simple_carets_chars(chars: &[char]) -> (r: Vec<usize>)
    ensures
        r@.len() == simple_carets(chars@, chars@.len() as int).len(),
        forall|i: int| 0 <= i < r@.len() ==> r@[i] == #[trigger] simple_carets(chars@, chars@.len() as int)[i],
        forall|i: int, j: int| 0 <= i < j < r@.len() ==> r@[i] < r@[j],
        forall|i: int| 0 <= i < r@.len() ==> r@[i] < chars@.len(),
{
    let mut r: Vec<usize> = Vec::new();
    let mut k: usize = 0;
    while k < chars.len()
        invariant
            0 <= k <= chars@.len(),
            r@.len() == simple_carets(chars@, k as int).len(),
            forall|i: int| 0 <= i < r@.len() ==> r@[i] == #[trigger] simple_carets(chars@, k as int)[i],
            forall|i: int, j: int| 0 <= i < j < r@.len() ==> r@[i] < r@[j],
            forall|i: int| 0 <= i < r@.len() ==> r@[i] < k,
        decreases chars.len() - k,
    {
        if chars[k] == '^' && (k == 0 || chars[k - 1] != ')') {
            r.push(k);
        }
        k = k + 1;
    }
    r
}

/// Expands carets not preceded by a closing paren, e.g. `S^3` -> `S*S*S`.
fn expand_simple_powers_chars(condensed: &[char]) -> (r: Result<Vec<char>, Vec<char>>)
    ensures
        match (r, expand_simple_powers(condensed@)) {
            (Ok(v), Ok(w)) => v@ == w,
            (Err(e), Err(m)) => e@ == m,
            _ => false,
        },
{
    let chars = condensed;
    let carets = simple_carets_chars(chars);
    let ghost all = simple_carets(chars@, chars@.len() as int);
    let mut result = crate::text::copy_range(chars, 0, chars.len());
    assert(chars@.subrange(0, chars@.len() as int) =~= chars@);
    let mut k: usize = carets.len();
    assert(all.take(k as int) =~= all);
    while k > 0
        invariant
            k <= carets@.len(),
            chars@ == condensed@,
            carets@.len() == all.len(),
            all == simple_carets(chars@, chars@.len() as int),
            forall|i: int| 0 <= i < carets@.len() ==> carets@[i] == #[trigger] all[i],
            forall|i: int, j: int| 0 <= i < j < carets@.len() ==> carets@[i] < carets@[j],
            forall|i: int| 0 <= i < carets@.len() ==> carets@[i] < chars@.len(),
            k > 0 ==> carets@[k - 1] <= result@.len(),
            expand_simple_powers(chars@) == simple_loop(
                chars@,
                chars@,
                all.take(k as int),
                result@,
            ),
        decreases k,
    {
        let caret = carets[k - 1];
        let ghost cs = all.take(k as int);
        let ghost step = simple_step(chars@, chars@, result@, caret as int);
        assert(cs.last() == caret as int);
        assert(cs.drop_last() =~= all.take(k - 1));
        assert(expand_simple_powers(chars@) == match step {
            Err(e) => Err(e),
            Ok(r) => simple_loop(chars@, chars@, all.take(k - 1), r),
        });
        if caret == 0 {
            assert(chars@.subrange(0, chars@.len() as int) =~= chars@);
            return Err(crate::text::copy_range(condensed, 0, condensed.len()));
        }
        let power = match read_power_chars(chars, caret) {
            Ok(v) => v,
            Err(e) => {
                return Err(e);
            },
        };
        proof {
            lemma_read_power_small(chars@, caret as int);
        }
        let single: Vec<char> = vec![chars[caret - 1]];
        assert(single@ =~= seq![chars@[caret - 1]]);
        let expanded = match expand_power_chars(power, &single) {
            Ok(v) => v,
            Err(e) => {
                return Err(e);
            },
        };
        let length: usize = if power < 0 {
            4
        } else {
            3
        };
        let end = if caret - 1 + length < result.len() {
            caret - 1 + length
        } else {
            result.len()
        };
        let mut next = crate::text::copy_range(&result, 0, caret - 1);
        append_chars(&mut next, &expanded);
        append_chars(&mut next, &crate::text::copy_range(&result, end, result.len()));
        result = next;
        proof {
            if k > 1 {
                assert(carets@[k - 2] < carets@[k - 1]);
            }
        }
        k = k - 1;
    }
    assert(all.take(0) =~= Seq::<int>::empty());
    Ok(result)
}

/// The first `(`, if any.
fn first_open_chars(s: &[char]) -> (r: Option<usize>)
    ensures
        match r {
            Some(a) => first_open(s@, 0) == Some(a as int),
            None => first_open(s@, 0) is None,
        },
{
    let mut p: usize = 0;
    while p < s.len()
        invariant
            0 <= p <= s@.len(),
            first_open(s@, 0) == first_open(s@, p as int),
        decreases s.len() - p,
    {
        if s[p] == '(' {
            return Some(p);
        }
        p = p + 1;
    }
    None
}

/// Where the paren opened at `start` closes, if it does.
fn close_from_chars(s: &[char], start: usize) -> (r: Option<usize>)
    requires
        start < s@.len(),
    ensures
        match r {
            Some(e) => close_from(s@, start + 1, 1) == Some(e as int),
            None => close_from(s@, start + 1, 1) is None,
        },
{
    let n = s.len();
    let mut p: usize = start + 1;
    let mut count: usize = 1;
    while p < n
        invariant
            start + 1 <= p <= s@.len(),
            n == s@.len(),
            1 <= count <= p,
            close_from(s@, start + 1, 1) == close_from(s@, p as int, count as int),
        decreases n - p,
    {
        if s[p] == '(' {
            count = count + 1;
        } else if s[p] == ')' {
            count = count - 1;
            if count == 0 {
                return Some(p);
            }
        }
        p = p + 1;
    }
    None
}

/// Expands parenthesized powers, first group first.
fn expand_paren_powers_chars(condensed: &[char]) -> (r: Result<Vec<char>, Vec<char>>)
    ensures
        match (r, expand_paren_powers(condensed@)) {
            (Ok(v), Ok(w)) => v@ == w,
            (Err(e), Err(m)) => e@ == m,
            _ => false,
        },
{
    let mut s = crate::text::copy_range(condensed, 0, condensed.len());
    assert(condensed@.subrange(0, condensed@.len() as int) =~= condensed@);
    loop
        invariant
            expand_paren_powers(condensed@) == expand_paren_powers(s@),
        decreases paren_weight(s@),
    {
        let start = match first_open_chars(&s) {
            None => {
                return Ok(s);
            },
            Some(a) => a,
        };
        proof {
            lemma_first_open_range(s@, 0);
        }
        let end = match close_from_chars(&s, start) {
            None => {
                return Err(message("unbalanced parentheses"));
            },
            Some(e) => e,
        };
        proof {
            lemma_close_from_range(s@, start + 1, 1);
        }
        if !(end + 1 < s.len() && s[end + 1] == '^') {
            return Err(message("expected a power after parentheses"));
        }
        let power = match read_power_chars(&s, end + 1) {
            Ok(v) => v,
            Err(e) => {
                return Err(e);
            },
        };
        proof {
            lemma_read_power_small(s@, end + 1);
        }
        let sub = crate::text::copy_range(&s, start + 1, end);
        let x = match expand_power_chars(power, &sub) {
            Ok(v) => v,
            Err(e) => {
                return Err(e);
            },
        };
        let rest_start = if power < 0 {
            end + 4
        } else {
            end + 3
        };
        let mut t = crate::text::copy_range(&s, 0, start);
        append_chars(&mut t, &x);
        if rest_start <= s.len() {
            append_chars(&mut t, &crate::text::copy_range(&s, rest_start, s.len()));
        }
        let ghost old_s = s@;
        s = crate::text::trim_end_chars(&t, CharClass::SpaceOrStar);
        proof {
            let rest = if rest_start <= old_s.len() {
                old_s.subrange(rest_start as int, old_s.len() as int)
            } else {
                Seq::empty()
            };
            assert(t@ =~= old_s.subrange(0, start as int) + x@ + rest);
            assert(paren_step(old_s, start as int) == Ok::<Seq<char>, Seq<char>>(s@));
            lemma_paren_step_decreases(old_s, start as int);
        }
    }
}

/// Turn a rotary word (R, S, T) into a reflection one (a, b, c).
fn rotary_to_reflections_chars(s: &[char]) -> (r: Vec<char>)
    ensures
        r@ == rotary_to_reflections(s@),
{
    let mut r: Vec<char> = Vec::new();
    let mut i: usize = 0;
    while i < s.len()
        invariant
            0 <= i <= s@.len(),
            r@ == rotary_to_reflections(s@.take(i as int)),
        decreases s.len() - i,
    {
        let c = s[i];
        let ghost before = r@;
        if c == 'R' {
            r.push('a');
            r.push('*');
            r.push('b');
        } else if c == 'r' {
            r.push('b');
            r.push('*');
            r.push('a');
        } else if c == 'S' {
            r.push('b');
            r.push('*');
            r.push('c');
        } else if c == 's' {
            r.push('c');
            r.push('*');
            r.push('b');
        } else if c == 'T' {
            r.push('b');
        } else {
            r.push(c);
        }
        assert(s@.take(i + 1).drop_last() =~= s@.take(i as int));
        assert(r@ =~= before + rotary_char(c));
        i = i + 1;
    }
    assert(s@.take(s@.len() as int) =~= s@);
    r
}

fn mirror_of_chars(p: &[char]) -> (r: Option<usize>)
    ensures
        r == mirror_of(p@),
{
    if p.len() != 1 {
        assert(p@ != seq!['a'] && p@ != seq!['b'] && p@ != seq!['c'] && p@ != seq!['d']);
        return None;
    }
    assert(p@ =~= seq![p@[0]]);
    match p[0] {
        'a' => Some(0),
        'b' => Some(1),
        'c' => Some(2),
        'd' => Some(3),
        _ => None,
    }
}

fn word_as_reflections_chars(word: &[char]) -> (r: Vec<usize>)
    ensures
        r@ == word_as_reflections(word@),
{
    let pieces = split_chars(&trim_chars(word, CharClass::Whitespace), '*');
    let ghost sp = split(trim(word@, CharClass::Whitespace), '*');
    let mut r: Vec<usize> = Vec::new();
    let mut i: usize = 0;
    while i < pieces.len()
        invariant
            0 <= i <= pieces@.len(),
            pieces@.len() == sp.len(),
            forall|j: int| 0 <= j < pieces@.len() ==> #[trigger] pieces@[j]@ == sp[j],
            r@ == mirrors(sp.take(i as int)),
        decreases pieces.len() - i,
    {
        assert(sp.take(i + 1).drop_last() =~= sp.take(i as int));
        match mirror_of_chars(&pieces[i]) {
            Some(m) => {
                r.push(m);
            },
            None => {},
        }
        i = i + 1;
    }
    assert(sp.take(sp.len() as int) =~= sp);
    r
}

/// One relation as mirror indices.
fn relation_chars(condensed: &[char]) -> (r: Result<Vec<usize>, Vec<char>>)
    ensures
        match (r, relation(condensed@)) {
            (Ok(v), Ok(w)) => v@ == w,
            (Err(e), Err(m)) => e@ == m,
            _ => false,
        },
{
    let r1 = match expand_simple_powers_chars(condensed) {
        Ok(v) => v,
        Err(e) => {
            return Err(e);
        },
    };
    let r2 = match expand_paren_powers_chars(&r1) {
        Ok(v) => v,
        Err(e) => {
            return Err(e);
        },
    };
    Ok(word_as_reflections_chars(&rotary_to_reflections_chars(&r2)))
}

/// Reads a presentation such as `[R^4, S^7, (R*S)^2, (R*S^-1)^6]` as a list of words in the
/// reflections a, b, c (returned as mirror indices 0, 1, 2).
pub fn read_relations(presentation: &str) -> (r: Result<Vec<Vec<usize>>, PresentationError>)
    ensures
        match (r, presentation_relations(presentation@)) {
            (Ok(v), Ok(w)) => v@.len() == w.len() && forall|i: int|
                0 <= i < w.len() ==> #[trigger] v@[i]@ == w[i],
            (Err(e), Err(m)) => e.0@ == m,
            _ => false,
        },
{
    let trimmed = trim_chars(&chars_of(presentation), CharClass::Brackets);
    let mut condensed: Vec<char> = Vec::new();
    let ghost pred = |c: char| !is_ws(c);
    let mut i: usize = 0;
    while i < trimmed.len()
        invariant
            0 <= i <= trimmed@.len(),
            pred == (|c: char| !is_ws(c)),
            condensed@ == trimmed@.take(i as int).filter(pred),
        decreases trimmed.len() - i,
    {
        assert(trimmed@.take(i + 1) =~= trimmed@.take(i as int).push(trimmed@[i as int]));
        proof {
            trimmed@.take(i as int).lemma_filter_push(trimmed@[i as int], pred);
        }
        if !is_whitespace(trimmed[i]) {
            condensed.push(trimmed[i]);
        }
        i = i + 1;
    }
    assert(trimmed@.take(trimmed@.len() as int) =~= trimmed@);
    let pieces = split_chars(&condensed, ',');
    let ghost sp = presentation_pieces(presentation@);
    let mut out: Vec<Vec<usize>> = Vec::new();
    let mut k: usize = 0;
    while k < pieces.len()
        invariant
            0 <= k <= pieces@.len(),
            pieces@.len() == sp.len(),
            sp == presentation_pieces(presentation@),
            forall|j: int| 0 <= j < pieces@.len() ==> #[trigger] pieces@[j]@ == sp[j],
            relations(sp.take(k as int)) is Ok,
            relations(sp.take(k as int))->Ok_0.len() == k,
            out@.len() == k,
            forall|j: int| 0 <= j < k ==> #[trigger] out@[j]@ == relations(sp.take(k as int))->Ok_0[j],
        decreases pieces.len() - k,
    {
        assert(sp.take(k + 1).drop_last() =~= sp.take(k as int));
        assert(sp.take(k + 1).last() == sp[k as int]);
        let ghost before = out@;
        match relation_chars(&pieces[k]) {
            Ok(r) => {
                let ghost rv = r@;
                let ghost prev = relations(sp.take(k as int))->Ok_0;
                assert(pieces@[k as int]@ == sp[k as int]);
                assert(relations(sp.take(k + 1)) == Ok::<Seq<Seq<usize>>, Seq<char>>(
                    prev.push(rv),
                ));
                out.push(r);
                assert forall|j: int| 0 <= j < k + 1 implies #[trigger] out@[j]@ == relations(
                    sp.take(k + 1),
                )->Ok_0[j] by {
                    if j < k {
                        assert(out@[j] == before[j]);
                        assert(before[j]@ == prev[j]);
                        assert(prev.push(rv)[j] == prev[j]);
                    } else {
                        assert(out@[j]@ == rv);
                        assert(prev.push(rv)[j] == rv);
                    }
                }
            },
            Err(e) => {
                proof {
                    lemma_relations_prefix(sp, k + 1);
                }
                return Err(PresentationError(string_of(&e)));
            },
        }
        k = k + 1;
    }
    assert(sp.take(sp.len() as int) =~= sp);
    Ok(out)
}

proof fn lemma_relations_prefix(pieces: Seq<Seq<char>>, k: int)
    requires
        0 <= k <= pieces.len(),
        relations(pieces.take(k)) is Err,
    ensures
        relations(pieces) == relations(pieces.take(k)),
    decreases pieces.len() - k,
{
    if k < pieces.len() {
        assert(pieces.drop_last().take(k) =~= pieces.take(k));
        lemma_relations_prefix(pieces.drop_last(), k);
    } else {
        assert(pieces.take(k) =~= pieces);
    }
}

} // verus!
