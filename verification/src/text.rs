//! Text helpers for the saved-file formats: character classes, trimming, splitting, and
//! decimal / hexadecimal integers, written against exact specifications.

use vstd::prelude::*;

verus! {

/// Unicode `White_Space`, the characters `str::trim` removes.
pub open spec fn is_ws(c: char) -> bool {
    let u = c as u32;
    ||| 0x9 <= u <= 0xD
    ||| u == 0x20
    ||| u == 0x85
    ||| u == 0xA0
    ||| u == 0x1680
    ||| 0x2000 <= u <= 0x200A
    ||| u == 0x2028
    ||| u == 0x2029
    ||| u == 0x202F
    ||| u == 0x205F
    ||| u == 0x3000
}

/// The character classes that get trimmed from the ends of saved values.
#[derive(Clone, Copy, PartialEq, Eq, Structural, Debug)]
pub enum CharClass {
    /// Unicode white space (`str::trim`).
    Whitespace,
    /// `[` and `]`, which mark macro boundaries in saved twists.
    Brackets,
    /// `[` and `]` and white space.
    BracketsAndWhitespace,
    /// A space or `*`, left over at the end of expanded group relations.
    SpaceOrStar,
}

pub open spec fn in_class(c: char, class: CharClass) -> bool {
    match class {
        CharClass::Whitespace => is_ws(c),
        CharClass::Brackets => c == '[' || c == ']',
        CharClass::BracketsAndWhitespace => c == '[' || c == ']' || is_ws(c),
        CharClass::SpaceOrStar => c == ' ' || c == '*',
    }
}

pub fn is_in_class(c: char, class: CharClass) -> (r: bool)
    ensures
        r == in_class(c, class),
{
    match class {
        CharClass::Whitespace => is_whitespace(c),
        CharClass::Brackets => c == '[' || c == ']',
        CharClass::BracketsAndWhitespace => c == '[' || c == ']' || is_whitespace(c),
        CharClass::SpaceOrStar => c == ' ' || c == '*',
    }
}

pub fn is_whitespace(c: char) -> (r: bool)
    ensures
        r == is_ws(c),
{
    let u = c as u32;
    (0x9 <= u && u <= 0xD) || u == 0x20 || u == 0x85 || u == 0xA0 || u == 0x1680 || (0x2000 <= u
        && u <= 0x200A) || u == 0x2028 || u == 0x2029 || u == 0x202F || u == 0x205F || u == 0x3000
}

/// `s` without the characters of `class` at its start.
pub open spec fn trim_start(s: Seq<char>, class: CharClass) -> Seq<char>
    decreases s.len(),
{
    if s.len() > 0 && in_class(s[0], class) {
        trim_start(s.drop_first(), class)
    } else {
        s
    }
}

/// `s` without the characters of `class` at its end.
pub open spec fn trim_end(s: Seq<char>, class: CharClass) -> Seq<char>
    decreases s.len(),
{
    if s.len() > 0 && in_class(s.last(), class) {
        trim_end(s.drop_last(), class)
    } else {
        s
    }
}

/// `s` without the characters of `class` at either end.
pub open spec fn trim(s: Seq<char>, class: CharClass) -> Seq<char> {
    trim_end(trim_start(s, class), class)
}

proof fn lemma_trim_start_skip(s: Seq<char>, class: CharClass, i: int)
    requires
        0 <= i <= s.len(),
        forall|j: int| 0 <= j < i ==> in_class(#[trigger] s[j], class),
    ensures
        trim_start(s, class) == trim_start(s.subrange(i, s.len() as int), class),
    decreases i,
{
    if i > 0 {
        assert(s.drop_first().subrange(i - 1, s.drop_first().len() as int) =~= s.subrange(
            i,
            s.len() as int,
        ));
        lemma_trim_start_skip(s.drop_first(), class, i - 1);
    } else {
        assert(s.subrange(0, s.len() as int) =~= s);
    }
}

proof fn lemma_trim_end_skip(s: Seq<char>, class: CharClass, k: int)
    requires
        0 <= k <= s.len(),
        forall|j: int| k <= j < s.len() ==> in_class(#[trigger] s[j], class),
    ensures
        trim_end(s, class) == trim_end(s.subrange(0, k), class),
    decreases s.len() - k,
{
    if k < s.len() {
        assert(s.drop_last().subrange(0, k) =~= s.subrange(0, k));
        lemma_trim_end_skip(s.drop_last(), class, k);
    } else {
        assert(s.subrange(0, k) =~= s);
    }
}

/// The characters of `s` from `start` to `end`.
pub fn copy_range(s: &[char], start: usize, end: usize) -> (r: Vec<char>)
    requires
        start <= end <= s@.len(),
    ensures
        r@ == s@.subrange(start as int, end as int),
{
    let mut r: Vec<char> = Vec::new();
    let mut i = start;
    while i < end
        invariant
            start <= i <= end <= s@.len(),
            r@ == s@.subrange(start as int, i as int),
        decreases end - i,
    {
        r.push(s[i]);
        i = i + 1;
    }
    r
}

/// Removes the characters of `class` from both ends.
pub fn trim_chars(s: &[char], class: CharClass) -> (r: Vec<char>)
    ensures
        r@ == trim(s@, class),
{
    let mut i: usize = 0;
    while i < s.len() && is_in_class(s[i], class)
        invariant
            0 <= i <= s@.len(),
            forall|j: int| 0 <= j < i ==> in_class(#[trigger] s@[j], class),
        decreases s.len() - i,
    {
        i = i + 1;
    }
    proof {
        lemma_trim_start_skip(s@, class, i as int);
    }
    let mut k: usize = s.len();
    while k > i && is_in_class(s[k - 1], class)
        invariant
            i <= k <= s@.len(),
            forall|j: int| k <= j < s@.len() ==> in_class(#[trigger] s@[j], class),
        decreases k,
    {
        k = k - 1;
    }
    let ghost rest = s@.subrange(i as int, s@.len() as int);
    proof {
        assert(trim_start(rest, class) == rest);
        assert forall|j: int| k - i <= j < rest.len() implies in_class(#[trigger] rest[j], class) by {
            assert(rest[j] == s@[j + i]);
        }
        lemma_trim_end_skip(rest, class, k - i);
        assert(rest.subrange(0, k - i) =~= s@.subrange(i as int, k as int));
    }
    copy_range(s, i, k)
}

/// Removes the characters of `class` from the end.
pub fn trim_end_chars(s: &[char], class: CharClass) -> (r: Vec<char>)
    ensures
        r@ == trim_end(s@, class),
{
    let mut k: usize = s.len();
    while k > 0 && is_in_class(s[k - 1], class)
        invariant
            k <= s@.len(),
            forall|j: int| k <= j < s@.len() ==> in_class(#[trigger] s@[j], class),
        decreases k,
    {
        k = k - 1;
    }
    proof {
        lemma_trim_end_skip(s@, class, k as int);
    }
    copy_range(s, 0, k)
}

/// Splits `s` at every `sep`, as `str::split` does: `n` separators give `n + 1` pieces.
pub open spec fn split(s: Seq<char>, sep: char) -> Seq<Seq<char>>
    decreases s.len(),
{
    if s.len() == 0 {
        seq![Seq::<char>::empty()]
    } else {
        let p = split(s.drop_last(), sep);
        if s.last() == sep {
            p.push(Seq::<char>::empty())
        } else {
            p.update(p.len() - 1, p.last().push(s.last()))
        }
    }
}

pub proof fn lemma_split_nonempty(s: Seq<char>, sep: char)
    ensures
        split(s, sep).len() >= 1,
    decreases s.len(),
{
    if s.len() > 0 {
        lemma_split_nonempty(s.drop_last(), sep);
    }
}

/// A piece without the separator splits into itself.
pub proof fn lemma_split_single(a: Seq<char>, sep: char)
    requires
        !a.contains(sep),
    ensures
        split(a, sep) == seq![a],
    decreases a.len(),
{
    if a.len() > 0 {
        assert(!a.drop_last().contains(sep)) by {
            if a.drop_last().contains(sep) {
                let k = choose|k: int| 0 <= k < a.drop_last().len() && a.drop_last()[k] == sep;
                assert(a[k] == sep);
            }
        }
        lemma_split_single(a.drop_last(), sep);
        assert(a.last() != sep) by {
            assert(a[a.len() - 1] == a.last());
        }
        assert(a.drop_last().push(a.last()) =~= a);
    } else {
        assert(a =~= Seq::<char>::empty());
    }
}

/// Splitting `x`, a separator and a piece `b` without separators: the pieces of `x`, then `b`.
pub proof fn lemma_split_join(x: Seq<char>, b: Seq<char>, sep: char)
    requires
        !b.contains(sep),
    ensures
        split(x + seq![sep] + b, sep) == split(x, sep).push(b),
    decreases b.len(),
{
    let s = x + seq![sep] + b;
    if b.len() == 0 {
        assert(s.drop_last() =~= x);
        assert(b =~= Seq::<char>::empty());
    } else {
        assert(!b.drop_last().contains(sep)) by {
            if b.drop_last().contains(sep) {
                let k = choose|k: int| 0 <= k < b.drop_last().len() && b.drop_last()[k] == sep;
                assert(b[k] == sep);
            }
        }
        lemma_split_join(x, b.drop_last(), sep);
        assert(s.drop_last() =~= x + seq![sep] + b.drop_last());
        assert(b.last() != sep) by {
            assert(b[b.len() - 1] == b.last());
        }
        lemma_split_nonempty(x + seq![sep] + b.drop_last(), sep);
        assert(b.drop_last().push(b.last()) =~= b);
        let p = split(s.drop_last(), sep);
        assert(p == split(x, sep).push(b.drop_last()));
        assert(split(s, sep) == p.update(p.len() - 1, p.last().push(s.last())));
        assert(p.update(p.len() - 1, p.last().push(s.last())) =~= split(x, sep).push(b));
    }
}

/// Nothing to trim when neither end is in the class.
pub proof fn lemma_trim_noop(s: Seq<char>, class: CharClass)
    requires
        s.len() > 0,
        !in_class(s[0], class),
        !in_class(s.last(), class),
    ensures
        trim(s, class) == s,
{
}

/// Trimming removes one leading and one trailing character of the class, then stops.
pub proof fn lemma_trim_wrapped(s: Seq<char>, pre: Seq<char>, post: Seq<char>, class: CharClass)
    requires
        s.len() > 0,
        !in_class(s[0], class),
        !in_class(s.last(), class),
        pre.len() <= 1,
        post.len() <= 1,
        pre.len() == 1 ==> in_class(pre[0], class),
        post.len() == 1 ==> in_class(post[0], class),
    ensures
        trim(pre + s + post, class) == s,
{
    let w = pre + s + post;
    let v = s + post;
    if pre.len() == 1 {
        assert(w.drop_first() =~= v);
        assert(w[0] == pre[0]);
        assert(trim_start(w, class) == trim_start(v, class));
    } else {
        assert(w =~= v);
    }
    assert(v[0] == s[0]);
    assert(trim_start(v, class) == v);
    if post.len() == 1 {
        assert(v.drop_last() =~= s);
        assert(v.last() == post[0]);
        assert(trim_end(v, class) == trim_end(s, class));
    } else {
        assert(v =~= s);
    }
    assert(trim_end(s, class) == s);
}

pub fn split_chars(s: &[char], sep: char) -> (r: Vec<Vec<char>>)
    ensures
        r@.len() == split(s@, sep).len(),
        forall|i: int| 0 <= i < r@.len() ==> #[trigger] r@[i]@ == split(s@, sep)[i],
{
    let mut r: Vec<Vec<char>> = Vec::new();
    let mut cur: Vec<char> = Vec::new();
    let mut i: usize = 0;
    while i < s.len()
        invariant
            0 <= i <= s@.len(),
            r@.len() + 1 == split(s@.take(i as int), sep).len(),
            forall|j: int| 0 <= j < r@.len() ==> #[trigger] r@[j]@ == split(s@.take(i as int), sep)[j],
            cur@ == split(s@.take(i as int), sep).last(),
        decreases s.len() - i,
    {
        proof {
            lemma_split_nonempty(s@.take(i as int), sep);
            assert(s@.take(i + 1).drop_last() =~= s@.take(i as int));
        }
        if s[i] == sep {
            r.push(cur);
            cur = Vec::new();
        } else {
            cur.push(s[i]);
        }
        i = i + 1;
    }
    assert(s@.take(s@.len() as int) =~= s@);
    r.push(cur);
    r
}

/// The value of a digit in a radix (`char::to_digit`).
pub open spec fn digit_value(c: char, radix: int) -> Option<int> {
    let u = c as u32;
    let d: int = if '0' as u32 <= u <= '9' as u32 {
        u - '0' as u32
    } else if 'a' as u32 <= u <= 'z' as u32 {
        u - 'a' as u32 + 10
    } else if 'A' as u32 <= u <= 'Z' as u32 {
        u - 'A' as u32 + 10
    } else {
        radix
    };
    if d < radix {
        Some(d)
    } else {
        None
    }
}

/// The value of a string of digits (0 for no digits), or `None` if some character isn't one.
pub open spec fn digits_value(s: Seq<char>, radix: int) -> Option<int>
    decreases s.len(),
{
    if s.len() == 0 {
        Some(0)
    } else {
        match (digits_value(s.drop_last(), radix), digit_value(s.last(), radix)) {
            (Some(v), Some(d)) => Some(v * radix + d),
            _ => None,
        }
    }
}

/// What `from_str_radix` gives for an integer type with range `lo..=hi`: an optional sign (a
/// minus only for signed types), then at least one digit, with the value in range.
pub open spec fn parse_int(s: Seq<char>, radix: int, lo: int, hi: int) -> Option<int> {
    let v = if s.len() == 0 {
        None
    } else if (s[0] == '+' || s[0] == '-') && s.len() == 1 {
        None
    } else if s[0] == '+' {
        digits_value(s.drop_first(), radix)
    } else if s[0] == '-' && lo < 0 {
        match digits_value(s.drop_first(), radix) {
            Some(v) => Some(-v),
            None => None,
        }
    } else {
        digits_value(s, radix)
    };
    match v {
        Some(v) => if lo <= v <= hi {
            Some(v)
        } else {
            None
        },
        None => None,
    }
}

proof fn lemma_digits_value_nonneg(s: Seq<char>, radix: int)
    requires
        2 <= radix,
    ensures
        digits_value(s, radix) matches Some(v) ==> v >= 0,
    decreases s.len(),
{
    if s.len() > 0 {
        lemma_digits_value_nonneg(s.drop_last(), radix);
        if let Some(v) = digits_value(s.drop_last(), radix) {
            assert(v * radix >= 0) by (nonlinear_arith)
                requires
                    v >= 0,
                    radix >= 2,
            ;
        }
    }
}

/// Digits only add to a value: a prefix of a valid number is no bigger.
proof fn lemma_digits_value_prefix(s: Seq<char>, radix: int, k: int)
    requires
        2 <= radix,
        0 <= k <= s.len(),
        digits_value(s, radix) is Some,
    ensures
        digits_value(s.take(k), radix) is Some,
        digits_value(s.take(k), radix)->0 <= digits_value(s, radix)->0,
    decreases s.len(),
{
    if k == s.len() {
        assert(s.take(k) =~= s);
    } else {
        assert(s.drop_last().take(k) =~= s.take(k));
        lemma_digits_value_prefix(s.drop_last(), radix, k);
        lemma_digits_value_nonneg(s.drop_last(), radix);
        let v = digits_value(s.drop_last(), radix)->0;
        assert(v * radix >= v) by (nonlinear_arith)
            requires
                v >= 0,
                radix >= 2,
        ;
    }
}

/// Parses `s` as an integer in `lo..=hi`, as `from_str_radix` does.
pub fn parse_int_chars(s: &[char], radix: u32, lo: i128, hi: i128) -> (r: Option<i128>)
    requires
        2 <= radix <= 36,
        -0x1_0000_0000_0000_0000 <= lo <= 0 <= hi <= 0x1_0000_0000_0000_0000,
    ensures
        r matches Some(v) ==> parse_int(s@, radix as int, lo as int, hi as int) == Some(v as int),
        r is None ==> parse_int(s@, radix as int, lo as int, hi as int) is None,
{
    if s.len() == 0 {
        return None;
    }
    if (s[0] == '+' || s[0] == '-') && s.len() == 1 {
        return None;
    }
    let negative = s[0] == '-' && lo < 0;
    let start: usize = if s[0] == '+' || negative {
        1
    } else {
        0
    };
    let ghost digits = s@.subrange(start as int, s@.len() as int);
    assert(start == 1 ==> digits =~= s@.drop_first());
    assert(start == 0 ==> digits =~= s@);
    let cap: i128 = if negative {
        -lo
    } else {
        hi
    };
    proof {
        lemma_digits_value_nonneg(digits, radix as int);
    }
    assert(parse_int(s@, radix as int, lo as int, hi as int) == match digits_value(
        digits,
        radix as int,
    ) {
        Some(v) => if v <= cap {
            Some(if negative {
                -v
            } else {
                v
            })
        } else {
            None::<int>
        },
        None => None,
    });
    let mut acc: i128 = 0;
    let mut i: usize = start;
    while i < s.len()
        invariant
            start <= i <= s@.len(),
            parse_int(s@, radix as int, lo as int, hi as int) == match digits_value(
                digits,
                radix as int,
            ) {
                Some(v) => if v <= cap {
                    Some(if negative {
                        -v
                    } else {
                        v
                    })
                } else {
                    None::<int>
                },
                None => None,
            },
            digits == s@.subrange(start as int, s@.len() as int),
            2 <= radix <= 36,
            0 <= cap <= 0x1_0000_0000_0000_0000,
            0 <= acc <= cap,
            digits_value(digits.take(i - start), radix as int) == Some(acc as int),
        decreases s.len() - i,
    {
        assert(digits.take(i - start + 1).drop_last() =~= digits.take(i - start));
        let c = s[i];
        let u = c as u32;
        let d: u32 = if '0' as u32 <= u && u <= '9' as u32 {
            u - '0' as u32
        } else if 'a' as u32 <= u && u <= 'z' as u32 {
            u - 'a' as u32 + 10
        } else if 'A' as u32 <= u && u <= 'Z' as u32 {
            u - 'A' as u32 + 10
        } else {
            radix
        };
        if d >= radix {
            proof {
                assert(digits_value(digits.take(i - start + 1), radix as int) is None);
                if digits_value(digits, radix as int) is Some {
                    lemma_digits_value_prefix(digits, radix as int, i - start + 1);
                }
            }
            return None;
        }
        assert(acc * radix <= 0x1_0000_0000_0000_0000 * 36) by (nonlinear_arith)
            requires
                0 <= acc <= 0x1_0000_0000_0000_0000,
                radix <= 36,
        ;
        let next = acc * (radix as i128) + (d as i128);
        if next > cap {
            proof {
                if digits_value(digits, radix as int) is Some {
                    lemma_digits_value_prefix(digits, radix as int, i - start + 1);
                }
            }
            return None;
        }
        acc = next;
        i = i + 1;
    }
    assert(digits.take(s@.len() - start) =~= digits);
    if negative {
        Some(-acc)
    } else {
        Some(acc)
    }
}

/// The character of a digit (lower case beyond 9).
pub open spec fn digit_char(d: int) -> char {
    if d == 0 { '0' } else if d == 1 { '1' } else if d == 2 { '2' } else if d == 3 { '3' }
    else if d == 4 { '4' } else if d == 5 { '5' } else if d == 6 { '6' } else if d == 7 { '7' }
    else if d == 8 { '8' } else if d == 9 { '9' } else if d == 10 { 'a' } else if d == 11 { 'b' }
    else if d == 12 { 'c' } else if d == 13 { 'd' } else if d == 14 { 'e' } else { 'f' }
}

pub proof fn lemma_div_smaller(n: nat, radix: nat)
    requires
        radix >= 2,
        n >= radix,
    ensures
        n / radix < n,
        n / radix * radix + n % radix == n,
        n % radix < radix,
{
    assert(n / radix < n) by (nonlinear_arith)
        requires
            radix >= 2,
            n >= radix,
    ;
    assert(n / radix * radix + n % radix == n) by (nonlinear_arith)
        requires
            radix >= 2,
    ;
}

pub proof fn lemma_digit_char(d: int, radix: int)
    requires
        0 <= d < radix,
        radix == 10 || radix == 16,
    ensures
        digit_value(digit_char(d), radix) == Some(d),
        is_digit_char(digit_char(d), radix),
{
    assert('0' as u32 == 48);
    assert('9' as u32 == 57);
    assert('a' as u32 == 97);
    assert('f' as u32 == 102);
}

/// The digits of `n` in a radix (at least one digit, no leading zeros).
pub open spec fn radix_digits(n: nat, radix: nat) -> Seq<char>
    decreases n,
{
    if n < radix || radix < 2 {
        seq![digit_char(n as int)]
    } else {
        proof {
            lemma_div_smaller(n, radix);
        }
        radix_digits(n / radix, radix).push(digit_char((n % radix) as int))
    }
}

/// Decimal text of an integer, as `to_string` writes it.
pub open spec fn int_text(v: int) -> Seq<char> {
    if v < 0 {
        seq!['-'] + radix_digits((-v) as nat, 10)
    } else {
        radix_digits(v as nat, 10)
    }
}

/// `s` padded on the left with zeros to at least `width` characters.
pub open spec fn zero_pad(s: Seq<char>, width: nat) -> Seq<char> {
    if s.len() < width {
        Seq::new((width - s.len()) as nat, |i: int| '0') + s
    } else {
        s
    }
}

/// What `format!("{v:02x}")` writes for an `i32`: the two's complement bits in lower case hex,
/// at least two digits.
pub open spec fn hex2_text(v: i32) -> Seq<char> {
    zero_pad(radix_digits((v as u32) as nat, 16), 2)
}

pub fn digit_to_char(d: u32) -> (c: char)
    requires
        d < 16,
    ensures
        c == digit_char(d as int),
{
    match d {
        0 => '0',
        1 => '1',
        2 => '2',
        3 => '3',
        4 => '4',
        5 => '5',
        6 => '6',
        7 => '7',
        8 => '8',
        9 => '9',
        10 => 'a',
        11 => 'b',
        12 => 'c',
        13 => 'd',
        14 => 'e',
        _ => 'f',
    }
}

/// The digits of `n` in `radix` (10 or 16).
pub fn radix_chars(n: u64, radix: u64) -> (r: Vec<char>)
    requires
        radix == 10 || radix == 16,
    ensures
        r@ == radix_digits(n as nat, radix as nat),
    decreases n,
{
    if n < radix {
        let mut r: Vec<char> = Vec::new();
        r.push(digit_to_char(n as u32));
        r
    } else {
        let mut r = radix_chars(n / radix, radix);
        r.push(digit_to_char((n % radix) as u32));
        r
    }
}

/// Decimal text of an integer.
pub fn int_chars(v: i64) -> (r: Vec<char>)
    ensures
        r@ == int_text(v as int),
{
    if v < 0 {
        let mut r: Vec<char> = Vec::new();
        r.push('-');
        let magnitude: u64 = if v == i64::MIN {
            0x8000_0000_0000_0000
        } else {
            (-v) as u64
        };
        let digits = radix_chars(magnitude, 10);
        let mut i: usize = 0;
        while i < digits.len()
            invariant
                0 <= i <= digits@.len(),
                r@ == seq!['-'] + digits@.take(i as int),
            decreases digits.len() - i,
        {
            r.push(digits[i]);
            i = i + 1;
            assert(r@ =~= seq!['-'] + digits@.take(i as int));
        }
        assert(digits@.take(digits@.len() as int) =~= digits@);
        r
    } else {
        radix_chars(v as u64, 10)
    }
}

/// `format!("{v:02x}")`.
pub fn hex2_chars(v: i32) -> (r: Vec<char>)
    ensures
        r@ == hex2_text(v),
{
    let digits = radix_chars((v as u32) as u64, 16);
    if digits.len() < 2 {
        let mut r: Vec<char> = Vec::new();
        r.push('0');
        r.push(digits[0]);
        assert(r@ =~= hex2_text(v));
        r
    } else {
        digits
    }
}

proof fn lemma_radix_digits_len(n: nat, radix: nat)
    requires
        radix >= 2,
    ensures
        radix_digits(n, radix).len() >= 1,
        n < radix <==> radix_digits(n, radix).len() == 1,
    decreases n,
{
    if n >= radix {
        lemma_div_smaller(n, radix);
        lemma_radix_digits_len(n / radix, radix);
    }
}

/// Every digit written is a digit of the radix, worth what it was written for.
pub proof fn lemma_radix_digits_value(n: nat, radix: nat)
    requires
        radix == 10 || radix == 16,
    ensures
        digits_value(radix_digits(n, radix), radix as int) == Some(n as int),
        forall|i: int|
            0 <= i < radix_digits(n, radix).len() ==> is_digit_char(
                #[trigger] radix_digits(n, radix)[i],
                radix as int,
            ),
    decreases n,
{
    if n >= radix {
        lemma_div_smaller(n, radix);
        lemma_radix_digits_value(n / radix, radix);
        let s = radix_digits(n, radix);
        lemma_digit_char((n % radix) as int, radix as int);
        assert(s.drop_last() =~= radix_digits(n / radix, radix));
        assert forall|i: int| 0 <= i < s.len() implies is_digit_char(#[trigger] s[i], radix as int) by {
            if i < s.len() - 1 {
                assert(s[i] == radix_digits(n / radix, radix)[i]);
            }
        }
    } else {
        let s = radix_digits(n, radix);
        lemma_digit_char(n as int, radix as int);
        assert(s.drop_last() =~= Seq::<char>::empty());
        assert(digits_value(s.drop_last(), radix as int) == Some(0int));
    }
}

/// A digit (`0-9`, or `a-f` in hex).
pub open spec fn is_digit_char(c: char, radix: int) -> bool {
    ||| '0' <= c <= '9'
    ||| radix == 16 && 'a' <= c <= 'f'
}

pub proof fn lemma_int_text_nonempty(v: int)
    ensures
        int_text(v).len() >= 1,
{
    if v < 0 {
        lemma_radix_digits_len((-v) as nat, 10);
    } else {
        lemma_radix_digits_len(v as nat, 10);
    }
}

/// Decimal text reads back as the same integer.
pub proof fn lemma_int_text_parses(v: int, lo: int, hi: int)
    requires
        lo <= v <= hi,
        lo <= 0 <= hi,
    ensures
        parse_int(int_text(v), 10, lo, hi) == Some(v),
        forall|i: int| 0 <= i < int_text(v).len() ==> #[trigger] int_text(v)[i] == '-' || is_digit_char(int_text(v)[i], 10),
{
    if v < 0 {
        lemma_radix_digits_value((-v) as nat, 10);
        let s = int_text(v);
        assert(s.drop_first() =~= radix_digits((-v) as nat, 10));
        assert forall|i: int| 0 <= i < s.len() implies #[trigger] s[i] == '-' || is_digit_char(s[i], 10) by {
            if i > 0 {
                assert(s[i] == s.drop_first()[i - 1]);
            }
        }
    } else {
        lemma_radix_digits_value(v as nat, 10);
        lemma_radix_digits_len(v as nat, 10);
    }
}

/// Two hex digits read back as the byte they were written for.
pub proof fn lemma_hex2_parses(v: i32)
    requires
        0 <= v <= 255,
    ensures
        hex2_text(v).len() == 2,
        forall|i: int| 0 <= i < 2 ==> is_digit_char(#[trigger] hex2_text(v)[i], 16),
        parse_int(hex2_text(v), 16, i32::MIN as int, i32::MAX as int) == Some(v as int),
{
    let n = (v as u32) as nat;
    assert(n == v);
    lemma_radix_digits_value(n, 16);
    lemma_radix_digits_len(n, 16);
    let d = radix_digits(n, 16);
    let s = hex2_text(v);
    if n < 16 {
        assert(s =~= seq!['0', d[0]]);
        lemma_digit_char(0, 16);
        assert(s.drop_last() =~= seq!['0']);
        assert(seq!['0'].drop_last() =~= Seq::<char>::empty());
        assert(seq!['0'].last() == '0');
        assert(digit_char(0) == '0');
        assert(digits_value(Seq::<char>::empty(), 16) == Some(0int));
        assert(digits_value(seq!['0'], 16) == Some(0int));
        assert(d.drop_last() =~= Seq::<char>::empty());
        assert(digit_value(d[0], 16) == Some(n as int));
    } else {
        lemma_div_smaller(n, 16);
        lemma_radix_digits_len(n / 16, 16);
        assert(n / 16 < 16);
        assert(s == d);
        assert(d.len() == 2);
    }
    assert(s[0] != '+' && s[0] != '-');
}

/// A `String` holding `chars` (std's `Iterator::collect`).
#[verifier::external_body]
pub(crate) fn string_of(chars: &[char]) -> (r: String)
    ensures
        r@ == chars@,
{
    chars.iter().collect()
}

/// Appends `tail` to `out`.
pub fn append_chars(out: &mut Vec<char>, tail: &[char])
    ensures
        final(out)@ == old(out)@ + tail@,
{
    let mut i: usize = 0;
    while i < tail.len()
        invariant
            0 <= i <= tail@.len(),
            out@ == old(out)@ + tail@.take(i as int),
        decreases tail.len() - i,
    {
        out.push(tail[i]);
        i = i + 1;
        assert(out@ =~= old(out)@ + tail@.take(i as int));
    }
    assert(tail@.take(tail@.len() as int) =~= tail@);
}

/// The characters of a string.
pub fn chars_of(s: &str) -> (r: Vec<char>)
    ensures
        r@ == s@,
{
    broadcast use vstd::string::group_string_axioms;

    let mut r: Vec<char> = Vec::new();
    for c in it: s.chars()
        invariant
            r@ == it.seq().take(it.index() as int),
    {
        r.push(c);
    }
    r
}

} // verus!
