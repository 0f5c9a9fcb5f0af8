//! Permutations of the symmetric group S_q that label the vertices of a truncated tiling t{p,q}.
//!
//! A step around a q-gon multiplies a label by the cycle `c = (1 2 ... q)` and a step along the
//! third edge multiplies by the swap `t = (1 2)`, always on the right. Written in one-line form
//! (the word of images), a q-gon step rotates the word and a swap step exchanges its first two
//! letters.
use crate::text::string_of;
use vstd::prelude::*;

verus! {

/// The largest q we label (the labels have to fit on screen).
pub const MAX_Q: usize = 9;

/// A permutation in one-line form: `p[i]` is the image of `i + 1`. Entries past `q` are 0.
pub type Perm = [u8; MAX_Q];

/// Whether the first `q` entries are images in `1..=q`.
pub open spec fn in_range(g: Seq<u8>, q: int) -> bool {
    forall|i: int| 0 <= i < q ==> 1 <= #[trigger] g[i] <= q
}

/// Whether the first `q` entries are a permutation of `1..=q` (and the rest are 0).
pub open spec fn is_perm(g: Seq<u8>, q: int) -> bool {
    &&& g.len() == MAX_Q
    &&& 0 <= q <= MAX_Q
    &&& in_range(g, q)
    &&& forall|i: int, j: int| 0 <= i < j < q ==> g[i] != g[j]
    &&& forall|i: int| q <= i < MAX_Q ==> g[i] == 0
}

pub open spec fn identity_of(q: int) -> Seq<u8> {
    Seq::new(
        MAX_Q as nat,
        |i: int|
            if i < q {
                (i + 1) as u8
            } else {
                0u8
            },
    )
}

/// `g s`: `s` followed by `g` as functions, `(g s)(i) = g(s(i))`.
pub open spec fn mul_of(g: Seq<u8>, s: Seq<u8>, q: int) -> Seq<u8> {
    Seq::new(
        MAX_Q as nat,
        |i: int|
            if i < q {
                g[s[i] - 1]
            } else {
                0u8
            },
    )
}

/// The last of the first `k` entries whose image is `v`.
pub open spec fn last_preimage(g: Seq<u8>, v: int, k: int) -> Option<int>
    decreases k,
{
    if k <= 0 {
        None
    } else if g[k - 1] == v {
        Some(k - 1)
    } else {
        last_preimage(g, v, k - 1)
    }
}

/// `j + 1` goes back to the (last) entry that `g` sends to it.
pub open spec fn inverse_of(g: Seq<u8>, q: int) -> Seq<u8> {
    Seq::new(
        MAX_Q as nat,
        |j: int|
            match last_preimage(g, j + 1, q) {
                Some(i) => (i + 1) as u8,
                None => 0u8,
            },
    )
}

/// The cycle `(1 2 ... q)` (with `q` taken as a byte).
pub open spec fn cycle_of(q: int) -> Seq<u8> {
    Seq::new(
        MAX_Q as nat,
        |i: int|
            if i < q {
                ((i + 1) % (q % 256) + 1) as u8
            } else {
                0u8
            },
    )
}

/// The swap `(1 2)`.
pub open spec fn swap_of(q: int) -> Seq<u8> {
    identity_of(q).update(0, identity_of(q)[1]).update(1, identity_of(q)[0])
}

pub fn identity(q: usize) -> (r: Perm)
    ensures
        r@ == identity_of(q as int),
{
    let mut p: Perm = [0;MAX_Q];
    let mut i: usize = 0;
    while i < MAX_Q
        invariant
            0 <= i <= MAX_Q,
            p@.len() == MAX_Q,
            forall|j: int| 0 <= j < i ==> p@[j] == identity_of(q as int)[j],
            forall|j: int| i <= j < MAX_Q ==> p@[j] == 0,
        decreases MAX_Q - i,
    {
        if i < q {
            p[i] = i as u8 + 1;
        }
        i = i + 1;
    }
    assert(p@ =~= identity_of(q as int));
    p
}

/// `g s`, i.e. `s` followed by `g` as functions: `(g s)(i) = g(s(i))`.
pub fn mul(g: &Perm, s: &Perm, q: usize) -> (r: Perm)
    requires
        q <= MAX_Q,
        in_range(s@, q as int),
    ensures
        r@ == mul_of(g@, s@, q as int),
{
    let mut r: Perm = [0;MAX_Q];
    let mut i: usize = 0;
    while i < q
        invariant
            0 <= i <= q <= MAX_Q,
            in_range(s@, q as int),
            r@.len() == MAX_Q,
            forall|j: int| 0 <= j < i ==> r@[j] == mul_of(g@, s@, q as int)[j],
            forall|j: int| i <= j < MAX_Q ==> r@[j] == 0,
        decreases q - i,
    {
        assert(1 <= s@[i as int] <= q);
        r[i] = g[s[i] as usize - 1];
        i = i + 1;
    }
    assert(r@ =~= mul_of(g@, s@, q as int));
    r
}

pub fn inverse(g: &Perm, q: usize) -> (r: Perm)
    requires
        q <= MAX_Q,
        in_range(g@, q as int),
    ensures
        r@ == inverse_of(g@, q as int),
{
    let mut r: Perm = [0;MAX_Q];
    let mut i: usize = 0;
    while i < q
        invariant
            0 <= i <= q <= MAX_Q,
            in_range(g@, q as int),
            r@.len() == MAX_Q,
            forall|j: int|
                0 <= j < MAX_Q ==> #[trigger] r@[j] == match last_preimage(g@, j + 1, i as int) {
                    Some(k) => (k + 1) as u8,
                    None => 0u8,
                },
        decreases q - i,
    {
        assert(1 <= g@[i as int] <= q);
        let ghost before = r@;
        r[g[i] as usize - 1] = i as u8 + 1;
        assert forall|j: int| 0 <= j < MAX_Q implies #[trigger] r@[j] == match last_preimage(
            g@,
            j + 1,
            i + 1,
        ) {
            Some(k) => (k + 1) as u8,
            None => 0u8,
        } by {
            if j != g@[i as int] - 1 {
                assert(r@[j] == before[j]);
            }
        }
        i = i + 1;
    }
    assert(r@ =~= inverse_of(g@, q as int));
    r
}

/// The cycle `(1 2 ... q)`, one step around a q-gon.
pub fn cycle(q: usize) -> (r: Perm)
    requires
        q % 256 != 0,
    ensures
        r@ == cycle_of(q as int),
{
    let mut p: Perm = [0;MAX_Q];
    let m = (q % 256) as u8;
    let mut i: usize = 0;
    while i < MAX_Q
        invariant
            0 <= i <= MAX_Q,
            m == q % 256,
            m != 0,
            p@.len() == MAX_Q,
            forall|j: int| 0 <= j < i ==> p@[j] == cycle_of(q as int)[j],
            forall|j: int| i <= j < MAX_Q ==> p@[j] == 0,
        decreases MAX_Q - i,
    {
        if i < q {
            p[i] = (i as u8 + 1) % m + 1;
        }
        i = i + 1;
    }
    assert(p@ =~= cycle_of(q as int));
    p
}

/// The swap `(1 2)`, the edge to the next q-gon.
pub fn swap(q: usize) -> (r: Perm)
    ensures
        r@ == swap_of(q as int),
{
    let mut p = identity(q);
    let a = p[0];
    let b = p[1];
    p[0] = b;
    p[1] = a;
    assert(p@ =~= swap_of(q as int));
    p
}

/// The digit character of a small number.
pub open spec fn digit_of(d: u8) -> char {
    ((48 + d) as u8) as char
}

/// One-line form as text, e.g. `31452`.
pub open spec fn word_text(g: Seq<u8>, q: int) -> Seq<char> {
    Seq::new(q as nat, |i: int| digit_of(g[i]))
}

/// One-line form, e.g. `31452`.
pub fn word(g: &Perm, q: usize) -> (r: String)
    requires
        q <= MAX_Q,
        forall|i: int| 0 <= i < q ==> #[trigger] g@[i] <= 207,
    ensures
        r@ == word_text(g@, q as int),
{
    let mut out: Vec<char> = Vec::new();
    let mut i: usize = 0;
    while i < q
        invariant
            0 <= i <= q <= MAX_Q,
            forall|j: int| 0 <= j < q ==> #[trigger] g@[j] <= 207,
            out@ == word_text(g@, i as int),
        decreases q - i,
    {
        let d = g[i];
        assert(d <= 207);
        out.push((48u8 + d) as char);
        assert(out@ =~= word_text(g@, i + 1));
        i = i + 1;
    }
    string_of(&out)
}

/// The number of unmarked entries among the first `n`.
pub open spec fn unseen(seen: Seq<bool>, n: int) -> nat
    decreases n,
{
    if n <= 0 {
        0
    } else {
        unseen(seen, n - 1) + if !seen[n - 1] {
            1nat
        } else {
            0nat
        }
    }
}

pub proof fn lemma_unseen_mark(seen: Seq<bool>, n: int, i: int)
    requires
        0 <= i < n <= seen.len(),
        !seen[i],
    ensures
        unseen(seen.update(i, true), n) + 1 == unseen(seen, n),
    decreases n,
{
    if n - 1 > i {
        lemma_unseen_mark(seen, n - 1, i);
    } else {
        lemma_unseen_same(seen, seen.update(i, true), n - 1);
    }
}

pub proof fn lemma_unseen_same(a: Seq<bool>, b: Seq<bool>, n: int)
    requires
        0 <= n <= a.len(),
        n <= b.len(),
        forall|j: int| 0 <= j < n ==> a[j] == b[j],
    ensures
        unseen(a, n) == unseen(b, n),
    decreases n,
{
    if n > 0 {
        lemma_unseen_same(a, b, n - 1);
    }
}

/// Following `g` from `i`, marking entries, until reaching a marked one (or leaving `0..q`):
/// the entries visited (as numbers from 1) and the marks afterwards.
pub open spec fn orbit(g: Seq<u8>, q: int, seen: Seq<bool>, i: int) -> (Seq<int>, Seq<bool>)
    decreases unseen(seen, q),
{
    if !(0 <= i < q && q <= seen.len()) || seen[i] {
        (Seq::empty(), seen)
    } else {
        proof {
            lemma_unseen_mark(seen, q, i);
        }
        let (rest, after) = orbit(g, q, seen.update(i, true), g[i] - 1);
        (seq![i + 1] + rest, after)
    }
}

/// Numbers from 1 to 9 written with spaces between them.
pub open spec fn spaced(items: Seq<int>) -> Seq<char>
    decreases items.len(),
{
    if items.len() == 0 {
        Seq::empty()
    } else if items.len() == 1 {
        seq![(48 + items[0]) as char]
    } else {
        spaced(items.drop_last()) + seq![' ', (48 + items.last()) as char]
    }
}

/// The cycles found starting from the first `k` entries, and the marks afterwards.
pub open spec fn cycles_upto(g: Seq<u8>, q: int, k: int) -> (Seq<char>, Seq<bool>)
    decreases k,
{
    if k <= 0 {
        (Seq::empty(), Seq::new(MAX_Q as nat, |i: int| false))
    } else {
        let (out, seen) = cycles_upto(g, q, k - 1);
        let start = k - 1;
        if seen[start] || g[start] == start + 1 {
            (out, seen)
        } else {
            let (items, after) = orbit(g, q, seen, start);
            (out + seq!['('] + spaced(items) + seq![')'], after)
        }
    }
}

/// Cycle notation, or `identity`.
pub open spec fn cycles_text(g: Seq<u8>, q: int) -> Seq<char> {
    let out = cycles_upto(g, q, q).0;
    if out.len() == 0 {
        seq!['i', 'd', 'e', 'n', 't', 'i', 't', 'y']
    } else {
        out
    }
}

proof fn lemma_orbit_items(g: Seq<u8>, q: int, seen: Seq<bool>, i: int)
    requires
        q <= MAX_Q,
        seen.len() == MAX_Q,
    ensures
        forall|t: int|
            0 <= t < orbit(g, q, seen, i).0.len() ==> 1 <= #[trigger] orbit(g, q, seen, i).0[t]
                <= q,
        orbit(g, q, seen, i).1.len() == MAX_Q,
    decreases unseen(seen, q),
{
    if 0 <= i < q && q <= seen.len() && !seen[i] {
        lemma_unseen_mark(seen, q, i);
        lemma_orbit_items(g, q, seen.update(i, true), g[i] - 1);
    }
}

/// Cycle notation, e.g. `(1 3 4)(2 5)`, or `identity`.
pub fn cycles(g: &Perm, q: usize) -> (r: String)
    requires
        q <= MAX_Q,
        in_range(g@, q as int),
    ensures
        r@ == cycles_text(g@, q as int),
{
    let mut seen: [bool; MAX_Q] = [false;MAX_Q];
    let mut out: Vec<char> = Vec::new();
    let mut start: usize = 0;
    assert(seen@ =~= Seq::new(MAX_Q as nat, |i: int| false));
    while start < q
        invariant
            0 <= start <= q <= MAX_Q,
            in_range(g@, q as int),
            (out@, seen@) == cycles_upto(g@, q as int, start as int),
            seen@.len() == MAX_Q,
        decreases q - start,
    {
        if !(seen[start] || g[start] as usize == start + 1) {
            let ghost seen0 = seen@;
            out.push('(');
            let mut i = start;
            let mut first = true;
            let ghost mut items: Seq<int> = Seq::empty();
            let ghost out0 = out@;
            while !seen[i]
                invariant
                    0 <= i < q <= MAX_Q,
                    in_range(g@, q as int),
                    seen@.len() == MAX_Q,
                    seen0.len() == MAX_Q,
                    first == (items.len() == 0),
                    out@ == out0 + spaced(items),
                    forall|t: int| 0 <= t < items.len() ==> 1 <= #[trigger] items[t] <= q,
                    ({
                        let (rest, after) = orbit(g@, q as int, seen@, i as int);
                        orbit(g@, q as int, seen0, start as int) == (items + rest, after)
                    }),
                decreases unseen(seen@, q as int),
            {
                proof {
                    lemma_unseen_mark(seen@, q as int, i as int);
                    assert(1 <= g@[i as int] <= q);
                }
                let ghost before = seen@;
                seen[i] = true;
                if !first {
                    out.push(' ');
                }
                out.push((48u8 + (i as u8 + 1)) as char);
                proof {
                    let (rest, after) = orbit(g@, q as int, seen@, g@[i as int] - 1);
                    assert(orbit(g@, q as int, before, i as int) == (seq![i + 1] + rest, after));
                    assert(items + (seq![i + 1] + rest) =~= items.push(i + 1) + rest);
                    let new_items = items.push(i + 1);
                    assert(new_items.drop_last() =~= items);
                    if items.len() == 0 {
                        assert(spaced(new_items) =~= seq![(48 + i + 1) as char]);
                    }
                    items = new_items;
                }
                assert(out@ =~= out0 + spaced(items));
                first = false;
                i = g[i] as usize - 1;
            }
            out.push(')');
            proof {
                assert(orbit(g@, q as int, seen@, i as int) == (Seq::<int>::empty(), seen@));
                assert(items + Seq::<int>::empty() =~= items);
            }
        }
        start = start + 1;
    }
    if out.len() == 0 {
        proof {
            reveal_strlit("identity");
        }
        let r = String::from_str("identity");
        assert(r@ =~= seq!['i', 'd', 'e', 'n', 't', 'i', 't', 'y']);
        r
    } else {
        string_of(&out)
    }
}

/// A step around a q-gon rotates the one-line word left by one letter.
pub proof fn lemma_cycle_rotates_word(g: Seq<u8>, q: int)
    requires
        1 <= q <= MAX_Q,
        g.len() == MAX_Q,
    ensures
        word_text(mul_of(g, cycle_of(q), q), q) == word_text(g, q).subrange(1, q) + word_text(
            g,
            q,
        ).subrange(0, 1),
{
    let w = word_text(g, q);
    let c = cycle_of(q);
    assert forall|i: int| 0 <= i < q implies c[i] - 1 == (if i + 1 < q {
        i + 1
    } else {
        0
    }) by {
        assert(q % 256 == q);
        if i + 1 < q {
            vstd::arithmetic::div_mod::lemma_small_mod((i + 1) as nat, q as nat);
        } else {
            assert((i + 1) % q == 0) by (nonlinear_arith)
                requires
                    i + 1 == q,
                    q > 0,
            ;
        }
    }
    assert(word_text(mul_of(g, c, q), q) =~= w.subrange(1, q) + w.subrange(0, 1));
}

/// A swap step exchanges the first two letters of the one-line word.
pub proof fn lemma_swap_exchanges_word(g: Seq<u8>, q: int)
    requires
        2 <= q <= MAX_Q,
        g.len() == MAX_Q,
    ensures
        word_text(mul_of(g, swap_of(q), q), q) == word_text(g, q).update(
            0,
            word_text(g, q)[1],
        ).update(1, word_text(g, q)[0]),
{
    assert(word_text(mul_of(g, swap_of(q), q), q) =~= word_text(g, q).update(
        0,
        word_text(g, q)[1],
    ).update(1, word_text(g, q)[0]));
}

/// The identity is neutral on both sides.
pub proof fn lemma_identity_neutral(g: Seq<u8>, q: int)
    requires
        is_perm(g, q),
    ensures
        mul_of(g, identity_of(q), q) == g,
        mul_of(identity_of(q), g, q) == g,
{
    assert(mul_of(g, identity_of(q), q) =~= g);
    assert(mul_of(identity_of(q), g, q) =~= g);
}

proof fn lemma_last_preimage_unique(g: Seq<u8>, q: int, i: int, k: int)
    requires
        is_perm(g, q),
        0 <= i < k <= q,
    ensures
        last_preimage(g, g[i] as int, k) == Some(i),
    decreases k,
{
    if k - 1 != i {
        assert(g[k - 1] != g[i]);
        lemma_last_preimage_unique(g, q, i, k - 1);
    }
}

/// The inverse undoes a permutation: `g⁻¹ g` is the identity.
pub proof fn lemma_inverse_undoes(g: Seq<u8>, q: int)
    requires
        is_perm(g, q),
    ensures
        mul_of(inverse_of(g, q), g, q) == identity_of(q),
{
    assert forall|i: int| 0 <= i < q implies mul_of(inverse_of(g, q), g, q)[i] == identity_of(
        q,
    )[i] by {
        lemma_last_preimage_unique(g, q, i, q);
        assert(1 <= g[i] <= q);
    }
    assert(mul_of(inverse_of(g, q), g, q) =~= identity_of(q));
}

/// Multiplication is associative, so relabelling by left multiplication commutes with the
/// steps of the graph (right multiplications).
pub proof fn lemma_mul_associative(a: Seq<u8>, b: Seq<u8>, c: Seq<u8>, q: int)
    requires
        0 <= q <= MAX_Q,
        in_range(b, q),
        in_range(c, q),
    ensures
        mul_of(mul_of(a, b, q), c, q) == mul_of(a, mul_of(b, c, q), q),
{
    assert forall|i: int| 0 <= i < MAX_Q implies mul_of(mul_of(a, b, q), c, q)[i] == mul_of(
        a,
        mul_of(b, c, q),
        q,
    )[i] by {
        if i < q {
            assert(1 <= c[i] <= q);
        }
    }
    assert(mul_of(mul_of(a, b, q), c, q) =~= mul_of(a, mul_of(b, c, q), q));
}

/// `g` multiplied by itself `k` times: `g^k`.
pub open spec fn pow_of(g: Seq<u8>, k: nat, q: int) -> Seq<u8>
    decreases k,
{
    if k == 0 {
        identity_of(q)
    } else {
        mul_of(pow_of(g, (k - 1) as nat, q), g, q)
    }
}

/// `k` steps around a q-gon move every entry `k` places along.
proof fn lemma_cycle_power(q: int, k: nat)
    requires
        1 <= q <= MAX_Q,
    ensures
        forall|i: int|
            0 <= i < MAX_Q ==> #[trigger] pow_of(cycle_of(q), k, q)[i] == if i < q {
                ((i + k) % q + 1) as u8
            } else {
                0u8
            },
    decreases k,
{
    if k == 0 {
        assert forall|i: int| 0 <= i < q implies #[trigger] ((i + k) % q) == i by {
            vstd::arithmetic::div_mod::lemma_small_mod(i as nat, q as nat);
        }
    } else {
        lemma_cycle_power(q, (k - 1) as nat);
        let c = cycle_of(q);
        assert forall|i: int| 0 <= i < MAX_Q implies #[trigger] pow_of(cycle_of(q), k, q)[i] == if i
            < q {
            ((i + k) % q + 1) as u8
        } else {
            0u8
        } by {
            if i < q {
                assert(q % 256 == q);
                let j = (i + 1) % q;
                assert(0 <= j < q);
                assert(c[i] == (j + 1) as u8);
                assert(pow_of(cycle_of(q), k, q)[i] == pow_of(cycle_of(q), (k - 1) as nat, q)[j]);
                vstd::arithmetic::div_mod::lemma_add_mod_noop_right(k - 1, i + 1, q);
                assert((j + (k - 1)) % q == (i + k) % q);
            }
        }
    }
}

/// Going around a q-gon, `q` steps each multiplying by the cycle, comes back to the start:
/// `c^q = 1`.
pub proof fn lemma_cycle_order(q: int)
    requires
        1 <= q <= MAX_Q,
    ensures
        pow_of(cycle_of(q), q as nat, q) == identity_of(q),
{
    lemma_cycle_power(q, q as nat);
    assert forall|i: int| 0 <= i < MAX_Q implies pow_of(cycle_of(q), q as nat, q)[i]
        == identity_of(q)[i] by {
        if i < q {
            vstd::arithmetic::div_mod::lemma_mod_add_multiples_vanish(i, q);
            vstd::arithmetic::div_mod::lemma_small_mod(i as nat, q as nat);
        }
    }
    assert(pow_of(cycle_of(q), q as nat, q) =~= identity_of(q));
}

/// The entry at place `j` of the long cycle of `c t`: 1, 3, 4, ..., q (as indices from 0).
pub open spec fn around(j: int) -> int {
    if j == 0 {
        0
    } else {
        j + 1
    }
}

/// `c t` fixes 2 and moves 1, 3, 4, ..., q one place along their cycle.
proof fn lemma_cycle_swap_shape(q: int)
    requires
        3 <= q <= MAX_Q,
    ensures
        mul_of(cycle_of(q), swap_of(q), q)[1] == 2,
        forall|j: int|
            0 <= j < q - 1 ==> #[trigger] mul_of(cycle_of(q), swap_of(q), q)[around(j)] - 1
                == around((j + 1) % (q - 1)),
        forall|i: int| q <= i < MAX_Q ==> #[trigger] mul_of(cycle_of(q), swap_of(q), q)[i] == 0,
        forall|i: int|
            0 <= i < q ==> 1 <= #[trigger] mul_of(cycle_of(q), swap_of(q), q)[i] <= q,
{
    let c = cycle_of(q);
    let t = swap_of(q);
    let ct = mul_of(c, t, q);
    assert(q % 256 == q);
    assert forall|i: int| 0 <= i < q implies #[trigger] c[i] == (if i + 1 < q {
        i + 2
    } else {
        1
    }) by {
        if i + 1 < q {
            vstd::arithmetic::div_mod::lemma_small_mod((i + 1) as nat, q as nat);
        } else {
            vstd::arithmetic::div_mod::lemma_mod_self_0(q);
        }
    }
    assert(t[0] == 2 && t[1] == 1);
    assert forall|i: int| 2 <= i < q implies #[trigger] t[i] == i + 1 by {}
    assert(ct[1] == c[0]);
    assert(ct[0] == c[1]);
    assert forall|j: int| 0 <= j < q - 1 implies #[trigger] ct[around(j)] - 1 == around(
        (j + 1) % (q - 1),
    ) by {
        if j + 1 < q - 1 {
            vstd::arithmetic::div_mod::lemma_small_mod((j + 1) as nat, (q - 1) as nat);
        } else {
            vstd::arithmetic::div_mod::lemma_mod_self_0(q - 1);
        }
        if j > 0 {
            assert(ct[j + 1] == c[t[j + 1] - 1]);
        }
    }
    assert forall|i: int| 0 <= i < q implies 1 <= #[trigger] ct[i] <= q by {
        if i >= 2 {
            assert(ct[i] == c[i]);
        }
    }
}

proof fn lemma_cycle_swap_power(q: int, k: nat)
    requires
        3 <= q <= MAX_Q,
    ensures
        pow_of(mul_of(cycle_of(q), swap_of(q), q), k, q)[1] == 2,
        forall|j: int|
            0 <= j < q - 1 ==> #[trigger] pow_of(mul_of(cycle_of(q), swap_of(q), q), k, q)[around(
                j,
            )] - 1 == around((j + k) % (q - 1)),
        forall|i: int|
            q <= i < MAX_Q ==> #[trigger] pow_of(mul_of(cycle_of(q), swap_of(q), q), k, q)[i]
                == 0,
    decreases k,
{
    let ct = mul_of(cycle_of(q), swap_of(q), q);
    lemma_cycle_swap_shape(q);
    if k == 0 {
        assert forall|j: int| 0 <= j < q - 1 implies #[trigger] pow_of(ct, k, q)[around(j)] - 1
            == around((j + k) % (q - 1)) by {
            vstd::arithmetic::div_mod::lemma_small_mod(j as nat, (q - 1) as nat);
        }
    } else {
        lemma_cycle_swap_power(q, (k - 1) as nat);
        let prev = pow_of(ct, (k - 1) as nat, q);
        assert(pow_of(ct, k, q)[1] == prev[ct[1] - 1]);
        assert forall|j: int| 0 <= j < q - 1 implies #[trigger] pow_of(ct, k, q)[around(j)] - 1
            == around((j + k) % (q - 1)) by {
            let n = (j + 1) % (q - 1);
            assert(ct[around(j)] - 1 == around(n));
            assert(pow_of(ct, k, q)[around(j)] == prev[around(n)]);
            vstd::arithmetic::div_mod::lemma_add_mod_noop_right(k - 1, j + 1, q - 1);
            assert((n + (k - 1)) % (q - 1) == (j + k) % (q - 1));
        }
    }
}

/// Going around a 2p-gon alternates swap and cycle `p` times each. That closes up,
/// `(c t)^p = 1`, exactly when `q - 1` divides `p`: `c t` is a cycle of length `q - 1`.
pub proof fn lemma_face_relation(p: nat, q: int)
    requires
        3 <= q <= MAX_Q,
    ensures
        (pow_of(mul_of(cycle_of(q), swap_of(q), q), p, q) == identity_of(q)) <==> p % ((q
            - 1) as nat) == 0,
{
    let ct = mul_of(cycle_of(q), swap_of(q), q);
    let m: int = q - 1;
    let pi: int = p as int;
    lemma_cycle_swap_power(q, p);
    if p % (m as nat) == 0 {
        assert forall|i: int| 0 <= i < MAX_Q implies pow_of(ct, p, q)[i] == identity_of(q)[i] by {
            if i < q && i != 1 {
                let j = if i == 0 {
                    0
                } else {
                    i - 1
                };
                assert(around(j) == i);
                vstd::arithmetic::div_mod::lemma_add_mod_noop_right(j, pi, m);
                vstd::arithmetic::div_mod::lemma_small_mod(j as nat, m as nat);
                assert((j + pi) % m == j);
            }
        }
        assert(pow_of(ct, p, q) =~= identity_of(q));
    } else {
        assert(pow_of(ct, p, q)[around(0)] - 1 == around((0 + pi) % m));
        if pow_of(ct, p, q) == identity_of(q) {
            assert(identity_of(q)[0] == 1);
            assert(around(pi % m) == 0);
        }
    }
}

/// Whether `g` has the shape of an element of S_q: images in `1..=q`, and 0 past `q`.
pub open spec fn shaped(g: Seq<u8>, q: int) -> bool {
    &&& g.len() == MAX_Q
    &&& 0 <= q <= MAX_Q
    &&& in_range(g, q)
    &&& forall|i: int| q <= i < MAX_Q ==> #[trigger] g[i] == 0
}

/// Multiplying keeps the shape.
pub proof fn lemma_mul_shaped(a: Seq<u8>, b: Seq<u8>, q: int)
    requires
        shaped(a, q),
        in_range(b, q),
    ensures
        shaped(mul_of(a, b, q), q),
{
    assert forall|i: int| 0 <= i < q implies 1 <= #[trigger] mul_of(a, b, q)[i] <= q by {
        assert(1 <= b[i] <= q);
    }
}

/// The identity is neutral on both sides of anything of the right shape.
pub proof fn lemma_identity_sides(g: Seq<u8>, q: int)
    requires
        shaped(g, q),
    ensures
        mul_of(identity_of(q), g, q) == g,
        mul_of(g, identity_of(q), q) == g,
        shaped(identity_of(q), q),
{
    assert forall|i: int| 0 <= i < q implies 1 <= #[trigger] g[i] <= q by {}
    assert(mul_of(identity_of(q), g, q) =~= g);
    assert(mul_of(g, identity_of(q), q) =~= g);
}

/// The cycle has distinct images, and its inverse steps each entry one place back.
pub proof fn lemma_cycle_inverse(q: int)
    requires
        3 <= q <= MAX_Q,
    ensures
        is_perm(cycle_of(q), q),
        forall|j: int|
            0 <= j < q ==> #[trigger] inverse_of(cycle_of(q), q)[j] == ((j + q - 1) % q + 1) as u8,
        forall|j: int| q <= j < MAX_Q ==> #[trigger] inverse_of(cycle_of(q), q)[j] == 0,
        mul_of(inverse_of(cycle_of(q), q), cycle_of(q), q) == identity_of(q),
        mul_of(cycle_of(q), inverse_of(cycle_of(q), q), q) == identity_of(q),
{
    let c = cycle_of(q);
    assert(q % 256 == q);
    assert forall|i: int| 0 <= i < q implies #[trigger] c[i] == (if i + 1 < q {
        i + 2
    } else {
        1
    }) by {
        if i + 1 < q {
            vstd::arithmetic::div_mod::lemma_small_mod((i + 1) as nat, q as nat);
        } else {
            vstd::arithmetic::div_mod::lemma_mod_self_0(q);
        }
    }
    assert(is_perm(c, q));
    assert forall|j: int| 0 <= j < q implies #[trigger] inverse_of(c, q)[j] == ((j + q - 1) % q
        + 1) as u8 by {
        let i = (j + q - 1) % q;
        if j == 0 {
            assert(i == q - 1) by {
                vstd::arithmetic::div_mod::lemma_small_mod((q - 1) as nat, q as nat);
            }
        } else {
            assert(i == j - 1) by {
                vstd::arithmetic::div_mod::lemma_mod_add_multiples_vanish(j - 1, q);
                vstd::arithmetic::div_mod::lemma_small_mod((j - 1) as nat, q as nat);
            }
        }
        assert(c[i] == j + 1);
        lemma_last_preimage_unique(c, q, i, q);
    }
    assert forall|j: int| q <= j < MAX_Q implies #[trigger] inverse_of(c, q)[j] == 0 by {
        lemma_last_preimage_absent(c, j + 1, q, q);
    }
    lemma_inverse_undoes(c, q);
    let b = inverse_of(c, q);
    assert forall|j: int| 0 <= j < MAX_Q implies mul_of(c, b, q)[j] == identity_of(q)[j] by {
        if j < q {
            if j == 0 {
                vstd::arithmetic::div_mod::lemma_small_mod((q - 1) as nat, q as nat);
            } else {
                vstd::arithmetic::div_mod::lemma_mod_add_multiples_vanish(j - 1, q);
                vstd::arithmetic::div_mod::lemma_small_mod((j - 1) as nat, q as nat);
            }
        }
    }
    assert(mul_of(c, b, q) =~= identity_of(q));
}

proof fn lemma_last_preimage_absent(g: Seq<u8>, v: int, q: int, k: int)
    requires
        0 <= k <= q,
        in_range(g, q),
        v > q,
    ensures
        last_preimage(g, v, k) is None,
    decreases k,
{
    if k > 0 {
        assert(g[k - 1] <= q);
        lemma_last_preimage_absent(g, v, q, k - 1);
    }
}

/// Two swaps cancel.
pub proof fn lemma_swap_twice(q: int)
    requires
        2 <= q <= MAX_Q,
    ensures
        mul_of(swap_of(q), swap_of(q), q) == identity_of(q),
        shaped(swap_of(q), q),
{
    assert(mul_of(swap_of(q), swap_of(q), q) =~= identity_of(q));
}

/// A two-sided inverse is the inverse.
pub proof fn lemma_inverse_is(x: Seq<u8>, y: Seq<u8>, q: int)
    requires
        shaped(x, q),
        shaped(y, q),
        mul_of(y, x, q) == identity_of(q),
        mul_of(x, y, q) == identity_of(q),
    ensures
        inverse_of(x, q) == y,
        is_perm(x, q),
{
    assert forall|i: int, j: int| 0 <= i < j < q implies x[i] != x[j] by {
        if x[i] == x[j] {
            assert(mul_of(y, x, q)[i] == identity_of(q)[i]);
            assert(mul_of(y, x, q)[j] == identity_of(q)[j]);
            assert(mul_of(y, x, q)[i] == y[x[i] - 1]);
            assert(mul_of(y, x, q)[j] == y[x[j] - 1]);
            assert(identity_of(q)[i] == (i + 1) as u8);
            assert(identity_of(q)[j] == (j + 1) as u8);
        }
    }
    assert(is_perm(x, q));
    assert forall|j: int| 0 <= j < MAX_Q implies inverse_of(x, q)[j] == y[j] by {
        if j < q {
            assert(mul_of(x, y, q)[j] == identity_of(q)[j]);
            assert(mul_of(x, y, q)[j] == x[y[j] - 1]);
            assert(identity_of(q)[j] == (j + 1) as u8);
            let i = y[j] - 1;
            assert(0 <= i < q);
            assert(x[i] == j + 1);
            lemma_last_preimage_unique(x, q, i, q);
            assert(mul_of(y, x, q)[i] == identity_of(q)[i]);
        } else {
            lemma_last_preimage_absent(x, j + 1, q, q);
        }
    }
    assert(inverse_of(x, q) =~= y);
}

/// A shortest route through the graph.
pub struct Route {
    /// Its length in steps, which is exact: the word length in the group.
    pub hops: usize,
    /// The vertices it passes through, from the start. It stops early if the route runs off the
    /// generated patch.
    pub path: Vec<usize>,
}

} // verus!
