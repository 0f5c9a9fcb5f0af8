//! The vertices of a truncated tiling t{p,q} read as the Cayley graph of the symmetric group S_q.
//!
//! Every vertex has three edges: on to the next vertex around its q-gon, back to the one before,
//! and across to the neighboring q-gon. Starting from one vertex labelled with the identity, a
//! step on around a q-gon multiplies the label by the cycle `c`, a step back by `c⁻¹`, and a step
//! across by the swap `t`, always on the right. Where the tiling lies in the plane is worked out
//! elsewhere; here a vertex is its links to its neighbors and its label.
use crate::cayley::{
    cycle, cycle_of, cycles_text, identity, identity_of, in_range, inverse, inverse_of, is_perm,
    lemma_cycle_inverse, lemma_identity_sides, lemma_inverse_is, lemma_mul_associative,
    lemma_mul_shaped, lemma_swap_twice, mul_of, shaped, swap, swap_of, word_text, Perm, MAX_Q,
};
use std::collections::HashMap;
use vstd::prelude::*;

verus! {

broadcast use vstd::std_specs::hash::group_hash_axioms;

/// A vertex of the truncated tiling: its label, and its links to its neighbors.
#[derive(Clone, Copy)]
pub struct Vertex {
    /// `None` out at the edge of the generated patch, where a q-gon is missing.
    pub label: Option<Perm>,
    /// The next vertex counterclockwise around our q-gon (a multiplication by the cycle).
    pub next: Option<usize>,
    /// Across the edge to the neighboring q-gon (a multiplication by the swap).
    pub across: Option<usize>,
}

impl Vertex {
    /// A neighbor, for judging how much room the vertex has on screen.
    pub fn neighbor(&self) -> (r: Option<usize>)
        ensures
            r == (if self.across is Some {
                self.across
            } else {
                self.next
            }),
    {
        match self.across {
            Some(a) => Some(a),
            None => self.next,
        }
    }
}

/// Each vertex's link on around its q-gon.
pub open spec fn nexts(vs: Seq<Vertex>) -> Seq<Option<usize>> {
    vs.map_values(|x: Vertex| x.next)
}

/// Each vertex's label.
pub open spec fn labels(vs: Seq<Vertex>) -> Seq<Option<Perm>> {
    vs.map_values(|x: Vertex| x.label)
}

/// Whether every link leads to a vertex of the list.
pub open spec fn links_within(vs: Seq<Vertex>) -> bool {
    forall|i: int|
        0 <= i < vs.len() ==> (#[trigger] vs[i].next matches Some(n) ==> n < vs.len()) && (
        vs[i].across matches Some(a) ==> a < vs.len())
}

/// Whether every link on around a q-gon leads to a vertex of the list.
pub open spec fn nexts_within(ns: Seq<Option<usize>>) -> bool {
    forall|i: int| 0 <= i < ns.len() ==> (#[trigger] ns[i] matches Some(n) ==> n < ns.len())
}

/// Walking on around a ring from `at`, visiting `fuel` vertices at most: the vertex whose next
/// is `v`. `None` if the ring is open, or comes back round to `start` first.
pub open spec fn back_from(ns: Seq<Option<usize>>, v: int, start: int, at: int, fuel: nat) -> Option<
    usize,
>
    decreases fuel,
{
    if fuel == 0 || !(0 <= at < ns.len()) {
        None
    } else {
        match ns[at] {
            None => None,
            Some(f) => if f == v {
                Some(at as usize)
            } else if f == start {
                None
            } else {
                back_from(ns, v, start, f as int, (fuel - 1) as nat)
            },
        }
    }
}

/// The vertex before `v` around its q-gon (the one whose next is `v`), found by walking on
/// around the ring from `v`'s next.
pub open spec fn back_of(ns: Seq<Option<usize>>, v: int) -> Option<usize> {
    match ns[v] {
        None => None,
        Some(n) => back_from(ns, v, n as int, n as int, ns.len()),
    }
}

/// The vertex `k` steps on around the ring from `v`, as far as the links go.
pub open spec fn ahead(ns: Seq<Option<usize>>, v: int, k: nat) -> Option<int>
    decreases k,
{
    if k == 0 {
        Some(v)
    } else {
        match ahead(ns, v, (k - 1) as nat) {
            Some(a) => if 0 <= a < ns.len() {
                match ns[a] {
                    Some(n) => Some(n as int),
                    None => None,
                }
            } else {
                None
            },
            None => None,
        }
    }
}

/// Whether walking on around the ring from `v` comes back to `v`.
pub open spec fn on_ring(ns: Seq<Option<usize>>, v: int) -> bool {
    exists|k: nat| k >= 1 && #[trigger] ahead(ns, v, k) == Some(v)
}

/// The vertex before `v` around its q-gon (the one whose `next` is `v`).
pub fn back_link(vertices: &[Vertex], v: usize) -> (r: Option<usize>)
    requires
        v < vertices.len(),
        links_within(vertices@),
    ensures
        r == back_of(nexts(vertices@), v as int),
{
    let ghost ns = nexts(vertices@);
    let next = match vertices[v].next {
        Some(n) => n,
        None => {
            return None;
        },
    };
    let mut at = next;
    let mut fuel = vertices.len();
    while fuel > 0
        invariant
            ns == nexts(vertices@),
            links_within(vertices@),
            v < vertices.len(),
            ns[v as int] == Some(next),
            at < vertices.len(),
            fuel <= vertices.len(),
            back_of(ns, v as int) == back_from(ns, v as int, next as int, at as int, fuel as nat),
        decreases fuel,
    {
        let following = match vertices[at].next {
            Some(f) => f,
            None => {
                return None;
            },
        };
        if following == v {
            return Some(at);
        }
        at = following;
        fuel = fuel - 1;
        if at == next {
            return None;
        }
    }
    None
}

proof fn lemma_ahead_compose(ns: Seq<Option<usize>>, v: int, a: nat, b: nat)
    ensures
        ahead(ns, v, a + b) == match ahead(ns, v, a) {
            Some(x) => ahead(ns, x, b),
            None => None,
        },
    decreases b,
{
    if b == 0 {
        match ahead(ns, v, a) {
            Some(x) => {},
            None => {},
        }
    } else {
        lemma_ahead_compose(ns, v, a, (b - 1) as nat);
        assert((a + b - 1) as nat == a + (b - 1) as nat);
        match ahead(ns, v, a) {
            Some(x) => {
                assert(ahead(ns, x, b) == match ahead(ns, x, (b - 1) as nat) {
                    Some(y) => if 0 <= y < ns.len() {
                        match ns[y] {
                            Some(n) => Some(n as int),
                            None => None,
                        }
                    } else {
                        None
                    },
                    None => None,
                });
            },
            None => {},
        }
    }
}

/// A least number of steps that comes back round to `v`.
proof fn lemma_least_return(ns: Seq<Option<usize>>, v: int, k: nat) -> (k0: nat)
    requires
        k >= 1,
        ahead(ns, v, k) == Some(v),
    ensures
        1 <= k0 <= k,
        ahead(ns, v, k0) == Some(v),
        forall|j: nat| 1 <= j < k0 ==> #[trigger] ahead(ns, v, j) != Some(v),
    decreases k,
{
    if exists|j: nat| 1 <= j < k && #[trigger] ahead(ns, v, j) == Some(v) {
        let j = choose|j: nat| 1 <= j < k && #[trigger] ahead(ns, v, j) == Some(v);
        lemma_least_return(ns, v, j)
    } else {
        k
    }
}

/// Walking on from `j` steps around a ring that first comes back to `v` after `k0` steps finds
/// the vertex `k0 - 1` steps on.
proof fn lemma_back_from_ring(ns: Seq<Option<usize>>, v: int, k0: nat, j: nat, fuel: nat)
    requires
        0 <= v < ns.len() <= usize::MAX,
        nexts_within(ns),
        2 <= k0,
        ahead(ns, v, k0) == Some(v),
        forall|i: nat| 1 <= i < k0 ==> #[trigger] ahead(ns, v, i) != Some(v),
        1 <= j < k0,
        fuel + j >= k0,
        ahead(ns, v, 1) is Some,
    ensures
        ({
            let at = ahead(ns, v, j)->0;
            let start = ahead(ns, v, 1)->0;
            let b = ahead(ns, v, (k0 - 1) as nat)->0;
            &&& ahead(ns, v, (k0 - 1) as nat) is Some
            &&& back_from(ns, v, start, at, fuel) == Some(b as usize)
        }),
    decreases k0 - j,
{
    lemma_ahead_compose(ns, v, j, 1);
    lemma_ahead_compose(ns, v, (k0 - 1) as nat, 1);
    lemma_ahead_in_range(ns, v, j);
    lemma_ahead_in_range(ns, v, (k0 - 1) as nat);
    assert(ahead(ns, v, j) is Some) by {
        if ahead(ns, v, j) is None {
            lemma_ahead_none_stays(ns, v, j, k0);
        }
    }
    assert(ahead(ns, v, (k0 - 1) as nat) is Some) by {
        if ahead(ns, v, (k0 - 1) as nat) is None {
            lemma_ahead_none_stays(ns, v, (k0 - 1) as nat, k0);
        }
    }
    let at = ahead(ns, v, j)->0;
    let start = ahead(ns, v, 1)->0;
    assert(ns[at] is Some && ns[at]->0 == ahead(ns, v, j + 1)->0) by {
        assert(ahead(ns, v, j + 1) == ahead(ns, at, 1));
        if j + 1 < k0 {
            assert(ahead(ns, v, j + 1) is Some) by {
                if ahead(ns, v, j + 1) is None {
                    lemma_ahead_none_stays(ns, v, j + 1, k0);
                }
            }
        }
    }
    if j + 1 == k0 {
    } else {
        let f = ahead(ns, v, j + 1)->0;
        assert(f != v);
        assert(f != start) by {
            if f == start {
                // then k0 - j steps already come back round
                lemma_ahead_compose(ns, v, j + 1, (k0 - j - 1) as nat);
                lemma_ahead_compose(ns, v, 1, (k0 - j - 1) as nat);
                assert((j + 1 + (k0 - j - 1)) as nat == k0);
                assert((1 + (k0 - j - 1)) as nat == (k0 - j) as nat);
                assert(ahead(ns, v, (k0 - j) as nat) == Some(v));
            }
        }
        assert(fuel >= 1);
        lemma_back_from_ring(ns, v, k0, j + 1, (fuel - 1) as nat);
    }
}

proof fn lemma_ahead_in_range(ns: Seq<Option<usize>>, v: int, k: nat)
    requires
        0 <= v < ns.len(),
        nexts_within(ns),
    ensures
        ahead(ns, v, k) matches Some(a) ==> 0 <= a < ns.len(),
    decreases k,
{
    if k > 0 {
        lemma_ahead_in_range(ns, v, (k - 1) as nat);
    }
}

proof fn lemma_ahead_none_stays(ns: Seq<Option<usize>>, v: int, j: nat, k: nat)
    requires
        j <= k,
        ahead(ns, v, j) is None,
    ensures
        ahead(ns, v, k) is None,
    decreases k - j,
{
    if j < k {
        lemma_ahead_none_stays(ns, v, j, (k - 1) as nat);
    }
}

/// The vertex before `v` around its q-gon is found exactly when the ring through `v` closes,
/// and it is the one whose link on around the ring is `v`.
pub proof fn lemma_back_link_closes_ring(ns: Seq<Option<usize>>, v: int)
    requires
        0 <= v < ns.len() <= usize::MAX,
        nexts_within(ns),
    ensures
        back_of(ns, v) matches Some(b) ==> b < ns.len() && ns[b as int] == Some(v as usize),
        on_ring(ns, v) ==> back_of(ns, v) is Some,
{
    lemma_back_from_links(ns, v, ns[v], ns.len());
    if on_ring(ns, v) {
        let k = choose|k: nat| k >= 1 && #[trigger] ahead(ns, v, k) == Some(v);
        let k0 = lemma_least_return(ns, v, k);
        assert(ahead(ns, v, 0) == Some(v));
        assert(ahead(ns, v, 1) == ahead(ns, v, 0nat + 1));
        if k0 == 1 {
            assert(ahead(ns, v, 1) == Some(v));
            assert(ns[v] is Some);
            assert(ns[v]->0 == v);
        } else {
            assert(ahead(ns, v, 1) is Some) by {
                if ahead(ns, v, 1) is None {
                    lemma_ahead_none_stays(ns, v, 1, k0);
                }
            }
            lemma_least_return_bound(ns, v, k0);
            lemma_back_from_ring(ns, v, k0, 1, ns.len());
        }
    }
}

proof fn lemma_back_from_links(ns: Seq<Option<usize>>, v: int, start: Option<usize>, fuel: nat)
    requires
        0 <= v < ns.len() <= usize::MAX,
        nexts_within(ns),
    ensures
        back_of(ns, v) matches Some(b) ==> b < ns.len() && ns[b as int] == Some(v as usize),
{
    if let Some(n) = ns[v] {
        lemma_back_from_found(ns, v, n as int, n as int, ns.len());
    }
}

proof fn lemma_back_from_found(ns: Seq<Option<usize>>, v: int, start: int, at: int, fuel: nat)
    requires
        0 <= v < ns.len() <= usize::MAX,
        nexts_within(ns),
    ensures
        back_from(ns, v, start, at, fuel) matches Some(b) ==> b < ns.len() && ns[b as int] == Some(
            v as usize,
        ),
    decreases fuel,
{
    if fuel > 0 && 0 <= at < ns.len() {
        if let Some(f) = ns[at] {
            if f == v {
                assert(back_from(ns, v, start, at, fuel) == Some(at as usize));
                assert((at as usize) as int == at);
                assert(f == v as usize);
            } else if f != start {
                lemma_back_from_found(ns, v, start, f as int, (fuel - 1) as nat);
            }
        }
    }
}

/// A least return is no longer than the number of vertices: the vertices passed on the way are
/// all different.
proof fn lemma_least_return_bound(ns: Seq<Option<usize>>, v: int, k0: nat)
    requires
        0 <= v < ns.len(),
        nexts_within(ns),
        k0 >= 1,
        ahead(ns, v, k0) == Some(v),
        forall|i: nat| 1 <= i < k0 ==> #[trigger] ahead(ns, v, i) != Some(v),
    ensures
        k0 <= ns.len(),
{
    let walk = Seq::new(k0, |i: int| ahead(ns, v, i as nat)->0);
    assert forall|i: int| 0 <= i < k0 implies ahead(ns, v, i as nat) is Some && 0 <= #[trigger] walk[i]
        < ns.len() by {
        lemma_ahead_in_range(ns, v, i as nat);
        if ahead(ns, v, i as nat) is None {
            lemma_ahead_none_stays(ns, v, i as nat, k0);
        }
    }
    assert forall|i: int, j: int| 0 <= i < j < k0 implies walk[i] != walk[j] by {
        if walk[i] == walk[j] {
            lemma_ahead_compose(ns, v, i as nat, (k0 - j) as nat);
            lemma_ahead_compose(ns, v, j as nat, (k0 - j) as nat);
            assert((j + (k0 - j)) as nat == k0);
            assert(ahead(ns, v, (i + k0 - j) as nat) == Some(v));
        }
    }
    lemma_distinct_within(walk, ns.len() as int);
}

/// A list of different numbers from `0..n` is no longer than `n`.
pub proof fn lemma_distinct_within(s: Seq<int>, n: int)
    requires
        n >= 0,
        forall|i: int| 0 <= i < s.len() ==> 0 <= #[trigger] s[i] < n,
        forall|i: int, j: int| 0 <= i < j < s.len() ==> s[i] != s[j],
    ensures
        s.len() <= n,
{
    assert(s.no_duplicates());
    s.unique_seq_to_set();
    vstd::set_lib::lemma_int_range(0, n);
    assert(s.to_set().subset_of(vstd::set_lib::set_int_range(0, n)));
    vstd::set_lib::lemma_len_subset(s.to_set(), vstd::set_lib::set_int_range(0, n));
}

/// Each vertex's links: on around its q-gon, and across.
pub open spec fn links(vs: Seq<Vertex>) -> Seq<(Option<usize>, Option<usize>)> {
    vs.map_values(|x: Vertex| (x.next, x.across))
}

/// The links on around the q-gons, out of all the links.
pub open spec fn ring_links(lk: Seq<(Option<usize>, Option<usize>)>) -> Seq<Option<usize>> {
    lk.map_values(|l: (Option<usize>, Option<usize>)| l.0)
}

/// Whether vertex `v` carries a label whose one-line form is `g`.
pub open spec fn labelled_as(ls: Seq<Option<Perm>>, v: int, g: Seq<u8>) -> bool {
    &&& 0 <= v < ls.len()
    &&& ls[v] is Some
    &&& ls[v]->0@ == g
}

/// The step back around a q-gon multiplies by the inverse of the cycle.
pub open spec fn back_step(q: int) -> Seq<u8> {
    inverse_of(cycle_of(q), q)
}

/// Each step out of labelled vertex `v` leads to a vertex labelled with `v`'s label times the
/// step's generator: on around the q-gon `c`, across `t`, back `c⁻¹`.
pub open spec fn steps_agree(
    lk: Seq<(Option<usize>, Option<usize>)>,
    ls: Seq<Option<Perm>>,
    v: int,
    q: int,
) -> bool {
    let g = ls[v]->0@;
    &&& (lk[v].0 matches Some(n) ==> labelled_as(ls, n as int, mul_of(g, cycle_of(q), q)))
    &&& (lk[v].1 matches Some(a) ==> labelled_as(ls, a as int, mul_of(g, swap_of(q), q)))
    &&& (back_of(ring_links(lk), v) matches Some(b) ==> labelled_as(
        ls,
        b as int,
        mul_of(g, back_step(q), q),
    ))
}

/// A consistent labelling from `first`: `first` carries the identity, and every step out of a
/// labelled vertex agrees with its label.
pub open spec fn consistent(
    lk: Seq<(Option<usize>, Option<usize>)>,
    ls: Seq<Option<Perm>>,
    first: int,
    q: int,
) -> bool {
    &&& ls.len() == lk.len()
    &&& labelled_as(ls, first, identity_of(q))
    &&& forall|v: int| 0 <= v < lk.len() && #[trigger] ls[v] is Some ==> steps_agree(lk, ls, v, q)
}

/// Every vertex `ls` labels, `other` labels the same way.
pub open spec fn agrees(ls: Seq<Option<Perm>>, other: Seq<Option<Perm>>) -> bool {
    forall|v: int| 0 <= v < ls.len() && #[trigger] ls[v] is Some ==> labelled_as(other, v, ls[v]->0@)
}

/// The labelling that any consistent labelling extends: the one a search from `first` finds.
pub open spec fn forced(
    lk: Seq<(Option<usize>, Option<usize>)>,
    ls: Seq<Option<Perm>>,
    first: int,
    q: int,
) -> bool {
    forall|other: Seq<Option<Perm>>| #[trigger] consistent(lk, other, first, q) ==> agrees(ls, other)
}

/// Where the last place `v` comes among the first `k` entries of `ring` links on to.
pub open spec fn next_in_ring(ring: Seq<usize>, k: int, v: int) -> Option<usize>
    decreases k,
{
    if k <= 0 {
        None
    } else if ring[k - 1] == v {
        Some(ring[k % (ring.len() as int)])
    } else {
        next_in_ring(ring, k - 1, v)
    }
}

/// Where `v` links on to around its q-gon, going by the last of the first `r` rings it is in.
pub open spec fn ring_next(rings: Seq<Vec<usize>>, r: int, v: int) -> Option<usize>
    decreases r,
{
    if r <= 0 {
        None
    } else {
        match next_in_ring(rings[r - 1]@, rings[r - 1].len() as int, v) {
            Some(n) => Some(n),
            None => ring_next(rings, r - 1, v),
        }
    }
}

/// Where `v` links across to, going by the last of the first `j` edges it is on.
pub open spec fn swap_across(swaps: Seq<(usize, usize)>, j: int, v: int) -> Option<usize>
    decreases j,
{
    if j <= 0 {
        None
    } else if swaps[j - 1].1 == v {
        Some(swaps[j - 1].0)
    } else if swaps[j - 1].0 == v {
        Some(swaps[j - 1].1)
    } else {
        swap_across(swaps, j - 1, v)
    }
}

/// The links of `n` vertices made from the q-gons' rings of corners and the edges between them.
pub open spec fn linked(rings: Seq<Vec<usize>>, swaps: Seq<(usize, usize)>, n: nat) -> Seq<
    (Option<usize>, Option<usize>),
> {
    Seq::new(
        n,
        |v: int| (ring_next(rings, rings.len() as int, v), swap_across(swaps, swaps.len() as int, v)),
    )
}

/// Whether the one-line forms of two permutations are the same.
fn same_perm(a: &Perm, b: &Perm) -> (r: bool)
    ensures
        r == (a@ == b@),
{
    let mut i: usize = 0;
    while i < MAX_Q
        invariant
            0 <= i <= MAX_Q,
            a@.len() == MAX_Q,
            b@.len() == MAX_Q,
            forall|j: int| 0 <= j < i ==> a@[j] == b@[j],
        decreases MAX_Q - i,
    {
        if a[i] != b[i] {
            return false;
        }
        i = i + 1;
    }
    assert(a@ =~= b@);
    true
}

/// Labels the vertex a step leads to with `label` times the step's generator, queueing it, or
/// checks that it already carries that label. `false` when it carries another.
fn reach(
    vertices: &mut Vec<Vertex>,
    queue: &mut Vec<usize>,
    to: Option<usize>,
    label: &Perm,
    generator: &Perm,
    q: usize,
) -> (ok: bool)
    requires
        q <= MAX_Q,
        in_range(generator@, q as int),
        to matches Some(n) ==> n < old(vertices).len(),
    ensures
        final(vertices).len() == old(vertices).len(),
        links(final(vertices)@) == links(old(vertices)@),
        match to {
            None => ok && final(vertices)@ == old(vertices)@ && final(queue)@ == old(queue)@,
            Some(n) => if old(vertices)@[n as int].label is None {
                &&& ok
                &&& labels(final(vertices)@) == labels(old(vertices)@).update(
                    n as int,
                    final(vertices)@[n as int].label,
                )
                &&& labelled_as(
                    labels(final(vertices)@),
                    n as int,
                    mul_of(label@, generator@, q as int),
                )
                &&& final(queue)@ == old(queue)@.push(n)
            } else {
                &&& ok == (old(vertices)@[n as int].label->0@ == mul_of(
                    label@,
                    generator@,
                    q as int,
                ))
                &&& final(vertices)@ == old(vertices)@
                &&& final(queue)@ == old(queue)@
            },
        },
{
    let n = match to {
        Some(n) => n,
        None => {
            return true;
        },
    };
    let found = crate::cayley::mul(label, generator, q);
    match vertices[n].label {
        Some(existing) => same_perm(&existing, &found),
        None => {
            let mut x = vertices[n];
            x.label = Some(found);
            vertices.set(n, x);
            queue.push(n);
            assert(links(vertices@) =~= links(old(vertices)@));
            assert(labels(vertices@) =~= labels(old(vertices)@).update(n as int, Some(found)));
            true
        },
    }
}

/// Whether `to` is where a step out of `v` leads, and `s` that step's generator.
pub open spec fn step_to(
    lk: Seq<(Option<usize>, Option<usize>)>,
    v: int,
    to: Option<usize>,
    s: Seq<u8>,
    q: int,
) -> bool {
    ||| (to == lk[v].0 && s == cycle_of(q))
    ||| (to == lk[v].1 && s == swap_of(q))
    ||| (to == back_of(ring_links(lk), v) && s == back_step(q))
}

/// `after` keeps every label `before` has.
pub open spec fn grows(before: Seq<Option<Perm>>, after: Seq<Option<Perm>>) -> bool {
    &&& after.len() == before.len()
    &&& forall|v: int| 0 <= v < before.len() && #[trigger] before[v] is Some ==> after[v] == before[v]
}

/// What holds throughout the search: the labels so far are in range and forced, and the queue
/// holds each labelled vertex once.
pub open spec fn search_state(
    lk: Seq<(Option<usize>, Option<usize>)>,
    ls: Seq<Option<Perm>>,
    queue: Seq<usize>,
    first: int,
    q: int,
) -> bool {
    &&& ls.len() == lk.len()
    &&& labelled_as(ls, first, identity_of(q))
    &&& forall|v: int| 0 <= v < ls.len() && #[trigger] ls[v] is Some ==> in_range(ls[v]->0@, q)
    &&& forall|i: int|
        0 <= i < queue.len() ==> #[trigger] queue[i] < ls.len() && ls[queue[i] as int] is Some
    &&& forall|i: int, j: int| 0 <= i < j < queue.len() ==> queue[i] != queue[j]
    &&& forall|v: int|
        0 <= v < ls.len() && #[trigger] ls[v] is Some ==> exists|i: int|
            0 <= i < queue.len() && #[trigger] queue[i] == v
    &&& forced(lk, ls, first, q)
}

proof fn lemma_generators_in_range(q: int)
    requires
        3 <= q <= MAX_Q,
    ensures
        in_range(cycle_of(q), q),
        in_range(swap_of(q), q),
        in_range(back_step(q), q),
{
    let c = cycle_of(q);
    assert(q % 256 == q);
    assert forall|i: int| 0 <= i < q implies 1 <= #[trigger] c[i] <= q by {
        assert(0 <= (i + 1) % q < q);
    }
    assert forall|j: int| 0 <= j < q implies 1 <= #[trigger] back_step(q)[j] <= q by {
        let i = (j + q - 1) % q;
        assert(0 <= i < q);
        assert(c[i] == j + 1) by {
            vstd::arithmetic::div_mod::lemma_add_mod_noop_right(1, j + q - 1, q);
            vstd::arithmetic::div_mod::lemma_mod_add_multiples_vanish(j, q);
            vstd::arithmetic::div_mod::lemma_small_mod(j as nat, q as nat);
        }
        lemma_last_preimage_found(c, j + 1, q, i);
    }
}

proof fn lemma_last_preimage_found(g: Seq<u8>, v: int, k: int, i: int)
    requires
        0 <= i < k,
        g[i] == v,
    ensures
        crate::cayley::last_preimage(g, v, k) matches Some(x) && 0 <= x < k,
    decreases k,
{
    if g[k - 1] != v {
        lemma_last_preimage_found(g, v, k - 1, i);
    }
}

/// A step out of a vertex labelled `g` leads to a vertex any consistent labelling labels with
/// `g` times the step's generator.
proof fn lemma_step_forced(
    lk: Seq<(Option<usize>, Option<usize>)>,
    ls: Seq<Option<Perm>>,
    other: Seq<Option<Perm>>,
    v: int,
    n: usize,
    s: Seq<u8>,
    first: int,
    q: int,
)
    requires
        0 <= v < lk.len(),
        ls.len() == lk.len(),
        ls[v] is Some,
        step_to(lk, v, Some(n), s, q),
        forced(lk, ls, first, q),
        consistent(lk, other, first, q),
    ensures
        labelled_as(other, n as int, mul_of(ls[v]->0@, s, q)),
{
    assert(agrees(ls, other));
    assert(labelled_as(other, v, ls[v]->0@));
    assert(steps_agree(lk, other, v, q));
}

/// Labelling the vertex a step leads to keeps the search's state.
proof fn lemma_reach_keeps(
    lk: Seq<(Option<usize>, Option<usize>)>,
    ls: Seq<Option<Perm>>,
    ls2: Seq<Option<Perm>>,
    queue: Seq<usize>,
    v: int,
    n: usize,
    s: Seq<u8>,
    first: int,
    q: int,
)
    requires
        0 <= q <= MAX_Q,
        search_state(lk, ls, queue, first, q),
        0 <= v < ls.len(),
        ls[v] is Some,
        n < ls.len(),
        ls[n as int] is None,
        in_range(s, q),
        step_to(lk, v, Some(n), s, q),
        ls2 == ls.update(n as int, ls2[n as int]),
        labelled_as(ls2, n as int, mul_of(ls[v]->0@, s, q)),
    ensures
        search_state(lk, ls2, queue.push(n), first, q),
        grows(ls, ls2),
{
    let g = ls[v]->0@;
    let queue2 = queue.push(n);
    assert(in_range(g, q));
    assert forall|u: int| 0 <= u < ls2.len() && #[trigger] ls2[u] is Some implies in_range(
        ls2[u]->0@,
        q,
    ) by {
        if u == n {
            assert forall|i: int| 0 <= i < q implies 1 <= #[trigger] mul_of(g, s, q)[i] <= q by {
                assert(1 <= s[i] <= q);
            }
        }
    }
    assert forall|i: int| 0 <= i < queue2.len() implies #[trigger] queue2[i] < ls2.len()
        && ls2[queue2[i] as int] is Some by {
        if i < queue.len() {
            assert(queue2[i] == queue[i]);
        }
    }
    assert forall|i: int, j: int| 0 <= i < j < queue2.len() implies queue2[i] != queue2[j] by {
        if j == queue.len() {
            assert(ls[queue[i] as int] is Some);
        } else {
            assert(queue2[i] == queue[i] && queue2[j] == queue[j]);
        }
    }
    assert forall|u: int| 0 <= u < ls2.len() && #[trigger] ls2[u] is Some implies exists|i: int|
        0 <= i < queue2.len() && #[trigger] queue2[i] == u by {
        if u == n {
            assert(queue2[queue.len() as int] == u);
        } else {
            let i = choose|i: int| 0 <= i < queue.len() && #[trigger] queue[i] == u;
            assert(queue2[i] == u);
        }
    }
    assert forall|other: Seq<Option<Perm>>| #[trigger] consistent(lk, other, first, q) implies agrees(
        ls2,
        other,
    ) by {
        assert(agrees(ls, other));
        lemma_step_forced(lk, ls, other, v, n, s, first, q);
    }
}

/// A step that leads to a vertex labelled otherwise than the step would label it leaves no
/// consistent labelling.
proof fn lemma_conflict(
    lk: Seq<(Option<usize>, Option<usize>)>,
    ls: Seq<Option<Perm>>,
    v: int,
    n: usize,
    s: Seq<u8>,
    first: int,
    q: int,
)
    requires
        0 <= v < lk.len(),
        ls.len() == lk.len(),
        ls[v] is Some,
        n < ls.len(),
        ls[n as int] is Some,
        ls[n as int]->0@ != mul_of(ls[v]->0@, s, q),
        step_to(lk, v, Some(n), s, q),
        forced(lk, ls, first, q),
    ensures
        forall|other: Seq<Option<Perm>>| !#[trigger] consistent(lk, other, first, q),
{
    assert forall|other: Seq<Option<Perm>>| !#[trigger] consistent(lk, other, first, q) by {
        if consistent(lk, other, first, q) {
            lemma_step_forced(lk, ls, other, v, n, s, first, q);
            assert(agrees(ls, other));
            assert(labelled_as(other, n as int, ls[n as int]->0@));
        }
    }
}

/// A step out of a vertex that has all its labels keeps them, and keeps the steps already checked.
proof fn lemma_grows_keeps_steps(
    lk: Seq<(Option<usize>, Option<usize>)>,
    ls: Seq<Option<Perm>>,
    ls2: Seq<Option<Perm>>,
    queue: Seq<usize>,
    head: int,
    q: int,
)
    requires
        grows(ls, ls2),
        0 <= head <= queue.len(),
        forall|i: int| 0 <= i < head ==> #[trigger] queue[i] < ls.len() && ls[queue[i] as int] is Some,
        forall|i: int| 0 <= i < head ==> steps_agree(lk, ls, #[trigger] queue[i] as int, q),
    ensures
        forall|i: int| 0 <= i < head ==> steps_agree(lk, ls2, #[trigger] queue[i] as int, q),
{
    assert forall|i: int| 0 <= i < head implies steps_agree(lk, ls2, #[trigger] queue[i] as int, q) by {
        let v = queue[i] as int;
        assert(ls[v] is Some);
        assert(ls2[v] == ls[v]);
        assert(steps_agree(lk, ls, v, q));
        assert forall|u: int, g: Seq<u8>| labelled_as(ls, u, g) implies labelled_as(ls2, u, g) by {
            assert(ls[u] is Some);
        }
    }
}

/// After a step's vertex is reached: the search's state holds, the steps already checked still
/// agree, the labels grew, and the step's vertex carries the label the step gives it.
proof fn lemma_after_reach(
    lk: Seq<(Option<usize>, Option<usize>)>,
    ls: Seq<Option<Perm>>,
    ls2: Seq<Option<Perm>>,
    queue: Seq<usize>,
    queue2: Seq<usize>,
    head: int,
    v: int,
    to: Option<usize>,
    s: Seq<u8>,
    gs: Generator,
    first: int,
    q: int,
)
    requires
        0 <= q <= MAX_Q,
        search_state(lk, ls, queue, first, q),
        spelled(ls, q),
        s == generator_of(gs, q),
        0 <= head <= queue.len(),
        forall|i: int| 0 <= i < head ==> steps_agree(lk, ls, #[trigger] queue[i] as int, q),
        0 <= v < ls.len(),
        ls[v] is Some,
        in_range(s, q),
        step_to(lk, v, to, s, q),
        to matches Some(n) ==> n < ls.len(),
        match to {
            None => ls2 == ls && queue2 == queue,
            Some(n) => if ls[n as int] is None {
                &&& ls2 == ls.update(n as int, ls2[n as int])
                &&& labelled_as(ls2, n as int, mul_of(ls[v]->0@, s, q))
                &&& queue2 == queue.push(n)
            } else {
                &&& ls[n as int]->0@ == mul_of(ls[v]->0@, s, q)
                &&& ls2 == ls
                &&& queue2 == queue
            },
        },
    ensures
        search_state(lk, ls2, queue2, first, q),
        spelled(ls2, q),
        grows(ls, ls2),
        head <= queue2.len(),
        forall|i: int| 0 <= i < head ==> steps_agree(lk, ls2, #[trigger] queue2[i] as int, q),
        to matches Some(n) ==> labelled_as(ls2, n as int, mul_of(ls[v]->0@, s, q)),
{
    if to is Some && ls[to->0 as int] is None {
        lemma_reach_keeps(lk, ls, ls2, queue, v, to->0, s, first, q);
        let n = to->0 as int;
        assert forall|u: int| 0 <= u < ls2.len() && #[trigger] ls2[u] is Some implies exists|w: Seq<
            Generator,
        >| #[trigger] spell(identity_of(q), w, q) == ls2[u]->0@ by {
            if u == n {
                let w = choose|w: Seq<Generator>| #[trigger] spell(identity_of(q), w, q) == ls[v]->0@;
                let w2 = w.push(gs);
                assert(w2.drop_last() =~= w);
                assert(spell(identity_of(q), w2, q) == ls2[u]->0@);
            } else {
                assert(ls[u] is Some);
            }
        }
    }
    lemma_grows_keeps_steps(lk, ls, ls2, queue, head, q);
    assert forall|i: int| 0 <= i < head implies steps_agree(lk, ls2, #[trigger] queue2[i] as int, q) by {
        assert(queue2[i] == queue[i]);
        assert(steps_agree(lk, ls2, queue[i] as int, q));
    }
}

proof fn lemma_links_within_same(vs: Seq<Vertex>, vs2: Seq<Vertex>)
    requires
        links_within(vs),
        links(vs2) == links(vs),
    ensures
        links_within(vs2),
{
    assert(vs2.len() == links(vs2).len() && vs.len() == links(vs).len());
    assert forall|i: int| 0 <= i < vs2.len() implies (#[trigger] vs2[i].next matches Some(n) ==> n
        < vs2.len()) && (vs2[i].across matches Some(a) ==> a < vs2.len()) by {
        assert(links(vs2)[i] == (vs2[i].next, vs2[i].across));
        assert(links(vs)[i] == (vs[i].next, vs[i].across));
        assert(vs[i].next matches Some(n) ==> n < vs.len());
    }
}

/// Labels every vertex a search from `first` reaches: `first` with the identity, and each step's
/// vertex with the label of the vertex it left times the step's generator. `false` if two ways
/// to a vertex disagree, when no labelling can be consistent.
fn label_from(vertices: &mut Vec<Vertex>, first: usize, q: usize) -> (ok: bool)
    requires
        3 <= q <= MAX_Q,
        first < old(vertices).len(),
        links_within(old(vertices)@),
        forall|v: int| 0 <= v < old(vertices).len() ==> #[trigger] old(vertices)@[v].label is None,
    ensures
        final(vertices).len() == old(vertices).len(),
        links(final(vertices)@) == links(old(vertices)@),
        ok ==> consistent(links(final(vertices)@), labels(final(vertices)@), first as int, q as int),
        ok ==> forced(links(final(vertices)@), labels(final(vertices)@), first as int, q as int),
        ok ==> spelled(labels(final(vertices)@), q as int),
        ok ==> forall|v: int|
            0 <= v < final(vertices).len() && #[trigger] labels(final(vertices)@)[v] is Some
                ==> in_range(labels(final(vertices)@)[v]->0@, q as int),
        !ok ==> forall|other: Seq<Option<Perm>>|
            !#[trigger] consistent(links(old(vertices)@), other, first as int, q as int),
{
    let ghost lk = links(vertices@);
    let ghost qi = q as int;
    let n = vertices.len();
    let c = cycle(q);
    let t = swap(q);
    proof {
        lemma_generators_in_range(qi);
    }
    let back = inverse(&c, q);
    let mut x = vertices[first];
    x.label = Some(identity(q));
    vertices.set(first, x);
    let mut queue: Vec<usize> = Vec::new();
    queue.push(first);
    proof {
        assert(links(vertices@) =~= lk);
        let ls = labels(vertices@);
        assert forall|v: int| 0 <= v < ls.len() && #[trigger] ls[v] is Some implies in_range(
            ls[v]->0@,
            qi,
        ) by {
            assert(v == first);
        }
        assert forall|v: int| 0 <= v < ls.len() && #[trigger] ls[v] is Some implies exists|i: int|
            0 <= i < queue@.len() && #[trigger] queue@[i] == v by {
            assert(v == first);
            assert(queue@[0] == v);
        }
        assert forall|v: int| 0 <= v < ls.len() && #[trigger] ls[v] is Some implies exists|w: Seq<
            Generator,
        >| #[trigger] spell(identity_of(qi), w, qi) == ls[v]->0@ by {
            assert(v == first);
            assert(spell(identity_of(qi), Seq::<Generator>::empty(), qi) == ls[v]->0@);
        }
        assert forall|other: Seq<Option<Perm>>| #[trigger] consistent(lk, other, first as int, qi)
            implies agrees(ls, other) by {
            assert forall|v: int| 0 <= v < ls.len() && #[trigger] ls[v] is Some implies labelled_as(
                other,
                v,
                ls[v]->0@,
            ) by {
                assert(v == first);
            }
        }
    }
    let mut head: usize = 0;
    while head < queue.len()
        invariant
            3 <= q <= MAX_Q,
            qi == q as int,
            c@ == cycle_of(qi),
            t@ == swap_of(qi),
            back@ == back_step(qi),
            in_range(c@, qi),
            in_range(t@, qi),
            in_range(back@, qi),
            vertices.len() == n,
            n == old(vertices).len(),
            lk == links(old(vertices)@),
            links(vertices@) == lk,
            links_within(vertices@),
            first < n,
            head <= queue.len(),
            search_state(lk, labels(vertices@), queue@, first as int, qi),
            spelled(labels(vertices@), qi),
            forall|i: int|
                0 <= i < head ==> steps_agree(lk, labels(vertices@), #[trigger] queue@[i] as int, qi),
        decreases n - head,
    {
        proof {
            let s = queue@.map_values(|u: usize| u as int);
            assert forall|i: int, j: int| 0 <= i < j < s.len() implies s[i] != s[j] by {
                assert(queue@[i] != queue@[j]);
            }
            assert forall|i: int| 0 <= i < s.len() implies 0 <= #[trigger] s[i] < n by {
                assert(queue@[i] < n);
            }
            lemma_distinct_within(s, n as int);
        }
        let v = queue[head];
        let ghost lsv = labels(vertices@);
        assert(lsv[v as int] is Some);
        let label = match vertices[v].label {
            Some(l) => l,
            None => {
                return false;
            },
        };
        let next = vertices[v].next;
        let across = vertices[v].across;
        let behind = back_link(vertices.as_slice(), v);
        proof {
            let ns = nexts(vertices@);
            assert(nexts_within(ns));
            lemma_back_link_closes_ring(ns, v as int);
        }
        assert(ring_links(lk) =~= nexts(vertices@));
        assert(step_to(lk, v as int, next, c@, qi));
        assert(step_to(lk, v as int, across, t@, qi));
        assert(step_to(lk, v as int, behind, back@, qi));
        let ghost vs0 = vertices@;
        let ghost ls0 = labels(vertices@);
        let ghost q0 = queue@;
        if !reach(vertices, &mut queue, next, &label, &c, q) {
            proof {
                lemma_conflict(lk, ls0, v as int, next->0, c@, first as int, qi);
            }
            return false;
        }
        proof {
            lemma_after_reach(lk, ls0, labels(vertices@), q0, queue@, head as int, v as int, next, c@, Generator::Cycle, first as int, qi);
        }
        let ghost ls1 = labels(vertices@);
        let ghost q1 = queue@;
        if !reach(vertices, &mut queue, across, &label, &t, q) {
            proof {
                lemma_conflict(lk, ls1, v as int, across->0, t@, first as int, qi);
            }
            return false;
        }
        proof {
            lemma_after_reach(lk, ls1, labels(vertices@), q1, queue@, head as int, v as int, across, t@, Generator::Swap, first as int, qi);
        }
        let ghost ls2 = labels(vertices@);
        let ghost q2 = queue@;
        if !reach(vertices, &mut queue, behind, &label, &back, q) {
            proof {
                lemma_conflict(lk, ls2, v as int, behind->0, back@, first as int, qi);
            }
            return false;
        }
        proof {
            lemma_after_reach(lk, ls2, labels(vertices@), q2, queue@, head as int, v as int, behind, back@, Generator::Back, first as int, qi);
            let ls3 = labels(vertices@);
            assert(ls3[v as int] == ls0[v as int]);
            assert(steps_agree(lk, ls3, v as int, qi));
            lemma_links_within_same(vs0, vertices@);
            assert(queue@[head as int] == v);
        }
        head = head + 1;
    }
    proof {
        let ls = labels(vertices@);
        assert forall|u: int| 0 <= u < lk.len() && #[trigger] ls[u] is Some implies steps_agree(
            lk,
            ls,
            u,
            qi,
        ) by {
            let i = choose|i: int| 0 <= i < queue@.len() && #[trigger] queue@[i] == u;
            assert(steps_agree(lk, ls, queue@[i] as int, qi));
        }
    }
    true
}

/// The vertices, linked on around each q-gon's ring of corners and across each edge between
/// q-gons, with no labels yet.
fn link(rings: &[Vec<usize>], swaps: &[(usize, usize)], n: usize) -> (vs: Vec<Vertex>)
    requires
        forall|r: int, i: int|
            0 <= r < rings.len() && 0 <= i < rings[r].len() ==> #[trigger] rings[r]@[i] < n,
        forall|j: int| 0 <= j < swaps.len() ==> #[trigger] swaps[j].0 < n && swaps[j].1 < n,
    ensures
        vs.len() == n,
        links(vs@) == linked(rings@, swaps@, n as nat),
        links_within(vs@),
        forall|v: int| 0 <= v < n ==> #[trigger] vs@[v].label is None,
{
    let mut vs: Vec<Vertex> = Vec::new();
    let mut k: usize = 0;
    while k < n
        invariant
            0 <= k <= n,
            vs.len() == k,
            forall|v: int| 0 <= v < k ==> #[trigger] vs@[v] == (Vertex { label: None, next: None, across: None }),
        decreases n - k,
    {
        vs.push(Vertex { label: None, next: None, across: None });
        k = k + 1;
    }
    let mut r: usize = 0;
    while r < rings.len()
        invariant
            0 <= r <= rings.len(),
            vs.len() == n,
            forall|r2: int, i: int|
                0 <= r2 < rings.len() && 0 <= i < rings[r2].len() ==> #[trigger] rings[r2]@[i] < n,
            forall|v: int| 0 <= v < n ==> #[trigger] vs@[v].label is None && vs@[v].across is None
                && vs@[v].next == ring_next(rings@, r as int, v),
            forall|v: int| 0 <= v < n ==> (#[trigger] vs@[v].next matches Some(m) ==> m < n),
        decreases rings.len() - r,
    {
        let ring = &rings[r];
        let len = ring.len();
        let mut i: usize = 0;
        while i < len
            invariant
                0 <= i <= len,
                len == ring.len(),
                ring == rings@[r as int],
                0 <= r < rings.len(),
                vs.len() == n,
                forall|r2: int, i2: int|
                    0 <= r2 < rings.len() && 0 <= i2 < rings[r2].len() ==> #[trigger] rings[r2]@[i2] < n,
                forall|v: int| 0 <= v < n ==> #[trigger] vs@[v].label is None && vs@[v].across is None
                    && vs@[v].next == match next_in_ring(ring@, i as int, v) {
                    Some(m) => Some(m),
                    None => ring_next(rings@, r as int, v),
                },
                forall|v: int| 0 <= v < n ==> (#[trigger] vs@[v].next matches Some(m) ==> m < n),
            decreases len - i,
        {
            let v = ring[i];
            assert(rings@[r as int]@[i as int] < n);
            let onward = ring[(i + 1) % len];
            assert(rings@[r as int]@[(i + 1) % (len as int)] < n);
            let mut x = vs[v];
            x.next = Some(onward);
            vs.set(v, x);
            i = i + 1;
        }
        r = r + 1;
    }
    assert forall|v: int| 0 <= v < n implies (#[trigger] vs@[v].across matches Some(m) ==> m < n) by {
        assert(vs@[v].label is None);
    }
    let mut j: usize = 0;
    while j < swaps.len()
        invariant
            0 <= j <= swaps.len(),
            vs.len() == n,
            forall|j2: int| 0 <= j2 < swaps.len() ==> #[trigger] swaps[j2].0 < n && swaps[j2].1 < n,
            forall|v: int| 0 <= v < n ==> #[trigger] vs@[v].label is None
                && vs@[v].next == ring_next(rings@, rings.len() as int, v)
                && vs@[v].across == swap_across(swaps@, j as int, v),
            forall|v: int| 0 <= v < n ==> (#[trigger] vs@[v].next matches Some(m) ==> m < n),
            forall|v: int| 0 <= v < n ==> (#[trigger] vs@[v].across matches Some(m) ==> m < n),
        decreases swaps.len() - j,
    {
        let (a, b) = swaps[j];
        let mut x = vs[a];
        x.across = Some(b);
        vs.set(a, x);
        let mut y = vs[b];
        y.across = Some(a);
        vs.set(b, y);
        j = j + 1;
    }
    assert(links(vs@) =~= linked(rings@, swaps@, n as nat));
    vs
}

/// The vertices among the first `k` whose label is `g` (in one-line form), in order.
pub open spec fn with_label(ls: Seq<Option<Perm>>, g: Seq<u8>, k: int) -> Seq<usize>
    decreases k,
{
    if k <= 0 {
        Seq::empty()
    } else if labelled_as(ls, k - 1, g) {
        with_label(ls, g, k - 1).push((k - 1) as usize)
    } else {
        with_label(ls, g, k - 1)
    }
}

/// The labels in use (in one-line form).
pub open spec fn labels_used(ls: Seq<Option<Perm>>) -> Set<Seq<u8>> {
    Set::new(|g: Seq<u8>| exists|v: int| #[trigger] labelled_as(ls, v, g))
}

/// Whether a labelled vertex is missing a neighbor: where the generated patch stops.
pub open spec fn at_edge(vs: Seq<Vertex>, v: int) -> bool {
    &&& vs[v].label is Some
    &&& (vs[v].next is None || vs[v].across is None || back_of(nexts(vs), v) is None)
}

/// The labelled vertices among the first `k` that are missing a neighbor, in order.
pub open spec fn edge_vertices(vs: Seq<Vertex>, k: int) -> Seq<usize>
    decreases k,
{
    if k <= 0 {
        Seq::empty()
    } else if at_edge(vs, k - 1) {
        edge_vertices(vs, k - 1).push((k - 1) as usize)
    } else {
        edge_vertices(vs, k - 1)
    }
}

/// Whether some group carries label `g`.
pub open spec fn has_group(names: Seq<Perm>, g: Seq<u8>) -> bool {
    exists|j: int| 0 <= j < names.len() && #[trigger] names[j]@ == g
}

/// Whether one of the first `k` vertices carries label `g`.
pub open spec fn used_before(ls: Seq<Option<Perm>>, g: Seq<u8>, k: int) -> bool {
    exists|v: int| 0 <= v < k && #[trigger] labelled_as(ls, v, g)
}

/// Where the labels are grouped: each distinct label once, with the vertices carrying it.
pub open spec fn grouped(
    ls: Seq<Option<Perm>>,
    names: Seq<Perm>,
    members: Seq<Vec<usize>>,
    k: int,
) -> bool {
    &&& names.len() == members.len()
    &&& forall|j: int| 0 <= j < members.len() ==> #[trigger] members[j]@ == with_label(ls, names[j]@, k)
    &&& forall|i: int, j: int| 0 <= i < j < names.len() ==> names[i]@ != names[j]@
    &&& forall|v: int| 0 <= v < k && #[trigger] ls[v] is Some ==> has_group(names, ls[v]->0@)
    &&& forall|j: int| 0 <= j < names.len() ==> #[trigger] used_before(ls, names[j]@, k)
}

proof fn lemma_with_label_step(ls: Seq<Option<Perm>>, g: Seq<u8>, k: int)
    requires
        0 <= k,
    ensures
        with_label(ls, g, k + 1) == if labelled_as(ls, k, g) {
            with_label(ls, g, k).push(k as usize)
        } else {
            with_label(ls, g, k)
        },
{
}

/// The index of the group with label `g`, or the number of groups.
fn find_group(names: &Vec<Perm>, g: &Perm) -> (j: usize)
    ensures
        j <= names.len(),
        j < names.len() ==> names@[j as int]@ == g@,
        j == names.len() ==> forall|i: int| 0 <= i < names.len() ==> #[trigger] names@[i]@ != g@,
{
    let mut j: usize = 0;
    while j < names.len()
        invariant
            0 <= j <= names.len(),
            forall|i: int| 0 <= i < j ==> #[trigger] names@[i]@ != g@,
        decreases names.len() - j,
    {
        if same_perm(&names[j], g) {
            return j;
        }
        j = j + 1;
    }
    j
}

/// Groups the labelled vertices by label.
fn group(vertices: &Vec<Vertex>) -> (r: (Vec<Perm>, Vec<Vec<usize>>))
    ensures
        grouped(labels(vertices@), r.0@, r.1@, vertices.len() as int),
{
    let ghost ls = labels(vertices@);
    let mut names: Vec<Perm> = Vec::new();
    let mut members: Vec<Vec<usize>> = Vec::new();
    let mut v: usize = 0;
    while v < vertices.len()
        invariant
            0 <= v <= vertices.len(),
            ls == labels(vertices@),
            grouped(ls, names@, members@, v as int),
        decreases vertices.len() - v,
    {
        proof {
            assert forall|g: Seq<u8>| true implies #[trigger] with_label(ls, g, v + 1) == if labelled_as(
                ls,
                v as int,
                g,
            ) {
                with_label(ls, g, v as int).push(v)
            } else {
                with_label(ls, g, v as int)
            } by {
                lemma_with_label_step(ls, g, v as int);
            }
        }
        match vertices[v].label {
            None => {
                assert(ls[v as int] is None);
                proof {
                    assert forall|j: int| 0 <= j < members@.len() implies #[trigger] members@[j]@
                        == with_label(ls, names@[j]@, v + 1) by {
                        assert(with_label(ls, names@[j]@, v + 1) == with_label(ls, names@[j]@, v as int));
                    }
                    assert forall|j: int| 0 <= j < names@.len() implies #[trigger] used_before(
                        ls,
                        names@[j]@,
                        v + 1,
                    ) by {
                        assert(used_before(ls, names@[j]@, v as int));
                        let u = choose|u: int| 0 <= u < v && #[trigger] labelled_as(ls, u, names@[j]@);
                        assert(labelled_as(ls, u, names@[j]@));
                    }
                }
            },
            Some(l) => {
                assert(ls[v as int] == Some(l));
                let j = find_group(&names, &l);
                if j < names.len() {
                    let ghost before = members@;
                    let mut list: Vec<usize> = Vec::new();
                    std::mem::swap(&mut list, &mut members[j]);
                    list.push(v);
                    members.set(j, list);
                    proof {
                        assert forall|i: int| 0 <= i < members@.len() implies #[trigger] members@[i]@
                            == with_label(ls, names@[i]@, v + 1) by {
                            if i != j {
                                assert(names@[i]@ != l@);
                                assert(members@[i] == before[i]);
                            }
                        }
                        assert forall|u: int| 0 <= u < v + 1 && #[trigger] ls[u] is Some implies has_group(
                            names@,
                            ls[u]->0@,
                        ) by {
                            if u == v {
                                assert(names@[j as int]@ == ls[u]->0@);
                            }
                        }
                        assert forall|i: int| 0 <= i < names@.len() implies #[trigger] used_before(
                            ls,
                            names@[i]@,
                            v + 1,
                        ) by {
                            assert(used_before(ls, names@[i]@, v as int));
                            let u = choose|u: int| 0 <= u < v && #[trigger] labelled_as(ls, u, names@[i]@);
                            assert(labelled_as(ls, u, names@[i]@));
                        }
                    }
                } else {
                    let ghost names0 = names@;
                    let ghost members0 = members@;
                    let mut list: Vec<usize> = Vec::new();
                    list.push(v);
                    names.push(l);
                    members.push(list);
                    proof {
                        assert forall|i: int| 0 <= i < members@.len() implies #[trigger] members@[i]@
                            == with_label(ls, names@[i]@, v + 1) by {
                            if i < members0.len() {
                                assert(names0[i]@ != l@);
                                assert(members@[i] == members0[i]);
                                assert(names@[i] == names0[i]);
                            } else {
                                assert(with_label(ls, l@, v as int) =~= Seq::<usize>::empty()) by {
                                    lemma_with_label_absent(ls, l@, v as int, names0);
                                }
                                assert(members@[i]@ =~= seq![v]);
                            }
                        }
                        assert forall|u: int| 0 <= u < v + 1 && #[trigger] ls[u] is Some implies has_group(
                            names@,
                            ls[u]->0@,
                        ) by {
                            if u == v {
                                assert(names@[names0.len() as int]@ == ls[u]->0@);
                            } else {
                                assert(has_group(names0, ls[u]->0@));
                                let i = choose|i: int| 0 <= i < names0.len() && #[trigger] names0[i]@ == ls[u]->0@;
                                assert(names@[i] == names0[i]);
                            }
                        }
                        assert forall|i: int| 0 <= i < names@.len() implies #[trigger] used_before(
                            ls,
                            names@[i]@,
                            v + 1,
                        ) by {
                            if i < names0.len() {
                                assert(names@[i] == names0[i]);
                                assert(used_before(ls, names0[i]@, v as int));
                                let u = choose|u: int| 0 <= u < v && #[trigger] labelled_as(ls, u, names0[i]@);
                                assert(labelled_as(ls, u, names@[i]@));
                            } else {
                                assert(labelled_as(ls, v as int, names@[i]@));
                            }
                        }
                    }
                }
            },
        }
        v = v + 1;
    }
    (names, members)
}

/// No vertex among the first `k` carries a label that no group has.
proof fn lemma_with_label_absent(ls: Seq<Option<Perm>>, g: Seq<u8>, k: int, names: Seq<Perm>)
    requires
        0 <= k,
        forall|v: int| 0 <= v < k && #[trigger] ls[v] is Some ==> has_group(names, ls[v]->0@),
        forall|j: int| 0 <= j < names.len() ==> #[trigger] names[j]@ != g,
    ensures
        with_label(ls, g, k) == Seq::<usize>::empty(),
    decreases k,
{
    if k > 0 {
        lemma_with_label_absent(ls, g, k - 1, names);
        if labelled_as(ls, k - 1, g) {
            let j = choose|j: int| 0 <= j < names.len() && #[trigger] names[j]@ == ls[k - 1]->0@;
        }
    }
}

/// The labelled vertices missing a neighbor.
fn edges_of_patch(vertices: &Vec<Vertex>) -> (r: Vec<usize>)
    requires
        links_within(vertices@),
    ensures
        r@ == edge_vertices(vertices@, vertices.len() as int),
{
    let mut r: Vec<usize> = Vec::new();
    let mut v: usize = 0;
    while v < vertices.len()
        invariant
            0 <= v <= vertices.len(),
            links_within(vertices@),
            r@ == edge_vertices(vertices@, v as int),
        decreases vertices.len() - v,
    {
        if vertices[v].label.is_some() && (vertices[v].next.is_none() || vertices[v].across.is_none()
            || back_link(vertices.as_slice(), v).is_none()) {
            r.push(v);
        }
        v = v + 1;
    }
    r
}

/// The labelled vertices of a truncated tiling: each vertex carries the element of S_q that the
/// steps from the home vertex multiply out to.
pub struct Cayley {
    pub q: usize,
    pub vertices: Vec<Vertex>,
    /// The vertex labelled with the identity, which recentering moves around.
    pub home_vertex: usize,
    /// Each label in use once, in the order the vertices first use them.
    pub names: Vec<Perm>,
    /// The vertices carrying each of those labels.
    pub members: Vec<Vec<usize>>,
    /// The labelled vertices missing a neighbor: where the generated patch stops.
    pub incomplete: Vec<usize>,
}

impl Cayley {
    /// Whether the labelling is a consistent one, grouped and with its edge found.
    pub open spec fn wf(self) -> bool {
        &&& 3 <= self.q <= MAX_Q
        &&& links_within(self.vertices@)
        &&& self.home_vertex < self.vertices.len()
        &&& consistent(
            links(self.vertices@),
            labels(self.vertices@),
            self.home_vertex as int,
            self.q as int,
        )
        &&& forall|v: int|
            0 <= v < self.vertices.len() && #[trigger] labels(self.vertices@)[v] is Some ==> in_range(
                labels(self.vertices@)[v]->0@,
                self.q as int,
            )
        &&& spelled(labels(self.vertices@), self.q as int)
        &&& grouped(labels(self.vertices@), self.names@, self.members@, self.vertices.len() as int)
        &&& self.incomplete@ == edge_vertices(self.vertices@, self.vertices.len() as int)
    }

    /// Labels the vertices of a truncated tiling with `n` vertices. `rings` are the q-gons'
    /// corners in counterclockwise order, `swaps` the edges between q-gons, and `first` the
    /// vertex to start from, which gets the identity. Returns `None` when the labelling can't be
    /// consistent: `q` outside `3..=9`, `q - 1` not dividing `p` (see the face relations), or
    /// two ways round the given graph to one vertex disagreeing.
    pub fn build(
        p: i32,
        q: i32,
        rings: &[Vec<usize>],
        swaps: &[(usize, usize)],
        n: usize,
        first: usize,
    ) -> (r: Option<Cayley>)
        requires
            first < n,
            forall|r: int, i: int|
                0 <= r < rings.len() && 0 <= i < rings[r].len() ==> #[trigger] rings[r]@[i] < n,
            forall|j: int| 0 <= j < swaps.len() ==> #[trigger] swaps[j].0 < n && swaps[j].1 < n,
        ensures
            r is Some <==> {
                &&& 3 <= q <= MAX_Q
                &&& (p as int) % (q - 1) == 0
                &&& exists|ls: Seq<Option<Perm>>| #[trigger]
                    consistent(linked(rings@, swaps@, n as nat), ls, first as int, q as int)
            },
            r matches Some(c) ==> {
                &&& c.wf()
                &&& c.q == q
                &&& c.home_vertex == first
                &&& c.vertices.len() == n
                &&& links(c.vertices@) == linked(rings@, swaps@, n as nat)
                &&& forced(links(c.vertices@), labels(c.vertices@), first as int, q as int)
            },
    {
        if !(3 <= q && q <= MAX_Q as i32) {
            return None;
        }
        match p.checked_rem_euclid(q - 1) {
            Some(0) => {},
            _ => {
                return None;
            },
        }
        let qu = q as usize;
        let mut vertices = link(rings, swaps, n);
        let ghost lk = links(vertices@);
        let ghost vs0 = vertices@;
        if !label_from(&mut vertices, first, qu) {
            proof {
                assert forall|ls: Seq<Option<Perm>>| !#[trigger] consistent(
                    linked(rings@, swaps@, n as nat),
                    ls,
                    first as int,
                    q as int,
                ) by {}
            }
            return None;
        }
        proof {
            lemma_links_within_same(vs0, vertices@);
        }
        let (names, members) = group(&vertices);
        let incomplete = edges_of_patch(&vertices);
        let c = Cayley { q: qu, vertices, home_vertex: first, names, members, incomplete };
        proof {
            assert(consistent(lk, labels(c.vertices@), first as int, q as int));
        }
        Some(c)
    }
}

impl Cayley {
    /// Every vertex carrying the same permutation as this one (itself included).
    pub fn copies_of(&self, vertex: usize) -> (r: &[usize])
        requires
            self.wf(),
            vertex < self.vertices.len(),
        ensures
            r@ == match self.vertices@[vertex as int].label {
                Some(g) => with_label(labels(self.vertices@), g@, self.vertices.len() as int),
                None => Seq::<usize>::empty(),
            },
    {
        match self.vertices[vertex].label {
            Some(g) => self.vertices_with_label(&g),
            None => &[],
        }
    }

    /// Every vertex labelled `g`.
    pub fn vertices_with_label(&self, g: &Perm) -> (r: &[usize])
        requires
            self.wf(),
        ensures
            r@ == with_label(labels(self.vertices@), g@, self.vertices.len() as int),
    {
        let j = find_group(&self.names, g);
        if j < self.names.len() {
            self.members[j].as_slice()
        } else {
            proof {
                lemma_with_label_absent(
                    labels(self.vertices@),
                    g@,
                    self.vertices.len() as int,
                    self.names@,
                );
            }
            &[]
        }
    }

    /// The permutation a vertex was labelled with, from the home vertex.
    pub fn label(&self, vertex: usize) -> (r: Option<Perm>)
        requires
            vertex < self.vertices.len(),
        ensures
            r == self.vertices@[vertex as int].label,
    {
        self.vertices[vertex].label
    }

    /// The permutation to show at a vertex in a view recentered by `frame`: `frame` times the
    /// vertex's label.
    pub fn displayed(&self, vertex: usize, frame: &Perm) -> (r: Option<Perm>)
        requires
            self.wf(),
            vertex < self.vertices.len(),
        ensures
            match self.vertices@[vertex as int].label {
                Some(g) => r is Some && r->0@ == mul_of(frame@, g@, self.q as int),
                None => r is None,
            },
    {
        match self.vertices[vertex].label {
            Some(g) => {
                assert(labels(self.vertices@)[vertex as int] == Some(g));
                Some(crate::cayley::mul(frame, &g, self.q))
            },
            None => None,
        }
    }

    /// The permutation shown at a vertex, in one-line form.
    pub fn label_word(&self, vertex: usize, frame: &Perm) -> (r: Option<String>)
        requires
            self.wf(),
            vertex < self.vertices.len(),
            forall|i: int| 0 <= i < self.q ==> #[trigger] frame@[i] <= 207,
        ensures
            match self.vertices@[vertex as int].label {
                Some(g) => r is Some && r->0@ == word_text(mul_of(frame@, g@, self.q as int), self.q as int),
                None => r is None,
            },
    {
        match self.displayed(vertex, frame) {
            Some(shown) => {
                let ghost g = self.vertices@[vertex as int].label->0@;
                assert(labels(self.vertices@)[vertex as int] is Some);
                assert(in_range(g, self.q as int));
                assert forall|i: int| 0 <= i < self.q implies #[trigger] shown@[i] <= 207 by {
                    assert(1 <= g[i] <= self.q);
                }
                Some(crate::cayley::word(&shown, self.q))
            },
            None => None,
        }
    }

    /// The permutation shown at a vertex, in cycle notation.
    pub fn label_cycles(&self, vertex: usize, frame: &Perm) -> (r: Option<String>)
        requires
            self.wf(),
            vertex < self.vertices.len(),
            in_range(frame@, self.q as int),
        ensures
            match self.vertices@[vertex as int].label {
                Some(g) => r is Some && r->0@ == cycles_text(mul_of(frame@, g@, self.q as int), self.q as int),
                None => r is None,
            },
    {
        match self.displayed(vertex, frame) {
            Some(shown) => {
                let ghost g = self.vertices@[vertex as int].label->0@;
                assert(labels(self.vertices@)[vertex as int] is Some);
                assert(in_range(g, self.q as int));
                assert forall|i: int| 0 <= i < self.q implies 1 <= #[trigger] shown@[i] <= self.q by {
                    assert(1 <= g[i] <= self.q);
                }
                Some(crate::cayley::cycles(&shown, self.q))
            },
            None => None,
        }
    }

    /// The permutation `label` shows in a view recentered by `frame`, in one-line form.
    pub fn word_of(&self, label: &Perm, frame: &Perm) -> (r: String)
        requires
            self.wf(),
            in_range(label@, self.q as int),
            forall|i: int| 0 <= i < self.q ==> #[trigger] frame@[i] <= 207,
        ensures
            r@ == word_text(mul_of(frame@, label@, self.q as int), self.q as int),
    {
        let shown = crate::cayley::mul(frame, label, self.q);
        assert forall|i: int| 0 <= i < self.q implies #[trigger] shown@[i] <= 207 by {
            assert(1 <= label@[i] <= self.q);
        }
        crate::cayley::word(&shown, self.q)
    }

    pub fn identity_perm(&self) -> (r: Perm)
        ensures
            r@ == identity_of(self.q as int),
    {
        identity(self.q)
    }

    /// `a b`: `b` followed by `a`.
    pub fn compose(&self, a: &Perm, b: &Perm) -> (r: Perm)
        requires
            self.wf(),
            in_range(b@, self.q as int),
        ensures
            r@ == mul_of(a@, b@, self.q as int),
    {
        crate::cayley::mul(a, b, self.q)
    }

    pub fn inverse_of(&self, a: &Perm) -> (r: Perm)
        requires
            self.wf(),
            in_range(a@, self.q as int),
        ensures
            r@ == crate::cayley::inverse_of(a@, self.q as int),
    {
        inverse(a, self.q)
    }

    /// How many distinct permutations the labelling used.
    pub fn distinct_labels(&self) -> (r: usize)
        requires
            self.wf(),
        ensures
            r == labels_used(labels(self.vertices@)).len(),
    {
        proof {
            lemma_groups_count(labels(self.vertices@), self.names@, self.members@, self.vertices.len() as int);
        }
        self.names.len()
    }
}

/// The groups hold each label in use once, so there are as many groups as labels in use.
proof fn lemma_groups_count(ls: Seq<Option<Perm>>, names: Seq<Perm>, members: Seq<Vec<usize>>, k: int)
    requires
        grouped(ls, names, members, k),
        k == ls.len(),
    ensures
        names.len() == labels_used(ls).len(),
{
    let views = names.map_values(|g: Perm| g@);
    assert(views.no_duplicates()) by {
        assert forall|i: int, j: int| 0 <= i < views.len() && 0 <= j < views.len() && i != j implies views[i]
            != views[j] by {
            if i < j {
                assert(names[i]@ != names[j]@);
            } else {
                assert(names[j]@ != names[i]@);
            }
        }
    }
    views.unique_seq_to_set();
    assert(views.to_set() =~= labels_used(ls)) by {
        assert forall|g: Seq<u8>| views.to_set().contains(g) implies labels_used(ls).contains(g) by {
            let j = choose|j: int| 0 <= j < views.len() && views[j] == g;
            assert(used_before(ls, names[j]@, k));
            let v = choose|v: int| 0 <= v < k && #[trigger] labelled_as(ls, v, names[j]@);
            assert(labelled_as(ls, v, g));
        }
        assert forall|g: Seq<u8>| labels_used(ls).contains(g) implies views.to_set().contains(g) by {
            let v = choose|v: int| #[trigger] labelled_as(ls, v, g);
            assert(ls[v] is Some);
            assert(has_group(names, ls[v]->0@));
            let j = choose|j: int| 0 <= j < names.len() && #[trigger] names[j]@ == ls[v]->0@;
            assert(views[j] == g);
        }
    }
}

/// A step on around a q-gon rotates the shown word left by one letter, and a step across
/// exchanges its first two letters.
pub proof fn lemma_steps_rotate_and_swap(c: Cayley, v: int)
    requires
        c.wf(),
        0 <= v < c.vertices.len(),
        c.vertices@[v].label is Some,
    ensures
        ({
            let q = c.q as int;
            let w = word_text(c.vertices@[v].label->0@, q);
            &&& c.vertices@[v].next matches Some(n) ==> c.vertices@[n as int].label is Some
                && word_text(c.vertices@[n as int].label->0@, q) == w.subrange(1, q) + w.subrange(0, 1)
            &&& c.vertices@[v].across matches Some(a) ==> c.vertices@[a as int].label is Some
                && word_text(c.vertices@[a as int].label->0@, q) == w.update(0, w[1]).update(1, w[0])
        }),
{
    let q = c.q as int;
    let ls = labels(c.vertices@);
    let lk = links(c.vertices@);
    let g = c.vertices@[v].label->0@;
    assert(ls[v] is Some);
    assert(steps_agree(lk, ls, v, q));
    assert(lk[v] == (c.vertices@[v].next, c.vertices@[v].across));
    crate::cayley::lemma_cycle_rotates_word(g, q);
    crate::cayley::lemma_swap_exchanges_word(g, q);
}

/// A step through the graph: around the q-gon either way, or across to the next one.
#[derive(Clone, Copy, Debug, PartialEq, Eq, Structural)]
pub enum Generator {
    Cycle,
    Swap,
    Back,
}

/// The permutation a step multiplies by.
pub open spec fn generator_of(s: Generator, q: int) -> Seq<u8> {
    match s {
        Generator::Cycle => cycle_of(q),
        Generator::Swap => swap_of(q),
        Generator::Back => back_step(q),
    }
}

/// `g` followed by the steps of `w`, in order.
pub open spec fn spell(g: Seq<u8>, w: Seq<Generator>, q: int) -> Seq<u8>
    decreases w.len(),
{
    if w.len() == 0 {
        g
    } else {
        mul_of(spell(g, w.drop_last(), q), generator_of(w.last(), q), q)
    }
}

proof fn lemma_spell_prepend(g: Seq<u8>, s: Generator, w: Seq<Generator>, q: int)
    ensures
        spell(g, seq![s] + w, q) == spell(mul_of(g, generator_of(s, q), q), w, q),
    decreases w.len(),
{
    let sw = seq![s] + w;
    if w.len() == 0 {
        assert(sw.drop_last() =~= Seq::<Generator>::empty());
        assert(sw.last() == s);
        assert(spell(g, sw, q) == mul_of(spell(g, sw.drop_last(), q), generator_of(sw.last(), q), q));
    } else {
        assert(sw.drop_last() =~= seq![s] + w.drop_last());
        assert(sw.last() == w.last());
        lemma_spell_prepend(g, s, w.drop_last(), q);
    }
}

/// Whether every entry of a one-line form fits in four bits.
pub open spec fn small(g: Seq<u8>) -> bool {
    g.len() == MAX_Q && forall|i: int| 0 <= i < MAX_Q ==> #[trigger] g[i] < 16
}

/// The first `k` entries read as the digits of a number in base 16.
pub open spec fn code_of(g: Seq<u8>, k: int) -> int
    decreases k,
{
    if k <= 0 {
        0
    } else {
        code_of(g, k - 1) * 16 + g[k - 1]
    }
}

pub open spec fn pow16(k: int) -> int
    decreases k,
{
    if k <= 0 {
        1
    } else {
        16 * pow16(k - 1)
    }
}

proof fn lemma_code_bounds(g: Seq<u8>, k: int)
    requires
        small(g),
        0 <= k <= MAX_Q,
    ensures
        0 <= code_of(g, k) < pow16(k),
    decreases k,
{
    if k > 0 {
        lemma_code_bounds(g, k - 1);
    }
}

proof fn lemma_code_injective(a: Seq<u8>, b: Seq<u8>, k: int)
    requires
        small(a),
        small(b),
        0 <= k <= MAX_Q,
        code_of(a, k) == code_of(b, k),
    ensures
        forall|i: int| 0 <= i < k ==> a[i] == b[i],
    decreases k,
{
    if k > 0 {
        lemma_code_bounds(a, k - 1);
        lemma_code_bounds(b, k - 1);
        let (x, y) = (code_of(a, k - 1), code_of(b, k - 1));
        assert(x * 16 + a[k - 1] == y * 16 + b[k - 1]);
        assert(x == y && a[k - 1] == b[k - 1]) by {
            vstd::arithmetic::div_mod::lemma_fundamental_div_mod_converse(
                x * 16 + a[k - 1],
                16,
                x,
                a[k - 1] as int,
            );
            vstd::arithmetic::div_mod::lemma_fundamental_div_mod_converse(
                y * 16 + b[k - 1],
                16,
                y,
                b[k - 1] as int,
            );
        }
        lemma_code_injective(a, b, k - 1);
    }
}

/// Two small one-line forms with the same code are the same.
proof fn lemma_same_code(a: Seq<u8>, b: Seq<u8>)
    requires
        small(a),
        small(b),
        code_of(a, MAX_Q as int) == code_of(b, MAX_Q as int),
    ensures
        a == b,
{
    lemma_code_injective(a, b, MAX_Q as int);
    assert(a =~= b);
}

/// The code of a one-line form, as a key.
pub open spec fn key_of(g: Seq<u8>) -> u64 {
    code_of(g, MAX_Q as int) as u64
}

/// Two small one-line forms with the same key are the same.
proof fn lemma_same_key(a: Seq<u8>, b: Seq<u8>)
    requires
        small(a),
        small(b),
        key_of(a) == key_of(b),
    ensures
        a == b,
{
    lemma_key_exact(a);
    lemma_key_exact(b);
    lemma_same_code(a, b);
}

proof fn lemma_key_exact(a: Seq<u8>)
    requires
        small(a),
    ensures
        key_of(a) == code_of(a, MAX_Q as int),
        key_of(a) < 0x10_0000_0000,
{
    lemma_code_bounds(a, MAX_Q as int);
    reveal_with_fuel(pow16, 10);
}

/// A permutation's one-line form as a number, for looking it up.
fn perm_code(g: &Perm) -> (c: u64)
    requires
        small(g@),
    ensures
        c == code_of(g@, MAX_Q as int),
        c == key_of(g@),
{
    let mut c: u64 = 0;
    let mut i: usize = 0;
    proof {
        reveal_with_fuel(pow16, 10);
        lemma_pow16_grows(0, MAX_Q as int);
    }
    while i < MAX_Q
        invariant
            0 <= i <= MAX_Q,
            small(g@),
            c == code_of(g@, i as int),
            c < pow16(i as int),
            pow16(i as int) <= pow16(MAX_Q as int),
            pow16(MAX_Q as int) == 0x10_0000_0000,
        decreases MAX_Q - i,
    {
        assert(g@[i as int] < 16);
        assert(pow16(i + 1) == 16 * pow16(i as int));
        proof {
            lemma_pow16_grows(i as int + 1, MAX_Q as int);
        }
        c = c * 16 + g[i] as u64;
        i = i + 1;
    }
    c
}

proof fn lemma_pow16_grows(i: int, j: int)
    requires
        0 <= i <= j,
    ensures
        pow16(i) <= pow16(j),
    decreases j - i,
{
    if i < j {
        lemma_pow16_grows(i, j - 1);
        assert(pow16(j) == 16 * pow16(j - 1));
        lemma_pow16_positive(j - 1);
    }
}

proof fn lemma_pow16_positive(i: int)
    ensures
        pow16(i) >= 1,
    decreases i,
{
    if i > 0 {
        lemma_pow16_positive(i - 1);
    }
}

/// A step keeps a one-line form small.
proof fn lemma_step_small(g: Seq<u8>, s: Seq<u8>, q: int)
    requires
        small(g),
        in_range(s, q),
        0 <= q <= MAX_Q,
    ensures
        small(mul_of(g, s, q)),
{
    assert forall|i: int| 0 <= i < MAX_Q implies #[trigger] mul_of(g, s, q)[i] < 16 by {
        if i < q {
            assert(1 <= s[i] <= q);
        }
    }
}

/// The search tree: each permutation found, by key, with the one it was reached from and the
/// step, one deeper than it.
pub open spec fn tree_ok(
    cf: Map<u64, (Perm, Generator)>,
    depth: Map<u64, nat>,
    start: u64,
    q: int,
) -> bool {
    &&& depth.dom() == cf.dom().insert(start)
    &&& depth[start] == 0
    &&& !cf.contains_key(start)
    &&& forall|k: u64|
        #[trigger] cf.contains_key(k) ==> {
            let g = cf[k].0@;
            let h = mul_of(g, generator_of(cf[k].1, q), q);
            &&& small(g)
            &&& small(h)
            &&& depth.contains_key(key_of(g))
            &&& depth[k] == depth[key_of(g)] + 1
            &&& key_of(h) == k
        }
}

/// The queue of the search: each permutation found once, in order of depth, no more than one
/// deeper than the next one to look at; the first `head` are done, and each step out of them
/// leads to a permutation found no more than one deeper.
pub open spec fn queue_ok(
    queue: Seq<Perm>,
    head: int,
    depth: Map<u64, nat>,
    q: int,
) -> bool {
    &&& 0 <= head <= queue.len()
    &&& forall|i: int|
        0 <= i < queue.len() ==> small(#[trigger] queue[i]@) && depth.contains_key(key_of(queue[i]@))
    &&& forall|i: int, j: int| 0 <= i < j < queue.len() ==> key_of(queue[i]@) != key_of(queue[j]@)
    &&& forall|k: u64| #[trigger] depth.contains_key(k) ==> exists|i: int|
        0 <= i < queue.len() && key_of(#[trigger] queue[i]@) == k
    &&& forall|i: int, j: int|
        0 <= i <= j < queue.len() ==> depth[key_of(queue[i]@)] <= depth[key_of(queue[j]@)]
    &&& head < queue.len() ==> depth[key_of(queue.last()@)] <= depth[key_of(queue[head]@)] + 1
    &&& forall|i: int, s: Generator|
        0 <= i < head ==> {
            let h = mul_of(queue[i]@, generator_of(s, q), q);
            &&& depth.contains_key(#[trigger] key_of(mul_of(queue[i]@, generator_of(s, q), q)))
            &&& depth[key_of(h)] <= depth[key_of(queue[i]@)] + 1
        }
}

/// Follows the tree back from `goal` to the start, spelling the way there.
fn trace_back(
    came_from: &HashMap<u64, (Perm, Generator)>,
    goal: &Perm,
    start: &Perm,
    depth: Ghost<Map<u64, nat>>,
    q: usize,
) -> (w: Vec<Generator>)
    requires
        q <= MAX_Q,
        small(goal@),
        small(start@),
        tree_ok(came_from@, depth@, key_of(start@), q as int),
        depth@.contains_key(key_of(goal@)),
    ensures
        spell(start@, w@, q as int) == goal@,
        w.len() == depth@[key_of(goal@)],
{
    let ghost qi = q as int;
    let mut at: Perm = *goal;
    let mut word: Vec<Generator> = Vec::new();
    while !same_perm(&at, start)
        invariant
            q <= MAX_Q,
            qi == q as int,
            small(at@),
            small(start@),
            tree_ok(came_from@, depth@, key_of(start@), qi),
            depth@.contains_key(key_of(at@)),
            spell(at@, word@, qi) == goal@,
            word.len() + depth@[key_of(at@)] == depth@[key_of(goal@)],
        decreases depth@[key_of(at@)],
    {
        let k = perm_code(&at);
        assert(k != key_of(start@)) by {
            if k == key_of(start@) {
                lemma_same_key(at@, start@);
            }
        }
        assert(came_from@.contains_key(k));
        let (prev, s) = match came_from.get(&k) {
            Some(entry) => *entry,
            None => {
                return word;
            },
        };
        let ghost w0 = word@;
        proof {
            let h = mul_of(prev@, generator_of(s, qi), qi);
            lemma_same_key(h, at@);
            lemma_spell_prepend(prev@, s, w0, qi);
        }
        word.insert(0, s);
        assert(word@ =~= seq![s] + w0);
        at = prev;
    }
    proof {
        assert(at@ == start@);
    }
    word
}

/// The permutation spelled by the first `j` steps of `w`.
pub open spec fn prefix_spelled(w: Seq<Generator>, j: int, q: int) -> Seq<u8> {
    spell(identity_of(q), w.subrange(0, j), q)
}

proof fn lemma_prefix_step(w: Seq<Generator>, j: int, q: int)
    requires
        0 < j <= w.len(),
    ensures
        prefix_spelled(w, j, q) == mul_of(prefix_spelled(w, j - 1, q), generator_of(w[j - 1], q), q),
{
    assert(w.subrange(0, j).drop_last() =~= w.subrange(0, j - 1));
    assert(w.subrange(0, j).last() == w[j - 1]);
}

proof fn lemma_generator_in_range(s: Generator, q: int)
    requires
        3 <= q <= MAX_Q,
    ensures
        in_range(generator_of(s, q), q),
{
    lemma_generators_in_range(q);
}

/// Every step along `w` from the identity leads to a permutation the search found, no deeper
/// than the number of steps taken, as long as the steps before it came from permutations the
/// search has looked at: those shallower than `bound`, or all of them once the queue is done.
proof fn lemma_prefix_found(
    queue: Seq<Perm>,
    head: int,
    depth: Map<u64, nat>,
    start: u64,
    q: int,
    w: Seq<Generator>,
    j: int,
    bound: int,
)
    requires
        3 <= q <= MAX_Q,
        queue_ok(queue, head, depth, q),
        start == key_of(identity_of(q)),
        depth.contains_key(start),
        depth[start] == 0,
        0 <= j <= w.len(),
        head < queue.len() ==> j <= bound && bound == depth[key_of(queue[head]@)],
    ensures
        small(prefix_spelled(w, j, q)),
        depth.contains_key(key_of(prefix_spelled(w, j, q))),
        depth[key_of(prefix_spelled(w, j, q))] <= j,
    decreases j,
{
    if j == 0 {
        assert(w.subrange(0, 0) =~= Seq::<Generator>::empty());
        assert(small(identity_of(q)));
    } else {
        lemma_prefix_found(queue, head, depth, start, q, w, j - 1, bound);
        lemma_prefix_step(w, j, q);
        let p = prefix_spelled(w, j - 1, q);
        let i = choose|i: int| 0 <= i < queue.len() && key_of(#[trigger] queue[i]@) == key_of(p);
        lemma_same_key(queue[i]@, p);
        if i >= head {
            assert(depth[key_of(queue[head]@)] <= depth[key_of(queue[i]@)]);
        }
        assert(i < head);
        let s = w[j - 1];
        assert(depth.contains_key(key_of(mul_of(queue[i]@, generator_of(s, q), q))));
        lemma_generator_in_range(s, q);
        lemma_step_small(p, generator_of(s, q), q);
    }
}

/// A shortest word for `goal` in the generators, by breadth-first search of the group. The
/// generators are tried in the order the graph's neighbors are, so this is the route a search
/// of an unbounded tiling would find. `None` if no word spells `goal`.
fn shortest_word(goal: &Perm, q: usize) -> (r: Option<Vec<Generator>>)
    requires
        3 <= q <= MAX_Q,
        small(goal@),
    ensures
        match r {
            Some(w) => {
                &&& spell(identity_of(q as int), w@, q as int) == goal@
                &&& forall|w2: Seq<Generator>|
                    #[trigger] spell(identity_of(q as int), w2, q as int) == goal@ ==> w@.len()
                        <= w2.len()
            },
            None => forall|w2: Seq<Generator>|
                #[trigger] spell(identity_of(q as int), w2, q as int) != goal@,
        },
{
    let ghost qi = q as int;
    let c = cycle(q);
    let t = swap(q);
    proof {
        lemma_generators_in_range(qi);
    }
    let back = inverse(&c, q);
    let gens: [(Perm, Generator); 3] = [
        (c, Generator::Cycle),
        (t, Generator::Swap),
        (back, Generator::Back),
    ];
    let start = identity(q);
    assert(small(start@));
    let start_key = perm_code(&start);
    let mut came_from: HashMap<u64, (Perm, Generator)> = HashMap::new();
    let ghost mut depth: Map<u64, nat> = Map::empty().insert(start_key, 0nat);
    let mut queue: Vec<Perm> = Vec::new();
    queue.push(start);
    let mut head: usize = 0;
    proof {
        assert(depth.dom() =~= came_from@.dom().insert(start_key));
        assert forall|k: u64| #[trigger] depth.contains_key(k) implies exists|i: int|
            0 <= i < queue@.len() && key_of(#[trigger] queue@[i]@) == k by {
            assert(key_of(queue@[0]@) == k);
        }
    }
    while head < queue.len()
        invariant
            3 <= q <= MAX_Q,
            qi == q as int,
            small(goal@),
            start@ == identity_of(qi),
            small(start@),
            start_key == key_of(start@),
            forall|k: int|
                0 <= k < 3 ==> #[trigger] generator_of(gens@[k].1, qi) == gens@[k].0@ && in_range(
                    gens@[k].0@,
                    qi,
                ),
            gens@[0].1 == Generator::Cycle,
            gens@[1].1 == Generator::Swap,
            gens@[2].1 == Generator::Back,
            tree_ok(came_from@, depth, start_key, qi),
            queue_ok(queue@, head as int, depth, qi),
            forall|i: int| 0 <= i < head ==> (#[trigger] queue@[i])@ != goal@,
        decreases 2 * (0x10_0000_0000 - queue.len()) + (queue.len() - head),
    {
        let g = queue[head];
        if same_perm(&g, goal) {
            proof {
                lemma_found_shortest(queue@, head as int, depth, start_key, qi, goal@);
            }
            let w = trace_back(&came_from, &g, &start, Ghost(depth), q);
            return Some(w);
        }
        let ghost d = depth[key_of(g@)];
        let ghost len0 = queue.len();
        let mut k: usize = 0;
        while k < 3
            invariant
                3 <= q <= MAX_Q,
                queue.len() >= len0,
                qi == q as int,
                0 <= k <= 3,
                small(g@),
                g == queue@[head as int],
                head < queue.len(),
                start_key == key_of(start@),
                d == depth[key_of(g@)],
                forall|kk: int|
                    0 <= kk < 3 ==> #[trigger] generator_of(gens@[kk].1, qi) == gens@[kk].0@
                        && in_range(gens@[kk].0@, qi),
                tree_ok(came_from@, depth, start_key, qi),
                queue_ok(queue@, head as int, depth, qi),
                forall|kk: int|
                    0 <= kk < k ==> {
                        let h = mul_of(g@, #[trigger] gens@[kk].0@, qi);
                        &&& depth.contains_key(key_of(h))
                        &&& depth[key_of(h)] <= d + 1
                    },
                g@ != goal@,
                forall|i: int| 0 <= i < head ==> (#[trigger] queue@[i])@ != goal@,
            decreases 3 - k,
        {
            let (sp, sg) = gens[k];
            assert(generator_of(gens@[k as int].1, qi) == gens@[k as int].0@);
            let h = crate::cayley::mul(&g, &sp, q);
            proof {
                lemma_step_small(g@, sp@, qi);
            }
            let hk = perm_code(&h);
            let ghost queue0 = queue@;
            let ghost depth0 = depth;
            let ghost cf0 = came_from@;
            if hk != start_key && !came_from.contains_key(&hk) {
                came_from.insert(hk, (g, sg));
                proof {
                    depth = depth.insert(hk, d + 1);
                }
                queue.push(h);
                proof {
                    lemma_grow_tree(cf0, came_from@, depth0, depth, start_key, qi, g, sg, hk);
                    lemma_grow_queue(queue0, queue@, head as int, depth0, depth, qi, h, hk);
                }
            } else {
                proof {
                    assert(depth.contains_key(hk));
                    let i = choose|i: int| 0 <= i < queue@.len() && key_of(#[trigger] queue@[i]@) == hk;
                    assert(depth[key_of(queue@[i]@)] <= depth[key_of(queue@.last()@)]);
                }
            }
            k = k + 1;
        }
        proof {
            lemma_head_done(queue@, head as int, depth, qi, gens@);
            lemma_queue_bounded(queue@, depth);
        }
        head = head + 1;
    }
    proof {
        assert forall|w2: Seq<Generator>| #[trigger] spell(identity_of(qi), w2, qi) != goal@ by {
            lemma_prefix_found(queue@, head as int, depth, start_key, qi, w2, w2.len() as int, 0);
            assert(w2.subrange(0, w2.len() as int) =~= w2);
            let p = spell(identity_of(qi), w2, qi);
            let i = choose|i: int| 0 <= i < queue@.len() && key_of(#[trigger] queue@[i]@) == key_of(p);
            lemma_same_key(queue@[i]@, p);
        }
    }
    None
}

/// Once every step out of the permutation at `head` is found, it is done.
proof fn lemma_head_done(
    queue: Seq<Perm>,
    head: int,
    depth: Map<u64, nat>,
    q: int,
    gens: Seq<(Perm, Generator)>,
)
    requires
        queue_ok(queue, head, depth, q),
        head < queue.len(),
        gens.len() == 3,
        forall|k: int| 0 <= k < 3 ==> #[trigger] generator_of(gens[k].1, q) == gens[k].0@,
        gens[0].1 == Generator::Cycle,
        gens[1].1 == Generator::Swap,
        gens[2].1 == Generator::Back,
        forall|kk: int|
            0 <= kk < 3 ==> {
                let h = mul_of(queue[head]@, #[trigger] gens[kk].0@, q);
                &&& depth.contains_key(key_of(h))
                &&& depth[key_of(h)] <= depth[key_of(queue[head]@)] + 1
            },
    ensures
        queue_ok(queue, head + 1, depth, q),
{
    assert forall|i: int, gg: Generator| 0 <= i < head + 1 implies {
        let h = mul_of(queue[i]@, generator_of(gg, q), q);
        &&& depth.contains_key(#[trigger] key_of(mul_of(queue[i]@, generator_of(gg, q), q)))
        &&& depth[key_of(h)] <= depth[key_of(queue[i]@)] + 1
    } by {
        if i == head {
            let kk: int = match gg {
                Generator::Cycle => 0,
                Generator::Swap => 1,
                Generator::Back => 2,
            };
            assert(generator_of(gens[kk].1, q) == gens[kk].0@);
        }
    }
    if head + 1 < queue.len() {
        assert(depth[key_of(queue[head]@)] <= depth[key_of(queue[head + 1]@)]);
    }
}

/// The permutation found at `head` is no deeper than any word spelling it is long.
proof fn lemma_found_shortest(
    queue: Seq<Perm>,
    head: int,
    depth: Map<u64, nat>,
    start: u64,
    q: int,
    goal: Seq<u8>,
)
    requires
        3 <= q <= MAX_Q,
        queue_ok(queue, head, depth, q),
        head < queue.len(),
        queue[head]@ == goal,
        start == key_of(identity_of(q)),
        depth.contains_key(start),
        depth[start] == 0,
    ensures
        forall|w2: Seq<Generator>|
            #[trigger] spell(identity_of(q), w2, q) == goal ==> depth[key_of(goal)] <= w2.len(),
{
    assert forall|w2: Seq<Generator>| #[trigger] spell(identity_of(q), w2, q) == goal implies depth[key_of(
        goal,
    )] <= w2.len() by {
        let bound = depth[key_of(queue[head]@)] as int;
        if w2.len() < bound {
            lemma_prefix_found(queue, head, depth, start, q, w2, w2.len() as int, bound);
            assert(w2.subrange(0, w2.len() as int) =~= w2);
        }
    }
}

/// Each permutation is in the queue once, so the queue is no longer than the number of keys.
proof fn lemma_queue_bounded(queue: Seq<Perm>, depth: Map<u64, nat>)
    requires
        forall|i: int| 0 <= i < queue.len() ==> small(#[trigger] queue[i]@),
        forall|i: int, j: int| 0 <= i < j < queue.len() ==> key_of(queue[i]@) != key_of(queue[j]@),
    ensures
        queue.len() <= 0x10_0000_0000,
{
    let keys = queue.map_values(|g: Perm| key_of(g@) as int);
    assert forall|i: int| 0 <= i < keys.len() implies 0 <= #[trigger] keys[i] < 0x10_0000_0000 by {
        lemma_key_exact(queue[i]@);
    }
    assert forall|i: int, j: int| 0 <= i < j < keys.len() implies keys[i] != keys[j] by {}
    lemma_distinct_within(keys, 0x10_0000_0000);
}

proof fn lemma_grow_tree(
    cf0: Map<u64, (Perm, Generator)>,
    cf: Map<u64, (Perm, Generator)>,
    depth0: Map<u64, nat>,
    depth: Map<u64, nat>,
    start: u64,
    q: int,
    g: Perm,
    s: Generator,
    hk: u64,
)
    requires
        tree_ok(cf0, depth0, start, q),
        hk != start,
        !cf0.contains_key(hk),
        cf == cf0.insert(hk, (g, s)),
        small(g@),
        depth0.contains_key(key_of(g@)),
        depth == depth0.insert(hk, depth0[key_of(g@)] + 1),
        small(mul_of(g@, generator_of(s, q), q)),
        key_of(mul_of(g@, generator_of(s, q), q)) == hk,
    ensures
        tree_ok(cf, depth, start, q),
{
    assert(depth.dom() =~= cf.dom().insert(start));
    assert forall|k: u64| #[trigger] cf.contains_key(k) implies {
        let gg = cf[k].0@;
        let h = mul_of(gg, generator_of(cf[k].1, q), q);
        &&& small(gg)
        &&& small(h)
        &&& depth.contains_key(key_of(gg))
        &&& depth[k] == depth[key_of(gg)] + 1
        &&& key_of(h) == k
    } by {
        if k != hk {
            assert(cf0.contains_key(k));
            assert(depth0.contains_key(key_of(cf0[k].0@)));
        }
    }
}

proof fn lemma_grow_queue(
    queue0: Seq<Perm>,
    queue: Seq<Perm>,
    head: int,
    depth0: Map<u64, nat>,
    depth: Map<u64, nat>,
    q: int,
    h: Perm,
    hk: u64,
)
    requires
        queue_ok(queue0, head, depth0, q),
        head < queue0.len(),
        !depth0.contains_key(hk),
        depth == depth0.insert(hk, depth0[key_of(queue0[head]@)] + 1),
        queue == queue0.push(h),
        small(h@),
        key_of(h@) == hk,
    ensures
        queue_ok(queue, head, depth, q),
{
    let d = depth0[key_of(queue0[head]@)];
    assert forall|i: int| 0 <= i < queue.len() implies small(#[trigger] queue[i]@) && depth.contains_key(
        key_of(queue[i]@),
    ) by {
        if i < queue0.len() {
            assert(queue[i] == queue0[i]);
        }
    }
    assert forall|i: int, j: int| 0 <= i < j < queue.len() implies key_of(queue[i]@) != key_of(
        queue[j]@,
    ) by {
        if j == queue0.len() {
            assert(depth0.contains_key(key_of(queue0[i]@)));
        } else {
            assert(queue[i] == queue0[i] && queue[j] == queue0[j]);
        }
    }
    assert forall|k: u64| #[trigger] depth.contains_key(k) implies exists|i: int|
        0 <= i < queue.len() && key_of(#[trigger] queue[i]@) == k by {
        if k == hk {
            assert(key_of(queue[queue0.len() as int]@) == k);
        } else {
            let i = choose|i: int| 0 <= i < queue0.len() && key_of(#[trigger] queue0[i]@) == k;
            assert(queue[i] == queue0[i]);
        }
    }
    assert forall|i: int, j: int| 0 <= i <= j < queue.len() implies depth[key_of(queue[i]@)]
        <= depth[key_of(queue[j]@)] by {
        if i < queue0.len() {
            assert(queue[i] == queue0[i]);
            assert(depth0.contains_key(key_of(queue0[i]@)));
            assert(key_of(queue0[i]@) != hk);
            assert(depth0[key_of(queue0[i]@)] <= depth0[key_of(queue0.last()@)]);
        }
        if j < queue0.len() {
            assert(queue[j] == queue0[j]);
            assert(depth0.contains_key(key_of(queue0[j]@)));
            assert(key_of(queue0[j]@) != hk);
        }
    }
    assert(depth0.contains_key(key_of(queue0[head]@)));
    assert(key_of(queue0[head]@) != hk);
    assert(queue[head] == queue0[head]);
    assert forall|i: int, s: Generator| 0 <= i < head implies {
        let hh = mul_of(queue[i]@, generator_of(s, q), q);
        &&& depth.contains_key(#[trigger] key_of(mul_of(queue[i]@, generator_of(s, q), q)))
        &&& depth[key_of(hh)] <= depth[key_of(queue[i]@)] + 1
    } by {
        assert(queue[i] == queue0[i]);
        assert(depth0.contains_key(key_of(mul_of(queue0[i]@, generator_of(s, q), q))));
        assert(depth0.contains_key(key_of(queue0[i]@)));
    }
}

/// Where a step out of vertex `at` leads, if the patch goes that far.
pub open spec fn step_from(vs: Seq<Vertex>, at: int, s: Generator) -> Option<usize> {
    match s {
        Generator::Cycle => vs[at].next,
        Generator::Swap => vs[at].across,
        Generator::Back => back_of(nexts(vs), at),
    }
}

/// The vertices the steps of `w` pass through from `from`, stopping where the patch runs out.
pub open spec fn follow(vs: Seq<Vertex>, from: usize, w: Seq<Generator>) -> Seq<usize>
    decreases w.len(),
{
    if w.len() == 0 {
        seq![from]
    } else {
        let p = follow(vs, from, w.drop_last());
        if p.len() == w.len() {
            match step_from(vs, p.last() as int, w.last()) {
                Some(n) => p.push(n),
                None => p,
            }
        } else {
            p
        }
    }
}

/// Whether `w` is a shortest word spelling `goal`.
pub open spec fn shortest_spelling(w: Seq<Generator>, goal: Seq<u8>, q: int) -> bool {
    &&& spell(identity_of(q), w, q) == goal
    &&& forall|w2: Seq<Generator>| #[trigger] spell(identity_of(q), w2, q) == goal ==> w.len() <= w2.len()
}

proof fn lemma_follow_len(vs: Seq<Vertex>, from: usize, w: Seq<Generator>)
    ensures
        1 <= follow(vs, from, w).len() <= w.len() + 1,
    decreases w.len(),
{
    if w.len() > 0 {
        lemma_follow_len(vs, from, w.drop_last());
    }
}

/// Once a step runs off the patch, the later steps add nothing.
proof fn lemma_follow_stops(vs: Seq<Vertex>, from: usize, w: Seq<Generator>, i: int, j: int)
    requires
        0 <= i < j <= w.len(),
        follow(vs, from, w.subrange(0, i)).len() == i + 1,
        step_from(vs, follow(vs, from, w.subrange(0, i)).last() as int, w[i]) is None,
    ensures
        follow(vs, from, w.subrange(0, j)) == follow(vs, from, w.subrange(0, i)),
    decreases j - i,
{
    if j == i + 1 {
        assert(w.subrange(0, j).drop_last() =~= w.subrange(0, i));
    } else {
        lemma_follow_stops(vs, from, w, i, j - 1);
        assert(w.subrange(0, j).drop_last() =~= w.subrange(0, j - 1));
    }
}

proof fn lemma_last_preimage_bound(g: Seq<u8>, v: int, k: int)
    ensures
        crate::cayley::last_preimage(g, v, k) matches Some(x) ==> 0 <= x < k,
    decreases k,
{
    if k > 0 {
        lemma_last_preimage_bound(g, v, k - 1);
    }
}

/// The vertices the steps of `word` pass through from `from`, stopping where the patch runs out.
fn walk(vertices: &Vec<Vertex>, from: usize, word: &Vec<Generator>) -> (path: Vec<usize>)
    requires
        links_within(vertices@),
        from < vertices.len(),
    ensures
        path@ == follow(vertices@, from, word@),
{
    let mut path: Vec<usize> = Vec::new();
    path.push(from);
    let mut i: usize = 0;
    assert(word@.subrange(0, 0) =~= Seq::<Generator>::empty());
    while i < word.len()
        invariant
            links_within(vertices@),
            0 <= i <= word.len(),
            from < vertices.len(),
            path@ == follow(vertices@, from, word@.subrange(0, i as int)),
            path.len() == i + 1,
            forall|j: int| 0 <= j < path.len() ==> #[trigger] path@[j] < vertices.len(),
        decreases word.len() - i,
    {
        let at = path[path.len() - 1];
        let next = match word[i] {
            Generator::Cycle => vertices[at].next,
            Generator::Swap => vertices[at].across,
            Generator::Back => back_link(vertices.as_slice(), at),
        };
        proof {
            assert(word@.subrange(0, i + 1).drop_last() =~= word@.subrange(0, i as int));
            assert(word@.subrange(0, i + 1).last() == word@[i as int]);
            assert(next == step_from(vertices@, at as int, word@[i as int]));
            lemma_back_link_closes_ring(nexts(vertices@), at as int);
        }
        match next {
            Some(n) => {
                path.push(n);
            },
            None => {
                proof {
                    lemma_follow_stops(vertices@, from, word@, i as int, word.len() as int);
                    assert(word@.subrange(0, word.len() as int) =~= word@);
                }
                return path;
            },
        }
        i = i + 1;
    }
    assert(word@.subrange(0, word.len() as int) =~= word@);
    path
}

impl Cayley {
    /// A shortest route through the graph from `from` to any copy of `vertex`. Reaching any copy
    /// means spelling `label(from)` inverse times `label(vertex)` out of the generators, so the
    /// route is a shortest word for that permutation, found by searching the group itself: the
    /// hop count is exact however much of the tiling was generated; only the path can run out.
    pub fn route(&self, from: usize, vertex: usize) -> (r: Option<crate::cayley::Route>)
        requires
            self.wf(),
            from < self.vertices.len(),
            vertex < self.vertices.len(),
        ensures
            match (self.vertices@[from as int].label, self.vertices@[vertex as int].label) {
                (Some(a), Some(b)) => {
                    let goal = mul_of(inverse_of(a@, self.q as int), b@, self.q as int);
                    &&& r is Some
                    &&& r matches Some(rt) ==> exists|w: Seq<Generator>|
                        #[trigger] shortest_spelling(w, goal, self.q as int) && rt.hops == w.len()
                            && rt.path@ == follow(self.vertices@, from, w)
                },
                _ => r is None,
            },
    {
        let ghost qi = self.q as int;
        let q = self.q;
        let start = match self.vertices[from].label {
            Some(l) => l,
            None => {
                return None;
            },
        };
        let target = match self.vertices[vertex].label {
            Some(l) => l,
            None => {
                return None;
            },
        };
        assert(labels(self.vertices@)[from as int] == Some(start));
        assert(labels(self.vertices@)[vertex as int] == Some(target));
        let back = inverse(&start, q);
        let goal = crate::cayley::mul(&back, &target, q);
        proof {
            assert forall|i: int| 0 <= i < MAX_Q implies #[trigger] back@[i] < 16 by {
                lemma_last_preimage_bound(start@, i + 1, qi);
            }
            lemma_step_small(back@, target@, qi);
        }
        proof {
            let id = identity_of(qi);
            assert(labels(self.vertices@)[from as int] is Some);
            assert(labels(self.vertices@)[vertex as int] is Some);
            let ws = choose|w: Seq<Generator>| #[trigger] spell(id, w, qi) == start@;
            let wt = choose|w: Seq<Generator>| #[trigger] spell(id, w, qi) == target@;
            lemma_spelled_inverse(ws, qi);
            lemma_spell_concat(undo_word(ws), wt, qi);
            assert(spell(id, undo_word(ws) + wt, qi) == goal@);
        }
        let word = match shortest_word(&goal, q) {
            Some(w) => w,
            None => {
                return None;
            },
        };
        let path = walk(&self.vertices, from, &word);
        let rt = crate::cayley::Route { hops: word.len(), path };
        assert(shortest_spelling(word@, goal@, qi));
        assert(spell(identity_of(qi), word@, qi) == goal@);
        Some(rt)
    }
}

/// The step that undoes a step.
pub open spec fn undo(s: Generator) -> Generator {
    match s {
        Generator::Cycle => Generator::Back,
        Generator::Swap => Generator::Swap,
        Generator::Back => Generator::Cycle,
    }
}

/// The steps that undo `w`: each undone, in reverse order.
pub open spec fn undo_word(w: Seq<Generator>) -> Seq<Generator>
    decreases w.len(),
{
    if w.len() == 0 {
        Seq::empty()
    } else {
        seq![undo(w.last())] + undo_word(w.drop_last())
    }
}

proof fn lemma_generator_pair(s: Generator, q: int)
    requires
        3 <= q <= MAX_Q,
    ensures
        shaped(generator_of(s, q), q),
        mul_of(generator_of(undo(s), q), generator_of(s, q), q) == identity_of(q),
        mul_of(generator_of(s, q), generator_of(undo(s), q), q) == identity_of(q),
{
    lemma_cycle_inverse(q);
    lemma_swap_twice(q);
    lemma_generators_in_range(q);
    assert(shaped(cycle_of(q), q));
    assert(shaped(back_step(q), q));
}

/// Spelling from `g` is `g` times the spelling from the identity.
proof fn lemma_spell_from(g: Seq<u8>, w: Seq<Generator>, q: int)
    requires
        3 <= q <= MAX_Q,
        shaped(g, q),
    ensures
        spell(g, w, q) == mul_of(g, spell(identity_of(q), w, q), q),
        shaped(spell(g, w, q), q),
        shaped(spell(identity_of(q), w, q), q),
    decreases w.len(),
{
    lemma_identity_sides(g, q);
    if w.len() > 0 {
        let u = w.drop_last();
        let sg = generator_of(w.last(), q);
        lemma_spell_from(g, u, q);
        lemma_generator_pair(w.last(), q);
        let id_u = spell(identity_of(q), u, q);
        lemma_mul_associative(g, id_u, sg, q);
        lemma_mul_shaped(spell(g, u, q), sg, q);
        lemma_mul_shaped(id_u, sg, q);
    }
}

proof fn lemma_spell_append(g: Seq<u8>, a: Seq<Generator>, b: Seq<Generator>, q: int)
    ensures
        spell(g, a + b, q) == spell(spell(g, a, q), b, q),
    decreases b.len(),
{
    if b.len() == 0 {
        assert(a + b =~= a);
    } else {
        assert((a + b).drop_last() =~= a + b.drop_last());
        assert((a + b).last() == b.last());
        lemma_spell_append(g, a, b.drop_last(), q);
    }
}

/// Spelling `a` then `b` is the product of their spellings.
proof fn lemma_spell_concat(a: Seq<Generator>, b: Seq<Generator>, q: int)
    requires
        3 <= q <= MAX_Q,
    ensures
        spell(identity_of(q), a + b, q) == mul_of(
            spell(identity_of(q), a, q),
            spell(identity_of(q), b, q),
            q,
        ),
{
    lemma_identity_sides(identity_of(q), q);
    lemma_spell_append(identity_of(q), a, b, q);
    lemma_spell_from(identity_of(q), a, q);
    lemma_spell_from(spell(identity_of(q), a, q), b, q);
}

/// The steps that undo `w` spell the inverse of what `w` spells, on both sides.
proof fn lemma_undo_step(w: Seq<Generator>, q: int)
    requires
        3 <= q <= MAX_Q,
        w.len() > 0,
    ensures
        spell(identity_of(q), undo_word(w), q) == mul_of(
            generator_of(undo(w.last()), q),
            spell(identity_of(q), undo_word(w.drop_last()), q),
            q,
        ),
        spell(identity_of(q), w, q) == mul_of(
            spell(identity_of(q), w.drop_last(), q),
            generator_of(w.last(), q),
            q,
        ),
{
    let id = identity_of(q);
    let s = w.last();
    let sp = generator_of(undo(s), q);
    assert(undo_word(w) == seq![undo(s)] + undo_word(w.drop_last()));
    lemma_spell_concat(seq![undo(s)], undo_word(w.drop_last()), q);
    let one = seq![undo(s)];
    assert(one.drop_last() =~= Seq::<Generator>::empty());
    assert(one.last() == undo(s));
    assert(spell(id, one.drop_last(), q) == id);
    assert(spell(id, one, q) == mul_of(id, sp, q));
    lemma_generator_pair(undo(s), q);
    lemma_identity_sides(sp, q);
}

#[verifier::spinoff_prover]
proof fn lemma_undo_word(w: Seq<Generator>, q: int)
    requires
        3 <= q <= MAX_Q,
    ensures
        mul_of(spell(identity_of(q), undo_word(w), q), spell(identity_of(q), w, q), q)
            == identity_of(q),
        mul_of(spell(identity_of(q), w, q), spell(identity_of(q), undo_word(w), q), q)
            == identity_of(q),
    decreases w.len(),
{
    let id = identity_of(q);
    lemma_identity_sides(id, q);
    if w.len() == 0 {
    } else {
        let u = w.drop_last();
        let s = w.last();
        lemma_undo_word(u, q);
        let uu = spell(id, u, q);
        let vv = spell(id, undo_word(u), q);
        let sg = generator_of(s, q);
        let sp = generator_of(undo(s), q);
        lemma_generator_pair(s, q);
        lemma_generator_pair(undo(s), q);
        lemma_spell_from(id, u, q);
        lemma_spell_from(id, undo_word(u), q);
        lemma_undo_step(w, q);
        lemma_sandwich(sp, vv, uu, sg, q);
        lemma_sandwich(uu, sg, sp, vv, q);
    }
}

/// `(a b)(c d)` is the identity when `b c` and `a d` are.
proof fn lemma_sandwich(a: Seq<u8>, b: Seq<u8>, c: Seq<u8>, d: Seq<u8>, q: int)
    requires
        shaped(a, q),
        shaped(b, q),
        shaped(c, q),
        shaped(d, q),
        mul_of(b, c, q) == identity_of(q),
        mul_of(a, d, q) == identity_of(q),
    ensures
        mul_of(mul_of(a, b, q), mul_of(c, d, q), q) == identity_of(q),
{
    lemma_mul_shaped(c, d, q);
    lemma_mul_associative(a, b, mul_of(c, d, q), q);
    lemma_mul_associative(b, c, d, q);
    lemma_identity_sides(d, q);
}

/// What a word spells is a permutation, whose inverse the undoing word spells.
pub proof fn lemma_spelled_inverse(w: Seq<Generator>, q: int)
    requires
        3 <= q <= MAX_Q,
    ensures
        is_perm(spell(identity_of(q), w, q), q),
        inverse_of(spell(identity_of(q), w, q), q) == spell(identity_of(q), undo_word(w), q),
{
    let id = identity_of(q);
    lemma_identity_sides(id, q);
    lemma_spell_from(id, w, q);
    lemma_spell_from(id, undo_word(w), q);
    lemma_undo_word(w, q);
    lemma_inverse_is(spell(id, w, q), spell(id, undo_word(w), q), q);
}

/// Whether every label is spelled by some word from the identity.
pub open spec fn spelled(ls: Seq<Option<Perm>>, q: int) -> bool {
    forall|v: int|
        0 <= v < ls.len() && #[trigger] ls[v] is Some ==> exists|w: Seq<Generator>|
            #[trigger] spell(identity_of(q), w, q) == ls[v]->0@
}

/// Showing every label multiplied on the left by a frame keeps the steps: the label shown one
/// step on around a q-gon is the one shown here times the cycle, and one step across, times the
/// swap. So a recentered view still reads as the Cayley graph.
pub proof fn lemma_frame_keeps_steps(c: Cayley, v: int, frame: Seq<u8>)
    requires
        c.wf(),
        0 <= v < c.vertices.len(),
        c.vertices@[v].label is Some,
    ensures
        ({
            let q = c.q as int;
            let shown = mul_of(frame, c.vertices@[v].label->0@, q);
            &&& c.vertices@[v].next matches Some(n) ==> c.vertices@[n as int].label is Some
                && mul_of(frame, c.vertices@[n as int].label->0@, q) == mul_of(shown, cycle_of(q), q)
            &&& c.vertices@[v].across matches Some(a) ==> c.vertices@[a as int].label is Some
                && mul_of(frame, c.vertices@[a as int].label->0@, q) == mul_of(shown, swap_of(q), q)
        }),
{
    let q = c.q as int;
    let ls = labels(c.vertices@);
    let lk = links(c.vertices@);
    let g = c.vertices@[v].label->0@;
    assert(ls[v] is Some);
    assert(steps_agree(lk, ls, v, q));
    assert(lk[v] == (c.vertices@[v].next, c.vertices@[v].across));
    assert(in_range(g, q));
    lemma_generators_in_range(q);
    lemma_mul_associative(frame, g, cycle_of(q), q);
    lemma_mul_associative(frame, g, swap_of(q), q);
}

} // verus!
