//! Counts the faces, edges and vertices of a puzzle's surface, grouping the physical copies of
//! each logical element. Each copy is a point, given here by a number that stands for where it
//! lies (working that out is the geometry's business): a group holds a master cell's point and
//! the same point of each of its slave cells, which are all one logical element. Groups that
//! share a point are merged. The groupings also index the puzzle's twists.
use crate::nethash::{found_by, lookup, newest_match, NetKey, NetSet};
use crate::text::{append_chars, int_chars, int_text, string_of};
use crate::twist_data::ElementType;
use vstd::prelude::*;

verus! {

/// Whether the probe finds the point among the first `n` of a set's points.
proof fn lemma_finds_point(keys: Seq<i64>, k: i64, n: int)
    requires
        0 <= n <= keys.len(),
    ensures
        newest_match(keys, k, n) is Some <==> exists|m: int| 0 <= m < n && keys[m] == k,
    decreases n,
{
    if n > 0 {
        lemma_finds_point(keys, k, n - 1);
        if keys[n - 1] == k {
            assert(found_by(keys[n - 1], k));
        }
        if newest_match(keys, k, n) is Some && !(newest_match(keys, k, n - 1) is Some) {
            assert(found_by(keys[n - 1], k));
            assert(keys[n - 1].key_matches(&k));
        }
    }
}

/// A set of points finds exactly the points it holds.
pub proof fn lemma_set_contains(keys: Seq<i64>, k: i64)
    ensures
        lookup(keys, k) is Some <==> keys.contains(k),
{
    lemma_finds_point(keys, k, keys.len() as int);
}

/// The points of a list of sets.
pub open spec fn views(list: Seq<NetSet<i64>>) -> Seq<Seq<i64>> {
    list.map_values(|s: NetSet<i64>| s@)
}

/// Whether one of the sets holds the point.
pub open spec fn holds(l: Seq<Seq<i64>>, x: i64) -> bool {
    exists|j: int| 0 <= j < l.len() && #[trigger] l[j].contains(x)
}

/// Whether one set holds both points.
pub open spec fn together(l: Seq<Seq<i64>>, x: i64, y: i64) -> bool {
    exists|j: int| 0 <= j < l.len() && #[trigger] l[j].contains(x) && l[j].contains(y)
}

/// Whether the point is among the first `n` groups.
pub open spec fn in_groups(groups: Seq<(i64, Vec<i64>)>, x: i64, n: int) -> bool {
    exists|g: int| 0 <= g < n && (#[trigger] groups[g].0 == x || groups[g].1@.contains(x))
}

/// Whether `f` gives each group's points the same value: a way of telling logical elements
/// apart that agrees with the groups.
pub open spec fn respects(f: spec_fn(i64) -> int, groups: Seq<(i64, Vec<i64>)>) -> bool {
    forall|g: int, k: int|
        0 <= g < groups.len() && 0 <= k < groups[g].1.len() ==> f(groups[g].0) == f(
            #[trigger] groups[g].1@[k],
        )
}

/// Whether every set's points get one value of `f`.
pub open spec fn constant_on(l: Seq<Seq<i64>>, f: spec_fn(i64) -> int) -> bool {
    forall|j: int, x: i64, y: i64|
        0 <= j < l.len() && #[trigger] l[j].contains(x) && #[trigger] l[j].contains(y) ==> f(x) == f(y)
}

/// The sets are the logical elements of the groups: none empty, none sharing a point, holding
/// every point of the groups and no other, each group within one set, and each set within one
/// value of any `f` that agrees with the groups (so no finer grouping would do).
pub open spec fn elements_of(l: Seq<Seq<i64>>, groups: Seq<(i64, Vec<i64>)>) -> bool {
    &&& forall|j: int| 0 <= j < l.len() ==> #[trigger] l[j].len() > 0
    &&& forall|i: int, j: int, x: i64|
        0 <= i < j < l.len() && #[trigger] l[i].contains(x) ==> !#[trigger] l[j].contains(x)
    &&& forall|x: i64| holds(l, x) <==> in_groups(groups, x, groups.len() as int)
    &&& forall|g: int, k: int|
        0 <= g < groups.len() && 0 <= k < groups[g].1.len() ==> together(
            l,
            groups[g].0,
            #[trigger] groups[g].1@[k],
        )
    &&& forall|f: spec_fn(i64) -> int| #[trigger] respects(f, groups) ==> constant_on(l, f)
}

/// The index of the first set holding a point.
fn find_identified(list: &Vec<NetSet<i64>>, point: i64) -> (r: Option<usize>)
    requires
        forall|j: int| 0 <= j < list.len() ==> (#[trigger] list@[j]).wf(),
    ensures
        match r {
            Some(j) => j < list.len() && list@[j as int]@.contains(point) && forall|i: int|
                0 <= i < j ==> !(#[trigger] list@[i])@.contains(point),
            None => !holds(views(list@), point),
        },
{
    let mut j: usize = 0;
    while j < list.len()
        invariant
            0 <= j <= list.len(),
            forall|i: int| 0 <= i < list.len() ==> (#[trigger] list@[i]).wf(),
            forall|i: int| 0 <= i < j ==> !(#[trigger] list@[i])@.contains(point),
        decreases list.len() - j,
    {
        let found = list[j].contains(&point);
        proof {
            lemma_set_contains(list@[j as int]@, point);
        }
        if found {
            return Some(j);
        }
        j = j + 1;
    }
    proof {
        let l = views(list@);
        if holds(l, point) {
            let i = choose|i: int| 0 <= i < l.len() && #[trigger] l[i].contains(point);
            assert(l[i] == list@[i]@);
        }
    }
    None
}

/// What holds while groups are merged: `g` groups done, and of the next one, when `started`,
/// its master point and its first `k` slave points.
pub open spec fn merging(
    l: Seq<Seq<i64>>,
    c: Seq<i64>,
    groups: Seq<(i64, Vec<i64>)>,
    g: int,
    k: int,
    started: bool,
) -> bool {
    &&& forall|j: int| 0 <= j < l.len() ==> #[trigger] l[j].len() > 0
    &&& forall|i: int, j: int, x: i64|
        0 <= i < j < l.len() && #[trigger] l[i].contains(x) ==> !#[trigger] l[j].contains(x)
    &&& forall|x: i64| c.contains(x) <==> holds(l, x)
    &&& forall|x: i64|
        holds(l, x) <==> (in_groups(groups, x, g) || (started && (x == groups[g].0 || exists|kk: int|
            0 <= kk < k && #[trigger] groups[g].1@[kk] == x)))
    &&& forall|gg: int, kk: int|
        0 <= gg < g && 0 <= kk < groups[gg].1.len() ==> together(
            l,
            groups[gg].0,
            #[trigger] groups[gg].1@[kk],
        )
    &&& started ==> forall|kk: int|
        0 <= kk < k ==> together(l, groups[g].0, #[trigger] groups[g].1@[kk])
    &&& forall|f: spec_fn(i64) -> int| #[trigger] respects(f, groups) ==> constant_on(l, f)
}

/// Starting a new set with a master point that no set holds.
proof fn lemma_new_set(l: Seq<Seq<i64>>, c: Seq<i64>, groups: Seq<(i64, Vec<i64>)>, g: int)
    requires
        0 <= g < groups.len(),
        merging(l, c, groups, g, 0, false),
        !c.contains(groups[g].0),
    ensures
        merging(l.push(seq![groups[g].0]), c.push(groups[g].0), groups, g, 0, true),
{
    let mp = groups[g].0;
    let l2 = l.push(seq![mp]);
    let c2 = c.push(mp);
    assert(l2[l.len() as int] == seq![mp]);
    assert(seq![mp].contains(mp)) by {
        assert(seq![mp][0] == mp);
    }
    assert(c2.contains(mp)) by {
        assert(c2[c.len() as int] == mp);
    }
    assert forall|i: int, j: int, x: i64|
        0 <= i < j < l2.len() && #[trigger] l2[i].contains(x) implies !#[trigger] l2[j].contains(
        x,
    ) by {
        if j == l.len() {
            assert(l2[i] == l[i]);
            if x == mp {
                assert(holds(l, mp));
            }
        } else {
            assert(l2[i] == l[i] && l2[j] == l[j]);
        }
    }
    assert forall|x: i64| c2.contains(x) <==> holds(l2, x) by {
        if holds(l2, x) {
            let j = choose|j: int| 0 <= j < l2.len() && #[trigger] l2[j].contains(x);
            if j < l.len() {
                assert(l2[j] == l[j]);
                assert(holds(l, x));
                assert(c.contains(x));
                let i = choose|i: int| 0 <= i < c.len() && c[i] == x;
                assert(c2[i] == x);
            } else {
                assert(x == mp);
            }
        }
        if c2.contains(x) {
            if x == mp {
                assert(l2[l.len() as int].contains(mp));
            } else {
                let i = choose|i: int| 0 <= i < c2.len() && c2[i] == x;
                assert(i < c.len());
                assert(c[i] == x);
                assert(c.contains(x));
                let j = choose|j: int| 0 <= j < l.len() && #[trigger] l[j].contains(x);
                assert(l2[j] == l[j]);
            }
        }
    }
    assert forall|x: i64| holds(l2, x) <==> (in_groups(groups, x, g) || (x == groups[g].0 || exists|kk: int|
        0 <= kk < 0 && #[trigger] groups[g].1@[kk] == x)) by {
        assert(holds(l2, x) <==> (holds(l, x) || x == mp)) by {
            if holds(l2, x) {
                let j = choose|j: int| 0 <= j < l2.len() && #[trigger] l2[j].contains(x);
                if j < l.len() {
                    assert(l2[j] == l[j]);
                }
            }
            if holds(l, x) {
                let j = choose|j: int| 0 <= j < l.len() && #[trigger] l[j].contains(x);
                assert(l2[j] == l[j]);
            }
            if x == mp {
                assert(l2[l.len() as int].contains(mp));
            }
        }
    }
    assert forall|gg: int, kk: int|
        0 <= gg < g && 0 <= kk < groups[gg].1.len() implies together(
        l2,
        groups[gg].0,
        #[trigger] groups[gg].1@[kk],
    ) by {
        assert(together(l, groups[gg].0, groups[gg].1@[kk]));
        let j = choose|j: int|
            0 <= j < l.len() && #[trigger] l[j].contains(groups[gg].0) && l[j].contains(
                groups[gg].1@[kk],
            );
        assert(l2[j] == l[j]);
    }
    assert forall|f: spec_fn(i64) -> int| #[trigger] respects(f, groups) implies constant_on(l2, f) by {
        assert(constant_on(l, f));
        assert forall|j: int, x: i64, y: i64|
            0 <= j < l2.len() && #[trigger] l2[j].contains(x) && #[trigger] l2[j].contains(y) implies f(
            x,
        ) == f(y) by {
            if j < l.len() {
                assert(l2[j] == l[j]);
            }
        }
    }
}

/// `together` for sets that are the old ones grown.
proof fn lemma_together_grows(l: Seq<Seq<i64>>, l2: Seq<Seq<i64>>, x: i64, y: i64)
    requires
        together(l, x, y),
        l2.len() == l.len(),
        forall|j: int, z: i64| 0 <= j < l.len() && l[j].contains(z) ==> #[trigger] l2[j].contains(z),
    ensures
        together(l2, x, y),
{
    let j = choose|j: int| 0 <= j < l.len() && #[trigger] l[j].contains(x) && l[j].contains(y);
    assert(l2[j].contains(x) && l2[j].contains(y));
}

/// Adding a slave point that no set holds to the set of its master point.
proof fn lemma_add_point(
    l: Seq<Seq<i64>>,
    c: Seq<i64>,
    groups: Seq<(i64, Vec<i64>)>,
    g: int,
    k: int,
    id: int,
    l2: Seq<Seq<i64>>,
    c2: Seq<i64>,
)
    requires
        0 <= g < groups.len(),
        0 <= k < groups[g].1.len(),
        merging(l, c, groups, g, k, true),
        0 <= id < l.len(),
        l[id].contains(groups[g].0),
        !c.contains(groups[g].1@[k]),
        l2.len() == l.len(),
        forall|j: int| 0 <= j < l.len() && j != id ==> #[trigger] l2[j] == l[j],
        forall|x: i64| l2[id].contains(x) <==> (l[id].contains(x) || x == groups[g].1@[k]),
        forall|x: i64| c2.contains(x) <==> (c.contains(x) || x == groups[g].1@[k]),
    ensures
        merging(l2, c2, groups, g, k + 1, true),
{
    let mp = groups[g].0;
    let sp = groups[g].1@[k];
    assert(!holds(l, sp));
    assert forall|j: int, z: i64| 0 <= j < l.len() && l[j].contains(z) implies #[trigger] l2[j].contains(
        z,
    ) by {
        if j != id {
            assert(l2[j] == l[j]);
        }
    }
    assert forall|j: int| 0 <= j < l2.len() implies #[trigger] l2[j].len() > 0 by {
        if j == id {
            assert(l2[id].contains(sp));
        } else {
            assert(l2[j] == l[j]);
        }
    }
    assert forall|i: int, j: int, x: i64|
        0 <= i < j < l2.len() && #[trigger] l2[i].contains(x) implies !#[trigger] l2[j].contains(
        x,
    ) by {
        if x == sp {
            if i != id {
                assert(l2[i] == l[i]);
                assert(holds(l, sp));
            }
            if j != id {
                assert(l2[j] == l[j]);
                if l2[j].contains(x) {
                    assert(holds(l, sp));
                }
            }
        } else {
            if i != id {
                assert(l2[i] == l[i]);
            }
            if j != id {
                assert(l2[j] == l[j]);
            }
        }
    }
    assert forall|x: i64| holds(l2, x) <==> (holds(l, x) || x == sp) by {
        if holds(l2, x) {
            let j = choose|j: int| 0 <= j < l2.len() && #[trigger] l2[j].contains(x);
            if j != id {
                assert(l2[j] == l[j]);
            }
            if x != sp && j == id {
                assert(l[id].contains(x));
            }
        }
        if holds(l, x) {
            let j = choose|j: int| 0 <= j < l.len() && #[trigger] l[j].contains(x);
            assert(l2[j].contains(x));
        }
        if x == sp {
            assert(l2[id].contains(sp));
        }
    }
    assert forall|x: i64|
        holds(l2, x) <==> (in_groups(groups, x, g) || (true && (x == groups[g].0 || exists|kk: int|
            0 <= kk < k + 1 && #[trigger] groups[g].1@[kk] == x))) by {
        if exists|kk: int| 0 <= kk < k + 1 && #[trigger] groups[g].1@[kk] == x {
            let kk = choose|kk: int| 0 <= kk < k + 1 && #[trigger] groups[g].1@[kk] == x;
            if kk < k {
                assert(exists|k2: int| 0 <= k2 < k && #[trigger] groups[g].1@[k2] == x);
            }
        }
        if exists|kk: int| 0 <= kk < k && #[trigger] groups[g].1@[kk] == x {
            let kk = choose|kk: int| 0 <= kk < k && #[trigger] groups[g].1@[kk] == x;
            assert(0 <= kk < k + 1 && groups[g].1@[kk] == x);
        }
    }
    assert forall|gg: int, kk: int|
        0 <= gg < g && 0 <= kk < groups[gg].1.len() implies together(
        l2,
        groups[gg].0,
        #[trigger] groups[gg].1@[kk],
    ) by {
        lemma_together_grows(l, l2, groups[gg].0, groups[gg].1@[kk]);
    }
    assert forall|kk: int| 0 <= kk < k + 1 implies together(l2, groups[g].0, #[trigger] groups[g].1@[kk]) by {
        if kk < k {
            lemma_together_grows(l, l2, groups[g].0, groups[g].1@[kk]);
        } else {
            assert(l2[id].contains(mp) && l2[id].contains(sp));
        }
    }
    assert forall|f: spec_fn(i64) -> int| #[trigger] respects(f, groups) implies constant_on(l2, f) by {
        assert(constant_on(l, f));
        assert(f(mp) == f(sp));
        assert forall|j: int, x: i64, y: i64|
            0 <= j < l2.len() && #[trigger] l2[j].contains(x) && #[trigger] l2[j].contains(y) implies f(
            x,
        ) == f(y) by {
            if j != id {
                assert(l2[j] == l[j]);
            } else {
                if x != sp {
                    assert(l[id].contains(x));
                    assert(f(x) == f(mp));
                }
                if y != sp {
                    assert(l[id].contains(y));
                    assert(f(y) == f(mp));
                }
            }
        }
    }
    assert forall|x: i64| c2.contains(x) <==> holds(l2, x) by {}
}

/// A slave point already in its master point's set.
proof fn lemma_already_together(
    l: Seq<Seq<i64>>,
    c: Seq<i64>,
    groups: Seq<(i64, Vec<i64>)>,
    g: int,
    k: int,
    id: int,
)
    requires
        0 <= g < groups.len(),
        0 <= k < groups[g].1.len(),
        merging(l, c, groups, g, k, true),
        0 <= id < l.len(),
        l[id].contains(groups[g].0),
        l[id].contains(groups[g].1@[k]),
    ensures
        merging(l, c, groups, g, k + 1, true),
{
    let sp = groups[g].1@[k];
    assert(holds(l, sp));
    assert forall|x: i64|
        holds(l, x) <==> (in_groups(groups, x, g) || (true && (x == groups[g].0 || exists|kk: int|
            0 <= kk < k + 1 && #[trigger] groups[g].1@[kk] == x))) by {
        if exists|kk: int| 0 <= kk < k + 1 && #[trigger] groups[g].1@[kk] == x {
            let kk = choose|kk: int| 0 <= kk < k + 1 && #[trigger] groups[g].1@[kk] == x;
            if kk < k {
                assert(exists|k2: int| 0 <= k2 < k && #[trigger] groups[g].1@[k2] == x);
            }
        }
        if exists|kk: int| 0 <= kk < k && #[trigger] groups[g].1@[kk] == x {
            let kk = choose|kk: int| 0 <= kk < k && #[trigger] groups[g].1@[kk] == x;
            assert(0 <= kk < k + 1 && groups[g].1@[kk] == x);
        }
    }
    assert forall|kk: int| 0 <= kk < k + 1 implies together(l, groups[g].0, #[trigger] groups[g].1@[kk]) by {
        if kk == k {
            assert(l[id].contains(groups[g].0) && l[id].contains(sp));
        }
    }
}

/// Merging the set of a slave point into the set of its master point.
proof fn lemma_merge(
    l: Seq<Seq<i64>>,
    c: Seq<i64>,
    groups: Seq<(i64, Vec<i64>)>,
    g: int,
    k: int,
    id: int,
    other: int,
    m: Seq<i64>,
)
    requires
        0 <= g < groups.len(),
        0 <= k < groups[g].1.len(),
        merging(l, c, groups, g, k, true),
        0 <= id < l.len(),
        0 <= other < l.len(),
        id != other,
        l[id].contains(groups[g].0),
        l[other].contains(groups[g].1@[k]),
        forall|x: i64| m.contains(x) <==> (l[id].contains(x) || l[other].contains(x)),
    ensures
        ({
            let l2 = l.update(id, m).remove(other);
            let id2 = if other < id {
                id - 1
            } else {
                id
            };
            &&& merging(l2, c, groups, g, k + 1, true)
            &&& 0 <= id2 < l2.len()
            &&& l2[id2].contains(groups[g].0)
        }),
{
    let mp = groups[g].0;
    let sp = groups[g].1@[k];
    let lu = l.update(id, m);
    let l2 = lu.remove(other);
    let id2 = if other < id {
        id - 1
    } else {
        id
    };
    assert(l2.len() == l.len() - 1);
    // where each new set comes from
    assert forall|j: int| 0 <= j < l2.len() implies #[trigger] l2[j] == (if (if j < other {
        j
    } else {
        j + 1
    }) == id {
        m
    } else {
        l[if j < other {
            j
        } else {
            j + 1
        }]
    }) by {}
    assert(l2[id2] == m);
    assert(m.contains(mp));
    assert forall|j: int| 0 <= j < l2.len() implies #[trigger] l2[j].len() > 0 by {
        if l2[j] == m {
            assert(m.contains(mp));
        }
    }
    assert forall|i: int, j: int, x: i64|
        0 <= i < j < l2.len() && #[trigger] l2[i].contains(x) implies !#[trigger] l2[j].contains(
        x,
    ) by {
        let si = if i < other {
            i
        } else {
            i + 1
        };
        let sj = if j < other {
            j
        } else {
            j + 1
        };
        assert(si < sj && si != other && sj != other);
        if l2[j].contains(x) {
            if si == id {
                assert(l[sj].contains(x));
                if l[id].contains(x) {
                    assert(false);
                } else {
                    assert(l[other].contains(x));
                    if other < sj {
                    } else {
                    }
                }
            } else if sj == id {
                assert(l[si].contains(x));
            } else {
                assert(l[si].contains(x) && l[sj].contains(x));
            }
        }
    }
    assert forall|x: i64| holds(l2, x) <==> holds(l, x) by {
        if holds(l2, x) {
            let j = choose|j: int| 0 <= j < l2.len() && #[trigger] l2[j].contains(x);
            let sj = if j < other {
                j
            } else {
                j + 1
            };
            if sj == id {
                if l[id].contains(x) {
                } else {
                    assert(l[other].contains(x));
                }
            } else {
                assert(l[sj].contains(x));
            }
        }
        if holds(l, x) {
            let j = choose|j: int| 0 <= j < l.len() && #[trigger] l[j].contains(x);
            if j == id || j == other {
                assert(l2[id2].contains(x));
            } else {
                let t = if j < other {
                    j
                } else {
                    j - 1
                };
                assert(l2[t] == l[j]);
            }
        }
    }
    assert forall|x: i64| c.contains(x) <==> holds(l2, x) by {}
    assert(holds(l, sp)) by {
        assert(l[other].contains(sp));
    }
    assert forall|x: i64|
        holds(l2, x) <==> (in_groups(groups, x, g) || (true && (x == groups[g].0 || exists|kk: int|
            0 <= kk < k + 1 && #[trigger] groups[g].1@[kk] == x))) by {
        if exists|kk: int| 0 <= kk < k + 1 && #[trigger] groups[g].1@[kk] == x {
            let kk = choose|kk: int| 0 <= kk < k + 1 && #[trigger] groups[g].1@[kk] == x;
            if kk < k {
                assert(exists|k2: int| 0 <= k2 < k && #[trigger] groups[g].1@[k2] == x);
            }
        }
        if exists|kk: int| 0 <= kk < k && #[trigger] groups[g].1@[kk] == x {
            let kk = choose|kk: int| 0 <= kk < k && #[trigger] groups[g].1@[kk] == x;
            assert(0 <= kk < k + 1 && groups[g].1@[kk] == x);
        }
    }
    // pairs stay together
    assert forall|x: i64, y: i64| together(l, x, y) implies together(l2, x, y) by {
        let j = choose|j: int| 0 <= j < l.len() && #[trigger] l[j].contains(x) && l[j].contains(y);
        if j == id || j == other {
            assert(l2[id2].contains(x) && l2[id2].contains(y));
        } else {
            let t = if j < other {
                j
            } else {
                j - 1
            };
            assert(l2[t] == l[j]);
            assert(l2[t].contains(x) && l2[t].contains(y));
        }
    }
    assert forall|gg: int, kk: int|
        0 <= gg < g && 0 <= kk < groups[gg].1.len() implies together(
        l2,
        groups[gg].0,
        #[trigger] groups[gg].1@[kk],
    ) by {
        assert(together(l, groups[gg].0, groups[gg].1@[kk]));
    }
    assert forall|kk: int| 0 <= kk < k + 1 implies together(l2, groups[g].0, #[trigger] groups[g].1@[kk]) by {
        if kk < k {
            assert(together(l, groups[g].0, groups[g].1@[kk]));
        } else {
            assert(m.contains(sp));
            assert(l2[id2].contains(mp) && l2[id2].contains(sp));
        }
    }
    assert forall|f: spec_fn(i64) -> int| #[trigger] respects(f, groups) implies constant_on(l2, f) by {
        assert(constant_on(l, f));
        assert(f(mp) == f(sp));
        assert forall|j: int, x: i64, y: i64|
            0 <= j < l2.len() && #[trigger] l2[j].contains(x) && #[trigger] l2[j].contains(y) implies f(
            x,
        ) == f(y) by {
            let sj = if j < other {
                j
            } else {
                j + 1
            };
            if sj == id {
                assert(l[id].contains(x) ==> f(x) == f(mp));
                assert(l[other].contains(x) ==> f(x) == f(sp));
                assert(l[id].contains(y) ==> f(y) == f(mp));
                assert(l[other].contains(y) ==> f(y) == f(sp));
            } else {
                assert(l[sj].contains(x) && l[sj].contains(y));
            }
        }
    }
}

/// Starting a group whose master point a set holds already.
proof fn lemma_start_held(l: Seq<Seq<i64>>, c: Seq<i64>, groups: Seq<(i64, Vec<i64>)>, g: int)
    requires
        0 <= g < groups.len(),
        merging(l, c, groups, g, 0, false),
        holds(l, groups[g].0),
    ensures
        merging(l, c, groups, g, 0, true),
{
}

/// Finishing a group.
proof fn lemma_group_done(l: Seq<Seq<i64>>, c: Seq<i64>, groups: Seq<(i64, Vec<i64>)>, g: int)
    requires
        0 <= g < groups.len(),
        merging(l, c, groups, g, groups[g].1.len() as int, true),
    ensures
        merging(l, c, groups, g + 1, 0, false),
{
    let n = groups[g].1.len() as int;
    assert forall|x: i64| holds(l, x) <==> in_groups(groups, x, g + 1) by {
        if in_groups(groups, x, g + 1) {
            let gg = choose|gg: int| 0 <= gg < g + 1 && (#[trigger] groups[gg].0 == x || groups[gg].1@.contains(x));
            if gg == g && groups[g].0 != x {
                let kk = choose|kk: int| 0 <= kk < groups[g].1@.len() && groups[g].1@[kk] == x;
                assert(exists|k2: int| 0 <= k2 < n && #[trigger] groups[g].1@[k2] == x);
            }
            if gg < g {
                assert(in_groups(groups, x, g));
            }
        }
        if holds(l, x) {
            if !in_groups(groups, x, g) {
                if x == groups[g].0 {
                    assert(groups[g].0 == x);
                } else {
                    let kk = choose|kk: int| 0 <= kk < n && #[trigger] groups[g].1@[kk] == x;
                    assert(groups[g].1@.contains(x));
                }
            } else {
                let gg = choose|gg: int| 0 <= gg < g && (#[trigger] groups[gg].0 == x || groups[gg].1@.contains(x));
            }
        }
    }
}

/// Once every group is done, the sets are the logical elements.
proof fn lemma_done(l: Seq<Seq<i64>>, c: Seq<i64>, groups: Seq<(i64, Vec<i64>)>)
    requires
        merging(l, c, groups, groups.len() as int, 0, false),
    ensures
        elements_of(l, groups),
{
}

/// Adds a point to a set (unless it holds it already).
fn add_point(set: &mut NetSet<i64>, x: i64)
    requires
        old(set).wf(),
    ensures
        final(set).wf(),
        forall|y: i64| #[trigger] final(set)@.contains(y) <==> (old(set)@.contains(y) || y == x),
{
    let ghost prev = set@;
    set.insert(x);
    proof {
        lemma_set_contains(prev, x);
        assert forall|y: i64| #[trigger] set@.contains(y) <==> (prev.contains(y) || y == x) by {
            if set@ != prev {
                assert(set@ == prev.push(x));
                if set@.contains(y) && y != x {
                    let i = choose|i: int| 0 <= i < set@.len() && set@[i] == y;
                    assert(i < prev.len());
                    assert(prev[i] == y);
                }
                if prev.contains(y) {
                    let i = choose|i: int| 0 <= i < prev.len() && prev[i] == y;
                    assert(set@[i] == y);
                }
                if y == x {
                    assert(set@[prev.len() as int] == x);
                }
            } else {
                if y == x {
                    assert(prev.contains(x));
                }
            }
        }
    }
}

/// Groups the copies of one kind of logical element: each group's points join one set, and sets
/// that share a point are merged.
fn analyze_element(groups: &[(i64, Vec<i64>)]) -> (list: Vec<NetSet<i64>>)
    ensures
        forall|j: int| 0 <= j < list.len() ==> (#[trigger] list@[j]).wf(),
        elements_of(views(list@), groups@),
{
    let mut list: Vec<NetSet<i64>> = Vec::new();
    let mut complete: NetSet<i64> = NetSet::new();
    let mut g: usize = 0;
    proof {
        assert(views(list@) =~= Seq::<Seq<i64>>::empty());
    }
    while g < groups.len()
        invariant
            0 <= g <= groups.len(),
            complete.wf(),
            forall|j: int| 0 <= j < list.len() ==> (#[trigger] list@[j]).wf(),
            merging(views(list@), complete@, groups@, g as int, 0, false),
        decreases groups.len() - g,
    {
        let master_point = groups[g].0;
        let has_master = complete.contains(&master_point);
        proof {
            lemma_set_contains(complete@, master_point);
        }
        let mut identified: usize = 0;
        if has_master {
            match find_identified(&list, master_point) {
                Some(index) => {
                    identified = index;
                    proof {
                        lemma_start_held(views(list@), complete@, groups@, g as int);
                    }
                },
                None => {
                    proof {
                        assert(holds(views(list@), master_point));
                    }
                    g = g + 1;
                    continue ;
                },
            }
        } else {
            let ghost l0 = views(list@);
            let ghost c0 = complete@;
            let mut set = NetSet::new();
            set.insert(master_point);
            proof {
                lemma_set_contains(Seq::<i64>::empty(), master_point);
                assert(set@ =~= seq![master_point]);
            }
            list.push(set);
            complete.insert(master_point);
            identified = list.len() - 1;
            proof {
                assert(views(list@) =~= l0.push(seq![master_point]));
                assert(complete@ =~= c0.push(master_point));
                lemma_new_set(l0, c0, groups@, g as int);
                assert(seq![master_point][0] == master_point);
            }
        }
        let slaves = &groups[g].1;
        let mut k: usize = 0;
        while k < slaves.len()
            invariant
                0 <= g < groups.len(),
                0 <= k <= slaves.len(),
                slaves == groups@[g as int].1,
                master_point == groups@[g as int].0,
                complete.wf(),
                forall|j: int| 0 <= j < list.len() ==> (#[trigger] list@[j]).wf(),
                merging(views(list@), complete@, groups@, g as int, k as int, true),
                identified < list.len(),
                list@[identified as int]@.contains(master_point),
            decreases slaves.len() - k,
        {
            let slave_point = slaves[k];
            let ghost l0 = views(list@);
            let ghost c0 = complete@;
            assert(l0[identified as int] == list@[identified as int]@);
            let has_slave = complete.contains(&slave_point);
            proof {
                lemma_set_contains(complete@, slave_point);
            }
            if has_slave {
                match find_identified(&list, slave_point) {
                    Some(other) => {
                        if other != identified {
                            let refs = list[other].iter();
                            let mut items: Vec<i64> = Vec::new();
                            let mut t: usize = 0;
                            while t < refs.len()
                                invariant
                                    0 <= t <= refs.len(),
                                    other < list.len(),
                                    refs@.len() == list@[other as int]@.len(),
                                    forall|i: int| 0 <= i < refs@.len() ==> *#[trigger] refs@[i] == list@[other as int]@[i],
                                    items@ == list@[other as int]@.take(t as int),
                                decreases refs.len() - t,
                            {
                                items.push(*refs[t]);
                                t = t + 1;
                                assert(items@ =~= list@[other as int]@.take(t as int));
                            }
                            assert(list@[other as int]@.take(refs.len() as int) =~= list@[other as int]@);
                            let ghost full = list@;
                            let mut target = list.remove(identified);
                            let ghost before = target@;
                            let mut u: usize = 0;
                            while u < items.len()
                                invariant
                                    0 <= u <= items.len(),
                                    target.wf(),
                                    forall|x: i64| #[trigger] target@.contains(x) <==> (before.contains(x) || items@.take(u as int).contains(x)),
                                decreases items.len() - u,
                            {
                                let ghost prev = target@;
                                add_point(&mut target, items[u]);
                                proof {
                                    let t1 = items@.take(u + 1);
                                    let t0 = items@.take(u as int);
                                    assert(t1 =~= t0.push(items@[u as int]));
                                    assert forall|x: i64| #[trigger] target@.contains(x) <==> (before.contains(x) || t1.contains(x)) by {
                                        assert(target@.contains(x) <==> (prev.contains(x) || x == items@[u as int]));
                                        assert(prev.contains(x) <==> (before.contains(x) || t0.contains(x)));
                                        if x == items@[u as int] {
                                            assert(t1[u as int] == x);
                                        }
                                        if t1.contains(x) && !t0.contains(x) {
                                            let i = choose|i: int| 0 <= i < t1.len() && t1[i] == x;
                                            if i < u {
                                                assert(t0[i] == x);
                                            }
                                        }
                                        if t0.contains(x) {
                                            let i = choose|i: int| 0 <= i < t0.len() && t0[i] == x;
                                            assert(t1[i] == x);
                                        }
                                    }
                                }
                                u = u + 1;
                            }
                            let ghost merged = target@;
                            list.insert(identified, target);
                            assert(list@ =~= full.update(identified as int, list@[identified as int]));
                            let ghost lu = views(list@);
                            list.remove(other);
                            proof {
                                assert(items@.take(items.len() as int) =~= items@);
                                assert(before == l0[identified as int]);
                                assert(lu =~= l0.update(identified as int, merged));
                                assert(views(list@) =~= lu.remove(other as int));
                                lemma_merge(l0, c0, groups@, g as int, k as int, identified as int, other as int, merged);
                            }
                            if other < identified {
                                identified = identified - 1;
                            }
                            proof {
                                assert(views(list@)[identified as int] == list@[identified as int]@);
                            }
                        } else {
                            proof {
                                lemma_already_together(l0, c0, groups@, g as int, k as int, identified as int);
                            }
                        }
                    },
                    None => {
                        proof {
                            assert(holds(views(list@), slave_point));
                        }
                    },
                }
                k = k + 1;
                continue ;
            }
            let ghost full = list@;
            let mut target = list.remove(identified);
            let ghost prev = target@;
            add_point(&mut target, slave_point);
            list.insert(identified, target);
            assert(list@ =~= full.update(identified as int, list@[identified as int]));
            let ghost cprev = complete@;
            add_point(&mut complete, slave_point);
            proof {
                let l2 = views(list@);
                assert(l2.len() == l0.len());
                assert forall|j: int| 0 <= j < l0.len() && j != identified implies #[trigger] l2[j] == l0[j] by {}
                assert forall|x: i64| l2[identified as int].contains(x) <==> (l0[identified as int].contains(x) || x == slave_point) by {
                    assert(l2[identified as int] == list@[identified as int]@);
                }
                lemma_add_point(l0, c0, groups@, g as int, k as int, identified as int, l2, complete@);
            }
            k = k + 1;
        }
        proof {
            lemma_group_done(views(list@), complete@, groups@, g as int);
        }
        g = g + 1;
    }
    proof {
        lemma_done(views(list@), complete@, groups@);
    }
    list
}

/// For each kind of element, one set per logical element holding all its copies.
pub struct Topology {
    faces: Vec<NetSet<i64>>,
    edges: Vec<NetSet<i64>>,
    vertices: Vec<NetSet<i64>>,
}

pub struct TopologyView {
    pub faces: Seq<Seq<i64>>,
    pub edges: Seq<Seq<i64>>,
    pub vertices: Seq<Seq<i64>>,
}

impl View for Topology {
    type V = TopologyView;

    closed spec fn view(&self) -> TopologyView {
        TopologyView {
            faces: views(self.faces@),
            edges: views(self.edges@),
            vertices: views(self.vertices@),
        }
    }
}

/// Whether a face set holds exactly its group's points: a master cell's center and its slaves'.
pub open spec fn face_of(s: Seq<i64>, group: (i64, Vec<i64>)) -> bool {
    forall|x: i64| #[trigger] s.contains(x) <==> (x == group.0 || group.1@.contains(x))
}

/// The sets of one kind of element.
pub open spec fn sets_of(t: TopologyView, element: ElementType) -> Seq<Seq<i64>> {
    match element {
        ElementType::Face => t.faces,
        ElementType::Edge => t.edges,
        ElementType::Vertex => t.vertices,
    }
}

/// Where logical element indices of a kind start: faces first, then edges, then vertices.
pub open spec fn offset_of(t: TopologyView, element: ElementType) -> int {
    match element {
        ElementType::Face => 0int,
        ElementType::Edge => t.faces.len() as int,
        ElementType::Vertex => (t.faces.len() + t.edges.len()) as int,
    }
}

/// The text of a topology: the counts and the Euler characteristic.
pub open spec fn topology_text(f: int, e: int, v: int) -> Seq<char> {
    seq!['F', '='] + int_text(f) + seq![',', ' ', 'E', '='] + int_text(e) + seq![',', ' ', 'V', '=']
        + int_text(v) + seq![',', ' ', 'χ', '='] + int_text(v - e + f)
}

impl Topology {
    pub closed spec fn wf(&self) -> bool {
        &&& forall|j: int| 0 <= j < self.faces.len() ==> (#[trigger] self.faces@[j]).wf()
        &&& forall|j: int| 0 <= j < self.edges.len() ==> (#[trigger] self.edges@[j]).wf()
        &&& forall|j: int| 0 <= j < self.vertices.len() ==> (#[trigger] self.vertices@[j]).wf()
    }

    /// Analyzes a puzzle's copies: for faces, each master cell's center with its slaves'
    /// centers; for edges and vertices, each master cell's point on each segment with the same
    /// point of each of its slaves. Faces are easy, since their points are only in one place;
    /// edge and vertex groups that share a point are one logical element.
    pub fn analyze(
        faces: &[(i64, Vec<i64>)],
        edges: &[(i64, Vec<i64>)],
        vertices: &[(i64, Vec<i64>)],
    ) -> (r: Topology)
        ensures
            r.wf(),
            r@.faces.len() == faces.len(),
            forall|m: int| 0 <= m < faces.len() ==> face_of(#[trigger] r@.faces[m], faces@[m]),
            elements_of(r@.edges, edges@),
            elements_of(r@.vertices, vertices@),
    {
        let mut face_sets: Vec<NetSet<i64>> = Vec::new();
        let mut m: usize = 0;
        while m < faces.len()
            invariant
                0 <= m <= faces.len(),
                face_sets.len() == m,
                forall|j: int| 0 <= j < m ==> (#[trigger] face_sets@[j]).wf(),
                forall|j: int| 0 <= j < m ==> face_of(#[trigger] face_sets@[j]@, faces@[j]),
            decreases faces.len() - m,
        {
            let mut identified = NetSet::new();
            add_point(&mut identified, faces[m].0);
            let slaves = &faces[m].1;
            let mut s: usize = 0;
            while s < slaves.len()
                invariant
                    0 <= s <= slaves.len(),
                    slaves == faces@[m as int].1,
                    identified.wf(),
                    forall|x: i64| #[trigger] identified@.contains(x) <==> (x == faces@[m as int].0
                        || slaves@.take(s as int).contains(x)),
                decreases slaves.len() - s,
            {
                add_point(&mut identified, slaves[s]);
                proof {
                    let t1 = slaves@.take(s + 1);
                    let t0 = slaves@.take(s as int);
                    assert(t1 =~= t0.push(slaves@[s as int]));
                    assert forall|x: i64| #[trigger] identified@.contains(x) <==> (x == faces@[m as int].0
                        || t1.contains(x)) by {
                        if x == slaves@[s as int] {
                            assert(t1[s as int] == x);
                        }
                        if t1.contains(x) && !t0.contains(x) {
                            let i = choose|i: int| 0 <= i < t1.len() && t1[i] == x;
                            if i < s {
                                assert(t0[i] == x);
                            }
                        }
                        if t0.contains(x) {
                            let i = choose|i: int| 0 <= i < t0.len() && t0[i] == x;
                            assert(t1[i] == x);
                        }
                    }
                }
                s = s + 1;
            }
            assert(slaves@.take(slaves.len() as int) =~= slaves@);
            face_sets.push(identified);
            m = m + 1;
        }
        let t = Topology { faces: face_sets, edges: analyze_element(edges), vertices: analyze_element(vertices) };
        assert forall|mm: int| 0 <= mm < faces.len() implies face_of(#[trigger] t@.faces[mm], faces@[mm]) by {
            assert(t@.faces[mm] == t.faces@[mm]@);
        }
        t
    }

    /// The number of faces.
    pub fn f(&self) -> (r: usize)
        ensures
            r == self@.faces.len(),
    {
        self.faces.len()
    }

    /// The number of edges.
    pub fn e(&self) -> (r: usize)
        ensures
            r == self@.edges.len(),
    {
        self.edges.len()
    }

    /// The number of vertices.
    pub fn v(&self) -> (r: usize)
        ensures
            r == self@.vertices.len(),
    {
        self.vertices.len()
    }

    /// V - E + F.
    pub fn euler_characteristic(&self) -> (r: i64)
        requires
            self@.faces.len() + self@.edges.len() + self@.vertices.len() <= i64::MAX,
        ensures
            r == self@.vertices.len() - self@.edges.len() + self@.faces.len(),
    {
        self.v() as i64 - self.e() as i64 + self.f() as i64
    }

    fn list(&self, element: ElementType) -> (r: &Vec<NetSet<i64>>)
        ensures
            views(r@) == sets_of(self@, element),
            self.wf() ==> forall|j: int| 0 <= j < r.len() ==> (#[trigger] r@[j]).wf(),
    {
        match element {
            ElementType::Face => &self.faces,
            ElementType::Edge => &self.edges,
            ElementType::Vertex => &self.vertices,
        }
    }

    /// The index of the logical element at a point, or `None`. Indices are unique across
    /// element types (faces, then edges, then vertices).
    pub fn logical_element_index(&self, element: ElementType, point: i64) -> (r: Option<usize>)
        requires
            self.wf(),
            self@.faces.len() + self@.edges.len() + self@.vertices.len() <= usize::MAX,
        ensures
            ({
                let l = sets_of(self@, element);
                &&& r is Some <==> holds(l, point)
                &&& r matches Some(i) ==> exists|j: int|
                    #![trigger l[j]]
                    0 <= j < l.len() && i == offset_of(self@, element) + j && l[j].contains(point)
                        && forall|jj: int| 0 <= jj < j ==> !(#[trigger] l[jj]).contains(point)
            }),
    {
        let list = self.list(element);
        let index = match find_identified(list, point) {
            Some(i) => i,
            None => {
                return None;
            },
        };
        proof {
            let l = sets_of(self@, element);
            assert(l[index as int] == list@[index as int]@);
            assert forall|jj: int| 0 <= jj < index implies !(#[trigger] l[jj]).contains(point) by {
                assert(l[jj] == list@[jj]@);
            }
        }
        Some(
            match element {
                ElementType::Face => index,
                ElementType::Edge => index + self.f(),
                ElementType::Vertex => index + self.f() + self.e(),
            },
        )
    }

    /// The counts and the Euler characteristic, e.g. `F=24, E=48, V=16, χ=-8`.
    pub fn summary(&self) -> (r: String)
        requires
            self@.faces.len() + self@.edges.len() + self@.vertices.len() <= i64::MAX,
        ensures
            r@ == topology_text(
                self@.faces.len() as int,
                self@.edges.len() as int,
                self@.vertices.len() as int,
            ),
    {
        let mut out: Vec<char> = Vec::new();
        out.push('F');
        out.push('=');
        append_chars(&mut out, &int_chars(self.f() as i64));
        out.push(',');
        out.push(' ');
        out.push('E');
        out.push('=');
        append_chars(&mut out, &int_chars(self.e() as i64));
        out.push(',');
        out.push(' ');
        out.push('V');
        out.push('=');
        append_chars(&mut out, &int_chars(self.v() as i64));
        out.push(',');
        out.push(' ');
        out.push('χ');
        out.push('=');
        append_chars(&mut out, &int_chars(self.euler_characteristic()));
        assert(out@ =~= topology_text(
            self@.faces.len() as int,
            self@.edges.len() as int,
            self@.vertices.len() as int,
        ));
        string_of(&out)
    }
}

} // verus!
