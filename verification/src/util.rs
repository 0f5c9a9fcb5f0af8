//! Sorting with comparators that need not be total orders.
use core::cmp::Ordering;
use vstd::prelude::*;

verus! {

/// std's `<[T]>::swap`: exchanges two items (it panics on an index out of bounds).
#[verifier::external_body]
fn swap_items<T>(s: &mut [T], a: usize, b: usize)
    requires
        a < old(s)@.len(),
        b < old(s)@.len(),
    ensures
        final(s)@ == old(s)@.update(a as int, old(s)@[b as int]).update(b as int, old(s)@[a as int]),
{
    s.swap(a, b);
}

/// An index as an integer.
pub open spec fn ix(i: usize) -> int {
    i as int
}

/// Whether the comparator can say that `a` comes after `b`.
pub open spec fn may_follow<T, F: Fn(&T, &T) -> Ordering>(f: F, a: T, b: T) -> bool {
    call_ensures(f, (&a, &b), Ordering::Greater)
}

/// Whether the comparator gives one answer for each pair.
pub open spec fn answers_once<T, F: Fn(&T, &T) -> Ordering>(f: F) -> bool {
    forall|a: &T, b: &T, r1: Ordering, r2: Ordering|
        call_ensures(f, (a, b), r1) && call_ensures(f, (a, b), r2) ==> r1 == r2
}

/// `s` with `x` added at the end and moved back past every item the comparator puts after it.
pub open spec fn insert_back<T, F: Fn(&T, &T) -> Ordering>(f: F, s: Seq<T>, x: T) -> Seq<T>
    decreases s.len(),
{
    if s.len() > 0 && may_follow(f, s.last(), x) {
        insert_back(f, s.drop_last(), x).push(s.last())
    } else {
        s.push(x)
    }
}

/// Insertion sort: each item in turn inserted back into the sorted items before it.
pub open spec fn insertion_sorted<T, F: Fn(&T, &T) -> Ordering>(f: F, s: Seq<T>) -> Seq<T>
    decreases s.len(),
{
    if s.len() == 0 {
        s
    } else {
        insert_back(f, insertion_sorted(f, s.drop_last()), s.last())
    }
}

/// Inserting back from position `j`: the part before `j` is where the search goes on.
proof fn lemma_insert_back_split<T, F: Fn(&T, &T) -> Ordering>(f: F, a: Seq<T>, x: T, j: int)
    requires
        0 <= j <= a.len(),
        forall|k: int| j <= k < a.len() ==> may_follow(f, #[trigger] a[k], x),
    ensures
        insert_back(f, a, x) == insert_back(f, a.take(j), x) + a.skip(j),
    decreases a.len() - j,
{
    if j == a.len() {
        assert(a.take(j) =~= a);
        assert(a.skip(j) =~= Seq::<T>::empty());
        assert(insert_back(f, a.take(j), x) + a.skip(j) =~= insert_back(f, a, x));
    } else {
        let p = a.drop_last();
        assert(may_follow(f, a[a.len() - 1], x));
        lemma_insert_back_split(f, p, x, j);
        assert(p.take(j) =~= a.take(j));
        assert(a.skip(j) =~= p.skip(j).push(a.last()));
        assert(insert_back(f, a, x) == insert_back(f, p, x).push(a.last()));
        assert((insert_back(f, p.take(j), x) + p.skip(j)).push(a.last()) =~= insert_back(
            f,
            a.take(j),
            x,
        ) + a.skip(j));
    }
}

proof fn lemma_insert_back_items<T, F: Fn(&T, &T) -> Ordering>(f: F, s: Seq<T>, x: T)
    ensures
        insert_back(f, s, x).to_multiset() == s.to_multiset().insert(x),
    decreases s.len(),
{
    broadcast use vstd::seq_lib::group_to_multiset_ensures;

    if s.len() > 0 && may_follow(f, s.last(), x) {
        lemma_insert_back_items(f, s.drop_last(), x);
        assert(s.drop_last().push(s.last()) =~= s);
        assert(insert_back(f, s.drop_last(), x).push(s.last()).to_multiset() =~= s.to_multiset().insert(
            x,
        ));
    }
}

/// Sorting keeps the items: the sorted sequence holds each item as often as the input.
pub proof fn lemma_sort_keeps_items<T, F: Fn(&T, &T) -> Ordering>(f: F, s: Seq<T>)
    ensures
        insertion_sorted(f, s).to_multiset() == s.to_multiset(),
    decreases s.len(),
{
    broadcast use vstd::seq_lib::group_to_multiset_ensures;

    if s.len() > 0 {
        lemma_sort_keeps_items(f, s.drop_last());
        lemma_insert_back_items(f, insertion_sorted(f, s.drop_last()), s.last());
        assert(s.drop_last().push(s.last()) =~= s);
    } else {
        assert(s.to_multiset() =~= vstd::multiset::Multiset::<T>::empty());
    }
}

/// The comparator is a total preorder: it gives one answer for each pair, never puts each of
/// two items after the other, and "not after" is transitive.
pub open spec fn total_preorder<T, F: Fn(&T, &T) -> Ordering>(f: F) -> bool {
    &&& answers_once(f)
    &&& forall|a: T, b: T| #[trigger] may_follow(f, a, b) ==> !may_follow(f, b, a)
    &&& forall|a: T, b: T, c: T|
        #![trigger may_follow(f, a, b), may_follow(f, b, c)]
        !may_follow(f, a, b) && !may_follow(f, b, c) ==> !may_follow(f, a, c)
}

/// No item is put after the one that follows it.
pub open spec fn sorted_by<T, F: Fn(&T, &T) -> Ordering>(f: F, s: Seq<T>) -> bool {
    forall|i: int| 0 <= i < s.len() - 1 ==> !#[trigger] may_follow(f, s[i], s[i + 1])
}

/// The items the comparator puts neither before nor after `z`.
pub open spec fn equivalent_to<T, F: Fn(&T, &T) -> Ordering>(f: F, z: T) -> spec_fn(T) -> bool {
    |y: T| !may_follow(f, z, y) && !may_follow(f, y, z)
}

/// Inserting back into sorted items keeps them sorted, and ends with the new item or the old
/// last one.
proof fn lemma_insert_back_sorted<T, F: Fn(&T, &T) -> Ordering>(f: F, s: Seq<T>, x: T)
    requires
        total_preorder(f),
        sorted_by(f, s),
    ensures
        sorted_by(f, insert_back(f, s, x)),
        insert_back(f, s, x).len() == s.len() + 1,
        insert_back(f, s, x).last() == x || (s.len() > 0 && insert_back(f, s, x).last() == s.last()),
    decreases s.len(),
{
    if s.len() > 0 && may_follow(f, s.last(), x) {
        let p = s.drop_last();
        assert(sorted_by(f, p)) by {
            assert forall|i: int| 0 <= i < p.len() - 1 implies !#[trigger] may_follow(f, p[i], p[i + 1]) by {
                assert(!may_follow(f, s[i], s[i + 1]));
            }
        }
        lemma_insert_back_sorted(f, p, x);
        let r1 = insert_back(f, p, x);
        let r = r1.push(s.last());
        if r1.last() == x {
            assert(!may_follow(f, x, s.last()));
        } else {
            let i = s.len() - 2;
            assert(p.len() > 0 && r1.last() == p.last() && p.last() == s[i]);
            assert(!may_follow(f, s[i], s[i + 1]));
            assert(s[i + 1] == s.last());
        }
        assert forall|i: int| 0 <= i < r.len() - 1 implies !#[trigger] may_follow(f, r[i], r[i + 1]) by {
            if i < r1.len() - 1 {
                assert(r[i] == r1[i] && r[i + 1] == r1[i + 1]);
            }
        }
    } else {
        let r = s.push(x);
        assert forall|i: int| 0 <= i < r.len() - 1 implies !#[trigger] may_follow(f, r[i], r[i + 1]) by {
            if i < s.len() - 1 {
                assert(r[i] == s[i] && r[i + 1] == s[i + 1]);
            }
        }
    }
}

/// Inserting back keeps the order of the items equivalent to any `z`: the new item, if it is
/// one of them, comes last among them.
proof fn lemma_insert_back_stable<T, F: Fn(&T, &T) -> Ordering>(f: F, s: Seq<T>, x: T, z: T)
    requires
        total_preorder(f),
    ensures
        insert_back(f, s, x).filter(equivalent_to(f, z)) == if equivalent_to(f, z)(x) {
            s.filter(equivalent_to(f, z)).push(x)
        } else {
            s.filter(equivalent_to(f, z))
        },
    decreases s.len(),
{
    broadcast use Seq::lemma_filter_push;

    let eq = equivalent_to(f, z);
    if s.len() > 0 && may_follow(f, s.last(), x) {
        let p = s.drop_last();
        lemma_insert_back_stable(f, p, x, z);
        assert(p.push(s.last()) =~= s);
        if eq(x) && eq(s.last()) {
            assert(!may_follow(f, s.last(), z) && !may_follow(f, z, x));
            assert(!may_follow(f, s.last(), x));
        }
    } else {
    }
}

/// Insertion sort with a total preorder puts every item before those that follow it, and keeps
/// equivalent items in the order they came in (it is stable).
pub proof fn lemma_sort_orders_stably<T, F: Fn(&T, &T) -> Ordering>(f: F, s: Seq<T>)
    requires
        total_preorder(f),
    ensures
        sorted_by(f, insertion_sorted(f, s)),
        forall|z: T|
            #[trigger] insertion_sorted(f, s).filter(equivalent_to(f, z)) == s.filter(
                equivalent_to(f, z),
            ),
    decreases s.len(),
{
    broadcast use Seq::lemma_filter_push;

    if s.len() > 0 {
        let p = s.drop_last();
        lemma_sort_orders_stably(f, p);
        lemma_insert_back_sorted(f, insertion_sorted(f, p), s.last());
        assert(p.push(s.last()) =~= s);
        assert forall|z: T| #[trigger] insertion_sorted(f, s).filter(equivalent_to(f, z)) == s.filter(
            equivalent_to(f, z),
        ) by {
            lemma_insert_back_stable(f, insertion_sorted(f, p), s.last(), z);
            assert(insertion_sorted(f, p).filter(equivalent_to(f, z)) == p.filter(equivalent_to(f, z)));
        }
    } else {
        assert forall|z: T| #[trigger] insertion_sorted(f, s).filter(equivalent_to(f, z)) == s.filter(
            equivalent_to(f, z),
        ) by {}
    }
}

/// Exchanging two items keeps the items.
proof fn lemma_swap_keeps_items<T>(s: Seq<T>, a: int, b: int)
    requires
        0 <= a < s.len(),
        0 <= b < s.len(),
        a != b,
    ensures
        s.update(a, s[b]).update(b, s[a]).to_multiset() == s.to_multiset(),
{
    broadcast use vstd::seq_lib::to_multiset_update;
    broadcast use vstd::multiset::group_multiset_properties;
    broadcast use vstd::multiset::group_multiset_axioms;

    let s1 = s.update(a, s[b]);
    assert(s1[b] == s[b]);
    assert(s1.to_multiset() == s.to_multiset().insert(s[b]).remove(s[a]));
    assert(s1.update(b, s[a]).to_multiset() == s1.to_multiset().insert(s[a]).remove(s[b]));
    let m = s.to_multiset();
    assert(s.contains(s[a]) && s.contains(s[b]));
    assert(m.count(s[a]) > 0 && m.count(s[b]) > 0) by {
        broadcast use vstd::seq_lib::to_multiset_contains;
    }
    assert(m.insert(s[b]).remove(s[a]).insert(s[a]).remove(s[b]) =~= m);
}

fn is_greater(o: Ordering) -> (r: bool)
    ensures
        r == (o == Ordering::Greater),
{
    match o {
        Ordering::Greater => true,
        _ => false,
    }
}

/// A stable sort that tolerates comparators which aren't total orders (e.g. tolerance-based
/// comparisons), unlike `slice::sort_by`, which may panic on them: an insertion sort.
pub fn stable_sort_by<T, F: Fn(&T, &T) -> Ordering>(v: &mut [T], compare: F)
    requires
        forall|a: &T, b: &T| #[trigger] compare.requires((a, b)),
    ensures
        final(v)@.to_multiset() == old(v)@.to_multiset(),
        answers_once(compare) ==> final(v)@ == insertion_sorted(compare, old(v)@),
        total_preorder(compare) ==> sorted_by(compare, final(v)@),
        total_preorder(compare) ==> forall|z: T|
            #[trigger] final(v)@.filter(equivalent_to(compare, z)) == old(v)@.filter(
                equivalent_to(compare, z),
            ),
{
    let n = v.len();
    let mut i: usize = 1;
    if n == 0 {
        return;
    }
    proof {
        let one = old(v)@.take(1);
        assert(one.drop_last() =~= Seq::<T>::empty());
        assert(insertion_sorted(compare, one.drop_last()) =~= Seq::<T>::empty());
        assert(insert_back(compare, Seq::<T>::empty(), one.last()) =~= Seq::<T>::empty().push(
            one.last(),
        ));
        assert(insertion_sorted(compare, one) =~= one);
        assert(v@ =~= old(v)@.take(1) + old(v)@.skip(1));
    }
    while i < n
        invariant
            1 <= i <= n,
            n == old(v)@.len(),
            v@.len() == n,
            forall|a: &T, b: &T| #[trigger] compare.requires((a, b)),
            v@.to_multiset() == old(v)@.to_multiset(),
            answers_once(compare) ==> v@ == insertion_sorted(compare, old(v)@.take(ix(i))) + old(
                v,
            )@.skip(ix(i)),
        decreases n - i,
    {
        let ghost sorted = insertion_sorted(compare, old(v)@.take(ix(i)));
        let ghost x = old(v)@[ix(i)];
        let ghost rest = old(v)@.skip(i + 1);
        let mut j = i;
        while j > 0 && is_greater(compare(&v[j - 1], &v[j]))
            invariant
                0 <= j <= i < n,
                n == old(v)@.len(),
                v@.len() == n,
                forall|a: &T, b: &T| #[trigger] compare.requires((a, b)),
                v@.to_multiset() == old(v)@.to_multiset(),
                answers_once(compare) ==> sorted.len() == i,
                answers_once(compare) ==> v@ == sorted.take(ix(j)) + seq![x] + sorted.skip(ix(j)) + rest,
                answers_once(compare) ==> forall|k: int|
                    j <= k < i ==> may_follow(compare, #[trigger] sorted[k], x),
            decreases j,
        {
            proof {
                if answers_once(compare) {
                    assert(v@[j - 1] == sorted[j - 1]);
                    assert(v@[ix(j)] == x);
                }
            }
            let ghost before = v@;
            swap_items(v, j - 1, j);
            proof {
                lemma_swap_keeps_items(before, j - 1, ix(j));
            }
            proof {
                if answers_once(compare) {
                    assert(v@ =~= sorted.take(j - 1) + seq![x] + sorted.skip(j - 1) + rest);
                }
            }
            j = j - 1;
        }
        proof {
            if answers_once(compare) {
                let xs = old(v)@.take(i + 1);
                assert(xs.drop_last() =~= old(v)@.take(ix(i)));
                assert(xs.last() == x);
                lemma_insert_back_split(compare, sorted, x, ix(j));
                if j > 0 {
                    assert(!may_follow(compare, sorted[j - 1], x));
                }
                assert(sorted.take(ix(j)).len() == ix(j));
                if j > 0 {
                    assert(sorted.take(ix(j)).last() == sorted[j - 1]);
                }
                assert(insert_back(compare, sorted.take(ix(j)), x) =~= sorted.take(ix(j)).push(x));
                assert(old(v)@.skip(ix(i)) =~= seq![x] + rest);
                assert(v@ =~= insertion_sorted(compare, xs) + old(v)@.skip(i + 1));
            }
        }
        i = i + 1;
    }
    proof {
        if answers_once(compare) {
            assert(old(v)@.take(ix(n)) =~= old(v)@);
            assert(old(v)@.skip(ix(n)) =~= Seq::<T>::empty());
        }
        if total_preorder(compare) {
            lemma_sort_orders_stably(compare, old(v)@);
        }
    }
}

} // verus!
