//! Orders by which items are sorted, and what a sort by such an order guarantees.

use vstd::prelude::*;
use vstd::std_specs::cmp::OrdSpec;

verus! {

/// `le` relates any two values at least one way and is transitive.
pub open spec fn is_total_preorder<T>(le: spec_fn(T, T) -> bool) -> bool {
    &&& forall|a: T, b: T| #![trigger le(a, b)] le(a, b) || le(b, a)
    &&& forall|a: T, b: T, c: T| #[trigger] le(a, b) && #[trigger] le(b, c) ==> le(a, c)
}

/// The items are in order by `le`.
pub open spec fn sorted_by<T>(le: spec_fn(T, T) -> bool, s: Seq<T>) -> bool {
    forall|i: int, j: int| 0 <= i < j < s.len() ==> le(#[trigger] s[i], #[trigger] s[j])
}

/// The items of `s`, taken in the order `p` lists their indices, are in order by `le`.
pub open spec fn perm_sorted<T>(le: spec_fn(T, T) -> bool, s: Seq<T>, p: Seq<usize>) -> bool {
    forall|i: int, j: int| 0 <= i < j < p.len() ==> le(s[#[trigger] p[i] as int], s[#[trigger] p[j] as int])
}

/// Taking the items of `s` in the order `p` keeps the items that `le` ranks alike in the order
/// they had in `s`.
pub open spec fn perm_stable<T>(le: spec_fn(T, T) -> bool, s: Seq<T>, p: Seq<usize>) -> bool {
    forall|i: int, j: int|
        0 <= i < j < p.len() && le(s[#[trigger] p[j] as int], s[#[trigger] p[i] as int]) ==> p[i] < p[j]
}

/// `p` is a stable sort of `s` by `le`, and leaves items that are already in order where they are.
pub open spec fn sorts_stably<T>(le: spec_fn(T, T) -> bool, s: Seq<T>, p: Seq<usize>) -> bool {
    &&& perm_sorted(le, s, p)
    &&& perm_stable(le, s, p)
    &&& sorted_by(le, s) ==> forall|i: int| 0 <= i < p.len() ==> #[trigger] p[i] == i
}

/// The item at index `i`.
pub open spec fn item_at<T>(s: Seq<T>, i: usize) -> T {
    s[i as int]
}

/// Every item that `p` lists before position `pos` may stand before `x`.
pub open spec fn all_before<T>(le: spec_fn(T, T) -> bool, s: Seq<T>, p: Seq<usize>, pos: usize, x: T) -> bool {
    forall|q: int| 0 <= q < pos ==> le(s[#[trigger] p[q] as int], x)
}

/// The item that `p` lists at position `pos` may not stand before `x`.
pub open spec fn not_before<T>(le: spec_fn(T, T) -> bool, s: Seq<T>, p: Seq<usize>, pos: usize, x: T) -> bool {
    pos < p.len() && !le(s[p[pos as int] as int], x)
}

/// One more item that may stand before `x` extends the run of such items.
pub proof fn lemma_all_before_extend<T>(le: spec_fn(T, T) -> bool, s: Seq<T>, p: Seq<usize>, pos: usize, x: T)
    requires
        all_before(le, s, p, pos, x),
        pos < p.len(),
        le(s[p[pos as int] as int], x),
    ensures
        all_before(le, s, p, (pos + 1) as usize, x),
{
    assert forall|q: int| 0 <= q < pos + 1 implies le(s[#[trigger] p[q] as int], x) by {
        if q < pos {
            assert(le(s[p[q] as int], x));
        }
    }
}

/// Inserting item `i` at the first position whose item may not stand before it keeps a stable
/// sort of the items below `i` a stable sort of the items up to `i`.
pub proof fn lemma_insert_in_order<T>(le: spec_fn(T, T) -> bool, s: Seq<T>, p0: Seq<usize>, pos: usize, i: usize)
    requires
        is_total_preorder(le),
        i < s.len(),
        p0.len() == i,
        forall|j: int| 0 <= j < p0.len() ==> #[trigger] p0[j] < i,
        sorts_stably(le, s, p0),
        pos <= p0.len(),
        all_before(le, s, p0, pos, s[i as int]),
        pos == p0.len() || not_before(le, s, p0, pos, s[i as int]),
    ensures
        sorts_stably(le, s, p0.insert(pos as int, i)),
{
    let p1 = p0.insert(pos as int, i);
    let x = s[i as int];
    assert forall|j: int| 0 <= j < p1.len() && j != pos implies #[trigger] p1[j] == p0[if j < pos { j } else { j - 1 }] by {}
    assert(p1[pos as int] == i);
    if pos < p0.len() {
        let y = s[p0[pos as int] as int];
        assert(!le(y, x));
        assert(le(y, x) || le(x, y));
        assert(le(x, y));
        assert forall|b: int| pos <= b < p0.len() implies le(x, s[#[trigger] p0[b] as int]) by {
            if b > pos {
                assert(le(s[p0[pos as int] as int], s[p0[b] as int]));
            }
        }
        assert forall|b: int| pos <= b < p0.len() implies !le(s[#[trigger] p0[b] as int], x) by {
            if b > pos {
                assert(le(s[p0[pos as int] as int], s[p0[b] as int]));
                if le(s[p0[b] as int], x) {
                    assert(le(y, x));
                }
            }
        }
    }
    assert forall|a: int, b: int| 0 <= a < b < p1.len() implies le(s[#[trigger] p1[a] as int], s[#[trigger] p1[b] as int]) by {
        if a != pos && b != pos {
            let a0 = if a < pos { a } else { a - 1 };
            let b0 = if b < pos { b } else { b - 1 };
            assert(p1[a] == p0[a0]);
            assert(p1[b] == p0[b0]);
        } else if b == pos {
            assert(p1[a] == p0[a]);
        } else {
            assert(p1[b] == p0[b - 1]);
        }
    }
    assert forall|a: int, b: int|
        0 <= a < b < p1.len() && le(s[#[trigger] p1[b] as int], s[#[trigger] p1[a] as int]) implies p1[a] < p1[b] by {
        if a != pos && b != pos {
            let a0 = if a < pos { a } else { a - 1 };
            let b0 = if b < pos { b } else { b - 1 };
            assert(p1[a] == p0[a0]);
            assert(p1[b] == p0[b0]);
        } else if b == pos {
            assert(p1[a] == p0[a]);
        } else {
            assert(p1[b] == p0[b - 1]);
        }
    }
    if sorted_by(le, s) {
        assert(forall|j: int| 0 <= j < p0.len() ==> #[trigger] p0[j] == j);
        if pos < p0.len() {
            assert(p0[pos as int] == pos);
            assert(le(s[pos as int], s[i as int]));
        }
        assert forall|j: int| 0 <= j < p1.len() implies #[trigger] p1[j] == j by {
            if j < pos {
                assert(p1[j] == p0[j]);
            }
        }
    }
    assert(perm_sorted(le, s, p1));
    assert(perm_stable(le, s, p1));
}

/// Items taken in an order that `le` sorts are in order by `le`.
pub proof fn lemma_perm_sorted_items<T>(le: spec_fn(T, T) -> bool, s: Seq<T>, p: Seq<usize>)
    requires
        perm_sorted(le, s, p),
    ensures
        sorted_by(le, Seq::new(p.len(), |i: int| s[p[i] as int])),
{
    let t = Seq::new(p.len(), |i: int| s[p[i] as int]);
    assert forall|i: int, j: int| 0 <= i < j < t.len() implies le(#[trigger] t[i], #[trigger] t[j]) by {
        assert(le(s[p[i] as int], s[p[j] as int]));
    }
}

/// Whatever `compare` returns for two values is `Greater` exactly when `le` does not let the
/// first stand before the second.
pub open spec fn compare_agrees<T, F: Fn(&T, &T) -> std::cmp::Ordering>(compare: F, le: spec_fn(T, T) -> bool) -> bool {
    forall|a: &T, b: &T, o: std::cmp::Ordering|
        #[trigger] compare.ensures((a, b), o) ==> (o != std::cmp::Ordering::Greater <==> le(*a, *b))
}

/// `a` may stand before `b` by `compare`: `compare` never ranks `a` after `b`.
pub open spec fn ranked_by<T, F: Fn(&T, &T) -> std::cmp::Ordering>(compare: F) -> spec_fn(T, T) -> bool {
    |a: T, b: T| forall|o: std::cmp::Ordering| compare.ensures((&a, &b), o) ==> o != std::cmp::Ordering::Greater
}

/// `compare` gives one answer for two values, and ranks all values in a total order.
pub open spec fn orders_totally<T, F: Fn(&T, &T) -> std::cmp::Ordering>(compare: F) -> bool {
    &&& forall|a: &T, b: &T, o1: std::cmp::Ordering, o2: std::cmp::Ordering|
        #[trigger] compare.ensures((a, b), o1) && #[trigger] compare.ensures((a, b), o2) ==> o1 == o2
    &&& is_total_preorder(ranked_by(compare))
}

/// A comparison that gives one answer for two values agrees with the order it ranks them by.
pub proof fn lemma_ranked_by_agrees<T, F: Fn(&T, &T) -> std::cmp::Ordering>(compare: F)
    requires
        orders_totally(compare),
    ensures
        compare_agrees(compare, ranked_by(compare)),
{
    assert forall|a: &T, b: &T, o: std::cmp::Ordering| #[trigger] compare.ensures((a, b), o) implies (o
        != std::cmp::Ordering::Greater <==> ranked_by(compare)(*a, *b)) by {
        if o != std::cmp::Ordering::Greater {
            assert forall|o2: std::cmp::Ordering| compare.ensures((a, b), o2) implies o2 != std::cmp::Ordering::Greater by {
                assert(compare.ensures((a, b), o) && compare.ensures((a, b), o2));
            }
        }
    }
}

/// The natural order of `T`: `a` may stand before `b` unless `a` compares greater.
pub open spec fn natural_le<T: Ord>() -> spec_fn(T, T) -> bool {
    |a: T, b: T| a.cmp_spec(&b) != std::cmp::Ordering::Greater
}

/// `T`'s comparison is specified, and ranks all values in a total order.
pub open spec fn orders_naturally<T: Ord>() -> bool {
    T::obeys_cmp_spec() && is_total_preorder(natural_le::<T>())
}

/// `kf` gives the key that `key` returns for every value.
pub open spec fn key_agrees<T, K, F: Fn(&T) -> K>(key: F, kf: spec_fn(T) -> K) -> bool {
    forall|a: &T, k: K| #[trigger] key.ensures((a,), k) ==> k == kf(*a)
}

/// `a` may stand before `b` when its key, by `kf`, may stand before that of `b`.
pub open spec fn keyed_le<T, K: Ord>(kf: spec_fn(T) -> K) -> spec_fn(T, T) -> bool {
    |a: T, b: T| natural_le::<K>()(kf(a), kf(b))
}

/// Ordering values by a total order of their keys is a total preorder.
pub proof fn lemma_keyed_total<T, K: Ord>(kf: spec_fn(T) -> K)
    requires
        is_total_preorder(natural_le::<K>()),
    ensures
        is_total_preorder(keyed_le::<T, K>(kf)),
{
    let le = keyed_le::<T, K>(kf);
    let nl = natural_le::<K>();
    assert forall|a: T, b: T| #![trigger le(a, b)] le(a, b) || le(b, a) by {
        assert(nl(kf(a), kf(b)) || nl(kf(b), kf(a)));
    }
    assert forall|a: T, b: T, c: T| #[trigger] le(a, b) && #[trigger] le(b, c) implies le(a, c) by {
        assert(nl(kf(a), kf(b)) && nl(kf(b), kf(c)));
    }
}

} // verus!
