//! Bisection of sorted slices: the leftmost or rightmost index at which a
//! value can be inserted while keeping the slice sorted.
//!
//! Each direction comes in three forms: by the elements' own order, by a key
//! drawn from each element, and by a comparator that tells for each element
//! whether it is `Less`, `Equal` or `Greater` than the target.
use vstd::laws_cmp::{obeys_cmp, obeys_cmp_ord};
use vstd::prelude::*;
use vstd::std_specs::cmp::OrdSpec;
use core::cmp::Ordering;

pub mod laws;
pub mod order;
mod probe;

use crate::order::{
    accepts_all, goes_before, is_left_point, is_left_point_by_key, is_right_point,
    is_right_point_by_key, is_split_by, codes_split_closed, lemma_cmp_monotone, right_fits,
    right_fits_by, right_fits_by_key, seen_split_by, seen_split_by_key, sorted, sorted_by_key,
};
use crate::probe::{bisect_with, seen_around, split_closed, splits, ByFn, ByKey, ByValue, Probe};

verus! {

/// Rightmost index at which `x` can be inserted into the sorted slice `a`:
/// everything before it is at most `x`, everything from it on is greater.
/// On a slice that is not sorted the index is still in bounds.
pub fn bisect_right<T: Ord>(a: &[T], x: &T) -> (r: usize)
    requires
        right_fits(a@, *x),
    ensures
        r <= a@.len(),
        obeys_cmp::<T>() && sorted(a@) ==> is_right_point(a@, *x, r as int),
{
    let p = ByValue { target: x };
    proof {
        if obeys_cmp::<T>() && sorted(a@) {
            lemma_by_value_probe(a@, x, p, true);
        }
    }
    let r = bisect_with(a, &p, true);
    proof {
        if obeys_cmp::<T>() && sorted(a@) {
            assert forall|k: int| 0 <= k < r implies #[trigger] a@[k].cmp_spec(x)
                != Ordering::Greater by {
                assert(p.gives(a@[k], a@[k].cmp_spec(x)));
            }
            assert forall|k: int| r <= k < a@.len() implies #[trigger] a@[k].cmp_spec(x)
                == Ordering::Greater by {
                assert(p.gives(a@[k], a@[k].cmp_spec(x)));
            }
        }
    }
    r
}

/// Leftmost index at which `x` can be inserted into the sorted slice `a`:
/// everything before it is less than `x`, everything from it on is at least
/// `x`. On a slice that is not sorted the index is still in bounds.
pub fn bisect_left<T: Ord>(a: &[T], x: &T) -> (r: usize)
    ensures
        r <= a@.len(),
        obeys_cmp::<T>() && sorted(a@) ==> is_left_point(a@, *x, r as int),
{
    let p = ByValue { target: x };
    proof {
        if obeys_cmp::<T>() && sorted(a@) {
            lemma_by_value_probe(a@, x, p, false);
        }
    }
    let r = bisect_with(a, &p, false);
    proof {
        if obeys_cmp::<T>() && sorted(a@) {
            assert forall|k: int| 0 <= k < r implies #[trigger] a@[k].cmp_spec(x)
                == Ordering::Less by {
                assert(p.gives(a@[k], a@[k].cmp_spec(x)));
            }
            assert forall|k: int| r <= k < a@.len() implies #[trigger] a@[k].cmp_spec(x)
                != Ordering::Less by {
                assert(p.gives(a@[k], a@[k].cmp_spec(x)));
            }
        }
    }
    r
}

/// A sorted slice can be searched by comparing its elements with the target.
proof fn lemma_by_value_probe<'a, T: Ord>(
    s: Seq<T>,
    x: &'a T,
    p: ByValue<'a, T>,
    pass_equal: bool,
)
    requires
        obeys_cmp::<T>(),
        sorted(s),
        p.target == x,
    ensures
        split_closed(p, s, pass_equal),
{
    reveal(obeys_cmp_ord);
    assert forall|i: int, j: int, oi: Ordering, oj: Ordering|
        0 <= i <= j < s.len() && #[trigger] p.gives(s[i], oi) && #[trigger] p.gives(s[j], oj)
            && !goes_before(oi, pass_equal) implies !goes_before(oj, pass_equal) by {
        lemma_cmp_monotone(s[i], s[j], *x);
    }
}

/// Rightmost index at which the key `b` can be inserted into `a`, a slice
/// sorted by the key that `f` draws from each element: every key before it is
/// at most `b`, every key from it on is greater. Whether sorted or not, `f`
/// gave a key at most `b` for the element before the index and a key greater
/// than `b` for the element at it.
pub fn bisect_right_by_key<T: Ord, B: Ord, F: Fn(&T) -> B>(a: &[T], b: &B, f: F) -> (r: usize)
    requires
        accepts_all(a@, f),
        right_fits_by_key(a@, *b, f),
    ensures
        r <= a@.len(),
        obeys_cmp::<B>() ==> seen_split_by_key(a@, *b, f, true, r as int),
        obeys_cmp::<B>() && sorted_by_key(a@, f) ==> is_right_point_by_key(
            a@,
            *b,
            f,
            r as int,
        ),
{
    let p = ByKey { target: b, key_of: f };
    proof {
        if obeys_cmp::<B>() && sorted_by_key(a@, f) {
            lemma_by_key_probe(a@, b, f, p, true);
        }
    }
    let r = bisect_with(a, &p, true);
    proof {
        if obeys_cmp::<B>() {
            lemma_by_key_seen(a@, b, f, p, true, r as int);
        }
        if obeys_cmp::<B>() && sorted_by_key(a@, f) {
            reveal(obeys_cmp_ord);
            assert forall|k: int, key: B|
                0 <= k < r && #[trigger] f.ensures((&a@[k],), key) implies key.cmp_spec(b)
                != Ordering::Greater by {
                assert(p.key_of.ensures((&a@[k],), key));
                assert(p.gives(a@[k], key.cmp_spec(b)));
            }
            assert forall|k: int, key: B|
                r <= k < a@.len() && #[trigger] f.ensures((&a@[k],), key) implies key.cmp_spec(b)
                == Ordering::Greater by {
                assert(p.key_of.ensures((&a@[k],), key));
                assert(p.gives(a@[k], key.cmp_spec(b)));
            }
        }
    }
    r
}

/// Leftmost index at which the key `b` can be inserted into `a`, a slice
/// sorted by the key that `f` draws from each element: every key before it is
/// less than `b`, every key from it on is at least `b`. Whether sorted or not,
/// `f` gave a key less than `b` for the element before the index and a key at
/// least `b` for the element at it.
pub fn bisect_left_by_key<T: Ord, B: Ord, F: Fn(&T) -> B>(a: &[T], b: &B, f: F) -> (r: usize)
    requires
        accepts_all(a@, f),
    ensures
        r <= a@.len(),
        obeys_cmp::<B>() ==> seen_split_by_key(a@, *b, f, false, r as int),
        obeys_cmp::<B>() && sorted_by_key(a@, f) ==> is_left_point_by_key(
            a@,
            *b,
            f,
            r as int,
        ),
{
    let p = ByKey { target: b, key_of: f };
    proof {
        if obeys_cmp::<B>() && sorted_by_key(a@, f) {
            lemma_by_key_probe(a@, b, f, p, false);
        }
    }
    let r = bisect_with(a, &p, false);
    proof {
        if obeys_cmp::<B>() {
            lemma_by_key_seen(a@, b, f, p, false, r as int);
        }
        if obeys_cmp::<B>() && sorted_by_key(a@, f) {
            reveal(obeys_cmp_ord);
            assert forall|k: int, key: B|
                0 <= k < r && #[trigger] f.ensures((&a@[k],), key) implies key.cmp_spec(b)
                == Ordering::Less by {
                assert(p.key_of.ensures((&a@[k],), key));
                assert(p.gives(a@[k], key.cmp_spec(b)));
            }
            assert forall|k: int, key: B|
                r <= k < a@.len() && #[trigger] f.ensures((&a@[k],), key) implies key.cmp_spec(b)
                != Ordering::Less by {
                assert(p.key_of.ensures((&a@[k],), key));
                assert(p.gives(a@[k], key.cmp_spec(b)));
            }
        }
    }
    r
}

/// A slice sorted by key can be searched by comparing its keys with the
/// target key.
proof fn lemma_by_key_probe<'a, T, B: Ord, F: Fn(&T) -> B>(
    s: Seq<T>,
    b: &'a B,
    f: F,
    p: ByKey<'a, B, F>,
    pass_equal: bool,
)
    requires
        obeys_cmp::<B>(),
        sorted_by_key(s, f),
        p.target == b,
        p.key_of == f,
    ensures
        split_closed(p, s, pass_equal),
{
    reveal(obeys_cmp_ord);
    assert forall|i: int, j: int, oi: Ordering, oj: Ordering|
        0 <= i <= j < s.len() && #[trigger] p.gives(s[i], oi) && #[trigger] p.gives(s[j], oj)
            && !goes_before(oi, pass_equal) implies !goes_before(oj, pass_equal) by {
        let ki = choose|k: B|
            #[trigger] f.ensures((&s[i],), k) && (B::obeys_cmp_spec() ==> oi == k.cmp_spec(b));
        let kj = choose|k: B|
            #[trigger] f.ensures((&s[j],), k) && (B::obeys_cmp_spec() ==> oj == k.cmp_spec(b));
        lemma_cmp_monotone(ki, kj, *b);
    }
}

/// The codes that the key probe gave around the split come from keys that
/// `f` gave.
proof fn lemma_by_key_seen<'a, T, B: Ord, F: Fn(&T) -> B>(
    s: Seq<T>,
    b: &'a B,
    f: F,
    p: ByKey<'a, B, F>,
    pass_equal: bool,
    r: int,
)
    requires
        obeys_cmp::<B>(),
        p.target == b,
        p.key_of == f,
        seen_around(p, s, pass_equal, r),
        0 <= r <= s.len(),
    ensures
        seen_split_by_key(s, *b, f, pass_equal, r),
{
    reveal(obeys_cmp_ord);
    if r > 0 {
        let o = choose|o: Ordering| #[trigger] p.gives(s[r - 1], o) && goes_before(o, pass_equal);
        let k = choose|k: B|
            #[trigger] f.ensures((&s[r - 1],), k) && (B::obeys_cmp_spec() ==> o == k.cmp_spec(b));
        assert(goes_before(k.cmp_spec(b), pass_equal));
    }
    if r < s.len() {
        let o = choose|o: Ordering| #[trigger] p.gives(s[r], o) && !goes_before(o, pass_equal);
        let k = choose|k: B|
            #[trigger] f.ensures((&s[r],), k) && (B::obeys_cmp_spec() ==> o == k.cmp_spec(b));
        assert(!goes_before(k.cmp_spec(b), pass_equal));
    }
}

/// Rightmost index at which the target of the comparator `f` can be inserted
/// into `a`. The comparator gave `Less` or `Equal` for the element before it
/// and `Greater` for the element at it. Where the `Greater` codes come last,
/// every element before it compares `Less` or `Equal` and every element from
/// it on compares `Greater`. Otherwise the index is still in bounds.
pub fn bisect_right_by<T: Ord, F: Fn(&T) -> Ordering>(a: &[T], f: F) -> (r: usize)
    requires
        accepts_all(a@, f),
        right_fits_by(a@, f),
    ensures
        r <= a@.len(),
        seen_split_by(a@, f, true, r as int),
        codes_split_closed(a@, f, true) ==> is_split_by(a@, f, true, r as int),
{
    let p = ByFn { compare: f };
    let r = bisect_with(a, &p, true);
    proof {
        lemma_by_fn_split(a@, f, p, true, r as int);
    }
    r
}

/// Leftmost index at which the target of the comparator `f` can be inserted
/// into `a`. The comparator gave `Less` for the element before it and `Equal`
/// or `Greater` for the element at it. Where the `Less` codes come first,
/// every element before it compares `Less` and every element from it on
/// compares `Equal` or `Greater`. Otherwise the index is still in bounds.
pub fn bisect_left_by<T: Ord, F: Fn(&T) -> Ordering>(a: &[T], f: F) -> (r: usize)
    requires
        accepts_all(a@, f),
    ensures
        r <= a@.len(),
        seen_split_by(a@, f, false, r as int),
        codes_split_closed(a@, f, false) ==> is_split_by(a@, f, false, r as int),
{
    let p = ByFn { compare: f };
    let r = bisect_with(a, &p, false);
    proof {
        lemma_by_fn_split(a@, f, p, false, r as int);
    }
    r
}

/// Searching with a comparator closure is searching with its codes.
proof fn lemma_by_fn_split<F: Fn(&T) -> Ordering, T>(
    s: Seq<T>,
    f: F,
    p: ByFn<F>,
    pass_equal: bool,
    r: int,
)
    requires
        p.compare == f,
        seen_around(p, s, pass_equal, r),
        split_closed(p, s, pass_equal) ==> splits(p, s, pass_equal, r),
        0 <= r <= s.len(),
    ensures
        seen_split_by(s, f, pass_equal, r),
        codes_split_closed(s, f, pass_equal) ==> is_split_by(s, f, pass_equal, r),
{
    if r > 0 {
        let o = choose|o: Ordering| #[trigger] p.gives(s[r - 1], o) && goes_before(o, pass_equal);
        assert(f.ensures((&s[r - 1],), o));
    }
    if r < s.len() {
        let o = choose|o: Ordering| #[trigger] p.gives(s[r], o) && !goes_before(o, pass_equal);
        assert(f.ensures((&s[r],), o));
    }
    if codes_split_closed(s, f, pass_equal) {
        assert forall|i: int, j: int, oi: Ordering, oj: Ordering|
            0 <= i <= j < s.len() && #[trigger] p.gives(s[i], oi) && #[trigger] p.gives(s[j], oj)
                && !goes_before(oi, pass_equal) implies !goes_before(oj, pass_equal) by {
            assert(f.ensures((&s[i],), oi) && f.ensures((&s[j],), oj));
        }
        assert forall|k: int, o: Ordering|
            0 <= k < r && #[trigger] f.ensures((&s[k],), o) implies goes_before(o, pass_equal) by {
            assert(p.gives(s[k], o));
        }
        assert forall|k: int, o: Ordering|
            r <= k < s.len() && #[trigger] f.ensures((&s[k],), o) implies !goes_before(
                o,
                pass_equal,
            ) by {
            assert(p.gives(s[k], o));
        }
    }
}

} // verus!
