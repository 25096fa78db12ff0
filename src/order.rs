use vstd::laws_cmp::*;
use vstd::laws_eq::*;
use vstd::prelude::*;
use vstd::std_specs::cmp::{OrdSpec, PartialOrdSpec};
use core::cmp::Ordering;

verus! {

/// Position of an ordering code on the line `Less < Equal < Greater`.
pub open spec fn rank(o: Ordering) -> int {
    match o {
        Ordering::Less => -1,
        Ordering::Equal => 0,
        Ordering::Greater => 1,
    }
}

/// `a` is ordered no later than `b`.
pub open spec fn le<K: Ord>(a: K, b: K) -> bool {
    a.cmp_spec(&b) != Ordering::Greater
}

/// Every element is ordered no later than any element after it.
pub open spec fn sorted<T: Ord>(s: Seq<T>) -> bool {
    forall|i: int, j: int| 0 <= i <= j < s.len() ==> le(#[trigger] s[i], #[trigger] s[j])
}

/// `a` and `b` are ordered as equals.
pub open spec fn equivalent<K: Ord>(a: K, b: K) -> bool {
    a.cmp_spec(&b) == Ordering::Equal
}

/// Some element of `s` is ordered as an equal of `x`.
pub open spec fn present<T: Ord>(s: Seq<T>, x: T) -> bool {
    exists|k: int| 0 <= k < s.len() && equivalent(#[trigger] s[k], x)
}

/// `i` is the leftmost insertion point of `x` in `s`: everything before it is
/// strictly less than `x`, nothing from it on is.
pub open spec fn is_left_point<T: Ord>(s: Seq<T>, x: T, i: int) -> bool {
    &&& 0 <= i <= s.len()
    &&& forall|k: int| 0 <= k < i ==> #[trigger] s[k].cmp_spec(&x) == Ordering::Less
    &&& forall|k: int| i <= k < s.len() ==> #[trigger] s[k].cmp_spec(&x) != Ordering::Less
}

/// `i` is the rightmost insertion point of `x` in `s`: nothing before it is
/// greater than `x`, everything from it on is.
pub open spec fn is_right_point<T: Ord>(s: Seq<T>, x: T, i: int) -> bool {
    &&& 0 <= i <= s.len()
    &&& forall|k: int| 0 <= k < i ==> #[trigger] s[k].cmp_spec(&x) != Ordering::Greater
    &&& forall|k: int| i <= k < s.len() ==> #[trigger] s[k].cmp_spec(&x) == Ordering::Greater
}

/// Right bisection for `x` is defined on `s`: unless `s` has the largest
/// length a slice can have and its last element is at most `x`, where the
/// point past that element counts as an overflow of the index.
pub open spec fn right_fits<T: Ord>(s: Seq<T>, x: T) -> bool {
    s.len() == usize::MAX ==> s[s.len() - 1].cmp_spec(&x) == Ordering::Greater
}

/// The keys that `f` gives along `s` are sorted.
pub open spec fn sorted_by_key<T, B: Ord, F: Fn(&T) -> B>(s: Seq<T>, f: F) -> bool {
    forall|i: int, j: int, ki: B, kj: B|
        0 <= i <= j < s.len() && #[trigger] f.ensures((&s[i],), ki) && #[trigger] f.ensures(
            (&s[j],),
            kj,
        ) ==> le(ki, kj)
}

/// `i` is the leftmost insertion point of the key `b` among the keys that `f`
/// gives along `s`.
pub open spec fn is_left_point_by_key<T, B: Ord, F: Fn(&T) -> B>(
    s: Seq<T>,
    b: B,
    f: F,
    i: int,
) -> bool {
    &&& 0 <= i <= s.len()
    &&& forall|k: int, key: B|
        0 <= k < i && #[trigger] f.ensures((&s[k],), key) ==> key.cmp_spec(&b) == Ordering::Less
    &&& forall|k: int, key: B|
        i <= k < s.len() && #[trigger] f.ensures((&s[k],), key) ==> key.cmp_spec(&b)
            != Ordering::Less
}

/// `i` is the rightmost insertion point of the key `b` among the keys that
/// `f` gives along `s`.
pub open spec fn is_right_point_by_key<T, B: Ord, F: Fn(&T) -> B>(
    s: Seq<T>,
    b: B,
    f: F,
    i: int,
) -> bool {
    &&& 0 <= i <= s.len()
    &&& forall|k: int, key: B|
        0 <= k < i && #[trigger] f.ensures((&s[k],), key) ==> key.cmp_spec(&b)
            != Ordering::Greater
    &&& forall|k: int, key: B|
        i <= k < s.len() && #[trigger] f.ensures((&s[k],), key) ==> key.cmp_spec(&b)
            == Ordering::Greater
}

/// Right bisection by key for `b` is defined on `s`: unless `s` has the
/// largest length a slice can have and its last key is at most `b`, where the
/// point past that element counts as an overflow of the index.
pub open spec fn right_fits_by_key<T, B: Ord, F: Fn(&T) -> B>(s: Seq<T>, b: B, f: F) -> bool {
    s.len() == usize::MAX ==> forall|key: B|
        #[trigger] f.ensures((&s[s.len() - 1],), key) ==> key.cmp_spec(&b) == Ordering::Greater
}

/// Whether a position whose comparator code is `o` lies before the insertion
/// point: a `Less` one always, an `Equal` one when equals are passed over.
pub open spec fn goes_before(o: Ordering, pass_equal: bool) -> bool {
    o == Ordering::Less || (pass_equal && o == Ordering::Equal)
}

/// The function `f` accepts every element of `s`.
pub open spec fn accepts_all<T, R, F: Fn(&T) -> R>(s: Seq<T>, f: F) -> bool {
    forall|k: int| 0 <= k < s.len() ==> #[trigger] f.requires((&s[k],))
}

/// The codes that `f` gives along `s` are split as bisection needs: once a
/// code stops going before the insertion point, none further on goes before
/// it again. For right bisection (`pass_equal`) the `Greater` codes come last;
/// for left bisection the `Less` codes come first.
pub open spec fn codes_split_closed<T, F: Fn(&T) -> Ordering>(
    s: Seq<T>,
    f: F,
    pass_equal: bool,
) -> bool {
    forall|i: int, j: int, oi: Ordering, oj: Ordering|
        0 <= i <= j < s.len() && #[trigger] f.ensures((&s[i],), oi) && #[trigger] f.ensures(
            (&s[j],),
            oj,
        ) && !goes_before(oi, pass_equal) ==> !goes_before(oj, pass_equal)
}

/// `i` splits `s` for `f`: every code before it goes before the insertion
/// point, and no code from it on does.
pub open spec fn is_split_by<T, F: Fn(&T) -> Ordering>(
    s: Seq<T>,
    f: F,
    pass_equal: bool,
    i: int,
) -> bool {
    &&& 0 <= i <= s.len()
    &&& forall|k: int, o: Ordering|
        0 <= k < i && #[trigger] f.ensures((&s[k],), o) ==> goes_before(o, pass_equal)
    &&& forall|k: int, o: Ordering|
        i <= k < s.len() && #[trigger] f.ensures((&s[k],), o) ==> !goes_before(o, pass_equal)
}

/// `f` gave, for the element just before `i`, a code that goes before the
/// insertion point, and for the element at `i` one that does not.
pub open spec fn seen_split_by<T, F: Fn(&T) -> Ordering>(
    s: Seq<T>,
    f: F,
    pass_equal: bool,
    i: int,
) -> bool {
    &&& i > 0 ==> exists|o: Ordering|
        #[trigger] f.ensures((&s[i - 1],), o) && goes_before(o, pass_equal)
    &&& i < s.len() ==> exists|o: Ordering|
        #[trigger] f.ensures((&s[i],), o) && !goes_before(o, pass_equal)
}

/// `f` gave, for the element just before `i`, a key whose comparison with `b`
/// goes before the insertion point, and for the element at `i` one whose
/// comparison does not.
pub open spec fn seen_split_by_key<T, B: Ord, F: Fn(&T) -> B>(
    s: Seq<T>,
    b: B,
    f: F,
    pass_equal: bool,
    i: int,
) -> bool {
    &&& i > 0 ==> exists|k: B|
        #[trigger] f.ensures((&s[i - 1],), k) && goes_before(k.cmp_spec(&b), pass_equal)
    &&& i < s.len() ==> exists|k: B|
        #[trigger] f.ensures((&s[i],), k) && !goes_before(k.cmp_spec(&b), pass_equal)
}

/// Right bisection under `f` is defined on `s`: unless `s` has the largest
/// length a slice can have and its last element does not compare `Greater`,
/// where the point past that element counts as an overflow of the index.
pub open spec fn right_fits_by<T, F: Fn(&T) -> Ordering>(s: Seq<T>, f: F) -> bool {
    s.len() == usize::MAX ==> forall|o: Ordering|
        #[trigger] f.ensures((&s[s.len() - 1],), o) ==> o == Ordering::Greater
}

/// Comparing `a` with `b` and `b` with `a` gives mirrored codes.
pub proof fn lemma_cmp_reverse<K: Ord>(a: K, b: K)
    requires
        obeys_cmp::<K>(),
    ensures
        rank(a.cmp_spec(&b)) == -rank(b.cmp_spec(&a)),
{
    reveal(obeys_cmp_ord);
    reveal(obeys_cmp_partial_ord);
    reveal(obeys_partial_cmp_spec_properties);
    reveal(obeys_eq_spec_properties);
    assert(a.partial_cmp_spec(&b) == Some(a.cmp_spec(&b)));
    assert(b.partial_cmp_spec(&a) == Some(b.cmp_spec(&a)));
}

/// Every value is ordered as an equal of itself.
pub proof fn lemma_cmp_reflexive<K: Ord>(a: K)
    requires
        obeys_cmp::<K>(),
    ensures
        a.cmp_spec(&a) == Ordering::Equal,
{
    lemma_cmp_reverse(a, a);
}

/// If `p` is ordered no later than `q`, then `p` compares with any `x` no
/// later than `q` does.
pub proof fn lemma_cmp_monotone<K: Ord>(p: K, q: K, x: K)
    requires
        obeys_cmp::<K>(),
        le(p, q),
    ensures
        rank(p.cmp_spec(&x)) <= rank(q.cmp_spec(&x)),
{
    reveal(obeys_cmp_ord);
    reveal(obeys_cmp_partial_ord);
    reveal(obeys_partial_cmp_spec_properties);
    reveal(obeys_eq_spec_properties);
    assert(p.partial_cmp_spec(&q) == Some(p.cmp_spec(&q)));
    assert(q.partial_cmp_spec(&p) == Some(q.cmp_spec(&p)));
    assert(p.partial_cmp_spec(&x) == Some(p.cmp_spec(&x)));
    assert(x.partial_cmp_spec(&p) == Some(x.cmp_spec(&p)));
    assert(q.partial_cmp_spec(&x) == Some(q.cmp_spec(&x)));
    assert(x.partial_cmp_spec(&q) == Some(x.cmp_spec(&q)));
}

} // verus!
