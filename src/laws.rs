use vstd::laws_cmp::obeys_cmp;
use vstd::prelude::*;
use vstd::std_specs::cmp::OrdSpec;
use core::cmp::Ordering;

use crate::order::{
    equivalent, is_left_point, is_left_point_by_key, is_right_point, is_right_point_by_key,
    lemma_cmp_monotone, lemma_cmp_reflexive, lemma_cmp_reverse, le, present, sorted, sorted_by_key,
};

verus! {

/// Each insertion point is unique: an index that meets the description of the
/// leftmost (or rightmost) point is the only one that does.
pub proof fn lemma_points_unique<T: Ord>(s: Seq<T>, x: T, i: int, j: int)
    ensures
        is_left_point(s, x, i) && is_left_point(s, x, j) ==> i == j,
        is_right_point(s, x, i) && is_right_point(s, x, j) ==> i == j,
{
    if i < j && 0 <= i < s.len() {
        let _ = s[i].cmp_spec(&x);
    }
    if j < i && 0 <= j < s.len() {
        let _ = s[j].cmp_spec(&x);
    }
}

/// The leftmost insertion point of a value never lies after its rightmost one.
pub proof fn lemma_left_not_after_right<T: Ord>(s: Seq<T>, x: T, l: int, r: int)
    requires
        obeys_cmp::<T>(),
        sorted(s),
        is_left_point(s, x, l),
        is_right_point(s, x, r),
    ensures
        l <= r,
{
    if r < l {
        assert(s[r].cmp_spec(&x) == Ordering::Less);
    }
}

/// A value that no element equals has a single insertion point.
pub proof fn lemma_absent_single_point<T: Ord>(s: Seq<T>, x: T, l: int, r: int)
    requires
        obeys_cmp::<T>(),
        sorted(s),
        !present(s, x),
        is_left_point(s, x, l),
        is_right_point(s, x, r),
    ensures
        l == r,
{
    lemma_left_not_after_right(s, x, l, r);
    if l < r {
        assert(equivalent(s[l], x));
    }
}

/// The two insertion points cut a sorted sequence in three: the elements
/// before the leftmost one are less than the value, those from the rightmost
/// one on are greater, and those in between equal it.
pub proof fn lemma_three_runs<T: Ord>(s: Seq<T>, x: T, l: int, r: int)
    requires
        obeys_cmp::<T>(),
        sorted(s),
        is_left_point(s, x, l),
        is_right_point(s, x, r),
    ensures
        forall|k: int| 0 <= k < l ==> #[trigger] s[k].cmp_spec(&x) == Ordering::Less,
        forall|k: int| r <= k < s.len() ==> #[trigger] s[k].cmp_spec(&x) == Ordering::Greater,
        forall|k: int| l <= k < r ==> equivalent(#[trigger] s[k], x),
{
    lemma_left_not_after_right(s, x, l, r);
}

/// Inserting a value at its rightmost insertion point keeps the sequence
/// sorted, and the rightmost point of the value in the new sequence is just
/// after the inserted copy.
pub proof fn lemma_insert_at_right_point<T: Ord>(s: Seq<T>, x: T, r: int)
    requires
        obeys_cmp::<T>(),
        sorted(s),
        is_right_point(s, x, r),
    ensures
        s.insert(r, x)[r] == x,
        sorted(s.insert(r, x)),
        is_right_point(s.insert(r, x), x, r + 1),
{
    let t = s.insert(r, x);
    lemma_cmp_reflexive(x);
    assert forall|i: int, j: int| 0 <= i <= j < t.len() implies le(#[trigger] t[i], #[trigger] t[j]) by {
        if j == r && i < r {
            assert(t[i] == s[i]);
        } else if i == r && j > r {
            assert(t[j] == s[j - 1]);
            lemma_cmp_reverse(s[j - 1], x);
        } else if i < r && j > r {
            assert(t[i] == s[i] && t[j] == s[j - 1]);
        } else if i > r {
            assert(t[i] == s[i - 1] && t[j] == s[j - 1]);
        } else if j < r {
            assert(t[i] == s[i] && t[j] == s[j]);
        }
    }
    assert forall|k: int| 0 <= k < r + 1 implies #[trigger] t[k].cmp_spec(&x)
        != Ordering::Greater by {
        if k < r {
            assert(t[k] == s[k]);
        }
    }
    assert forall|k: int| r + 1 <= k < t.len() implies #[trigger] t[k].cmp_spec(&x)
        == Ordering::Greater by {
        assert(t[k] == s[k - 1]);
    }
}

/// Inserting a value at its leftmost insertion point keeps the sequence
/// sorted, and the leftmost point of the value in the new sequence is where
/// the copy was inserted.
pub proof fn lemma_insert_at_left_point<T: Ord>(s: Seq<T>, x: T, l: int)
    requires
        obeys_cmp::<T>(),
        sorted(s),
        is_left_point(s, x, l),
    ensures
        s.insert(l, x)[l] == x,
        sorted(s.insert(l, x)),
        is_left_point(s.insert(l, x), x, l),
{
    let t = s.insert(l, x);
    lemma_cmp_reflexive(x);
    assert forall|i: int, j: int| 0 <= i <= j < t.len() implies le(#[trigger] t[i], #[trigger] t[j]) by {
        if j == l && i < l {
            assert(t[i] == s[i]);
        } else if i == l && j > l {
            assert(t[j] == s[j - 1]);
            lemma_cmp_reverse(s[j - 1], x);
        } else if i < l && j > l {
            assert(t[i] == s[i] && t[j] == s[j - 1]);
        } else if i > l {
            assert(t[i] == s[i - 1] && t[j] == s[j - 1]);
        } else if j < l {
            assert(t[i] == s[i] && t[j] == s[j]);
        }
    }
    assert forall|k: int| 0 <= k < l implies #[trigger] t[k].cmp_spec(&x) == Ordering::Less by {
        assert(t[k] == s[k]);
    }
    assert forall|k: int| l <= k < t.len() implies #[trigger] t[k].cmp_spec(&x)
        != Ordering::Less by {
        if k > l {
            assert(t[k] == s[k - 1]);
        }
    }
}

/// Two keys that `f` may give for one element of a sequence sorted by key
/// compare alike with any key.
proof fn lemma_keys_alike<T, B: Ord, F: Fn(&T) -> B>(s: Seq<T>, f: F, k: int, k1: B, k2: B, b: B)
    requires
        obeys_cmp::<B>(),
        sorted_by_key(s, f),
        0 <= k < s.len(),
        f.ensures((&s[k],), k1),
        f.ensures((&s[k],), k2),
    ensures
        k1.cmp_spec(&b) == k2.cmp_spec(&b),
{
    assert(le(k1, k2));
    assert(le(k2, k1));
    lemma_cmp_monotone(k1, k2, b);
    lemma_cmp_monotone(k2, k1, b);
}

/// Bisecting by key gives the same indices as bisecting the sequence of the
/// keys themselves, which is sorted.
pub proof fn lemma_by_key_as_keys<T, B: Ord, F: Fn(&T) -> B>(
    s: Seq<T>,
    keys: Seq<B>,
    f: F,
    b: B,
    i: int,
    j: int,
)
    requires
        obeys_cmp::<B>(),
        sorted_by_key(s, f),
        keys.len() == s.len(),
        forall|k: int| 0 <= k < s.len() ==> f.ensures((&s[k],), #[trigger] keys[k]),
    ensures
        sorted(keys),
        is_left_point_by_key(s, b, f, i) && is_left_point(keys, b, j) ==> i == j,
        is_right_point_by_key(s, b, f, i) && is_right_point(keys, b, j) ==> i == j,
{
    assert forall|k: int, key: B|
        0 <= k < s.len() && #[trigger] f.ensures((&s[k],), key) implies key.cmp_spec(&b)
        == keys[k].cmp_spec(&b) by {
        lemma_keys_alike(s, f, k, key, keys[k], b);
    }
    assert forall|p: int, q: int| 0 <= p <= q < keys.len() implies le(
        #[trigger] keys[p],
        #[trigger] keys[q],
    ) by {
        assert(f.ensures((&s[p],), keys[p]));
        assert(f.ensures((&s[q],), keys[q]));
    }
    if is_left_point_by_key(s, b, f, i) {
        assert(is_left_point(keys, b, i));
    }
    if is_right_point_by_key(s, b, f, i) {
        assert(is_right_point(keys, b, i));
    }
    lemma_points_unique(keys, b, i, j);
}

} // verus!
