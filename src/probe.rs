use vstd::prelude::*;
use vstd::std_specs::cmp::OrdSpec;
use core::cmp::Ordering;
use crate::order::goes_before;

verus! {

/// A way of telling, for an element, whether it is `Less`, `Equal` or
/// `Greater` than the target of a search.
pub trait Probe<T> {
    /// `e` may be handed to `probe`.
    spec fn admits(&self, e: T) -> bool;

    /// `o` is a code that `probe` may give for `e`.
    spec fn gives(&self, e: T, o: Ordering) -> bool;

    fn probe(&self, e: &T) -> (o: Ordering)
        requires
            self.admits(*e),
        ensures
            self.gives(*e, o),
    ;
}

/// Compares each element with a target value by the elements' own order.
pub struct ByValue<'a, T> {
    pub target: &'a T,
}

impl<'a, T: Ord> Probe<T> for ByValue<'a, T> {
    open spec fn admits(&self, e: T) -> bool {
        true
    }

    open spec fn gives(&self, e: T, o: Ordering) -> bool {
        T::obeys_cmp_spec() ==> o == e.cmp_spec(self.target)
    }

    fn probe(&self, e: &T) -> (o: Ordering) {
        e.cmp(self.target)
    }
}

/// Compares the key that `key_of` gives for each element with a target key.
pub struct ByKey<'a, B, F> {
    pub target: &'a B,
    pub key_of: F,
}

impl<'a, T, B: Ord, F: Fn(&T) -> B> Probe<T> for ByKey<'a, B, F> {
    open spec fn admits(&self, e: T) -> bool {
        self.key_of.requires((&e,))
    }

    open spec fn gives(&self, e: T, o: Ordering) -> bool {
        exists|k: B|
            #[trigger] self.key_of.ensures((&e,), k) && (B::obeys_cmp_spec() ==> o == k.cmp_spec(
                self.target,
            ))
    }

    fn probe(&self, e: &T) -> (o: Ordering) {
        let k = (self.key_of)(e);
        k.cmp(self.target)
    }
}

/// Asks a comparator closure for each element's code.
pub struct ByFn<F> {
    pub compare: F,
}

impl<T, F: Fn(&T) -> Ordering> Probe<T> for ByFn<F> {
    open spec fn admits(&self, e: T) -> bool {
        self.compare.requires((&e,))
    }

    open spec fn gives(&self, e: T, o: Ordering) -> bool {
        self.compare.ensures((&e,), o)
    }

    fn probe(&self, e: &T) -> (o: Ordering) {
        (self.compare)(e)
    }
}

/// `p` accepts every element of `s`.
pub open spec fn admits_all<T, P: Probe<T>>(p: P, s: Seq<T>) -> bool {
    forall|k: int| 0 <= k < s.len() ==> #[trigger] p.admits(s[k])
}

/// Once a code that `p` may give along `s` stops going before the insertion
/// point, no code further on goes before it again.
pub open spec fn split_closed<T, P: Probe<T>>(p: P, s: Seq<T>, pass_equal: bool) -> bool {
    forall|i: int, j: int, oi: Ordering, oj: Ordering|
        0 <= i <= j < s.len() && #[trigger] p.gives(s[i], oi) && #[trigger] p.gives(s[j], oj)
            && !goes_before(oi, pass_equal) ==> !goes_before(oj, pass_equal)
}

/// The probe gave, for the element just before `i`, a code that goes before
/// the insertion point, and for the element at `i` one that does not.
pub open spec fn seen_around<T, P: Probe<T>>(p: P, s: Seq<T>, pass_equal: bool, i: int) -> bool {
    &&& i > 0 ==> exists|o: Ordering| #[trigger] p.gives(s[i - 1], o) && goes_before(o, pass_equal)
    &&& i < s.len() ==> exists|o: Ordering|
        #[trigger] p.gives(s[i], o) && !goes_before(o, pass_equal)
}

/// `i` splits `s` for `p`: every code that `p` may give before it goes before
/// the insertion point, and none from it on does.
pub open spec fn splits<T, P: Probe<T>>(p: P, s: Seq<T>, pass_equal: bool, i: int) -> bool {
    &&& 0 <= i <= s.len()
    &&& forall|k: int, o: Ordering|
        0 <= k < i && #[trigger] p.gives(s[k], o) ==> goes_before(o, pass_equal)
    &&& forall|k: int, o: Ordering|
        i <= k < s.len() && #[trigger] p.gives(s[k], o) ==> !goes_before(o, pass_equal)
}

/// Binary search for the split point of `a` under `p`. With `pass_equal`
/// the positions that compare `Equal` lie before the split, otherwise after.
pub fn bisect_with<T, P: Probe<T>>(a: &[T], p: &P, pass_equal: bool) -> (r: usize)
    requires
        admits_all(*p, a@),
    ensures
        r <= a@.len(),
        seen_around(*p, a@, pass_equal, r as int),
        split_closed(*p, a@, pass_equal) ==> splits(*p, a@, pass_equal, r as int),
{
    let mut high: usize = a.len();
    if high == 0 {
        return 0;
    }
    let mut low: usize = 0;
    while low < high
        invariant
            low <= high <= a@.len(),
            admits_all(*p, a@),
            low > 0 ==> exists|o: Ordering|
                #[trigger] p.gives(a@[low - 1], o) && goes_before(o, pass_equal),
            high < a@.len() ==> exists|o: Ordering|
                #[trigger] p.gives(a@[high as int], o) && !goes_before(o, pass_equal),
            split_closed(*p, a@, pass_equal) ==> forall|k: int, o: Ordering|
                0 <= k < low && #[trigger] p.gives(a@[k], o) ==> goes_before(o, pass_equal),
            split_closed(*p, a@, pass_equal) ==> forall|k: int, o: Ordering|
                high <= k < a@.len() && #[trigger] p.gives(a@[k], o) ==> !goes_before(
                    o,
                    pass_equal,
                ),
        decreases high - low,
    {
        let mid: usize = low + (high - low) / 2;
        let o = p.probe(&a[mid]);
        let before = match o {
            Ordering::Less => true,
            Ordering::Equal => pass_equal,
            Ordering::Greater => false,
        };
        if before {
            low = mid + 1;
            assert(p.gives(a@[low - 1], o));
        } else {
            high = mid;
            assert(p.gives(a@[high as int], o));
        }
    }
    low
}

} // verus!
