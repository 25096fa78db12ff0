use bisect_rs::{
    bisect_left, bisect_left_by, bisect_left_by_key, bisect_right, bisect_right_by,
    bisect_right_by_key,
};

#[test]
fn empty_slice_gives_zero() {
    let e: [u64; 0] = [];
    for x in [0u64, 1, 17, u64::MAX] {
        assert_eq!(bisect_left(&e, &x), 0);
        assert_eq!(bisect_right(&e, &x), 0);
        assert_eq!(bisect_left_by(&e, |k| k.cmp(&x)), 0);
        assert_eq!(bisect_right_by(&e, |k| k.cmp(&x)), 0);
        assert_eq!(bisect_left_by_key(&e, &x, |k| *k), 0);
        assert_eq!(bisect_right_by_key(&e, &x, |k| *k), 0);
    }
}

#[test]
fn singleton_slice() {
    let s = [4];
    assert_eq!(bisect_left(&s, &3), 0);
    assert_eq!(bisect_left(&s, &4), 0);
    assert_eq!(bisect_left(&s, &5), 1);
    assert_eq!(bisect_right(&s, &3), 0);
    assert_eq!(bisect_right(&s, &4), 1);
    assert_eq!(bisect_right(&s, &5), 1);
}

#[test]
fn duplicate_run_is_bracketed() {
    let s = [1, 3, 3, 3, 7];
    assert_eq!(bisect_left(&s, &3), 1);
    assert_eq!(bisect_right(&s, &3), 4);
}

#[test]
fn left_never_after_right() {
    let s = [0, 1, 1, 2, 5, 5, 5, 9];
    for x in -1..11 {
        assert!(bisect_left(&s, &x) <= bisect_right(&s, &x));
    }
}

#[test]
fn absent_value_has_one_point() {
    let s = [0, 2, 2, 4, 8];
    for x in [-3, 1, 3, 5, 6, 7, 9] {
        assert_eq!(bisect_left(&s, &x), bisect_right(&s, &x));
    }
    assert_eq!(bisect_left(&s, &3), 3);
    assert_eq!(bisect_right(&s, &9), 5);
}

#[test]
fn points_cut_three_runs() {
    let s = [1, 2, 2, 5, 5, 5, 6, 9];
    for x in 0..11 {
        let l = bisect_left(&s, &x);
        let r = bisect_right(&s, &x);
        assert!(s[..l].iter().all(|e| *e < x));
        assert!(s[l..r].iter().all(|e| *e == x));
        assert!(s[r..].iter().all(|e| *e > x));
    }
    assert_eq!(bisect_left(&s, &5), 3);
    assert_eq!(bisect_right(&s, &5), 6);
}

#[test]
fn insert_then_bisect_again() {
    let s = vec![1, 3, 3, 3, 7];
    let r = bisect_right(&s, &3);
    let mut t = s.clone();
    t.insert(r, 3);
    assert_eq!(t, vec![1, 3, 3, 3, 3, 7]);
    assert_eq!(bisect_right(&t, &3), r + 1);

    let l = bisect_left(&s, &3);
    let mut u = s.clone();
    u.insert(l, 3);
    assert_eq!(bisect_left(&u, &3), l);

    let r = bisect_right(&s, &5);
    let mut w = s.clone();
    w.insert(r, 5);
    assert_eq!(w, vec![1, 3, 3, 3, 5, 7]);
    assert_eq!(bisect_right(&w, &5), r + 1);
    assert_eq!(bisect_left(&w, &5), r);
}

#[test]
fn by_key_matches_projected_keys() {
    let s = [(9, 1), (0, 3), (5, 3), (2, 3), (4, 7), (8, 10)];
    let keys: Vec<i32> = s.iter().map(|p| p.1).collect();
    for b in 0..12 {
        assert_eq!(bisect_left_by_key(&s, &b, |p| p.1), bisect_left(&keys, &b));
        assert_eq!(bisect_right_by_key(&s, &b, |p| p.1), bisect_right(&keys, &b));
    }
    assert_eq!(bisect_left_by_key(&s, &3, |p| p.1), 1);
    assert_eq!(bisect_right_by_key(&s, &3, |p| p.1), 4);
}

#[test]
fn by_key_on_pairs() {
    let u = vec![(1, 3), (5, 5), (5, 6), (10, 2), (11, 2)];
    assert_eq!(bisect_right_by_key(&u, &5, |&(a, _)| a), 3);
    assert_eq!(bisect_right_by_key(&u, &1, |&(a, _)| a), 1);
    assert_eq!(bisect_right_by_key(&u, &11, |&(a, _)| a), 5);
    assert_eq!(bisect_left_by_key(&u, &5, |&(a, _)| a), 1);
    assert_eq!(bisect_left_by_key(&u, &0, |&(a, _)| a), 0);
}

#[test]
fn by_comparator() {
    let s = [0, 1, 1, 1, 1, 2, 3, 5, 8, 13, 21, 34, 55];
    assert_eq!(bisect_right_by(&s, |probe| probe.cmp(&13)), 10);
    assert_eq!(bisect_right_by(&s, |probe| probe.cmp(&1)), 5);
    assert_eq!(bisect_right_by(&s, |probe| probe.cmp(&100)), 13);
    assert_eq!(bisect_left_by(&s, |probe| probe.cmp(&13)), 9);
    assert_eq!(bisect_left_by(&s, |probe| probe.cmp(&1)), 1);
    assert_eq!(bisect_left_by(&s, |probe| probe.cmp(&100)), 13);
    assert_eq!(bisect_left_by(&s, |probe| probe.cmp(&-1)), 0);
}

#[test]
fn by_comparator_reversed_order() {
    let s = [9, 7, 7, 4, 1];
    assert_eq!(bisect_left_by(&s, |probe| 7.cmp(probe)), 1);
    assert_eq!(bisect_right_by(&s, |probe| 7.cmp(probe)), 3);
}

#[test]
fn natural_order_examples() {
    let u = [0, 1, 2, 2, 3, 4];
    assert_eq!(bisect_right(&u, &4), 6);
    assert_eq!(bisect_right(&u, &2), 4);
    assert_eq!(bisect_left(&u, &3), 4);
    assert_eq!(bisect_left(&u, &2), 2);
}

#[test]
fn unsorted_input_stays_in_bounds() {
    let s = [5, 1, 9, 0, 3, 3, 8, 2];
    for x in -1..11 {
        assert!(bisect_left(&s, &x) <= s.len());
        assert!(bisect_right(&s, &x) <= s.len());
    }
}

#[test]
fn largest_slice_left_bisection() {
    let b = [(); usize::MAX];
    assert_eq!(bisect_left(&b, &()), 0);
}
