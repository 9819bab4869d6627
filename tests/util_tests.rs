use modtree::{combinations, vec_eq, weave, Counter};

fn check_vec_eq(a: Vec<u8>, b: Vec<u8>, expected: bool) {
    assert!(!expected ^ vec_eq(&a, &b, |a, b| a.eq(b)));
}

#[test]
fn std_impl_test_vec_eq() {
    check_vec_eq(vec![1, 2, 3, 4], vec![4, 3, 2, 1], true);
    check_vec_eq(vec![2, 3, 4], vec![4, 3, 1], false);
    check_vec_eq(vec![2, 3, 4], vec![4, 3, 1], false);
    check_vec_eq(vec![], vec![1], false);
}

#[test]
fn util_test_vec_eq() {
    check_vec_eq(vec![1, 2, 3, 4], vec![4, 3, 2, 1], true);
    check_vec_eq(vec![2, 3, 4], vec![4, 3, 1], false);
    check_vec_eq(vec![2, 3, 4], vec![4, 3, 1], false);
    check_vec_eq(vec![], vec![1], false);
}

#[test]
fn vec_eq_test_vec_eq() {
    check_vec_eq(vec![1, 2, 3, 4], vec![4, 3, 2, 1], true);
    check_vec_eq(vec![2, 3, 4], vec![4, 3, 1], false);
    check_vec_eq(vec![2, 3, 4], vec![4, 3, 1], false);
    check_vec_eq(vec![], vec![1], false);
}

#[test]
fn vec_eq_counts_repeats() {
    check_vec_eq(vec![1, 1, 2], vec![1, 2, 1], true);
    check_vec_eq(vec![1, 1, 2], vec![1, 2, 2], false);
}

fn merged() -> Vec<Vec<i32>> {
    let mut llp = vec![];
    llp.push(vec![vec![1, 2], vec![3, 4]]);
    llp.push(vec![vec![91, 92], vec![3, 94]]);
    weave(&llp)
}

#[test]
fn util_merge_test() {
    assert!(vec_eq(
        &merged(),
        &vec![vec![1, 2, 91, 92], vec![1, 2, 3, 94], vec![3, 4, 91, 92], vec![3, 4, 94]],
        |a, b| vec_eq(a, b, |a, b| a == b)
    ));
}

#[test]
fn weave_merge_test() {
    assert!(vec_eq(
        &merged(),
        &vec![vec![1, 2, 91, 92], vec![1, 2, 3, 94], vec![3, 4, 91, 92], vec![3, 4, 94]],
        |a, b| vec_eq(a, b, |a, b| a == b)
    ));
}

#[test]
fn weave_orders_first_branch_slowest() {
    let llp: Vec<Vec<Vec<i32>>> = vec![vec![vec![1], vec![2]], vec![vec![3], vec![4]]];
    assert_eq!(weave(&llp), vec![vec![1, 3], vec![1, 4], vec![2, 3], vec![2, 4]]);
}

#[test]
fn weave_edge_cases() {
    let none: Vec<Vec<Vec<i32>>> = vec![];
    assert_eq!(weave(&none), vec![Vec::<i32>::new()]);
    let empty_branch: Vec<Vec<Vec<i32>>> = vec![vec![vec![1]], vec![]];
    assert_eq!(weave(&empty_branch), Vec::<Vec<i32>>::new());
}

#[test]
fn counter_counts_mixed_radix() {
    let mut c = Counter::new(vec![2, 3]);
    let mut seen = vec![];
    while let Some(v) = c.next() {
        seen.push(v);
    }
    assert_eq!(
        seen,
        vec![vec![0, 0], vec![0, 1], vec![0, 2], vec![1, 0], vec![1, 1], vec![1, 2]]
    );
}

#[test]
fn counter_edge_cases() {
    let mut c = Counter::new(vec![]);
    assert_eq!(c.next(), Some(vec![]));
    assert_eq!(c.next(), None);
    let mut z = Counter::new(vec![3, 0]);
    assert_eq!(z.next(), None);
}

#[test]
fn combinations_in_order() {
    let mut c = combinations(vec![1, 2, 3, 4, 5], 3);
    let mut seen = vec![];
    while let Some(k) = c.next() {
        seen.push(k);
    }
    assert_eq!(seen.len(), 10);
    assert_eq!(seen[0], vec![1, 2, 3]);
    assert_eq!(seen[1], vec![1, 2, 4]);
    assert_eq!(seen[9], vec![3, 4, 5]);
}

#[test]
fn combinations_edge_cases() {
    let mut c = combinations(vec![1, 2], 3);
    assert_eq!(c.next(), None);
    let mut d = combinations(vec![1, 2], 0);
    assert_eq!(d.next(), Some(vec![]));
    assert_eq!(d.next(), None);
}
