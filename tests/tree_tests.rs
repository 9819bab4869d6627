use modtree::{vec_eq, PrereqTree};

fn t(code: &str) -> PrereqTree {
    PrereqTree::only(code)
}

fn and(v: Vec<PrereqTree>) -> PrereqTree {
    PrereqTree::And { and: v }
}

fn or(v: Vec<PrereqTree>) -> PrereqTree {
    PrereqTree::Or { or: v }
}

fn done(codes: &[&str]) -> Vec<String> {
    codes.iter().map(|v| v.to_string()).collect()
}

fn s_vec(s: Vec<&str>) -> Vec<String> {
    s.iter().map(|v| v.to_string()).collect()
}

#[test]
fn spec_satisfied_by_test() {
    fn test(tree: &PrereqTree, done: Vec<String>, expect: bool) {
        assert!(!expect ^ tree.satisfied_by(&done));
    }
    // empty tree
    test(&PrereqTree::empty(), done(&[]), true);
    // tests for "and"
    let tree = &and(vec![t("A"), t("B")]);
    test(tree, done(&["A", "B"]), true);
    test(tree, done(&["A", "C"]), false);
    // tests for "or"
    let tree = &or(vec![t("A"), t("B")]);
    test(tree, done(&["A"]), true);
    test(tree, done(&["C"]), false);
    // tests for nested structures "and(or())"
    let tree = &and(vec![or(vec![t("A"), t("B")]), t("C")]);
    test(tree, done(&["A", "C"]), true);
    test(tree, done(&["B", "C"]), true);
    test(tree, done(&["A", "B"]), false);
    test(tree, done(&["C"]), false);
    // tests for nested structures "or(and())"
    let tree = &or(vec![and(vec![t("A"), t("B")]), t("C")]);
    test(tree, done(&["A", "C"]), true);
    test(tree, done(&["B", "C"]), true);
    test(tree, done(&["A", "B"]), true);
    test(tree, done(&["C"]), true);
}

#[test]
fn left_to_unlock_test() {
    fn test(tree: &PrereqTree, done: Vec<String>, expect: usize) {
        assert_eq!(tree.left_to_unlock(&done), expect);
    }
    // empty tree
    test(&PrereqTree::empty(), done(&[]), 0);
    test(&t("A"), done(&["A"]), 0);
    test(&t("A"), done(&[]), 1);
    // tests for "and"
    let tree = &and(vec![t("A"), t("B")]);
    test(tree, done(&[]), 2);
    test(tree, done(&["A"]), 1);
    test(tree, done(&["A", "B"]), 0);
    // tests for "or"
    let tree = &or(vec![t("A"), t("B")]);
    test(tree, done(&[]), 1);
    test(tree, done(&["A"]), 0);
    test(tree, done(&["A", "B"]), 0);
    // tests for nested structures "and(or())"
    let tree = &and(vec![or(vec![t("A"), t("B")]), t("C")]);
    test(tree, done(&[]), 2);
    test(tree, done(&["A"]), 1);
    test(tree, done(&["C"]), 1);
    test(tree, done(&["A", "C"]), 0);
    // tests for nested structures "or(and())"
    let tree = &or(vec![and(vec![t("A"), t("B")]), t("C")]);
    test(tree, done(&[]), 1);
    test(tree, done(&["A"]), 1);
    test(tree, done(&["C"]), 0);
    test(tree, done(&["A", "C"]), 0);
}

fn check_min_path(tree: &PrereqTree, expected: Vec<&str>, equal: bool) {
    let expected = s_vec(expected);
    let received = &tree.min_path();
    let ok = !equal ^ vec_eq(&received, &expected, |a, b| a.eq(b));
    if !ok {
        println!("received->{:?}", received);
        println!("expected->{:?}", expected);
    }
    assert!(ok);
}

#[test]
fn spec_min_path_test() {
    let tree = and(vec![t("A"), t("B"), t("C")]);
    check_min_path(&tree, vec!["A", "B", "C"], true);
    let tree = or(vec![and(vec![t("A"), t("B")]), t("C")]);
    check_min_path(&tree, vec!["C"], true);
    let tree = or(vec![and(vec![t("A"), t("B")]), and(vec![t("C"), t("D"), t("E")])]);
    check_min_path(&tree, vec!["A", "B"], true);
    let tree = and(vec![or(vec![t("A"), t("B")]), and(vec![t("C"), t("D"), t("E")])]);
    check_min_path(&tree, vec!["A", "C", "D", "E"], true);
    let tree = or(vec![and(vec![t("A"), t("B"), t("C")]), and(vec![t("A"), t("C")])]);
    check_min_path(&tree, vec!["A", "C"], true);
}

#[test]
fn experimental_test() {
    let tree = and(vec![t("A"), t("B"), t("C")]);
    check_min_path(&tree, vec!["A", "B", "C"], true);
    let tree = or(vec![and(vec![t("A"), t("B")]), t("C")]);
    check_min_path(&tree, vec!["C"], true);
    let tree = or(vec![and(vec![t("A"), t("B")]), and(vec![t("C"), t("D"), t("E")])]);
    check_min_path(&tree, vec!["A", "B"], true);
    let tree = and(vec![or(vec![t("A"), t("B")]), and(vec![t("C"), t("D"), t("E")])]);
    check_min_path(&tree, vec!["A", "C", "D", "E"], true);
}

fn check_flat(tree: &PrereqTree, expected: Vec<&str>) {
    let expected = s_vec(expected);
    let received = &tree.flatten();
    let ok = vec_eq(&received, &expected, |a, b| a.eq(b));
    if !ok {
        println!("received->{:?}", received);
        println!("expected->{:?}", expected);
    }
    assert!(ok);
}

#[test]
fn spec_flatten_test() {
    // tests for "and"
    let tree = &and(vec![t("A"), t("B")]);
    check_flat(tree, vec!["A", "B"]);
    // tests for "or"
    let tree = &or(vec![t("A"), t("B")]);
    check_flat(tree, vec!["A", "B"]);
    // tests for nested structures "and(or())"
    let tree = &and(vec![or(vec![t("A"), t("B")]), t("C")]);
    check_flat(tree, vec!["A", "B", "C"]);
    // tests for nested structures "or(and())"
    let tree = &or(vec![and(vec![t("A"), t("B")]), t("C")]);
    check_flat(tree, vec!["A", "B", "C"]);
    // other trees
    let tree = or(vec![and(vec![t("A"), t("B")]), and(vec![t("C"), t("D"), t("E")])]);
    check_flat(&tree, vec!["A", "B", "C", "D", "E"]);
    let tree = and(vec![or(vec![t("A"), t("B")]), and(vec![t("C"), t("D"), t("E")])]);
    check_flat(&tree, vec!["A", "B", "C", "D", "E"]);
    let tree = or(vec![and(vec![t("A"), t("B"), t("C")]), and(vec![t("A"), t("C")])]);
    check_flat(&tree, vec!["A", "B", "C"]);
}

fn mpf(tree: &PrereqTree, filter: Vec<&str>, expected: Vec<&str>) {
    let expected = s_vec(expected);
    let filter = s_vec(filter);
    let received = &tree.min_path_filtered(&filter).unwrap();
    let ok = vec_eq(&received, &expected, |a, b| a.eq(b));
    if !ok {
        println!("received->{:?}", received);
        println!("expected->{:?}", expected);
    }
    assert!(ok);
}

fn mpf_none(tree: &PrereqTree, filter: Vec<&str>) {
    assert_eq!(tree.min_path_filtered(&s_vec(filter)), None);
}

#[test]
fn spec_min_path_filtered_test() {
    let tree = &and(vec![t("A"), t("B")]);
    mpf(tree, vec![], vec!["A", "B"]);
    mpf(tree, vec!["A"], vec!["A", "B"]);
    mpf_none(tree, vec!["C"]);
    // complex trees
    // or(and, and)
    let tree = or(vec![
        and(vec![t("A"), t("B"), t("C"), t("D")]),
        and(vec![t("E"), t("F"), t("G")]),
    ]);
    mpf(&tree, vec![], vec!["E", "F", "G"]);
    mpf(&tree, vec!["C"], vec!["A", "B", "C", "D"]);

    // and(or, and)
    let tree = and(vec![or(vec![t("A"), t("B")]), and(vec![t("C"), t("D"), t("E")])]);
    mpf(&tree, vec!["A"], vec!["A", "C", "D", "E"]);
    mpf(&tree, vec!["B"], vec!["B", "C", "D", "E"]);

    let tree = and(vec![
        or(vec![t("A"), t("B")]),
        or(vec![t("C"), t("D")]),
        or(vec![t("E"), t("F"), and(vec![t("X"), t("Y")])]),
        or(vec![t("G"), t("H")]),
    ]);
    mpf(&tree, vec![], vec!["A", "C", "E", "G"]);
    mpf(&tree, vec!["B"], vec!["B", "C", "E", "G"]);
}

fn s(vec: &[&str]) -> Vec<String> {
    s_vec(vec.to_vec())
}

fn twelve_paths() -> Vec<Vec<String>> {
    vec![
        s(&["A", "C", "E"]),
        s(&["A", "C", "F"]),
        s(&["A", "C", "X", "Y"]),
        s(&["A", "D", "E"]),
        s(&["A", "D", "F"]),
        s(&["A", "D", "X", "Y"]),
        s(&["B", "C", "E"]),
        s(&["B", "C", "F"]),
        s(&["B", "C", "X", "Y"]),
        s(&["B", "D", "E"]),
        s(&["B", "D", "F"]),
        s(&["B", "D", "X", "Y"]),
    ]
}

fn three_branches() -> PrereqTree {
    and(vec![
        or(vec![t("A"), t("B")]),
        or(vec![t("C"), t("D")]),
        or(vec![t("E"), t("F"), and(vec![t("X"), t("Y")])]),
    ])
}

#[test]
fn all_paths_test() {
    let tree = three_branches();
    let all_paths = tree.all_paths();
    assert!(vec_eq(&all_paths, &twelve_paths(), |a, b| vec_eq(a, b, |a, b| a.eq(b))));
}

#[test]
fn all_paths() {
    let tree = three_branches();
    let all_paths = tree.all_paths();
    assert!(vec_eq(&all_paths, &twelve_paths(), |a, b| vec_eq(a, b, |a, b| a.eq(b))));
}

fn check_resolve(tree: &PrereqTree, code: &str, expected: PrereqTree) {
    let mut received = tree.clone();
    received.resolve(code);
    let ok = received == expected;
    if !ok {
        println!("received->{:?}", received);
        println!("expected->{:?}", expected);
    }
    assert!(ok);
}

#[test]
fn resolve_test() {
    let tree = and(vec![or(vec![t("A"), t("B")]), and(vec![t("C"), t("D"), t("E")])]);
    check_resolve(&tree, "A", and(vec![and(vec![t("C"), t("D"), t("E")])]));
    check_resolve(&tree, "C", and(vec![or(vec![t("A"), t("B")]), and(vec![t("D"), t("E")])]));
    let tree = and(vec![
        or(vec![t("A"), t("B")]),
        or(vec![t("C"), t("D")]),
        or(vec![t("E"), t("F"), and(vec![t("X"), t("Y")])]),
        or(vec![t("G"), t("H")]),
    ]);
    check_resolve(
        &tree,
        "F",
        and(vec![or(vec![t("A"), t("B")]), or(vec![t("C"), t("D")]), or(vec![t("G"), t("H")])]),
    );
    check_resolve(
        &tree,
        "X",
        and(vec![
            or(vec![t("A"), t("B")]),
            or(vec![t("C"), t("D")]),
            or(vec![t("E"), t("F"), and(vec![t("Y")])]),
            or(vec![t("G"), t("H")]),
        ]),
    );
}

#[test]
fn spec_min_to_unlock_test() {
    let tree = and(vec![or(vec![t("A"), t("B")]), and(vec![t("C"), t("D"), t("E")])]);
    assert_eq!(tree.min_to_unlock(), 4);
    let tree = and(vec![
        or(vec![t("A"), t("B")]),
        or(vec![t("C"), t("D")]),
        or(vec![t("E"), t("F"), and(vec![t("X"), t("Y")])]),
        or(vec![t("G"), t("H")]),
    ]);
    assert_eq!(tree.min_to_unlock(), 4);
}

#[test]
fn topological_sort_test() {
    let mut expected: Vec<(String, PrereqTree)> = vec![];
    let mut add = |code: &str, tree| {
        expected.push((code.to_string(), tree));
    };
    add("B", PrereqTree::empty());
    add("C", PrereqTree::empty());
    add("D", t("C"));
    add("A", or(vec![t("D"), t("E")]));
    add("E", PrereqTree::empty());
    add("G", and(vec![or(vec![t("A"), t("B")]), and(vec![t("C"), t("D"), t("E")])]));
    add("X", t("A"));
    add("Y", t("B"));
    add(
        "Z",
        and(vec![
            or(vec![t("A"), t("B")]),
            or(vec![t("C"), t("D")]),
            or(vec![t("E"), t("F"), and(vec![t("X"), t("Y")])]),
            or(vec![t("G"), t("H")]),
        ]),
    );
    let received = PrereqTree::topological_sort(expected.clone());
    assert_eq!(received, expected);
}

#[test]
fn std_impl_test_prt_eq() {
    let _ = t("done");
    // base trees
    assert_eq!(PrereqTree::empty(), PrereqTree::empty());
    assert_ne!(PrereqTree::empty(), t("A"));
    assert_eq!(t("A"), t("A"));
    assert_ne!(t("A"), t("B"));
    // complex trees
    assert_eq!(
        and(vec![t("A"), or(vec![t("B"), t("C")])]),
        and(vec![or(vec![t("C"), t("B")]), t("A")])
    );
    assert_eq!(
        and(vec![t("A"), or(vec![t("B"), t("C"), and(vec![t("X"), t("Y"), t("Z")])])]),
        and(vec![or(vec![t("C"), and(vec![t("X"), t("Z"), t("Y")]), t("B")]), t("A")])
    );
}

#[test]
fn prereqtree_satisfies_test() {
    fn test(tree: &PrereqTree, arr: &[&str], expect: bool) {
        let set = done(arr);
        assert!(!expect ^ tree.satisfied_by(&set));
    }
    assert!(t("").satisfied_by(&vec![]));
    test(&t("CS2040"), &["CS1231", "CS1010"], false);
    test(&t("CS2030"), &["CS2030"], true);
    // tests for "and"
    let tree = and(vec![t("A"), t("B")]);
    test(&tree, &["A", "B"], true);
    test(&tree, &["A", "C"], false);
    // tests for "or"
    let tree = or(vec![t("A"), t("B")]);
    test(&tree, &["A"], true);
    test(&tree, &["C"], false);
    // tests for nested structures
    let tree = and(vec![or(vec![t("A"), t("B")]), t("C")]);
    test(&tree, &["A", "C"], true);
    test(&tree, &["B", "C"], true);
    test(&tree, &["A", "B"], false);
    test(&tree, &["C"], false);
    // tests for nested structures
    let tree = or(vec![and(vec![t("A"), t("B")]), t("C")]);
    test(&tree, &["A", "C"], true);
    test(&tree, &["B", "C"], true);
    test(&tree, &["A", "B"], true);
    test(&tree, &["C"], true);
}

#[test]
fn prereqtree_min_unlock_test() {
    fn test(tree: &PrereqTree, d: &[&str], expect: usize) {
        assert_eq!(tree.left_to_unlock(&done(d)), expect);
    }
    let empty: [&str; 0] = [];
    assert_eq!(t("").left_to_unlock(&vec![]), 0);
    test(&t(""), &empty, 0);
    test(&t("A"), &["A"], 0);
    test(&t("A"), &empty, 1);
    // tests for "and"
    let tree = and(vec![t("A"), t("B")]);
    test(&tree, &empty, 2);
    test(&tree, &["A"], 1);
    test(&tree, &["A", "B"], 0);
    // tests for "or"
    let tree = or(vec![t("A"), t("B")]);
    test(&tree, &["A", "B"], 0);
    test(&tree, &["A"], 0);
    test(&tree, &empty, 1);
    // tests for nested structures
    let tree = and(vec![or(vec![t("A"), t("B")]), t("C")]);
    test(&tree, &empty, 2);
    test(&tree, &["C"], 1);
    test(&tree, &["A"], 1);
    test(&tree, &["B"], 1);
    test(&tree, &["A", "C"], 0);
    // tests for nested structures
    let tree = or(vec![and(vec![t("A"), t("B")]), t("C")]);
    test(&tree, &empty, 1);
    test(&tree, &["C"], 0);
    test(&tree, &["A"], 1);
    test(&tree, &["B"], 1);
    test(&tree, &["A", "C"], 0);
}
