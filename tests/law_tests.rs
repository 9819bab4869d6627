use modtree::{topological_order, vec_eq, PrereqTree};

fn t(code: &str) -> PrereqTree {
    PrereqTree::only(code)
}

fn and(v: Vec<PrereqTree>) -> PrereqTree {
    PrereqTree::And { and: v }
}

fn or(v: Vec<PrereqTree>) -> PrereqTree {
    PrereqTree::Or { or: v }
}

fn codes(v: &[&str]) -> Vec<String> {
    v.iter().map(|s| s.to_string()).collect()
}

#[test]
fn path_enumeration_and_of_or() {
    let tree = and(vec![or(vec![t("A"), t("B")]), t("C")]);
    let paths = tree.all_paths();
    assert!(vec_eq(&paths, &vec![codes(&["A", "C"]), codes(&["B", "C"])], |a, b| vec_eq(
        a,
        b,
        |x, y| x == y
    )));
}

#[test]
fn resolve_collapse_asymmetry() {
    let tree = and(vec![or(vec![t("A"), t("B")]), and(vec![t("C"), t("D"), t("E")])]);
    assert_eq!(tree.resolved("A"), and(vec![and(vec![t("C"), t("D"), t("E")])]));
    assert_eq!(tree.resolved("C"), and(vec![or(vec![t("A"), t("B")]), and(vec![t("D"), t("E")])]));
}

#[test]
fn vacuous_or_is_satisfied() {
    let tree = or(vec![]);
    assert!(tree.satisfied_by(&vec![]));
    assert!(tree.satisfied_by(&codes(&["A", "B"])));
    assert_eq!(tree.min_to_unlock(), 0);
}

#[test]
fn resolve_never_raises_min_to_unlock() {
    let tree = and(vec![
        or(vec![t("A"), t("B")]),
        or(vec![t("C"), and(vec![t("D"), t("E")])]),
        t("F"),
    ]);
    for code in ["A", "B", "C", "D", "E", "F", "Z"] {
        assert!(tree.resolved(code).min_to_unlock() <= tree.min_to_unlock());
    }
    assert_eq!(tree.min_to_unlock(), 3);
    assert_eq!(tree.resolved("F").min_to_unlock(), 2);
}

#[test]
fn resolving_the_done_set_matches_satisfaction() {
    let tree = and(vec![or(vec![t("A"), t("B")]), t("C")]);
    for done in [vec!["A", "C"], vec!["C", "A"], vec!["B", "C"], vec!["A"], vec!["C"], vec!["A", "B"]] {
        let mut r = tree.clone();
        for c in &done {
            r.resolve(c);
        }
        assert_eq!(r.is_empty(), tree.satisfied_by(&codes(&done)));
    }
}

#[test]
fn only_flattened_codes_matter() {
    let tree = and(vec![or(vec![t("A"), t("B")]), t("C")]);
    let flat = tree.flatten();
    assert!(vec_eq(&flat, &codes(&["A", "B", "C"]), |a, b| a == b));
    assert_eq!(
        tree.satisfied_by(&codes(&["A", "C", "Q"])),
        tree.satisfied_by(&codes(&["A", "C"]))
    );
    assert!(tree.contains_code("B"));
    assert!(!tree.contains_code("Q"));
    assert!(!tree.contains_code(""));
}

#[test]
fn equality_ignores_order() {
    assert_eq!(and(vec![t("A"), t("B")]), and(vec![t("B"), t("A")]));
    assert_ne!(or(vec![t("A"), t("B")]), and(vec![t("A"), t("B")]));
    assert_ne!(and(vec![t("A"), t("A"), t("B")]), and(vec![t("A"), t("B"), t("B")]));
}

#[test]
fn topological_order_is_valid() {
    let items = vec![
        ("X".to_string(), t("A")),
        ("A".to_string(), PrereqTree::empty()),
        ("Y".to_string(), and(vec![t("X"), t("A")])),
    ];
    let (placed, unplaced) = topological_order(items);
    let order: Vec<String> = placed.iter().map(|p| p.0.clone()).collect();
    assert_eq!(order, codes(&["A", "X", "Y"]));
    assert!(unplaced.is_empty());
}

#[test]
fn topological_order_reports_cycles() {
    let items = vec![
        ("P".to_string(), t("Q")),
        ("Q".to_string(), t("P")),
        ("R".to_string(), PrereqTree::empty()),
    ];
    let (placed, unplaced) = topological_order(items);
    assert_eq!(placed.len(), 1);
    assert_eq!(placed[0].0, "R");
    assert_eq!(unplaced, codes(&["P", "Q"]));
}

#[test]
fn retain_keeps_listed_codes() {
    let tree = and(vec![t("A"), or(vec![t("B"), t("C")])]);
    let kept = tree.retain(&codes(&["A", "C"])).unwrap();
    assert_eq!(kept, and(vec![t("A"), or(vec![t("C")])]));
    assert_eq!(t("Z").retain(&codes(&["A"])), None);
}

#[test]
fn empty_tree_paths() {
    let e = PrereqTree::empty();
    assert!(e.is_empty());
    assert_eq!(e.all_paths(), vec![Vec::<String>::new()]);
    assert_eq!(e.min_path(), Vec::<String>::new());
    assert_eq!(e.min_path_filtered(&vec![]), Some(vec![]));
    assert_eq!(e.resolved("A"), PrereqTree::empty());
    assert_eq!(or(vec![]).all_paths(), Vec::<Vec<String>>::new());
}
