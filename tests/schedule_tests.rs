use modtree::{find_minimal_schedules, topological_sort_modules, Module, Path, PrereqTree};

fn module(code: &str, sems: Vec<usize>, tree: PrereqTree) -> Module {
    Module::new(code, "2022/2023", sems, tree)
}

fn codes(v: &[&str]) -> Vec<String> {
    v.iter().map(|s| s.to_string()).collect()
}

#[test]
fn lib_test() {
    let mut p = Path::new();
    p.mark("CS1010");
    p.next_sem();
    p.next_sem();
    println!("{p:?}");
    println!("{:?}", "a".cmp("A"));
}

#[test]
fn path_tracks_periods() {
    let mut p = Path::new();
    p.mark("CS1010");
    assert!(p.is_doing(&"CS1010".to_string()));
    assert_eq!(p.doing_count(), 1);
    assert_eq!(p.sem(), 1);
    p.next_sem();
    assert_eq!(p.len(), 1);
    assert_eq!(p.doing_count(), 0);
    assert!(p.is_done(&codes(&["CS1010"])));
    assert!(!p.is_done(&codes(&["CS2040"])));
    p.mark("CS2040");
    assert_eq!(p.mod_count(), 2);
    p.next_sem();
    p.next_sem();
    p.next_sem();
    assert_eq!(p.sem(), 1);
    assert_eq!(p.record()[0], codes(&["CS1010"]));
}

#[test]
fn choices_follow_offer_prerequisite_and_order() {
    let space = vec![
        module("A", vec![1], PrereqTree::empty()),
        module("B", vec![2], PrereqTree::empty()),
        module("C", vec![1, 2], PrereqTree::only("A")),
        module("D", vec![1], PrereqTree::empty()),
    ];
    let mut p = Path::new();
    assert_eq!(p.choices(&space), codes(&["A", "D"]));
    p.mark("A");
    assert_eq!(p.choices(&space), codes(&["D"]));
    p.next_sem();
    assert_eq!(p.choices(&space), codes(&["B", "C"]));
}

#[test]
fn simple_serialization() {
    let space = vec![
        module("A", vec![1], PrereqTree::empty()),
        module("X", vec![1, 2, 3, 4], PrereqTree::only("A")),
    ];
    let found = find_minimal_schedules(&codes(&["X"]), &space, 5, 16);
    assert_eq!(found.len(), 1);
    for p in &found {
        assert_eq!(p.len(), 2);
        assert_eq!(p.record()[0], codes(&["A"]));
        assert_eq!(p.record()[1], codes(&["X"]));
    }
}

#[test]
fn capacity_forced_serialization() {
    let space = vec![
        module("A", vec![1, 2, 3, 4], PrereqTree::empty()),
        module("B", vec![1, 2, 3, 4], PrereqTree::empty()),
        module(
            "X",
            vec![1, 2, 3, 4],
            PrereqTree::And { and: vec![PrereqTree::only("A"), PrereqTree::only("B")] },
        ),
    ];
    let found = find_minimal_schedules(&codes(&["X"]), &space, 1, 16);
    assert_eq!(found.len(), 2);
    let records: Vec<Vec<Vec<String>>> = found.iter().map(|p| p.record().clone()).collect();
    assert!(records.contains(&vec![codes(&["A"]), codes(&["B"]), codes(&["X"])]));
    assert!(records.contains(&vec![codes(&["B"]), codes(&["A"]), codes(&["X"])]));
    for p in &found {
        assert_eq!(p.len(), 3);
        let r = p.record();
        assert_eq!(r[2], codes(&["X"]));
        let mut first_two = vec![r[0][0].clone(), r[1][0].clone()];
        first_two.sort();
        assert_eq!(first_two, codes(&["A", "B"]));
    }
}

#[test]
fn no_schedule_within_horizon() {
    let space = vec![
        module("A", vec![1], PrereqTree::empty()),
        module("X", vec![1], PrereqTree::only("A")),
    ];
    // X can only follow A a whole cycle later
    assert!(find_minimal_schedules(&codes(&["X"]), &space, 5, 3).is_empty());
    let found = find_minimal_schedules(&codes(&["X"]), &space, 5, 16);
    assert!(found.iter().all(|p| p.len() == 5));
}

#[test]
fn empty_goals_need_no_period() {
    let found = find_minimal_schedules(&vec![], &vec![], 5, 16);
    assert_eq!(found.len(), 1);
    assert_eq!(found[0].len(), 0);
}

#[test]
fn modules_in_topological_order() {
    let space = vec![
        module("X", vec![1], PrereqTree::only("A")),
        module("B", vec![1], PrereqTree::only("Q")),
        module("A", vec![1], PrereqTree::empty()),
    ];
    let sorted = topological_sort_modules(&space);
    let order: Vec<String> = sorted.iter().map(|m| m.to_code()).collect();
    assert_eq!(order, codes(&["A", "X"]));
    assert_eq!(sorted[1].semesters(), &vec![1]);
}
