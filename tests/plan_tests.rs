use modtree::{
    parse_url, validate_academic_year, ClosureLoader, Error, Module, ModuleKind, Period, Plan,
    PlanBuilder, PrereqTree, Semester, Step,
};

fn codes(v: &[&str]) -> Vec<String> {
    v.iter().map(|s| s.to_string()).collect()
}

#[test]
fn parse_url_reads_host_and_port() {
    assert_eq!(parse_url("localhost:27017").unwrap(), ("localhost".to_string(), 27017));
    assert!(matches!(parse_url(":27017"), Err(Error::InvalidHost)));
    assert!(matches!(parse_url("localhost"), Err(Error::InvalidPort)));
    assert!(matches!(parse_url("localhost:abc"), Err(Error::InvalidPort)));
    assert!(matches!(parse_url("localhost:70000"), Err(Error::InvalidPort)));
    assert!(matches!(parse_url("localhost:0"), Err(Error::ZeroPort)));
    assert!(matches!(parse_url("a:1:2"), Err(Error::ExtraColon(_))));
    assert_eq!(parse_url("h:+80").unwrap(), ("h".to_string(), 80));
}

#[test]
fn academic_years_must_be_consecutive() {
    assert_eq!(validate_academic_year("2022/2023", '/').unwrap(), "2022/2023");
    assert_eq!(validate_academic_year("2021-2022", '-').unwrap(), "2021-2022");
    assert!(matches!(validate_academic_year("2022/2024", '/'), Err(Error::NonConsecutiveYears(_))));
    assert!(matches!(validate_academic_year("2022-2023", '/'), Err(Error::InvalidYear(_))));
    assert!(matches!(validate_academic_year("x/2023", '/'), Err(Error::InvalidYear(_))));
    assert!(matches!(
        validate_academic_year("18446744073709551615/0", '/'),
        Err(Error::YearOverflow(18446744073709551615))
    ));
}

#[test]
fn period_checks_semester() {
    let p = Period::new(2022, 1).unwrap();
    assert_eq!(p.year(), 2022);
    assert_eq!(p.sem(), 1);
    assert_eq!(p.acad_year(), "2022/2023");
    assert_eq!(Period::new(-1, 4).unwrap().acad_year(), "-1/0");
    assert!(matches!(Period::new(2022, 5), Err(Error::InvalidSemester)));
    assert!(matches!(Period::new(2022, 0), Err(Error::InvalidSemester)));
}

#[test]
fn semester_keeps_codes_in_order() {
    let mut s = Semester::new(5);
    assert!(s.is_empty());
    s.insert("CS2040", ModuleKind::Commit);
    s.insert("CS1010", ModuleKind::Target);
    s.insert("MA1521", ModuleKind::Commit);
    assert_eq!(s.commits(), codes(&["CS2040", "MA1521"]));
    assert_eq!(s.targets(), codes(&["CS1010"]));
    assert_eq!(s.count_commits(), 2);
    s.clear();
    assert!(s.is_empty());
}

#[test]
fn plan_forks_where_offered_and_unlocked() {
    let mut b = PlanBuilder::new(2022, 1);
    b.commit(1, 1, "A");
    b.target(1, 3, "X");
    assert_eq!(b.targets(), codes(&["X"]));
    let space = vec![
        Module::new("A", "2022/2023", vec![1, 2], PrereqTree::empty()),
        Module::new("X", "2022/2023", vec![2, 3], PrereqTree::only("A")),
    ];
    let mut plan = b.build(space);
    assert_eq!(plan.len(), 0);
    assert_eq!(plan.flat(), codes(&["A"]));
    assert_eq!(plan.commit_set(), codes(&["A"]));
    let data = plan.data();
    assert_eq!(data.len(), 2);
    assert_eq!((data[1].1).1, vec![2, 3]);
    let forks = plan.fork("X", &PrereqTree::only("A"), &vec![2, 3]);
    assert_eq!(forks.len(), 2);
    assert_eq!(forks[0].flat(), codes(&["A", "X"]));
    plan.topo_sort();
    assert!(plan.has_remaining());
    assert_eq!(plan.pop(), "A");
    assert_eq!(plan.pop(), "X");
    assert!(!plan.has_remaining());
    let empty = Plan::new(2);
    assert!(empty.flat().is_empty());
}

#[test]
fn closure_loader_collects_every_code() {
    let trees = vec![
        ("X".to_string(), PrereqTree::And { and: vec![PrereqTree::only("A"), PrereqTree::only("B")] }),
        ("A".to_string(), PrereqTree::only("B")),
        ("B".to_string(), PrereqTree::empty()),
    ];
    let mut loader = ClosureLoader::new(codes(&["X"]));
    let mut rounds = 0;
    loop {
        match loader.step() {
            Step::Fetch(want) => {
                let fetched = want
                    .iter()
                    .map(|c| (c.clone(), trees.iter().find(|t| &t.0 == c).map(|t| t.1.clone())))
                    .collect();
                loader.receive(fetched);
                rounds += 1;
            },
            Step::Done(all) => {
                let mut got: Vec<String> = all.iter().map(|k| k.0.clone()).collect();
                got.sort();
                assert_eq!(got, codes(&["A", "B", "X"]));
                break;
            },
            Step::Failed(_) => panic!("closure failed"),
        }
    }
    assert!(rounds >= 2);
}

#[test]
fn closure_loader_gives_up_on_missing_codes() {
    let mut loader = ClosureLoader::new(codes(&["X"]));
    let mut failed = false;
    for _ in 0..10 {
        match loader.step() {
            Step::Fetch(want) => loader.receive(want.iter().map(|c| (c.clone(), None)).collect()),
            Step::Failed(Error::ClosureIncomplete(missing)) => {
                assert_eq!(missing, codes(&["X"]));
                failed = true;
                break;
            },
            _ => break,
        }
    }
    assert!(failed);
}

#[test]
fn semester_names() {
    assert_eq!(modtree::plan::sem(1), "Sem 1");
    assert_eq!(modtree::plan::sem(3), "S.T.1");
    assert_eq!(modtree::plan::sem(4), "S.T.2");
    assert_eq!(modtree::plan::sem(7), "[invalid semester]");
}

#[test]
fn closure_loader_keeps_fetched_trees() {
    let mut loader = ClosureLoader::new(codes(&["X", "X"]));
    match loader.step() {
        Step::Fetch(want) => assert_eq!(want, codes(&["X"])),
        _ => panic!("expected a fetch"),
    }
    let tree = PrereqTree::Or { or: vec![PrereqTree::only("A"), PrereqTree::only("B")] };
    loader.receive(vec![("X".to_string(), Some(tree.clone())), ("Q".to_string(), Some(PrereqTree::empty()))]);
    match loader.step() {
        Step::Fetch(mut want) => {
            want.sort();
            assert_eq!(want, codes(&["A", "B"]));
        },
        _ => panic!("expected a fetch"),
    }
    loader.receive(vec![
        ("A".to_string(), Some(PrereqTree::empty())),
        ("B".to_string(), Some(PrereqTree::empty())),
    ]);
    match loader.step() {
        Step::Done(all) => {
            assert_eq!(all.len(), 3);
            assert_eq!(all[0].0, "X");
            assert_eq!(all[0].1, tree);
        },
        _ => panic!("expected the closure"),
    }
}
