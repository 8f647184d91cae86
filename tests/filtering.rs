use ws_cleaner::filtering::{find_unused_pkgs, DepFilter, DepType, Dependency, Package};

fn test_package(name: &str, deps: &[&str]) -> Package {
    Package {
        name: name.to_string(),
        path: "name".into(),
        deps: deps
            .iter()
            .map(|n| Dependency {
                name: n.to_string(),
                dep_type: DepType::All,
            })
            .collect(),
    }
}

fn typed_package(name: &str, deps: &[(&str, DepType)]) -> Package {
    Package {
        name: name.to_string(),
        path: ".".into(),
        deps: deps
            .iter()
            .map(|(n, t)| Dependency::new(n.to_string(), *t))
            .collect(),
    }
}

fn sorted_names(pkgs: &[Package]) -> Vec<String> {
    let mut names: Vec<String> = pkgs.iter().map(|p| p.name.clone()).collect();
    names.sort();
    names
}

#[test]
fn empty_needs_nothing() {
    let res = find_unused_pkgs(&[], &[], &DepFilter::All);
    assert_eq!(res, [])
}

#[test]
fn normal_dependencies() {
    let ws = vec![test_package("test", &["a"])];
    let a = test_package("a", &[]);
    let b = test_package("b", &[]);
    let upstream = vec![a, b.clone()];
    let res = find_unused_pkgs(&ws, &upstream, &DepFilter::All);
    assert_eq!(res, [b]);
}

#[test]
fn transitive() {
    let ws = vec![Package {
        name: "test".to_string(),
        path: ".".into(),
        deps: vec![
            Dependency {
                name: "a".into(),
                dep_type: DepType::Build,
            },
            Dependency {
                name: "other".into(),
                dep_type: DepType::All,
            },
        ],
    }];
    let a = Package {
        name: "a".to_string(),
        path: ".".into(),
        deps: vec![Dependency {
            name: "b".into(),
            dep_type: DepType::Build,
        }],
    };
    let b = Package {
        name: "b".to_string(),
        path: ".".into(),
        deps: vec![],
    };
    let res = find_unused_pkgs(&ws, &[a, b], &DepFilter::All);
    assert_eq!(res, []);
}

#[test]
fn filters() {
    let ws = vec![Package {
        name: "test".to_string(),
        path: ".".into(),
        deps: vec![Dependency {
            name: "a".into(),
            dep_type: DepType::Exec,
        }],
    }];
    let a = Package {
        name: "a".to_string(),
        path: ".".into(),
        deps: vec![Dependency {
            name: "b".into(),
            dep_type: DepType::Build,
        }],
    };
    let res = find_unused_pkgs(&ws, &[a.clone()], &DepFilter::Build);
    assert_eq!(res, [a]);
}

#[test]
fn overlaps() {
    let a = test_package("a", &[]);
    let b = test_package("b", &[]);
    let c = test_package("c", &[]);
    let d = test_package("d", &[]);
    let ws = vec![a, b, c, d];
    let res = find_unused_pkgs(&ws, &ws, &DepFilter::All);
    assert!(res.is_empty());
}

#[test]
fn build_dependency_keeps_only_its_target() {
    let ws = vec![typed_package("test", &[("a", DepType::Build)])];
    let a = typed_package("a", &[]);
    let b = typed_package("b", &[]);
    let res = find_unused_pkgs(&ws, &[a, b.clone()], &DepFilter::All);
    assert_eq!(res, [b]);
}

#[test]
fn build_only_matcher_skips_exec_dependency() {
    let ws = vec![typed_package("test", &[("a", DepType::Exec)])];
    let a = typed_package("a", &[("b", DepType::Build)]);
    let filter = Dependency::matcher(vec![DepType::Build]);
    let res = find_unused_pkgs(&ws, &[a.clone()], &filter);
    assert_eq!(res, [a]);
}

#[test]
fn long_chain_is_kept() {
    let ws = vec![test_package("test", &["p0"])];
    let mut upstream = Vec::new();
    for i in 0..50 {
        let next = format!("p{}", i + 1);
        upstream.push(test_package(&format!("p{}", i), &[next.as_str()]));
    }
    upstream.push(test_package("loose", &[]));
    let res = find_unused_pkgs(&ws, &upstream, &DepFilter::All);
    assert_eq!(sorted_names(&res), vec!["loose".to_string()]);
}

#[test]
fn cycle_terminates_and_is_kept() {
    let ws = vec![test_package("test", &["a"])];
    let upstream = vec![
        test_package("a", &["b"]),
        test_package("b", &["c"]),
        test_package("c", &["a", "test"]),
        test_package("d", &["a"]),
    ];
    let res = find_unused_pkgs(&ws, &upstream, &DepFilter::All);
    assert_eq!(sorted_names(&res), vec!["d".to_string()]);
}

#[test]
fn unreached_cycle_is_unused() {
    let ws = vec![test_package("test", &[])];
    let upstream = vec![test_package("a", &["b"]), test_package("b", &["a"])];
    let res = find_unused_pkgs(&ws, &upstream, &DepFilter::All);
    assert_eq!(sorted_names(&res), vec!["a".to_string(), "b".to_string()]);
}

#[test]
fn kept_package_in_pool_is_not_reported() {
    let kept = test_package("k", &[]);
    let other = Package {
        name: "k".to_string(),
        path: "elsewhere".into(),
        deps: vec![],
    };
    let res = find_unused_pkgs(&[kept.clone()], &[kept, other.clone()], &DepFilter::All);
    assert_eq!(res, [other]);
}

#[test]
fn same_name_keeps_the_last_entry() {
    let first = Package {
        name: "a".to_string(),
        path: "one".into(),
        deps: vec![],
    };
    let second = Package {
        name: "a".to_string(),
        path: "two".into(),
        deps: vec![],
    };
    let res = find_unused_pkgs(&[], &[first, second.clone()], &DepFilter::All);
    assert_eq!(res, [second]);
}

#[test]
fn filter_applies_to_upstream_edges() {
    let ws = vec![typed_package("test", &[("a", DepType::Build)])];
    let a = typed_package("a", &[("b", DepType::Test), ("c", DepType::All)]);
    let b = typed_package("b", &[]);
    let c = typed_package("c", &[]);
    let filter = Dependency::matcher(vec![DepType::Build]);
    let res = find_unused_pkgs(&ws, &[a, b.clone(), c], &filter);
    assert_eq!(res, [b]);
}

#[test]
fn empty_matcher_admits_nothing() {
    let filter = Dependency::matcher(vec![]);
    for t in [DepType::All, DepType::Build, DepType::Exec, DepType::Test] {
        assert!(!filter.accepts(&Dependency::new("x".to_string(), t)));
    }
    let ws = vec![test_package("test", &["a"])];
    let a = test_package("a", &[]);
    let res = find_unused_pkgs(&ws, &[a.clone()], &filter);
    assert_eq!(res, [a]);
}

#[test]
fn repeated_types_make_the_same_matcher() {
    let twice = Dependency::matcher(vec![DepType::Build, DepType::Build]);
    let once = Dependency::matcher(vec![DepType::Build]);
    for t in [DepType::All, DepType::Build, DepType::Exec, DepType::Test] {
        let d = Dependency::new("x".to_string(), t);
        assert_eq!(twice.accepts(&d), once.accepts(&d));
    }
    match twice {
        DepFilter::Types(v) => assert_eq!(v, vec![DepType::Build]),
        _ => panic!("expected a list of types"),
    }
}

#[test]
fn matcher_sorts_and_dedups() {
    let f = Dependency::matcher(vec![DepType::Test, DepType::All, DepType::Test, DepType::Exec]);
    match f {
        DepFilter::Types(v) => assert_eq!(v, vec![DepType::All, DepType::Exec, DepType::Test]),
        _ => panic!("expected a list of types"),
    }
}

#[test]
fn matches_table() {
    assert!(DepType::All.matches(&DepType::Test));
    assert!(DepType::Exec.matches(&DepType::All));
    assert!(DepType::Build.matches(&DepType::Build));
    assert!(!DepType::Build.matches(&DepType::Exec));
    assert!(!DepType::Test.matches(&DepType::Build));
}

#[test]
fn predicate_functions() {
    let exec = Dependency::new("x".to_string(), DepType::Exec);
    let all = Dependency::new("y".to_string(), DepType::All);
    assert!(Dependency::all(&exec));
    assert!(!Dependency::build(&exec));
    assert!(Dependency::build(&all));
    assert!(!DepFilter::Build.accepts(&exec));
    assert!(DepFilter::All.accepts(&exec));
}

#[test]
fn duplicate_is_equal() {
    let p = typed_package("a", &[("b", DepType::Test)]);
    assert_eq!(p.duplicate(), p);
    let mut q = p.duplicate();
    q.path = "other".into();
    assert_ne!(p, q);
}
