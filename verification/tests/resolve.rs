use modresolve::diag::Diagnostic;
use modresolve::graph::{Graph, Group, Module, Requirement};
use modresolve::solve::solve_dependencies;
use modresolve::version::Version;
use semver::VersionReq;

fn v(major: u64, minor: u64, patch: u64) -> Version {
    Version::new(major, minor, patch)
}

fn req(target: &str, range: &str) -> Requirement {
    Requirement { module: target.to_string(), constraint: VersionReq::parse(range).unwrap() }
}

fn module(name: &str, version: Version, requirements: Vec<Requirement>) -> Module {
    Module { name: name.to_string(), version, requirements }
}

/// The sample catalog the resolver was designed around.
fn pmu_catalog(dff_range_of_pmu_030: &str) -> Vec<Module> {
    vec![
        module("PMU", v(0, 1, 0), vec![req("UART", "^0.1.0"), req("I2C", "^0.1.0"), req("DFF", "^0.1.0")]),
        module("PMU", v(0, 2, 0), vec![req("UART", "^0.5.0"), req("I2C", "^0.2.0"), req("DFF", "~0.2.0")]),
        module("PMU", v(0, 3, 0), vec![req("UART", "^0.5.0"), req("I2C", ">=0.2.0"), req("DFF", dff_range_of_pmu_030)]),
        module("UART", v(0, 1, 0), vec![req("DFF", "~0.1.0")]),
        module("UART", v(0, 5, 0), vec![req("DFF", "^0.2.0")]),
        module("I2C", v(0, 1, 0), vec![req("DFF", "^0.1.0")]),
        module("I2C", v(0, 2, 0), vec![req("DFF", "^0.2.0")]),
        module("I2C", v(1, 0, 0), vec![req("DFF", "^0.2.1")]),
        module("I2C", v(1, 0, 1), vec![req("DFF", "^0.2.1")]),
        module("DFF", v(0, 1, 0), vec![]),
        module("DFF", v(0, 2, 0), vec![]),
        module("DFF", v(0, 2, 1), vec![]),
    ]
}

fn solve(catalog: &Vec<Module>, top_name: &str, top_version: Version) -> Result<Vec<(String, Version)>, Vec<Diagnostic>> {
    let refs: Vec<&Module> = catalog.iter().collect();
    solve_dependencies(refs, top_name.to_string(), top_version)
}

#[test]
fn pmu_catalog_resolves_highest_consistent_set() {
    let catalog = pmu_catalog("^0.2.1");
    let result = solve(&catalog, "PMU", v(0, 3, 0)).unwrap();
    let expected = vec![
        ("DFF".to_string(), v(0, 2, 1)),
        ("I2C".to_string(), v(1, 0, 1)),
        ("PMU".to_string(), v(0, 3, 0)),
        ("UART".to_string(), v(0, 5, 0)),
    ];
    assert_eq!(result, expected);
}

#[test]
fn pmu_with_unmatchable_dff_range_fails_mentioning_dff() {
    // No DFF version lies in ^0.1.1 (>=0.1.1, <0.2.0), so PMU:0.3.0 cannot
    // be satisfied and the report must name DFF.
    let catalog = pmu_catalog("^0.1.1");
    let err = solve(&catalog, "PMU", v(0, 3, 0)).unwrap_err();
    assert!(err.iter().any(|d| match d {
        Diagnostic::UnsatisfiedRequirement { name, version, target, constraint } =>
            name == "PMU" && *version == v(0, 3, 0) && target == "DFF"
                && *constraint == VersionReq::parse("^0.1.1").unwrap(),
        _ => false,
    }));
}

#[test]
fn chain_backtracks_to_the_highest_viable_set() {
    let catalog = vec![
        module("A", v(0, 1, 0), vec![req("B", "^0.1.2")]),
        module("B", v(0, 1, 0), vec![req("C", "^1.1.2")]),
        module("B", v(0, 1, 6), vec![req("C", "^1.1.7")]),
        module("B", v(0, 2, 0), vec![req("C", "^1.1.7")]),
        module("C", v(1, 1, 0), vec![]),
        module("C", v(1, 1, 6), vec![]),
        module("C", v(1, 2, 0), vec![]),
    ];
    let result = solve(&catalog, "A", v(0, 1, 0)).unwrap();
    let expected = vec![
        ("A".to_string(), v(0, 1, 0)),
        ("B".to_string(), v(0, 1, 6)),
        ("C".to_string(), v(1, 2, 0)),
    ];
    assert_eq!(result, expected);
}

#[test]
fn mutual_requirements_fail_with_a_cycle_naming_both() {
    let catalog = vec![
        module("A", v(1, 0, 0), vec![req("B", "^1.0.0")]),
        module("B", v(1, 0, 0), vec![req("A", "^1.0.0")]),
    ];
    let err = solve(&catalog, "A", v(1, 0, 0)).unwrap_err();
    assert!(err.iter().any(|d| match d {
        Diagnostic::CycleDetected { path, repeated } =>
            repeated == "A" && path.iter().any(|p| p == "A") && path.iter().any(|p| p == "B"),
        _ => false,
    }));
}

#[test]
fn requirement_on_absent_name_fails_naming_the_target() {
    let catalog = vec![module("A", v(1, 0, 0), vec![req("Z", "^1.0.0")])];
    let err = solve(&catalog, "A", v(1, 0, 0)).unwrap_err();
    assert!(err.iter().any(|d| match d {
        Diagnostic::UnsatisfiedRequirement { name, target, .. } => name == "A" && target == "Z",
        _ => false,
    }));
}

#[test]
fn unknown_top_module_fails_with_node_not_found() {
    let catalog = vec![module("A", v(1, 0, 0), vec![])];
    let err = solve(&catalog, "X", v(1, 0, 0)).unwrap_err();
    assert_eq!(err.len(), 1);
    assert!(matches!(
        &err[0],
        Diagnostic::NodeNotFound { name, version } if name == "X" && *version == v(1, 0, 0)
    ));
}

#[test]
fn repeated_resolution_is_deterministic() {
    let catalog = pmu_catalog("^0.2.1");
    let refs: Vec<&Module> = catalog.iter().collect();
    let mut graph = Graph::new();
    graph.loads_modules(refs);
    let first = graph.dfs("PMU".to_string(), v(0, 3, 0));
    let second = graph.dfs("PMU".to_string(), v(0, 3, 0));
    assert_eq!(first.unwrap(), second.unwrap());
}

#[test]
fn highest_viable_version_is_preferred() {
    let catalog = vec![
        module("A", v(1, 0, 0), vec![req("B", "^1.0.0")]),
        module("B", v(1, 0, 0), vec![]),
        module("B", v(1, 2, 0), vec![]),
        module("B", v(1, 5, 0), vec![]),
    ];
    let result = solve(&catalog, "A", v(1, 0, 0)).unwrap();
    let expected = vec![("A".to_string(), v(1, 0, 0)), ("B".to_string(), v(1, 5, 0))];
    assert_eq!(result, expected);
}

#[test]
fn duplicate_record_keeps_the_later_requirements() {
    let catalog = vec![
        module("A", v(1, 0, 0), vec![req("Z", "^1.0.0")]),
        module("B", v(1, 0, 0), vec![]),
        // same pair again: this record replaces the one above
        module("A", v(1, 0, 0), vec![req("B", "^1.0.0")]),
    ];
    let result = solve(&catalog, "A", v(1, 0, 0)).unwrap();
    let expected = vec![("A".to_string(), v(1, 0, 0)), ("B".to_string(), v(1, 0, 0))];
    assert_eq!(result, expected);
}

fn groups_contain(groups: &Vec<Group>, name: &str, version: Version) -> bool {
    groups.iter().any(|grp| grp.name == name && grp.versions.iter().any(|w| *w == version))
}

fn assert_symmetric(catalog: &Vec<Module>) {
    let refs: Vec<&Module> = catalog.iter().collect();
    let mut graph = Graph::new();
    graph.loads_modules(refs);
    for a in graph.vertices.iter() {
        for b in graph.vertices.iter() {
            assert_eq!(
                groups_contain(&a.children, &b.name, b.version),
                groups_contain(&b.parents, &a.name, a.version),
                "edge between {}:{:?} and {}:{:?} is not symmetric",
                a.name,
                a.version,
                b.name,
                b.version,
            );
        }
    }
}

#[test]
fn children_and_parents_are_symmetric_on_the_sample_catalog() {
    assert_symmetric(&pmu_catalog("^0.2.1"));
}

#[test]
fn children_and_parents_are_symmetric_on_generated_catalogs() {
    // a small deterministic pseudo-random generator
    let mut state: u64 = 0x2545f4914f6cdd1d;
    let mut next = move || {
        state ^= state << 13;
        state ^= state >> 7;
        state ^= state << 17;
        state
    };
    let names = ["a", "b", "c", "d"];
    for _ in 0..10 {
        let mut catalog: Vec<Module> = Vec::new();
        for name in names.iter() {
            let nvers = 1 + next() % 3;
            for _ in 0..nvers {
                let ver = v(next() % 2, next() % 3, next() % 3);
                let mut reqs: Vec<Requirement> = Vec::new();
                let nreqs = next() % 3;
                for _ in 0..nreqs {
                    let target = names[(next() % 4) as usize];
                    let range = format!("^{}.{}.{}", next() % 2, next() % 3, next() % 3);
                    reqs.push(req(target, &range));
                }
                if !catalog.iter().any(|m| m.name == *name && m.version == ver) {
                    catalog.push(module(name, ver, reqs));
                }
            }
        }
        assert_symmetric(&catalog);
    }
}
