use modresolve::graph::{Group, Requirement, Vertice};
use modresolve::names::{str_eq, str_le};
use modresolve::selection::Selection;
use modresolve::version::Version;
use semver::VersionReq;

fn v(major: u64, minor: u64, patch: u64) -> Version {
    Version::new(major, minor, patch)
}

#[test]
fn version_order_is_major_minor_patch() {
    assert!(v(0, 1, 2).lt(v(0, 1, 3)));
    assert!(v(0, 1, 9).lt(v(0, 2, 0)));
    assert!(v(0, 9, 9).lt(v(1, 0, 0)));
    assert!(!v(1, 0, 0).lt(v(1, 0, 0)));
    assert!(!v(1, 0, 1).lt(v(1, 0, 0)));
}

#[test]
fn name_comparison_is_byte_lexicographic() {
    assert!(str_le("abc", "abd"));
    assert!(!str_le("abd", "abc"));
    assert!(str_le("ab", "abc"));
    assert!(str_le("abc", "abc"));
    assert!(str_eq("abc", "abc"));
    assert!(!str_eq("abc", "abd"));
    assert!(!str_eq("ab", "abc"));
}

#[test]
fn sort_children_orders_versions_highest_first_without_duplicates() {
    let mut vert = Vertice {
        name: "A".to_string(),
        version: v(1, 0, 0),
        requirements: vec![Requirement {
            module: "B".to_string(),
            constraint: VersionReq::parse("^1.0.0").unwrap(),
        }],
        children: vec![Group {
            name: "B".to_string(),
            versions: vec![v(1, 0, 0), v(1, 2, 0), v(1, 0, 0), v(1, 1, 0)],
        }],
        parents: vec![],
        unsatisfied_requirements: vec![],
    };
    vert.sort_children();
    assert_eq!(vert.children.len(), 1);
    assert_eq!(vert.children[0].versions, vec![v(1, 2, 0), v(1, 1, 0), v(1, 0, 0)]);
    assert!(vert.is_satisfied());
}

#[test]
fn selection_keeps_entries_sorted_by_name() {
    let mut sel = Selection::new();
    sel.insert("delta".to_string(), v(1, 0, 0));
    sel.insert("alpha".to_string(), v(2, 0, 0));
    sel.insert("charlie".to_string(), v(3, 0, 0));
    assert_eq!(sel.get("alpha"), Some(v(2, 0, 0)));
    assert_eq!(sel.get("echo"), None);
    let names: Vec<String> = sel.entries.iter().map(|e| e.0.clone()).collect();
    assert_eq!(names, vec!["alpha".to_string(), "charlie".to_string(), "delta".to_string()]);
    sel.remove("charlie");
    assert_eq!(sel.get("charlie"), None);
    assert_eq!(sel.entries.len(), 2);
}
