use vstd::prelude::*;
use crate::version::{Version, version_lt, lemma_version_lt_strict_total};
use crate::names::{name_lt, str_eq, str_le, lemma_name_order};
use crate::constraint::req_matches;

verus! {

/// A version-range requirement on another module.
pub struct Requirement {
    pub module: String,
    pub constraint: semver::VersionReq,
}

/// One catalog record: a module name, one of its versions, and what that
/// version requires of other modules.
pub struct Module {
    pub name: String,
    pub version: Version,
    pub requirements: Vec<Requirement>,
}

/// The versions of one target module name appearing on an adjacency list.
pub struct Group {
    pub name: String,
    pub versions: Vec<Version>,
}

/// One node of the dependency graph: a (name, version) pair, the requirements
/// of its record, and its precomputed adjacency.
pub struct Vertice {
    pub name: String,
    pub version: Version,
    pub requirements: Vec<Requirement>,
    /// For each target name with at least one catalog version matching one of
    /// this node's requirements on it: those versions, highest first.
    pub children: Vec<Group>,
    /// The reverse edges: the (name, version) pairs whose children include
    /// this node.
    pub parents: Vec<Group>,
    /// Indices into `requirements` of the requirements no catalog version of
    /// the target satisfies.
    pub unsatisfied_requirements: Vec<usize>,
}

/// The dependency graph: one node per distinct catalog (name, version) pair.
pub struct Graph {
    pub vertices: Vec<Vertice>,
}

// ------------------------------------------------------------------
// Spec view of the graph
// ------------------------------------------------------------------

/// The catalog offers version `v` under the module name `n`.
pub open spec fn catalog_has(g: Seq<Vertice>, n: Seq<char>, v: Version) -> bool {
    exists|i: int| 0 <= i < g.len() && g[i].name@ == n && g[i].version == v
}

/// The catalog offers some version under the module name `n`.
pub open spec fn catalog_has_name(g: Seq<Vertice>, n: Seq<char>) -> bool {
    exists|i: int| 0 <= i < g.len() && g[i].name@ == n
}

/// No two nodes share both name and version.
pub open spec fn distinct_nodes(g: Seq<Vertice>) -> bool {
    forall|i: int, j: int|
        0 <= i < j < g.len() ==> !(g[i].name@ == g[j].name@ && g[i].version == g[j].version)
}

/// Some requirement in `reqs` targets name `n` and accepts version `v`.
pub open spec fn wants(reqs: Seq<Requirement>, n: Seq<char>, v: Version) -> bool {
    exists|k: int|
        0 <= k < reqs.len() && reqs[k].module@ == n && req_matches(reqs[k].constraint, v)
}

/// A child edge: the catalog offers `n:v`, and `reqs` has a requirement on
/// `n` that `v` satisfies.
pub open spec fn child_edge(g: Seq<Vertice>, reqs: Seq<Requirement>, n: Seq<char>, v: Version) -> bool {
    catalog_has(g, n, v) && wants(reqs, n, v)
}

/// Some catalog version of the requirement's target satisfies it.
pub open spec fn req_satisfiable(g: Seq<Vertice>, r: Requirement) -> bool {
    exists|v: Version| catalog_has(g, r.module@, v) && #[trigger] req_matches(r.constraint, v)
}

/// `v` appears under name `n` in the adjacency list `gs`.
pub open spec fn group_contains(gs: Seq<Group>, n: Seq<char>, v: Version) -> bool {
    exists|i: int| 0 <= i < gs.len() && gs[i].name@ == n && gs[i].versions@.contains(v)
}

/// Versions in strictly descending order: highest first, no duplicates.
pub open spec fn versions_sorted_desc(vs: Seq<Version>) -> bool {
    forall|i: int, j: int| 0 <= i < j < vs.len() ==> version_lt(vs[j], vs[i])
}

/// Groups in strictly ascending name order: each name at most once.
pub open spec fn groups_sorted(gs: Seq<Group>) -> bool {
    forall|i: int, j: int| 0 <= i < j < gs.len() ==> name_lt(gs[i].name@, gs[j].name@)
}

/// The shape every adjacency list keeps: sorted group names, and each group
/// non-empty with its versions strictly descending.
pub open spec fn groups_shape_wf(gs: Seq<Group>) -> bool {
    &&& groups_sorted(gs)
    &&& forall|i: int|
        0 <= i < gs.len() ==> (#[trigger] gs[i].versions@.len() > 0 && versions_sorted_desc(
            gs[i].versions@,
        ))
}

/// `gs` holds exactly the child edges of a node with requirements `reqs`.
pub open spec fn children_exact(g: Seq<Vertice>, reqs: Seq<Requirement>, gs: Seq<Group>) -> bool {
    &&& groups_shape_wf(gs)
    &&& forall|n: Seq<char>, v: Version|
        #![trigger group_contains(gs, n, v)]
        #![trigger child_edge(g, reqs, n, v)]
        group_contains(gs, n, v) <==> child_edge(g, reqs, n, v)
}

/// `unsat` lists exactly the indices of the requirements of `reqs` that no
/// catalog version satisfies, in increasing order.
pub open spec fn unsat_exact(g: Seq<Vertice>, reqs: Seq<Requirement>, unsat: Seq<usize>) -> bool {
    &&& forall|a: int, b: int| 0 <= a < b < unsat.len() ==> unsat[a] < unsat[b]
    &&& forall|a: int|
        0 <= a < unsat.len() ==> (#[trigger] unsat[a] < reqs.len() && !req_satisfiable(
            g,
            reqs[unsat[a] as int],
        ))
    &&& forall|k: int|
        0 <= k < reqs.len() && !req_satisfiable(g, #[trigger] reqs[k]) ==> unsat.contains(
            k as usize,
        )
}

/// A parent edge: the catalog node `pn:pv` has `n:v` among its children.
pub open spec fn parent_edge(g: Seq<Vertice>, n: Seq<char>, v: Version, pn: Seq<char>, pv: Version) -> bool {
    exists|j: int|
        0 <= j < g.len() && g[j].name@ == pn && g[j].version == pv && group_contains(
            g[j].children@,
            n,
            v,
        )
}

/// `u.parents` holds exactly the parent edges of `u` in `g`.
pub open spec fn parents_exact(g: Seq<Vertice>, u: Vertice) -> bool {
    &&& groups_shape_wf(u.parents@)
    &&& forall|pn: Seq<char>, pv: Version|
        #![trigger group_contains(u.parents@, pn, pv)]
        #![trigger parent_edge(g, u.name@, u.version, pn, pv)]
        group_contains(u.parents@, pn, pv) <==> parent_edge(g, u.name@, u.version, pn, pv)
}

/// A fully built node: children, unsatisfied requirements and parents all
/// agree with the catalog.
pub open spec fn vertice_wf(g: Seq<Vertice>, u: Vertice) -> bool {
    &&& children_exact(g, u.requirements@, u.children@)
    &&& unsat_exact(g, u.requirements@, u.unsatisfied_requirements@)
    &&& parents_exact(g, u)
}

/// A fully built graph.
pub open spec fn graph_wf(g: Seq<Vertice>) -> bool {
    &&& distinct_nodes(g)
    &&& forall|i: int| 0 <= i < g.len() ==> vertice_wf(g, #[trigger] g[i])
}

/// A node is satisfied when none of its requirements is unsatisfiable.
pub open spec fn vertice_satisfied(u: Vertice) -> bool {
    u.unsatisfied_requirements@.len() == 0
}

impl Vertice {
    /// Whether every requirement of this node has at least one catalog match.
    pub fn is_satisfied(&self) -> (r: bool)
        ensures
            r == vertice_satisfied(*self),
    {
        self.unsatisfied_requirements.len() == 0
    }
}


// ------------------------------------------------------------------
// Small executable helpers
// ------------------------------------------------------------------

/// An exact copy of a requirement (the range is cloned through semver).
pub fn copy_requirement(r: &Requirement) -> (res: Requirement)
    ensures
        res == *r,
{
    let res = Requirement { module: r.module.clone(), constraint: r.constraint.clone() };
    proof {
        assert(res == *r);
    }
    res
}

/// An exact copy of a requirement list.
pub fn copy_requirements(rs: &Vec<Requirement>) -> (res: Vec<Requirement>)
    ensures
        res@ == rs@,
{
    let mut res: Vec<Requirement> = Vec::new();
    let mut i: usize = 0;
    while i < rs.len()
        invariant
            i <= rs@.len(),
            res@ =~= rs@.take(i as int),
        decreases rs@.len() - i,
    {
        res.push(copy_requirement(&rs[i]));
        proof {
            assert(res@ =~= rs@.take(i as int + 1));
        }
        i = i + 1;
    }
    proof {
        assert(rs@.take(rs@.len() as int) =~= rs@);
    }
    res
}

/// Finds the node of a (name, version) pair, if the catalog has one.
pub fn find_vertice(vs: &Vec<Vertice>, name: &str, version: Version) -> (r: Option<usize>)
    ensures
        match r {
            Some(i) => i < vs@.len() && vs@[i as int].name@ == name@ && vs@[i as int].version
                == version,
            None => !catalog_has(vs@, name@, version),
        },
{
    let mut i: usize = 0;
    while i < vs.len()
        invariant
            i <= vs@.len(),
            forall|j: int| 0 <= j < i ==> !(vs@[j].name@ == name@ && vs@[j].version == version),
        decreases vs@.len() - i,
    {
        if str_eq(vs[i].name.as_str(), name) && vs[i].version == version {
            return Some(i);
        }
        i = i + 1;
    }
    None
}

/// Inserts `v` into a strictly descending version list, keeping order and
/// ignoring a duplicate.
pub fn insert_version_desc(vs: &mut Vec<Version>, v: Version)
    requires
        versions_sorted_desc(old(vs)@),
    ensures
        versions_sorted_desc(final(vs)@),
        final(vs)@.len() > 0,
        forall|x: Version| final(vs)@.contains(x) == (old(vs)@.contains(x) || x == v),
{
    let ghost vs0 = vs@;
    let mut p: usize = 0;
    loop
        invariant
            versions_sorted_desc(vs@),
            vs@ == vs0,
            p <= vs@.len(),
            forall|j: int| 0 <= j < p ==> version_lt(v, vs@[j]),
        ensures
            versions_sorted_desc(vs@),
            vs@ == vs0,
            p <= vs@.len(),
            forall|j: int| 0 <= j < p ==> version_lt(v, vs@[j]),
            p == vs@.len() || version_lt(vs@[p as int], v),
        decreases vs@.len() - p,
    {
        if p >= vs.len() {
            break;
        }
        let c = vs[p];
        if c == v {
            proof {
                assert(vs@.contains(v));
                assert(forall|x: Version| vs@.contains(x) == (vs0.contains(x) || x == v));
            }
            return;
        }
        if c.lt(v) {
            break;
        }
        proof {
            lemma_version_lt_strict_total(v, c, c);
        }
        p = p + 1;
    }
    proof {
        // every element past the insertion point is below v
        assert forall|j: int| p <= j < vs@.len() implies version_lt(vs@[j], v) by {
            if j > p {
                lemma_version_lt_strict_total(vs@[j], vs@[p as int], v);
            } else {
                lemma_version_lt_strict_total(vs@[p as int], v, v);
            }
        }
    }
    vs.insert(p, v);
    proof {
        let after = vs@;
        assert forall|x: Version| after.contains(x) == (vs0.contains(x) || x == v) by {
            if after.contains(x) {
                let i = choose|i: int| 0 <= i < after.len() && after[i] == x;
                if i < p {
                    assert(vs0[i] == x);
                    assert(vs0.contains(x));
                } else if i == p {
                } else {
                    assert(vs0[i - 1] == x);
                    assert(vs0.contains(x));
                }
            }
            if vs0.contains(x) {
                let i = choose|i: int| 0 <= i < vs0.len() && vs0[i] == x;
                if i < p {
                    assert(after[i] == x);
                } else {
                    assert(after[i + 1] == x);
                }
                assert(after.contains(x));
            }
            if x == v {
                assert(after[p as int] == x);
                assert(after.contains(x));
            }
        }
        assert forall|i: int, j: int| 0 <= i < j < after.len() implies version_lt(
            after[j],
            after[i],
        ) by {
            if j < p {
            } else if i < p && j == p {
            } else if i < p && j > p {
            } else if i == p {
            } else {
            }
        }
    }
}


/// Adds one (name, version) pair to an adjacency list, creating the group at
/// its sorted place or inserting the version into the existing group.
pub fn add_group_entry(gs: &mut Vec<Group>, name: &String, v: Version)
    requires
        groups_shape_wf(old(gs)@),
    ensures
        groups_shape_wf(final(gs)@),
        forall|n2: Seq<char>, v2: Version|
            group_contains(final(gs)@, n2, v2) == (group_contains(old(gs)@, n2, v2) || (n2
                == name@ && v2 == v)),
{
    let ghost gs0 = gs@;
    let mut p: usize = 0;
    loop
        invariant
            gs@ == gs0,
            groups_shape_wf(gs@),
            p <= gs@.len(),
            forall|j: int| 0 <= j < p ==> name_lt(gs@[j].name@, name@),
        ensures
            gs@ == gs0,
            p <= gs@.len(),
            forall|j: int| 0 <= j < p ==> name_lt(gs@[j].name@, name@),
            p == gs@.len() || gs@[p as int].name@ == name@ || name_lt(name@, gs@[p as int].name@),
        decreases gs@.len() - p,
    {
        if p >= gs.len() {
            break;
        }
        if str_eq(gs[p].name.as_str(), name.as_str()) {
            break;
        }
        if str_le(name.as_str(), gs[p].name.as_str()) {
            proof {
                lemma_name_order(name@, gs@[p as int].name@, name@);
            }
            break;
        }
        proof {
            lemma_name_order(name@, gs@[p as int].name@, name@);
        }
        p = p + 1;
    }
    let hit = p < gs.len() && str_eq(gs[p].name.as_str(), name.as_str());
    if hit {
        insert_version_desc(&mut gs[p].versions, v);
        proof {
            let after = gs@;
            assert(after.len() == gs0.len());
            assert(after[p as int].name@ == name@);
            assert(forall|j: int| 0 <= j < after.len() && j != p ==> after[j] == gs0[j]);
            assert forall|n2: Seq<char>, v2: Version|
                group_contains(after, n2, v2) == (group_contains(gs0, n2, v2) || (n2 == name@
                    && v2 == v)) by {
                if group_contains(after, n2, v2) {
                    let i = choose|i: int|
                        0 <= i < after.len() && after[i].name@ == n2 && after[i].versions@.contains(
                            v2,
                        );
                    if i != p {
                        assert(gs0[i].name@ == n2 && gs0[i].versions@.contains(v2));
                        assert(group_contains(gs0, n2, v2));
                    } else {
                        if v2 != v {
                            assert(gs0[p as int].versions@.contains(v2));
                            assert(group_contains(gs0, n2, v2));
                        }
                    }
                }
                if group_contains(gs0, n2, v2) {
                    let i = choose|i: int|
                        0 <= i < gs0.len() && gs0[i].name@ == n2 && gs0[i].versions@.contains(v2);
                    assert(after[i].name@ == n2 && after[i].versions@.contains(v2));
                    assert(group_contains(after, n2, v2));
                }
                if n2 == name@ && v2 == v {
                    assert(after[p as int].name@ == n2 && after[p as int].versions@.contains(v2));
                    assert(group_contains(after, n2, v2));
                }
            }
            assert forall|i: int, j: int| 0 <= i < j < after.len() implies name_lt(
                after[i].name@,
                after[j].name@,
            ) by {
                assert(after[i].name@ == gs0[i].name@);
                assert(after[j].name@ == gs0[j].name@);
            }
        }
    } else {
        proof {
            if p < gs@.len() {
                assert(name_lt(name@, gs@[p as int].name@));
            }
        }
        let mut nvs: Vec<Version> = Vec::new();
        nvs.push(v);
        let g = Group { name: name.clone(), versions: nvs };
        gs.insert(p, g);
        proof {
            let after = gs@;
            assert(after[p as int].name@ == name@);
            assert(after[p as int].versions@ =~= seq![v]);
            assert forall|n2: Seq<char>, v2: Version|
                group_contains(after, n2, v2) == (group_contains(gs0, n2, v2) || (n2 == name@
                    && v2 == v)) by {
                if group_contains(after, n2, v2) {
                    let i = choose|i: int|
                        0 <= i < after.len() && after[i].name@ == n2 && after[i].versions@.contains(
                            v2,
                        );
                    if i < p {
                        assert(gs0[i].name@ == n2 && gs0[i].versions@.contains(v2));
                        assert(group_contains(gs0, n2, v2));
                    } else if i == p {
                        assert(after[i].versions@[0] == v2);
                    } else {
                        assert(gs0[i - 1].name@ == n2 && gs0[i - 1].versions@.contains(v2));
                        assert(group_contains(gs0, n2, v2));
                    }
                }
                if group_contains(gs0, n2, v2) {
                    let i = choose|i: int|
                        0 <= i < gs0.len() && gs0[i].name@ == n2 && gs0[i].versions@.contains(v2);
                    if i < p {
                        assert(after[i].name@ == n2 && after[i].versions@.contains(v2));
                    } else {
                        assert(after[i + 1].name@ == n2 && after[i + 1].versions@.contains(v2));
                    }
                    assert(group_contains(after, n2, v2));
                }
                if n2 == name@ && v2 == v {
                    assert(after[p as int].versions@[0] == v2);
                    assert(after[p as int].name@ == n2 && after[p as int].versions@.contains(v2));
                    assert(group_contains(after, n2, v2));
                }
            }
            assert forall|i: int, j: int| 0 <= i < j < after.len() implies name_lt(
                after[i].name@,
                after[j].name@,
            ) by {
                if j < p {
                } else if i < p && j == p {
                } else if i < p && j > p {
                    assert(after[j].name@ == gs0[j - 1].name@);
                } else if i == p {
                    assert(after[j].name@ == gs0[j - 1].name@);
                    if j - 1 > p - 1 && p <= j - 1 && p < gs0.len() {
                        if j - 1 == p {
                            assert(name_lt(name@, gs0[p as int].name@));
                        } else {
                            assert(name_lt(name@, gs0[p as int].name@));
                            assert(name_lt(gs0[p as int].name@, gs0[j - 1].name@));
                            lemma_name_order(name@, gs0[p as int].name@, gs0[j - 1].name@);
                        }
                    }
                } else {
                    assert(after[i].name@ == gs0[i - 1].name@);
                    assert(after[j].name@ == gs0[j - 1].name@);
                }
            }
            assert forall|i: int| 0 <= i < after.len() implies (#[trigger] after[i].versions@.len()
                > 0 && versions_sorted_desc(after[i].versions@)) by {
                if i < p {
                    assert(after[i] == gs0[i]);
                } else if i > p {
                    assert(after[i] == gs0[i - 1]);
                }
            }
        }
    }
}

// ------------------------------------------------------------------
// Stability of catalog-level facts under edge-only updates
// ------------------------------------------------------------------

/// Two graph states with the same names, versions and requirements agree on
/// every catalog-level fact, whatever their adjacency lists hold.
pub proof fn lemma_same_catalog(g1: Seq<Vertice>, g2: Seq<Vertice>)
    requires
        g1.len() == g2.len(),
        forall|i: int|
            #![trigger g2[i]]
            0 <= i < g1.len() ==> (g2[i].name@ == g1[i].name@ && g2[i].version == g1[i].version
                && g2[i].requirements@ == g1[i].requirements@),
    ensures
        forall|n: Seq<char>, v: Version|
            #[trigger] catalog_has(g2, n, v) == catalog_has(g1, n, v),
        forall|n: Seq<char>| #[trigger] catalog_has_name(g2, n) == catalog_has_name(g1, n),
        forall|r: Requirement| #[trigger] req_satisfiable(g2, r) == req_satisfiable(g1, r),
        forall|reqs: Seq<Requirement>, n: Seq<char>, v: Version|
            #[trigger] child_edge(g2, reqs, n, v) == child_edge(g1, reqs, n, v),
        distinct_nodes(g2) == distinct_nodes(g1),
{
    assert forall|n: Seq<char>, v: Version|
        #[trigger] catalog_has(g2, n, v) == catalog_has(g1, n, v) by {
        if catalog_has(g1, n, v) {
            let i = choose|i: int| 0 <= i < g1.len() && g1[i].name@ == n && g1[i].version == v;
            assert(g2[i].name@ == n && g2[i].version == v);
        }
        if catalog_has(g2, n, v) {
            let i = choose|i: int| 0 <= i < g2.len() && g2[i].name@ == n && g2[i].version == v;
            assert(g1[i].name@ == n && g1[i].version == v);
        }
    }
    assert forall|n: Seq<char>| #[trigger] catalog_has_name(g2, n) == catalog_has_name(g1, n) by {
        if catalog_has_name(g1, n) {
            let i = choose|i: int| 0 <= i < g1.len() && g1[i].name@ == n;
            assert(g2[i].name@ == n);
        }
        if catalog_has_name(g2, n) {
            let i = choose|i: int| 0 <= i < g2.len() && g2[i].name@ == n;
            assert(g1[i].name@ == n);
        }
    }
    assert forall|r: Requirement| #[trigger] req_satisfiable(g2, r) == req_satisfiable(g1, r) by {
        if req_satisfiable(g1, r) {
            let v = choose|v: Version|
                catalog_has(g1, r.module@, v) && #[trigger] req_matches(r.constraint, v);
            assert(catalog_has(g2, r.module@, v));
        }
        if req_satisfiable(g2, r) {
            let v = choose|v: Version|
                catalog_has(g2, r.module@, v) && #[trigger] req_matches(r.constraint, v);
            assert(catalog_has(g1, r.module@, v));
        }
    }
    if distinct_nodes(g1) {
        assert forall|i: int, j: int| 0 <= i < j < g2.len() implies !(g2[i].name@ == g2[j].name@
            && g2[i].version == g2[j].version) by {
            assert(g2[i].name@ == g1[i].name@ && g2[j].name@ == g1[j].name@);
        }
    }
    if distinct_nodes(g2) {
        assert forall|i: int, j: int| 0 <= i < j < g1.len() implies !(g1[i].name@ == g1[j].name@
            && g1[i].version == g1[j].version) by {
            assert(g2[i].name@ == g1[i].name@ && g2[j].name@ == g1[j].name@);
        }
    }
}

/// Exactness of children and unsatisfied-requirement lists carries over
/// between such graph states.
pub proof fn lemma_exact_stable(
    g1: Seq<Vertice>,
    g2: Seq<Vertice>,
    reqs: Seq<Requirement>,
    gs: Seq<Group>,
    unsat: Seq<usize>,
)
    requires
        g1.len() == g2.len(),
        forall|i: int|
            #![trigger g2[i]]
            0 <= i < g1.len() ==> (g2[i].name@ == g1[i].name@ && g2[i].version == g1[i].version
                && g2[i].requirements@ == g1[i].requirements@),
        children_exact(g1, reqs, gs),
        unsat_exact(g1, reqs, unsat),
    ensures
        children_exact(g2, reqs, gs),
        unsat_exact(g2, reqs, unsat),
{
    lemma_same_catalog(g1, g2);
    assert forall|n: Seq<char>, v: Version|
        #![trigger group_contains(gs, n, v)]
        #![trigger child_edge(g2, reqs, n, v)]
        group_contains(gs, n, v) <==> child_edge(g2, reqs, n, v) by {
        assert(child_edge(g2, reqs, n, v) == child_edge(g1, reqs, n, v));
        assert(group_contains(gs, n, v) <==> child_edge(g1, reqs, n, v));
    }
}


/// Extending a requirement list by one extends what it wants by exactly that
/// requirement's matches.
pub proof fn lemma_wants_step(reqs: Seq<Requirement>, k: int)
    requires
        0 <= k < reqs.len(),
    ensures
        forall|n: Seq<char>, v: Version|
            #![trigger wants(reqs.take(k + 1), n, v)]
            wants(reqs.take(k + 1), n, v) == (wants(reqs.take(k), n, v) || (n == reqs[k].module@
                && req_matches(reqs[k].constraint, v))),
{
    assert forall|n: Seq<char>, v: Version|
        #![trigger wants(reqs.take(k + 1), n, v)]
        wants(reqs.take(k + 1), n, v) == (wants(reqs.take(k), n, v) || (n == reqs[k].module@
            && req_matches(reqs[k].constraint, v))) by {
        if wants(reqs.take(k + 1), n, v) {
            let k2 = choose|k2: int|
                0 <= k2 < reqs.take(k + 1).len() && (#[trigger] reqs.take(k + 1)[k2]).module@ == n
                    && req_matches(reqs.take(k + 1)[k2].constraint, v);
            if k2 < k {
                assert(reqs.take(k)[k2] == reqs[k2]);
                assert(wants(reqs.take(k), n, v));
            } else {
                assert(reqs.take(k + 1)[k2] == reqs[k]);
            }
        }
        if wants(reqs.take(k), n, v) {
            let k2 = choose|k2: int|
                0 <= k2 < reqs.take(k).len() && (#[trigger] reqs.take(k)[k2]).module@ == n
                    && req_matches(reqs.take(k)[k2].constraint, v);
            assert(reqs.take(k + 1)[k2] == reqs[k2]);
            assert(wants(reqs.take(k + 1), n, v));
        }
        if n == reqs[k].module@ && req_matches(reqs[k].constraint, v) {
            assert(reqs.take(k + 1)[k] == reqs[k]);
            assert(wants(reqs.take(k + 1), n, v));
        }
    }
}

/// All catalog versions of the requirement's target that satisfy it, highest
/// first.
pub fn collect_matches(vs: &Vec<Vertice>, r: &Requirement) -> (out: Vec<Version>)
    ensures
        versions_sorted_desc(out@),
        forall|v: Version|
            #[trigger] out@.contains(v) == (catalog_has(vs@, r.module@, v) && req_matches(
                r.constraint,
                v,
            )),
        (out@.len() > 0) == req_satisfiable(vs@, *r),
{
    let mut out: Vec<Version> = Vec::new();
    let mut j: usize = 0;
    while j < vs.len()
        invariant
            j <= vs@.len(),
            versions_sorted_desc(out@),
            forall|v: Version|
                #[trigger] out@.contains(v) == (req_matches(r.constraint, v) && exists|i: int|
                    0 <= i < j && vs@[i].name@ == r.module@ && vs@[i].version == v),
        decreases vs@.len() - j,
    {
        let ghost out0 = out@;
        if str_eq(vs[j].name.as_str(), r.module.as_str()) && crate::constraint::constraint_matches(
            &r.constraint,
            vs[j].version,
        ) {
            insert_version_desc(&mut out, vs[j].version);
        }
        proof {
            assert forall|v: Version|
                #[trigger] out@.contains(v) == (req_matches(r.constraint, v) && exists|i: int|
                    0 <= i < j + 1 && vs@[i].name@ == r.module@ && vs@[i].version == v) by {
                if out@.contains(v) {
                    if out0.contains(v) {
                        let i = choose|i: int|
                            0 <= i < j && vs@[i].name@ == r.module@ && vs@[i].version == v;
                        assert(0 <= i < j + 1 && vs@[i].name@ == r.module@ && vs@[i].version == v);
                    } else {
                        assert(vs@[j as int].name@ == r.module@ && vs@[j as int].version == v);
                    }
                }
                if req_matches(r.constraint, v) && exists|i: int|
                    0 <= i < j + 1 && vs@[i].name@ == r.module@ && vs@[i].version == v {
                    let i = choose|i: int|
                        0 <= i < j + 1 && vs@[i].name@ == r.module@ && vs@[i].version == v;
                    if i < j {
                        assert(out0.contains(v));
                    }
                    assert(out@.contains(v));
                }
            }
        }
        j = j + 1;
    }
    proof {
        assert forall|v: Version|
            #[trigger] out@.contains(v) == (catalog_has(vs@, r.module@, v) && req_matches(
                r.constraint,
                v,
            )) by {}
        if out@.len() > 0 {
            assert(out@.contains(out@[0]));
            assert(req_satisfiable(vs@, *r));
        }
        if req_satisfiable(vs@, *r) {
            let v = choose|v: Version|
                catalog_has(vs@, r.module@, v) && #[trigger] req_matches(r.constraint, v);
            assert(out@.contains(v));
        }
    }
    out
}

/// Computes the child edges and unsatisfiable requirements of node `i` from
/// the catalog alone.
pub fn compute_children(vs: &Vec<Vertice>, i: usize) -> (res: (Vec<Group>, Vec<usize>))
    requires
        i < vs@.len(),
    ensures
        children_exact(vs@, vs@[i as int].requirements@, res.0@),
        unsat_exact(vs@, vs@[i as int].requirements@, res.1@),
{
    let mut groups: Vec<Group> = Vec::new();
    let mut unsat: Vec<usize> = Vec::new();
    let nreq = vs[i].requirements.len();
    let ghost reqs = vs@[i as int].requirements@;
    let mut k: usize = 0;
    while k < nreq
        invariant
            i < vs@.len(),
            nreq == reqs.len(),
            reqs == vs@[i as int].requirements@,
            k <= nreq,
            groups_shape_wf(groups@),
            forall|n: Seq<char>, v: Version|
                #![trigger group_contains(groups@, n, v)]
                group_contains(groups@, n, v) == (catalog_has(vs@, n, v) && wants(
                    reqs.take(k as int),
                    n,
                    v,
                )),
            forall|a: int, b: int| 0 <= a < b < unsat@.len() ==> unsat@[a] < unsat@[b],
            forall|a: int| 0 <= a < unsat@.len() ==> #[trigger] unsat@[a] < k,
            forall|a: int|
                0 <= a < unsat@.len() ==> !req_satisfiable(vs@, reqs[unsat@[a] as int]),
            forall|kk: int|
                0 <= kk < k && !req_satisfiable(vs@, #[trigger] reqs[kk]) ==> unsat@.contains(
                    kk as usize,
                ),
        decreases nreq - k,
    {
        let ghost groups0 = groups@;
        let ghost unsat0 = unsat@;
        let matches = collect_matches(vs, &vs[i].requirements[k]);
        if matches.len() == 0 {
            unsat.push(k);
            proof {
                lemma_wants_step(reqs, k as int);
                assert forall|n: Seq<char>, v: Version|
                    #![trigger group_contains(groups@, n, v)]
                    group_contains(groups@, n, v) == (catalog_has(vs@, n, v) && wants(
                        reqs.take(k as int + 1),
                        n,
                        v,
                    )) by {
                    if catalog_has(vs@, n, v) && n == reqs[k as int].module@ && req_matches(
                        reqs[k as int].constraint,
                        v,
                    ) {
                        assert(false);
                    }
                }
                assert forall|kk: int|
                    0 <= kk < k + 1 && !req_satisfiable(vs@, #[trigger] reqs[kk])
                        implies unsat@.contains(kk as usize) by {
                    if kk < k {
                        assert(unsat0.contains(kk as usize));
                        let a = choose|a: int| 0 <= a < unsat0.len() && unsat0[a] == kk as usize;
                        assert(unsat@[a] == kk as usize);
                    } else {
                        assert(unsat@[unsat@.len() - 1] == kk as usize);
                    }
                }
            }
        } else {
            let mut m: usize = 0;
            let ghost mseq = matches@;
            while m < matches.len()
                invariant
                    i < vs@.len(),
                    k < nreq,
                    nreq == reqs.len(),
                    reqs == vs@[i as int].requirements@,
                    m <= mseq.len(),
                    mseq == matches@,
                    groups_shape_wf(groups@),
                    forall|n: Seq<char>, v: Version|
                        #![trigger group_contains(groups@, n, v)]
                        group_contains(groups@, n, v) == (group_contains(groups0, n, v) || (n
                            == vs@[i as int].requirements@[k as int].module@ && mseq.take(
                            m as int,
                        ).contains(v))),
                decreases mseq.len() - m,
            {
                let ghost before = groups@;
                add_group_entry(&mut groups, &vs[i].requirements[k].module, matches[m]);
                proof {
                    assert(mseq.take(m as int + 1).drop_last() =~= mseq.take(m as int));
                    assert forall|n: Seq<char>, v: Version|
                        #![trigger group_contains(groups@, n, v)]
                        group_contains(groups@, n, v) == (group_contains(groups0, n, v) || (n
                            == reqs[k as int].module@ && mseq.take(m as int + 1).contains(
                            v,
                        ))) by {
                        if n == reqs[k as int].module@ && mseq.take(m as int + 1).contains(v) {
                            let q = choose|q: int|
                                0 <= q < m + 1 && #[trigger] mseq.take(m as int + 1)[q] == v;
                            if q < m {
                                assert(mseq.take(m as int)[q] == v);
                                assert(mseq.take(m as int).contains(v));
                            } else {
                                assert(v == mseq[m as int]);
                            }
                        }
                        if group_contains(groups@, n, v) && !(group_contains(before, n, v)) {
                            assert(n == reqs[k as int].module@ && v == mseq[m as int]);
                            assert(mseq.take(m as int + 1)[m as int] == v);
                            assert(mseq.take(m as int + 1).contains(v));
                        }
                        if group_contains(before, n, v) {
                            if group_contains(groups0, n, v) {
                            } else {
                                assert(n == reqs[k as int].module@ && mseq.take(
                                    m as int,
                                ).contains(v));
                                let q = choose|q: int|
                                    0 <= q < m && #[trigger] mseq.take(m as int)[q] == v;
                                assert(mseq.take(m as int + 1)[q] == v);
                                assert(mseq.take(m as int + 1).contains(v));
                            }
                        }
                    }
                }
                m = m + 1;
            }
            proof {
                assert(mseq.take(mseq.len() as int) =~= mseq);
                lemma_wants_step(reqs, k as int);
                assert forall|n: Seq<char>, v: Version|
                    #![trigger group_contains(groups@, n, v)]
                    group_contains(groups@, n, v) == (catalog_has(vs@, n, v) && wants(
                        reqs.take(k as int + 1),
                        n,
                        v,
                    )) by {
                    if group_contains(groups@, n, v) {
                        if group_contains(groups0, n, v) {
                        } else {
                            assert(n == reqs[k as int].module@ && mseq.contains(v));
                            assert(catalog_has(vs@, n, v) && req_matches(
                                reqs[k as int].constraint,
                                v,
                            ));
                        }
                    }
                    if catalog_has(vs@, n, v) && wants(reqs.take(k as int + 1), n, v) {
                        if wants(reqs.take(k as int), n, v) {
                            assert(group_contains(groups0, n, v));
                        } else {
                            assert(n == reqs[k as int].module@ && req_matches(
                                reqs[k as int].constraint,
                                v,
                            ));
                            assert(mseq.contains(v));
                        }
                    }
                }
            }
        }
        k = k + 1;
    }
    proof {
        assert(reqs.take(nreq as int) =~= reqs);
        assert forall|n: Seq<char>, v: Version|
            #![trigger group_contains(groups@, n, v)]
            #![trigger child_edge(vs@, reqs, n, v)]
            group_contains(groups@, n, v) <==> child_edge(vs@, reqs, n, v) by {}
    }
    (groups, unsat)
}


// ------------------------------------------------------------------
// Catalog records
// ------------------------------------------------------------------

/// Some record in `ms` carries the (name, version) pair.
pub open spec fn records_have(ms: Seq<&Module>, n: Seq<char>, v: Version) -> bool {
    exists|i: int| 0 <= i < ms.len() && ms[i].name@ == n && ms[i].version == v
}

/// The requirements of the last record in `ms` carrying the (name, version)
/// pair: when a pair repeats, the later record wins.
pub open spec fn last_record_reqs(ms: Seq<&Module>, n: Seq<char>, v: Version) -> Seq<Requirement>
    decreases ms.len(),
{
    if ms.len() == 0 {
        Seq::empty()
    } else if ms.last().name@ == n && ms.last().version == v {
        ms.last().requirements@
    } else {
        last_record_reqs(ms.drop_last(), n, v)
    }
}

/// A node freshly made from a record: same name, version and requirements,
/// no edges yet.
pub open spec fn node_from_record(u: Vertice, m: Module) -> bool {
    &&& u.name@ == m.name@
    &&& u.version == m.version
    &&& u.requirements@ == m.requirements@
    &&& u.children@.len() == 0
    &&& u.parents@.len() == 0
    &&& u.unsatisfied_requirements@.len() == 0
}

impl Graph {
    /// An empty graph.
    pub fn new() -> (g: Graph)
        ensures
            g.vertices@.len() == 0,
    {
        Graph { vertices: Vec::new() }
    }

    /// Adds the node of one record, replacing the node of the same (name,
    /// version) pair if one exists.
    fn add_vertice_from_module(&mut self, m: &Module)
        requires
            distinct_nodes(old(self).vertices@),
        ensures
            distinct_nodes(final(self).vertices@),
            final(self).vertices@.len() >= old(self).vertices@.len(),
            forall|n: Seq<char>, v: Version|
                #[trigger] catalog_has(final(self).vertices@, n, v) == (catalog_has(
                    old(self).vertices@,
                    n,
                    v,
                ) || (n == m.name@ && v == m.version)),
            forall|i: int|
                0 <= i < final(self).vertices@.len() && !(final(self).vertices@[i].name@ == m.name@
                    && final(self).vertices@[i].version == m.version) ==> i < old(
                    self,
                ).vertices@.len() && final(self).vertices@[i] == old(self).vertices@[i],
            forall|i: int|
                0 <= i < final(self).vertices@.len() && final(self).vertices@[i].name@ == m.name@
                    && final(self).vertices@[i].version == m.version ==> node_from_record(
                    final(self).vertices@[i],
                    *m,
                ),
    {
        let vert = Vertice {
            name: m.name.clone(),
            version: m.version,
            requirements: copy_requirements(&m.requirements),
            children: Vec::new(),
            parents: Vec::new(),
            unsatisfied_requirements: Vec::new(),
        };
        proof {
            assert(node_from_record(vert, *m));
        }
        let ghost g0 = self.vertices@;
        match find_vertice(&self.vertices, m.name.as_str(), m.version) {
            Some(p) => {
                self.vertices[p] = vert;
                proof {
                    let g1 = self.vertices@;
                    assert(g1 =~= g0.update(p as int, g1[p as int]));
                    assert forall|n: Seq<char>, v: Version|
                        #[trigger] catalog_has(g1, n, v) == (catalog_has(g0, n, v) || (n == m.name@
                            && v == m.version)) by {
                        if catalog_has(g1, n, v) {
                            let i = choose|i: int|
                                0 <= i < g1.len() && g1[i].name@ == n && g1[i].version == v;
                            if i != p {
                                assert(g0[i].name@ == n && g0[i].version == v);
                            }
                        }
                        if catalog_has(g0, n, v) {
                            let i = choose|i: int|
                                0 <= i < g0.len() && g0[i].name@ == n && g0[i].version == v;
                            if i != p {
                                assert(g1[i].name@ == n && g1[i].version == v);
                            } else {
                                assert(g0[p as int].name@ == m.name@ && g0[p as int].version
                                    == m.version);
                            }
                        }
                        if n == m.name@ && v == m.version {
                            assert(g1[p as int].name@ == n && g1[p as int].version == v);
                        }
                    }
                    assert forall|i: int, j: int| 0 <= i < j < g1.len() implies !(g1[i].name@
                        == g1[j].name@ && g1[i].version == g1[j].version) by {
                        assert(g0[p as int].name@ == m.name@ && g0[p as int].version == m.version);
                        if i != p && j != p {
                            assert(g1[i] == g0[i] && g1[j] == g0[j]);
                        } else if i == p {
                            assert(g1[j] == g0[j]);
                            assert(!(g0[p as int].name@ == g0[j].name@ && g0[p as int].version
                                == g0[j].version));
                        } else {
                            assert(g1[i] == g0[i]);
                            assert(!(g0[i].name@ == g0[p as int].name@ && g0[i].version
                                == g0[p as int].version));
                        }
                    }
                    assert forall|i: int|
                        0 <= i < g1.len() && g1[i].name@ == m.name@ && g1[i].version == m.version
                            implies node_from_record(g1[i], *m) by {
                        if i != p {
                            assert(g1[i] == g0[i]);
                            assert(g0[p as int].name@ == m.name@ && g0[p as int].version
                                == m.version);
                        }
                    }
                }
            },
            None => {
                self.vertices.push(vert);
                proof {
                    let g1 = self.vertices@;
                    assert forall|n: Seq<char>, v: Version|
                        #[trigger] catalog_has(g1, n, v) == (catalog_has(g0, n, v) || (n == m.name@
                            && v == m.version)) by {
                        if catalog_has(g1, n, v) {
                            let i = choose|i: int|
                                0 <= i < g1.len() && g1[i].name@ == n && g1[i].version == v;
                            if i < g0.len() {
                                assert(g0[i].name@ == n && g0[i].version == v);
                            }
                        }
                        if catalog_has(g0, n, v) {
                            let i = choose|i: int|
                                0 <= i < g0.len() && g0[i].name@ == n && g0[i].version == v;
                            assert(g1[i].name@ == n && g1[i].version == v);
                        }
                        if n == m.name@ && v == m.version {
                            assert(g1[g1.len() - 1].name@ == n && g1[g1.len() - 1].version == v);
                        }
                    }
                    assert forall|i: int, j: int| 0 <= i < j < g1.len() implies !(g1[i].name@
                        == g1[j].name@ && g1[i].version == g1[j].version) by {
                        if j < g0.len() {
                            assert(g1[i] == g0[i] && g1[j] == g0[j]);
                        } else {
                            assert(g1[i] == g0[i]);
                            if g1[i].name@ == m.name@ && g1[i].version == m.version {
                                assert(catalog_has(g0, m.name@, m.version));
                            }
                        }
                    }
                }
            },
        }
    }
}


impl Graph {
    /// Computes every node's children and unsatisfiable requirements from the
    /// catalog. Names, versions, requirements and parents are untouched.
    fn fill_children(&mut self)
        ensures
            final(self).vertices@.len() == old(self).vertices@.len(),
            forall|j: int|
                #![trigger final(self).vertices@[j]]
                0 <= j < final(self).vertices@.len() ==> (final(self).vertices@[j].name == old(
                    self,
                ).vertices@[j].name && final(self).vertices@[j].version == old(
                    self,
                ).vertices@[j].version && final(self).vertices@[j].requirements == old(
                    self,
                ).vertices@[j].requirements && final(self).vertices@[j].parents == old(
                    self,
                ).vertices@[j].parents),
            forall|j: int|
                #![trigger final(self).vertices@[j]]
                0 <= j < final(self).vertices@.len() ==> (children_exact(
                    final(self).vertices@,
                    final(self).vertices@[j].requirements@,
                    final(self).vertices@[j].children@,
                ) && unsat_exact(
                    final(self).vertices@,
                    final(self).vertices@[j].requirements@,
                    final(self).vertices@[j].unsatisfied_requirements@,
                )),
    {
        let ghost gb0 = self.vertices@;
        let n = self.vertices.len();
        let mut i: usize = 0;
        while i < n
            invariant
                n == self.vertices@.len(),
                n == gb0.len(),
                i <= n,
                forall|j: int|
                    #![trigger self.vertices@[j]]
                    0 <= j < n ==> (self.vertices@[j].name == gb0[j].name && self.vertices@[j].version
                        == gb0[j].version && self.vertices@[j].requirements == gb0[j].requirements
                        && self.vertices@[j].parents == gb0[j].parents),
                forall|j: int|
                    #![trigger self.vertices@[j]]
                    0 <= j < i ==> (children_exact(
                        self.vertices@,
                        self.vertices@[j].requirements@,
                        self.vertices@[j].children@,
                    ) && unsat_exact(
                        self.vertices@,
                        self.vertices@[j].requirements@,
                        self.vertices@[j].unsatisfied_requirements@,
                    )),
            decreases n - i,
        {
            let (ch, un) = compute_children(&self.vertices, i);
            let ghost gpre = self.vertices@;
            self.vertices[i].children = ch;
            self.vertices[i].unsatisfied_requirements = un;
            proof {
                let gnow = self.vertices@;
                assert(forall|j: int|
                    #![trigger gnow[j]]
                    0 <= j < n && j != i ==> gnow[j] == gpre[j]);
                assert(gnow[i as int].name == gpre[i as int].name && gnow[i as int].version
                    == gpre[i as int].version && gnow[i as int].requirements
                    == gpre[i as int].requirements && gnow[i as int].parents
                    == gpre[i as int].parents);
                assert forall|j: int|
                    #![trigger gnow[j]]
                    0 <= j < i + 1 implies (children_exact(
                        gnow,
                        gnow[j].requirements@,
                        gnow[j].children@,
                    ) && unsat_exact(gnow, gnow[j].requirements@, gnow[j].unsatisfied_requirements@))
                    by {
                    if j < i {
                        lemma_exact_stable(
                            gpre,
                            gnow,
                            gpre[j].requirements@,
                            gpre[j].children@,
                            gpre[j].unsatisfied_requirements@,
                        );
                        assert(gnow[j] == gpre[j]);
                    } else {
                        lemma_exact_stable(gpre, gnow, gpre[i as int].requirements@, ch@, un@);
                    }
                }
            }
            i = i + 1;
        }
    }
}


/// One reverse-edge entry waiting to be recorded: target name, target
/// version, parent name, parent version.
pub open spec fn edge_in(
    es: Seq<(String, Version, String, Version)>,
    t: Seq<char>,
    v: Version,
    pn: Seq<char>,
    pv: Version,
) -> bool {
    exists|e: int|
        0 <= e < es.len() && (#[trigger] es[e]).0@ == t && es[e].1 == v && es[e].2@ == pn
            && es[e].3 == pv
}

/// Taking one more collected edge extends `edge_in` by exactly that edge.
proof fn lemma_edge_in_step(es: Seq<(String, Version, String, Version)>, e: int)
    requires
        0 <= e < es.len(),
    ensures
        forall|t: Seq<char>, v: Version, pn: Seq<char>, pv: Version|
            #![trigger edge_in(es.take(e + 1), t, v, pn, pv)]
            edge_in(es.take(e + 1), t, v, pn, pv) == (edge_in(es.take(e), t, v, pn, pv) || (
            es[e].0@ == t && es[e].1 == v && es[e].2@ == pn && es[e].3 == pv)),
{
    assert forall|t: Seq<char>, v: Version, pn: Seq<char>, pv: Version|
        #![trigger edge_in(es.take(e + 1), t, v, pn, pv)]
        edge_in(es.take(e + 1), t, v, pn, pv) == (edge_in(es.take(e), t, v, pn, pv) || (es[e].0@
            == t && es[e].1 == v && es[e].2@ == pn && es[e].3 == pv)) by {
        if edge_in(es.take(e + 1), t, v, pn, pv) {
            let q = choose|q: int|
                0 <= q < es.take(e + 1).len() && (#[trigger] es.take(e + 1)[q]).0@ == t && es.take(
                    e + 1,
                )[q].1 == v && es.take(e + 1)[q].2@ == pn && es.take(e + 1)[q].3 == pv;
            if q < e {
                assert(es.take(e)[q] == es[q]);
                assert(edge_in(es.take(e), t, v, pn, pv));
            } else {
                assert(es.take(e + 1)[q] == es[e]);
            }
        }
        if edge_in(es.take(e), t, v, pn, pv) {
            let q = choose|q: int|
                0 <= q < es.take(e).len() && (#[trigger] es.take(e)[q]).0@ == t && es.take(e)[q].1
                    == v && es.take(e)[q].2@ == pn && es.take(e)[q].3 == pv;
            assert(es.take(e + 1)[q] == es[q]);
            assert(edge_in(es.take(e + 1), t, v, pn, pv));
        }
        if es[e].0@ == t && es[e].1 == v && es[e].2@ == pn && es[e].3 == pv {
            assert(es.take(e + 1)[e] == es[e]);
            assert(edge_in(es.take(e + 1), t, v, pn, pv));
        }
    }
}

/// Parent edges depend only on names, versions and children, so they are
/// stable while only parents lists change.
pub proof fn lemma_parent_edge_stable(g1: Seq<Vertice>, g2: Seq<Vertice>)
    requires
        g1.len() == g2.len(),
        forall|i: int|
            #![trigger g2[i]]
            0 <= i < g1.len() ==> (g2[i].name@ == g1[i].name@ && g2[i].version == g1[i].version
                && g2[i].children@ == g1[i].children@),
    ensures
        forall|n: Seq<char>, v: Version, pn: Seq<char>, pv: Version|
            #[trigger] parent_edge(g2, n, v, pn, pv) == parent_edge(g1, n, v, pn, pv),
{
    assert forall|n: Seq<char>, v: Version, pn: Seq<char>, pv: Version|
        #[trigger] parent_edge(g2, n, v, pn, pv) == parent_edge(g1, n, v, pn, pv) by {
        if parent_edge(g1, n, v, pn, pv) {
            let j = choose|j: int|
                0 <= j < g1.len() && g1[j].name@ == pn && g1[j].version == pv && group_contains(
                    g1[j].children@,
                    n,
                    v,
                );
            assert(g2[j].name@ == pn && g2[j].version == pv && group_contains(
                g2[j].children@,
                n,
                v,
            ));
        }
        if parent_edge(g2, n, v, pn, pv) {
            let j = choose|j: int|
                0 <= j < g2.len() && g2[j].name@ == pn && g2[j].version == pv && group_contains(
                    g2[j].children@,
                    n,
                    v,
                );
            assert(g1[j].name@ == pn && g1[j].version == pv && group_contains(
                g1[j].children@,
                n,
                v,
            ));
        }
    }
}

impl Graph {
    /// Records the reverse edges: each node's parents become exactly the
    /// nodes that list it among their children.
    fn fill_parents(&mut self)
        requires
            distinct_nodes(old(self).vertices@),
            forall|j: int|
                #![trigger old(self).vertices@[j]]
                0 <= j < old(self).vertices@.len() ==> old(self).vertices@[j].parents@.len() == 0,
            forall|j: int|
                #![trigger old(self).vertices@[j]]
                0 <= j < old(self).vertices@.len() ==> children_exact(
                    old(self).vertices@,
                    old(self).vertices@[j].requirements@,
                    old(self).vertices@[j].children@,
                ),
        ensures
            final(self).vertices@.len() == old(self).vertices@.len(),
            forall|j: int|
                #![trigger final(self).vertices@[j]]
                0 <= j < final(self).vertices@.len() ==> (final(self).vertices@[j].name == old(
                    self,
                ).vertices@[j].name && final(self).vertices@[j].version == old(
                    self,
                ).vertices@[j].version && final(self).vertices@[j].requirements == old(
                    self,
                ).vertices@[j].requirements && final(self).vertices@[j].children == old(
                    self,
                ).vertices@[j].children && final(self).vertices@[j].unsatisfied_requirements == old(
                    self,
                ).vertices@[j].unsatisfied_requirements),
            forall|j: int|
                #![trigger final(self).vertices@[j]]
                0 <= j < final(self).vertices@.len() ==> parents_exact(
                    final(self).vertices@,
                    final(self).vertices@[j],
                ),
    {
        let ghost gc0 = self.vertices@;
        let n = self.vertices.len();
        // First sweep: list every (target, parent) pair appearing in some
        // children list.
        let mut edges: Vec<(String, Version, String, Version)> = Vec::new();
        let mut j: usize = 0;
        while j < n
            invariant
                n == self.vertices@.len(),
                self.vertices@ == gc0,
                j <= n,
                forall|e: int|
                    0 <= e < edges@.len() ==> parent_edge(
                        gc0,
                        (#[trigger] edges@[e]).0@,
                        edges@[e].1,
                        edges@[e].2@,
                        edges@[e].3,
                    ),
                forall|t: Seq<char>, v: Version, jj: int|
                    #![trigger group_contains(gc0[jj].children@, t, v)]
                    0 <= jj < j && group_contains(gc0[jj].children@, t, v) ==> edge_in(
                        edges@,
                        t,
                        v,
                        gc0[jj].name@,
                        gc0[jj].version,
                    ),
            decreases n - j,
        {
            let ngroups = self.vertices[j].children.len();
            let mut gi: usize = 0;
            while gi < ngroups
                invariant
                    n == self.vertices@.len(),
                    self.vertices@ == gc0,
                    j < n,
                    ngroups == gc0[j as int].children@.len(),
                    gi <= ngroups,
                    forall|e: int|
                        0 <= e < edges@.len() ==> parent_edge(
                            gc0,
                            (#[trigger] edges@[e]).0@,
                            edges@[e].1,
                            edges@[e].2@,
                            edges@[e].3,
                        ),
                    forall|t: Seq<char>, v: Version, jj: int|
                        #![trigger group_contains(gc0[jj].children@, t, v)]
                        0 <= jj < j && group_contains(gc0[jj].children@, t, v) ==> edge_in(
                            edges@,
                            t,
                            v,
                            gc0[jj].name@,
                            gc0[jj].version,
                        ),
                    forall|gg: int, vv: int|
                        #![trigger gc0[j as int].children@[gg].versions@[vv]]
                        0 <= gg < gi && 0 <= vv < gc0[j as int].children@[gg].versions@.len()
                            ==> edge_in(
                            edges@,
                            gc0[j as int].children@[gg].name@,
                            gc0[j as int].children@[gg].versions@[vv],
                            gc0[j as int].name@,
                            gc0[j as int].version,
                        ),
                decreases ngroups - gi,
            {
                let nvers = self.vertices[j].children[gi].versions.len();
                let mut vi: usize = 0;
                while vi < nvers
                    invariant
                        n == self.vertices@.len(),
                        self.vertices@ == gc0,
                        j < n,
                        gi < gc0[j as int].children@.len(),
                        ngroups == gc0[j as int].children@.len(),
                        nvers == gc0[j as int].children@[gi as int].versions@.len(),
                        vi <= nvers,
                        forall|e: int|
                            0 <= e < edges@.len() ==> parent_edge(
                                gc0,
                                (#[trigger] edges@[e]).0@,
                                edges@[e].1,
                                edges@[e].2@,
                                edges@[e].3,
                            ),
                        forall|t: Seq<char>, v: Version, jj: int|
                            #![trigger group_contains(gc0[jj].children@, t, v)]
                            0 <= jj < j && group_contains(gc0[jj].children@, t, v) ==> edge_in(
                                edges@,
                                t,
                                v,
                                gc0[jj].name@,
                                gc0[jj].version,
                            ),
                        forall|gg: int, vv: int|
                            #![trigger gc0[j as int].children@[gg].versions@[vv]]
                            0 <= gg < gi && 0 <= vv < gc0[j as int].children@[gg].versions@.len()
                                ==> edge_in(
                                edges@,
                                gc0[j as int].children@[gg].name@,
                                gc0[j as int].children@[gg].versions@[vv],
                                gc0[j as int].name@,
                                gc0[j as int].version,
                            ),
                        forall|vv: int|
                            #![trigger gc0[j as int].children@[gi as int].versions@[vv]]
                            0 <= vv < vi ==> edge_in(
                                edges@,
                                gc0[j as int].children@[gi as int].name@,
                                gc0[j as int].children@[gi as int].versions@[vv],
                                gc0[j as int].name@,
                                gc0[j as int].version,
                            ),
                    decreases nvers - vi,
                {
                    let ghost es0 = edges@;
                    let entry = (
                        self.vertices[j].children[gi].name.clone(),
                        self.vertices[j].children[gi].versions[vi],
                        self.vertices[j].name.clone(),
                        self.vertices[j].version,
                    );
                    edges.push(entry);
                    proof {
                        let es1 = edges@;
                        assert(es1[es1.len() - 1] == entry);
                        assert(group_contains(
                            gc0[j as int].children@,
                            entry.0@,
                            entry.1,
                        )) by {
                            assert(gc0[j as int].children@[gi as int].versions@[vi as int]
                                == entry.1);
                            assert(gc0[j as int].children@[gi as int].versions@.contains(entry.1));
                        }
                        assert(parent_edge(gc0, entry.0@, entry.1, entry.2@, entry.3));
                        assert(forall|e: int| 0 <= e < es0.len() ==> es1[e] == es0[e]);
                        assert forall|t: Seq<char>, v: Version, pn: Seq<char>, pv: Version|
                            edge_in(es0, t, v, pn, pv) implies edge_in(es1, t, v, pn, pv) by {
                            let q = choose|q: int|
                                0 <= q < es0.len() && (#[trigger] es0[q]).0@ == t && es0[q].1 == v
                                    && es0[q].2@ == pn && es0[q].3 == pv;
                            assert(es1[q] == es0[q]);
                        }
                        assert(edge_in(
                            es1,
                            gc0[j as int].children@[gi as int].name@,
                            gc0[j as int].children@[gi as int].versions@[vi as int],
                            gc0[j as int].name@,
                            gc0[j as int].version,
                        ));
                    }
                    vi = vi + 1;
                }
                gi = gi + 1;
            }
            proof {
                assert forall|t: Seq<char>, v: Version, jj: int|
                    #![trigger group_contains(gc0[jj].children@, t, v)]
                    0 <= jj < j + 1 && group_contains(gc0[jj].children@, t, v) implies edge_in(
                    edges@,
                    t,
                    v,
                    gc0[jj].name@,
                    gc0[jj].version,
                ) by {
                    if jj == j {
                        let gg = choose|gg: int|
                            0 <= gg < gc0[jj].children@.len() && gc0[jj].children@[gg].name@ == t
                                && gc0[jj].children@[gg].versions@.contains(v);
                        let vv = choose|vv: int|
                            0 <= vv < gc0[jj].children@[gg].versions@.len()
                                && gc0[jj].children@[gg].versions@[vv] == v;
                        assert(gc0[j as int].children@[gg].versions@[vv] == v);
                    }
                }
            }
            j = j + 1;
        }
        // Second sweep: record each pair on the target node.
        let nedges = edges.len();
        let mut e: usize = 0;
        while e < nedges
            invariant
                n == self.vertices@.len(),
                nedges == edges@.len(),
                e <= nedges,
                distinct_nodes(gc0),
                n == gc0.len(),
                forall|jj: int|
                    #![trigger self.vertices@[jj]]
                    0 <= jj < n ==> (self.vertices@[jj].name == gc0[jj].name
                        && self.vertices@[jj].version == gc0[jj].version
                        && self.vertices@[jj].requirements == gc0[jj].requirements
                        && self.vertices@[jj].children == gc0[jj].children
                        && self.vertices@[jj].unsatisfied_requirements
                        == gc0[jj].unsatisfied_requirements),
                forall|ee: int|
                    0 <= ee < edges@.len() ==> parent_edge(
                        gc0,
                        (#[trigger] edges@[ee]).0@,
                        edges@[ee].1,
                        edges@[ee].2@,
                        edges@[ee].3,
                    ),
                forall|jj: int|
                    #![trigger self.vertices@[jj]]
                    0 <= jj < n ==> groups_shape_wf(self.vertices@[jj].parents@),
                forall|jj: int, pn: Seq<char>, pv: Version|
                    #![trigger group_contains(self.vertices@[jj].parents@, pn, pv)]
                    0 <= jj < n ==> (group_contains(self.vertices@[jj].parents@, pn, pv)
                        == edge_in(
                        edges@.take(e as int),
                        gc0[jj].name@,
                        gc0[jj].version,
                        pn,
                        pv,
                    )),
                forall|jj: int|
                    #![trigger gc0[jj]]
                    0 <= jj < n ==> children_exact(
                        gc0,
                        gc0[jj].requirements@,
                        gc0[jj].children@,
                    ),
            decreases nedges - e,
        {
            let tver = edges[e].1;
            let pver = edges[e].3;
            let ghost gpre = self.vertices@;
            let found = find_vertice(&self.vertices, edges[e].0.as_str(), tver);
            match found {
                Some(idx) => {
                    add_group_entry(&mut self.vertices[idx].parents, &edges[e].2, pver);
                    proof {
                        let gnow = self.vertices@;
                        lemma_edge_in_step(edges@, e as int);
                        assert(forall|jj: int|
                            #![trigger gnow[jj]]
                            0 <= jj < n && jj != idx ==> gnow[jj] == gpre[jj]);
                        assert(gnow[idx as int].name == gpre[idx as int].name
                            && gnow[idx as int].version == gpre[idx as int].version
                            && gnow[idx as int].requirements == gpre[idx as int].requirements
                            && gnow[idx as int].children == gpre[idx as int].children
                            && gnow[idx as int].unsatisfied_requirements
                            == gpre[idx as int].unsatisfied_requirements);
                        assert forall|jj: int, pn: Seq<char>, pv: Version|
                            #![trigger group_contains(gnow[jj].parents@, pn, pv)]
                            0 <= jj < n implies (group_contains(gnow[jj].parents@, pn, pv)
                            == edge_in(
                            edges@.take(e as int + 1),
                            gc0[jj].name@,
                            gc0[jj].version,
                            pn,
                            pv,
                        )) by {
                            if jj == idx {
                                assert(gc0[jj].name@ == edges@[e as int].0@ && gc0[jj].version
                                    == edges@[e as int].1);
                            } else {
                                assert(gnow[jj] == gpre[jj]);
                                if edges@[e as int].0@ == gc0[jj].name@ && edges@[e as int].1
                                    == gc0[jj].version {
                                    assert(gc0[idx as int].name@ == gc0[jj].name@
                                        && gc0[idx as int].version == gc0[jj].version);
                                    if jj < idx {
                                        assert(false);
                                    } else {
                                        assert(false);
                                    }
                                }
                            }
                        }
                    }
                },
                None => {
                    proof {
                        assert(parent_edge(
                            gc0,
                            edges@[e as int].0@,
                            edges@[e as int].1,
                            edges@[e as int].2@,
                            edges@[e as int].3,
                        ));
                        let jj = choose|jj: int|
                            0 <= jj < gc0.len() && gc0[jj].name@ == edges@[e as int].2@
                                && gc0[jj].version == edges@[e as int].3 && group_contains(
                                gc0[jj].children@,
                                edges@[e as int].0@,
                                edges@[e as int].1,
                            );
                        assert(children_exact(gc0, gc0[jj].requirements@, gc0[jj].children@));
                        assert(child_edge(
                            gc0,
                            gc0[jj].requirements@,
                            edges@[e as int].0@,
                            edges@[e as int].1,
                        ));
                        assert(catalog_has(gc0, edges@[e as int].0@, edges@[e as int].1));
                        lemma_same_catalog(gc0, gpre);
                        assert(false);
                    }
                },
            }
            e = e + 1;
        }
        proof {
            let gfin = self.vertices@;
            assert(edges@.take(nedges as int) =~= edges@);
            lemma_parent_edge_stable(gc0, gfin);
            assert forall|jj: int|
                #![trigger gfin[jj]]
                0 <= jj < n implies parents_exact(gfin, gfin[jj]) by {
                assert forall|pn: Seq<char>, pv: Version|
                    #![trigger group_contains(gfin[jj].parents@, pn, pv)]
                    #![trigger parent_edge(gfin, gfin[jj].name@, gfin[jj].version, pn, pv)]
                    group_contains(gfin[jj].parents@, pn, pv) <==> parent_edge(
                    gfin,
                    gfin[jj].name@,
                    gfin[jj].version,
                    pn,
                    pv,
                ) by {
                    assert(group_contains(gfin[jj].parents@, pn, pv) == edge_in(
                        edges@,
                        gc0[jj].name@,
                        gc0[jj].version,
                        pn,
                        pv,
                    ));
                    if edge_in(edges@, gc0[jj].name@, gc0[jj].version, pn, pv) {
                        let q = choose|q: int|
                            0 <= q < edges@.len() && (#[trigger] edges@[q]).0@ == gc0[jj].name@
                                && edges@[q].1 == gc0[jj].version && edges@[q].2@ == pn
                                && edges@[q].3 == pv;
                        assert(parent_edge(gc0, gc0[jj].name@, gc0[jj].version, pn, pv));
                    }
                    if parent_edge(gc0, gc0[jj].name@, gc0[jj].version, pn, pv) {
                        let pj = choose|pj: int|
                            0 <= pj < gc0.len() && gc0[pj].name@ == pn && gc0[pj].version == pv
                                && group_contains(
                                gc0[pj].children@,
                                gc0[jj].name@,
                                gc0[jj].version,
                            );
                        assert(edge_in(
                            edges@,
                            gc0[jj].name@,
                            gc0[jj].version,
                            gc0[pj].name@,
                            gc0[pj].version,
                        ));
                    }
                }
            }
        }
    }
}


/// Taking one more record extends the record set by exactly its pair, and
/// makes it the latest for that pair.
proof fn lemma_records_step(ms: Seq<&Module>, t: int)
    requires
        0 <= t < ms.len(),
    ensures
        forall|n: Seq<char>, v: Version|
            #[trigger] records_have(ms.take(t + 1), n, v) == (records_have(ms.take(t), n, v) || (
            ms[t].name@ == n && ms[t].version == v)),
        forall|n: Seq<char>, v: Version|
            #[trigger] last_record_reqs(ms.take(t + 1), n, v) == if ms[t].name@ == n && ms[t].version
                == v {
                ms[t].requirements@
            } else {
                last_record_reqs(ms.take(t), n, v)
            },
{
    assert(ms.take(t + 1).drop_last() =~= ms.take(t));
    assert(ms.take(t + 1).last() == ms[t]);
    assert forall|n: Seq<char>, v: Version|
        #[trigger] records_have(ms.take(t + 1), n, v) == (records_have(ms.take(t), n, v) || (
        ms[t].name@ == n && ms[t].version == v)) by {
        if records_have(ms.take(t + 1), n, v) {
            let i = choose|i: int|
                0 <= i < ms.take(t + 1).len() && (#[trigger] ms.take(t + 1)[i]).name@ == n
                    && ms.take(t + 1)[i].version == v;
            if i < t {
                assert(ms.take(t)[i] == ms[i]);
                assert(records_have(ms.take(t), n, v));
            }
        }
        if records_have(ms.take(t), n, v) {
            let i = choose|i: int|
                0 <= i < ms.take(t).len() && (#[trigger] ms.take(t)[i]).name@ == n && ms.take(
                    t,
                )[i].version == v;
            assert(ms.take(t + 1)[i] == ms[i]);
            assert(records_have(ms.take(t + 1), n, v));
        }
        if ms[t].name@ == n && ms[t].version == v {
            assert(ms.take(t + 1)[t] == ms[t]);
            assert(records_have(ms.take(t + 1), n, v));
        }
    }
}

impl Graph {
    /// Builds the whole graph from the catalog records: one node per distinct
    /// (name, version) pair (a repeated pair keeps the later record's
    /// requirements), every node's children, unsatisfiable requirements and
    /// parents computed against the whole catalog.
    pub fn loads_modules(&mut self, modules: Vec<&Module>)
        requires
            old(self).vertices@.len() == 0,
        ensures
            graph_wf(final(self).vertices@),
            forall|n: Seq<char>, v: Version|
                #[trigger] catalog_has(final(self).vertices@, n, v) == records_have(
                    modules@,
                    n,
                    v,
                ),
            forall|i: int|
                #![trigger final(self).vertices@[i]]
                0 <= i < final(self).vertices@.len() ==> final(self).vertices@[i].requirements@
                    == last_record_reqs(
                    modules@,
                    final(self).vertices@[i].name@,
                    final(self).vertices@[i].version,
                ),
    {
        let ghost ms = modules@;
        let mut t: usize = 0;
        proof {
            assert(ms.take(0) =~= Seq::<&Module>::empty());
        }
        while t < modules.len()
            invariant
                t <= ms.len(),
                ms == modules@,
                distinct_nodes(self.vertices@),
                forall|i: int|
                    #![trigger self.vertices@[i]]
                    0 <= i < self.vertices@.len() ==> (self.vertices@[i].children@.len() == 0
                        && self.vertices@[i].parents@.len() == 0
                        && self.vertices@[i].unsatisfied_requirements@.len() == 0),
                forall|n: Seq<char>, v: Version|
                    #[trigger] catalog_has(self.vertices@, n, v) == records_have(
                        ms.take(t as int),
                        n,
                        v,
                    ),
                forall|i: int|
                    #![trigger self.vertices@[i]]
                    0 <= i < self.vertices@.len() ==> self.vertices@[i].requirements@
                        == last_record_reqs(
                        ms.take(t as int),
                        self.vertices@[i].name@,
                        self.vertices@[i].version,
                    ),
            decreases ms.len() - t,
        {
            let ghost gpre = self.vertices@;
            let m: &Module = modules[t];
            self.add_vertice_from_module(m);
            proof {
                lemma_records_step(ms, t as int);
                let gnow = self.vertices@;
                assert forall|i: int|
                    #![trigger gnow[i]]
                    0 <= i < gnow.len() implies (gnow[i].children@.len() == 0
                        && gnow[i].parents@.len() == 0
                        && gnow[i].unsatisfied_requirements@.len() == 0 && gnow[i].requirements@
                        == last_record_reqs(
                        ms.take(t as int + 1),
                        gnow[i].name@,
                        gnow[i].version,
                    )) by {
                    if gnow[i].name@ == m.name@ && gnow[i].version == m.version {
                        assert(node_from_record(gnow[i], *m));
                    } else {
                        assert(i < gpre.len() && gnow[i] == gpre[i]);
                    }
                }
            }
            t = t + 1;
        }
        proof {
            assert(ms.take(ms.len() as int) =~= ms);
        }
        let ghost ga = self.vertices@;
        self.fill_children();
        proof {
            let gb = self.vertices@;
            assert(forall|i: int|
                #![trigger gb[i]]
                0 <= i < gb.len() ==> (gb[i].name@ == ga[i].name@ && gb[i].version == ga[i].version
                    && gb[i].requirements@ == ga[i].requirements@ && gb[i].parents@.len() == 0));
            lemma_same_catalog(ga, gb);
        }
        let ghost gb = self.vertices@;
        self.fill_parents();
        proof {
            let gf = self.vertices@;
            assert(forall|i: int|
                #![trigger gf[i]]
                0 <= i < gf.len() ==> (gf[i].name@ == gb[i].name@ && gf[i].version == gb[i].version
                    && gf[i].requirements@ == gb[i].requirements@ && gf[i].children@
                    == gb[i].children@ && gf[i].unsatisfied_requirements@
                    == gb[i].unsatisfied_requirements@));
            lemma_same_catalog(gb, gf);
            assert forall|i: int| 0 <= i < gf.len() implies vertice_wf(gf, #[trigger] gf[i]) by {
                assert(children_exact(gb, gb[i].requirements@, gb[i].children@));
                assert(unsat_exact(gb, gb[i].requirements@, gb[i].unsatisfied_requirements@));
                lemma_exact_stable(
                    gb,
                    gf,
                    gb[i].requirements@,
                    gb[i].children@,
                    gb[i].unsatisfied_requirements@,
                );
                assert(parents_exact(gf, gf[i]));
            }
            assert(distinct_nodes(gf));
        }
    }
}


/// In a graph without duplicate pairs, a (name, version) pair determines its
/// node index.
pub proof fn lemma_node_unique(g: Seq<Vertice>, i: int, j: int)
    requires
        distinct_nodes(g),
        0 <= i < g.len(),
        0 <= j < g.len(),
        g[i].name@ == g[j].name@,
        g[i].version == g[j].version,
    ensures
        i == j,
{
}


impl Vertice {
    /// Puts each child group's version list in strictly descending order,
    /// dropping duplicates: the order the search tries candidates in.
    pub fn sort_children(&mut self)
        ensures
            final(self).name == old(self).name,
            final(self).version == old(self).version,
            final(self).requirements == old(self).requirements,
            final(self).parents == old(self).parents,
            final(self).unsatisfied_requirements == old(self).unsatisfied_requirements,
            final(self).children@.len() == old(self).children@.len(),
            forall|i: int|
                #![trigger final(self).children@[i]]
                0 <= i < final(self).children@.len() ==> (final(self).children@[i].name == old(
                    self,
                ).children@[i].name && versions_sorted_desc(final(self).children@[i].versions@)),
            forall|i: int, v: Version|
                #![trigger final(self).children@[i].versions@.contains(v)]
                0 <= i < final(self).children@.len() ==> (final(self).children@[i].versions@.contains(v)
                    == old(self).children@[i].versions@.contains(v)),
    {
        let ghost c0 = self.children@;
        let n = self.children.len();
        let mut i: usize = 0;
        while i < n
            invariant
                n == self.children@.len(),
                n == c0.len(),
                i <= n,
                self.name == old(self).name,
                self.version == old(self).version,
                self.requirements == old(self).requirements,
                self.parents == old(self).parents,
                self.unsatisfied_requirements == old(self).unsatisfied_requirements,
                c0 == old(self).children@,
                forall|k: int| #![trigger self.children@[k]] i <= k < n ==> self.children@[k] == c0[k],
                forall|k: int|
                    #![trigger self.children@[k]]
                    0 <= k < i ==> (self.children@[k].name == c0[k].name && versions_sorted_desc(
                        self.children@[k].versions@,
                    )),
                forall|k: int, v: Version|
                    #![trigger self.children@[k].versions@.contains(v)]
                    0 <= k < i ==> self.children@[k].versions@.contains(v) == c0[k].versions@.contains(
                        v,
                    ),
            decreases n - i,
        {
            let ghost vs0 = self.children@[i as int].versions@;
            let m = self.children[i].versions.len();
            let mut sorted: Vec<Version> = Vec::new();
            let mut j: usize = 0;
            while j < m
                invariant
                    i < n,
                    n == self.children@.len(),
                    m == vs0.len(),
                    vs0 == self.children@[i as int].versions@,
                    j <= m,
                    versions_sorted_desc(sorted@),
                    forall|v: Version|
                        #[trigger] sorted@.contains(v) == vs0.take(j as int).contains(v),
                decreases m - j,
            {
                let ghost s0 = sorted@;
                insert_version_desc(&mut sorted, self.children[i].versions[j]);
                proof {
                    assert forall|v: Version|
                        #[trigger] sorted@.contains(v) == vs0.take(j as int + 1).contains(v) by {
                        if sorted@.contains(v) {
                            if s0.contains(v) {
                                let q = choose|q: int|
                                    0 <= q < j && #[trigger] vs0.take(j as int)[q] == v;
                                assert(vs0.take(j as int + 1)[q] == v);
                            } else {
                                assert(vs0.take(j as int + 1)[j as int] == v);
                            }
                            assert(vs0.take(j as int + 1).contains(v));
                        }
                        if vs0.take(j as int + 1).contains(v) {
                            let q = choose|q: int|
                                0 <= q < j + 1 && #[trigger] vs0.take(j as int + 1)[q] == v;
                            if q < j {
                                assert(vs0.take(j as int)[q] == v);
                                assert(s0.contains(v));
                            }
                            assert(sorted@.contains(v));
                        }
                    }
                }
                j = j + 1;
            }
            proof {
                assert(vs0.take(m as int) =~= vs0);
            }
            let ghost cpre = self.children@;
            self.children[i].versions = sorted;
            proof {
                assert(forall|k: int|
                    #![trigger self.children@[k]]
                    0 <= k < n && k != i ==> self.children@[k] == cpre[k]);
                assert(self.children@[i as int].name == cpre[i as int].name);
            }
            i = i + 1;
        }
    }
}

} // verus!
