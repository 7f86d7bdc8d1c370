use vstd::prelude::*;
use crate::version::{Version, version_lt};
use crate::names::{name_lt, lemma_name_order};
use crate::graph::{
    Vertice, graph_wf, catalog_has, catalog_has_name, group_contains, parent_edge,
    req_satisfiable, vertice_wf, vertice_satisfied, lemma_node_unique, versions_sorted_desc,
};
use crate::search::{
    spec_expand, spec_expand_groups, spec_choose, spec_try, spec_resolve, node_at, unsat_diags,
    SearchStep, free_names, lemma_expand_frame, lemma_expand_groups_frame, lemma_try_frame,
    lemma_free_names_push, lemma_resolve_top_fresh,
};
use crate::graph::{Group, child_edge, wants};
use crate::selection::{sel_map, sorted_keys, lemma_sorted_distinct, lemma_sel_map_props};
use crate::diag::Diag;

verus! {

// ------------------------------------------------------------------
// Determinism
// ------------------------------------------------------------------

/// Two name-sorted listings of the same selection agree entry by entry.
pub proof fn lemma_sorted_listing_unique(l1: Seq<(String, Version)>, l2: Seq<(String, Version)>)
    requires
        sorted_keys(l1),
        sorted_keys(l2),
        sel_map(l1) == sel_map(l2),
    ensures
        l1.len() == l2.len(),
        forall|i: int|
            0 <= i < l1.len() ==> (#[trigger] l1[i]).0@ == l2[i].0@ && l1[i].1 == l2[i].1,
    decreases l1.len(),
{
    lemma_sorted_distinct(l1);
    lemma_sorted_distinct(l2);
    lemma_sel_map_props(l1);
    lemma_sel_map_props(l2);
    let m = sel_map(l1);
    if l1.len() == 0 {
        if l2.len() > 0 {
            assert(m.dom().contains(l2[l2.len() - 1].0@));
            assert(m.dom() =~= Set::<Seq<char>>::empty());
        }
    } else if l2.len() == 0 {
        assert(sel_map(l2).dom() =~= Set::<Seq<char>>::empty());
        assert(m.dom().contains(l1[l1.len() - 1].0@));
    } else {
        let k1 = l1.last().0@;
        let k2 = l2.last().0@;
        // both last keys are the greatest key of the shared domain
        assert(m.dom().contains(k1) && m.dom().contains(k2));
        let i2 = choose|i: int| 0 <= i < l2.len() && (#[trigger] l2[i]).0@ == k1;
        let i1 = choose|i: int| 0 <= i < l1.len() && (#[trigger] l1[i]).0@ == k2;
        if i2 < l2.len() - 1 {
            assert(name_lt(k1, k2));
        }
        if i1 < l1.len() - 1 {
            assert(name_lt(k2, k1));
        }
        lemma_name_order(k1, k2, k1);
        assert(k1 == k2);
        assert(l1.last().1 == m[k1] && l2.last().1 == sel_map(l2)[k2]);
        let t1 = l1.drop_last();
        let t2 = l2.drop_last();
        lemma_sorted_distinct(t1);
        lemma_sorted_distinct(t2);
        lemma_sel_map_props(t1);
        lemma_sel_map_props(t2);
        assert(!sel_map(t1).dom().contains(k1)) by {
            if sel_map(t1).dom().contains(k1) {
                let j = choose|j: int| 0 <= j < t1.len() && (#[trigger] t1[j]).0@ == k1;
                assert(l1[j].0@ == k1);
            }
        }
        assert(!sel_map(t2).dom().contains(k2)) by {
            if sel_map(t2).dom().contains(k2) {
                let j = choose|j: int| 0 <= j < t2.len() && (#[trigger] t2[j]).0@ == k2;
                assert(l2[j].0@ == k2);
            }
        }
        assert(sel_map(t1) =~= m.remove(k1));
        assert(sel_map(t2) =~= sel_map(l2).remove(k2));
        lemma_sorted_listing_unique(t1, t2);
        assert forall|i: int|
            0 <= i < l1.len() implies (#[trigger] l1[i]).0@ == l2[i].0@ && l1[i].1 == l2[i].1 by {
            if i < l1.len() - 1 {
                assert(t1[i] == l1[i] && t2[i] == l2[i]);
            }
        }
    }
}

/// Determinism: one graph and one top pair admit one listing. Any two
/// name-sorted results standing for the same successful resolution agree
/// entry by entry, so repeated runs print the same lines in the same order.
pub proof fn lemma_resolve_deterministic(
    g: Seq<Vertice>,
    top_name: Seq<char>,
    top_version: Version,
    l1: Seq<(String, Version)>,
    l2: Seq<(String, Version)>,
)
    requires
        sorted_keys(l1),
        sorted_keys(l2),
        spec_resolve(g, top_name, top_version) == Ok::<_, Seq<Diag>>(sel_map(l1)),
        spec_resolve(g, top_name, top_version) == Ok::<_, Seq<Diag>>(sel_map(l2)),
    ensures
        l1.len() == l2.len(),
        forall|i: int|
            0 <= i < l1.len() ==> (#[trigger] l1[i]).0@ == l2[i].0@ && l1[i].1 == l2[i].1,
{
    lemma_sorted_listing_unique(l1, l2);
}

// ------------------------------------------------------------------
// Global consistency
// ------------------------------------------------------------------

/// A successful result never lists two versions of one module name: its
/// entries carry strictly increasing, hence distinct, names.
pub proof fn lemma_global_consistency(l: Seq<(String, Version)>)
    requires
        sorted_keys(l),
    ensures
        forall|i: int, j: int|
            0 <= i < j < l.len() ==> (#[trigger] l[i]).0@ != (#[trigger] l[j]).0@,
{
    lemma_sorted_distinct(l);
}

// ------------------------------------------------------------------
// Round trip: children and parents are two views of one edge set
// ------------------------------------------------------------------

/// In a well-formed graph the adjacency is symmetric: node `b` appears among
/// the children of node `a` exactly when `a` appears among the parents of
/// `b`.
pub proof fn lemma_children_parents_symmetric(g: Seq<Vertice>, a: int, b: int)
    requires
        graph_wf(g),
        0 <= a < g.len(),
        0 <= b < g.len(),
    ensures
        group_contains(g[a].children@, g[b].name@, g[b].version) == group_contains(
            g[b].parents@,
            g[a].name@,
            g[a].version,
        ),
{
    assert(vertice_wf(g, g[a]));
    assert(vertice_wf(g, g[b]));
    if group_contains(g[a].children@, g[b].name@, g[b].version) {
        assert(parent_edge(g, g[b].name@, g[b].version, g[a].name@, g[a].version));
        assert(group_contains(g[b].parents@, g[a].name@, g[a].version));
    }
    if group_contains(g[b].parents@, g[a].name@, g[a].version) {
        assert(parent_edge(g, g[b].name@, g[b].version, g[a].name@, g[a].version));
        let j = choose|j: int|
            0 <= j < g.len() && g[j].name@ == g[a].name@ && g[j].version == g[a].version
                && group_contains(g[j].children@, g[b].name@, g[b].version);
        lemma_node_unique(g, j, a);
    }
}

// ------------------------------------------------------------------
// Unsatisfiable catalog
// ------------------------------------------------------------------

/// A top module with a requirement on a name the catalog does not offer
/// fails, and the failure names the missing target.
pub proof fn lemma_unsatisfiable_reported(
    g: Seq<Vertice>,
    top_name: Seq<char>,
    top_version: Version,
    k: usize,
)
    requires
        graph_wf(g),
        catalog_has(g, top_name, top_version),
        k < node_at(g, top_name, top_version).requirements@.len(),
        !catalog_has_name(g, node_at(g, top_name, top_version).requirements@[k as int].module@),
    ensures
        spec_resolve(g, top_name, top_version) is Err,
        exists|q: int|
            0 <= q < spec_resolve(g, top_name, top_version)->Err_0.len()
                && (#[trigger] spec_resolve(g, top_name, top_version)->Err_0[q])
                is UnsatisfiedRequirement
                && spec_resolve(g, top_name, top_version)->Err_0[q]->UnsatisfiedRequirement_name
                == top_name
                && spec_resolve(g, top_name, top_version)->Err_0[q]->UnsatisfiedRequirement_target
                == node_at(g, top_name, top_version).requirements@[k as int].module@,
{
    let u = node_at(g, top_name, top_version);
    let i = choose|i: int|
        0 <= i < g.len() && g[i].name@ == top_name && g[i].version == top_version;
    assert(u == g[i]);
    assert(vertice_wf(g, g[i]));
    let r = u.requirements@[k as int];
    assert(!req_satisfiable(g, r)) by {
        if req_satisfiable(g, r) {
            let v = choose|v: Version|
                catalog_has(g, r.module@, v) && #[trigger] crate::constraint::req_matches(
                    r.constraint,
                    v,
                );
            let j = choose|j: int| 0 <= j < g.len() && g[j].name@ == r.module@ && g[j].version == v;
            assert(catalog_has_name(g, r.module@));
        }
    }
    assert(u.unsatisfied_requirements@.contains(k));
    let a = choose|a: int|
        0 <= a < u.unsatisfied_requirements@.len() && u.unsatisfied_requirements@[a] == k;
    assert(u.unsatisfied_requirements@.len() > 0);
    let step = spec_expand(g, u, Map::empty(), seq![top_name]);
    assert(step.outcome == Err::<(), Seq<Diag>>(unsat_diags(u)));
    let sr = spec_resolve(g, top_name, top_version);
    assert(sr == Err::<Map<Seq<char>, Version>, Seq<Diag>>(unsat_diags(u)));
    assert(sr->Err_0[a] is UnsatisfiedRequirement);
    assert(sr->Err_0[a]->UnsatisfiedRequirement_name == top_name);
    assert(sr->Err_0[a]->UnsatisfiedRequirement_target == r.module@);
}

// ------------------------------------------------------------------
// Latest-first preference
// ------------------------------------------------------------------

/// When the highest candidate version of a name is itself viable, it is the
/// one committed: lower versions are only reached by backtracking.
pub proof fn lemma_latest_first(
    g: Seq<Vertice>,
    n: Seq<char>,
    cands: Seq<Version>,
    sel: Map<Seq<char>, Version>,
    path: Seq<Seq<char>>,
)
    requires
        cands.len() > 0,
        versions_sorted_desc(cands),
        !path.contains(n),
        !sel.dom().contains(n),
        catalog_has(g, n, cands[0]),
        spec_expand(
            g,
            node_at(g, n, cands[0]),
            sel.insert(n, cands[0]),
            path.push(n),
        ).outcome is Ok,
    ensures
        ({
            let step = spec_choose(g, n, cands, sel, path);
            &&& step.outcome is Ok
            &&& step.sel.dom().contains(n)
            &&& step.sel[n] == cands[0]
            &&& forall|i: int| 0 < i < cands.len() ==> version_lt(#[trigger] cands[i], cands[0])
        }),
{
    assert(catalog_has_name(g, n)) by {
        let i = choose|i: int| 0 <= i < g.len() && g[i].name@ == n && g[i].version == cands[0];
        assert(g[i].name@ == n);
    }
    let sel1 = sel.insert(n, cands[0]);
    lemma_expand_frame(g, node_at(g, n, cands[0]), sel1, path.push(n));
    assert(sel1.dom().contains(n));
}


// ------------------------------------------------------------------
// Satisfaction
// ------------------------------------------------------------------

/// A target group is honoured by the selection: its name is selected, with a
/// version from the group, and that name is not a merely tentative choice.
pub open spec fn covered(
    g: Seq<Vertice>,
    sel: Map<Seq<char>, Version>,
    tent: Set<Seq<char>>,
    grp: Group,
) -> bool {
    &&& sel.dom().contains(grp.name@)
    &&& grp.versions@.contains(sel[grp.name@])
    &&& !tent.contains(grp.name@)
}

/// A selected entry is justified: its node exists, is satisfiable, and every
/// one of its target groups is honoured.
pub open spec fn entry_ok(
    g: Seq<Vertice>,
    sel: Map<Seq<char>, Version>,
    n: Seq<char>,
    tent: Set<Seq<char>>,
) -> bool {
    &&& sel.dom().contains(n)
    &&& catalog_has(g, n, sel[n])
    &&& vertice_satisfied(node_at(g, n, sel[n]))
    &&& forall|gi: int|
        0 <= gi < node_at(g, n, sel[n]).children@.len() ==> covered(
            g,
            sel,
            tent,
            #[trigger] node_at(g, n, sel[n]).children@[gi],
        )
}

/// Every committed entry (one whose name is off the path) is justified.
pub open spec fn sel_ok(
    g: Seq<Vertice>,
    sel: Map<Seq<char>, Version>,
    path: Seq<Seq<char>>,
    tent: Set<Seq<char>>,
) -> bool {
    forall|n: Seq<char>|
        #[trigger] sel.dom().contains(n) && !path.contains(n) ==> entry_ok(g, sel, n, tent)
}

/// Justification is stable when the selection grows without touching old
/// entries and the tentative set shrinks.
pub proof fn lemma_entry_ok_mono(
    g: Seq<Vertice>,
    sel1: Map<Seq<char>, Version>,
    sel2: Map<Seq<char>, Version>,
    n: Seq<char>,
    tent1: Set<Seq<char>>,
    tent2: Set<Seq<char>>,
)
    requires
        entry_ok(g, sel1, n, tent1),
        forall|k: Seq<char>|
            #[trigger] sel1.dom().contains(k) ==> sel2.dom().contains(k) && sel2[k] == sel1[k],
        forall|k: Seq<char>| #[trigger] tent2.contains(k) ==> tent1.contains(k),
    ensures
        entry_ok(g, sel2, n, tent2),
{
    assert(sel2[n] == sel1[n]);
    assert forall|gi: int|
        0 <= gi < node_at(g, n, sel2[n]).children@.len() implies covered(
        g,
        sel2,
        tent2,
        #[trigger] node_at(g, n, sel2[n]).children@[gi],
    ) by {
        assert(covered(g, sel1, tent1, node_at(g, n, sel1[n]).children@[gi]));
    }
}

/// Justification survives the removal of a tentative name: no justified
/// entry relies on one.
pub proof fn lemma_entry_ok_remove(
    g: Seq<Vertice>,
    sel: Map<Seq<char>, Version>,
    n: Seq<char>,
    tent: Set<Seq<char>>,
    rm: Seq<char>,
)
    requires
        entry_ok(g, sel, n, tent),
        tent.contains(rm),
        n != rm,
    ensures
        entry_ok(g, sel.remove(rm), n, tent),
{
    let sel2 = sel.remove(rm);
    assert(sel2[n] == sel[n]);
    assert forall|gi: int|
        0 <= gi < node_at(g, n, sel2[n]).children@.len() implies covered(
        g,
        sel2,
        tent,
        #[trigger] node_at(g, n, sel2[n]).children@[gi],
    ) by {
        let grp = node_at(g, n, sel[n]).children@[gi];
        assert(covered(g, sel, tent, grp));
        assert(grp.name@ != rm);
    }
}

pub proof fn lemma_expand_sat(
    g: Seq<Vertice>,
    u: Vertice,
    sel: Map<Seq<char>, Version>,
    path: Seq<Seq<char>>,
    tent: Set<Seq<char>>,
)
    requires
        graph_wf(g),
        forall|k: Seq<char>| #[trigger] tent.contains(k) ==> path.contains(k),
        sel_ok(g, sel, path, tent),
    ensures
        ({
            let step = spec_expand(g, u, sel, path);
            &&& sel_ok(g, step.sel, path, tent)
            &&& step.outcome is Ok ==> vertice_satisfied(u) && (forall|gi: int|
                0 <= gi < u.children@.len() ==> covered(
                    g,
                    step.sel,
                    tent,
                    #[trigger] u.children@[gi],
                ))
        }),
    decreases free_names(g, path), 3int, 1int,
{
    if u.unsatisfied_requirements@.len() > 0 {
    } else {
        lemma_groups_sat(g, u.children@, 0, sel, path, tent);
    }
}

pub proof fn lemma_groups_sat(
    g: Seq<Vertice>,
    groups: Seq<Group>,
    gi: int,
    sel: Map<Seq<char>, Version>,
    path: Seq<Seq<char>>,
    tent: Set<Seq<char>>,
)
    requires
        graph_wf(g),
        0 <= gi,
        forall|k: Seq<char>| #[trigger] tent.contains(k) ==> path.contains(k),
        sel_ok(g, sel, path, tent),
    ensures
        ({
            let step = spec_expand_groups(g, groups, gi, sel, path);
            &&& sel_ok(g, step.sel, path, tent)
            &&& step.outcome is Ok ==> forall|k: int|
                0 <= k && gi <= k < groups.len() ==> covered(
                    g,
                    step.sel,
                    tent,
                    #[trigger] groups[k],
                )
        }),
    decreases free_names(g, path), 2int, groups.len() - gi + 1,
{
    if gi < 0 || gi >= groups.len() {
    } else {
        let step1 = spec_choose(g, groups[gi].name@, groups[gi].versions@, sel, path);
        lemma_choose_sat(g, groups[gi].name@, groups[gi].versions@, sel, path, tent);
        assert(spec_expand_groups(g, groups, gi, sel, path) == if step1.outcome is Ok {
            spec_expand_groups(g, groups, gi + 1, step1.sel, path)
        } else {
            step1
        });
        if step1.outcome is Ok {
            let step = spec_expand_groups(g, groups, gi + 1, step1.sel, path);
            lemma_groups_sat(g, groups, gi + 1, step1.sel, path, tent);
            lemma_expand_groups_frame(g, groups, gi + 1, step1.sel, path);
            if step.outcome is Ok {
                assert forall|k: int| 0 <= k && gi <= k < groups.len() implies covered(
                    g,
                    step.sel,
                    tent,
                    #[trigger] groups[k],
                ) by {
                    if k == gi {
                        let t = groups[gi].name@;
                        assert(entry_ok(g, step1.sel, t, tent));
                        assert(step1.sel.dom().contains(t));
                        assert(groups[gi].versions@.contains(step1.sel[t]));
                        assert(!path.contains(t));
                        assert(!tent.contains(t));
                        assert(step.sel.dom().contains(t) && step.sel[t] == step1.sel[t]);
                    }
                }
            }
        }
    }
}

pub proof fn lemma_choose_sat(
    g: Seq<Vertice>,
    n: Seq<char>,
    cands: Seq<Version>,
    sel: Map<Seq<char>, Version>,
    path: Seq<Seq<char>>,
    tent: Set<Seq<char>>,
)
    requires
        graph_wf(g),
        forall|k: Seq<char>| #[trigger] tent.contains(k) ==> path.contains(k),
        sel_ok(g, sel, path, tent),
    ensures
        ({
            let step = spec_choose(g, n, cands, sel, path);
            &&& sel_ok(g, step.sel, path, tent)
            &&& step.outcome is Ok ==> !path.contains(n) && cands.contains(step.sel[n])
                && entry_ok(g, step.sel, n, tent)
        }),
    decreases free_names(g, path), 1int, 1int,
{
    if path.contains(n) {
    } else if !catalog_has_name(g, n) {
    } else {
        lemma_free_names_push(g, path, n);
        let path2 = path.push(n);
        assert(path2[path.len() as int] == n);
        assert(path2.contains(n));
        assert forall|k: Seq<char>| path.contains(k) implies path2.contains(k) by {
            let i = choose|i: int| 0 <= i < path.len() && path[i] == k;
            assert(path2[i] == k);
        }
        assert(sel_ok(g, sel, path2, tent)) by {
            assert forall|m: Seq<char>|
                #[trigger] sel.dom().contains(m) && !path2.contains(m) implies entry_ok(
                g,
                sel,
                m,
                tent,
            ) by {
                if path.contains(m) {
                    assert(path2.contains(m));
                }
            }
        }
        lemma_try_sat(g, n, cands, 0, sel, path2, tent, Seq::empty());
        let step = spec_try(g, n, cands, 0, sel, path2, Seq::empty());
        assert forall|m: Seq<char>|
            #[trigger] step.sel.dom().contains(m) && !path.contains(m) implies entry_ok(
            g,
            step.sel,
            m,
            tent,
        ) by {
            if m == n {
                if step.outcome is Ok {
                } else {
                    assert(step.sel.dom().contains(n) == sel.dom().contains(n));
                    assert(sel.dom().contains(m));
                    assert(entry_ok(g, sel, n, tent));
                    lemma_try_frame(g, n, cands, 0, sel, path2, Seq::empty());
                    lemma_entry_ok_mono(g, sel, step.sel, n, tent, tent);
                }
            } else {
                if path2.contains(m) {
                    let i = choose|i: int| 0 <= i < path2.len() && path2[i] == m;
                    if i < path.len() {
                        assert(path[i] == m);
                    }
                    assert(false);
                }
            }
        }
    }
}

pub proof fn lemma_try_sat(
    g: Seq<Vertice>,
    n: Seq<char>,
    cands: Seq<Version>,
    ci: int,
    sel: Map<Seq<char>, Version>,
    path: Seq<Seq<char>>,
    tent: Set<Seq<char>>,
    errs: Seq<Diag>,
)
    requires
        graph_wf(g),
        path.contains(n),
        forall|k: Seq<char>| #[trigger] tent.contains(k) ==> path.contains(k),
        sel_ok(g, sel, path, tent),
    ensures
        ({
            let step = spec_try(g, n, cands, ci, sel, path, errs);
            &&& sel_ok(g, step.sel, path, tent)
            &&& step.outcome is Ok ==> step.sel.dom().contains(n) && cands.contains(step.sel[n])
                && entry_ok(g, step.sel, n, tent)
            &&& step.outcome is Err ==> (step.sel.dom().contains(n) == sel.dom().contains(n))
        }),
    decreases free_names(g, path), 4int, cands.len() - ci + 1,
{
    if ci < 0 || ci >= cands.len() {
    } else {
        let v = cands[ci];
        if sel.dom().contains(n) && sel[n] != v {
            lemma_try_sat(g, n, cands, ci + 1, sel, path, tent, errs);
        } else if !catalog_has(g, n, v) {
            lemma_try_sat(
                g,
                n,
                cands,
                ci + 1,
                sel,
                path,
                tent,
                errs.push(Diag::NodeNotFound { name: n, version: v }),
            );
        } else {
            let was = sel.dom().contains(n);
            let sel1 = sel.insert(n, v);
            let u = node_at(g, n, v);
            let tent2 = if was {
                tent
            } else {
                tent.insert(n)
            };
            assert(u.name@ == n && u.version == v) by {
                let i = choose|i: int|
                    0 <= i < g.len() && g[i].name@ == n && g[i].version == v;
            }
            assert(sel_ok(g, sel1, path, tent2)) by {
                assert forall|m: Seq<char>|
                    #[trigger] sel1.dom().contains(m) && !path.contains(m) implies entry_ok(
                    g,
                    sel1,
                    m,
                    tent2,
                ) by {
                    assert(m != n);
                    assert(sel.dom().contains(m));
                    assert(entry_ok(g, sel, m, tent));
                    assert(sel1[m] == sel[m]);
                    assert forall|gi: int|
                        0 <= gi < node_at(g, m, sel1[m]).children@.len() implies covered(
                        g,
                        sel1,
                        tent2,
                        #[trigger] node_at(g, m, sel1[m]).children@[gi],
                    ) by {
                        let grp = node_at(g, m, sel[m]).children@[gi];
                        assert(covered(g, sel, tent, grp));
                        if !was && grp.name@ == n {
                            assert(sel.dom().contains(n));
                        }
                    }
                }
            }
            let step = spec_expand(g, u, sel1, path);
            lemma_expand_sat(g, u, sel1, path, tent2);
            lemma_expand_frame(g, u, sel1, path);
            if step.outcome is Ok {
                assert(sel1.dom().contains(n) && sel1[n] == v);
                assert(step.sel.dom().contains(n) && step.sel[n] == v);
                assert(cands.contains(v));
                assert(entry_ok(g, step.sel, n, tent)) by {
                    assert(catalog_has(g, n, v));
                    assert(node_at(g, n, step.sel[n]) == u);
                    assert(vertice_satisfied(u));
                    assert forall|gi: int|
                        0 <= gi < node_at(g, n, step.sel[n]).children@.len() implies covered(
                        g,
                        step.sel,
                        tent,
                        #[trigger] node_at(g, n, step.sel[n]).children@[gi],
                    ) by {
                        assert(covered(g, step.sel, tent2, u.children@[gi]));
                    }
                }
                assert(sel_ok(g, step.sel, path, tent)) by {
                    assert forall|m: Seq<char>|
                        #[trigger] step.sel.dom().contains(m) && !path.contains(m)
                        implies entry_ok(g, step.sel, m, tent) by {
                        assert(entry_ok(g, step.sel, m, tent2));
                        lemma_entry_ok_mono(g, step.sel, step.sel, m, tent2, tent);
                    }
                }
            } else {
                let sel2 = if was {
                    step.sel
                } else {
                    step.sel.remove(n)
                };
                assert(sel_ok(g, sel2, path, tent)) by {
                    assert forall|m: Seq<char>|
                        #[trigger] sel2.dom().contains(m) && !path.contains(m) implies entry_ok(
                        g,
                        sel2,
                        m,
                        tent,
                    ) by {
                        assert(m != n);
                        assert(step.sel.dom().contains(m));
                        assert(entry_ok(g, step.sel, m, tent2));
                        if was {
                            lemma_entry_ok_mono(g, step.sel, sel2, m, tent2, tent);
                        } else {
                            lemma_entry_ok_remove(g, step.sel, m, tent2, n);
                            lemma_entry_ok_mono(g, sel2, sel2, m, tent2, tent);
                        }
                    }
                }
                assert(sel2.dom().contains(n) == sel.dom().contains(n)) by {
                    assert(sel1.dom().contains(n));
                    assert(step.sel.dom().contains(n));
                }
                lemma_try_sat(g, n, cands, ci + 1, sel2, path, tent, errs + step.outcome->Err_0);
            }
        }
    }
}

/// Satisfaction: in a successful resolution of a catalog whose records name
/// each target at most once, every requirement of every selected node's
/// record is satisfied by the version selected for its target.
pub open spec fn distinct_targets(g: Seq<Vertice>) -> bool {
    forall|i: int, a: int, b: int|
        #![trigger g[i].requirements@[a], g[i].requirements@[b]]
        0 <= i < g.len() && 0 <= a < b < g[i].requirements@.len()
            ==> g[i].requirements@[a].module@ != g[i].requirements@[b].module@
}

/// The per-entry consequence: a justified entry's node has each of its
/// requirements satisfied by the selection.
pub proof fn lemma_entry_req_sat(
    g: Seq<Vertice>,
    m: Map<Seq<char>, Version>,
    n: Seq<char>,
    k: int,
)
    requires
        graph_wf(g),
        distinct_targets(g),
        m.dom().contains(n),
        entry_ok(g, m, n, Set::empty()),
        0 <= k < node_at(g, n, m[n]).requirements@.len(),
    ensures
        m.dom().contains(node_at(g, n, m[n]).requirements@[k].module@),
        crate::constraint::req_matches(
            node_at(g, n, m[n]).requirements@[k].constraint,
            m[node_at(g, n, m[n]).requirements@[k].module@],
        ),
{
    let u = node_at(g, n, m[n]);
    let i = choose|i: int| 0 <= i < g.len() && g[i].name@ == n && g[i].version == m[n];
    assert(u == g[i]);
    assert(vertice_wf(g, g[i]));
    let r = u.requirements@[k];
    assert(req_satisfiable(g, r)) by {
        if !req_satisfiable(g, r) {
            assert(u.unsatisfied_requirements@.contains(k as usize));
            let a = choose|a: int|
                0 <= a < u.unsatisfied_requirements@.len() && u.unsatisfied_requirements@[a]
                    == k as usize;
        }
    }
    let w = choose|w: Version|
        catalog_has(g, r.module@, w) && #[trigger] crate::constraint::req_matches(r.constraint, w);
    assert(child_edge(g, u.requirements@, r.module@, w)) by {
        assert(u.requirements@[k].module@ == r.module@);
        assert(wants(u.requirements@, r.module@, w));
    }
    assert(group_contains(u.children@, r.module@, w));
    let gi = choose|gi: int|
        0 <= gi < u.children@.len() && u.children@[gi].name@ == r.module@
            && u.children@[gi].versions@.contains(w);
    assert(covered(g, m, Set::empty(), u.children@[gi]));
    let t = r.module@;
    assert(m.dom().contains(t));
    assert(u.children@[gi].versions@.contains(m[t]));
    assert(group_contains(u.children@, t, m[t]));
    assert(child_edge(g, u.requirements@, t, m[t]));
    assert(wants(u.requirements@, t, m[t]));
    let k2 = choose|k2: int|
        0 <= k2 < u.requirements@.len() && u.requirements@[k2].module@ == t
            && crate::constraint::req_matches(u.requirements@[k2].constraint, m[t]);
    assert(k2 == k) by {
        if k2 < k {
            assert(g[i].requirements@[k2].module@ != g[i].requirements@[k].module@);
        } else if k < k2 {
            assert(g[i].requirements@[k].module@ != g[i].requirements@[k2].module@);
        }
    }
}

/// Satisfaction, at the top: every entry of a successful resolution is
/// justified, the top pair included.
pub proof fn lemma_satisfaction(
    g: Seq<Vertice>,
    top_name: Seq<char>,
    top_version: Version,
    m: Map<Seq<char>, Version>,
)
    requires
        graph_wf(g),
        spec_resolve(g, top_name, top_version) == Ok::<Map<Seq<char>, Version>, Seq<Diag>>(m),
    ensures
        m.dom().contains(top_name) && m[top_name] == top_version,
        forall|n: Seq<char>| #[trigger] m.dom().contains(n) ==> entry_ok(g, m, n, Set::empty()),
        forall|n: Seq<char>| #[trigger] m.dom().contains(n) ==> catalog_has(g, n, m[n]),
{
    assert(catalog_has(g, top_name, top_version));
    let u = node_at(g, top_name, top_version);
    let i = choose|i: int|
        0 <= i < g.len() && g[i].name@ == top_name && g[i].version == top_version;
    assert(u == g[i]);
    let path = seq![top_name];
    let step = spec_expand(g, u, Map::empty(), path);
    lemma_expand_sat(g, u, Map::empty(), path, Set::empty());
    lemma_expand_frame(g, u, Map::empty(), path);
    lemma_resolve_top_fresh(g, top_name, top_version);
    assert(m == step.sel.insert(top_name, top_version));
    assert(path[0] == top_name);
    assert(path.contains(top_name));
    assert forall|n: Seq<char>| #[trigger] m.dom().contains(n) implies entry_ok(
        g,
        m,
        n,
        Set::empty(),
    ) by {
        if n == top_name {
            assert(m[top_name] == top_version);
            assert(node_at(g, top_name, m[top_name]) == u);
            assert(vertice_satisfied(u));
            assert forall|gi: int|
                0 <= gi < node_at(g, top_name, m[top_name]).children@.len() implies covered(
                g,
                m,
                Set::empty(),
                #[trigger] node_at(g, top_name, m[top_name]).children@[gi],
            ) by {
                assert(covered(g, step.sel, Set::empty(), u.children@[gi]));
                let t = u.children@[gi].name@;
                assert(step.sel.dom().contains(t));
                assert(t != top_name);
                assert(m.dom().contains(t) && m[t] == step.sel[t]);
            }
        } else {
            assert(step.sel.dom().contains(n));
            assert(!path.contains(n)) by {
                if path.contains(n) {
                    let j = choose|j: int| 0 <= j < path.len() && path[j] == n;
                    assert(path[j] == top_name);
                }
            }
            assert(entry_ok(g, step.sel, n, Set::empty()));
            lemma_entry_ok_mono(g, step.sel, m, n, Set::empty(), Set::empty());
        }
    }
}


/// Satisfaction, spelled out per requirement: in a successful resolution of
/// a catalog whose records name each target at most once, every requirement
/// of every selected node is satisfied by the version selected for its
/// target.
pub proof fn lemma_satisfaction_requirements(
    g: Seq<Vertice>,
    top_name: Seq<char>,
    top_version: Version,
    m: Map<Seq<char>, Version>,
    n: Seq<char>,
    k: int,
)
    requires
        graph_wf(g),
        distinct_targets(g),
        spec_resolve(g, top_name, top_version) == Ok::<Map<Seq<char>, Version>, Seq<Diag>>(m),
        m.dom().contains(n),
        0 <= k < node_at(g, n, m[n]).requirements@.len(),
    ensures
        m.dom().contains(node_at(g, n, m[n]).requirements@[k].module@),
        crate::constraint::req_matches(
            node_at(g, n, m[n]).requirements@[k].constraint,
            m[node_at(g, n, m[n]).requirements@[k].module@],
        ),
{
    lemma_satisfaction(g, top_name, top_version, m);
    lemma_entry_req_sat(g, m, n, k);
}

// ------------------------------------------------------------------
// Cycle detection
// ------------------------------------------------------------------

/// A name already being expanded is rejected at once with a cycle report
/// carrying the whole path; no candidate version is tried and the selection
/// is untouched.
pub proof fn lemma_cycle_reported(
    g: Seq<Vertice>,
    n: Seq<char>,
    cands: Seq<Version>,
    sel: Map<Seq<char>, Version>,
    path: Seq<Seq<char>>,
)
    requires
        path.contains(n),
    ensures
        spec_choose(g, n, cands, sel, path) == (SearchStep {
            sel,
            outcome: Err(seq![Diag::CycleDetected { path: path, repeated: n }]),
        }),
{
}

/// Trying the versions of `b` when every node of `b` at once requires `a`,
/// which is already on the path, fails and reports the cycle.
proof fn lemma_try_cycles(
    g: Seq<Vertice>,
    a: Seq<char>,
    b: Seq<char>,
    cs: Seq<Version>,
    ci: int,
    sel: Map<Seq<char>, Version>,
    p: Seq<Seq<char>>,
    errs: Seq<Diag>,
)
    requires
        graph_wf(g),
        p.contains(a),
        forall|j: int|
            0 <= j < g.len() && (#[trigger] g[j]).name@ == b ==> vertice_satisfied(g[j])
                && g[j].children@.len() > 0 && g[j].children@[0].name@ == a,
        forall|c: int| 0 <= c < cs.len() ==> catalog_has(g, b, #[trigger] cs[c]),
    ensures
        ({
            let step = spec_try(g, b, cs, ci, sel, p, errs);
            &&& step.outcome is Err
            &&& forall|q: int|
                0 <= q < errs.len() ==> step.outcome->Err_0.contains(#[trigger] errs[q])
            &&& (0 <= ci < cs.len() && !(sel.dom().contains(b) && sel[b] != cs[ci])
                ==> step.outcome->Err_0.contains(
                Diag::CycleDetected { path: p, repeated: a },
            ))
        }),
    decreases cs.len() - ci,
{
    if ci < 0 || ci >= cs.len() {
        assert forall|q: int| 0 <= q < errs.len() implies spec_try(
            g,
            b,
            cs,
            ci,
            sel,
            p,
            errs,
        ).outcome->Err_0.contains(#[trigger] errs[q]) by {
            assert(errs[q] == errs[q]);
        }
    } else {
        let v = cs[ci];
        if sel.dom().contains(b) && sel[b] != v {
            lemma_try_cycles(g, a, b, cs, ci + 1, sel, p, errs);
            assert(spec_try(g, b, cs, ci, sel, p, errs) == spec_try(
                g,
                b,
                cs,
                ci + 1,
                sel,
                p,
                errs,
            ));
        } else {
            assert(catalog_has(g, b, v));
            let w = node_at(g, b, v);
            let j = choose|j: int| 0 <= j < g.len() && g[j].name@ == b && g[j].version == v;
            assert(w == g[j]);
            assert(vertice_satisfied(w) && w.children@.len() > 0 && w.children@[0].name@ == a);
            let sel1 = sel.insert(b, v);
            let step1 = spec_choose(g, w.children@[0].name@, w.children@[0].versions@, sel1, p);
            lemma_cycle_reported(g, a, w.children@[0].versions@, sel1, p);
            assert(step1.outcome is Err);
            assert(spec_expand_groups(g, w.children@, 0, sel1, p) == step1);
            let d0 = seq![Diag::CycleDetected { path: p, repeated: a }];
            assert(spec_expand(g, w, sel1, p).outcome == Err::<(), Seq<Diag>>(d0));
            let stepx = spec_expand(g, w, sel1, p);
            let sel2 = if sel.dom().contains(b) {
                stepx.sel
            } else {
                stepx.sel.remove(b)
            };
            lemma_try_cycles(g, a, b, cs, ci + 1, sel2, p, errs + d0);
            let step = spec_try(g, b, cs, ci, sel, p, errs);
            let rec = spec_try(g, b, cs, ci + 1, sel2, p, errs + d0);
            assert(step == rec);
            assert((errs + d0)[errs.len() as int] == d0[0]);
            assert(step.outcome->Err_0.contains(Diag::CycleDetected { path: p, repeated: a }));
            assert forall|q: int| 0 <= q < errs.len() implies step.outcome->Err_0.contains(
                #[trigger] errs[q],
            ) by {
                assert((errs + d0)[q] == errs[q]);
            }
        }
    }
}

/// Cycle detection, end to end: when the top module requires `b` and every
/// catalog version of `b` requires the top module's name back, resolution
/// fails with a cycle report that carries both names.
pub proof fn lemma_cycle_failure(g: Seq<Vertice>, a: Seq<char>, va: Version, b: Seq<char>)
    requires
        graph_wf(g),
        a != b,
        catalog_has(g, a, va),
        vertice_satisfied(node_at(g, a, va)),
        node_at(g, a, va).children@.len() > 0,
        node_at(g, a, va).children@[0].name@ == b,
        forall|j: int|
            0 <= j < g.len() && (#[trigger] g[j]).name@ == b ==> vertice_satisfied(g[j])
                && g[j].children@.len() > 0 && g[j].children@[0].name@ == a,
    ensures
        spec_resolve(g, a, va) is Err,
        exists|q: int|
            0 <= q < spec_resolve(g, a, va)->Err_0.len() && (#[trigger] spec_resolve(
                g,
                a,
                va,
            )->Err_0[q]) is CycleDetected && spec_resolve(g, a, va)->Err_0[q]->CycleDetected_repeated
                == a && spec_resolve(g, a, va)->Err_0[q]->CycleDetected_path.contains(b),
{
    let u = node_at(g, a, va);
    let i = choose|i: int| 0 <= i < g.len() && g[i].name@ == a && g[i].version == va;
    assert(u == g[i]);
    assert(vertice_wf(g, g[i]));
    let cs = u.children@[0].versions@;
    assert(cs.len() > 0 && versions_sorted_desc(cs));
    assert forall|c: int| 0 <= c < cs.len() implies catalog_has(g, b, #[trigger] cs[c]) by {
        assert(group_contains(u.children@, b, cs[c])) by {
            assert(u.children@[0].name@ == b && u.children@[0].versions@.contains(cs[c]));
        }
        assert(child_edge(g, u.requirements@, b, cs[c]));
    }
    assert(catalog_has_name(g, b)) by {
        let j = choose|j: int| 0 <= j < g.len() && g[j].name@ == b && g[j].version == cs[0];
    }
    let path = seq![a];
    assert(!path.contains(b)) by {
        if path.contains(b) {
            let q = choose|q: int| 0 <= q < path.len() && path[q] == b;
            assert(path[q] == a);
        }
    }
    let p = path.push(b);
    assert(p.contains(a)) by {
        assert(p[0] == a);
    }
    lemma_try_cycles(g, a, b, cs, 0, Map::empty(), p, Seq::empty());
    let tstep = spec_try(g, b, cs, 0, Map::empty(), p, Seq::empty());
    assert(tstep.outcome->Err_0.contains(Diag::CycleDetected { path: p, repeated: a }));
    let step1 = spec_choose(g, b, cs, Map::empty(), path);
    assert(step1 == tstep);
    assert(spec_expand_groups(g, u.children@, 0, Map::empty(), path) == step1);
    assert(spec_expand(g, u, Map::empty(), path).outcome == step1.outcome);
    assert(spec_resolve(g, a, va) == Err::<Map<Seq<char>, Version>, Seq<Diag>>(
        step1.outcome->Err_0,
    ));
    let q = choose|q: int|
        0 <= q < step1.outcome->Err_0.len() && step1.outcome->Err_0[q] == Diag::CycleDetected {
            path: p,
            repeated: a,
        };
    assert(spec_resolve(g, a, va)->Err_0[q] is CycleDetected);
    assert(p[1] == b);
    assert(spec_resolve(g, a, va)->Err_0[q]->CycleDetected_path.contains(b));
}

} // verus!
