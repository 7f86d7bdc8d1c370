use vstd::prelude::*;
use crate::version::Version;
use crate::graph::{
    Vertice, Group, catalog_has, catalog_has_name, groups_shape_wf,
};
use crate::diag::Diag;

verus! {

/// All module names the catalog offers.
pub open spec fn graph_names(g: Seq<Vertice>) -> Set<Seq<char>> {
    g.map(|i: int, u: Vertice| u.name@).to_set()
}

/// How many catalog names are not yet on the search path: the measure that
/// shrinks every time the search steps into a new module name.
pub open spec fn free_names(g: Seq<Vertice>, path: Seq<Seq<char>>) -> nat {
    graph_names(g).difference(path.to_set()).len()
}

pub proof fn lemma_graph_names(g: Seq<Vertice>)
    ensures
        graph_names(g).finite(),
        forall|n: Seq<char>| #[trigger] graph_names(g).contains(n) == catalog_has_name(g, n),
{
    broadcast use vstd::seq_lib::seq_to_set_is_finite;

    let mapped = g.map(|i: int, u: Vertice| u.name@);
    assert forall|n: Seq<char>| #[trigger] graph_names(g).contains(n) == catalog_has_name(g, n) by {
        if graph_names(g).contains(n) {
            let i = choose|i: int| 0 <= i < mapped.len() && mapped[i] == n;
            assert(g[i].name@ == n);
        }
        if catalog_has_name(g, n) {
            let i = choose|i: int| 0 <= i < g.len() && g[i].name@ == n;
            assert(mapped[i] == n);
            assert(mapped.contains(n));
        }
    }
}

/// Stepping into a catalog name not yet on the path strictly shrinks the
/// supply of free names.
pub proof fn lemma_free_names_push(g: Seq<Vertice>, path: Seq<Seq<char>>, n: Seq<char>)
    requires
        catalog_has_name(g, n),
        !path.contains(n),
    ensures
        free_names(g, path.push(n)) < free_names(g, path),
{
    broadcast use vstd::seq_lib::seq_to_set_is_finite;

    lemma_graph_names(g);
    let names = graph_names(g);
    let before = names.difference(path.to_set());
    let after = names.difference(path.push(n).to_set());
    assert(path.push(n).to_set() =~= path.to_set().insert(n)) by {
        assert forall|x: Seq<char>| #[trigger] path.push(n).contains(x) == (path.contains(x) || x
            == n) by {
            if path.push(n).contains(x) {
                let i = choose|i: int| 0 <= i < path.push(n).len() && path.push(n)[i] == x;
                if i < path.len() {
                    assert(path[i] == x);
                }
            }
            if path.contains(x) {
                let i = choose|i: int| 0 <= i < path.len() && path[i] == x;
                assert(path.push(n)[i] == x);
            }
            if x == n {
                assert(path.push(n)[path.len() as int] == x);
            }
        }
    }
    assert(after =~= before.remove(n));
    assert(before.contains(n));
    vstd::set_lib::lemma_len_subset(after, before);
    assert(before.remove(n).len() == before.len() - 1);
}

/// One step of the search: the selection carried forward, and either success
/// or the diagnostics of a failure.
pub struct SearchStep {
    pub sel: Map<Seq<char>, Version>,
    pub outcome: Result<(), Seq<Diag>>,
}

/// The node of the (name, version) pair, where the catalog has one.
pub open spec fn node_at(g: Seq<Vertice>, n: Seq<char>, v: Version) -> Vertice {
    g[choose|i: int| 0 <= i < g.len() && g[i].name@ == n && g[i].version == v]
}

/// One diagnostic for each requirement of `u` that the whole catalog cannot
/// satisfy.
pub open spec fn unsat_diags(u: Vertice) -> Seq<Diag> {
    Seq::new(
        u.unsatisfied_requirements@.len() as nat,
        |a: int| Diag::UnsatisfiedRequirement {
            name: u.name@,
            version: u.version,
            target: u.requirements@[u.unsatisfied_requirements@[a] as int].module@,
            constraint: u.requirements@[u.unsatisfied_requirements@[a] as int].constraint,
        },
    )
}

/// The diagnostics of trying candidates of a name the catalog does not offer
/// at all: one missing-node report per candidate not ruled out by an earlier
/// selection.
pub open spec fn missing_diags(
    n: Seq<char>,
    cands: Seq<Version>,
    ci: int,
    sel: Map<Seq<char>, Version>,
    errs: Seq<Diag>,
) -> Seq<Diag>
    decreases cands.len() - ci,
{
    if ci < 0 || ci >= cands.len() {
        errs
    } else if sel.dom().contains(n) && sel[n] != cands[ci] {
        missing_diags(n, cands, ci + 1, sel, errs)
    } else {
        missing_diags(n, cands, ci + 1, sel, errs.push(Diag::NodeNotFound { name: n, version: cands[ci] }))
    }
}

/// Expands one node: fails on its unsatisfiable requirements, otherwise
/// resolves each of its target names in turn.
pub open spec fn spec_expand(
    g: Seq<Vertice>,
    u: Vertice,
    sel: Map<Seq<char>, Version>,
    path: Seq<Seq<char>>,
) -> SearchStep
    decreases free_names(g, path), 3int, 0int,
{
    if u.unsatisfied_requirements@.len() > 0 {
        SearchStep { sel, outcome: Err(unsat_diags(u)) }
    } else {
        spec_expand_groups(g, u.children@, 0, sel, path)
    }
}

/// Resolves the target names of `groups` from index `gi` on, each against
/// the selection left by the previous one; the first failure wins.
pub open spec fn spec_expand_groups(
    g: Seq<Vertice>,
    groups: Seq<Group>,
    gi: int,
    sel: Map<Seq<char>, Version>,
    path: Seq<Seq<char>>,
) -> SearchStep
    decreases free_names(g, path), 2int, groups.len() - gi,
{
    if gi < 0 || gi >= groups.len() {
        SearchStep { sel, outcome: Ok(()) }
    } else {
        let step = spec_choose(g, groups[gi].name@, groups[gi].versions@, sel, path);
        if step.outcome is Ok {
            spec_expand_groups(g, groups, gi + 1, step.sel, path)
        } else {
            step
        }
    }
}

/// Commits one version of `n`: fails at once on a cycle, otherwise tries the
/// candidates in order.
pub open spec fn spec_choose(
    g: Seq<Vertice>,
    n: Seq<char>,
    cands: Seq<Version>,
    sel: Map<Seq<char>, Version>,
    path: Seq<Seq<char>>,
) -> SearchStep
    decreases free_names(g, path), 1int, 0int,
{
    if path.contains(n) {
        SearchStep {
            sel,
            outcome: Err(seq![Diag::CycleDetected { path: path, repeated: n }]),
        }
    } else if !catalog_has_name(g, n) {
        SearchStep { sel, outcome: Err(missing_diags(n, cands, 0, sel, Seq::empty())) }
    } else {
        proof {
            lemma_free_names_push(g, path, n);
        }
        spec_try(g, n, cands, 0, sel, path.push(n), Seq::empty())
    }
}

/// Tries the candidate versions of `n` from index `ci` on: a candidate in
/// conflict with an earlier selection is skipped, a candidate without a node
/// is reported, and otherwise the candidate is selected tentatively and its
/// node expanded; the first success wins, and a failed tentative selection
/// is undone.
pub open spec fn spec_try(
    g: Seq<Vertice>,
    n: Seq<char>,
    cands: Seq<Version>,
    ci: int,
    sel: Map<Seq<char>, Version>,
    path: Seq<Seq<char>>,
    errs: Seq<Diag>,
) -> SearchStep
    decreases free_names(g, path), 4int, cands.len() - ci,
{
    if ci < 0 || ci >= cands.len() {
        SearchStep { sel, outcome: Err(errs) }
    } else {
        let v = cands[ci];
        if sel.dom().contains(n) && sel[n] != v {
            spec_try(g, n, cands, ci + 1, sel, path, errs)
        } else if !catalog_has(g, n, v) {
            spec_try(
                g,
                n,
                cands,
                ci + 1,
                sel,
                path,
                errs.push(Diag::NodeNotFound { name: n, version: v }),
            )
        } else {
            let was = sel.dom().contains(n);
            let step = spec_expand(g, node_at(g, n, v), sel.insert(n, v), path);
            if step.outcome is Ok {
                SearchStep { sel: step.sel, outcome: Ok(()) }
            } else {
                let sel2 = if was {
                    step.sel
                } else {
                    step.sel.remove(n)
                };
                spec_try(g, n, cands, ci + 1, sel2, path, errs + step.outcome->Err_0)
            }
        }
    }
}

/// The whole resolution: looks the top node up, expands it with the top name
/// guarding the path, and on success adds the top pair to the selection.
pub open spec fn spec_resolve(
    g: Seq<Vertice>,
    top_name: Seq<char>,
    top_version: Version,
) -> Result<Map<Seq<char>, Version>, Seq<Diag>> {
    if !catalog_has(g, top_name, top_version) {
        Err(seq![Diag::NodeNotFound { name: top_name, version: top_version }])
    } else {
        let step = spec_expand(
            g,
            node_at(g, top_name, top_version),
            Map::empty(),
            seq![top_name],
        );
        match step.outcome {
            Ok(_) => Ok(step.sel.insert(top_name, top_version)),
            Err(d) => Err(d),
        }
    }
}


// ------------------------------------------------------------------
// Frame: what the search may add to the selection
// ------------------------------------------------------------------

/// What expanding adds to a selection: entries already present are kept
/// unchanged, and every new entry is a catalog name not on the path.
pub open spec fn sel_frame(
    g: Seq<Vertice>,
    sel: Map<Seq<char>, Version>,
    path: Seq<Seq<char>>,
    r: Map<Seq<char>, Version>,
) -> bool {
    &&& forall|k: Seq<char>|
        #[trigger] sel.dom().contains(k) ==> r.dom().contains(k) && r[k] == sel[k]
    &&& forall|k: Seq<char>|
        #[trigger] r.dom().contains(k) ==> sel.dom().contains(k) || (catalog_has_name(g, k)
            && !path.contains(k))
}

pub proof fn lemma_expand_frame(
    g: Seq<Vertice>,
    u: Vertice,
    sel: Map<Seq<char>, Version>,
    path: Seq<Seq<char>>,
)
    ensures
        sel_frame(g, sel, path, spec_expand(g, u, sel, path).sel),
    decreases free_names(g, path), 3int, 1int,
{
    if u.unsatisfied_requirements@.len() > 0 {
    } else {
        lemma_expand_groups_frame(g, u.children@, 0, sel, path);
    }
}

pub proof fn lemma_expand_groups_frame(
    g: Seq<Vertice>,
    groups: Seq<Group>,
    gi: int,
    sel: Map<Seq<char>, Version>,
    path: Seq<Seq<char>>,
)
    ensures
        sel_frame(g, sel, path, spec_expand_groups(g, groups, gi, sel, path).sel),
    decreases free_names(g, path), 2int, groups.len() - gi + 1,
{
    if gi < 0 || gi >= groups.len() {
    } else {
        let step = spec_choose(g, groups[gi].name@, groups[gi].versions@, sel, path);
        lemma_choose_frame(g, groups[gi].name@, groups[gi].versions@, sel, path);
        if step.outcome is Ok {
            lemma_expand_groups_frame(g, groups, gi + 1, step.sel, path);
        }
    }
}

pub proof fn lemma_choose_frame(
    g: Seq<Vertice>,
    n: Seq<char>,
    cands: Seq<Version>,
    sel: Map<Seq<char>, Version>,
    path: Seq<Seq<char>>,
)
    ensures
        sel_frame(g, sel, path, spec_choose(g, n, cands, sel, path).sel),
    decreases free_names(g, path), 1int, 1int,
{
    if path.contains(n) {
    } else if !catalog_has_name(g, n) {
    } else {
        lemma_free_names_push(g, path, n);
        assert(path.push(n)[path.len() as int] == n);
        assert(path.push(n).contains(n));
        lemma_try_frame(g, n, cands, 0, sel, path.push(n), Seq::empty());
        let r = spec_try(g, n, cands, 0, sel, path.push(n), Seq::empty()).sel;
        assert forall|k: Seq<char>| #[trigger] r.dom().contains(k) implies sel.dom().contains(k)
            || (catalog_has_name(g, k) && !path.contains(k)) by {
            if !sel.dom().contains(k) {
                if k == n {
                } else {
                    assert(!path.push(n).contains(k) ==> !path.contains(k)) by {
                        if path.contains(k) {
                            let i = choose|i: int| 0 <= i < path.len() && path[i] == k;
                            assert(path.push(n)[i] == k);
                        }
                    }
                }
            }
        }
    }
}

pub proof fn lemma_try_frame(
    g: Seq<Vertice>,
    n: Seq<char>,
    cands: Seq<Version>,
    ci: int,
    sel: Map<Seq<char>, Version>,
    path: Seq<Seq<char>>,
    errs: Seq<Diag>,
)
    requires
        path.contains(n),
        catalog_has_name(g, n),
    ensures
        ({
            let r = spec_try(g, n, cands, ci, sel, path, errs).sel;
            &&& forall|k: Seq<char>|
                #[trigger] sel.dom().contains(k) ==> r.dom().contains(k) && r[k] == sel[k]
            &&& forall|k: Seq<char>|
                #[trigger] r.dom().contains(k) ==> sel.dom().contains(k) || k == n || (
                catalog_has_name(g, k) && !path.contains(k))
        }),
    decreases free_names(g, path), 4int, cands.len() - ci + 1,
{
    if ci < 0 || ci >= cands.len() {
    } else {
        let v = cands[ci];
        if sel.dom().contains(n) && sel[n] != v {
            lemma_try_frame(g, n, cands, ci + 1, sel, path, errs);
        } else if !catalog_has(g, n, v) {
            lemma_try_frame(
                g,
                n,
                cands,
                ci + 1,
                sel,
                path,
                errs.push(Diag::NodeNotFound { name: n, version: v }),
            );
        } else {
            let was = sel.dom().contains(n);
            let sel1 = sel.insert(n, v);
            let step = spec_expand(g, node_at(g, n, v), sel1, path);
            lemma_expand_frame(g, node_at(g, n, v), sel1, path);
            if step.outcome is Ok {
                assert forall|k: Seq<char>| #[trigger] sel.dom().contains(k) implies step.sel.dom().contains(
                    k,
                ) && step.sel[k] == sel[k] by {
                    assert(sel1.dom().contains(k) && sel1[k] == sel[k]);
                }
                assert forall|k: Seq<char>| #[trigger] step.sel.dom().contains(k)
                    implies sel.dom().contains(k) || k == n || (catalog_has_name(g, k)
                    && !path.contains(k)) by {
                    if sel1.dom().contains(k) && k != n {
                        assert(sel.dom().contains(k));
                    }
                }
            } else {
                let sel2 = if was {
                    step.sel
                } else {
                    step.sel.remove(n)
                };
                lemma_try_frame(g, n, cands, ci + 1, sel2, path, errs + step.outcome->Err_0);
                let r = spec_try(g, n, cands, ci + 1, sel2, path, errs + step.outcome->Err_0).sel;
                assert forall|k: Seq<char>| #[trigger] sel.dom().contains(k) implies sel2.dom().contains(
                    k,
                ) && sel2[k] == sel[k] by {
                    assert(sel1.dom().contains(k) && sel1[k] == sel[k]);
                    if was && k == n {
                        assert(sel[n] == v);
                    }
                }
                assert forall|k: Seq<char>| #[trigger] r.dom().contains(k)
                    implies sel.dom().contains(k) || k == n || (catalog_has_name(g, k)
                    && !path.contains(k)) by {
                    if !sel.dom().contains(k) && k != n {
                        if sel2.dom().contains(k) {
                            assert(step.sel.dom().contains(k));
                            assert(!sel1.dom().contains(k) ==> catalog_has_name(g, k)
                                && !path.contains(k));
                            assert(sel1.dom().contains(k) ==> sel.dom().contains(k) || k == n);
                        }
                    }
                }
            }
        }
    }
}

/// A successful resolution never selects a name that was on the path, and in
/// particular never the top name while the top node is being expanded.
pub proof fn lemma_resolve_top_fresh(g: Seq<Vertice>, top_name: Seq<char>, top_version: Version)
    requires
        catalog_has(g, top_name, top_version),
    ensures
        !spec_expand(
            g,
            node_at(g, top_name, top_version),
            Map::empty(),
            seq![top_name],
        ).sel.dom().contains(top_name),
{
    lemma_expand_frame(g, node_at(g, top_name, top_version), Map::empty(), seq![top_name]);
    let r = spec_expand(g, node_at(g, top_name, top_version), Map::empty(), seq![top_name]).sel;
    if r.dom().contains(top_name) {
        assert(seq![top_name][0] == top_name);
        assert(seq![top_name].contains(top_name));
    }
}

} // verus!
