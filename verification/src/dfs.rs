use vstd::prelude::*;
use crate::version::Version;
use crate::names::str_eq;
use crate::graph::{
    Graph, Vertice, graph_wf, catalog_has_name, find_vertice, lemma_node_unique,
};
use crate::diag::{Diagnostic, Diag, diags_view};
use crate::search::{
    SearchStep, spec_expand, spec_expand_groups, spec_choose, spec_try, spec_resolve, node_at,
    unsat_diags, missing_diags, free_names, lemma_free_names_push, lemma_resolve_top_fresh,
};
use crate::selection::{Selection, sel_map, sorted_keys};

verus! {

/// The names on the search path, as character sequences.
pub open spec fn path_view(p: Seq<String>) -> Seq<Seq<char>> {
    Seq::new(p.len(), |i: int| p[i]@)
}

/// Whether `n` is on the search path.
fn visiting_contains(path: &Vec<String>, n: &str) -> (r: bool)
    ensures
        r == path_view(path@).contains(n@),
{
    let mut i: usize = 0;
    while i < path.len()
        invariant
            i <= path@.len(),
            forall|j: int| 0 <= j < i ==> (#[trigger] path@[j])@ != n@,
        decreases path@.len() - i,
    {
        if str_eq(path[i].as_str(), n) {
            proof {
                assert(path_view(path@)[i as int] == n@);
            }
            return true;
        }
        i = i + 1;
    }
    proof {
        if path_view(path@).contains(n@) {
            let j = choose|j: int|
                0 <= j < path_view(path@).len() && path_view(path@)[j] == n@;
            assert(path@[j]@ == n@);
        }
    }
    false
}

/// A copy of the path, name for name.
fn clone_names(p: &Vec<String>) -> (r: Vec<String>)
    ensures
        path_view(r@) == path_view(p@),
{
    let mut out: Vec<String> = Vec::new();
    let mut i: usize = 0;
    while i < p.len()
        invariant
            i <= p@.len(),
            out@.len() == i,
            forall|j: int| 0 <= j < i ==> (#[trigger] out@[j])@ == p@[j]@,
        decreases p@.len() - i,
    {
        out.push(p[i].clone());
        i = i + 1;
    }
    proof {
        assert(path_view(out@) =~= path_view(p@));
    }
    out
}

/// Whether the catalog offers any version under `n`.
fn name_in_graph(g: &Vec<Vertice>, n: &str) -> (r: bool)
    ensures
        r == catalog_has_name(g@, n@),
{
    let mut i: usize = 0;
    while i < g.len()
        invariant
            i <= g@.len(),
            forall|j: int| 0 <= j < i ==> (#[trigger] g@[j]).name@ != n@,
        decreases g@.len() - i,
    {
        if str_eq(g[i].name.as_str(), n) {
            return true;
        }
        i = i + 1;
    }
    proof {
        if catalog_has_name(g@, n@) {
            let j = choose|j: int| 0 <= j < g@.len() && g@[j].name@ == n@;
            assert(g@[j].name@ == n@);
        }
    }
    false
}

/// One report per requirement of node `ui` that the whole catalog cannot
/// satisfy.
fn build_unsat_diags(g: &Vec<Vertice>, ui: usize) -> (r: Vec<Diagnostic>)
    requires
        ui < g@.len(),
        forall|a: int|
            0 <= a < g@[ui as int].unsatisfied_requirements@.len()
                ==> (#[trigger] g@[ui as int].unsatisfied_requirements@[a])
                < g@[ui as int].requirements@.len(),
    ensures
        diags_view(r@) == unsat_diags(g@[ui as int]),
{
    let mut out: Vec<Diagnostic> = Vec::new();
    let n = g[ui].unsatisfied_requirements.len();
    let mut a: usize = 0;
    while a < n
        invariant
            ui < g@.len(),
            n == g@[ui as int].unsatisfied_requirements@.len(),
            forall|b: int|
                0 <= b < n ==> (#[trigger] g@[ui as int].unsatisfied_requirements@[b])
                    < g@[ui as int].requirements@.len(),
            a <= n,
            out@.len() == a,
            forall|b: int| 0 <= b < a ==> (#[trigger] out@[b])@ == unsat_diags(g@[ui as int])[b],
        decreases n - a,
    {
        let k = g[ui].unsatisfied_requirements[a];
        let d = Diagnostic::UnsatisfiedRequirement {
            name: g[ui].name.clone(),
            version: g[ui].version,
            target: g[ui].requirements[k].module.clone(),
            constraint: g[ui].requirements[k].constraint.clone(),
        };
        out.push(d);
        a = a + 1;
    }
    proof {
        assert(diags_view(out@) =~= unsat_diags(g@[ui as int]));
    }
    out
}

/// Expands the node at `ui`: fails on its unsatisfiable requirements,
/// otherwise resolves each of its target names in turn against the shared
/// selection. The path is restored before returning.
fn expand_node(
    g: &Vec<Vertice>,
    ui: usize,
    sel: &mut Selection,
    path: &mut Vec<String>,
    Ghost(p0): Ghost<Seq<Seq<char>>>,
) -> (r: Result<(), Vec<Diagnostic>>)
    requires
        graph_wf(g@),
        ui < g@.len(),
        old(sel).inv(),
        path_view(old(path)@) == p0,
    ensures
        final(sel).inv(),
        path_view(final(path)@) == p0,
        ({
            let step = spec_expand(g@, g@[ui as int], old(sel)@, p0);
            &&& final(sel)@ == step.sel
            &&& match r {
                Ok(_) => step.outcome is Ok,
                Err(d) => step.outcome is Err && diags_view(d@) == step.outcome->Err_0,
            }
        }),
    decreases free_names(g@, p0), 3int, 0int,
{
    if g[ui].unsatisfied_requirements.len() > 0 {
        proof {
            assert(forall|a: int|
                0 <= a < g@[ui as int].unsatisfied_requirements@.len()
                    ==> (#[trigger] g@[ui as int].unsatisfied_requirements@[a])
                    < g@[ui as int].requirements@.len());
        }
        let d = build_unsat_diags(g, ui);
        return Err(d);
    }
    let ghost ch = g@[ui as int].children@;
    let ghost sel0 = sel@;
    let ngroups = g[ui].children.len();
    let mut gi: usize = 0;
    while gi < ngroups
        invariant
            graph_wf(g@),
            ui < g@.len(),
            ch == g@[ui as int].children@,
            ngroups == ch.len(),
            gi <= ngroups,
            sel.inv(),
            path_view(path@) == p0,
            sel0 == old(sel)@,
            g@[ui as int].unsatisfied_requirements@.len() == 0,
            spec_expand_groups(g@, ch, 0, sel0, p0) == spec_expand_groups(
                g@,
                ch,
                gi as int,
                sel@,
                p0,
            ),
        decreases ngroups - gi,
    {
        let ghost selb = sel@;
        let res = choose_version(
            g,
            &g[ui].children[gi].name,
            &g[ui].children[gi].versions,
            sel,
            path,
            Ghost(p0),
        );
        proof {
            let step = spec_choose(g@, ch[gi as int].name@, ch[gi as int].versions@, selb, p0);
            assert(spec_expand_groups(g@, ch, gi as int, selb, p0) == if step.outcome is Ok {
                spec_expand_groups(g@, ch, gi as int + 1, step.sel, p0)
            } else {
                step
            });
        }
        match res {
            Ok(_) => {},
            Err(d) => {
                return Err(d);
            },
        }
        gi = gi + 1;
    }
    Ok(())
}

/// Commits one version of `name`: reports a cycle at once, otherwise tries
/// the candidate versions highest first, backtracking through the graph.
fn choose_version(
    g: &Vec<Vertice>,
    name: &String,
    cands: &Vec<Version>,
    sel: &mut Selection,
    path: &mut Vec<String>,
    Ghost(p0): Ghost<Seq<Seq<char>>>,
) -> (r: Result<(), Vec<Diagnostic>>)
    requires
        graph_wf(g@),
        old(sel).inv(),
        path_view(old(path)@) == p0,
    ensures
        final(sel).inv(),
        path_view(final(path)@) == p0,
        ({
            let step = spec_choose(g@, name@, cands@, old(sel)@, p0);
            &&& final(sel)@ == step.sel
            &&& match r {
                Ok(_) => step.outcome is Ok,
                Err(d) => step.outcome is Err && diags_view(d@) == step.outcome->Err_0,
            }
        }),
    decreases free_names(g@, p0), 1int, 0int,
{
    if visiting_contains(path, name.as_str()) {
        let d = Diagnostic::CycleDetected { path: clone_names(path), repeated: name.clone() };
        let mut out: Vec<Diagnostic> = Vec::new();
        out.push(d);
        proof {
            assert(diags_view(out@) =~= seq![
                Diag::CycleDetected { path: p0, repeated: name@ },
            ]);
        }
        return Err(out);
    }
    if !name_in_graph(g, name.as_str()) {
        let ghost selc = sel@;
        let mut errs: Vec<Diagnostic> = Vec::new();
        proof {
            assert(diags_view(errs@) =~= Seq::<Diag>::empty());
        }
        let mut ci: usize = 0;
        while ci < cands.len()
            invariant
                sel.inv(),
                sel@ == selc,
                ci <= cands@.len(),
                missing_diags(name@, cands@, 0, selc, Seq::empty()) == missing_diags(
                    name@,
                    cands@,
                    ci as int,
                    selc,
                    diags_view(errs@),
                ),
            decreases cands@.len() - ci,
        {
            let v = cands[ci];
            let cur = sel.get(name.as_str());
            let skip = match cur {
                Some(w) => w != v,
                None => false,
            };
            if !skip {
                let ghost e0 = errs@;
                errs.push(Diagnostic::NodeNotFound { name: name.clone(), version: v });
                proof {
                    assert(diags_view(errs@) =~= diags_view(e0).push(
                        Diag::NodeNotFound { name: name@, version: v },
                    ));
                }
            }
            ci = ci + 1;
        }
        return Err(errs);
    }
    proof {
        lemma_free_names_push(g@, p0, name@);
    }
    path.push(name.clone());
    let ghost p1 = p0.push(name@);
    proof {
        assert(path_view(path@) =~= p1);
    }
    let ghost sel_entry = sel@;
    let mut errs: Vec<Diagnostic> = Vec::new();
    proof {
        assert(diags_view(errs@) =~= Seq::<Diag>::empty());
    }
    let mut ci: usize = 0;
    loop
        invariant
            graph_wf(g@),
            sel.inv(),
            path_view(path@) == p1,
            p1 == p0.push(name@),
            sel_entry == old(sel)@,
            catalog_has_name(g@, name@),
            !p0.contains(name@),
            ci <= cands@.len(),
            spec_try(g@, name@, cands@, 0, sel_entry, p1, Seq::empty()) == spec_try(
                g@,
                name@,
                cands@,
                ci as int,
                sel@,
                p1,
                diags_view(errs@),
            ),
        ensures
            graph_wf(g@),
            sel.inv(),
            path_view(path@) == p1,
            p1 == p0.push(name@),
            sel_entry == old(sel)@,
            ci == cands@.len(),
            spec_try(g@, name@, cands@, 0, sel_entry, p1, Seq::empty()) == spec_try(
                g@,
                name@,
                cands@,
                ci as int,
                sel@,
                p1,
                diags_view(errs@),
            ),
        decreases cands@.len() - ci,
    {
        if ci >= cands.len() {
            break;
        }
        let v = cands[ci];
        let ghost selb = sel@;
        let ghost errsb = diags_view(errs@);
        let cur = sel.get(name.as_str());
        let skip = match cur {
            Some(w) => w != v,
            None => false,
        };
        if skip {
            proof {
                assert(spec_try(g@, name@, cands@, ci as int, selb, p1, errsb) == spec_try(
                    g@,
                    name@,
                    cands@,
                    ci as int + 1,
                    selb,
                    p1,
                    errsb,
                ));
            }
            ci = ci + 1;
            continue;
        }
        match find_vertice(g, name.as_str(), v) {
            None => {
                errs.push(Diagnostic::NodeNotFound { name: name.clone(), version: v });
                proof {
                    assert(diags_view(errs@) =~= errsb.push(
                        Diag::NodeNotFound { name: name@, version: v },
                    ));
                    assert(spec_try(g@, name@, cands@, ci as int, selb, p1, errsb) == spec_try(
                        g@,
                        name@,
                        cands@,
                        ci as int + 1,
                        selb,
                        p1,
                        errsb.push(Diag::NodeNotFound { name: name@, version: v }),
                    ));
                }
                ci = ci + 1;
            },
            Some(vi) => {
                let was = match cur {
                    Some(_) => true,
                    None => false,
                };
                if !was {
                    sel.insert(name.clone(), v);
                }
                proof {
                    if was {
                        assert(selb.insert(name@, v) =~= selb);
                    }
                    assert(sel@ == selb.insert(name@, v));
                    let ni = choose|i: int|
                        0 <= i < g@.len() && g@[i].name@ == name@ && g@[i].version == v;
                    lemma_node_unique(g@, ni, vi as int);
                    assert(g@[vi as int] == node_at(g@, name@, v));
                    lemma_free_names_push(g@, p0, name@);
                }
                let res = expand_node(g, vi, sel, path, Ghost(p1));
                proof {
                    let step = spec_expand(g@, node_at(g@, name@, v), selb.insert(name@, v), p1);
                    assert(spec_try(g@, name@, cands@, ci as int, selb, p1, errsb)
                        == if step.outcome is Ok {
                        SearchStep { sel: step.sel, outcome: Ok(()) }
                    } else {
                        spec_try(
                            g@,
                            name@,
                            cands@,
                            ci as int + 1,
                            if selb.dom().contains(name@) {
                                step.sel
                            } else {
                                step.sel.remove(name@)
                            },
                            p1,
                            errsb + step.outcome->Err_0,
                        )
                    });
                }
                match res {
                    Ok(_) => {
                        let ghost pp = path@;
                        path.pop();
                        proof {
                            assert(pp.len() == p1.len());
                            assert(path@ =~= pp.subrange(0, pp.len() - 1));
                            assert forall|i: int| 0 <= i < path@.len() implies path@[i]@
                                == p0[i] by {
                                assert(path@[i] == pp[i]);
                                assert(path_view(pp)[i] == p1[i]);
                            }
                            assert(path_view(path@) =~= p0);
                        }
                        return Ok(());
                    },
                    Err(mut d) => {
                        let ghost e0 = errs@;
                        let ghost dv = diags_view(d@);
                        errs.append(&mut d);
                        if !was {
                            sel.remove(name.as_str());
                        }
                        proof {
                            assert(diags_view(errs@) =~= errsb + dv);
                        }
                        ci = ci + 1;
                    },
                }
            },
        }
    }
    let ghost pp = path@;
    path.pop();
    proof {
        assert(pp.len() == p1.len());
        assert(path@ =~= pp.subrange(0, pp.len() - 1));
        assert forall|i: int| 0 <= i < path@.len() implies path@[i]@ == p0[i] by {
            assert(path@[i] == pp[i]);
            assert(path_view(pp)[i] == p1[i]);
        }
        assert(path_view(path@) =~= p0);
    }
    Err(errs)
}

impl Graph {
    /// The resolution itself: starting from the module `top_module` at
    /// `top_version`, searches for one version per transitively required
    /// module name, every requirement satisfied, highest versions first. On
    /// success the assignment comes back sorted by name; on failure, the
    /// diagnostics gathered along every failed branch.
    pub fn dfs(&self, top_module: String, top_version: Version) -> (r: Result<
        Vec<(String, Version)>,
        Vec<Diagnostic>,
    >)
        requires
            graph_wf(self.vertices@),
        ensures
            ({
                let sr = spec_resolve(self.vertices@, top_module@, top_version);
                match r {
                    Ok(list) => sr is Ok && sorted_keys(list@) && sel_map(list@) == sr->Ok_0,
                    Err(d) => sr is Err && diags_view(d@) == sr->Err_0,
                }
            }),
    {
        let ghost g = self.vertices@;
        match find_vertice(&self.vertices, top_module.as_str(), top_version) {
            None => {
                let mut out: Vec<Diagnostic> = Vec::new();
                out.push(Diagnostic::NodeNotFound { name: top_module, version: top_version });
                proof {
                    assert(diags_view(out@) =~= seq![
                        Diag::NodeNotFound { name: out@[0]->NodeNotFound_name@, version: top_version },
                    ]);
                }
                Err(out)
            },
            Some(ti) => {
                let mut sel = Selection::new();
                let mut path: Vec<String> = Vec::new();
                path.push(top_module.clone());
                let ghost p0 = seq![top_module@];
                proof {
                    assert(path_view(path@) =~= p0);
                    let ni = choose|i: int|
                        0 <= i < g.len() && g[i].name@ == top_module@ && g[i].version
                            == top_version;
                    lemma_node_unique(g, ni, ti as int);
                    assert(g[ti as int] == node_at(g, top_module@, top_version));
                }
                let res = expand_node(&self.vertices, ti, &mut sel, &mut path, Ghost(p0));
                match res {
                    Ok(_) => {
                        proof {
                            lemma_resolve_top_fresh(g, top_module@, top_version);
                        }
                        sel.insert(top_module, top_version);
                        Ok(sel.entries)
                    },
                    Err(d) => Err(d),
                }
            },
        }
    }
}

} // verus!
