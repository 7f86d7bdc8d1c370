use vstd::prelude::*;
use crate::version::Version;
use crate::graph::{
    Graph, Module, Vertice, graph_wf, catalog_has, records_have, last_record_reqs,
};
use crate::search::spec_resolve;
use crate::selection::{sel_map, sorted_keys};
use crate::diag::{Diagnostic, diags_view};

verus! {

/// Builds the dependency graph of the given records and resolves the top
/// module: either one version per transitively required name, sorted by
/// name, or the diagnostics of every failed branch.
pub fn solve_dependencies(modules: Vec<&Module>, top_name: String, top_version: Version) -> (r:
    Result<Vec<(String, Version)>, Vec<Diagnostic>>)
    ensures
        exists|g: Seq<Vertice>|
            {
                &&& #[trigger] graph_wf(g)
                &&& forall|n: Seq<char>, v: Version|
                    #[trigger] catalog_has(g, n, v) == records_have(modules@, n, v)
                &&& forall|i: int|
                    #![trigger g[i]]
                    0 <= i < g.len() ==> g[i].requirements@ == last_record_reqs(
                        modules@,
                        g[i].name@,
                        g[i].version,
                    )
                &&& match r {
                    Ok(list) => sorted_keys(list@) && spec_resolve(g, top_name@, top_version)
                        == Ok::<Map<Seq<char>, Version>, Seq<crate::diag::Diag>>(sel_map(list@)),
                    Err(d) => spec_resolve(g, top_name@, top_version) == Err::<
                        Map<Seq<char>, Version>,
                        Seq<crate::diag::Diag>,
                    >(diags_view(d@)),
                }
            },
{
    let mut graph = Graph::new();
    graph.loads_modules(modules);
    let r = graph.dfs(top_name, top_version);
    proof {
        let g = graph.vertices@;
        assert(graph_wf(g));
        match &r {
            Ok(list) => {
                assert(spec_resolve(g, top_name@, top_version)->Ok_0 =~= sel_map(list@));
            },
            Err(d) => {
                assert(spec_resolve(g, top_name@, top_version)->Err_0 =~= diags_view(d@));
            },
        }
    }
    r
}

} // verus!
