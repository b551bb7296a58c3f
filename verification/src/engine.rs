use crate::graph::{self, Graph};
use crate::package_json::PackageJSON;
use crate::{make_script_id, pipeline_find_rec, script_id_spec, CommandConfig, Config, Script, ScriptStatus, ScriptV};
use vstd::prelude::*;

verus! {

/// A fatal build-time error: either a would-be cycle in one of the two
/// graphs, reported with the offending edge, or a declared dependency name
/// that no pipeline entry defines.
#[derive(Debug)]
pub enum EngineError {
    CycleDetected { from: String, to: String },
    MissingDependency { name: String },
}

/// Some registered task carries this id.
pub open spec fn id_registered(s: Seq<Script>, id: Seq<char>) -> bool {
    exists|i: int| 0 <= i < s.len() && (#[trigger] s[i])@.id_spec() == id
}

/// All registered tasks carry distinct ids.
pub open spec fn unique_ids(s: Seq<Script>) -> bool {
    forall|i: int, j: int| 0 <= i < j < s.len() ==> s[i]@.id_spec() != s[j]@.id_spec()
}

/// The registry seen as a map from task id to task record.
pub open spec fn registry_map(s: Seq<Script>) -> Map<Seq<char>, ScriptV>
    decreases s.len(),
{
    if s.len() == 0 {
        Map::empty()
    } else {
        registry_map(s.drop_last()).insert(s.last()@.id_spec(), s.last()@)
    }
}

pub proof fn lemma_registry_dom(s: Seq<Script>, id: Seq<char>)
    ensures
        registry_map(s).dom().contains(id) <==> id_registered(s, id),
    decreases s.len(),
{
    if s.len() > 0 {
        lemma_registry_dom(s.drop_last(), id);
        if registry_map(s).dom().contains(id) {
            if id == s.last()@.id_spec() {
                assert(s[s.len() - 1]@.id_spec() == id);
            } else {
                let i = choose|i: int|
                    0 <= i < s.drop_last().len() && (#[trigger] s.drop_last()[i])@.id_spec() == id;
                assert(s[i]@.id_spec() == id);
            }
        }
        if id_registered(s, id) {
            let i = choose|i: int| 0 <= i < s.len() && (#[trigger] s[i])@.id_spec() == id;
            if i < s.len() - 1 {
                assert(s.drop_last()[i]@.id_spec() == id);
            }
        }
    }
}

pub proof fn lemma_registry_value(s: Seq<Script>, i: int)
    requires
        unique_ids(s),
        0 <= i < s.len(),
    ensures
        registry_map(s).dom().contains(s[i]@.id_spec()),
        registry_map(s)[s[i]@.id_spec()] == s[i]@,
    decreases s.len(),
{
    if i == s.len() - 1 {
    } else {
        assert forall|x: int, y: int| 0 <= x < y < s.drop_last().len() implies s.drop_last()[x]@.id_spec()
            != s.drop_last()[y]@.id_spec() by {
            assert(s[x]@.id_spec() != s[y]@.id_spec());
        }
        lemma_registry_value(s.drop_last(), i);
        assert(s.drop_last()[i] == s[i]);
        assert(s[i]@.id_spec() != s.last()@.id_spec());
    }
}

pub proof fn lemma_registry_update(s: Seq<Script>, i: int, x: Script)
    requires
        unique_ids(s),
        0 <= i < s.len(),
        s[i]@.id_spec() == x@.id_spec(),
    ensures
        registry_map(s.update(i, x)) =~= registry_map(s).insert(x@.id_spec(), x@),
        unique_ids(s.update(i, x)),
{
    let s2 = s.update(i, x);
    assert forall|a: int, b: int| 0 <= a < b < s2.len() implies s2[a]@.id_spec()
        != s2[b]@.id_spec() by {
        assert(s[a]@.id_spec() != s[b]@.id_spec());
    }
    let m1 = registry_map(s2);
    let m2 = registry_map(s).insert(x@.id_spec(), x@);
    assert forall|k: Seq<char>| #![auto] m1.dom().contains(k) <==> m2.dom().contains(k) by {
        lemma_registry_dom(s2, k);
        lemma_registry_dom(s, k);
        assert(s2[i] == x);
        assert(s2[i]@.id_spec() == x@.id_spec());
        if id_registered(s2, k) {
            let j = choose|j: int| 0 <= j < s2.len() && (#[trigger] s2[j])@.id_spec() == k;
            if j == i {
                assert(s[i]@.id_spec() == k);
            } else {
                assert(s[j]@.id_spec() == k);
            }
        }
        if k != x@.id_spec() && id_registered(s, k) {
            let j = choose|j: int| 0 <= j < s.len() && (#[trigger] s[j])@.id_spec() == k;
            assert(j != i);
            assert(s2[j]@.id_spec() == k);
        }
    }
    assert forall|k: Seq<char>| #![auto] m1.dom().contains(k) implies m1[k] == m2[k] by {
        lemma_registry_dom(s2, k);
        let j = choose|j: int| 0 <= j < s2.len() && (#[trigger] s2[j])@.id_spec() == k;
        lemma_registry_value(s2, j);
        if k == x@.id_spec() {
            let jj = choose|jj: int| 0 <= jj < s2.len() && (#[trigger] s2[jj])@.id_spec() == k && s2[jj]@ == m1[k];
            assert(m1[k] == s2[j]@);
            if j != i {
                assert(s[j]@.id_spec() == x@.id_spec());
                assert(false);
            }
            assert(m1[k] == x@);
        } else {
            assert(j != i);
            assert(s[j]@.id_spec() == k);
            lemma_registry_value(s, j);
            assert(m1[k] == s2[j]@);
            assert(m2[k] == s[j]@);
        }
    }
}

pub proof fn lemma_registry_push(s: Seq<Script>, x: Script)
    ensures
        registry_map(s.push(x)) =~= registry_map(s).insert(x@.id_spec(), x@),
{
    assert(s.push(x).drop_last() =~= s);
    assert(s.push(x).last() == x);
}

/// Two ids with the same package part name the same command.
pub proof fn lemma_script_id_injective_command(p: Seq<char>, c1: Seq<char>, c2: Seq<char>)
    requires
        script_id_spec(p, c1) == script_id_spec(p, c2),
    ensures
        c1 =~= c2,
{
    assert(script_id_spec(p, c1).len() == p.len() + 1 + c1.len());
    assert(script_id_spec(p, c2).len() == p.len() + 1 + c2.len());
    assert forall|i: int| 0 <= i < c1.len() implies c1[i] == c2[i] by {
        assert(script_id_spec(p, c1)[p.len() + 1 + i] == c1[i]);
        assert(script_id_spec(p, c2)[p.len() + 1 + i] == c2[i]);
    }
}

/// Workspace names are pairwise distinct and never the reserved root name.
pub open spec fn ws_names_ok(wss: Seq<PackageJSON>) -> bool {
    &&& forall|i: int, j: int| 0 <= i < j < wss.len() ==> (#[trigger] wss[i]).name@ != (#[trigger] wss[j]).name@
    &&& forall|i: int| 0 <= i < wss.len() ==> (#[trigger] wss[i]).name@ != "__ROOT__"@
}

/// Pipeline entry names are pairwise distinct.
pub open spec fn unique_pipeline_names(c: Config) -> bool {
    forall|i: int, j: int|
        0 <= i < j < c.pipeline@.len() ==> (#[trigger] c.pipeline@[i]).0@ != (#[trigger] c.pipeline@[j]).0@
}

/// Every pipeline entry's underlying command carries the entry's own name:
/// the task id "<package>#<command>" then names the entry it came from.
pub open spec fn pipeline_self_named(c: Config) -> bool {
    forall|i: int| 0 <= i < c.pipeline@.len() ==> (#[trigger] c.pipeline@[i]).1.command@ == c.pipeline@[i].0@
}

/// First-match lookup finds an entry with the searched name, and fails only
/// when no entry carries it.
pub proof fn lemma_pipeline_find_rec_props(
    entries: Seq<(Seq<char>, crate::CommandConfigV)>,
    name: Seq<char>,
)
    ensures
        match pipeline_find_rec(entries, name) {
            Some(cc) => exists|i: int| 0 <= i < entries.len() && #[trigger] entries[i] == (name, cc),
            None => forall|i: int| 0 <= i < entries.len() ==> (#[trigger] entries[i]).0 != name,
        },
    decreases entries.len(),
{
    if entries.len() > 0 && entries[0].0 != name {
        lemma_pipeline_find_rec_props(entries.drop_first(), name);
        match pipeline_find_rec(entries.drop_first(), name) {
            Some(cc) => {
                let i = choose|i: int|
                    0 <= i < entries.drop_first().len() && #[trigger] entries.drop_first()[i] == (
                    name,
                    cc,
                    );
                assert(entries[i + 1] == (name, cc));
            },
            None => {
                assert forall|i: int| 0 <= i < entries.len() implies (#[trigger] entries[i]).0
                    != name by {
                    if i > 0 {
                        assert(entries.drop_first()[i - 1].0 != name);
                    }
                }
            },
        }
    }
}

/// How many pipeline entries have no registered root task yet.
pub open spec fn unseeded(entries: Seq<(String, crate::CommandConfig)>, s: Seq<Script>) -> nat
    decreases entries.len(),
{
    if entries.len() == 0 {
        0
    } else {
        unseeded(entries.drop_last(), s) + if id_registered(
            s,
            script_id_spec("__ROOT__"@, entries.last().0@),
        ) {
            0nat
        } else {
            1nat
        }
    }
}

/// Registering tasks never raises the unseeded count.
proof fn lemma_unseeded_monotone(
    entries: Seq<(String, crate::CommandConfig)>,
    s1: Seq<Script>,
    s2: Seq<Script>,
)
    requires
        forall|id: Seq<char>| id_registered(s1, id) ==> id_registered(s2, id),
    ensures
        unseeded(entries, s2) <= unseeded(entries, s1),
    decreases entries.len(),
{
    if entries.len() > 0 {
        lemma_unseeded_monotone(entries.drop_last(), s1, s2);
    }
}

/// Registering a root task for a pipeline entry that had none strictly
/// lowers the unseeded count.
proof fn lemma_unseeded_strict(
    entries: Seq<(String, crate::CommandConfig)>,
    s1: Seq<Script>,
    s2: Seq<Script>,
    name: Seq<char>,
)
    requires
        forall|id: Seq<char>| id_registered(s1, id) ==> id_registered(s2, id),
        exists|i: int| 0 <= i < entries.len() && (#[trigger] entries[i]).0@ == name,
        !id_registered(s1, script_id_spec("__ROOT__"@, name)),
        id_registered(s2, script_id_spec("__ROOT__"@, name)),
    ensures
        unseeded(entries, s2) < unseeded(entries, s1),
    decreases entries.len(),
{
    let i = choose|i: int| 0 <= i < entries.len() && (#[trigger] entries[i]).0@ == name;
    if i == entries.len() - 1 {
        lemma_unseeded_monotone(entries.drop_last(), s1, s2);
    } else {
        assert(entries.drop_last()[i].0@ == name);
        lemma_unseeded_strict(entries.drop_last(), s1, s2, name);
    }
}

/// The name/name pairs of the pending dependency list, as character sequences.
pub open spec fn deps_views(deps: Seq<(String, String)>) -> Seq<(Seq<char>, Seq<char>)> {
    deps.map_values(|p: (String, String)| (p.0@, p.1@))
}

/// The task-graph edges that a pending dependency list resolves to: one edge
/// per pair whose two ids both name task-graph nodes, in order.
pub open spec fn resolved_edges(
    names: Seq<Seq<char>>,
    deps: Seq<(Seq<char>, Seq<char>)>,
) -> Seq<(usize, usize)>
    decreases deps.len(),
{
    if deps.len() == 0 {
        Seq::empty()
    } else {
        let rest = resolved_edges(names, deps.drop_last());
        let d = deps.last();
        match (graph::find_name_spec(names, d.0), graph::find_name_spec(names, d.1)) {
            (Some(i), Some(j)) => rest.push((i as usize, j as usize)),
            _ => rest,
        }
    }
}

pub proof fn lemma_resolved_concat(
    names: Seq<Seq<char>>,
    d1: Seq<(Seq<char>, Seq<char>)>,
    d2: Seq<(Seq<char>, Seq<char>)>,
)
    ensures
        resolved_edges(names, d1 + d2) =~= resolved_edges(names, d1) + resolved_edges(names, d2),
    decreases d2.len(),
{
    if d2.len() == 0 {
        assert(d1 + d2 =~= d1);
        assert(resolved_edges(names, d1) + resolved_edges(names, d2) =~= resolved_edges(names, d1));
    } else {
        lemma_resolved_concat(names, d1, d2.drop_last());
        assert((d1 + d2).drop_last() =~= d1 + d2.drop_last());
        assert((d1 + d2).last() == d2.last());
        match (graph::find_name_spec(names, d2.last().0), graph::find_name_spec(
            names,
            d2.last().1,
        )) {
            (Some(i), Some(j)) => {
                assert(resolved_edges(names, d1 + d2) =~= (resolved_edges(names, d1)
                    + resolved_edges(names, d2.drop_last())).push((i as usize, j as usize)));
                assert(resolved_edges(names, d1) + resolved_edges(names, d2) =~= (resolved_edges(
                    names,
                    d1,
                ) + resolved_edges(names, d2.drop_last())).push((i as usize, j as usize)));
            },
            _ => {},
        }
    }
}

/// A prefix of a prefix is a prefix.
proof fn lemma_prefix_chain<T>(a: Seq<T>, b: Seq<T>, c: Seq<T>)
    requires
        a.len() <= b.len() <= c.len(),
        b.take(a.len() as int) == a,
        c.take(b.len() as int) == b,
    ensures
        c.take(a.len() as int) == a,
{
    assert forall|i: int| 0 <= i < a.len() implies c.take(a.len() as int)[i] == a[i] by {
        assert(c.take(b.len() as int)[i] == c[i]);
        assert(b.take(a.len() as int)[i] == b[i]);
    }
    assert(c.take(a.len() as int) =~= a);
}

/// Extending the pending list keeps every pair it already contains.
proof fn lemma_deps_contains_extend(
    a: Seq<(String, String)>,
    b: Seq<(String, String)>,
    p: (Seq<char>, Seq<char>),
)
    requires
        a.len() <= b.len(),
        b.take(a.len() as int) == a,
        deps_views(a).contains(p),
    ensures
        deps_views(b).contains(p),
{
    let kk = choose|kk: int| 0 <= kk < deps_views(a).len() && deps_views(a)[kk] == p;
    assert(b.take(a.len() as int)[kk] == b[kk]);
    assert(deps_views(b)[kk] == p);
}

/// The task a fan-out pair produces: the same record, re-homed to the
/// package and its directory (when the package record carries one).
pub open spec fn rebound_script(s: ScriptV, ws: PackageJSON) -> ScriptV {
    ScriptV {
        package_name: ws.name@,
        dir: match ws.dir {
            Some(d) => d@,
            None => s.dir,
        },
        ..s
    }
}

/// The key names of a name/value list, in order.
pub open spec fn key_views(v: Seq<(String, String)>) -> Seq<Seq<char>> {
    v.map_values(|p: (String, String)| p.0@)
}

/// All dependency package names a workspace member declares: dependencies,
/// then dev-dependencies.
pub open spec fn pkg_all_dep_names(ws: PackageJSON) -> Seq<Seq<char>> {
    ws.dep_names() + ws.dev_dep_names()
}

/// The package-level dependency relation the workspace induces: an edge
/// `from -> to` when package `to` declares `from` as a dependency or
/// dev-dependency.
pub open spec fn pkg_dep_edge(wss: Seq<PackageJSON>, from: Seq<char>, to: Seq<char>) -> bool {
    exists|i: int|
        0 <= i < wss.len() && (#[trigger] wss[i]).name@ == to && pkg_all_dep_names(
            wss[i],
        ).contains(from)
}

/// `rank` strictly increases along every package-level dependency edge.
pub open spec fn pkg_rank_ok(wss: Seq<PackageJSON>, rank: Map<Seq<char>, int>) -> bool {
    forall|from: Seq<char>, to: Seq<char>|
        #[trigger] pkg_dep_edge(wss, from, to) ==> rank.dom().contains(from) && rank.dom().contains(
            to,
        ) && rank[from] < rank[to]
}

/// The workspace's package dependency declarations admit no cycle.
pub open spec fn pkg_deps_acyclic(wss: Seq<PackageJSON>) -> bool {
    exists|rank: Map<Seq<char>, int>| pkg_rank_ok(wss, rank)
}

/// A package-level rank carries over to any graph whose edges all reflect
/// package-level dependency edges.
proof fn lemma_pkg_rank_gives_graph_rank(
    wss: Seq<PackageJSON>,
    names: Seq<Seq<char>>,
    edges: Seq<(usize, usize)>,
)
    requires
        graph::edges_ok(names.len(), edges),
        forall|j: int|
            0 <= j < edges.len() ==> pkg_dep_edge(
                wss,
                names[(#[trigger] edges[j]).0 as int],
                names[edges[j].1 as int],
            ),
        pkg_deps_acyclic(wss),
    ensures
        graph::acyclic(names.len(), edges),
{
    let rank_m = choose|rank: Map<Seq<char>, int>| pkg_rank_ok(wss, rank);
    let rank = Seq::new(
        names.len(),
        |i: int|
            if rank_m.dom().contains(names[i]) {
                rank_m[names[i]]
            } else {
                0
            },
    );
    assert forall|j: int| 0 <= j < edges.len() implies rank[(#[trigger] edges[j]).0 as int]
        < rank[edges[j].1 as int] by {
        assert(pkg_dep_edge(wss, names[edges[j].0 as int], names[edges[j].1 as int]));
    }
    assert(graph::rank_valid(rank, names.len(), edges));
}

/// A graph with distinct node names that covers every package-level
/// dependency edge yields a package-level rank: its position table.
proof fn lemma_graph_gives_pkg_rank(wss: Seq<PackageJSON>, g: Graph)
    requires
        g.wf(),
        g.unique_names(),
        forall|from: Seq<char>, to: Seq<char>|
            #[trigger] pkg_dep_edge(wss, from, to) ==> g.has_edge_named(from, to),
    ensures
        pkg_deps_acyclic(wss),
{
    let names = g.names();
    let rank_m = Map::<Seq<char>, int>::new(
        |nm: Seq<char>| names.contains(nm),
        |nm: Seq<char>|
            g.pos@[choose|i: int| 0 <= i < names.len() && names[i] == nm] as int,
    );
    assert forall|from: Seq<char>, to: Seq<char>|
        #[trigger] pkg_dep_edge(wss, from, to) implies rank_m.dom().contains(from)
        && rank_m.dom().contains(to) && rank_m[from] < rank_m[to] by {
        assert(g.has_edge_named(from, to));
        let j = choose|j: int|
            0 <= j < g.edges@.len() && names[(#[trigger] g.edges@[j]).0 as int] == from
                && names[g.edges@[j].1 as int] == to;
        let a = g.edges@[j].0 as int;
        let b = g.edges@[j].1 as int;
        assert(names.contains(from)) by {
            assert(names[a] == from);
        }
        assert(names.contains(to)) by {
            assert(names[b] == to);
        }
        let ia = choose|i: int| 0 <= i < names.len() && names[i] == from;
        let ib = choose|i: int| 0 <= i < names.len() && names[i] == to;
        assert(ia == a) by {
            if ia < a {
                assert(names[ia] != names[a]);
            }
            if a < ia {
                assert(names[a] != names[ia]);
            }
        }
        assert(ib == b) by {
            if ib < b {
                assert(names[ib] != names[b]);
            }
            if b < ib {
                assert(names[b] != names[ib]);
            }
        }
        assert(g.pos@[a] < g.pos@[b]);
    }
    assert(pkg_rank_ok(wss, rank_m));
}

/// A graph extended by nodes and edges keeps every named edge it had, and
/// indices below the old bounds read the same.
proof fn lemma_prefix_transfer(ga: Graph, gb: Graph)
    requires
        ga.wf(),
        ga.n() <= gb.n(),
        gb.names().take(ga.n() as int) == ga.names(),
        ga.edges@.len() <= gb.edges@.len(),
        gb.edges@.take(ga.edges@.len() as int) == ga.edges@,
    ensures
        forall|j: int| 0 <= j < ga.edges@.len() ==> #[trigger] gb.edges@[j] == ga.edges@[j],
        forall|x: int| 0 <= x < ga.n() ==> #[trigger] gb.names()[x] == ga.names()[x],
        forall|from: Seq<char>, to: Seq<char>|
            #[trigger] ga.has_edge_named(from, to) ==> gb.has_edge_named(from, to),
{
    assert forall|j: int| 0 <= j < ga.edges@.len() implies #[trigger] gb.edges@[j]
        == ga.edges@[j] by {
        assert(gb.edges@.take(ga.edges@.len() as int)[j] == gb.edges@[j]);
    }
    assert forall|x: int| 0 <= x < ga.n() implies #[trigger] gb.names()[x] == ga.names()[x] by {
        assert(gb.names().take(ga.n() as int)[x] == gb.names()[x]);
    }
    assert forall|from: Seq<char>, to: Seq<char>|
        #[trigger] ga.has_edge_named(from, to) implies gb.has_edge_named(from, to) by {
        let j = choose|j: int|
            0 <= j < ga.edges@.len() && ga.names()[(#[trigger] ga.edges@[j]).0 as int] == from
                && ga.names()[ga.edges@[j].1 as int] == to;
        assert(gb.edges@[j] == ga.edges@[j]);
        assert(gb.names()[gb.edges@[j].0 as int] == from);
        assert(gb.names()[gb.edges@[j].1 as int] == to);
    }
}

/// Edges whose sources are keys of one of a package's two dependency lists
/// reflect package-level dependency edges.
proof fn lemma_seg_justified(
    wss: Seq<PackageJSON>,
    i: int,
    names: Seq<Seq<char>>,
    edges: Seq<(usize, usize)>,
    lo: int,
    hi: int,
    pi: usize,
    keys: Seq<Seq<char>>,
    is_dep: bool,
)
    requires
        0 <= i < wss.len(),
        (pi as int) < names.len(),
        names[pi as int] == wss[i].name@,
        0 <= lo <= hi <= edges.len(),
        forall|j: int|
            lo <= j < hi ==> (#[trigger] edges[j]).1 == pi && (edges[j].0 as int) < names.len()
                && keys.contains(names[edges[j].0 as int]),
        keys == if is_dep {
            wss[i].dep_names()
        } else {
            wss[i].dev_dep_names()
        },
    ensures
        forall|j: int|
            lo <= j < hi ==> pkg_dep_edge(
                wss,
                names[(#[trigger] edges[j]).0 as int],
                names[edges[j].1 as int],
            ),
{
    assert forall|j: int| lo <= j < hi implies pkg_dep_edge(
        wss,
        names[(#[trigger] edges[j]).0 as int],
        names[edges[j].1 as int],
    ) by {
        let src = names[edges[j].0 as int];
        assert(keys.contains(src));
        let x = choose|x: int| 0 <= x < keys.len() && keys[x] == src;
        if is_dep {
            assert(pkg_all_dep_names(wss[i])[x] == src);
        } else {
            assert(pkg_all_dep_names(wss[i])[wss[i].dep_names().len() + x] == src);
        }
        assert(pkg_all_dep_names(wss[i]).contains(src));
        assert((#[trigger] wss[i]).name@ == names[edges[j].1 as int]);
    }
}

/// What one dependency-list pass over a package leaves behind: nodes grew
/// only by key names, edges grew only by `key -> package` edges, and every
/// key has its edge.
spec fn stage_facts(gp: Graph, gc: Graph, pi: usize, keys: Seq<Seq<char>>, pkg: Seq<char>) -> bool {
    &&& gp.n() <= gc.n()
    &&& gc.names().take(gp.n() as int) == gp.names()
    &&& (pi as int) < gp.n()
    &&& gc.names()[pi as int] == pkg
    &&& gp.edges@.len() <= gc.edges@.len()
    &&& gc.edges@.take(gp.edges@.len() as int) == gp.edges@
    &&& forall|j: int|
        gp.edges@.len() <= j < gc.edges@.len() ==> (#[trigger] gc.edges@[j]).1 == pi
            && keys.contains(gc.names()[gc.edges@[j].0 as int])
    &&& forall|x: int| 0 <= x < keys.len() ==> gc.has_edge_named(#[trigger] keys[x], pkg)
}

/// The edges a dependency-list pass appended all reflect package-level
/// dependency edges.
proof fn lemma_stage_justified(
    wss: Seq<PackageJSON>,
    i: int,
    gp: Graph,
    gc: Graph,
    pi: usize,
    is_dep: bool,
)
    requires
        0 <= i < wss.len(),
        gc.wf(),
        stage_facts(
            gp,
            gc,
            pi,
            if is_dep {
                wss[i].dep_names()
            } else {
                wss[i].dev_dep_names()
            },
            wss[i].name@,
        ),
    ensures
        forall|j: int|
            gp.edges@.len() <= j < gc.edges@.len() ==> pkg_dep_edge(
                wss,
                gc.names()[(#[trigger] gc.edges@[j]).0 as int],
                gc.names()[gc.edges@[j].1 as int],
            ),
{
    let keys = if is_dep {
        wss[i].dep_names()
    } else {
        wss[i].dev_dep_names()
    };
    assert forall|j: int|
        gp.edges@.len() as int <= j < gc.edges@.len() as int implies (#[trigger] gc.edges@[j]).1
        == pi && (gc.edges@[j].0 as int) < gc.names().len() && keys.contains(
        gc.names()[gc.edges@[j].0 as int],
    ) by {}
    lemma_seg_justified(
        wss,
        i,
        gc.names(),
        gc.edges@,
        gp.edges@.len() as int,
        gc.edges@.len() as int,
        pi,
        keys,
        is_dep,
    );
}

/// When inserting one more `key -> package` edge would close a cycle in a
/// graph whose edges all reflect package-level dependency edges, the
/// package dependency declarations themselves are cyclic.
proof fn lemma_failure_uncyclable(
    wss: Seq<PackageJSON>,
    i: int,
    gp: Graph,
    gc: Graph,
    pi: usize,
    keys: Seq<Seq<char>>,
    is_dep: bool,
)
    requires
        0 <= i < wss.len(),
        gp.wf(),
        gc.wf(),
        keys == if is_dep {
            wss[i].dep_names()
        } else {
            wss[i].dev_dep_names()
        },
        gp.n() <= gc.n(),
        gc.names().take(gp.n() as int) == gp.names(),
        (pi as int) < gp.n(),
        gc.names()[pi as int] == wss[i].name@,
        gp.edges@.len() <= gc.edges@.len(),
        gc.edges@.take(gp.edges@.len() as int) == gp.edges@,
        forall|j: int|
            gp.edges@.len() <= j < gc.edges@.len() ==> (#[trigger] gc.edges@[j]).1 == pi
                && keys.contains(gc.names()[gc.edges@[j].0 as int]),
        forall|j: int|
            0 <= j < gp.edges@.len() ==> pkg_dep_edge(
                wss,
                gp.names()[(#[trigger] gp.edges@[j]).0 as int],
                gp.names()[gp.edges@[j].1 as int],
            ),
        exists|a: usize|
            a < gc.n() && keys.contains(#[trigger] gc.names()[a as int]) && !graph::acyclic(
                gc.n(),
                gc.edges@.push((a, pi)),
            ),
    ensures
        !pkg_deps_acyclic(wss),
{
    let a = choose|a: usize|
        a < gc.n() && keys.contains(#[trigger] gc.names()[a as int]) && !graph::acyclic(
            gc.n(),
            gc.edges@.push((a, pi)),
        );
    let ep = gc.edges@.push((a, pi));
    lemma_prefix_transfer(gp, gc);
    assert forall|j: int|
        gp.edges@.len() as int <= j < gc.edges@.len() as int implies (#[trigger] gc.edges@[j]).1
        == pi && (gc.edges@[j].0 as int) < gc.names().len() && keys.contains(
        gc.names()[gc.edges@[j].0 as int],
    ) by {}
    lemma_seg_justified(
        wss,
        i,
        gc.names(),
        gc.edges@,
        gp.edges@.len() as int,
        gc.edges@.len() as int,
        pi,
        keys,
        is_dep,
    );
    assert forall|j: int| 0 <= j < ep.len() implies pkg_dep_edge(
        wss,
        gc.names()[(#[trigger] ep[j]).0 as int],
        gc.names()[ep[j].1 as int],
    ) by {
        if j < gp.edges@.len() {
            assert(ep[j] == gc.edges@[j]);
            assert(gc.edges@[j] == gp.edges@[j]);
            assert(gc.names()[gp.edges@[j].0 as int] == gp.names()[gp.edges@[j].0 as int]);
            assert(gc.names()[gp.edges@[j].1 as int] == gp.names()[gp.edges@[j].1 as int]);
        } else if j < gc.edges@.len() {
            assert(ep[j] == gc.edges@[j]);
        } else {
            assert(ep[j] == (a, pi));
            let src = gc.names()[a as int];
            let x = choose|x: int| 0 <= x < keys.len() && keys[x] == src;
            if is_dep {
                assert(pkg_all_dep_names(wss[i])[x] == src);
            } else {
                assert(pkg_all_dep_names(wss[i])[wss[i].dep_names().len() + x] == src);
            }
            assert(pkg_all_dep_names(wss[i]).contains(src));
            assert((#[trigger] wss[i]).name@ == gc.names()[ep[j].1 as int]);
        }
    }
    assert(graph::edges_ok(gc.n(), ep)) by {
        assert forall|j: int| 0 <= j < ep.len() implies (#[trigger] ep[j]).0 < gc.n()
            && ep[j].1 < gc.n() by {
            if j < gc.edges@.len() {
                assert(ep[j] == gc.edges@[j]);
            }
        }
    }
    if pkg_deps_acyclic(wss) {
        lemma_pkg_rank_gives_graph_rank(wss, gc.names(), ep);
    }
}

/// Inserts one edge per declared dependency key into the package graph:
/// `dependency -> package`, creating a node for a dependency name seen for
/// the first time.  `Err(k)` reports the index of a key whose edge would
/// close a cycle; the graph then keeps everything inserted so far.
fn add_parent_edges(g: &mut Graph, pkg_idx: usize, deps: &Vec<(String, String)>) -> (r: Result<
    (),
    usize,
>)
    requires
        old(g).wf(),
        old(g).unique_names(),
        pkg_idx < old(g).n(),
    ensures
        final(g).wf(),
        final(g).unique_names(),
        old(g).n() <= final(g).n(),
        final(g).names().take(old(g).n() as int) == old(g).names(),
        pkg_idx < final(g).n() && final(g).names()[pkg_idx as int] == old(g).names()[pkg_idx as int],
        forall|k: int|
            old(g).n() <= k < final(g).n() ==> key_views(deps@).contains(
                #[trigger] final(g).names()[k],
            ),
        old(g).edges@.len() <= final(g).edges@.len(),
        final(g).edges@.take(old(g).edges@.len() as int) == old(g).edges@,
        forall|j: int|
            old(g).edges@.len() <= j < final(g).edges@.len() ==> (#[trigger] final(g).edges@[j]).1
                == pkg_idx && key_views(deps@).contains(
                final(g).names()[final(g).edges@[j].0 as int],
            ),
        r is Ok ==> forall|k: int|
            0 <= k < deps@.len() ==> final(g).has_edge_named(
                (#[trigger] deps@[k]).0@,
                old(g).names()[pkg_idx as int],
            ),
        match r {
            Ok(_) => true,
            Err(k) => k < deps@.len() && exists|a: usize|
                a < final(g).n() && final(g).names()[a as int] == deps@[k as int].0@ && key_views(
                    deps@,
                ).contains(final(g).names()[a as int]) && !graph::acyclic(
                    final(g).n(),
                    final(g).edges@.push((a, pkg_idx)),
                ),
        },
{
    let ghost pkg_name = old(g).names()[pkg_idx as int];
    let ghost n0 = old(g).n();
    let ghost e0 = old(g).edges@;
    let mut k: usize = 0;
    while k < deps.len()
        invariant
            k <= deps@.len(),
            g.wf(),
            g.unique_names(),
            pkg_idx < old(g).n(),
            n0 == old(g).n(),
            e0 == old(g).edges@,
            pkg_name == old(g).names()[pkg_idx as int],
            old(g).wf(),
            old(g).unique_names(),
            old(g).n() <= g.n(),
            g.names().take(n0 as int) == old(g).names(),
            g.names()[pkg_idx as int] == pkg_name,
            forall|x: int|
                n0 <= x < g.n() ==> key_views(deps@).contains(#[trigger] g.names()[x]),
            e0.len() <= g.edges@.len(),
            g.edges@.take(e0.len() as int) == e0,
            forall|j: int|
                e0.len() <= j < g.edges@.len() ==> (#[trigger] g.edges@[j]).1 == pkg_idx
                    && key_views(deps@).contains(g.names()[g.edges@[j].0 as int]),
            forall|x: int| 0 <= x < k ==> g.has_edge_named((#[trigger] deps@[x]).0@, pkg_name),
        decreases deps@.len() - k,
    {
        let ghost g_pre = *g;
        let dep_idx: usize;
        match g.find_node_index(deps[k].0.as_str()) {
            Some(i) => {
                dep_idx = i;
            },
            None => {
                dep_idx = g.add_node(deps[k].0.clone());
                proof {
                    assert forall|a: int, b: int| 0 <= a < b < g.n() implies g.names()[a]
                        != g.names()[b] by {
                        if b < g.n() - 1 {
                            assert(g_pre.names()[a] != g_pre.names()[b]);
                        } else {
                            assert(g_pre.names()[a] != deps@[k as int].0@);
                        }
                    }
                    assert(g.names().take(n0 as int) =~= g_pre.names().take(n0 as int));
                    assert(key_views(deps@)[k as int] == deps@[k as int].0@);
                    assert(key_views(deps@).contains(deps@[k as int].0@));
                }
            },
        }
        assert(g.names()[dep_idx as int] == deps@[k as int].0@);
        let ghost g_mid = *g;
        match g.add_edge(dep_idx, pkg_idx) {
            Ok(_) => {
                proof {
                    assert(g.edges@ == g_mid.edges@.push((dep_idx, pkg_idx)));
                    assert(g_mid.edges@.take(e0.len() as int) == e0);
                    assert(e0.len() <= g_mid.edges@.len());
                    assert(g.edges@.take(e0.len() as int) =~= e0);
                    assert(key_views(deps@)[k as int] == deps@[k as int].0@);
                    assert(key_views(deps@).contains(deps@[k as int].0@));
                    let nj = g.edges@.len() - 1;
                    assert(g.edges@[nj] == (dep_idx, pkg_idx));
                    assert forall|x: int| 0 <= x < k + 1 implies g.has_edge_named(
                        (#[trigger] deps@[x]).0@,
                        pkg_name,
                    ) by {
                        if x < k {
                            assert(g_mid.has_edge_named(deps@[x].0@, pkg_name));
                            let j = choose|j: int|
                                0 <= j < g_mid.edges@.len() && g_mid.names()[(#[trigger] g_mid.edges@[j]).0 as int]
                                    == deps@[x].0@ && g_mid.names()[g_mid.edges@[j].1 as int]
                                    == pkg_name;
                            assert(g.edges@[j] == g_mid.edges@[j]);
                        } else {
                            assert(g.names()[(g.edges@[nj]).0 as int] == deps@[k as int].0@);
                            assert(g.names()[(g.edges@[nj]).1 as int] == pkg_name);
                        }
                    }
                }
            },
            Err(_) => {
                proof {
                    assert(key_views(deps@)[k as int] == deps@[k as int].0@);
                    assert(key_views(deps@).contains(deps@[k as int].0@));
                    assert(g.names()[dep_idx as int] == deps@[k as int].0@);
                }
                return Err(k);
            },
        }
        k = k + 1;
    }
    proof {
        assert forall|x: int| 0 <= x < deps@.len() implies g.has_edge_named(
            (#[trigger] deps@[x]).0@,
            pkg_name,
        ) by {}
    }
    Ok(())
}

/// The predecessor ids of the task named `id`: the sources of every task
/// graph edge into it, in edge order; empty when no task carries the id.
pub open spec fn preds_names(g: Graph, id: Seq<char>) -> Seq<Seq<char>> {
    match graph::find_name_spec(g.names(), id) {
        None => Seq::empty(),
        Some(v) => graph::preds_spec(g.edges@, v as usize).map_values(
            |a: usize| g.names()[a as int],
        ),
    }
}

/// Some launch of `from` strictly precedes some launch of `to`.
pub open spec fn launched_before(launch: Seq<Seq<char>>, from: Seq<char>, to: Seq<char>) -> bool {
    exists|ka: int, kb: int|
        0 <= ka < kb < launch.len() && (#[trigger] launch[ka]) == from && (#[trigger] launch[kb])
            == to
}

/// One command the runner must perform: which task, which command, where.
#[derive(Debug)]
pub struct Invocation {
    pub script_id: String,
    pub command: String,
    pub dir: String,
}

/// Each invocation matches its launched task: same id, and the command and
/// working directory of the registered record under that id.
pub open spec fn invocations_match(
    reg: Map<Seq<char>, ScriptV>,
    launch: Seq<Seq<char>>,
    invs: Seq<Invocation>,
) -> bool {
    forall|k: int|
        0 <= k < invs.len() ==> (#[trigger] invs[k]).script_id@ == launch[k] && reg.dom().contains(
            launch[k],
        ) && invs[k].command@ == reg[launch[k]].command && invs[k].dir@ == reg[launch[k]].dir
}

/// What a run did: every task id in launch order, and the commands handed
/// to the external runner (empty on a dry run).
#[derive(Debug)]
pub struct ExecutionReport {
    pub launch_order: Vec<String>,
    pub invocations: Vec<Invocation>,
}

/// The orchestration engine: both graphs, the task registry, the pending
/// task-graph edges, and the resolved workspace.  All mutation happens in the
/// build phase; `execute` only walks the frozen graph.
pub struct Engine {
    pub called_script: String,
    pub dir: String,
    pub config: Config,
    pub task_graph: Graph,
    pub package_graph: Graph,
    pub scripts: Vec<Script>,
    pub deps: Vec<(String, String)>,
    pub workspaces: Vec<PackageJSON>,
}

impl Engine {
    /// The engine's structural invariant: both graphs are well-formed
    /// acyclic graphs with distinct node names, task ids are unique, every
    /// task-graph node is a registered task, workspace names are distinct,
    /// and pipeline entry names are distinct.
    pub open spec fn wf(self) -> bool {
        &&& self.task_graph.wf()
        &&& self.task_graph.unique_names()
        &&& self.package_graph.wf()
        &&& self.package_graph.unique_names()
        &&& unique_ids(self.scripts@)
        &&& forall|k: int|
            0 <= k < self.task_graph.n() ==> id_registered(
                self.scripts@,
                #[trigger] self.task_graph.names()[k],
            )
        &&& ws_names_ok(self.workspaces@)
        &&& unique_pipeline_names(self.config)
        &&& pipeline_self_named(self.config)
    }

    /// The registry as a map from task id to task record.
    pub open spec fn registry(self) -> Map<Seq<char>, ScriptV> {
        registry_map(self.scripts@)
    }

    /// Builds an engine over an already-resolved workspace.  The package
    /// graph starts with the synthetic root node; everything else is empty.
    pub fn new(config: Config, dir: String, called_script: &str, workspaces: Vec<PackageJSON>) -> (e:
        Engine)
        requires
            ws_names_ok(workspaces@),
            unique_pipeline_names(config),
            pipeline_self_named(config),
        ensures
            e.wf(),
            e.config == config,
            e.workspaces == workspaces,
            e.called_script@ == called_script@,
            e.dir == dir,
            e.scripts@.len() == 0,
            e.deps@.len() == 0,
            e.task_graph.nodes@.len() == 0,
            e.task_graph.edges@.len() == 0,
            e.package_graph.names() =~= seq!["__ROOT__"@],
            e.package_graph.edges@.len() == 0,
    {
        let mut package_graph = Graph::new();
        package_graph.add_node(String::from_str("__ROOT__"));
        Engine {
            called_script: String::from_str(called_script),
            dir,
            config,
            package_graph,
            task_graph: Graph::new(),
            scripts: Vec::new(),
            deps: Vec::new(),
            workspaces,
        }
    }

    /// Records a pending task-graph edge `from -> to` by task id.
    pub fn add_dep(&mut self, from: &str, to: &str)
        requires
            old(self).wf(),
        ensures
            final(self).wf(),
            deps_views(final(self).deps@) =~= deps_views(old(self).deps@).push((from@, to@)),
            final(self).scripts@ == old(self).scripts@,
            final(self).task_graph == old(self).task_graph,
            final(self).package_graph == old(self).package_graph,
            final(self).config == old(self).config,
            final(self).workspaces == old(self).workspaces,
            final(self).called_script == old(self).called_script,
            final(self).dir == old(self).dir,
    {
        self.deps.push((String::from_str(from), String::from_str(to)));
    }

    /// Registers a task: inserts it by id, replacing any task with the same
    /// id rather than duplicating it, and—unless the task belongs to the
    /// reserved root package—adds a task-graph node for its id if none
    /// exists yet.
    pub fn add_script(&mut self, script: &Script)
        requires
            old(self).wf(),
        ensures
            final(self).wf(),
            final(self).registry() =~= old(self).registry().insert(script@.id_spec(), script@),
            old(self).scripts@.len() <= final(self).scripts@.len() <= old(self).scripts@.len() + 1,
            forall|i: int|
                0 <= i < final(self).scripts@.len() ==> (i < old(self).scripts@.len() && (
                #[trigger] final(self).scripts@[i]) == old(self).scripts@[i])
                    || final(self).scripts@[i]@ == script@,
            forall|id: Seq<char>|
                id_registered(old(self).scripts@, id) ==> id_registered(final(self).scripts@, id),
            !id_registered(old(self).scripts@, script@.id_spec()) ==> final(self).scripts@.len()
                == old(self).scripts@.len() + 1 && final(self).scripts@.take(
                old(self).scripts@.len() as int,
            ) == old(self).scripts@ && final(self).scripts@.last()@ == script@,
            (if old(self).task_graph.names().contains(script@.id_spec()) || script@.package_name
                =~= "__ROOT__"@ {
                final(self).task_graph.names() =~= old(self).task_graph.names()
            } else {
                final(self).task_graph.names() =~= old(self).task_graph.names().push(
                    script@.id_spec(),
                )
            }),
            final(self).task_graph.edges@ == old(self).task_graph.edges@,
            final(self).package_graph == old(self).package_graph,
            final(self).deps@ == old(self).deps@,
            final(self).config == old(self).config,
            final(self).workspaces == old(self).workspaces,
            final(self).called_script == old(self).called_script,
            final(self).dir == old(self).dir,
    {
        let id = script.id();
        let copy = script.duplicate();
        let mut replaced = false;
        let mut i: usize = 0;
        while i < self.scripts.len()
            invariant_except_break
                !replaced,
            invariant
                i <= self.scripts@.len(),
                self.scripts@ == old(self).scripts@,
                id@ == script@.id_spec(),
                forall|k: int| 0 <= k < i ==> (#[trigger] self.scripts@[k])@.id_spec() != id@,
            ensures
                replaced ==> i < self.scripts@.len() && self.scripts@[i as int]@.id_spec() == id@,
                !replaced ==> forall|k: int|
                    0 <= k < self.scripts@.len() ==> (#[trigger] self.scripts@[k])@.id_spec() != id@,
            decreases self.scripts@.len() - i,
        {
            let sid = self.scripts[i].id();
            if graph::str_eq(sid.as_str(), id.as_str()) {
                replaced = true;
                break ;
            }
            i = i + 1;
        }
        if replaced {
            proof {
                lemma_registry_update(self.scripts@, i as int, copy);
            }
            self.scripts[i] = copy;
        } else {
            proof {
                lemma_registry_push(self.scripts@, copy);
            }
            self.scripts.push(copy);
        }
        proof {
            assert forall|idr: Seq<char>|
                id_registered(old(self).scripts@, idr) implies id_registered(
                self.scripts@,
                idr,
            ) by {
                let j = choose|j: int|
                    0 <= j < old(self).scripts@.len() && (#[trigger] old(self).scripts@[j])@.id_spec() == idr;
                assert(self.scripts@[j]@.id_spec() == idr);
            }
            assert forall|k: int| 0 <= k < self.task_graph.n() implies id_registered(
                self.scripts@,
                #[trigger] self.task_graph.names()[k],
            ) by {
                let nm = self.task_graph.names()[k];
                assert(id_registered(old(self).scripts@, nm));
                let j = choose|j: int|
                    0 <= j < old(self).scripts@.len() && (#[trigger] old(self).scripts@[j])@.id_spec() == nm;
                assert(self.scripts@[j]@.id_spec() == nm);
            }
        }
        if !graph::str_eq(script.package_name.as_str(), "__ROOT__") {
            match self.task_graph.find_node_index(id.as_str()) {
                Some(_) => {
                    assert(self.task_graph.names().contains(script@.id_spec()));
                },
                None => {
                    self.task_graph.add_node(id);
                    proof {
                        assert forall|a: int, b: int|
                            0 <= a < b < self.task_graph.n() implies self.task_graph.names()[a]
                            != self.task_graph.names()[b] by {
                            if b < self.task_graph.n() - 1 {
                                assert(old(self).task_graph.names()[a] != old(self).task_graph.names()[b]);
                            }
                        }
                        assert(id_registered(self.scripts@, script@.id_spec())) by {
                            lemma_registry_dom(self.scripts@, script@.id_spec());
                        }
                    }
                },
            }
        }
    }

    /// Materializes the pending dependency list into task-graph edges.
    /// A pending pair whose endpoints are not both task-graph nodes is
    /// dropped.  A pair that would close a cycle aborts the build with a
    /// `CycleDetected` error naming the offending edge; this happens exactly
    /// when the fully materialized edge list would be cyclic.
    pub fn add_deps_to_graph(&mut self) -> (r: Result<(), EngineError>)
        requires
            old(self).wf(),
        ensures
            final(self).wf(),
            final(self).task_graph.names() == old(self).task_graph.names(),
            final(self).scripts@ == old(self).scripts@,
            final(self).deps@ == old(self).deps@,
            final(self).package_graph == old(self).package_graph,
            final(self).config == old(self).config,
            final(self).workspaces == old(self).workspaces,
            final(self).called_script == old(self).called_script,
            final(self).dir == old(self).dir,
            (r is Ok) == graph::acyclic(
                old(self).task_graph.n(),
                old(self).task_graph.edges@ + resolved_edges(
                    old(self).task_graph.names(),
                    deps_views(old(self).deps@),
                ),
            ),
            r is Ok ==> final(self).task_graph.edges@ == old(self).task_graph.edges@
                + resolved_edges(old(self).task_graph.names(), deps_views(old(self).deps@)),
            match r {
                Ok(_) => true,
                Err(e) => match e {
                    EngineError::CycleDetected { from, to } => exists|k: int|
                        0 <= k < old(self).deps@.len() && #[trigger] deps_views(old(self).deps@)[k]
                            == (from@, to@),
                    _ => false,
                },
            },
    {
        let ghost names0 = self.task_graph.names();
        let ghost n0 = self.task_graph.n();
        let ghost dv = deps_views(self.deps@);
        let ghost e0 = self.task_graph.edges@;
        let mut k: usize = 0;
        while k < self.deps.len()
            invariant
                old(self).wf(),
                k <= self.deps@.len(),
                names0 == old(self).task_graph.names(),
                n0 == old(self).task_graph.n(),
                dv == deps_views(old(self).deps@),
                e0 == old(self).task_graph.edges@,
                self.wf(),
                self.task_graph.names() == names0,
                self.task_graph.nodes@ == old(self).task_graph.nodes@,
                self.scripts@ == old(self).scripts@,
                self.deps@ == old(self).deps@,
                self.package_graph == old(self).package_graph,
                self.config == old(self).config,
                self.workspaces == old(self).workspaces,
                self.called_script == old(self).called_script,
                self.dir == old(self).dir,
                self.task_graph.edges@ == e0 + resolved_edges(names0, dv.take(k as int)),
            decreases self.deps@.len() - k,
        {
            proof {
                assert(dv.take(k + 1).drop_last() =~= dv.take(k as int));
                assert(dv.take(k + 1).last() == dv[k as int]);
                assert(dv[k as int] == (self.deps@[k as int].0@, self.deps@[k as int].1@));
            }
            let from_idx = self.task_graph.find_node_index(self.deps[k].0.as_str());
            let to_idx = self.task_graph.find_node_index(self.deps[k].1.as_str());
            match (from_idx, to_idx) {
                (Some(fi), Some(ti)) => {
                    let ghost pre_edges = self.task_graph.edges@;
                    match self.task_graph.add_edge(fi, ti) {
                        Ok(_) => {
                            proof {
                                assert(self.task_graph.edges@ =~= e0 + resolved_edges(
                                    names0,
                                    dv.take(k + 1),
                                ));
                            }
                        },
                        Err(_) => {
                            proof {
                                let full = e0 + resolved_edges(names0, dv);
                                let pre = e0 + resolved_edges(names0, dv.take(k + 1));
                                assert(dv =~= dv.take(k + 1) + dv.skip(k + 1));
                                lemma_resolved_concat(names0, dv.take(k + 1), dv.skip(k + 1));
                                assert(pre_edges.push((fi, ti)) =~= pre);
                                assert(pre =~= full.take(pre.len() as int));
                                if graph::acyclic(n0, full) {
                                    graph::lemma_acyclic_prefix(n0, full, pre.len() as int);
                                }
                            }
                            return Err(
                                EngineError::CycleDetected {
                                    from: self.deps[k].0.clone(),
                                    to: self.deps[k].1.clone(),
                                },
                            );
                        },
                    }
                },
                _ => {
                    proof {
                        assert(resolved_edges(names0, dv.take(k + 1)) =~= resolved_edges(
                            names0,
                            dv.take(k as int),
                        ));
                    }
                },
            }
            k = k + 1;
        }
        proof {
            assert(dv.take(self.deps@.len() as int) =~= dv);
            self.task_graph.lemma_wf_acyclic();
        }
        Ok(())
    }

    /// Builds the package graph from the workspace: one node per package,
    /// created on first reference so declaration order does not matter, and
    /// one edge `dependency -> package` per declared dependency and
    /// dev-dependency.  Succeeds exactly when the declared package dependency
    /// relation is acyclic; a cycle aborts the build with the offending edge.
    #[verifier::rlimit(100)]
    pub fn build_package_graph(&mut self) -> (r: Result<(), EngineError>)
        requires
            old(self).wf(),
            old(self).package_graph.edges@.len() == 0,
        ensures
            final(self).wf(),
            final(self).task_graph == old(self).task_graph,
            final(self).scripts@ == old(self).scripts@,
            final(self).deps@ == old(self).deps@,
            final(self).config == old(self).config,
            final(self).workspaces == old(self).workspaces,
            final(self).called_script == old(self).called_script,
            final(self).dir == old(self).dir,
            (r is Ok) == pkg_deps_acyclic(old(self).workspaces@),
            r is Ok ==> (forall|k: int|
                0 <= k < old(self).workspaces@.len() ==> final(self).package_graph.names().contains(
                    (#[trigger] old(self).workspaces@[k]).name@,
                )),
            r is Ok ==> (forall|from: Seq<char>, to: Seq<char>|
                #[trigger] final(self).package_graph.has_edge_named(from, to) <==> pkg_dep_edge(
                    old(self).workspaces@,
                    from,
                    to,
                )),
            match r {
                Ok(_) => true,
                Err(e) => e matches EngineError::CycleDetected { .. },
            },
    {
        let ghost wss = self.workspaces@;
        let mut i: usize = 0;
        while i < self.workspaces.len()
            invariant
                old(self).wf(),
                wss == old(self).workspaces@,
                i <= wss.len(),
                self.wf(),
                self.task_graph == old(self).task_graph,
                self.scripts@ == old(self).scripts@,
                self.deps@ == old(self).deps@,
                self.config == old(self).config,
                self.workspaces == old(self).workspaces,
                self.called_script == old(self).called_script,
                self.dir == old(self).dir,
                forall|j: int|
                    0 <= j < self.package_graph.edges@.len() ==> pkg_dep_edge(
                        wss,
                        self.package_graph.names()[(#[trigger] self.package_graph.edges@[j]).0 as int],
                        self.package_graph.names()[self.package_graph.edges@[j].1 as int],
                    ),
                forall|from: Seq<char>, to: Seq<char>|
                    #![trigger self.package_graph.has_edge_named(from, to)]
                    #![trigger pkg_dep_edge(wss.take(i as int), from, to)]
                    self.package_graph.has_edge_named(from, to) <==> pkg_dep_edge(
                        wss.take(i as int),
                        from,
                        to,
                    ),
                forall|x: int|
                    0 <= x < i ==> self.package_graph.names().contains((#[trigger] wss[x]).name@),
            decreases wss.len() - i,
        {
            let ghost g0 = self.package_graph;
            let pi: usize;
            match self.package_graph.find_node_index(self.workspaces[i].name.as_str()) {
                Some(idx) => {
                    pi = idx;
                },
                None => {
                    pi = self.package_graph.add_node(self.workspaces[i].name.clone());
                    proof {
                        assert forall|a: int, b: int|
                            0 <= a < b < self.package_graph.n() implies self.package_graph.names()[a]
                            != self.package_graph.names()[b] by {
                            if b < self.package_graph.n() - 1 {
                                assert(g0.names()[a] != g0.names()[b]);
                            } else {
                                assert(g0.names()[a] != wss[i as int].name@);
                            }
                        }
                    }
                },
            }
            assert(self.package_graph.names()[pi as int] == wss[i as int].name@);
            let ghost g1 = self.package_graph;
            let ghost pkg = wss[i as int].name@;
            proof {
                assert(g1.edges@ == g0.edges@);
                assert(g1.edges@.take(g0.edges@.len() as int) =~= g0.edges@);
                assert(g1.names().take(g0.n() as int) =~= g0.names());
                lemma_prefix_transfer(g0, g1);
                assert forall|j: int| 0 <= j < g1.edges@.len() implies pkg_dep_edge(
                    wss,
                    g1.names()[(#[trigger] g1.edges@[j]).0 as int],
                    g1.names()[g1.edges@[j].1 as int],
                ) by {
                    assert(g1.edges@[j] == g0.edges@[j]);
                    assert(g1.names()[g0.edges@[j].0 as int] == g0.names()[g0.edges@[j].0 as int]);
                    assert(g1.names()[g0.edges@[j].1 as int] == g0.names()[g0.edges@[j].1 as int]);
                }
            }
            match &self.workspaces[i].dependencies {
                Some(d) => {
                    match add_parent_edges(&mut self.package_graph, pi, d) {
                        Ok(_) => {
                            proof {
                                assert(key_views(d@) == wss[i as int].dep_names());
                                assert(stage_facts(
                                    g1,
                                    self.package_graph,
                                    pi,
                                    wss[i as int].dep_names(),
                                    pkg,
                                )) by {
                                    assert forall|x: int|
                                        0 <= x < wss[i as int].dep_names().len() implies self.package_graph.has_edge_named(
                                        #[trigger] wss[i as int].dep_names()[x],
                                        pkg,
                                    ) by {
                                        assert(d@[x].0@ == wss[i as int].dep_names()[x]);
                                        assert(self.package_graph.has_edge_named(
                                            d@[x].0@,
                                            g1.names()[pi as int],
                                        ));
                                    }
                                }
                            }
                        },
                        Err(k) => {
                            proof {
                                assert(key_views(d@) == wss[i as int].dep_names());
                                let gc = self.package_graph;
                                let ha = choose|a: usize|
                                    a < gc.n() && gc.names()[a as int] == d@[k as int].0@
                                        && key_views(d@).contains(gc.names()[a as int])
                                        && !graph::acyclic(gc.n(), gc.edges@.push((a, pi)));
                                assert(wss[i as int].dep_names().contains(gc.names()[ha as int]));
                                lemma_failure_uncyclable(
                                    wss,
                                    i as int,
                                    g1,
                                    self.package_graph,
                                    pi,
                                    wss[i as int].dep_names(),
                                    true,
                                );
                            }
                            return Err(
                                EngineError::CycleDetected {
                                    from: d[k].0.clone(),
                                    to: self.workspaces[i].name.clone(),
                                },
                            );
                        },
                    }
                },
                None => {
                    proof {
                        assert(wss[i as int].dep_names() =~= Seq::<Seq<char>>::empty());
                        assert(self.package_graph.edges@.take(g1.edges@.len() as int)
                            =~= g1.edges@);
                        assert(self.package_graph.names().take(g1.n() as int) =~= g1.names());
                        assert(stage_facts(
                            g1,
                            self.package_graph,
                            pi,
                            wss[i as int].dep_names(),
                            pkg,
                        ));
                    }
                },
            }
            let ghost g2 = self.package_graph;
            match &self.workspaces[i].dev_dependencies {
                Some(d) => {
                    match add_parent_edges(&mut self.package_graph, pi, d) {
                        Ok(_) => {
                            proof {
                                assert(key_views(d@) == wss[i as int].dev_dep_names());
                                assert(stage_facts(
                                    g2,
                                    self.package_graph,
                                    pi,
                                    wss[i as int].dev_dep_names(),
                                    pkg,
                                )) by {
                                    assert forall|x: int|
                                        0 <= x < wss[i as int].dev_dep_names().len() implies self.package_graph.has_edge_named(
                                        #[trigger] wss[i as int].dev_dep_names()[x],
                                        pkg,
                                    ) by {
                                        assert(d@[x].0@ == wss[i as int].dev_dep_names()[x]);
                                        assert(self.package_graph.has_edge_named(
                                            d@[x].0@,
                                            g2.names()[pi as int],
                                        ));
                                    }
                                }
                            }
                        },
                        Err(k) => {
                            proof {
                                assert(key_views(d@) == wss[i as int].dev_dep_names());
                                lemma_stage_justified(wss, i as int, g1, g2, pi, true);
                                lemma_prefix_transfer(g1, g2);
                                assert forall|j: int| 0 <= j < g2.edges@.len() implies pkg_dep_edge(
                                    wss,
                                    g2.names()[(#[trigger] g2.edges@[j]).0 as int],
                                    g2.names()[g2.edges@[j].1 as int],
                                ) by {
                                    if j < g1.edges@.len() {
                                        assert(g2.edges@[j] == g1.edges@[j]);
                                        assert(g2.names()[g1.edges@[j].0 as int]
                                            == g1.names()[g1.edges@[j].0 as int]);
                                        assert(g2.names()[g1.edges@[j].1 as int]
                                            == g1.names()[g1.edges@[j].1 as int]);
                                    }
                                }
                                let gc = self.package_graph;
                                let ha = choose|a: usize|
                                    a < gc.n() && gc.names()[a as int] == d@[k as int].0@
                                        && key_views(d@).contains(gc.names()[a as int])
                                        && !graph::acyclic(gc.n(), gc.edges@.push((a, pi)));
                                assert(wss[i as int].dev_dep_names().contains(gc.names()[ha as int]));
                                lemma_failure_uncyclable(
                                    wss,
                                    i as int,
                                    g2,
                                    self.package_graph,
                                    pi,
                                    wss[i as int].dev_dep_names(),
                                    false,
                                );
                            }
                            return Err(
                                EngineError::CycleDetected {
                                    from: d[k].0.clone(),
                                    to: self.workspaces[i].name.clone(),
                                },
                            );
                        },
                    }
                },
                None => {
                    proof {
                        assert(wss[i as int].dev_dep_names() =~= Seq::<Seq<char>>::empty());
                        assert(self.package_graph.edges@.take(g2.edges@.len() as int)
                            =~= g2.edges@);
                        assert(self.package_graph.names().take(g2.n() as int) =~= g2.names());
                        assert(stage_facts(
                            g2,
                            self.package_graph,
                            pi,
                            wss[i as int].dev_dep_names(),
                            pkg,
                        ));
                    }
                },
            }
            let ghost g3 = self.package_graph;
            proof {
                lemma_stage_justified(wss, i as int, g1, g2, pi, true);
                lemma_stage_justified(wss, i as int, g2, g3, pi, false);
                lemma_prefix_transfer(g1, g2);
                lemma_prefix_transfer(g2, g3);
                // justified over all current edges
                assert forall|j: int| 0 <= j < g3.edges@.len() implies pkg_dep_edge(
                    wss,
                    g3.names()[(#[trigger] g3.edges@[j]).0 as int],
                    g3.names()[g3.edges@[j].1 as int],
                ) by {
                    if j < g1.edges@.len() {
                        assert(g2.edges@[j] == g1.edges@[j]);
                        assert(g3.edges@[j] == g2.edges@[j]);
                        assert(g3.names()[g1.edges@[j].0 as int] == g2.names()[g1.edges@[j].0 as int]);
                        assert(g2.names()[g1.edges@[j].0 as int] == g1.names()[g1.edges@[j].0 as int]);
                        assert(g3.names()[g1.edges@[j].1 as int] == g2.names()[g1.edges@[j].1 as int]);
                        assert(g2.names()[g1.edges@[j].1 as int] == g1.names()[g1.edges@[j].1 as int]);
                    } else if j < g2.edges@.len() {
                        assert(g3.edges@[j] == g2.edges@[j]);
                        assert(g3.names()[g2.edges@[j].0 as int] == g2.names()[g2.edges@[j].0 as int]);
                        assert(g3.names()[g2.edges@[j].1 as int] == g2.names()[g2.edges@[j].1 as int]);
                    }
                }
                // coverage after this package
                assert forall|from: Seq<char>, to: Seq<char>|
                    #![trigger g3.has_edge_named(from, to)]
                    #![trigger pkg_dep_edge(wss.take(i + 1), from, to)]
                    g3.has_edge_named(from, to) <==> pkg_dep_edge(wss.take(i + 1), from, to) by {
                    if g3.has_edge_named(from, to) {
                        let j = choose|j: int|
                            0 <= j < g3.edges@.len() && g3.names()[(#[trigger] g3.edges@[j]).0 as int]
                                == from && g3.names()[g3.edges@[j].1 as int] == to;
                        if j < g1.edges@.len() {
                            assert(g2.edges@[j] == g1.edges@[j]);
                            assert(g3.edges@[j] == g2.edges@[j]);
                            assert(g3.names()[g1.edges@[j].0 as int] == g1.names()[g1.edges@[j].0 as int]);
                            assert(g3.names()[g1.edges@[j].1 as int] == g1.names()[g1.edges@[j].1 as int]);
                            assert(g1.has_edge_named(from, to));
                            assert(g0.has_edge_named(from, to)) by {
                                let jj = j;
                                assert(g1.edges@[jj] == g0.edges@[jj]);
                                assert(g1.names()[g0.edges@[jj].0 as int] == g0.names()[g0.edges@[jj].0 as int]);
                                assert(g1.names()[g0.edges@[jj].1 as int] == g0.names()[g0.edges@[jj].1 as int]);
                            }
                            assert(pkg_dep_edge(wss.take(i as int), from, to));
                            let w = choose|w: int|
                                0 <= w < wss.take(i as int).len() && (#[trigger] wss.take(
                                    i as int,
                                )[w]).name@ == to && pkg_all_dep_names(wss.take(i as int)[w]).contains(
                                    from,
                                );
                            assert(wss.take(i + 1)[w] == wss[w]);
                            assert(pkg_dep_edge(wss.take(i + 1), from, to));
                        } else {
                            // appended for package i
                            let seg_keys = if j < g2.edges@.len() {
                                wss[i as int].dep_names()
                            } else {
                                wss[i as int].dev_dep_names()
                            };
                            if j < g2.edges@.len() {
                                assert(g3.edges@[j] == g2.edges@[j]);
                                assert(g2.edges@[j].1 == pi);
                                assert(wss[i as int].dep_names().contains(
                                    g2.names()[g2.edges@[j].0 as int],
                                ));
                                assert(g3.names()[g2.edges@[j].0 as int] == g2.names()[g2.edges@[j].0 as int]);
                                let x = choose|x: int|
                                    0 <= x < wss[i as int].dep_names().len() && wss[i as int].dep_names()[x]
                                        == from;
                                assert(pkg_all_dep_names(wss[i as int])[x] == from);
                            } else {
                                assert(g3.edges@[j].1 == pi);
                                assert(wss[i as int].dev_dep_names().contains(
                                    g3.names()[g3.edges@[j].0 as int],
                                ));
                                let x = choose|x: int|
                                    0 <= x < wss[i as int].dev_dep_names().len()
                                        && wss[i as int].dev_dep_names()[x] == from;
                                assert(pkg_all_dep_names(wss[i as int])[wss[i as int].dep_names().len()
                                    + x] == from);
                            }
                            assert(pkg_all_dep_names(wss[i as int]).contains(from));
                            assert(g3.names()[pi as int] == pkg) by {
                                assert(g3.names()[pi as int] == g2.names()[pi as int]);
                            }
                            assert(to == pkg);
                            assert(wss.take(i + 1)[i as int] == wss[i as int]);
                            assert(pkg_dep_edge(wss.take(i + 1), from, to));
                        }
                    }
                    if pkg_dep_edge(wss.take(i + 1), from, to) {
                        let w = choose|w: int|
                            0 <= w < wss.take(i + 1).len() && (#[trigger] wss.take(i + 1)[w]).name@
                                == to && pkg_all_dep_names(wss.take(i + 1)[w]).contains(from);
                        assert(wss.take(i + 1)[w] == wss[w]);
                        if w < i {
                            assert(wss.take(i as int)[w] == wss[w]);
                            assert(pkg_dep_edge(wss.take(i as int), from, to));
                            assert(g1.has_edge_named(from, to)) by {
                                assert(g0.has_edge_named(from, to));
                                lemma_prefix_transfer(g0, g1);
                            }
                            assert(g2.has_edge_named(from, to));
                            assert(g3.has_edge_named(from, to));
                        } else {
                            // w == i
                            let x = choose|x: int|
                                0 <= x < pkg_all_dep_names(wss[i as int]).len()
                                    && pkg_all_dep_names(wss[i as int])[x] == from;
                            if x < wss[i as int].dep_names().len() {
                                assert(wss[i as int].dep_names()[x] == from);
                                assert(g2.has_edge_named(from, pkg));
                                assert(g3.has_edge_named(from, pkg));
                            } else {
                                assert(wss[i as int].dev_dep_names()[x - wss[i as int].dep_names().len()]
                                    == from);
                                assert(g3.has_edge_named(from, pkg));
                            }
                        }
                    }
                }
                // packages seen so far all have nodes
                assert forall|x: int|
                    0 <= x < i + 1 implies self.package_graph.names().contains(
                    (#[trigger] wss[x]).name@,
                ) by {
                    if x < i {
                        assert(g0.names().contains(wss[x].name@));
                        let w = choose|w: int|
                            0 <= w < g0.names().len() && g0.names()[w] == wss[x].name@;
                        assert(g1.names()[w] == g0.names()[w]);
                        assert(g2.names()[w] == g1.names()[w]);
                        assert(g3.names()[w] == g2.names()[w]);
                        assert(g3.names()[w] == wss[x].name@);
                    } else {
                        assert(g3.names()[pi as int] == g2.names()[pi as int]);
                        assert(g3.names()[pi as int] == wss[i as int].name@);
                    }
                }
            }
            i = i + 1;
        }
        proof {
            assert(wss.take(wss.len() as int) =~= wss);
            assert forall|from: Seq<char>, to: Seq<char>|
                #[trigger] pkg_dep_edge(wss, from, to) implies self.package_graph.has_edge_named(
                from,
                to,
            ) by {
                assert(pkg_dep_edge(wss.take(wss.len() as int), from, to));
            }
            lemma_graph_gives_pkg_rank(wss, self.package_graph);
        }
        Ok(())
    }
    /// The registered tasks as records, in registry order.
    pub open spec fn snap(self) -> Seq<ScriptV> {
        self.scripts@.map_values(|s: Script| s@)
    }

    /// Workspace `w` and registered task `x` qualify for fan-out: the
    /// package defines both the requested root script and the command of
    /// task `x`.
    pub open spec fn fanout_at(self, w: int, x: int) -> bool {
        &&& 0 <= w < self.workspaces@.len()
        &&& 0 <= x < self.snap().len()
        &&& self.workspaces@[w].script_names().contains(self.called_script@)
        &&& self.workspaces@[w].script_names().contains(self.snap()[x].command)
    }

    /// The id of the task that fan-out pair `(w, x)` produces.
    pub open spec fn fanout_id(self, w: int, x: int) -> Seq<char> {
        script_id_spec(self.workspaces@[w].name@, self.snap()[x].command)
    }

    /// Fan-out pair `(w, x)` induces a same-package edge for dependency name
    /// `dn`: the task declares it and the package defines it.
    pub open spec fn fanout_dep_at(self, w: int, x: int, dn: Seq<char>) -> bool {
        &&& self.fanout_at(w, x)
        &&& self.snap()[x].same_dep_names().contains(dn)
        &&& self.workspaces@[w].script_names().contains(dn)
    }

    /// The source id of the edge that `(w, dn)` induces.
    pub open spec fn fanout_dep_from(self, w: int, dn: Seq<char>) -> Seq<char> {
        script_id_spec(self.workspaces@[w].name@, dn)
    }

    /// `v` is the record some qualifying fan-out pair produces.
    pub open spec fn is_rebound_of(self, v: ScriptV) -> bool {
        exists|w: int, x: int|
            #[trigger] self.fanout_at(w, x) && v == rebound_script(
                self.snap()[x],
                self.workspaces@[w],
            )
    }

    /// `id` is the id of the task some qualifying fan-out pair produces.
    pub open spec fn is_fanout_id_of(self, id: Seq<char>) -> bool {
        exists|w: int, x: int| #[trigger] self.fanout_at(w, x) && id == self.fanout_id(w, x)
    }

    /// `id` maps to the record of some qualifying fan-out pair producing it.
    pub open spec fn fanout_value_ok(self, id: Seq<char>, v: ScriptV) -> bool {
        exists|w: int, x: int|
            #[trigger] self.fanout_at(w, x) && id == self.fanout_id(w, x) && v == rebound_script(
                self.snap()[x],
                self.workspaces@[w],
            )
    }

    /// `(from, to)` is a same-package edge some qualifying fan-out pair and
    /// dependency name induce.
    pub open spec fn is_fanout_dep_of(self, from: Seq<char>, to: Seq<char>) -> bool {
        exists|w: int, x: int, dn: Seq<char>|
            #[trigger] self.fanout_dep_at(w, x, dn) && from == self.fanout_dep_from(w, dn) && to
                == self.fanout_id(w, x)
    }

    /// Records the pending same-package edges that fan-out pair `(w, x)`
    /// induces: one per declared same-package dependency name that the
    /// package also defines.
    fn push_fanout_deps(&mut self, w: usize, x: usize)
        requires
            old(self).wf(),
            old(self).fanout_at(w as int, x as int),
        ensures
            final(self).wf(),
            final(self).scripts@ == old(self).scripts@,
            final(self).task_graph == old(self).task_graph,
            final(self).package_graph == old(self).package_graph,
            final(self).config == old(self).config,
            final(self).workspaces == old(self).workspaces,
            final(self).called_script == old(self).called_script,
            final(self).dir == old(self).dir,
            old(self).deps@.len() <= final(self).deps@.len(),
            final(self).deps@.take(old(self).deps@.len() as int) == old(self).deps@,
            forall|k: int|
                old(self).deps@.len() <= k < final(self).deps@.len() ==> old(self).is_fanout_dep_of(
                    (#[trigger] final(self).deps@[k]).0@,
                    final(self).deps@[k].1@,
                ),
            forall|dn: Seq<char>|
                #[trigger] old(self).fanout_dep_at(w as int, x as int, dn) ==> deps_views(
                    final(self).deps@,
                ).contains(
                    (
                        old(self).fanout_dep_from(w as int, dn),
                        old(self).fanout_id(w as int, x as int),
                    ),
                ),
    {
        let ghost deps0 = self.deps@;
        let ws_id = make_script_id(
            self.workspaces[w].name.as_str(),
            self.scripts[x].command.as_str(),
        );
        assert(ws_id@ == old(self).fanout_id(w as int, x as int));
        match self.scripts[x].dependencies() {
            Some(dep_names) => {
                let mut di: usize = 0;
                while di < dep_names.len()
                    invariant
                        old(self).wf(),
                        self.wf(),
                        w < old(self).workspaces@.len(),
                        x < old(self).scripts@.len(),
                        di <= dep_names@.len(),
                        old(self).fanout_at(w as int, x as int),
                        ws_id@ == old(self).fanout_id(w as int, x as int),
                        dep_names@.map_values(|s: String| s@) == old(self).snap()[x as int].same_dep_names(),
                        deps0 == old(self).deps@,
                        self.scripts@ == old(self).scripts@,
                        self.task_graph == old(self).task_graph,
                        self.package_graph == old(self).package_graph,
                        self.config == old(self).config,
                        self.workspaces == old(self).workspaces,
                        self.called_script == old(self).called_script,
                        self.dir == old(self).dir,
                        deps0.len() <= self.deps@.len(),
                        self.deps@.take(deps0.len() as int) == deps0,
                        forall|k: int|
                            deps0.len() <= k < self.deps@.len() ==> old(self).is_fanout_dep_of(
                                (#[trigger] self.deps@[k]).0@,
                                self.deps@[k].1@,
                            ),
                        forall|dn: Seq<char>|
                            (#[trigger] old(self).fanout_dep_at(w as int, x as int, dn)) && (exists|
                                d2: int,
                            |
                                0 <= d2 < di && dep_names@[d2]@ == dn) ==> deps_views(
                                self.deps@,
                            ).contains(
                                (
                                    old(self).fanout_dep_from(w as int, dn),
                                    old(self).fanout_id(w as int, x as int),
                                ),
                            ),
                    decreases dep_names@.len() - di,
                {
                    let ghost dn = dep_names@[di as int]@;
                    if self.workspaces[w].defines_script(dep_names[di].as_str()) {
                        let from_id = make_script_id(
                            self.workspaces[w].name.as_str(),
                            dep_names[di].as_str(),
                        );
                        let ghost pre_deps = self.deps@;
                        self.deps.push((from_id, ws_id.clone()));
                        proof {
                            assert(self.deps@.take(deps0.len() as int) =~= pre_deps.take(
                                deps0.len() as int,
                            ));
                            assert(old(self).snap()[x as int].same_dep_names()[di as int] == dn);
                            assert(old(self).snap()[x as int].same_dep_names().contains(dn));
                            assert(old(self).fanout_dep_at(w as int, x as int, dn));
                            let nk = self.deps@.len() - 1;
                            assert(self.deps@[nk].0@ == old(self).fanout_dep_from(w as int, dn));
                            assert(self.deps@[nk].1@ == old(self).fanout_id(w as int, x as int));
                            assert(deps_views(self.deps@)[nk] == (
                                old(self).fanout_dep_from(w as int, dn),
                                old(self).fanout_id(w as int, x as int),
                            ));
                            assert forall|k: int|
                                deps0.len() <= k < self.deps@.len() implies old(self).is_fanout_dep_of(
                                (#[trigger] self.deps@[k]).0@,
                                self.deps@[k].1@,
                            ) by {
                                if k < nk {
                                    assert(self.deps@[k] == pre_deps[k]);
                                } else {
                                    assert(old(self).is_fanout_dep_of(
                                        self.deps@[k].0@,
                                        self.deps@[k].1@,
                                    )) by {
                                        assert(old(self).fanout_dep_at(w as int, x as int, dn));
                                    }
                                }
                            }
                            assert forall|dn2: Seq<char>|
                                (#[trigger] old(self).fanout_dep_at(w as int, x as int, dn2)) && (
                                exists|d2: int|
                                    0 <= d2 < di + 1 && dep_names@[d2]@ == dn2) implies deps_views(
                                self.deps@,
                            ).contains(
                                (
                                    old(self).fanout_dep_from(w as int, dn2),
                                    old(self).fanout_id(w as int, x as int),
                                ),
                            ) by {
                                let d2 = choose|d2: int| 0 <= d2 < di + 1 && dep_names@[d2]@ == dn2;
                                if d2 < di {
                                    let kk = choose|kk: int|
                                        0 <= kk < deps_views(pre_deps).len() && deps_views(
                                            pre_deps,
                                        )[kk] == (
                                        old(self).fanout_dep_from(w as int, dn2),
                                        old(self).fanout_id(w as int, x as int),
                                        );
                                    assert(self.deps@[kk] == pre_deps[kk]);
                                    assert(deps_views(self.deps@)[kk] == deps_views(
                                        pre_deps,
                                    )[kk]);
                                } else {
                                    assert(dn2 == dn);
                                    assert(deps_views(self.deps@)[nk] == (
                                        old(self).fanout_dep_from(w as int, dn2),
                                        old(self).fanout_id(w as int, x as int),
                                    ));
                                }
                            }
                        }
                    } else {
                        proof {
                            assert(!old(self).workspaces@[w as int].script_names().contains(dn));
                            assert forall|dn2: Seq<char>|
                                (#[trigger] old(self).fanout_dep_at(w as int, x as int, dn2)) && (
                                exists|d2: int|
                                    0 <= d2 < di + 1 && dep_names@[d2]@ == dn2) implies deps_views(
                                self.deps@,
                            ).contains(
                                (
                                    old(self).fanout_dep_from(w as int, dn2),
                                    old(self).fanout_id(w as int, x as int),
                                ),
                            ) by {
                                let d2 = choose|d2: int| 0 <= d2 < di + 1 && dep_names@[d2]@ == dn2;
                                if d2 == di {
                                    assert(dn2 == dn);
                                    assert(false);
                                }
                            }
                        }
                    }
                    di = di + 1;
                }
                proof {
                    assert forall|dn: Seq<char>|
                        #[trigger] old(self).fanout_dep_at(w as int, x as int, dn) implies deps_views(
                        self.deps@,
                    ).contains(
                        (
                            old(self).fanout_dep_from(w as int, dn),
                            old(self).fanout_id(w as int, x as int),
                        ),
                    ) by {
                        assert(old(self).snap()[x as int].same_dep_names().contains(dn));
                        let d2 = choose|d2: int|
                            0 <= d2 < old(self).snap()[x as int].same_dep_names().len() && old(self).snap()[x as int].same_dep_names()[d2] == dn;
                        assert(dep_names@[d2]@ == dn);
                    }
                }
            },
            None => {
                proof {
                    assert forall|dn: Seq<char>|
                        #[trigger] old(self).fanout_dep_at(w as int, x as int, dn) implies deps_views(
                        self.deps@,
                    ).contains(
                        (
                            old(self).fanout_dep_from(w as int, dn),
                            old(self).fanout_id(w as int, x as int),
                        ),
                    ) by {
                        assert(old(self).snap()[x as int].same_dep_names().contains(dn));
                        assert(old(self).snap()[x as int].config.dependencies is None);
                        assert(old(self).snap()[x as int].same_dep_names()
                            =~= Seq::<Seq<char>>::empty());
                    }
                }
            },
        }
    }

    /// Collects the fan-out clones and records their pending same-package
    /// edges; the registry itself is not yet touched.
    fn collect_fanout(&mut self) -> (to_add: Vec<Script>)
        requires
            old(self).wf(),
        ensures
            final(self).wf(),
            final(self).scripts@ == old(self).scripts@,
            final(self).task_graph == old(self).task_graph,
            final(self).package_graph == old(self).package_graph,
            final(self).config == old(self).config,
            final(self).workspaces == old(self).workspaces,
            final(self).called_script == old(self).called_script,
            final(self).dir == old(self).dir,
            old(self).deps@.len() <= final(self).deps@.len(),
            final(self).deps@.take(old(self).deps@.len() as int) == old(self).deps@,
            forall|k: int|
                old(self).deps@.len() <= k < final(self).deps@.len() ==> old(self).is_fanout_dep_of(
                    (#[trigger] final(self).deps@[k]).0@,
                    final(self).deps@[k].1@,
                ),
            forall|w: int, x: int, dn: Seq<char>|
                #[trigger] old(self).fanout_dep_at(w, x, dn) ==> deps_views(
                    final(self).deps@,
                ).contains((old(self).fanout_dep_from(w, dn), old(self).fanout_id(w, x))),
            forall|y: int|
                0 <= y < to_add@.len() ==> old(self).is_rebound_of((#[trigger] to_add@[y])@),
            forall|w: int, x: int|
                #[trigger] old(self).fanout_at(w, x) ==> (exists|y: int|
                    0 <= y < to_add@.len() && to_add@[y]@ == rebound_script(
                        old(self).snap()[x],
                        old(self).workspaces@[w],
                    )),
    {
        let ghost deps0 = self.deps@;
        let mut to_add: Vec<Script> = Vec::new();
        let mut w: usize = 0;
        while w < self.workspaces.len()
            invariant
                old(self).wf(),
                self.wf(),
                w <= old(self).workspaces@.len(),
                deps0 == old(self).deps@,
                self.scripts@ == old(self).scripts@,
                self.task_graph == old(self).task_graph,
                self.package_graph == old(self).package_graph,
                self.config == old(self).config,
                self.workspaces == old(self).workspaces,
                self.called_script == old(self).called_script,
                self.dir == old(self).dir,
                deps0.len() <= self.deps@.len(),
                self.deps@.take(deps0.len() as int) == deps0,
                forall|k: int|
                    deps0.len() <= k < self.deps@.len() ==> old(self).is_fanout_dep_of(
                        (#[trigger] self.deps@[k]).0@,
                        self.deps@[k].1@,
                    ),
                forall|w2: int, x2: int, dn: Seq<char>|
                    (#[trigger] old(self).fanout_dep_at(w2, x2, dn)) && w2 < w ==> deps_views(
                        self.deps@,
                    ).contains((old(self).fanout_dep_from(w2, dn), old(self).fanout_id(w2, x2))),
                forall|y: int|
                    0 <= y < to_add@.len() ==> old(self).is_rebound_of((#[trigger] to_add@[y])@),
                forall|w2: int, x2: int|
                    (#[trigger] old(self).fanout_at(w2, x2)) && w2 < w ==> (exists|y: int|
                        0 <= y < to_add@.len() && to_add@[y]@ == rebound_script(
                            old(self).snap()[x2],
                            old(self).workspaces@[w2],
                        )),
            decreases old(self).workspaces@.len() - w,
        {
            if self.workspaces[w].defines_script(self.called_script.as_str()) {
                let mut x: usize = 0;
                while x < self.scripts.len()
                    invariant
                        old(self).wf(),
                        self.wf(),
                        w < old(self).workspaces@.len(),
                        x <= old(self).scripts@.len(),
                        deps0 == old(self).deps@,
                        self.scripts@ == old(self).scripts@,
                        self.task_graph == old(self).task_graph,
                        self.package_graph == old(self).package_graph,
                        self.config == old(self).config,
                        self.workspaces == old(self).workspaces,
                        self.called_script == old(self).called_script,
                        self.dir == old(self).dir,
                        old(self).workspaces@[w as int].script_names().contains(
                            old(self).called_script@,
                        ),
                        deps0.len() <= self.deps@.len(),
                        self.deps@.take(deps0.len() as int) == deps0,
                        forall|k: int|
                            deps0.len() <= k < self.deps@.len() ==> old(self).is_fanout_dep_of(
                                (#[trigger] self.deps@[k]).0@,
                                self.deps@[k].1@,
                            ),
                        forall|w2: int, x2: int, dn: Seq<char>|
                            (#[trigger] old(self).fanout_dep_at(w2, x2, dn)) && (w2 < w || (w2
                                == w && x2 < x)) ==> deps_views(self.deps@).contains(
                                (old(self).fanout_dep_from(w2, dn), old(self).fanout_id(w2, x2)),
                            ),
                        forall|y: int|
                            0 <= y < to_add@.len() ==> old(self).is_rebound_of(
                                (#[trigger] to_add@[y])@,
                            ),
                        forall|w2: int, x2: int|
                            (#[trigger] old(self).fanout_at(w2, x2)) && (w2 < w || (w2 == w && x2
                                < x)) ==> (exists|y: int|
                                0 <= y < to_add@.len() && to_add@[y]@ == rebound_script(
                                    old(self).snap()[x2],
                                    old(self).workspaces@[w2],
                                )),
                    decreases old(self).scripts@.len() - x,
                {
                    if self.workspaces[w].defines_script(self.scripts[x].command.as_str()) {
                        proof {
                            assert(old(self).fanout_at(w as int, x as int));
                        }
                        let ghost mid_self = *self;
                        let ghost pre_deps = self.deps@;
                        self.push_fanout_deps(w, x);
                        proof {
                            lemma_prefix_chain(deps0, pre_deps, self.deps@);
                            assert(mid_self.snap() == old(self).snap());
                            assert(mid_self.workspaces@ == old(self).workspaces@);
                            assert(mid_self.called_script@ == old(self).called_script@);
                            assert forall|k: int|
                                deps0.len() <= k < self.deps@.len() implies old(self).is_fanout_dep_of(
                                (#[trigger] self.deps@[k]).0@,
                                self.deps@[k].1@,
                            ) by {
                                if k < pre_deps.len() {
                                    assert(self.deps@[k] == pre_deps[k]);
                                } else {
                                    assert(mid_self.is_fanout_dep_of(
                                        self.deps@[k].0@,
                                        self.deps@[k].1@,
                                    ));
                                    let (w2, x2, dn): (int, int, Seq<char>) = choose|
                                        w2: int,
                                        x2: int,
                                        dn: Seq<char>,
                                    |
                                        #[trigger] mid_self.fanout_dep_at(w2, x2, dn)
                                            && self.deps@[k].0@ == mid_self.fanout_dep_from(
                                            w2,
                                            dn,
                                        ) && self.deps@[k].1@ == mid_self.fanout_id(w2, x2);
                                    assert(old(self).fanout_dep_at(w2, x2, dn));
                                    assert(old(self).fanout_dep_from(w2, dn)
                                        == mid_self.fanout_dep_from(w2, dn));
                                    assert(old(self).fanout_id(w2, x2) == mid_self.fanout_id(
                                        w2,
                                        x2,
                                    ));
                                }
                            }
                            assert forall|w2: int, x2: int, dn: Seq<char>|
                                (#[trigger] old(self).fanout_dep_at(w2, x2, dn)) && (w2 < w || (w2
                                    == w && x2 < x + 1)) implies deps_views(self.deps@).contains(
                                (old(self).fanout_dep_from(w2, dn), old(self).fanout_id(w2, x2)),
                            ) by {
                                if w2 == w && x2 == x {
                                    assert(mid_self.fanout_dep_at(w as int, x as int, dn));
                                    assert(deps_views(self.deps@).contains(
                                        (
                                            mid_self.fanout_dep_from(w as int, dn),
                                            mid_self.fanout_id(w as int, x as int),
                                        ),
                                    ));
                                    assert(old(self).fanout_dep_from(w2, dn)
                                        == mid_self.fanout_dep_from(w2, dn));
                                    assert(old(self).fanout_id(w2, x2) == mid_self.fanout_id(
                                        w2,
                                        x2,
                                    ));
                                } else {
                                    lemma_deps_contains_extend(
                                        pre_deps,
                                        self.deps@,
                                        (
                                            old(self).fanout_dep_from(w2, dn),
                                            old(self).fanout_id(w2, x2),
                                        ),
                                    );
                                }
                            }
                        }
                        let mut ws_script = self.scripts[x].duplicate();
                        ws_script.package_name = self.workspaces[w].name.clone();
                        match &self.workspaces[w].dir {
                            Some(dd) => {
                                ws_script.dir = dd.clone();
                            },
                            None => {},
                        }
                        proof {
                            assert(ws_script@ == rebound_script(
                                old(self).snap()[x as int],
                                old(self).workspaces@[w as int],
                            ));
                        }
                        let ghost pre_add = to_add@;
                        to_add.push(ws_script);
                        proof {
                            assert forall|y: int|
                                0 <= y < to_add@.len() implies old(self).is_rebound_of(
                                (#[trigger] to_add@[y])@,
                            ) by {
                                if y < pre_add.len() {
                                    assert(to_add@[y] == pre_add[y]);
                                } else {
                                    assert(to_add@[y]@ == rebound_script(
                                        old(self).snap()[x as int],
                                        old(self).workspaces@[w as int],
                                    ));
                                    assert(old(self).fanout_at(w as int, x as int));
                                }
                            }
                            assert forall|w2: int, x2: int|
                                (#[trigger] old(self).fanout_at(w2, x2)) && (w2 < w || (w2 == w
                                    && x2 < x + 1)) implies (exists|y: int|
                                0 <= y < to_add@.len() && to_add@[y]@ == rebound_script(
                                    old(self).snap()[x2],
                                    old(self).workspaces@[w2],
                                )) by {
                                if w2 == w && x2 == x {
                                    assert(to_add@[pre_add.len() as int]@ == rebound_script(
                                        old(self).snap()[x2],
                                        old(self).workspaces@[w2],
                                    ));
                                } else {
                                    let y = choose|y: int|
                                        0 <= y < pre_add.len() && pre_add[y]@ == rebound_script(
                                            old(self).snap()[x2],
                                            old(self).workspaces@[w2],
                                        );
                                    assert(to_add@[y] == pre_add[y]);
                                }
                            }
                        }
                    } else {
                        proof {
                            assert(!old(self).workspaces@[w as int].script_names().contains(
                                old(self).snap()[x as int].command,
                            ));
                            assert forall|w2: int, x2: int|
                                (#[trigger] old(self).fanout_at(w2, x2)) && (w2 < w || (w2 == w
                                    && x2 < x + 1)) implies (exists|y: int|
                                0 <= y < to_add@.len() && to_add@[y]@ == rebound_script(
                                    old(self).snap()[x2],
                                    old(self).workspaces@[w2],
                                )) by {
                                if w2 == w && x2 == x {
                                    assert(false);
                                }
                            }
                            assert forall|w2: int, x2: int, dn: Seq<char>|
                                (#[trigger] old(self).fanout_dep_at(w2, x2, dn)) && (w2 < w || (w2
                                    == w && x2 < x + 1)) implies deps_views(self.deps@).contains(
                                (old(self).fanout_dep_from(w2, dn), old(self).fanout_id(w2, x2)),
                            ) by {
                                if w2 == w && x2 == x {
                                    assert(false);
                                }
                            }
                        }
                    }
                    x = x + 1;
                }
            } else {
                proof {
                    assert(!old(self).workspaces@[w as int].script_names().contains(
                        old(self).called_script@,
                    ));
                    assert forall|w2: int, x2: int|
                        (#[trigger] old(self).fanout_at(w2, x2)) && w2 < w + 1 implies (exists|
                        y: int,
                    |
                        0 <= y < to_add@.len() && to_add@[y]@ == rebound_script(
                            old(self).snap()[x2],
                            old(self).workspaces@[w2],
                        )) by {
                        if w2 == w {
                            assert(false);
                        }
                    }
                    assert forall|w2: int, x2: int, dn: Seq<char>|
                        (#[trigger] old(self).fanout_dep_at(w2, x2, dn)) && w2 < w
                            + 1 implies deps_views(self.deps@).contains(
                        (old(self).fanout_dep_from(w2, dn), old(self).fanout_id(w2, x2)),
                    ) by {
                        if w2 == w {
                            assert(false);
                        }
                    }
                }
            }
            w = w + 1;
        }
        to_add
    }

    /// Whether some stack entry holds the name `dn`.
    pub open spec fn stack_has(stack: Seq<String>, dn: Seq<char>) -> bool {
        exists|si: int| 0 <= si < stack.len() && (#[trigger] stack[si])@ == dn
    }

    /// Whether some registered task declares `dn` as a same-package
    /// dependency.
    pub open spec fn dep_name_declared(snap: Seq<ScriptV>, dn: Seq<char>) -> bool {
        exists|i: int, d: int|
            0 <= i < snap.len() && 0 <= d < snap[i].same_dep_names().len() && (
            #[trigger] snap[i].same_dep_names()[d]) == dn
    }

    /// Seeds the registry with the requested root tasks and their
    /// transitive same-package dependencies, each under the reserved root
    /// package.  A dependency name that no pipeline entry defines is a
    /// configuration error, raised before anything is scheduled.
    pub fn seed_root_scripts(&mut self, tasks: &Vec<String>) -> (r: Result<(), EngineError>)
        requires
            old(self).wf(),
            old(self).scripts@.len() == 0,
        ensures
            final(self).wf(),
            final(self).task_graph.names() =~= old(self).task_graph.names(),
            final(self).task_graph.edges@ == old(self).task_graph.edges@,
            final(self).package_graph == old(self).package_graph,
            final(self).config == old(self).config,
            final(self).workspaces == old(self).workspaces,
            final(self).called_script == old(self).called_script,
            final(self).dir == old(self).dir,
            final(self).deps@ == old(self).deps@,
            forall|i: int|
                0 <= i < final(self).snap().len() ==> (#[trigger] final(self).snap()[i]).package_name
                    =~= "__ROOT__"@ && final(self).config.pipeline_find(
                    final(self).snap()[i].command,
                ) == Some(final(self).snap()[i].config) && final(self).snap()[i].dir == old(self).dir@,
            r is Ok ==> (forall|t: int|
                0 <= t < tasks@.len() ==> id_registered(
                    final(self).scripts@,
                    script_id_spec("__ROOT__"@, (#[trigger] tasks@[t])@),
                )),
            r is Ok ==> (forall|i: int, d: int|
                0 <= i < final(self).snap().len() && 0 <= d
                    < final(self).snap()[i].same_dep_names().len()
                    ==> final(self).config.pipeline_find(
                    #[trigger] final(self).snap()[i].same_dep_names()[d],
                ) is Some && id_registered(
                    final(self).scripts@,
                    script_id_spec("__ROOT__"@, final(self).snap()[i].same_dep_names()[d]),
                )),
            match r {
                Ok(_) => true,
                Err(e) => match e {
                    EngineError::MissingDependency { name } => final(self).config.pipeline_find(
                        name@,
                    ) is None && ((exists|t: int|
                        0 <= t < tasks@.len() && (#[trigger] tasks@[t])@ == name@)
                        || Self::dep_name_declared(final(self).snap(), name@)),
                    _ => false,
                },
            },
    {
        let ghost dir0 = old(self).dir@;
        let mut stack: Vec<String> = Vec::new();
        let mut t: usize = 0;
        while t < tasks.len()
            invariant
                t <= tasks@.len(),
                stack@.len() == t,
                forall|k: int| 0 <= k < t ==> (#[trigger] stack@[k])@ == tasks@[k]@,
            decreases tasks@.len() - t,
        {
            stack.push(tasks[t].clone());
            t = t + 1;
        }
        proof {
            assert forall|t2: int| 0 <= t2 < tasks@.len() implies Self::stack_has(
                stack@,
                (#[trigger] tasks@[t2])@,
            ) by {
                assert(stack@[t2]@ == tasks@[t2]@);
            }
            assert forall|si: int| 0 <= si < stack@.len() implies (exists|t2: int|
                0 <= t2 < tasks@.len() && (#[trigger] tasks@[t2])@ == (#[trigger] stack@[si])@) by {
                assert(tasks@[si]@ == stack@[si]@);
            }
        }
        while stack.len() > 0
            invariant
                old(self).wf(),
                self.wf(),
                dir0 == old(self).dir@,
                self.task_graph.names() =~= old(self).task_graph.names(),
                self.task_graph.edges@ == old(self).task_graph.edges@,
                self.package_graph == old(self).package_graph,
                self.config == old(self).config,
                self.workspaces == old(self).workspaces,
                self.called_script == old(self).called_script,
                self.dir == old(self).dir,
                self.deps@ == old(self).deps@,
                forall|i: int|
                    0 <= i < self.snap().len() ==> (#[trigger] self.snap()[i]).package_name
                        =~= "__ROOT__"@ && self.config.pipeline_find(self.snap()[i].command)
                        == Some(self.snap()[i].config) && self.snap()[i].dir == dir0,
                forall|i: int, d: int|
                    0 <= i < self.snap().len() && 0 <= d
                        < self.snap()[i].same_dep_names().len() ==> id_registered(
                        self.scripts@,
                        script_id_spec(
                            "__ROOT__"@,
                            #[trigger] self.snap()[i].same_dep_names()[d],
                        ),
                    ) || Self::stack_has(stack@, self.snap()[i].same_dep_names()[d]),
                forall|t2: int|
                    0 <= t2 < tasks@.len() ==> id_registered(
                        self.scripts@,
                        script_id_spec("__ROOT__"@, (#[trigger] tasks@[t2])@),
                    ) || Self::stack_has(stack@, tasks@[t2]@),
                forall|si: int|
                    0 <= si < stack@.len() ==> ((exists|t2: int|
                        0 <= t2 < tasks@.len() && (#[trigger] tasks@[t2])@ == (
                        #[trigger] stack@[si])@) || Self::dep_name_declared(
                        self.snap(),
                        stack@[si]@,
                    )),
            decreases unseeded(self.config.pipeline@, self.scripts@), stack@.len(),
        {
            let ghost stack0 = stack@;
            let popped = stack.pop();
            let s: String = match popped {
                Some(v) => v,
                None => {
                    proof {
                        assert(false);
                    }
                    return Ok(());
                },
            };
            proof {
                assert(s@ == stack0[stack0.len() - 1]@);
            }
            let root_id = make_script_id("__ROOT__", s.as_str());
            proof {
                reveal_strlit("__ROOT__");
                assert(root_id@ == script_id_spec("__ROOT__"@, s@));
            }
            let already = self.lookup_script(root_id.as_str()).is_some();
            if already {
                proof {
                    assert(id_registered(self.scripts@, script_id_spec("__ROOT__"@, s@)));
                    assert forall|dn: Seq<char>|
                        Self::stack_has(stack0, dn) implies id_registered(
                        self.scripts@,
                        script_id_spec("__ROOT__"@, dn),
                    ) || Self::stack_has(stack@, dn) by {
                        let si = choose|si: int|
                            0 <= si < stack0.len() && (#[trigger] stack0[si])@ == dn;
                        if si < stack0.len() - 1 {
                            assert(stack@[si]@ == dn);
                        }
                    }
                    assert forall|si: int|
                        0 <= si < stack@.len() implies ((exists|t2: int|
                        0 <= t2 < tasks@.len() && (#[trigger] tasks@[t2])@ == (
                        #[trigger] stack@[si])@) || Self::dep_name_declared(
                        self.snap(),
                        stack@[si]@,
                    )) by {
                        assert(stack@[si] == stack0[si]);
                    }
                }
            } else {
                let cc_dup: CommandConfig;
                match self.config.lookup(s.as_str()) {
                    None => {
                        proof {
                            assert((exists|t2: int|
                                0 <= t2 < tasks@.len() && (#[trigger] tasks@[t2])@ == s@)
                                || Self::dep_name_declared(self.snap(), s@)) by {
                                assert(stack0[stack0.len() - 1]@ == s@);
                            }
                        }
                        return Err(EngineError::MissingDependency { name: s });
                    },
                    Some(cc) => {
                        cc_dup = cc.duplicate();
                    },
                }
                let ghost ccv = cc_dup@;
                proof {
                    assert(self.config.pipeline_find(s@) == Some(ccv));
                    let entries = self.config.pipeline@.map_values(
                        |p: (String, CommandConfig)| (p.0@, p.1@),
                    );
                    lemma_pipeline_find_rec_props(entries, s@);
                    let ei = choose|ei: int|
                        0 <= ei < entries.len() && #[trigger] entries[ei] == (s@, ccv);
                    assert(self.config.pipeline@[ei].0@ == s@);
                    assert(self.config.pipeline@[ei].1@ == ccv);
                    assert(self.config.pipeline@[ei].1.command@ == self.config.pipeline@[ei].0@);
                    assert(ccv.command == s@);
                }
                let script = Script::new(cc_dup, &self.dir, "__ROOT__");
                proof {
                    reveal_strlit("__ROOT__");
                    assert(script@.package_name =~= "__ROOT__"@);
                    assert(script@.id_spec() == script_id_spec("__ROOT__"@, s@));
                }
                let ghost pre_scripts = self.scripts@;
                let ghost pre_self = *self;
                let ghost stack1 = stack@;
                self.add_script(&script);
                proof {
                    assert(self.scripts@.len() == pre_scripts.len() + 1);
                    assert forall|i: int| 0 <= i < pre_scripts.len() implies self.scripts@[i]
                        == pre_scripts[i] by {
                        assert(self.scripts@.take(pre_scripts.len() as int)[i] == self.scripts@[i]);
                    }
                    assert(self.scripts@.last()@ == script@);
                    lemma_unseeded_strict(
                        self.config.pipeline@,
                        pre_scripts,
                        self.scripts@,
                        s@,
                    );
                }
                match script.dependencies() {
                    Some(dep_names) => {
                        let mut di: usize = 0;
                        while di < dep_names.len()
                            invariant
                                di <= dep_names@.len(),
                                stack@.len() == stack1.len() + di,
                                stack@.take(stack1.len() as int) == stack1,
                                forall|k: int|
                                    0 <= k < di ==> stack@[stack1.len() + k]@ == dep_names@[k]@,
                            decreases dep_names@.len() - di,
                        {
                            let ghost pre_stack = stack@;
                            stack.push(dep_names[di].clone());
                            proof {
                                assert(stack@.take(stack1.len() as int) =~= pre_stack.take(
                                    stack1.len() as int,
                                ));
                            }
                            di = di + 1;
                        }
                        proof {
                            assert forall|d: int|
                                0 <= d < script@.same_dep_names().len() implies Self::stack_has(
                                stack@,
                                #[trigger] script@.same_dep_names()[d],
                            ) by {
                                assert(dep_names@.map_values(|x: String| x@)[d]
                                    == script@.same_dep_names()[d]);
                                assert(stack@[stack1.len() + d]@ == dep_names@[d]@);
                            }
                        }
                    },
                    None => {
                        proof {
                            assert(script@.config.dependencies is None);
                            assert(script@.same_dep_names() =~= Seq::<Seq<char>>::empty());
                            assert(stack@.take(stack1.len() as int) =~= stack1);
                        }
                    },
                }
                proof {
                    let pre_len = pre_scripts.len() as int;
                    assert(stack@.take(stack1.len() as int) == stack1);
                    assert(stack1 == stack0.take(stack0.len() - 1));
                    // entries kept from the old stack are still present
                    assert forall|dn: Seq<char>|
                        Self::stack_has(stack0, dn) implies Self::stack_has(stack@, dn)
                        || dn == s@ by {
                        let si = choose|si: int|
                            0 <= si < stack0.len() && (#[trigger] stack0[si])@ == dn;
                        if si < stack0.len() - 1 {
                            assert(stack@.take(stack1.len() as int)[si] == stack@[si]);
                            assert(stack0.take(stack0.len() - 1)[si] == stack0[si]);
                            assert(stack@[si] == stack0[si]);
                            assert(stack@[si]@ == dn);
                        }
                    }
                    assert(id_registered(self.scripts@, script_id_spec("__ROOT__"@, s@))) by {
                        assert(self.scripts@[self.scripts@.len() - 1]@.id_spec() == script_id_spec(
                            "__ROOT__"@,
                            s@,
                        ));
                    }
                    // the registered list: old records, plus the new root task
                    assert forall|i: int|
                        0 <= i < self.snap().len() implies (#[trigger] self.snap()[i]).package_name
                        =~= "__ROOT__"@ && self.config.pipeline_find(self.snap()[i].command)
                        == Some(self.snap()[i].config) && self.snap()[i].dir == dir0 by {
                        if i < pre_len {
                            assert(self.scripts@[i] == pre_scripts[i]);
                            assert(pre_self.snap()[i] == self.snap()[i]);
                            assert((#[trigger] pre_self.snap()[i]).package_name =~= "__ROOT__"@
                                && pre_self.config.pipeline_find(pre_self.snap()[i].command)
                                == Some(pre_self.snap()[i].config) && pre_self.snap()[i].dir
                                == dir0);
                        } else {
                            assert(self.snap()[i] == script@);
                            assert(script@.command == ccv.command);
                            assert(script@.config == ccv);
                        }
                    }
                    // every declared dependency is registered or queued
                    assert forall|i: int, d: int|
                        0 <= i < self.snap().len() && 0 <= d
                            < self.snap()[i].same_dep_names().len() implies id_registered(
                        self.scripts@,
                        script_id_spec(
                            "__ROOT__"@,
                            #[trigger] self.snap()[i].same_dep_names()[d],
                        ),
                    ) || Self::stack_has(stack@, self.snap()[i].same_dep_names()[d]) by {
                        let dn = self.snap()[i].same_dep_names()[d];
                        if i < pre_len {
                            assert(self.scripts@[i] == pre_scripts[i]);
                            assert(pre_self.snap()[i] == self.snap()[i]);
                            assert(pre_self.snap()[i].same_dep_names()[d] == dn);
                            assert(id_registered(
                                pre_scripts,
                                script_id_spec("__ROOT__"@, dn),
                            ) || Self::stack_has(stack0, dn));
                            if id_registered(pre_scripts, script_id_spec("__ROOT__"@, dn)) {
                                let j = choose|j: int|
                                    0 <= j < pre_scripts.len() && (#[trigger] pre_scripts[j])@.id_spec()
                                        == script_id_spec("__ROOT__"@, dn);
                                assert(self.scripts@[j] == pre_scripts[j]);
                            }
                        } else {
                            assert(self.snap()[i] == script@);
                            assert(Self::stack_has(stack@, dn));
                        }
                    }
                    // every requested task is registered or queued
                    assert forall|t2: int|
                        0 <= t2 < tasks@.len() implies id_registered(
                        self.scripts@,
                        script_id_spec("__ROOT__"@, (#[trigger] tasks@[t2])@),
                    ) || Self::stack_has(stack@, tasks@[t2]@) by {
                        if id_registered(pre_scripts, script_id_spec("__ROOT__"@, tasks@[t2]@)) {
                            let j = choose|j: int|
                                0 <= j < pre_scripts.len() && (#[trigger] pre_scripts[j])@.id_spec()
                                    == script_id_spec("__ROOT__"@, tasks@[t2]@);
                            assert(self.scripts@[j] == pre_scripts[j]);
                        } else {
                            assert(Self::stack_has(stack0, tasks@[t2]@));
                        }
                    }
                    // stack entries are requested names or declared dependencies
                    let pre_snap = pre_self.snap();
                    assert forall|si: int|
                        0 <= si < stack@.len() implies ((exists|t2: int|
                        0 <= t2 < tasks@.len() && (#[trigger] tasks@[t2])@ == (
                        #[trigger] stack@[si])@) || Self::dep_name_declared(
                        self.snap(),
                        stack@[si]@,
                    )) by {
                        if si < stack0.len() - 1 {
                            assert(stack@.take(stack1.len() as int)[si] == stack@[si]);
                            assert(stack0.take(stack0.len() - 1)[si] == stack0[si]);
                            assert(stack@[si] == stack0[si]);
                            if Self::dep_name_declared(pre_snap, stack0[si]@) {
                                let (i, d): (int, int) = choose|i: int, d: int|
                                    0 <= i < pre_snap.len() && 0 <= d
                                        < pre_snap[i].same_dep_names().len() && (
                                    #[trigger] pre_snap[i].same_dep_names()[d]) == stack0[si]@;
                                assert(self.scripts@[i] == pre_scripts[i]);
                                assert(self.snap()[i].same_dep_names()[d] == stack@[si]@);
                            }
                        } else {
                            // a dependency of the new script
                            let d = si - (stack0.len() - 1);
                            assert(self.snap()[self.snap().len() - 1] == script@);
                            assert(self.snap()[self.snap().len() - 1].same_dep_names()[d]
                                == stack@[si]@);
                        }
                    }
                }
            }
        }
        proof {
            assert forall|i: int, d: int|
                0 <= i < self.snap().len() && 0 <= d
                    < self.snap()[i].same_dep_names().len() implies self.config.pipeline_find(
                #[trigger] self.snap()[i].same_dep_names()[d],
            ) is Some
                && id_registered(
                self.scripts@,
                script_id_spec("__ROOT__"@, self.snap()[i].same_dep_names()[d]),
            ) by {
                let dn = self.snap()[i].same_dep_names()[d];
                assert(id_registered(self.scripts@, script_id_spec("__ROOT__"@, dn)));
                let j = choose|j: int|
                    0 <= j < self.scripts@.len() && (#[trigger] self.scripts@[j])@.id_spec()
                        == script_id_spec("__ROOT__"@, dn);
                assert(self.snap()[j].package_name =~= "__ROOT__"@);
                assert(script_id_spec(self.snap()[j].package_name, self.snap()[j].command)
                    == script_id_spec("__ROOT__"@, dn));
                lemma_script_id_injective_command("__ROOT__"@, self.snap()[j].command, dn);
                assert(self.config.pipeline_find(dn) is Some);
            }
        }
        Ok(())
    }

    /// A workspace record named `u` defines script `dn`.
    pub open spec fn ws_defines(self, u: Seq<char>, dn: Seq<char>) -> bool {
        exists|i: int|
            0 <= i < self.workspaces@.len() && (#[trigger] self.workspaces@[i]).name@ == u
                && self.workspaces@[i].script_names().contains(dn)
    }

    /// Registered task `x` and dependency name `dn` induce a topological
    /// edge from upstream package `u`: the task declares `dn` topologically,
    /// `u` is a direct upstream neighbor of the task's package in the
    /// package graph, and `u`'s workspace record defines `dn`.
    pub open spec fn topo_dep_at(self, x: int, u: Seq<char>, dn: Seq<char>) -> bool {
        &&& 0 <= x < self.snap().len()
        &&& self.snap()[x].topo_dep_names().contains(dn)
        &&& self.package_graph.has_edge_named(u, self.snap()[x].package_name)
        &&& self.ws_defines(u, dn)
    }

    /// `(from, to)` is an edge some topological dependency induces.
    pub open spec fn is_topo_dep_of(self, from: Seq<char>, to: Seq<char>) -> bool {
        exists|x: int, u: Seq<char>, dn: Seq<char>|
            #[trigger] self.topo_dep_at(x, u, dn) && from == script_id_spec(u, dn) && to
                == self.snap()[x].id_spec()
    }

    /// The first workspace record named `name`, if any.
    fn find_workspace(&self, name: &str) -> (r: Option<usize>)
        ensures
            match r {
                Some(i) => i < self.workspaces@.len() && self.workspaces@[i as int].name@ == name@,
                None => forall|i: int|
                    0 <= i < self.workspaces@.len() ==> (#[trigger] self.workspaces@[i]).name@
                        != name@,
            },
    {
        let mut i: usize = 0;
        while i < self.workspaces.len()
            invariant
                i <= self.workspaces@.len(),
                forall|k: int|
                    0 <= k < i ==> (#[trigger] self.workspaces@[k]).name@ != name@,
            decreases self.workspaces@.len() - i,
        {
            if graph::str_eq(self.workspaces[i].name.as_str(), name) {
                return Some(i);
            }
            i = i + 1;
        }
        None
    }

    /// Records the pending edges that one topological dependency name of
    /// task `x` induces: one per direct upstream package defining `dn`.
    fn push_topo_dep_name(&mut self, x: usize, dn: &String, to_id: &String)
        requires
            old(self).wf(),
            (x as int) < old(self).snap().len(),
            old(self).snap()[x as int].topo_dep_names().contains(dn@),
            to_id@ == old(self).snap()[x as int].id_spec(),
        ensures
            final(self).wf(),
            final(self).scripts@ == old(self).scripts@,
            final(self).task_graph == old(self).task_graph,
            final(self).package_graph == old(self).package_graph,
            final(self).config == old(self).config,
            final(self).workspaces == old(self).workspaces,
            final(self).called_script == old(self).called_script,
            final(self).dir == old(self).dir,
            old(self).deps@.len() <= final(self).deps@.len(),
            final(self).deps@.take(old(self).deps@.len() as int) == old(self).deps@,
            forall|k: int|
                old(self).deps@.len() <= k < final(self).deps@.len() ==> old(self).is_topo_dep_of(
                    (#[trigger] final(self).deps@[k]).0@,
                    final(self).deps@[k].1@,
                ),
            forall|u: Seq<char>|
                #[trigger] old(self).topo_dep_at(x as int, u, dn@) ==> deps_views(
                    final(self).deps@,
                ).contains((script_id_spec(u, dn@), old(self).snap()[x as int].id_spec())),
    {
        let ghost deps0 = self.deps@;
        let ghost pkg = old(self).snap()[x as int].package_name;
        match self.package_graph.find_node_index(self.scripts[x].package_name.as_str()) {
            None => {
                proof {
                    assert forall|u: Seq<char>|
                        #[trigger] old(self).topo_dep_at(x as int, u, dn@) implies deps_views(
                        self.deps@,
                    ).contains((script_id_spec(u, dn@), old(self).snap()[x as int].id_spec())) by {
                        let j = choose|j: int|
                            0 <= j < self.package_graph.edges@.len()
                                && self.package_graph.names()[(#[trigger] self.package_graph.edges@[j]).0 as int]
                                == u && self.package_graph.names()[self.package_graph.edges@[j].1 as int]
                                == pkg;
                        assert(self.package_graph.names()[self.package_graph.edges@[j].1 as int]
                            != pkg);
                    }
                }
            },
            Some(pidx) => {
                let parents = self.package_graph.preds_of(pidx);
                let ghost pg = self.package_graph;
                proof {
                    assert forall|q: int|
                        0 <= q < parents@.len() implies (#[trigger] parents@[q]) < pg.n() by {
                        graph::lemma_preds_spec_membership(pg.edges@, pidx, parents@[q]);
                        assert(parents@.contains(parents@[q]));
                        let j = choose|j: int|
                            0 <= j < pg.edges@.len() && #[trigger] pg.edges@[j] == (
                            parents@[q],
                            pidx,
                            );
                    }
                }
                let mut p: usize = 0;
                while p < parents.len()
                    invariant
                        old(self).wf(),
                        self.wf(),
                        p <= parents@.len(),
                        (x as int) < old(self).snap().len(),
                        old(self).snap()[x as int].topo_dep_names().contains(dn@),
                        to_id@ == old(self).snap()[x as int].id_spec(),
                        pkg == old(self).snap()[x as int].package_name,
                        deps0 == old(self).deps@,
                        pg == old(self).package_graph,
                        (pidx as int) < pg.n(),
                        pg.names()[pidx as int] == pkg,
                        forall|k: int| 0 <= k < pidx ==> pg.names()[k] != pkg,
                        parents@ == graph::preds_spec(pg.edges@, pidx),
                        forall|q: int|
                            0 <= q < parents@.len() ==> (#[trigger] parents@[q]) < pg.n(),
                        self.scripts@ == old(self).scripts@,
                        self.task_graph == old(self).task_graph,
                        self.package_graph == old(self).package_graph,
                        self.config == old(self).config,
                        self.workspaces == old(self).workspaces,
                        self.called_script == old(self).called_script,
                        self.dir == old(self).dir,
                        deps0.len() <= self.deps@.len(),
                        self.deps@.take(deps0.len() as int) == deps0,
                        forall|k: int|
                            deps0.len() <= k < self.deps@.len() ==> old(self).is_topo_dep_of(
                                (#[trigger] self.deps@[k]).0@,
                                self.deps@[k].1@,
                            ),
                        forall|q: int|
                            0 <= q < p ==> (!old(self).ws_defines(
                                pg.names()[#[trigger] parents@[q] as int],
                                dn@,
                            ) || deps_views(self.deps@).contains(
                                (
                                    script_id_spec(pg.names()[parents@[q] as int], dn@),
                                    old(self).snap()[x as int].id_spec(),
                                ),
                            )),
                    decreases parents@.len() - p,
                {
                    let parent_idx = parents[p];
                    proof {
                        assert(parents@[p as int] < pg.n());
                    }
                    let parent_name = self.package_graph.nodes[parent_idx].clone();
                    proof {
                        assert(parent_name@ == pg.names()[parents@[p as int] as int]);
                    }
                    let mut qualifies: bool = false;
                    match self.find_workspace(parent_name.as_str()) {
                        Some(wi) => {
                            if self.workspaces[wi].defines_script(dn.as_str()) {
                                qualifies = true;
                                proof {
                                    assert(old(self).ws_defines(parent_name@, dn@));
                                }
                            } else {
                                proof {
                                    assert(!old(self).ws_defines(parent_name@, dn@)) by {
                                        if old(self).ws_defines(parent_name@, dn@) {
                                            let i2 = choose|i2: int|
                                                0 <= i2 < old(self).workspaces@.len() && (
                                                #[trigger] old(self).workspaces@[i2]).name@
                                                    == parent_name@ && old(self).workspaces@[i2].script_names().contains(dn@);
                                            assert(old(self).workspaces@[wi as int].name@
                                                == parent_name@);
                                            assert(i2 == wi as int);
                                        }
                                    }
                                }
                            }
                        },
                        None => {
                            proof {
                                assert(!old(self).ws_defines(parent_name@, dn@)) by {
                                    if old(self).ws_defines(parent_name@, dn@) {
                                        let i2 = choose|i2: int|
                                            0 <= i2 < old(self).workspaces@.len() && (
                                            #[trigger] old(self).workspaces@[i2]).name@
                                                == parent_name@ && old(self).workspaces@[i2].script_names().contains(dn@);
                                    }
                                }
                            }
                        },
                    }
                    if qualifies {
                        let from_id = make_script_id(parent_name.as_str(), dn.as_str());
                        let ghost pre_deps = self.deps@;
                        self.deps.push((from_id, to_id.clone()));
                        proof {
                            assert(self.deps@.take(deps0.len() as int) =~= pre_deps.take(
                                deps0.len() as int,
                            ));
                            assert(self.deps@.take(pre_deps.len() as int) =~= pre_deps);
                            let nk = self.deps@.len() - 1;
                            assert(old(self).topo_dep_at(x as int, parent_name@, dn@)) by {
                                graph::lemma_preds_spec_membership(
                                    pg.edges@,
                                    pidx,
                                    parents@[p as int],
                                );
                                assert(parents@.contains(parents@[p as int]));
                                let j = choose|j: int|
                                    0 <= j < pg.edges@.len() && #[trigger] pg.edges@[j] == (
                                    parents@[p as int],
                                    pidx,
                                    );
                                assert(pg.names()[(pg.edges@[j]).0 as int] == parent_name@);
                                assert(pg.names()[(pg.edges@[j]).1 as int] == pkg);
                                assert(pg.has_edge_named(parent_name@, pkg));
                            }
                            assert(self.deps@[nk].0@ == script_id_spec(parent_name@, dn@));
                            assert(self.deps@[nk].1@ == old(self).snap()[x as int].id_spec());
                            assert(deps_views(self.deps@)[nk] == (
                                script_id_spec(parent_name@, dn@),
                                old(self).snap()[x as int].id_spec(),
                            ));
                            assert forall|k: int|
                                deps0.len() <= k < self.deps@.len() implies old(self).is_topo_dep_of(
                                (#[trigger] self.deps@[k]).0@,
                                self.deps@[k].1@,
                            ) by {
                                if k < nk {
                                    assert(self.deps@[k] == pre_deps[k]);
                                }
                            }
                            assert forall|q: int|
                                0 <= q < p + 1 implies (!old(self).ws_defines(
                                pg.names()[#[trigger] parents@[q] as int],
                                dn@,
                            ) || deps_views(self.deps@).contains(
                                (
                                    script_id_spec(pg.names()[parents@[q] as int], dn@),
                                    old(self).snap()[x as int].id_spec(),
                                ),
                            )) by {
                                if q < p {
                                    if deps_views(pre_deps).contains(
                                        (
                                            script_id_spec(pg.names()[parents@[q] as int], dn@),
                                            old(self).snap()[x as int].id_spec(),
                                        ),
                                    ) {
                                        lemma_deps_contains_extend(
                                            pre_deps,
                                            self.deps@,
                                            (
                                                script_id_spec(
                                                    pg.names()[parents@[q] as int],
                                                    dn@,
                                                ),
                                                old(self).snap()[x as int].id_spec(),
                                            ),
                                        );
                                    }
                                }
                            }
                        }
                    }
                    p = p + 1;
                }
                proof {
                    assert forall|u: Seq<char>|
                        #[trigger] old(self).topo_dep_at(x as int, u, dn@) implies deps_views(
                        self.deps@,
                    ).contains((script_id_spec(u, dn@), old(self).snap()[x as int].id_spec())) by {
                        let j = choose|j: int|
                            0 <= j < pg.edges@.len()
                                && pg.names()[(#[trigger] pg.edges@[j]).0 as int] == u
                                && pg.names()[pg.edges@[j].1 as int] == pkg;
                        let a = pg.edges@[j].0;
                        assert(pg.edges@[j].1 as int == pidx as int) by {
                            let b = pg.edges@[j].1;
                            if (b as int) < (pidx as int) {
                                assert(pg.names()[b as int] != pkg);
                            }
                            if (pidx as int) < (b as int) {
                                assert(pg.names()[pidx as int] != pg.names()[b as int]);
                            }
                        }
                        assert(pg.edges@[j] == (a, pidx));
                        graph::lemma_preds_spec_membership(pg.edges@, pidx, a);
                        assert(parents@.contains(a));
                        let q = choose|q: int| 0 <= q < parents@.len() && parents@[q] == a;
                        assert(pg.names()[parents@[q] as int] == u);
                        assert(old(self).ws_defines(pg.names()[parents@[q] as int], dn@));
                    }
                }
            },
        }
    }

    /// Expands topological dependencies: for every registered task and each
    /// of its topological dependency names, records one pending edge from
    /// every direct upstream package that defines that script, and none
    /// otherwise.
    pub fn add_topo_task_deps(&mut self)
        requires
            old(self).wf(),
        ensures
            final(self).wf(),
            final(self).scripts@ == old(self).scripts@,
            final(self).task_graph == old(self).task_graph,
            final(self).package_graph == old(self).package_graph,
            final(self).config == old(self).config,
            final(self).workspaces == old(self).workspaces,
            final(self).called_script == old(self).called_script,
            final(self).dir == old(self).dir,
            old(self).deps@.len() <= final(self).deps@.len(),
            final(self).deps@.take(old(self).deps@.len() as int) == old(self).deps@,
            forall|k: int|
                old(self).deps@.len() <= k < final(self).deps@.len() ==> old(self).is_topo_dep_of(
                    (#[trigger] final(self).deps@[k]).0@,
                    final(self).deps@[k].1@,
                ),
            forall|x: int, u: Seq<char>, dn: Seq<char>|
                #[trigger] old(self).topo_dep_at(x, u, dn) ==> deps_views(
                    final(self).deps@,
                ).contains((script_id_spec(u, dn), old(self).snap()[x].id_spec())),
    {
        let ghost deps0 = self.deps@;
        let mut x: usize = 0;
        while x < self.scripts.len()
            invariant
                old(self).wf(),
                self.wf(),
                x <= old(self).snap().len(),
                deps0 == old(self).deps@,
                self.scripts@ == old(self).scripts@,
                self.task_graph == old(self).task_graph,
                self.package_graph == old(self).package_graph,
                self.config == old(self).config,
                self.workspaces == old(self).workspaces,
                self.called_script == old(self).called_script,
                self.dir == old(self).dir,
                deps0.len() <= self.deps@.len(),
                self.deps@.take(deps0.len() as int) == deps0,
                forall|k: int|
                    deps0.len() <= k < self.deps@.len() ==> old(self).is_topo_dep_of(
                        (#[trigger] self.deps@[k]).0@,
                        self.deps@[k].1@,
                    ),
                forall|x2: int, u: Seq<char>, dn: Seq<char>|
                    (#[trigger] old(self).topo_dep_at(x2, u, dn)) && x2 < x ==> deps_views(
                        self.deps@,
                    ).contains((script_id_spec(u, dn), old(self).snap()[x2].id_spec())),
            decreases old(self).snap().len() - x,
        {
            let to_id = self.scripts[x].id();
            match self.scripts[x].topological_dependencies() {
                Some(topo_names) => {
                    let mut t: usize = 0;
                    while t < topo_names.len()
                        invariant
                            old(self).wf(),
                            self.wf(),
                            x < old(self).snap().len(),
                            t <= topo_names@.len(),
                            deps0 == old(self).deps@,
                            to_id@ == old(self).snap()[x as int].id_spec(),
                            topo_names@.map_values(|s: String| s@) == old(self).snap()[x as int].topo_dep_names(),
                            self.scripts@ == old(self).scripts@,
                            self.task_graph == old(self).task_graph,
                            self.package_graph == old(self).package_graph,
                            self.config == old(self).config,
                            self.workspaces == old(self).workspaces,
                            self.called_script == old(self).called_script,
                            self.dir == old(self).dir,
                            deps0.len() <= self.deps@.len(),
                            self.deps@.take(deps0.len() as int) == deps0,
                            forall|k: int|
                                deps0.len() <= k < self.deps@.len() ==> old(self).is_topo_dep_of(
                                    (#[trigger] self.deps@[k]).0@,
                                    self.deps@[k].1@,
                                ),
                            forall|x2: int, u: Seq<char>, dn: Seq<char>|
                                (#[trigger] old(self).topo_dep_at(x2, u, dn)) && x2 < x
                                    ==> deps_views(self.deps@).contains(
                                    (script_id_spec(u, dn), old(self).snap()[x2].id_spec()),
                                ),
                            forall|u: Seq<char>, dn: Seq<char>|
                                (#[trigger] old(self).topo_dep_at(x as int, u, dn)) && (exists|
                                    t2: int,
                                |
                                    0 <= t2 < t && topo_names@[t2]@ == dn) ==> deps_views(
                                    self.deps@,
                                ).contains(
                                    (script_id_spec(u, dn), old(self).snap()[x as int].id_spec()),
                                ),
                        decreases topo_names@.len() - t,
                    {
                        let ghost mid_self = *self;
                        let ghost pre_deps = self.deps@;
                        let ghost dnv = topo_names@[t as int]@;
                        proof {
                            assert(old(self).snap()[x as int].topo_dep_names()[t as int] == dnv);
                            assert(old(self).snap()[x as int].topo_dep_names().contains(dnv));
                            assert(mid_self.snap() == old(self).snap());
                            assert(mid_self.workspaces@ == old(self).workspaces@);
                            assert(mid_self.package_graph == old(self).package_graph);
                        }
                        let dn_ref = &topo_names[t];
                        self.push_topo_dep_name(x, dn_ref, &to_id);
                        proof {
                            lemma_prefix_chain(deps0, pre_deps, self.deps@);
                            assert forall|k: int|
                                deps0.len() <= k < self.deps@.len() implies old(self).is_topo_dep_of(
                                (#[trigger] self.deps@[k]).0@,
                                self.deps@[k].1@,
                            ) by {
                                if k < pre_deps.len() {
                                    assert(self.deps@[k] == pre_deps[k]);
                                } else {
                                    assert(mid_self.is_topo_dep_of(
                                        self.deps@[k].0@,
                                        self.deps@[k].1@,
                                    ));
                                    let (x2, u, dn): (int, Seq<char>, Seq<char>) = choose|
                                        x2: int,
                                        u: Seq<char>,
                                        dn: Seq<char>,
                                    |
                                        #[trigger] mid_self.topo_dep_at(x2, u, dn)
                                            && self.deps@[k].0@ == script_id_spec(u, dn)
                                            && self.deps@[k].1@ == mid_self.snap()[x2].id_spec();
                                    assert(old(self).topo_dep_at(x2, u, dn));
                                }
                            }
                            assert forall|x2: int, u: Seq<char>, dn: Seq<char>|
                                (#[trigger] old(self).topo_dep_at(x2, u, dn)) && x2
                                    < x implies deps_views(self.deps@).contains(
                                (script_id_spec(u, dn), old(self).snap()[x2].id_spec()),
                            ) by {
                                lemma_deps_contains_extend(
                                    pre_deps,
                                    self.deps@,
                                    (script_id_spec(u, dn), old(self).snap()[x2].id_spec()),
                                );
                            }
                            assert forall|u: Seq<char>, dn: Seq<char>|
                                (#[trigger] old(self).topo_dep_at(x as int, u, dn)) && (exists|
                                    t2: int,
                                |
                                    0 <= t2 < t + 1 && topo_names@[t2]@ == dn) implies deps_views(
                                self.deps@,
                            ).contains(
                                (script_id_spec(u, dn), old(self).snap()[x as int].id_spec()),
                            ) by {
                                let t2 = choose|t2: int|
                                    0 <= t2 < t + 1 && topo_names@[t2]@ == dn;
                                if t2 < t {
                                    lemma_deps_contains_extend(
                                        pre_deps,
                                        self.deps@,
                                        (
                                            script_id_spec(u, dn),
                                            old(self).snap()[x as int].id_spec(),
                                        ),
                                    );
                                } else {
                                    assert(dn == dnv);
                                    assert(mid_self.topo_dep_at(x as int, u, dnv));
                                    assert(deps_views(self.deps@).contains(
                                        (
                                            script_id_spec(u, dnv),
                                            mid_self.snap()[x as int].id_spec(),
                                        ),
                                    ));
                                }
                            }
                        }
                        t = t + 1;
                    }
                    proof {
                        assert forall|u: Seq<char>, dn: Seq<char>|
                            (#[trigger] old(self).topo_dep_at(x as int, u, dn)) implies deps_views(
                            self.deps@,
                        ).contains(
                            (script_id_spec(u, dn), old(self).snap()[x as int].id_spec()),
                        ) by {
                            assert(old(self).snap()[x as int].topo_dep_names().contains(dn));
                            let t2 = choose|t2: int|
                                0 <= t2 < old(self).snap()[x as int].topo_dep_names().len() && old(self).snap()[x as int].topo_dep_names()[t2] == dn;
                            assert(topo_names@[t2]@ == dn);
                        }
                    }
                },
                None => {
                    proof {
                        assert forall|u: Seq<char>, dn: Seq<char>|
                            (#[trigger] old(self).topo_dep_at(x as int, u, dn)) implies deps_views(
                            self.deps@,
                        ).contains(
                            (script_id_spec(u, dn), old(self).snap()[x as int].id_spec()),
                        ) by {
                            assert(old(self).snap()[x as int].config.dependencies is None);
                            assert(old(self).snap()[x as int].topo_dep_names()
                                =~= Seq::<Seq<char>>::empty());
                        }
                    }
                },
            }
            x = x + 1;
        }
    }

    /// Registers every collected task, in order.
    fn register_fanout(&mut self, to_add: &Vec<Script>)
        requires
            old(self).wf(),
            forall|y: int|
                0 <= y < to_add@.len() ==> (#[trigger] to_add@[y])@.package_name != "__ROOT__"@,
        ensures
            final(self).wf(),
            final(self).deps@ == old(self).deps@,
            final(self).task_graph.edges@ == old(self).task_graph.edges@,
            final(self).package_graph == old(self).package_graph,
            final(self).config == old(self).config,
            final(self).workspaces == old(self).workspaces,
            final(self).called_script == old(self).called_script,
            final(self).dir == old(self).dir,
            forall|id: Seq<char>|
                #![trigger final(self).registry().dom().contains(id)]
                final(self).registry().dom().contains(id) <==> old(self).registry().dom().contains(
                    id,
                ) || (exists|y2: int|
                    0 <= y2 < to_add@.len() && (#[trigger] to_add@[y2])@.id_spec() == id),
            forall|id: Seq<char>|
                #![trigger final(self).registry().dom().contains(id)]
                final(self).registry().dom().contains(id) && !old(self).registry().dom().contains(
                    id,
                ) ==> (exists|y2: int|
                    0 <= y2 < to_add@.len() && (#[trigger] to_add@[y2])@.id_spec() == id && final(self).registry()[id] == to_add@[y2]@),
            forall|id: Seq<char>|
                #![trigger old(self).registry().dom().contains(id)]
                old(self).registry().dom().contains(id) && (forall|y2: int|
                    0 <= y2 < to_add@.len() ==> (#[trigger] to_add@[y2])@.id_spec() != id)
                    ==> final(self).registry().dom().contains(id) && final(self).registry()[id]
                    == old(self).registry()[id],
            forall|nm: Seq<char>|
                #![trigger final(self).task_graph.names().contains(nm)]
                final(self).task_graph.names().contains(nm) <==> old(self).task_graph.names().contains(nm) || (exists|y2: int|
                    0 <= y2 < to_add@.len() && (#[trigger] to_add@[y2])@.id_spec() == nm),
    {
        let ghost reg0 = old(self).registry();
        let ghost names0 = old(self).task_graph.names();
        let mut y: usize = 0;
        while y < to_add.len()
            invariant
                old(self).wf(),
                self.wf(),
                y <= to_add@.len(),
                reg0 == old(self).registry(),
                names0 == old(self).task_graph.names(),
                self.deps@ == old(self).deps@,
                self.task_graph.edges@ == old(self).task_graph.edges@,
                self.package_graph == old(self).package_graph,
                self.config == old(self).config,
                self.workspaces == old(self).workspaces,
                self.called_script == old(self).called_script,
                self.dir == old(self).dir,
                forall|y2: int|
                    0 <= y2 < to_add@.len() ==> (#[trigger] to_add@[y2])@.package_name
                        != "__ROOT__"@,
                forall|id: Seq<char>|
                    #![trigger self.registry().dom().contains(id)]
                    self.registry().dom().contains(id) <==> reg0.dom().contains(id) || (exists|
                        y2: int,
                    |
                        0 <= y2 < y && (#[trigger] to_add@[y2])@.id_spec() == id),
                forall|id: Seq<char>|
                    #![trigger self.registry().dom().contains(id)]
                    self.registry().dom().contains(id) && !reg0.dom().contains(id) ==> (exists|
                        y2: int,
                    |
                        0 <= y2 < y && (#[trigger] to_add@[y2])@.id_spec() == id
                            && self.registry()[id] == to_add@[y2]@),
                forall|id: Seq<char>|
                    #![trigger reg0.dom().contains(id)]
                    reg0.dom().contains(id) && (forall|y2: int|
                        0 <= y2 < y ==> (#[trigger] to_add@[y2])@.id_spec() != id)
                        ==> self.registry().dom().contains(id) && self.registry()[id] == reg0[id],
                forall|nm: Seq<char>|
                    #![trigger self.task_graph.names().contains(nm)]
                    self.task_graph.names().contains(nm) <==> names0.contains(nm) || (exists|
                        y2: int,
                    |
                        0 <= y2 < y && (#[trigger] to_add@[y2])@.id_spec() == nm),
            decreases to_add@.len() - y,
        {
            let ghost pre = *self;
            self.add_script(&to_add[y]);
            proof {
                let yv = to_add@[y as int]@;
                let idy = yv.id_spec();
                assert(self.registry() =~= pre.registry().insert(idy, yv));
                assert forall|id: Seq<char>|
                    #![trigger self.registry().dom().contains(id)]
                    self.registry().dom().contains(id) <==> reg0.dom().contains(id) || (exists|
                    y2: int,
                |
                    0 <= y2 < y + 1 && (#[trigger] to_add@[y2])@.id_spec() == id) by {
                    if id == idy {
                        assert(to_add@[y as int]@.id_spec() == id);
                    } else {
                        if exists|y2: int|
                            0 <= y2 < y + 1 && (#[trigger] to_add@[y2])@.id_spec() == id {
                            let y2 = choose|y2: int|
                                0 <= y2 < y + 1 && (#[trigger] to_add@[y2])@.id_spec() == id;
                            assert(y2 < y);
                            assert(pre.registry().dom().contains(id));
                        }
                        if reg0.dom().contains(id) || (exists|y2: int|
                            0 <= y2 < y && (#[trigger] to_add@[y2])@.id_spec() == id) {
                            assert(pre.registry().dom().contains(id));
                        }
                    }
                }
                assert forall|id: Seq<char>|
                    #![trigger self.registry().dom().contains(id)]
                    self.registry().dom().contains(id) && !reg0.dom().contains(id) implies (exists|
                    y2: int,
                |
                    0 <= y2 < y + 1 && (#[trigger] to_add@[y2])@.id_spec() == id
                        && self.registry()[id] == to_add@[y2]@) by {
                    if id == idy {
                        assert(to_add@[y as int]@.id_spec() == id && self.registry()[id]
                            == to_add@[y as int]@);
                    } else {
                        assert(pre.registry().dom().contains(id));
                        let y2 = choose|y2: int|
                            0 <= y2 < y && (#[trigger] to_add@[y2])@.id_spec() == id
                                && pre.registry()[id] == to_add@[y2]@;
                        assert(self.registry()[id] == pre.registry()[id]);
                    }
                }
                assert forall|id: Seq<char>|
                    #![trigger reg0.dom().contains(id)]
                    reg0.dom().contains(id) && (forall|y2: int|
                        0 <= y2 < y + 1 ==> (#[trigger] to_add@[y2])@.id_spec() != id)
                        implies self.registry().dom().contains(id) && self.registry()[id]
                        == reg0[id] by {
                    assert(to_add@[y as int]@.id_spec() != id);
                    assert(id != idy);
                    assert(pre.registry().dom().contains(id) && pre.registry()[id] == reg0[id]);
                }
                assert forall|nm: Seq<char>|
                    #![trigger self.task_graph.names().contains(nm)]
                    self.task_graph.names().contains(nm) <==> names0.contains(nm) || (exists|
                    y2: int,
                |
                    0 <= y2 < y + 1 && (#[trigger] to_add@[y2])@.id_spec() == nm) by {
                    assert(yv.package_name != "__ROOT__"@);
                    if pre.task_graph.names().contains(idy) {
                        assert(self.task_graph.names() =~= pre.task_graph.names());
                        if nm == idy {
                            assert(to_add@[y as int]@.id_spec() == nm);
                            assert(self.task_graph.names().contains(nm));
                        }
                        if exists|y2: int|
                            0 <= y2 < y + 1 && (#[trigger] to_add@[y2])@.id_spec() == nm {
                            let y2 = choose|y2: int|
                                0 <= y2 < y + 1 && (#[trigger] to_add@[y2])@.id_spec() == nm;
                            if y2 < y {
                            } else {
                                assert(nm == idy);
                            }
                        }
                    } else {
                        assert(self.task_graph.names() =~= pre.task_graph.names().push(idy));
                        if self.task_graph.names().contains(nm) {
                            let q = choose|q: int|
                                0 <= q < self.task_graph.names().len()
                                    && self.task_graph.names()[q] == nm;
                            if q < pre.task_graph.names().len() {
                                assert(pre.task_graph.names()[q] == nm);
                                assert(pre.task_graph.names().contains(nm));
                            } else {
                                assert(nm == idy);
                                assert(to_add@[y as int]@.id_spec() == nm);
                            }
                        }
                        if names0.contains(nm) || (exists|y2: int|
                            0 <= y2 < y && (#[trigger] to_add@[y2])@.id_spec() == nm) {
                            assert(pre.task_graph.names().contains(nm));
                            let q = choose|q: int|
                                0 <= q < pre.task_graph.names().len()
                                    && pre.task_graph.names()[q] == nm;
                            assert(self.task_graph.names()[q] == nm);
                        }
                        if nm == idy {
                            assert(self.task_graph.names()[pre.task_graph.names().len() as int]
                                == nm);
                        }
                    }
                }
            }
            y = y + 1;
        }
    }

    /// Fans the registered tasks out over the workspace: for every package
    /// that defines the requested root script, each registered task whose
    /// command the package also defines is cloned, re-homed to that package
    /// and its directory, and registered; its declared same-package
    /// dependencies that the package defines become pending edges.
    pub fn resolve_workspace_scripts(&mut self)
        requires
            old(self).wf(),
        ensures
            final(self).wf(),
            final(self).task_graph.edges@ == old(self).task_graph.edges@,
            final(self).package_graph == old(self).package_graph,
            final(self).config == old(self).config,
            final(self).workspaces == old(self).workspaces,
            final(self).called_script == old(self).called_script,
            final(self).dir == old(self).dir,
            old(self).deps@.len() <= final(self).deps@.len(),
            final(self).deps@.take(old(self).deps@.len() as int) == old(self).deps@,
            forall|k: int|
                old(self).deps@.len() <= k < final(self).deps@.len() ==> old(self).is_fanout_dep_of(
                    (#[trigger] final(self).deps@[k]).0@,
                    final(self).deps@[k].1@,
                ),
            forall|w: int, x: int, dn: Seq<char>|
                #[trigger] old(self).fanout_dep_at(w, x, dn) ==> deps_views(
                    final(self).deps@,
                ).contains((old(self).fanout_dep_from(w, dn), old(self).fanout_id(w, x))),
            forall|id: Seq<char>|
                #![trigger final(self).registry().dom().contains(id)]
                final(self).registry().dom().contains(id) <==> old(self).registry().dom().contains(
                    id,
                ) || old(self).is_fanout_id_of(id),
            forall|id: Seq<char>|
                #![trigger final(self).registry().dom().contains(id)]
                final(self).registry().dom().contains(id) && !old(self).registry().dom().contains(
                    id,
                ) ==> old(self).fanout_value_ok(id, final(self).registry()[id]),
            forall|id: Seq<char>|
                #![trigger old(self).registry().dom().contains(id)]
                old(self).registry().dom().contains(id) && !old(self).is_fanout_id_of(id) ==> final(self).registry().dom().contains(id) && final(self).registry()[id] == old(self).registry()[id],
            forall|nm: Seq<char>|
                #![trigger final(self).task_graph.names().contains(nm)]
                final(self).task_graph.names().contains(nm) <==> old(self).task_graph.names().contains(nm) || old(self).is_fanout_id_of(nm),
    {
        let to_add = self.collect_fanout();
        proof {
            assert forall|y: int|
                0 <= y < to_add@.len() implies (#[trigger] to_add@[y])@.package_name
                != "__ROOT__"@ by {
                let (w2, x2): (int, int) = choose|w2: int, x2: int|
                    #[trigger] old(self).fanout_at(w2, x2) && to_add@[y]@ == rebound_script(
                        old(self).snap()[x2],
                        old(self).workspaces@[w2],
                    );
                assert((#[trigger] old(self).workspaces@[w2]).name@ != "__ROOT__"@);
            }
        }
        let ghost mid = *self;
        self.register_fanout(&to_add);
        proof {
            assert(mid.registry() == old(self).registry());
            assert(mid.task_graph.names() == old(self).task_graph.names());
            assert forall|id: Seq<char>|
                #![trigger self.registry().dom().contains(id)]
                self.registry().dom().contains(id) <==> (old(self).registry().dom().contains(id)
                    || old(self).is_fanout_id_of(id)) by {
                assert(mid.registry().dom().contains(id) == old(self).registry().dom().contains(
                    id,
                ));
                if self.registry().dom().contains(id) && !old(self).registry().dom().contains(id) {
                    let y2 = choose|y2: int|
                        0 <= y2 < to_add@.len() && (#[trigger] to_add@[y2])@.id_spec() == id;
                    let (w2, x2): (int, int) = choose|w2: int, x2: int|
                        #[trigger] old(self).fanout_at(w2, x2) && to_add@[y2]@ == rebound_script(
                            old(self).snap()[x2],
                            old(self).workspaces@[w2],
                        );
                    assert(old(self).fanout_id(w2, x2) == id);
                }
                if old(self).is_fanout_id_of(id) {
                    let (w2, x2): (int, int) = choose|w2: int, x2: int|
                        #[trigger] old(self).fanout_at(w2, x2) && id == old(self).fanout_id(
                            w2,
                            x2,
                        );
                    let y2 = choose|y2: int|
                        0 <= y2 < to_add@.len() && to_add@[y2]@ == rebound_script(
                            old(self).snap()[x2],
                            old(self).workspaces@[w2],
                        );
                    assert(to_add@[y2]@.id_spec() == id);
                }
            }
            assert forall|id: Seq<char>|
                #![trigger self.registry().dom().contains(id)]
                self.registry().dom().contains(id) && !old(self).registry().dom().contains(
                    id,
                ) implies old(self).fanout_value_ok(id, self.registry()[id]) by {
                assert(mid.registry().dom().contains(id) == old(self).registry().dom().contains(
                    id,
                ));
                let y2 = choose|y2: int|
                    0 <= y2 < to_add@.len() && (#[trigger] to_add@[y2])@.id_spec() == id
                        && self.registry()[id] == to_add@[y2]@;
                let (w2, x2): (int, int) = choose|w2: int, x2: int|
                    #[trigger] old(self).fanout_at(w2, x2) && to_add@[y2]@ == rebound_script(
                        old(self).snap()[x2],
                        old(self).workspaces@[w2],
                    );
                assert(old(self).fanout_id(w2, x2) == id);
            }
            assert forall|id: Seq<char>|
                #![trigger old(self).registry().dom().contains(id)]
                old(self).registry().dom().contains(id) && !old(self).is_fanout_id_of(
                    id,
                ) implies self.registry().dom().contains(id) && self.registry()[id] == old(self).registry()[id] by {
                assert(mid.registry().dom().contains(id) == old(self).registry().dom().contains(
                    id,
                ));
                assert forall|y2: int|
                    0 <= y2 < to_add@.len() implies (#[trigger] to_add@[y2])@.id_spec() != id by {
                    if to_add@[y2]@.id_spec() == id {
                        let (w2, x2): (int, int) = choose|w2: int, x2: int|
                            #[trigger] old(self).fanout_at(w2, x2) && to_add@[y2]@
                                == rebound_script(
                                old(self).snap()[x2],
                                old(self).workspaces@[w2],
                            );
                        assert(old(self).fanout_id(w2, x2) == id);
                        assert(old(self).is_fanout_id_of(id));
                    }
                }
            }
            assert forall|nm: Seq<char>|
                #![trigger self.task_graph.names().contains(nm)]
                self.task_graph.names().contains(nm) <==> (old(self).task_graph.names().contains(
                    nm,
                ) || old(self).is_fanout_id_of(nm)) by {
                assert(mid.task_graph.names().contains(nm) == old(self).task_graph.names().contains(nm));
                if self.task_graph.names().contains(nm) && !old(self).task_graph.names().contains(
                    nm,
                ) {
                    let y2 = choose|y2: int|
                        0 <= y2 < to_add@.len() && (#[trigger] to_add@[y2])@.id_spec() == nm;
                    let (w2, x2): (int, int) = choose|w2: int, x2: int|
                        #[trigger] old(self).fanout_at(w2, x2) && to_add@[y2]@ == rebound_script(
                            old(self).snap()[x2],
                            old(self).workspaces@[w2],
                        );
                    assert(old(self).fanout_id(w2, x2) == nm);
                }
                if old(self).is_fanout_id_of(nm) {
                    let (w2, x2): (int, int) = choose|w2: int, x2: int|
                        #[trigger] old(self).fanout_at(w2, x2) && nm == old(self).fanout_id(
                            w2,
                            x2,
                        );
                    let y2 = choose|y2: int|
                        0 <= y2 < to_add@.len() && to_add@[y2]@ == rebound_script(
                            old(self).snap()[x2],
                            old(self).workspaces@[w2],
                        );
                    assert(to_add@[y2]@.id_spec() == nm);
                }
            }
        }
    }

    /// Walks the frozen task graph in its stored topological order: every
    /// task launches strictly after all of its predecessors, every task's
    /// status reaches `Finished`, and—unless this is a dry run—each task's
    /// command is handed to the runner exactly once, in launch order.  A dry
    /// run performs the same sequencing but invokes nothing.
    #[verifier::rlimit(100)]
    pub fn execute(&mut self, dry_run: bool) -> (r: ExecutionReport)
        requires
            old(self).wf(),
        ensures
            final(self).wf(),
            final(self).task_graph == old(self).task_graph,
            final(self).package_graph == old(self).package_graph,
            final(self).config == old(self).config,
            final(self).workspaces == old(self).workspaces,
            final(self).called_script == old(self).called_script,
            final(self).dir == old(self).dir,
            final(self).deps@ == old(self).deps@,
            final(self).scripts@.len() == old(self).scripts@.len(),
            forall|i: int|
                0 <= i < old(self).snap().len() ==> final(self).snap()[i] == (if old(self).task_graph.names().contains((#[trigger] old(self).snap()[i]).id_spec()) {
                    old(self).snap()[i].with_status(ScriptStatus::Finished)
                } else {
                    old(self).snap()[i]
                }),
            r.launch_order@.len() == old(self).task_graph.n(),
            forall|k: int|
                0 <= k < r.launch_order@.len() ==> (#[trigger] r.launch_order@[k])@ == old(self).task_graph.names()[old(self).task_graph.order@[k] as int],
            forall|j: int|
                0 <= j < old(self).task_graph.edges@.len() ==> launched_before(
                    r.launch_order@.map_values(|s: String| s@),
                    old(self).task_graph.names()[(#[trigger] old(self).task_graph.edges@[j]).0 as int],
                    old(self).task_graph.names()[old(self).task_graph.edges@[j].1 as int],
                ),
            dry_run ==> r.invocations@.len() == 0,
            !dry_run ==> r.invocations@.len() == r.launch_order@.len(),
            !dry_run ==> invocations_match(
                old(self).registry(),
                r.launch_order@.map_values(|s: String| s@),
                r.invocations@,
            ),
    {
        let ghost g = old(self).task_graph;
        let mut launch: Vec<String> = Vec::new();
        let mut invocations: Vec<Invocation> = Vec::new();
        let mut k: usize = 0;
        while k < self.task_graph.order.len()
            invariant
                old(self).wf(),
                self.wf(),
                k <= g.n(),
                g == old(self).task_graph,
                self.task_graph == old(self).task_graph,
                self.package_graph == old(self).package_graph,
                self.config == old(self).config,
                self.workspaces == old(self).workspaces,
                self.called_script == old(self).called_script,
                self.dir == old(self).dir,
                self.deps@ == old(self).deps@,
                self.scripts@.len() == old(self).scripts@.len(),
                forall|i: int|
                    0 <= i < old(self).snap().len() ==> (#[trigger] self.snap()[i]) == (if (exists|kk: int|
                        0 <= kk < k && g.names()[#[trigger] g.order@[kk] as int] == old(self).snap()[i].id_spec()) {
                        old(self).snap()[i].with_status(ScriptStatus::Finished)
                    } else {
                        old(self).snap()[i]
                    }),
                launch@.len() == k,
                forall|kk: int|
                    0 <= kk < k ==> (#[trigger] launch@[kk])@ == g.names()[g.order@[kk] as int],
                dry_run ==> invocations@.len() == 0,
                !dry_run ==> invocations@.len() == k,
                !dry_run ==> forall|kk: int|
                    0 <= kk < k ==> (#[trigger] invocations@[kk]).script_id@ == launch@[kk]@
                        && old(self).registry().dom().contains(launch@[kk]@)
                        && invocations@[kk].command@ == old(self).registry()[launch@[kk]@].command
                        && invocations@[kk].dir@ == old(self).registry()[launch@[kk]@].dir,
            decreases g.n() - k,
        {
            let v = self.task_graph.order[k];
            proof {
                assert(g.order@[k as int] < g.n());
            }
            let id = self.task_graph.nodes[v].clone();
            proof {
                assert(id@ == g.names()[v as int]);
                assert(id_registered(self.scripts@, id@)) by {
                    assert(id_registered(self.scripts@, self.task_graph.names()[v as int]));
                }
            }
            let mut si: usize = 0;
            let mut found: bool = false;
            while si < self.scripts.len()
                invariant_except_break
                    !found,
                invariant
                    si <= self.scripts@.len(),
                    id_registered(self.scripts@, id@),
                    forall|q: int| 0 <= q < si ==> (#[trigger] self.scripts@[q])@.id_spec() != id@,
                ensures
                    found,
                    si < self.scripts@.len(),
                    self.scripts@[si as int]@.id_spec() == id@,
                decreases self.scripts@.len() - si,
            {
                let sid = self.scripts[si].id();
                if graph::str_eq(sid.as_str(), id.as_str()) {
                    found = true;
                    break ;
                }
                si = si + 1;
                proof {
                    if si == self.scripts@.len() {
                        let q = choose|q: int|
                            0 <= q < self.scripts@.len() && (#[trigger] self.scripts@[q])@.id_spec()
                                == id@;
                        assert(false);
                    }
                }
            }
            let ghost pre_scripts = self.scripts@;
            let ghost pre_self = *self;
            let mut updated = self.scripts[si].duplicate();
            updated.status = ScriptStatus::Finished;
            self.scripts[si] = updated;
            launch.push(id.clone());
            if !dry_run {
                invocations.push(
                    Invocation {
                        script_id: id,
                        command: self.scripts[si].command.clone(),
                        dir: self.scripts[si].dir.clone(),
                    },
                );
            }
            proof {
                assert(self.snap()[si as int] == pre_scripts[si as int]@.with_status(
                    ScriptStatus::Finished,
                ));
                assert forall|a: int, b: int|
                    0 <= a < b < self.scripts@.len() implies self.scripts@[a]@.id_spec()
                    != self.scripts@[b]@.id_spec() by {
                    assert(pre_scripts[a]@.id_spec() != pre_scripts[b]@.id_spec());
                    assert(self.scripts@[a]@.id_spec() == pre_scripts[a]@.id_spec());
                    assert(self.scripts@[b]@.id_spec() == pre_scripts[b]@.id_spec());
                }
                assert forall|nm: int| 0 <= nm < self.task_graph.n() implies id_registered(
                    self.scripts@,
                    #[trigger] self.task_graph.names()[nm],
                ) by {
                    assert(id_registered(pre_scripts, self.task_graph.names()[nm]));
                    let q = choose|q: int|
                        0 <= q < pre_scripts.len() && (#[trigger] pre_scripts[q])@.id_spec()
                            == self.task_graph.names()[nm];
                    assert(self.scripts@[q]@.id_spec() == pre_scripts[q]@.id_spec());
                }
                assert forall|i: int|
                    0 <= i < old(self).snap().len() implies (#[trigger] self.snap()[i]) == (if (exists|kk: int|
                    0 <= kk < k + 1 && g.names()[#[trigger] g.order@[kk] as int] == old(self).snap()[i].id_spec()) {
                    old(self).snap()[i].with_status(ScriptStatus::Finished)
                } else {
                    old(self).snap()[i]
                }) by {
                    assert(pre_self.snap()[i] == pre_scripts[i]@);
                    if i == si {
                        assert(pre_self.snap()[si as int] == old(self).snap()[si as int] || pre_self.snap()[si as int] == old(self).snap()[si as int].with_status(ScriptStatus::Finished));
                        assert(g.names()[g.order@[k as int] as int] == old(self).snap()[i].id_spec()) by {
                            assert(pre_scripts[si as int]@.id_spec() == id@);
                            assert(old(self).snap()[i].id_spec() == pre_scripts[si as int]@.id_spec());
                        }
                        assert(self.snap()[i] == old(self).snap()[i].with_status(
                            ScriptStatus::Finished,
                        ));
                    } else {
                        assert(self.snap()[i] == pre_scripts[i]@);
                        assert(pre_self.snap()[i] == (if (exists|kk: int|
                            0 <= kk < k && g.names()[#[trigger] g.order@[kk] as int] == old(self).snap()[i].id_spec()) {
                            old(self).snap()[i].with_status(ScriptStatus::Finished)
                        } else {
                            old(self).snap()[i]
                        }));
                        if exists|kk: int|
                            0 <= kk < k + 1 && g.names()[#[trigger] g.order@[kk] as int] == old(self).snap()[i].id_spec() {
                            let kk = choose|kk: int|
                                0 <= kk < k + 1 && g.names()[#[trigger] g.order@[kk] as int]
                                    == old(self).snap()[i].id_spec();
                            if kk == k {
                                assert(pre_self.snap()[si as int] == old(self).snap()[si as int] || pre_self.snap()[si as int] == old(self).snap()[si as int].with_status(ScriptStatus::Finished));
                                assert(old(self).snap()[si as int].id_spec() == id@);
                                assert(old(self).snap()[i].id_spec() == id@);
                                assert(old(self).scripts@[si as int]@.id_spec() == old(self).scripts@[i]@.id_spec());
                                assert(false);
                            }
                        }
                    }
                }
                if !dry_run {
                    assert(old(self).registry().dom().contains(id@)) by {
                        lemma_registry_dom(old(self).scripts@, id@);
                        assert(old(self).scripts@[si as int]@.id_spec() == id@);
                    }
                    assert(old(self).registry()[id@] == old(self).scripts@[si as int]@) by {
                        lemma_registry_value(old(self).scripts@, si as int);
                    }
                    assert(self.snap()[si as int].command == old(self).snap()[si as int].command);
                    assert(self.snap()[si as int].dir == old(self).snap()[si as int].dir);
                }
            }
            k = k + 1;
        }
        proof {
            assert forall|i: int|
                0 <= i < old(self).snap().len() implies (#[trigger] self.snap()[i]) == (if old(self).task_graph.names().contains(old(self).snap()[i].id_spec()) {
                old(self).snap()[i].with_status(ScriptStatus::Finished)
            } else {
                old(self).snap()[i]
            }) by {
                if old(self).task_graph.names().contains(old(self).snap()[i].id_spec()) {
                    let nm = choose|nm: int|
                        0 <= nm < g.names().len() && g.names()[nm] == old(self).snap()[i].id_spec();
                    assert(g.order@[g.pos@[nm] as int] == nm as usize);
                    assert(g.names()[g.order@[g.pos@[nm] as int] as int] == old(self).snap()[i].id_spec());
                } else {
                    if exists|kk: int|
                        0 <= kk < g.n() && g.names()[#[trigger] g.order@[kk] as int] == old(self).snap()[i].id_spec() {
                        let kk = choose|kk: int|
                            0 <= kk < g.n() && g.names()[#[trigger] g.order@[kk] as int] == old(self).snap()[i].id_spec();
                        assert(g.names().contains(old(self).snap()[i].id_spec()));
                    }
                }
            }
        }
        let r = ExecutionReport { launch_order: launch, invocations };
        proof {
            let lv = r.launch_order@.map_values(|s: String| s@);
            assert forall|j: int|
                0 <= j < old(self).task_graph.edges@.len() implies launched_before(
                lv,
                old(self).task_graph.names()[(#[trigger] old(self).task_graph.edges@[j]).0 as int],
                old(self).task_graph.names()[old(self).task_graph.edges@[j].1 as int],
            ) by {
                let a = g.edges@[j].0;
                let b = g.edges@[j].1;
                let ka = g.pos@[a as int] as int;
                let kb = g.pos@[b as int] as int;
                assert(g.order@[ka] == a);
                assert(g.order@[kb] == b);
                assert(lv[ka] == r.launch_order@[ka]@);
                assert(lv[kb] == r.launch_order@[kb]@);
                assert(lv[ka] == g.names()[a as int]);
                assert(lv[kb] == g.names()[b as int]);
                assert(old(self).task_graph.names()[a as int] == g.names()[a as int]);
                assert(old(self).task_graph.names()[b as int] == g.names()[b as int]);
            }
            assert forall|kx: int|
                0 <= kx < r.launch_order@.len() implies (#[trigger] r.launch_order@[kx])@
                == g.names()[g.order@[kx] as int] by {}
            if !dry_run {
                assert(invocations_match(old(self).registry(), lv, r.invocations@)) by {
                    assert forall|kx: int|
                        0 <= kx < r.invocations@.len() implies (#[trigger] r.invocations@[kx]).script_id@
                        == lv[kx] && old(self).registry().dom().contains(lv[kx])
                        && r.invocations@[kx].command@ == old(self).registry()[lv[kx]].command
                        && r.invocations@[kx].dir@ == old(self).registry()[lv[kx]].dir by {
                        assert(lv[kx] == r.launch_order@[kx]@);
                    }
                }
            }
        }
        r
    }

    /// The ids of the direct predecessors of the task named `id` in the
    /// frozen task graph, in edge insertion order.
    pub fn predecessors_of(&self, id: &str) -> (r: Vec<String>)
        requires
            self.wf(),
        ensures
            r@.map_values(|s: String| s@) == preds_names(self.task_graph, id@),
    {
        match self.task_graph.find_node_index(id) {
            None => {
                let r: Vec<String> = Vec::new();
                proof {
                    assert(r@.map_values(|s: String| s@) =~= preds_names(self.task_graph, id@));
                }
                r
            },
            Some(v) => {
                let idxs = self.task_graph.preds_of(v);
                proof {
                    assert forall|q: int|
                        0 <= q < idxs@.len() implies (#[trigger] idxs@[q]) < self.task_graph.n() by {
                        graph::lemma_preds_spec_membership(
                            self.task_graph.edges@,
                            v,
                            idxs@[q],
                        );
                        assert(idxs@.contains(idxs@[q]));
                        let j = choose|j: int|
                            0 <= j < self.task_graph.edges@.len() && #[trigger] self.task_graph.edges@[j]
                                == (idxs@[q], v);
                    }
                }
                let mut r: Vec<String> = Vec::new();
                let mut q: usize = 0;
                while q < idxs.len()
                    invariant
                        q <= idxs@.len(),
                        self.wf(),
                        forall|x: int|
                            0 <= x < idxs@.len() ==> (#[trigger] idxs@[x]) < self.task_graph.n(),
                        r@.len() == q,
                        forall|x: int|
                            0 <= x < q ==> (#[trigger] r@[x])@ == self.task_graph.names()[idxs@[x] as int],
                        idxs@ == graph::preds_spec(self.task_graph.edges@, v),
                        (v as int) < self.task_graph.n() && self.task_graph.names()[v as int] == id@,
                        graph::find_name_spec(self.task_graph.names(), id@) == Some(v as int),
                    decreases idxs@.len() - q,
                {
                    r.push(self.task_graph.nodes[idxs[q]].clone());
                    q = q + 1;
                }
                proof {
                    assert(r@.map_values(|s: String| s@) =~= preds_names(self.task_graph, id@));
                }
                r
            },
        }
    }

    /// A well-formed engine's task graph always admits a topological
    /// ordering: its stored order and position tables witness it, so a
    /// build that succeeds can always be executed in dependency order.
    pub proof fn lemma_task_graph_has_topo_order(self)
        requires
            self.wf(),
        ensures
            graph::acyclic(self.task_graph.n(), self.task_graph.edges@),
            graph::pos_valid(self.task_graph.pos@, self.task_graph.n(), self.task_graph.edges@),
            graph::order_consistent(
                self.task_graph.order@,
                self.task_graph.pos@,
                self.task_graph.n(),
            ),
    {
        self.task_graph.lemma_wf_acyclic();
    }

    /// A shared view of the registry's backing list.
    pub fn scripts(&self) -> (r: &Vec<Script>)
        ensures
            r@ == self.scripts@,
    {
        &self.scripts
    }

    /// Looks a task up by id (first match; ids are unique in a well-formed
    /// engine).
    pub fn lookup_script(&self, id: &str) -> (r: Option<&Script>)
        ensures
            match r {
                Some(s) => exists|i: int|
                    0 <= i < self.scripts@.len() && (#[trigger] self.scripts@[i])@ == s@ && s@.id_spec()
                        == id@,
                None => !id_registered(self.scripts@, id@),
            },
    {
        let mut i: usize = 0;
        while i < self.scripts.len()
            invariant
                i <= self.scripts@.len(),
                forall|k: int| 0 <= k < i ==> (#[trigger] self.scripts@[k])@.id_spec() != id@,
            decreases self.scripts@.len() - i,
        {
            let sid = self.scripts[i].id();
            if graph::str_eq(sid.as_str(), id) {
                return Some(&self.scripts[i]);
            }
            i = i + 1;
        }
        None
    }
}

} // verus!
