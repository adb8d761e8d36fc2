//! What holds of the graph of the modules below the root.
use crate::dependencies::{InternalDependency, InternalDependencyView};
use crate::dependency_laws::plain_module;
use crate::graph::{
    all_ends, edge_count, edge_ends, graph_of, top_level, top_level_graph, top_level_module,
    touched, touches, TopLevelGraph, TopLevelGraphView,
};
use crate::order::{text_less, Ranked};
use crate::table::{ascending, lemma_ascending_unique};
use crate::text::{join_path, split_path, split_undoes_join};
use vstd::prelude::*;

verus! {

/// A module of the crate lies in the module that follows the root on its path; the root itself
/// lies in none.
pub proof fn modules_lie_below_the_root(module: Seq<Seq<char>>)
    requires
        plain_module(module),
    ensures
        top_level(join_path(module)) == (if module.len() >= 2 && module[0] == "crate"@ {
            Some(module[1])
        } else {
            None
        }),
{
    split_undoes_join(module);
}

proof fn lemma_counted(dependencies: Seq<InternalDependencyView>, ends: (Seq<char>, Seq<char>))
    ensures
        edge_count(dependencies, ends) > 0 <==> exists|i: int|
            0 <= i < dependencies.len() && edge_ends(#[trigger] dependencies[i]) == Some(ends),
    decreases dependencies.len(),
{
    if dependencies.len() > 0 {
        let earlier = dependencies.drop_last();
        lemma_counted(earlier, ends);
        assert(dependencies[dependencies.len() - 1] == dependencies.last());
        assert forall|i: int| 0 <= i < earlier.len() implies #[trigger] earlier[i]
            == dependencies[i] by {}
        if edge_count(earlier, ends) > 0 {
            let i = choose|i: int|
                0 <= i < earlier.len() && edge_ends(#[trigger] earlier[i]) == Some(ends);
            assert(edge_ends(dependencies[i]) == Some(ends));
        }
        if exists|i: int|
            0 <= i < dependencies.len() && edge_ends(#[trigger] dependencies[i]) == Some(ends) {
            let i = choose|i: int|
                0 <= i < dependencies.len() && edge_ends(#[trigger] dependencies[i]) == Some(ends);
            if i < earlier.len() {
                assert(edge_ends(earlier[i]) == Some(ends));
            }
        }
    }
}

/// Each edge of a graph stands for at least one dependency and leads from one module of the graph
/// to another.
pub proof fn edges_relate_modules_of_the_graph(
    graph: TopLevelGraphView,
    dependencies: Seq<InternalDependencyView>,
    at: int,
)
    requires
        graph_of(graph, dependencies),
        0 <= at < graph.edges.len(),
    ensures
        graph.edges[at].count > 0,
        graph.edges[at].from != graph.edges[at].to,
        graph.modules.contains(graph.edges[at].from),
        graph.modules.contains(graph.edges[at].to),
{
    let ends = (graph.edges[at].from, graph.edges[at].to);
    assert(all_ends(graph.edges)[at] == ends);
    assert(all_ends(graph.edges).contains(ends));
    lemma_counted(dependencies, ends);
    let i = choose|i: int|
        0 <= i < dependencies.len() && edge_ends(#[trigger] dependencies[i]) == Some(ends);
    assert(touches(dependencies[i], ends.0));
    assert(touches(dependencies[i], ends.1));
    assert(touched(dependencies, ends.0));
    assert(touched(dependencies, ends.1));
}

/// Each module of a graph has an edge.
pub proof fn modules_of_the_graph_have_edges(
    graph: TopLevelGraphView,
    dependencies: Seq<InternalDependencyView>,
    module: Seq<char>,
)
    requires
        graph_of(graph, dependencies),
        graph.modules.contains(module),
    ensures
        exists|i: int|
            0 <= i < graph.edges.len() && ((#[trigger] graph.edges[i]).from == module
                || graph.edges[i].to == module),
{
    assert(touched(dependencies, module));
    let i = choose|i: int|
        0 <= i < dependencies.len() && touches(#[trigger] dependencies[i], module);
    let ends = edge_ends(dependencies[i])->0;
    lemma_counted(dependencies, ends);
    assert(all_ends(graph.edges).contains(ends));
    let at = all_ends(graph.edges).index_of(ends);
    assert(all_ends(graph.edges)[at] == ends);
    assert(graph.edges[at].from == module || graph.edges[at].to == module);
}

/// The dependencies decide the graph.
pub proof fn graph_is_unique(
    left: TopLevelGraphView,
    right: TopLevelGraphView,
    dependencies: Seq<InternalDependencyView>,
)
    requires
        graph_of(left, dependencies),
        graph_of(right, dependencies),
    ensures
        left.modules == right.modules,
        left.edges == right.edges,
{
    assert(left.modules.to_set() =~= right.modules.to_set());
    lemma_ascending_unique::<String>(left.modules, right.modules);
    assert(all_ends(left.edges).to_set() =~= all_ends(right.edges).to_set());
    lemma_ascending_unique::<(String, String)>(all_ends(left.edges), all_ends(right.edges));
    assert(left.edges.len() == all_ends(left.edges).len());
    assert forall|i: int| 0 <= i < left.edges.len() implies left.edges[i] == right.edges[i] by {
        assert(all_ends(left.edges)[i] == all_ends(right.edges)[i]);
        assert(left.edges[i] =~= right.edges[i]);
    }
    assert(left.edges =~= right.edges);
}

/// The text `module` names the module `name` directly below the root, or one that lies in it.
pub open spec fn lies_in_top_level(module: Seq<char>, name: Seq<char>) -> bool {
    let path = split_path(module);
    path.len() >= 2 && path.take(2) == seq!["crate"@, name]
}

proof fn lemma_lies_in_top_level(module: Seq<char>, name: Seq<char>)
    ensures
        lies_in_top_level(module, name) <==> top_level(module) == Some(name),
{
    let path = split_path(module);
    if path.len() >= 2 {
        let start = path.take(2);
        assert(start[0] == path[0] && start[1] == path[1]);
        if path[0] == "crate"@ && path[1] == name {
            assert(start =~= seq!["crate"@, name]);
        }
        if start == seq!["crate"@, name] {
            assert(path[0] == "crate"@ && path[1] == name);
        }
    }
}

/// The dependency leads from the module `from` directly below the root, or from one that lies in
/// it, to the module `to` or to one that lies in that, and `from` is not `to`.
pub open spec fn leads(dependency: InternalDependency, from: Seq<char>, to: Seq<char>) -> bool {
    &&& lies_in_top_level(dependency.from_module@, from)
    &&& lies_in_top_level(dependency.to_module@, to)
    &&& from != to
}

proof fn lemma_leads(dependency: InternalDependency, from: Seq<char>, to: Seq<char>)
    ensures
        leads(dependency, from, to) <==> edge_ends(dependency.deep_view()) == Some((from, to)),
{
    lemma_lies_in_top_level(dependency.from_module@, from);
    lemma_lies_in_top_level(dependency.to_module@, to);
}

/// A module path is read off its text whatever its length: `crate::x::..`, written with names that
/// hold no colon, lies in `x`, and nothing else does.
pub proof fn module_paths_lie_in_their_second_name(module: Seq<Seq<char>>, name: Seq<char>)
    requires
        plain_module(module),
    ensures
        lies_in_top_level(join_path(module), name) <==> module.len() >= 2 && module[0] == "crate"@
            && module[1] == name,
{
    split_undoes_join(module);
    lemma_lies_in_top_level(join_path(module), name);
}

/// What a call of `top_level_module` gives is the module directly below the root that the text
/// lies in, if it lies in one.
pub proof fn top_level_modules_follow_the_root(text: &str, name: Option<String>)
    requires
        call_ensures(top_level_module, (text,), name),
    ensures
        name matches Some(name) ==> lies_in_top_level(text@, name@),
        name is None ==> forall|other: Seq<char>| !#[trigger] lies_in_top_level(text@, other),
{
    if let Some(name) = name {
        assert(top_level(text@) == Some(name@));
        lemma_lies_in_top_level(text@, name@);
    } else {
        assert forall|other: Seq<char>| !#[trigger] lies_in_top_level(text@, other) by {
            lemma_lies_in_top_level(text@, other);
        }
    }
}

/// The places of the dependencies that lead from `from` to `to`.
pub open spec fn leading(
    dependencies: Vec<InternalDependency>,
    from: Seq<char>,
    to: Seq<char>,
) -> Set<int> {
    Set::new(|i: int| 0 <= i < dependencies.len() && leads(dependencies[i], from, to))
}

/// The places among the first `length` dependencies that lead from `ends.0` to `ends.1`.
spec fn first_leading(
    dependencies: Seq<InternalDependencyView>,
    length: int,
    ends: (Seq<char>, Seq<char>),
) -> Set<int> {
    Set::new(|i: int| 0 <= i < length && edge_ends(dependencies[i]) == Some(ends))
}

proof fn lemma_counted_places(
    dependencies: Seq<InternalDependencyView>,
    length: int,
    ends: (Seq<char>, Seq<char>),
)
    requires
        0 <= length <= dependencies.len(),
    ensures
        first_leading(dependencies, length, ends).finite(),
        first_leading(dependencies, length, ends).len() == edge_count(
            dependencies.take(length),
            ends,
        ),
    decreases length,
{
    let places = first_leading(dependencies, length, ends);
    if length == 0 {
        assert(places =~= Set::empty());
    } else {
        lemma_counted_places(dependencies, length - 1, ends);
        let earlier = first_leading(dependencies, length - 1, ends);
        let taken = dependencies.take(length);
        assert(taken.drop_last() =~= dependencies.take(length - 1));
        assert(taken.last() == dependencies[length - 1]);
        if edge_ends(dependencies[length - 1]) == Some(ends) {
            assert(places =~= earlier.insert(length - 1));
        } else {
            assert(places =~= earlier);
        }
    }
}

proof fn lemma_leading(dependencies: Vec<InternalDependency>, from: Seq<char>, to: Seq<char>)
    ensures
        leading(dependencies, from, to).finite(),
        leading(dependencies, from, to).len() == edge_count(dependencies.deep_view(), (from, to)),
{
    let views = dependencies.deep_view();
    let ends = (from, to);
    assert forall|i: int| leading(dependencies, from, to).contains(i) == first_leading(
        views,
        views.len() as int,
        ends,
    ).contains(i) by {
        if 0 <= i < views.len() {
            assert(views[i] == dependencies[i].deep_view());
            lemma_leads(dependencies[i], from, to);
        }
    }
    assert(leading(dependencies, from, to) =~= first_leading(views, views.len() as int, ends));
    lemma_counted_places(views, views.len() as int, ends);
    assert(views.take(views.len() as int) =~= views);
}

/// Each edge of the graph counts the dependencies that lead from its one module to its other, of
/// which there is at least one.
pub proof fn edges_count_the_dependencies_between_their_modules(
    dependencies: Vec<InternalDependency>,
    graph: TopLevelGraph,
    at: int,
)
    requires
        call_ensures(top_level_graph, (&dependencies,), graph),
        0 <= at < graph.edges.len(),
    ensures
        ({
            let edge = graph.edges[at];
            &&& leading(dependencies, edge.from@, edge.to@).finite()
            &&& edge.count == leading(dependencies, edge.from@, edge.to@).len()
            &&& edge.count > 0
        }),
{
    let view = graph.deep_view();
    assert(view.edges[at] == graph.edges[at].deep_view());
    lemma_leading(dependencies, graph.edges[at].from@, graph.edges[at].to@);
    edges_relate_modules_of_the_graph(view, dependencies.deep_view(), at);
}

/// Every dependency that leads from one module below the root to another one belongs to an edge,
/// and both modules are in the graph. How deep its two ends lie makes no difference.
pub proof fn every_dependency_belongs_to_an_edge(
    dependencies: Vec<InternalDependency>,
    graph: TopLevelGraph,
    at: int,
    from: Seq<char>,
    to: Seq<char>,
)
    requires
        call_ensures(top_level_graph, (&dependencies,), graph),
        0 <= at < dependencies.len(),
        leads(dependencies[at], from, to),
    ensures
        exists|i: int|
            0 <= i < graph.edges.len() && (#[trigger] graph.edges[i]).from@ == from
                && graph.edges[i].to@ == to,
        exists|i: int| 0 <= i < graph.modules.len() && (#[trigger] graph.modules[i])@ == from,
        exists|i: int| 0 <= i < graph.modules.len() && (#[trigger] graph.modules[i])@ == to,
{
    let view = graph.deep_view();
    let views = dependencies.deep_view();
    lemma_leads(dependencies[at], from, to);
    assert(views[at] == dependencies[at].deep_view());
    lemma_counted(views, (from, to));
    assert(all_ends(view.edges).contains((from, to)));
    let i = all_ends(view.edges).index_of((from, to));
    assert(view.edges[i] == graph.edges[i].deep_view());
    assert(graph.edges[i].from@ == from && graph.edges[i].to@ == to);
    edges_relate_modules_of_the_graph(view, views, i);
    let a = view.modules.index_of(from);
    let b = view.modules.index_of(to);
    assert(graph.modules[a]@ == from);
    assert(graph.modules[b]@ == to);
}

proof fn lemma_ascending_at<T: Ranked>(items: Seq<<T as DeepView>::V>, i: int, j: int)
    requires
        ascending::<T>(items),
        0 <= i < j < items.len(),
    ensures
        T::precedes(items[i], items[j]),
{
}

/// The graph has no modules but those of its edges, and both modules and edges stand in the order
/// of a dictionary, none of them twice.
pub proof fn graphs_are_made_of_edges_in_order(
    dependencies: Vec<InternalDependency>,
    graph: TopLevelGraph,
    i: int,
    j: int,
)
    requires
        call_ensures(top_level_graph, (&dependencies,), graph),
    ensures
        0 <= i < graph.modules.len() ==> exists|k: int|
            0 <= k < graph.edges.len() && ((#[trigger] graph.edges[k]).from@ == graph.modules[i]@
                || graph.edges[k].to@ == graph.modules[i]@),
        0 <= i < j < graph.modules.len() ==> text_less(graph.modules[i]@, graph.modules[j]@),
        0 <= i < j < graph.edges.len() ==> text_less(
            graph.edges[i].from@,
            graph.edges[j].from@,
        ) || graph.edges[i].from@ == graph.edges[j].from@ && text_less(
            graph.edges[i].to@,
            graph.edges[j].to@,
        ),
{
    let view = graph.deep_view();
    if 0 <= i < graph.modules.len() {
        assert(view.modules[i] == graph.modules[i]@);
        assert(view.modules.contains(graph.modules[i]@));
        modules_of_the_graph_have_edges(view, dependencies.deep_view(), graph.modules[i]@);
        let k = choose|k: int|
            0 <= k < view.edges.len() && ((#[trigger] view.edges[k]).from == graph.modules[i]@
                || view.edges[k].to == graph.modules[i]@);
        assert(view.edges[k] == graph.edges[k].deep_view());
        assert(graph.edges[k].from@ == graph.modules[i]@ || graph.edges[k].to@
            == graph.modules[i]@);
    }
    if 0 <= i < j < graph.modules.len() {
        assert(view.modules[i] == graph.modules[i]@ && view.modules[j] == graph.modules[j]@);
        assert(String::precedes(view.modules[i], view.modules[j]));
    }
    if 0 <= i < j < graph.edges.len() {
        let ends = all_ends(view.edges);
        assert(view.edges[i] == graph.edges[i].deep_view());
        assert(view.edges[j] == graph.edges[j].deep_view());
        assert(ascending::<(String, String)>(ends));
        assert(view.edges.len() == graph.edges.len() && ends.len() == view.edges.len());
        lemma_ascending_at::<(String, String)>(ends, i, j);
        assert(ends[i] == (graph.edges[i].from@, graph.edges[i].to@));
        assert(ends[j] == (graph.edges[j].from@, graph.edges[j].to@));
    }
}

/// Dependencies count one by one: those of two lists together are counted as often as in both.
pub proof fn counts_of_two_lists_add_up(
    left: Seq<InternalDependencyView>,
    right: Seq<InternalDependencyView>,
    ends: (Seq<char>, Seq<char>),
)
    ensures
        edge_count(left + right, ends) == edge_count(left, ends) + edge_count(right, ends),
    decreases right.len(),
{
    if right.len() == 0 {
        assert(left + right =~= left);
    } else {
        assert((left + right).drop_last() =~= left + right.drop_last());
        counts_of_two_lists_add_up(left, right.drop_last(), ends);
    }
}

} // verus!
