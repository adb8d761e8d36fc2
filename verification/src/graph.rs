//! The graph of the modules directly below the root of a crate.
use crate::dependencies::{InternalDependency, InternalDependencyView};
use crate::table::{ascending, lemma_ascending_distinct, lemma_paired_at, OrderedMap, OrderedSet};
use crate::text::{split, split_path};
use crate::usage::text_is;
use vstd::prelude::*;

verus! {

/// How many dependencies lead from one module to another.
#[derive(Debug, PartialEq, Eq)]
pub struct TopLevelEdge {
    pub from: String,
    pub to: String,
    pub count: usize,
}

/// The mathematical value of a [`TopLevelEdge`].
#[verifier::ext_equal]
pub struct TopLevelEdgeView {
    pub from: Seq<char>,
    pub to: Seq<char>,
    pub count: usize,
}

impl DeepView for TopLevelEdge {
    type V = TopLevelEdgeView;

    open spec fn deep_view(&self) -> TopLevelEdgeView {
        TopLevelEdgeView { from: self.from@, to: self.to@, count: self.count }
    }
}

/// The modules directly below the root, and the edges between them.
#[derive(Debug)]
pub struct TopLevelGraph {
    pub modules: Vec<String>,
    pub edges: Vec<TopLevelEdge>,
}

/// The mathematical value of a [`TopLevelGraph`].
pub struct TopLevelGraphView {
    pub modules: Seq<Seq<char>>,
    pub edges: Seq<TopLevelEdgeView>,
}

impl DeepView for TopLevelGraph {
    type V = TopLevelGraphView;

    open spec fn deep_view(&self) -> TopLevelGraphView {
        TopLevelGraphView { modules: self.modules.deep_view(), edges: self.edges.deep_view() }
    }
}

/// The module directly below the root that `module` is or lies in. The root lies in none, and
/// neither does a path that does not start at it.
pub open spec fn top_level(module: Seq<char>) -> Option<Seq<char>> {
    let parts = split_path(module);
    if parts.len() >= 2 && parts[0] == "crate"@ {
        Some(parts[1])
    } else {
        None
    }
}

/// The module directly below the root that `module` is or lies in, if it lies in one.
pub fn top_level_module(module: &str) -> (name: Option<String>)
    ensures
        name.deep_view() == top_level(module@),
{
    let parts = split(module);
    assert(parts.deep_view().len() == parts.len());
    if parts.len() >= 2 {
        assert(parts.deep_view()[0] == parts[0]@);
        assert(parts.deep_view()[1] == parts[1]@);
        if text_is(parts[0].as_str(), "crate") {
            return Some(parts[1].clone());
        }
    }
    None
}

/// The modules directly below the root that a dependency relates, where they differ.
pub open spec fn edge_ends(dependency: InternalDependencyView) -> Option<(Seq<char>, Seq<char>)> {
    match (top_level(dependency.from_module), top_level(dependency.to_module)) {
        (Some(from), Some(to)) => if from == to {
            None
        } else {
            Some((from, to))
        },
        _ => None,
    }
}

/// How many of `dependencies` lead from `ends.0` to `ends.1`.
pub open spec fn edge_count(
    dependencies: Seq<InternalDependencyView>,
    ends: (Seq<char>, Seq<char>),
) -> nat
    decreases dependencies.len(),
{
    if dependencies.len() == 0 {
        0
    } else {
        edge_count(dependencies.drop_last(), ends) + if edge_ends(dependencies.last()) == Some(
            ends,
        ) {
            1nat
        } else {
            0nat
        }
    }
}

/// A dependency leads from `module` to another one or from another one to it.
pub open spec fn touches(dependency: InternalDependencyView, module: Seq<char>) -> bool {
    match edge_ends(dependency) {
        Some(ends) => ends.0 == module || ends.1 == module,
        None => false,
    }
}

/// Some of `dependencies` touches `module`.
pub open spec fn touched(dependencies: Seq<InternalDependencyView>, module: Seq<char>) -> bool {
    exists|i: int| 0 <= i < dependencies.len() && touches(#[trigger] dependencies[i], module)
}

/// The sum of the counts of the edges that leave `module`.
pub open spec fn outgoing(edges: Seq<TopLevelEdgeView>, module: Seq<char>) -> nat
    decreases edges.len(),
{
    if edges.len() == 0 {
        0
    } else {
        outgoing(edges.drop_last(), module) + if edges.last().from == module {
            edges.last().count as nat
        } else {
            0nat
        }
    }
}

/// The sum of the counts of the edges that lead to `module`.
pub open spec fn incoming(edges: Seq<TopLevelEdgeView>, module: Seq<char>) -> nat
    decreases edges.len(),
{
    if edges.len() == 0 {
        0
    } else {
        incoming(edges.drop_last(), module) + if edges.last().to == module {
            edges.last().count as nat
        } else {
            0nat
        }
    }
}

/// No module's counts add up to more than a machine number holds.
pub open spec fn countable(edges: Seq<TopLevelEdgeView>) -> bool {
    forall|module: Seq<char>|
        #![trigger outgoing(edges, module)]
        #![trigger incoming(edges, module)]
        outgoing(edges, module) <= usize::MAX && incoming(edges, module) <= usize::MAX
}

/// The two modules of each edge.
pub open spec fn all_ends(edges: Seq<TopLevelEdgeView>) -> Seq<(Seq<char>, Seq<char>)> {
    Seq::new(edges.len(), |i: int| (edges[i].from, edges[i].to))
}

/// `graph` is the graph of `dependencies`: it has the modules that some dependency touches and an
/// edge for each pair of modules between which some dependency leads, both in order, and each edge
/// counts the dependencies between its modules.
pub open spec fn graph_of(
    graph: TopLevelGraphView,
    dependencies: Seq<InternalDependencyView>,
) -> bool {
    &&& ascending::<String>(graph.modules)
    &&& forall|module: Seq<char>| #[trigger]
        graph.modules.contains(module) <==> touched(dependencies, module)
    &&& ascending::<(String, String)>(all_ends(graph.edges))
    &&& forall|ends: (Seq<char>, Seq<char>)| #[trigger]
        all_ends(graph.edges).contains(ends) <==> edge_count(dependencies, ends) > 0
    &&& forall|i: int|
        0 <= i < graph.edges.len() ==> (#[trigger] graph.edges[i]).count == edge_count(
            dependencies,
            (graph.edges[i].from, graph.edges[i].to),
        )
}

proof fn lemma_edge_count_bound(
    dependencies: Seq<InternalDependencyView>,
    ends: (Seq<char>, Seq<char>),
)
    ensures
        edge_count(dependencies, ends) <= dependencies.len(),
    decreases dependencies.len(),
{
    if dependencies.len() > 0 {
        lemma_edge_count_bound(dependencies.drop_last(), ends);
    }
}

/// The counts in `table` are those of `dependencies`.
spec fn counts_edges(
    table: Map<(Seq<char>, Seq<char>), usize>,
    dependencies: Seq<InternalDependencyView>,
) -> bool {
    forall|ends: (Seq<char>, Seq<char>)|
        {
            &&& #[trigger] table.dom().contains(ends) <==> edge_count(dependencies, ends) > 0
            &&& table.dom().contains(ends) ==> table[ends] == edge_count(dependencies, ends)
        }
}

/// The modules in `modules` are those that `dependencies` touch.
spec fn collects_modules(
    modules: Set<Seq<char>>,
    dependencies: Seq<InternalDependencyView>,
) -> bool {
    forall|module: Seq<char>| #[trigger] modules.contains(module) <==> touched(dependencies, module)
}

proof fn lemma_touched_step(dependencies: Seq<InternalDependencyView>, module: Seq<char>)
    requires
        dependencies.len() > 0,
    ensures
        touched(dependencies, module) <==> touched(dependencies.drop_last(), module) || touches(
            dependencies.last(),
            module,
        ),
{
    let earlier = dependencies.drop_last();
    if touched(earlier, module) {
        let i = choose|i: int|
            0 <= i < earlier.len() && touches(#[trigger] earlier[i], module);
        assert(dependencies[i] == earlier[i]);
    }
    if touched(dependencies, module) {
        let i = choose|i: int|
            0 <= i < dependencies.len() && touches(#[trigger] dependencies[i], module);
        if i < earlier.len() {
            assert(earlier[i] == dependencies[i]);
        }
    }
    assert(dependencies[dependencies.len() - 1] == dependencies.last());
}

/// How many of `dependencies` lead from `module` to another one.
pub open spec fn departures(dependencies: Seq<InternalDependencyView>, module: Seq<char>) -> nat
    decreases dependencies.len(),
{
    if dependencies.len() == 0 {
        0
    } else {
        departures(dependencies.drop_last(), module) + match edge_ends(dependencies.last()) {
            Some(ends) if ends.0 == module => 1nat,
            _ => 0nat,
        }
    }
}

/// How many of `dependencies` lead from another module to `module`.
pub open spec fn arrivals(dependencies: Seq<InternalDependencyView>, module: Seq<char>) -> nat
    decreases dependencies.len(),
{
    if dependencies.len() == 0 {
        0
    } else {
        arrivals(dependencies.drop_last(), module) + match edge_ends(dependencies.last()) {
            Some(ends) if ends.1 == module => 1nat,
            _ => 0nat,
        }
    }
}

/// The number of dependencies between the pairs of `ends` that `chosen` accepts.
spec fn chosen_sum(
    ends: Seq<(Seq<char>, Seq<char>)>,
    dependencies: Seq<InternalDependencyView>,
    chosen: spec_fn((Seq<char>, Seq<char>)) -> bool,
) -> nat
    decreases ends.len(),
{
    if ends.len() == 0 {
        0
    } else {
        chosen_sum(ends.drop_last(), dependencies, chosen) + if chosen(ends.last()) {
            edge_count(dependencies, ends.last())
        } else {
            0nat
        }
    }
}

proof fn lemma_chosen_sum_none(
    ends: Seq<(Seq<char>, Seq<char>)>,
    dependencies: Seq<InternalDependencyView>,
    chosen: spec_fn((Seq<char>, Seq<char>)) -> bool,
)
    requires
        dependencies.len() == 0,
    ensures
        chosen_sum(ends, dependencies, chosen) == 0,
    decreases ends.len(),
{
    if ends.len() > 0 {
        lemma_chosen_sum_none(ends.drop_last(), dependencies, chosen);
    }
}

/// One more dependency counts once, for the pair that it belongs to.
proof fn lemma_chosen_sum_step(
    ends: Seq<(Seq<char>, Seq<char>)>,
    dependencies: Seq<InternalDependencyView>,
    chosen: spec_fn((Seq<char>, Seq<char>)) -> bool,
)
    requires
        dependencies.len() > 0,
        ends.no_duplicates(),
    ensures
        chosen_sum(ends, dependencies, chosen) == chosen_sum(
            ends,
            dependencies.drop_last(),
            chosen,
        ) + match edge_ends(dependencies.last()) {
            Some(pair) if chosen(pair) && ends.contains(pair) => 1nat,
            _ => 0nat,
        },
    decreases ends.len(),
{
    if ends.len() > 0 {
        let shorter = ends.drop_last();
        assert(shorter.no_duplicates()) by {
            assert forall|i: int, j: int|
                0 <= i < shorter.len() && 0 <= j < shorter.len() && i != j implies shorter[i]
                != shorter[j] by {
                assert(ends[i] != ends[j]);
            }
        }
        lemma_chosen_sum_step(shorter, dependencies, chosen);
        if let Some(pair) = edge_ends(dependencies.last()) {
            if shorter.contains(pair) {
                let i = shorter.index_of(pair);
                assert(ends[i] == pair);
                assert(ends[i] != ends[ends.len() - 1]);
            } else if ends.contains(pair) {
                let i = ends.index_of(pair);
                if i < shorter.len() {
                    assert(shorter[i] == pair);
                }
                assert(ends.last() == pair);
            } else {
                assert(ends[ends.len() - 1] == ends.last());
            }
        }
    }
}

proof fn lemma_chosen_sums(
    ends: Seq<(Seq<char>, Seq<char>)>,
    dependencies: Seq<InternalDependencyView>,
    module: Seq<char>,
)
    requires
        ends.no_duplicates(),
        forall|i: int|
            0 <= i < dependencies.len() ==> match edge_ends(#[trigger] dependencies[i]) {
                Some(pair) => ends.contains(pair),
                None => true,
            },
    ensures
        chosen_sum(ends, dependencies, |pair: (Seq<char>, Seq<char>)| pair.0 == module)
            == departures(dependencies, module),
        chosen_sum(ends, dependencies, |pair: (Seq<char>, Seq<char>)| pair.1 == module)
            == arrivals(dependencies, module),
    decreases dependencies.len(),
{
    let from = |pair: (Seq<char>, Seq<char>)| pair.0 == module;
    let to = |pair: (Seq<char>, Seq<char>)| pair.1 == module;
    if dependencies.len() == 0 {
        lemma_chosen_sum_none(ends, dependencies, from);
        lemma_chosen_sum_none(ends, dependencies, to);
    } else {
        let earlier = dependencies.drop_last();
        assert forall|i: int| 0 <= i < earlier.len() implies match edge_ends(
            #[trigger] earlier[i],
        ) {
            Some(pair) => ends.contains(pair),
            None => true,
        } by {
            assert(earlier[i] == dependencies[i]);
        }
        lemma_chosen_sums(ends, earlier, module);
        lemma_chosen_sum_step(ends, dependencies, from);
        lemma_chosen_sum_step(ends, dependencies, to);
        assert(dependencies[dependencies.len() - 1] == dependencies.last());
    }
}

proof fn lemma_edge_sums(
    edges: Seq<TopLevelEdgeView>,
    dependencies: Seq<InternalDependencyView>,
    module: Seq<char>,
)
    requires
        forall|i: int|
            0 <= i < edges.len() ==> (#[trigger] edges[i]).count == edge_count(
                dependencies,
                (edges[i].from, edges[i].to),
            ),
    ensures
        outgoing(edges, module) == chosen_sum(
            all_ends(edges),
            dependencies,
            |pair: (Seq<char>, Seq<char>)| pair.0 == module,
        ),
        incoming(edges, module) == chosen_sum(
            all_ends(edges),
            dependencies,
            |pair: (Seq<char>, Seq<char>)| pair.1 == module,
        ),
    decreases edges.len(),
{
    if edges.len() > 0 {
        let shorter = edges.drop_last();
        assert forall|i: int| 0 <= i < shorter.len() implies (#[trigger] shorter[i]).count
            == edge_count(dependencies, (shorter[i].from, shorter[i].to)) by {
            assert(shorter[i] == edges[i]);
        }
        lemma_edge_sums(shorter, dependencies, module);
        assert(all_ends(edges).drop_last() =~= all_ends(shorter));
        assert(edges[edges.len() - 1] == edges.last());
    }
}

proof fn lemma_belongs_to_edge(dependencies: Seq<InternalDependencyView>, at: int)
    requires
        0 <= at < dependencies.len(),
        edge_ends(dependencies[at]) is Some,
    ensures
        edge_count(dependencies, edge_ends(dependencies[at])->0) > 0,
    decreases dependencies.len(),
{
    if at < dependencies.len() - 1 {
        lemma_belongs_to_edge(dependencies.drop_last(), at);
    }
}

/// In the graph of `dependencies`, the edges that leave a module count the dependencies that lead
/// away from it, and those that lead to it count the dependencies that lead to it.
pub proof fn edges_count_dependencies(
    graph: TopLevelGraphView,
    dependencies: Seq<InternalDependencyView>,
    module: Seq<char>,
)
    requires
        graph_of(graph, dependencies),
    ensures
        outgoing(graph.edges, module) == departures(dependencies, module),
        incoming(graph.edges, module) == arrivals(dependencies, module),
{
    let ends = all_ends(graph.edges);
    assert(ends.no_duplicates()) by {
        assert forall|i: int, j: int|
            0 <= i < ends.len() && 0 <= j < ends.len() && i != j implies ends[i] != ends[j] by {
            if ends[i] == ends[j] {
                lemma_ascending_distinct::<(String, String)>(ends, i, j);
            }
        }
    }
    assert forall|i: int| 0 <= i < dependencies.len() implies match edge_ends(
        #[trigger] dependencies[i],
    ) {
        Some(pair) => ends.contains(pair),
        None => true,
    } by {
        if edge_ends(dependencies[i]) is Some {
            lemma_belongs_to_edge(dependencies, i);
        }
    }
    lemma_edge_sums(graph.edges, dependencies, module);
    lemma_chosen_sums(ends, dependencies, module);
}

proof fn lemma_departures_bound(dependencies: Seq<InternalDependencyView>, module: Seq<char>)
    ensures
        departures(dependencies, module) <= dependencies.len(),
        arrivals(dependencies, module) <= dependencies.len(),
    decreases dependencies.len(),
{
    if dependencies.len() > 0 {
        lemma_departures_bound(dependencies.drop_last(), module);
    }
}

/// The ends of the edge that a dependency belongs to, if it belongs to one.
fn ends_of(dependency: &InternalDependency) -> (ends: Option<(String, String)>)
    ensures
        ends.deep_view() == edge_ends(dependency.deep_view()),
{
    match (
        top_level_module(dependency.from_module.as_str()),
        top_level_module(dependency.to_module.as_str()),
    ) {
        (Some(from), Some(to)) => if text_is(from.as_str(), to.as_str()) {
            None
        } else {
            Some((from, to))
        },
        _ => None,
    }
}

fn count_edges(dependencies: &Vec<InternalDependency>) -> (counted: (
    OrderedSet<String>,
    OrderedMap<(String, String), usize>,
))
    ensures
        counted.0.well_formed(),
        counted.1.well_formed(),
        collects_modules(counted.0@, dependencies.deep_view()),
        counts_edges(counted.1@, dependencies.deep_view()),
{
    let ghost all = dependencies.deep_view();
    let mut modules: OrderedSet<String> = OrderedSet::new();
    let mut edges: OrderedMap<(String, String), usize> = OrderedMap::new();
    let mut i: usize = 0;
    assert(all.take(0) =~= seq![]);
    while i < dependencies.len()
        invariant
            all == dependencies.deep_view(),
            i <= dependencies.len(),
            modules.well_formed(),
            edges.well_formed(),
            collects_modules(modules@, all.take(i as int)),
            counts_edges(edges@, all.take(i as int)),
        decreases dependencies.len() - i,
    {
        let ghost done = all.take(i as int);
        let ghost more = all.take(i + 1);
        let ghost old_modules = modules@;
        let ghost old_edges = edges@;
        proof {
            assert(more.drop_last() =~= done);
            assert(more.last() == dependencies[i as int].deep_view());
        }
        match ends_of(&dependencies[i]) {
            Some((from, to)) => {
                let ghost ends = (from@, to@);
                assert(edge_ends(more.last()) == Some(ends));
                modules.insert(from.clone());
                modules.insert(to.clone());
                assert(modules@ == old_modules.insert(ends.0).insert(ends.1));
                let key = (from, to);
                let held = match edges.get(&key) {
                    Some(count) => *count,
                    None => 0,
                };
                proof {
                    assert(key.deep_view() == ends);
                    lemma_edge_count_bound(done, ends);
                    assert(held == edge_count(done, ends));
                }
                edges.put(key, held + 1);
                proof {
                    assert forall|other: (Seq<char>, Seq<char>)|
                        {
                            &&& #[trigger] edges@.dom().contains(other) <==> edge_count(
                                more,
                                other,
                            ) > 0
                            &&& edges@.dom().contains(other) ==> edges@[other] == edge_count(
                                more,
                                other,
                            )
                        } by {
                        assert(old_edges.dom().contains(other) <==> edge_count(done, other) > 0);
                    }
                    assert forall|module: Seq<char>| #[trigger]
                        modules@.contains(module) <==> touched(more, module) by {
                        lemma_touched_step(more, module);
                        assert(old_modules.contains(module) <==> touched(done, module));
                    }
                }
            },
            None => {
                proof {
                    assert(edge_ends(more.last()) is None);
                    assert forall|other: (Seq<char>, Seq<char>)|
                        {
                            &&& #[trigger] edges@.dom().contains(other) <==> edge_count(
                                more,
                                other,
                            ) > 0
                            &&& edges@.dom().contains(other) ==> edges@[other] == edge_count(
                                more,
                                other,
                            )
                        } by {
                        assert(old_edges.dom().contains(other) <==> edge_count(done, other) > 0);
                    }
                    assert forall|module: Seq<char>| #[trigger]
                        modules@.contains(module) <==> touched(more, module) by {
                        lemma_touched_step(more, module);
                        assert(old_modules.contains(module) <==> touched(done, module));
                    }
                }
            },
        }
        i = i + 1;
    }
    assert(all.take(i as int) =~= all);
    (modules, edges)
}

/// The graph of `dependencies`, seen from the modules directly below the root.
pub fn top_level_graph(dependencies: &Vec<InternalDependency>) -> (graph: TopLevelGraph)
    ensures
        graph_of(graph.deep_view(), dependencies.deep_view()),
        countable(graph.deep_view().edges),
{
    let (modules, table) = count_edges(dependencies);
    let ghost touched_modules = modules@;
    let ghost counts = table@;
    let modules = modules.into_vec();
    let (keys, values) = table.into_parts();
    let ghost all_keys = keys.deep_view();
    let mut edges: Vec<TopLevelEdge> = Vec::new();
    let mut i: usize = 0;
    while i < keys.len()
        invariant
            all_keys == keys.deep_view(),
            keys.len() == values.len(),
            i <= keys.len(),
            edges.len() == i,
            forall|j: int|
                0 <= j < i ==> (#[trigger] edges[j]).from@ == all_keys[j].0 && edges[j].to@
                    == all_keys[j].1 && edges[j].count == values[j],
        decreases keys.len() - i,
    {
        assert(all_keys[i as int] == keys[i as int].deep_view());
        edges.push(
            TopLevelEdge {
                from: keys[i].0.clone(),
                to: keys[i].1.clone(),
                count: values[i],
            },
        );
        i = i + 1;
    }
    let graph = TopLevelGraph { modules, edges };
    proof {
        let view = graph.deep_view();
        let list = dependencies.deep_view();
        assert(all_ends(view.edges) =~= all_keys);
        assert forall|module: Seq<char>| #[trigger]
            view.modules.contains(module) <==> touched(list, module) by {
            assert(view.modules.to_set().contains(module) == touched_modules.contains(module));
        }
        assert forall|ends: (Seq<char>, Seq<char>)| #[trigger]
            all_ends(view.edges).contains(ends) <==> edge_count(list, ends) > 0 by {
            assert(counts.dom().contains(ends) == all_keys.contains(ends));
        }
        assert forall|j: int| 0 <= j < view.edges.len() implies (#[trigger] view.edges[j]).count
            == edge_count(list, (view.edges[j].from, view.edges[j].to)) by {
            lemma_paired_at::<(String, String), usize>(all_keys, values@, j);
            assert(counts.dom().contains(all_keys[j]));
            assert(graph.edges[j].from@ == all_keys[j].0);
        }
        assert(graph_of(view, list));
        assert(list.len() == dependencies.len());
        assert forall|module: Seq<char>|
            #![trigger outgoing(view.edges, module)]
            #![trigger incoming(view.edges, module)]
            outgoing(view.edges, module) <= usize::MAX && incoming(view.edges, module) <= usize::MAX by {
            edges_count_dependencies(view, list, module);
            lemma_departures_bound(list, module);
        }
    }
    graph
}

} // verus!
