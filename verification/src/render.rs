//! The page that shows a graph.
use crate::graph::{
    countable, incoming, outgoing, TopLevelEdge, TopLevelEdgeView, TopLevelGraph,
    TopLevelGraphView,
};
use crate::page::{
    PAGE_AFTER_DATA, PAGE_AFTER_EDGES, PAGE_AFTER_MODULES, PAGE_AFTER_ROWS, PAGE_EDGES, PAGE_END,
    PAGE_HEADING, PAGE_START, PAGE_STYLE, TABLE_HEAD,
};
use crate::script::{graph_script, GRAPH_SCRIPT};
use crate::table::OrderedMap;
use crate::text::{decimal, decimal_text};
use vstd::prelude::*;

verus! {

/// How many dependencies lead to a module and away from it.
#[derive(Clone, Copy, Debug, PartialEq, Eq, Structural)]
pub struct ModuleEdgeCounts {
    pub incoming: usize,
    pub outgoing: usize,
}

/// Some edge leaves `module` or leads to it.
pub open spec fn connected(edges: Seq<TopLevelEdgeView>, module: Seq<char>) -> bool {
    exists|i: int|
        0 <= i < edges.len() && ((#[trigger] edges[i]).from == module || edges[i].to == module)
}

/// The counts of a module.
pub open spec fn edge_counts(edges: Seq<TopLevelEdgeView>, module: Seq<char>) -> ModuleEdgeCounts {
    ModuleEdgeCounts {
        incoming: incoming(edges, module) as usize,
        outgoing: outgoing(edges, module) as usize,
    }
}

proof fn lemma_counts_grow(edges: Seq<TopLevelEdgeView>, length: int, module: Seq<char>)
    requires
        0 <= length <= edges.len(),
    ensures
        outgoing(edges.take(length), module) <= outgoing(edges, module),
        incoming(edges.take(length), module) <= incoming(edges, module),
    decreases edges.len() - length,
{
    if length == edges.len() {
        assert(edges.take(length) =~= edges);
    } else {
        lemma_counts_grow(edges, length + 1, module);
        assert(edges.take(length + 1).drop_last() =~= edges.take(length));
    }
}

/// `table` gives the modules `modules`, and those that `edges` connect, their counts.
spec fn tells_counts(
    table: Map<Seq<char>, ModuleEdgeCounts>,
    modules: Seq<Seq<char>>,
    edges: Seq<TopLevelEdgeView>,
) -> bool {
    forall|module: Seq<char>|
        {
            &&& #[trigger] table.dom().contains(module) <==> modules.contains(module) || connected(
                edges,
                module,
            )
            &&& table.dom().contains(module) ==> table[module] == edge_counts(edges, module)
        }
}

proof fn lemma_unconnected(edges: Seq<TopLevelEdgeView>, module: Seq<char>)
    requires
        !connected(edges, module),
    ensures
        outgoing(edges, module) == 0,
        incoming(edges, module) == 0,
    decreases edges.len(),
{
    if edges.len() > 0 {
        assert(edges[edges.len() - 1] == edges.last());
        assert forall|i: int| 0 <= i < edges.drop_last().len() implies (#[trigger] edges.drop_last()[i]).from
            != module && edges.drop_last()[i].to != module by {
            assert(edges.drop_last()[i] == edges[i]);
        }
        lemma_unconnected(edges.drop_last(), module);
    }
}

proof fn lemma_connected_step(edges: Seq<TopLevelEdgeView>, module: Seq<char>)
    requires
        edges.len() > 0,
    ensures
        connected(edges, module) <==> connected(edges.drop_last(), module) || edges.last().from
            == module || edges.last().to == module,
{
    let earlier = edges.drop_last();
    if connected(earlier, module) {
        let i = choose|i: int|
            0 <= i < earlier.len() && ((#[trigger] earlier[i]).from == module || earlier[i].to
                == module);
        assert(edges[i] == earlier[i]);
    }
    if connected(edges, module) {
        let i = choose|i: int|
            0 <= i < edges.len() && ((#[trigger] edges[i]).from == module || edges[i].to == module);
        if i < earlier.len() {
            assert(earlier[i] == edges[i]);
        }
    }
    assert(edges[edges.len() - 1] == edges.last());
}

/// The counts of `module`, zero where it has none yet.
fn counts_in(table: &OrderedMap<String, ModuleEdgeCounts>, module: &String) -> (counts:
    ModuleEdgeCounts)
    requires
        table.well_formed(),
    ensures
        table@.dom().contains(module@) ==> counts == table@[module@],
        !table@.dom().contains(module@) ==> counts == (ModuleEdgeCounts {
            incoming: 0,
            outgoing: 0,
        }),
{
    match table.get(module) {
        Some(counts) => *counts,
        None => ModuleEdgeCounts { incoming: 0, outgoing: 0 },
    }
}

/// The counts of each module of the graph, and of each module that an edge connects.
pub fn module_edge_counts(graph: &TopLevelGraph) -> (table: OrderedMap<String, ModuleEdgeCounts>)
    requires
        countable(graph.deep_view().edges),
    ensures
        table.well_formed(),
        forall|module: Seq<char>| #[trigger]
            table@.dom().contains(module) <==> graph.deep_view().modules.contains(module)
                || connected(graph.deep_view().edges, module),
        forall|module: Seq<char>| #[trigger]
            table@.dom().contains(module) ==> table@[module] == edge_counts(
                graph.deep_view().edges,
                module,
            ),
{
    let ghost modules = graph.modules.deep_view();
    let ghost all = graph.edges.deep_view();
    let ghost none: Seq<TopLevelEdgeView> = seq![];
    let mut table: OrderedMap<String, ModuleEdgeCounts> = OrderedMap::new();
    let mut i: usize = 0;
    assert(tells_counts(table@, modules.take(0), none));
    while i < graph.modules.len()
        invariant
            modules == graph.modules.deep_view(),
            none == Seq::<TopLevelEdgeView>::empty(),
            i <= graph.modules.len(),
            table.well_formed(),
            tells_counts(table@, modules.take(i as int), none),
        decreases graph.modules.len() - i,
    {
        let ghost held = table@;
        let ghost done = modules.take(i as int);
        let ghost more = modules.take(i + 1);
        table.put(graph.modules[i].clone(), ModuleEdgeCounts { incoming: 0, outgoing: 0 });
        proof {
            let added = modules[i as int];
            assert(more =~= done.push(added));
            assert forall|module: Seq<char>|
                {
                    &&& #[trigger] table@.dom().contains(module) <==> more.contains(module)
                        || connected(none, module)
                    &&& table@.dom().contains(module) ==> table@[module] == edge_counts(
                        none,
                        module,
                    )
                } by {
                assert(held.dom().contains(module) <==> done.contains(module) || connected(
                    none,
                    module,
                ));
                if done.contains(module) {
                    assert(more[done.index_of(module)] == module);
                }
                assert(more[i as int] == added);
            }
        }
        i = i + 1;
    }
    let mut j: usize = 0;
    assert(modules.take(i as int) =~= modules);
    assert(all.take(0) =~= none);
    while j < graph.edges.len()
        invariant
            all == graph.edges.deep_view(),
            countable(all),
            j <= graph.edges.len(),
            table.well_formed(),
            tells_counts(table@, modules, all.take(j as int)),
        decreases graph.edges.len() - j,
    {
        let edge = &graph.edges[j];
        let ghost done = all.take(j as int);
        let ghost more = all.take(j + 1);
        let ghost held = table@;
        proof {
            assert(more.drop_last() =~= done);
            assert(more.last() == edge.deep_view());
            lemma_counts_grow(all, j + 1, edge.from@);
            lemma_counts_grow(all, j + 1, edge.to@);
            assert(outgoing(all, edge.from@) <= usize::MAX);
            assert(incoming(all, edge.to@) <= usize::MAX);
            if !connected(done, edge.from@) {
                lemma_unconnected(done, edge.from@);
            }
            if !connected(done, edge.to@) {
                lemma_unconnected(done, edge.to@);
            }
            assert(held.dom().contains(edge.from@) ==> held[edge.from@] == edge_counts(
                done,
                edge.from@,
            ));
            assert(held.dom().contains(edge.to@) ==> held[edge.to@] == edge_counts(done, edge.to@));
            lemma_counts_grow(all, j as int, edge.from@);
            lemma_counts_grow(all, j as int, edge.to@);
        }
        let from = counts_in(&table, &edge.from);
        table.put(
            edge.from.clone(),
            ModuleEdgeCounts { incoming: from.incoming, outgoing: from.outgoing + edge.count },
        );
        let to = counts_in(&table, &edge.to);
        table.put(
            edge.to.clone(),
            ModuleEdgeCounts { incoming: to.incoming + edge.count, outgoing: to.outgoing },
        );
        proof {
            assert forall|module: Seq<char>|
                {
                    &&& #[trigger] table@.dom().contains(module) <==> modules.contains(module)
                        || connected(more, module)
                    &&& table@.dom().contains(module) ==> table@[module] == edge_counts(
                        more,
                        module,
                    )
                } by {
                lemma_connected_step(more, module);
                assert(held.dom().contains(module) <==> modules.contains(module) || connected(
                    done,
                    module,
                ));
                lemma_counts_grow(all, j + 1, module);
                assert(outgoing(all, module) <= usize::MAX && incoming(all, module) <= usize::MAX);
            }
        }
        j = j + 1;
    }
    assert(all.take(j as int) =~= all);
    table
}

/// A module of the graph with its counts.
#[derive(Debug, PartialEq, Eq)]
pub struct NodeCounts {
    pub id: String,
    pub incoming: usize,
    pub outgoing: usize,
}

/// The modules of the graph in their order, each with its counts.
pub fn node_counts(graph: &TopLevelGraph) -> (nodes: Vec<NodeCounts>)
    requires
        countable(graph.deep_view().edges),
    ensures
        nodes.len() == graph.deep_view().modules.len(),
        forall|i: int|
            0 <= i < nodes.len() ==> (#[trigger] nodes[i]).id@ == graph.deep_view().modules[i],
        forall|i: int|
            0 <= i < nodes.len() ==> (#[trigger] nodes[i]).incoming == incoming(
                graph.deep_view().edges,
                graph.deep_view().modules[i],
            ),
        forall|i: int|
            0 <= i < nodes.len() ==> (#[trigger] nodes[i]).outgoing == outgoing(
                graph.deep_view().edges,
                graph.deep_view().modules[i],
            ),
{
    let ghost view = graph.deep_view();
    let table = module_edge_counts(graph);
    let mut nodes: Vec<NodeCounts> = Vec::new();
    let mut i: usize = 0;
    while i < graph.modules.len()
        invariant
            view == graph.deep_view(),
            countable(view.edges),
            i <= graph.modules.len(),
            nodes.len() == i,
            table.well_formed(),
            forall|module: Seq<char>| #[trigger]
                table@.dom().contains(module) <==> view.modules.contains(module) || connected(
                    view.edges,
                    module,
                ),
            forall|module: Seq<char>| #[trigger]
                table@.dom().contains(module) ==> table@[module] == edge_counts(view.edges, module),
            forall|j: int| 0 <= j < i ==> (#[trigger] nodes[j]).id@ == view.modules[j],
            forall|j: int|
                0 <= j < i ==> (#[trigger] nodes[j]).incoming == incoming(
                    view.edges,
                    view.modules[j],
                ),
            forall|j: int|
                0 <= j < i ==> (#[trigger] nodes[j]).outgoing == outgoing(
                    view.edges,
                    view.modules[j],
                ),
        decreases graph.modules.len() - i,
    {
        let module = &graph.modules[i];
        proof {
            assert(view.modules[i as int] == module@);
            assert(view.modules.contains(module@));
            assert(table@.dom().contains(module@));
            assert(outgoing(view.edges, module@) <= usize::MAX);
        }
        let counts = counts_in(&table, module);
        nodes.push(
            NodeCounts {
                id: module.clone(),
                incoming: counts.incoming,
                outgoing: counts.outgoing,
            },
        );
        i = i + 1;
    }
    nodes
}

/// The text with each character replaced by what `rule` makes of it.
pub open spec fn rewritten(text: Seq<char>, rule: spec_fn(char) -> Seq<char>) -> Seq<char>
    decreases text.len(),
{
    if text.len() == 0 {
        seq![]
    } else {
        rewritten(text.drop_last(), rule) + rule(text.last())
    }
}

/// How a character is written in HTML.
pub open spec fn html_character(c: char) -> Seq<char> {
    if c == '&' {
        "&amp;"@
    } else if c == '<' {
        "&lt;"@
    } else if c == '>' {
        "&gt;"@
    } else if c == '"' {
        "&quot;"@
    } else if c == '\'' {
        "&#39;"@
    } else {
        seq![c]
    }
}

/// `text` as it is written in HTML.
pub open spec fn escaped_html(text: Seq<char>) -> Seq<char> {
    rewritten(text, |c: char| html_character(c))
}

/// Writes `input` as HTML text.
pub fn escape_html(input: &str) -> (output: String)
    ensures
        output@ == escaped_html(input@),
{
    let ghost rule = |c: char| html_character(c);
    let mut output = String::new();
    for c in rest: input.chars()
        invariant
            rest.seq() == input@,
            rule == (|c: char| html_character(c)),
            output@ == rewritten(input@.take(rest.index() as int), rule),
    {
        let ghost held = output@;
        proof {
            let longer = input@.take(rest.index() + 1);
            assert(longer.drop_last() =~= input@.take(rest.index() as int));
            assert(longer.last() == c);
        }
        if c == '&' {
            output.append("&amp;");
        } else if c == '<' {
            output.append("&lt;");
        } else if c == '>' {
            output.append("&gt;");
        } else if c == '"' {
            output.append("&quot;");
        } else if c == '\'' {
            output.append("&#39;");
        } else {
            output.push(c);
        }
        assert(output@ =~= held + html_character(c));
    }
    assert(input@.take(input@.len() as int) =~= input@);
    output
}

/// How a character of JSON is written inside a script element.
pub open spec fn script_character(c: char) -> Seq<char> {
    if c == '&' {
        "\\u0026"@
    } else if c == '<' {
        "\\u003c"@
    } else if c == '>' {
        "\\u003e"@
    } else {
        seq![c]
    }
}

/// The JSON `text` as it is written inside a script element.
pub open spec fn escaped_script_json(text: Seq<char>) -> Seq<char> {
    rewritten(text, |c: char| script_character(c))
}

/// Writes the JSON text `input` so that it can stand inside a script element.
pub fn escape_script_json(input: &str) -> (output: String)
    ensures
        output@ == escaped_script_json(input@),
{
    let ghost rule = |c: char| script_character(c);
    let mut output = String::new();
    for c in rest: input.chars()
        invariant
            rest.seq() == input@,
            rule == (|c: char| script_character(c)),
            output@ == rewritten(input@.take(rest.index() as int), rule),
    {
        let ghost held = output@;
        proof {
            let longer = input@.take(rest.index() + 1);
            assert(longer.drop_last() =~= input@.take(rest.index() as int));
            assert(longer.last() == c);
        }
        if c == '&' {
            output.append("\\u0026");
        } else if c == '<' {
            output.append("\\u003c");
        } else if c == '>' {
            output.append("\\u003e");
        } else {
            output.push(c);
        }
        assert(output@ =~= held + script_character(c));
    }
    assert(input@.take(input@.len() as int) =~= input@);
    output
}

/// The row of the table for an edge.
pub open spec fn table_row(edge: TopLevelEdgeView) -> Seq<char> {
    "<tr><td>"@ + escaped_html(edge.from) + "</td><td>"@ + escaped_html(edge.to) + "</td><td>"@
        + decimal(edge.count as nat) + "</td></tr>\n"@
}

/// The rows of the table, one for each edge.
pub open spec fn table_rows(edges: Seq<TopLevelEdgeView>) -> Seq<char>
    decreases edges.len(),
{
    if edges.len() == 0 {
        seq![]
    } else {
        table_rows(edges.drop_last()) + table_row(edges.last())
    }
}

fn append_row(rows: &mut String, edge: &TopLevelEdge)
    ensures
        final(rows)@ == old(rows)@ + table_row(edge.deep_view()),
{
    let ghost held = rows@;
    rows.append("<tr><td>");
    rows.append(escape_html(edge.from.as_str()).as_str());
    rows.append("</td><td>");
    rows.append(escape_html(edge.to.as_str()).as_str());
    rows.append("</td><td>");
    rows.append(decimal_text(edge.count as u128).as_str());
    rows.append("</td></tr>\n");
    assert(rows@ =~= held + table_row(edge.deep_view()));
}

/// The page that shows `graph`, whose layout and edges are the JSON text `graph_json`.
pub open spec fn page(graph: TopLevelGraphView, graph_json: Seq<char>) -> Seq<char> {
    PAGE_START@ + PAGE_STYLE@ + PAGE_HEADING@ + decimal(graph.modules.len()) + PAGE_AFTER_MODULES@
        + decimal(graph.edges.len()) + PAGE_EDGES@ + PAGE_AFTER_EDGES@ + TABLE_HEAD@ + table_rows(graph.edges) + PAGE_AFTER_ROWS@
        + escaped_script_json(graph_json) + PAGE_AFTER_DATA@ + GRAPH_SCRIPT@ + PAGE_END@
}

/// Writes the page that shows `graph`. The data that the script draws, the positions of the
/// modules among it, are the JSON text `graph_json`.
pub fn render_top_level_html(graph: &TopLevelGraph, graph_json: &str) -> (html: String)
    ensures
        html@ == page(graph.deep_view(), graph_json@),
{
    let ghost edges = graph.edges.deep_view();
    let mut rows = String::new();
    let mut i: usize = 0;
    assert(edges.take(0) =~= seq![]);
    while i < graph.edges.len()
        invariant
            edges == graph.edges.deep_view(),
            i <= graph.edges.len(),
            rows@ == table_rows(edges.take(i as int)),
        decreases graph.edges.len() - i,
    {
        proof {
            assert(edges.take(i + 1).drop_last() =~= edges.take(i as int));
            assert(edges.take(i + 1).last() == graph.edges[i as int].deep_view());
        }
        append_row(&mut rows, &graph.edges[i]);
        i = i + 1;
    }
    assert(edges.take(i as int) =~= edges);
    let mut html = String::new();
    html.append(PAGE_START);
    html.append(PAGE_STYLE);
    html.append(PAGE_HEADING);
    html.append(decimal_text(graph.modules.len() as u128).as_str());
    html.append(PAGE_AFTER_MODULES);
    html.append(decimal_text(graph.edges.len() as u128).as_str());
    html.append(PAGE_EDGES);
    html.append(PAGE_AFTER_EDGES);
    html.append(TABLE_HEAD);
    html.append(rows.as_str());
    html.append(PAGE_AFTER_ROWS);
    html.append(escape_script_json(graph_json).as_str());
    html.append(PAGE_AFTER_DATA);
    html.append(graph_script());
    html.append(PAGE_END);
    assert(html@ =~= page(graph.deep_view(), graph_json@));
    html
}

} // verus!
