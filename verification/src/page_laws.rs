//! What the page says of a graph.
use crate::graph::{incoming, outgoing, TopLevelEdge, TopLevelEdgeView, TopLevelGraph};
use crate::page::{PAGE_AFTER_EDGES, PAGE_STYLE};
use crate::render::{
    escape_html, escape_script_json, escaped_html, escaped_script_json, module_edge_counts,
    node_counts, render_top_level_html, rewritten, script_character, table_rows, ModuleEdgeCounts,
    NodeCounts,
};
use crate::render_laws::{
    ampersands_start_entities, escaped_html_is_inert, escaped_script_json_is_inert, html_special,
    starts_with_entity, unescaped_html, unescaping_undoes_escaping_html,
};
use crate::script::{graph_script, GRAPH_SCRIPT};
use crate::table::OrderedMap;
use crate::text::decimal;
use vstd::prelude::*;

verus! {

/// Without edges the table has no rows, and each further edge adds one row of its own at the end:
/// its two modules, escaped, and its count.
pub proof fn each_edge_has_a_row(edges: Seq<TopLevelEdgeView>, edge: TopLevelEdgeView)
    ensures
        table_rows(Seq::<TopLevelEdgeView>::empty()) == Seq::<char>::empty(),
        table_rows(edges.push(edge)) == table_rows(edges) + "<tr><td>"@ + escaped_html(edge.from)
            + "</td><td>"@ + escaped_html(edge.to) + "</td><td>"@ + decimal(edge.count as nat)
            + "</td></tr>\n"@,
{
    let more = edges.push(edge);
    assert(more.drop_last() =~= edges);
    assert(more.last() == edge);
    assert(table_rows(more) =~= table_rows(edges) + "<tr><td>"@ + escaped_html(edge.from)
        + "</td><td>"@ + escaped_html(edge.to) + "</td><td>"@ + decimal(edge.count as nat)
        + "</td></tr>\n"@);
}

/// The rows of two lists of edges are those of the one and then those of the other.
pub proof fn rows_of_two_lists_follow_each_other(
    left: Seq<TopLevelEdgeView>,
    right: Seq<TopLevelEdgeView>,
)
    ensures
        table_rows(left + right) == table_rows(left) + table_rows(right),
    decreases right.len(),
{
    if right.len() == 0 {
        assert(left + right =~= left);
        assert(table_rows(left) + table_rows(right) =~= table_rows(left));
    } else {
        assert((left + right).drop_last() =~= left + right.drop_last());
        assert((left + right).last() == right.last());
        rows_of_two_lists_follow_each_other(left, right.drop_last());
        assert(table_rows(left + right) =~= table_rows(left) + table_rows(right));
    }
}

/// The rows of the edges of a graph: the concatenation over all edges in order of one row each.
pub open spec fn rows_of(edges: Seq<TopLevelEdge>) -> Seq<char> {
    Seq::new(
        edges.len(),
        |i: int|
            "<tr><td>"@ + escaped_html(edges[i].from@) + "</td><td>"@ + escaped_html(edges[i].to@)
                + "</td><td>"@ + decimal(edges[i].count as nat) + "</td></tr>\n"@,
    ).flatten()
}

proof fn lemma_rows(edges: Seq<TopLevelEdge>, views: Seq<TopLevelEdgeView>)
    requires
        views.len() == edges.len(),
        forall|i: int|
            0 <= i < edges.len() ==> (#[trigger] views[i]).from == edges[i].from@ && views[i].to
                == edges[i].to@ && views[i].count == edges[i].count,
    ensures
        table_rows(views) == rows_of(edges),
    decreases edges.len(),
{
    let row = |edge: TopLevelEdge|
        "<tr><td>"@ + escaped_html(edge.from@) + "</td><td>"@ + escaped_html(edge.to@)
            + "</td><td>"@ + decimal(edge.count as nat) + "</td></tr>\n"@;
    let rows = Seq::new(edges.len(), |i: int| row(edges[i]));
    assert(rows =~= Seq::new(
        edges.len(),
        |i: int|
            "<tr><td>"@ + escaped_html(edges[i].from@) + "</td><td>"@ + escaped_html(edges[i].to@)
                + "</td><td>"@ + decimal(edges[i].count as nat) + "</td></tr>\n"@,
    ));
    if edges.len() > 0 {
        let earlier = edges.drop_last();
        lemma_rows(earlier, views.drop_last());
        let fewer = Seq::new(earlier.len(), |i: int| row(earlier[i]));
        assert(fewer =~= Seq::new(
            earlier.len(),
            |i: int|
                "<tr><td>"@ + escaped_html(earlier[i].from@) + "</td><td>"@ + escaped_html(
                    earlier[i].to@,
                ) + "</td><td>"@ + decimal(earlier[i].count as nat) + "</td></tr>\n"@,
        ));
        assert(rows.drop_last() =~= fewer);
        rows.lemma_flatten_and_flatten_alt_are_equivalent();
        fewer.lemma_flatten_and_flatten_alt_are_equivalent();
        assert(rows.flatten_alt() == rows.drop_last().flatten_alt() + rows.last());
        each_edge_has_a_row(views.drop_last(), views.last());
        assert(views.drop_last().push(views.last()) =~= views);
        assert(views[views.len() - 1] == views.last());
        assert(table_rows(views) =~= rows.flatten());
    }
}

/// What a call of `render_top_level_html` gives: a document with a heading, the number of modules,
/// the number of edges, a table with one row for each edge in order, and the data of the graph,
/// escaped. The style, the drawing and the script are the same on every page.
pub proof fn pages_show_counts_rows_and_data(
    graph: TopLevelGraph,
    graph_json: &str,
    html: String,
)
    requires
        call_ensures(render_top_level_html, (&graph, graph_json), html),
    ensures
        html@ == "<!doctype html>\n<html lang=\"en\">\n<head>\n<meta charset=\"utf-8\">\n<meta name=\"viewport\" content=\"width=device-width, initial-scale=1\">\n<title>Top-level module dependencies</title>\n<style>\n"@
            + PAGE_STYLE@
            + "</style>\n</head>\n<body>\n<h1>Top-level module dependencies</h1>\n<p>"@ + decimal(graph.modules.len() as nat) + " modules, "@ + decimal(
            graph.edges.len() as nat,
        ) + " dependency edges. "@ + PAGE_AFTER_EDGES@
            + "<table>\n<thead><tr><th>From</th><th>To</th><th>References</th></tr></thead>\n<tbody>\n"@
            + rows_of(graph.edges@)
            + "</tbody>\n</table>\n<script type=\"application/json\" id=\"graph-data\">"@
            + escaped_script_json(graph_json@) + "</script>\n<script>\n"@ + GRAPH_SCRIPT@
            + "</script>\n</body>\n</html>\n"@,
{
    let view = graph.deep_view();
    assert(view.modules.len() == graph.modules.len());
    assert(view.edges.len() == graph.edges.len());
    assert forall|i: int| 0 <= i < graph.edges.len() implies (#[trigger] view.edges[i]).from
        == graph.edges[i].from@ && view.edges[i].to == graph.edges[i].to@ && view.edges[i].count
        == graph.edges[i].count by {
        assert(view.edges[i] == graph.edges[i].deep_view());
    }
    lemma_rows(graph.edges@, view.edges);
}

/// The script of a page is the same on every page.
pub proof fn scripts_are_the_same(left: &'static str, right: &'static str)
    requires
        call_ensures(graph_script, (), left),
        call_ensures(graph_script, (), right),
    ensures
        left@ == right@,
        left@ == GRAPH_SCRIPT@,
{
}

/// What a call of `escape_html` gives holds no character that is special in HTML, each ampersand in
/// it starts one of the five entities, and with the entities replaced by their characters it is
/// the text again.
pub proof fn escaped_texts_are_inert_and_can_be_read_back(text: &str, escaped: String)
    requires
        call_ensures(escape_html, (text,), escaped),
    ensures
        unescaped_html(escaped@) == text@,
        forall|i: int| 0 <= i < escaped@.len() ==> !html_special(#[trigger] escaped@[i]),
        forall|i: int|
            0 <= i < escaped@.len() && #[trigger] escaped@[i] == '&' ==> starts_with_entity(
                escaped@.skip(i),
            ),
{
    unescaping_undoes_escaping_html(text@);
    assert forall|i: int| 0 <= i < escaped@.len() implies !html_special(
        #[trigger] escaped@[i],
    ) by {
        escaped_html_is_inert(text@, i);
    }
    assert forall|i: int|
        0 <= i < escaped@.len() && #[trigger] escaped@[i] == '&' implies starts_with_entity(
        escaped@.skip(i),
    ) by {
        ampersands_start_entities(text@, i);
    }
}

/// Escaping goes character by character: an ampersand and the angle brackets become the escapes of
/// their code points, and any other character stays as it is.
pub proof fn script_data_is_escaped_character_by_character(text: Seq<char>, c: char)
    ensures
        escaped_script_json(Seq::<char>::empty()) == Seq::<char>::empty(),
        escaped_script_json(text.push('&')) == escaped_script_json(text) + "\\u0026"@,
        escaped_script_json(text.push('<')) == escaped_script_json(text) + "\\u003c"@,
        escaped_script_json(text.push('>')) == escaped_script_json(text) + "\\u003e"@,
        c != '&' && c != '<' && c != '>' ==> escaped_script_json(text.push(c))
            == escaped_script_json(text).push(c),
{
    let rule = |c: char| script_character(c);
    assert(text.push('&').drop_last() =~= text);
    assert(text.push('<').drop_last() =~= text);
    assert(text.push('>').drop_last() =~= text);
    assert(text.push(c).drop_last() =~= text);
    assert(rewritten(text.push(c), rule) == rewritten(text, rule) + rule(c));
    assert(escaped_script_json(text) + seq![c] =~= escaped_script_json(text).push(c));
}

/// What a call of `escape_script_json` gives is the text escaped, without any ampersand or angle
/// bracket.
pub proof fn escaped_script_data_is_inert(text: &str, escaped: String)
    requires
        call_ensures(escape_script_json, (text,), escaped),
    ensures
        escaped@ == escaped_script_json(text@),
        forall|i: int|
            0 <= i < escaped@.len() ==> (#[trigger] escaped@[i]) != '<' && escaped@[i] != '>'
                && escaped@[i] != '&',
{
    assert forall|i: int| 0 <= i < escaped@.len() implies (#[trigger] escaped@[i]) != '<'
        && escaped@[i] != '>' && escaped@[i] != '&' by {
        escaped_script_json_is_inert(text@, i);
    }
}

/// What edges count for a module: without edges nothing, and each further edge its count, for the
/// module that it leaves and for the one that it leads to.
pub proof fn each_edge_counts_for_its_modules(
    edges: Seq<TopLevelEdgeView>,
    edge: TopLevelEdgeView,
    module: Seq<char>,
)
    ensures
        outgoing(Seq::<TopLevelEdgeView>::empty(), module) == 0,
        incoming(Seq::<TopLevelEdgeView>::empty(), module) == 0,
        edge.from == module ==> outgoing(edges.push(edge), module) == outgoing(edges, module)
            + edge.count,
        edge.from != module ==> outgoing(edges.push(edge), module) == outgoing(edges, module),
        edge.to == module ==> incoming(edges.push(edge), module) == incoming(edges, module)
            + edge.count,
        edge.to != module ==> incoming(edges.push(edge), module) == incoming(edges, module),
{
    let more = edges.push(edge);
    assert(more.drop_last() =~= edges);
    assert(more.last() == edge);
}

/// What a call of `node_counts` gives: the modules of the graph in their order, each with what the
/// edges that lead to it count, and those that leave it.
pub proof fn nodes_tell_what_edges_count(graph: TopLevelGraph, nodes: Vec<NodeCounts>, at: int)
    requires
        call_ensures(node_counts, (&graph,), nodes),
    ensures
        nodes.len() == graph.modules.len(),
        0 <= at < nodes.len() ==> {
            let module = graph.modules[at]@;
            &&& nodes[at].id@ == module
            &&& nodes[at].incoming == incoming(graph.edges.deep_view(), module)
            &&& nodes[at].outgoing == outgoing(graph.edges.deep_view(), module)
        },
{
    assert(graph.deep_view().modules.len() == graph.modules.len());
    if 0 <= at < nodes.len() {
        assert(graph.deep_view().modules[at] == graph.modules[at]@);
    }
}

/// One more edge changes the counts of two modules alone: that of the module it leaves and that
/// of the module it leads to, by what the edge counts.
pub proof fn one_more_edge_changes_two_counts(
    graph: TopLevelGraph,
    larger: TopLevelGraph,
    nodes: Vec<NodeCounts>,
    larger_nodes: Vec<NodeCounts>,
    at: int,
)
    requires
        call_ensures(node_counts, (&graph,), nodes),
        call_ensures(node_counts, (&larger,), larger_nodes),
        larger.modules.deep_view() == graph.modules.deep_view(),
        larger.edges.len() == graph.edges.len() + 1,
        larger.edges@.drop_last() == graph.edges@,
        0 <= at < nodes.len(),
    ensures
        ({
            let edge = larger.edges@.last();
            &&& larger_nodes.len() == nodes.len()
            &&& larger_nodes[at].id@ == nodes[at].id@
            &&& larger_nodes[at].outgoing == nodes[at].outgoing + if edge.from@ == nodes[at].id@ {
                edge.count as int
            } else {
                0
            }
            &&& larger_nodes[at].incoming == nodes[at].incoming + if edge.to@ == nodes[at].id@ {
                edge.count as int
            } else {
                0
            }
        }),
{
    nodes_tell_what_edges_count(graph, nodes, at);
    assert(larger.modules.deep_view().len() == larger.modules.len());
    assert(graph.modules.deep_view().len() == graph.modules.len());
    nodes_tell_what_edges_count(larger, larger_nodes, at);
    assert(larger.modules.deep_view()[at] == larger.modules[at]@);
    assert(graph.modules.deep_view()[at] == graph.modules[at]@);
    let edges = graph.edges.deep_view();
    let more = larger.edges.deep_view();
    let edge = larger.edges@.last();
    assert forall|i: int| 0 <= i < edges.len() implies edges[i] == more[i] by {
        assert(larger.edges@.drop_last()[i] == graph.edges@[i]);
    }
    assert(more =~= edges.push(edge.deep_view()));
    each_edge_counts_for_its_modules(edges, edge.deep_view(), graph.modules[at]@);
}

/// What a call of `module_edge_counts` tells of a module: it has an entry exactly if the graph
/// names it or some edge leaves it or leads to it, and the entry holds what those edges count.
pub proof fn counts_are_told_of_every_module(
    graph: TopLevelGraph,
    table: OrderedMap<String, ModuleEdgeCounts>,
    module: Seq<char>,
)
    requires
        call_ensures(module_edge_counts, (&graph,), table),
        crate::graph::countable(graph.edges.deep_view()),
    ensures
        table@.dom().contains(module) <==> (exists|i: int|
            0 <= i < graph.modules.len() && (#[trigger] graph.modules[i])@ == module) || (exists|
            i: int,
        |
            0 <= i < graph.edges.len() && ((#[trigger] graph.edges[i]).from@ == module
                || graph.edges[i].to@ == module)),
        table@.dom().contains(module) ==> table@[module].incoming == incoming(
            graph.edges.deep_view(),
            module,
        ) && table@[module].outgoing == outgoing(graph.edges.deep_view(), module),
{
    let view = graph.deep_view();
    assert(view.modules.len() == graph.modules.len());
    assert(view.edges.len() == graph.edges.len());
    assert(outgoing(view.edges, module) <= usize::MAX);
    if view.modules.contains(module) {
        let i = view.modules.index_of(module);
        assert(graph.modules[i]@ == module);
    }
    if exists|i: int| 0 <= i < graph.modules.len() && (#[trigger] graph.modules[i])@ == module {
        let i = choose|i: int|
            0 <= i < graph.modules.len() && (#[trigger] graph.modules[i])@ == module;
        assert(view.modules[i] == module);
    }
    if crate::render::connected(view.edges, module) {
        let i = choose|i: int|
            0 <= i < view.edges.len() && ((#[trigger] view.edges[i]).from == module
                || view.edges[i].to == module);
        assert(view.edges[i] == graph.edges[i].deep_view());
        assert(graph.edges[i].from@ == module || graph.edges[i].to@ == module);
    }
    if exists|i: int|
        0 <= i < graph.edges.len() && ((#[trigger] graph.edges[i]).from@ == module
            || graph.edges[i].to@ == module) {
        let i = choose|i: int|
            0 <= i < graph.edges.len() && ((#[trigger] graph.edges[i]).from@ == module
                || graph.edges[i].to@ == module);
        assert(view.edges[i] == graph.edges[i].deep_view());
        assert(view.edges[i].from == module || view.edges[i].to == module);
    }
}

} // verus!
