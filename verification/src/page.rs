//! The fixed text of the page that shows a graph.
use vstd::prelude::*;

verus! {

/// From the start of the page up to its style.
pub const PAGE_START: &'static str = r##"<!doctype html>
<html lang="en">
<head>
<meta charset="utf-8">
<meta name="viewport" content="width=device-width, initial-scale=1">
<title>Top-level module dependencies</title>
<style>
"##;

/// The style of the page.
pub const PAGE_STYLE: &'static str = r##"  :root {
    color: #18202a;
    background: #f4f7fb;
    font-family: -apple-system, BlinkMacSystemFont, "Segoe UI", sans-serif;
  }
  body {
    margin: 0;
    padding: 32px;
  }
  h1 {
    margin: 0 0 8px;
    font-size: 28px;
  }
  p {
    margin: 0 0 24px;
    color: #4a5565;
  }
  .panel {
    background: #ffffff;
    border: 1px solid #d8e0ea;
    border-radius: 8px;
    box-shadow: 0 6px 20px rgba(20, 32, 45, 0.08);
    overflow: auto;
  }
  svg {
    display: block;
    width: 100%;
    min-width: 1100px;
    height: auto;
  }
  .edge line {
    stroke: #1f5f88;
    opacity: 0.78;
    stroke-linecap: round;
  }
  .edge.outgoing line {
    stroke: #167c3f;
    opacity: 0.95;
    stroke-width: 8px;
  }
  .edge.incoming line {
    stroke: #c15c16;
    opacity: 0.95;
    stroke-width: 8px;
  }
  .edge.bidirectional line {
    stroke: #7b3fb3;
    opacity: 0.95;
    stroke-width: 8px;
  }
  .edge.hidden,
  .node.hidden {
    display: none;
  }
  .edge text {
    fill: #273444;
    font-size: 12px;
    font-weight: 700;
    paint-order: stroke;
    stroke: #ffffff;
    stroke-width: 4px;
    text-anchor: middle;
  }
  .edge.outgoing text {
    fill: #125f32;
  }
  .edge.incoming text {
    fill: #94430f;
  }
  .edge.bidirectional text {
    fill: #61318d;
  }
  .node rect {
    fill: #ffffff;
    stroke: #2f6f9f;
    stroke-width: 2px;
    rx: 8px;
  }
  .node {
    cursor: grab;
    touch-action: none;
  }
  .node.dragging {
    cursor: grabbing;
  }
  .node.selected rect {
    fill: #dff1fb;
    stroke: #bf5b12;
    stroke-width: 3px;
  }
  .node .module-name {
    fill: #17202c;
    font-size: 13px;
    font-weight: 700;
    text-anchor: middle;
    dominant-baseline: middle;
  }
  .node .module-counts {
    fill: #526174;
    font-size: 12px;
    font-weight: 600;
    text-anchor: middle;
    dominant-baseline: middle;
  }
  .legend {
    align-items: center;
    display: flex;
    flex-wrap: wrap;
    gap: 12px;
    margin: -8px 0 18px;
  }
  .legend-item {
    align-items: center;
    color: #435164;
    display: inline-flex;
    font-size: 13px;
    font-weight: 600;
    gap: 6px;
  }
  .legend-swatch {
    border-radius: 999px;
    display: inline-block;
    height: 5px;
    width: 30px;
  }
  .legend-outgoing {
    background: #167c3f;
  }
  .legend-incoming {
    background: #c15c16;
  }
  .legend-bidirectional {
    background: #7b3fb3;
  }
  table {
    width: 100%;
    border-collapse: collapse;
    margin-top: 24px;
    background: #ffffff;
    border: 1px solid #d8e0ea;
    border-radius: 8px;
    overflow: hidden;
  }
  th, td {
    padding: 10px 12px;
    border-bottom: 1px solid #e7edf4;
    text-align: left;
    font-size: 14px;
  }
  th {
    background: #e8f1f8;
  }
"##;

/// From the style of the page up to the number of modules.
pub const PAGE_HEADING: &'static str = r##"</style>
</head>
<body>
<h1>Top-level module dependencies</h1>
<p>"##;

/// Between the number of modules and the number of edges.
pub const PAGE_AFTER_MODULES: &'static str = r##" modules, "##;

/// Behind the number of edges.
pub const PAGE_EDGES: &'static str = r##" dependency edges. "##;

/// From there up to the table.
pub const PAGE_AFTER_EDGES: &'static str = r##"Drag boxes to reshape the graph; click a box to focus on its incoming, outgoing, and bidirectional dependencies.</p>
<div class="legend" aria-label="Focused edge color legend">
  <span class="legend-item"><span class="legend-swatch legend-outgoing"></span>Outgoing from selected</span>
  <span class="legend-item"><span class="legend-swatch legend-incoming"></span>Incoming to selected</span>
  <span class="legend-item"><span class="legend-swatch legend-bidirectional"></span>Bidirectional</span>
</div>
<div class="panel">
<svg viewBox="0 0 1400 900" role="img" aria-label="Top-level module dependency graph">
<defs>
  <marker id="arrow" viewBox="0 0 18 14" refX="16" refY="7" markerWidth="10" markerHeight="10" orient="auto" markerUnits="strokeWidth">
    <path d="M 2 3.5 L 17 7 L 2 10.5 Z" fill="#1f5f88" stroke="#ffffff" stroke-width="1"></path>
  </marker>
  <marker id="arrow-outgoing" viewBox="0 0 18 14" refX="16" refY="7" markerWidth="10" markerHeight="10" orient="auto" markerUnits="strokeWidth">
    <path d="M 2 3.5 L 17 7 L 2 10.5 Z" fill="#167c3f" stroke="#ffffff" stroke-width="1"></path>
  </marker>
  <marker id="arrow-incoming" viewBox="0 0 18 14" refX="16" refY="7" markerWidth="10" markerHeight="10" orient="auto" markerUnits="strokeWidth">
    <path d="M 2 3.5 L 17 7 L 2 10.5 Z" fill="#c15c16" stroke="#ffffff" stroke-width="1"></path>
  </marker>
  <marker id="arrow-bidirectional" viewBox="0 0 18 14" refX="16" refY="7" markerWidth="10" markerHeight="10" orient="auto" markerUnits="strokeWidth">
    <path d="M 2 3.5 L 17 7 L 2 10.5 Z" fill="#7b3fb3" stroke="#ffffff" stroke-width="1"></path>
  </marker>
</defs>
<g id="edges"></g>
<g id="nodes"></g>
</svg>
</div>
"##;

/// From the start of the table up to its rows.
pub const TABLE_HEAD: &'static str = r##"<table>
<thead><tr><th>From</th><th>To</th><th>References</th></tr></thead>
<tbody>
"##;

/// From the rows of the table up to the data of the graph.
pub const PAGE_AFTER_ROWS: &'static str = r##"</tbody>
</table>
<script type="application/json" id="graph-data">"##;

/// From the data of the graph up to the script.
pub const PAGE_AFTER_DATA: &'static str = "</script>\n<script>\n";

/// From the script to the end of the page.
pub const PAGE_END: &'static str = "</script>\n</body>\n</html>\n";

} // verus!
