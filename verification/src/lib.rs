pub mod analysis_laws;
pub mod analyzer;
pub mod analyzer_laws;
pub mod crate_laws;
pub mod dependencies;
pub mod dependency_laws;
pub mod failure;
pub mod file_path_laws;
pub mod graph;
pub mod graph_laws;
pub mod import_laws;
pub mod json_laws;
pub mod module_laws;
pub mod modules;
pub mod order;
pub mod order_laws;
pub mod output;
pub mod output_laws;
pub mod page;
pub mod page_laws;
pub mod path;
pub mod path_laws;
pub mod prefix;
pub mod reach_laws;
pub mod render;
pub mod render_laws;
pub mod resolve;
pub mod resolve_laws;
pub mod script;
pub mod syntax;
pub mod table;
pub mod text;
pub mod text_laws;
pub mod usage;
pub mod usage_laws;
pub mod visitor;
pub mod visitor_laws;
pub mod walk_laws;
