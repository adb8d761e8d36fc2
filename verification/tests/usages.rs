use dep_analysis::resolve::{usage_path_segments, Usage};
use dep_analysis::path::FilePath;
use dep_analysis::prefix::PathStyle;
use dep_analysis::syntax::{ImportTree, NameEvent, SourceFile, WrittenPath};
use dep_analysis::usage::{
    is_builtin_or_prelude_root, is_identifier, is_identifier_continue, is_identifier_start,
    is_local_root, is_reportable_origin_root, usage_from_segments, FileLocalUsage, SymbolStyle,
};
use dep_analysis::visitor::{
    dependency_usages, file_analysis_from_file, ident_to_string, usages_from_file,
    DependencyVisitor,
};

fn usages(source: &str) -> Vec<FileLocalUsage> {
    dependency_usages(source).unwrap()
}

fn usage(line: usize, origin: &str, symbol: &str) -> FileLocalUsage {
    inner_usage(&[], line, origin, symbol)
}

fn inner_usage(modules: &[&str], line: usize, origin: &str, symbol: &str) -> FileLocalUsage {
    FileLocalUsage {
        module_path_suffix: texts(modules),
        line,
        origin: origin.to_owned(),
        symbol: symbol.to_owned(),
    }
}

fn texts(parts: &[&str]) -> Vec<String> {
    parts.iter().map(|part| part.to_string()).collect()
}

fn written(segments: &[&str], line: usize) -> WrittenPath {
    WrittenPath {
        leading_colon: false,
        segments: texts(segments),
        line,
        style: SymbolStyle::Plain,
        trait_segments: None,
    }
}

/// The path that can be read back from a recorded usage.
fn path_of(usage: FileLocalUsage) -> Vec<String> {
    usage_path_segments(&Usage {
        file: FilePath::of_text(PathStyle::Unix, "lib.rs"),
        module: texts(&["crate"]),
        line: usage.line,
        origin: usage.origin,
        symbol: usage.symbol,
    })
}

#[test]
fn collects_use_tree_symbols() {
    let source = r#"
use std::collections::HashMap;
use serde::{Deserialize, Serialize};
use tokio::sync::{mpsc, oneshot as tokio_oneshot};
use crate::local::Thing;
use self::module::Local;
use super::other::LocalToo;
use uuid::*;
"#;

    assert_eq!(
        usages(source),
        [
            usage(3, "serde", "Deserialize"),
            usage(3, "serde", "Serialize"),
            usage(4, "tokio::sync", "mpsc"),
            usage(4, "tokio::sync", "oneshot"),
            usage(5, "crate::local", "Thing"),
            usage(6, "self::module", "Local"),
            usage(7, "super::other", "LocalToo"),
            usage(8, "uuid", "*"),
        ]
    );
}

#[test]
fn collects_qualified_path_symbols() {
    let source = r#"
extern crate anyhow;

#[tokio::main]
async fn main() -> anyhow::Result<()> {
    let value = serde_json::from_str::<Vec<String>>("{}")?;
    tracing::info!(?value);
    let _ = <String as anyhow::Context<()>>::context(String::new(), "missing");
    std::mem::drop(value);
    Ok(())
}
"#;

    assert_eq!(
        usages(source),
        [
            usage(2, "extern crate", "anyhow"),
            usage(4, "tokio", "main"),
            usage(5, "anyhow", "Result"),
            usage(6, "serde_json", "from_str"),
            usage(7, "tracing", "info!"),
            usage(8, "anyhow", "Context"),
            usage(8, "anyhow::Context", "context"),
        ]
    );
}

#[test]
fn reports_the_first_line_for_duplicate_usages() {
    let source = r#"
fn first() {
    tracing::info!("first");
}

fn second() {
    tracing::info!("second");
}
"#;

    assert_eq!(usages(source), [usage(3, "tracing", "info!")]);
}

#[test]
fn ignores_comments_strings_and_prelude_roots() {
    let source = r##"
// fake::dependency
/* also_fake::dependency */
const TEXT: &str = "quoted::dependency";
const RAW: &str = r#"raw::dependency"#;
fn main() {
    let value = real_dep::call();
    std::mem::drop(value);
    Ok::<(), anyhow::Error>(())
}
"##;

    assert_eq!(
        usages(source),
        [usage(7, "real_dep", "call"), usage(9, "anyhow", "Error")]
    );
}

#[test]
fn refuses_what_does_not_parse() {
    assert_eq!(dependency_usages("fn").unwrap_err(), "unexpected end of input, expected identifier");
    assert_eq!(dependency_usages(""), Ok(Vec::new()));
}

#[test]
fn lines_do_not_depend_on_what_was_parsed_before() {
    let source = "\n\nfn f(t: ((u8, u8),)) { a::b(t.0.1, -1); }\n";
    let first = usages(source);
    assert_eq!(first, [usage(3, "a", "b")]);
    for _ in 0..100 {
        usages("mod x { use y::z; }\n\n\nfn g() { p::q(-2.5); }");
    }
    assert!(dependency_usages("fn").is_err());
    assert_eq!(usages(source), first);
}

#[test]
fn records_usages_inside_inline_modules() {
    let source = "
mod outer {
    use one::A;
    mod inner {
        fn f() { two::b(); }
    }
    use three::C;
}
use four::D;
";
    assert_eq!(
        usages(source),
        [
            inner_usage(&["outer"], 3, "one", "A"),
            inner_usage(&["outer", "inner"], 5, "two", "b"),
            inner_usage(&["outer"], 7, "three", "C"),
            usage(9, "four", "D"),
        ]
    );
}

#[test]
fn paths_need_a_root() {
    assert_eq!(usages("fn f() { call(); ::call(); }"), []);
    assert_eq!(
        usages("fn f() { ::other::call(); }"),
        [usage(1, "other", "call")]
    );
}

#[test]
fn attributes_and_macros_inside_modules_are_paths() {
    let source = "
mod m {
    #[a::marked]
    fn f() { b::shout!(c::whisper()); }
}
";
    assert_eq!(
        usages(source),
        [
            inner_usage(&["m"], 3, "a", "marked"),
            inner_usage(&["m"], 4, "b", "shout!"),
        ]
    );
}

#[test]
fn raw_identifiers_lose_their_mark() {
    assert_eq!(ident_to_string("r#type"), "type");
    assert_eq!(ident_to_string("r#r#type"), "type");
    assert_eq!(ident_to_string("plain"), "plain");
    assert_eq!(ident_to_string("r"), "r");
    assert_eq!(
        usages("use r#try::r#match as other;"),
        [usage(1, "try", "match")]
    );
}

#[test]
fn usages_of_one_line_are_ordered() {
    assert_eq!(
        usages("use b::Z; use a::Y; use a::X; mod m { use a::X; }"),
        [
            usage(1, "a", "X"),
            inner_usage(&["m"], 1, "a", "X"),
            usage(1, "a", "Y"),
            usage(1, "b", "Z"),
        ]
    );
}

#[test]
fn each_usage_is_listed_once_at_its_first_line() {
    let source = "
fn f() { a::g(); }
fn h() { a::g(); b::k(); }
use a::g;
";
    assert_eq!(usages(source), [usage(2, "a", "g"), usage(3, "b", "k")]);
}

#[test]
fn analysis_lists_inline_modules_in_order_of_entry() {
    let file = SourceFile {
        names: vec![
            NameEvent::EnterModule { ident: "a".to_owned() },
            NameEvent::EnterModule { ident: "r#b".to_owned() },
            NameEvent::Path(written(&["x", "Y"], 4)),
            NameEvent::LeaveModule,
            NameEvent::LeaveModule,
            NameEvent::EnterModule { ident: "c".to_owned() },
            NameEvent::LeaveModule,
            NameEvent::Path(written(&["x", "Y"], 9)),
        ],
        modules: vec![],
    };
    let analysis = file_analysis_from_file(&file);
    assert_eq!(
        analysis.inline_module_paths,
        [texts(&["a"]), texts(&["a", "b"]), texts(&["c"])]
    );
    assert_eq!(
        analysis.usages,
        [inner_usage(&["a", "b"], 4, "x", "Y"), usage(9, "x", "Y")]
    );
    assert_eq!(usages_from_file(&file), analysis.usages);
}

#[test]
fn leaving_the_outermost_module_changes_nothing() {
    let file = SourceFile {
        names: vec![NameEvent::LeaveModule, NameEvent::Path(written(&["x", "Y"], 1))],
        modules: vec![],
    };
    assert_eq!(usages_from_file(&file), [usage(1, "x", "Y")]);
}

#[test]
fn trait_of_a_qualified_path_counts_by_itself() {
    let mut visitor = DependencyVisitor::new();
    let mut path = written(&["a", "Trait", "method"], 3);
    path.trait_segments = Some(2);
    visitor.visit(&NameEvent::Path(path));
    let mut plain = written(&["b", "Type"], 4);
    plain.trait_segments = Some(0);
    visitor.visit(&NameEvent::Path(plain));
    assert_eq!(
        visitor.into_analysis().usages,
        [
            usage(3, "a", "Trait"),
            usage(3, "a::Trait", "method"),
            usage(4, "b", "Type"),
        ]
    );
}

#[test]
fn use_tree_keeps_its_prefix() {
    let mut visitor = DependencyVisitor::new();
    let mut prefix = texts(&["root"]);
    let tree = ImportTree::Path {
        ident: "a".to_owned(),
        tree: Box::new(ImportTree::Group {
            items: vec![
                ImportTree::Name { ident: "b".to_owned(), line: 2 },
                ImportTree::Rename { ident: "c".to_owned(), line: 1 },
                ImportTree::Glob { line: 3 },
            ],
        }),
    };
    visitor.add_use_tree(&tree, &mut prefix);
    assert_eq!(prefix, texts(&["root"]));
    assert_eq!(
        visitor.into_analysis().usages,
        [
            usage(1, "root::a", "c"),
            usage(2, "root::a", "b"),
            usage(3, "root::a", "*"),
        ]
    );
}

#[test]
fn added_usage_takes_the_module_of_the_walk() {
    let mut visitor = DependencyVisitor::new();
    visitor.add_usage(None);
    visitor.visit(&NameEvent::EnterModule { ident: "m".to_owned() });
    visitor.add_usage(Some(inner_usage(&["ignored"], 5, "o", "S")));
    visitor.add_usage(Some(inner_usage(&[], 7, "o", "S")));
    visitor.add_usage(Some(inner_usage(&[], 2, "o", "S")));
    assert_eq!(visitor.into_analysis().usages, [inner_usage(&["m"], 2, "o", "S")]);
}

#[test]
fn recorded_paths_can_be_read_back() {
    for path in [
        vec!["serde", "Deserialize"],
        vec!["a", "b", "c", "D"],
        vec!["crate", "a", "B"],
        vec!["crate", "a", "b", "C"],
        vec!["self", "x", "y"],
    ] {
        let recorded = usage_from_segments(&texts(&path), 6, SymbolStyle::Plain).unwrap();
        assert_eq!(recorded.line, 6);
        assert_eq!(path_of(recorded), texts(&path));
    }
}

#[test]
fn macros_are_marked() {
    let recorded =
        usage_from_segments(&texts(&["crate", "a", "b", "c"]), 1, SymbolStyle::Macro).unwrap();
    assert_eq!(recorded.origin, "crate::a");
    assert_eq!(recorded.symbol, "b::c!");
    assert_eq!(path_of(recorded), texts(&["crate", "a", "b", "c!"]));
}

#[test]
fn globs_name_their_module() {
    let recorded = usage_from_segments(&texts(&["a", "b", "*"]), 1, SymbolStyle::Plain).unwrap();
    assert_eq!(recorded, usage(1, "a::b", "*"));
    assert_eq!(path_of(recorded), texts(&["a", "b"]));
    assert_eq!(
        usage_from_segments(&texts(&["crate", "a", "*"]), 1, SymbolStyle::Macro),
        Some(usage(1, "crate::a", "*"))
    );
    assert_eq!(
        usage_from_segments(&texts(&["crate", "a", "b", "*"]), 1, SymbolStyle::Plain),
        None
    );
}

#[test]
fn paths_that_are_not_recorded() {
    for path in [
        vec![],
        vec!["serde"],
        vec!["crate", "a"],
        vec!["std", "mem", "drop"],
        vec!["Self", "new"],
        vec!["*"],
        vec!["a", "not an identifier"],
        vec!["crate", "a", "b", "9"],
        vec!["1a", "b"],
    ] {
        assert_eq!(usage_from_segments(&texts(&path), 1, SymbolStyle::Plain), None);
    }
    assert!(usage_from_segments(&texts(&["a", "-", "b"]), 1, SymbolStyle::Plain).is_some());
}

#[test]
fn identifiers() {
    for name in ["a", "_", "_1", "Z9_z", "crate"] {
        assert!(is_identifier(name));
    }
    for name in ["", "1", "a-b", "a b", "\u{e9}", "a\u{e9}", "r#a", "*", "@", "[", "`", "{", "/", ":"] {
        assert!(!is_identifier(name));
    }
    assert!(is_identifier_start(95));
    assert!(is_identifier_start(65) && is_identifier_start(90));
    assert!(is_identifier_start(97) && is_identifier_start(122));
    assert!(!is_identifier_start(48) && !is_identifier_start(64) && !is_identifier_start(123));
    assert!(is_identifier_continue(48) && is_identifier_continue(57));
    assert!(!is_identifier_continue(47) && !is_identifier_continue(58));
    assert!(!is_identifier_continue(200));
}

#[test]
fn roots() {
    assert!(is_local_root("self") && is_local_root("super") && is_local_root("crate"));
    assert!(!is_local_root("Self") && !is_local_root("") && !is_local_root("crates"));
    for root in [
        "_", "Self", "std", "core", "alloc", "bool", "char", "str", "i8", "i16", "i32", "i64",
        "i128", "isize", "u8", "u16", "u32", "u64", "u128", "usize", "f32", "f64", "Option",
        "Some", "None", "Result", "Ok", "Err", "Vec", "String", "Box", "ToString", "From", "Into",
        "AsRef", "AsMut", "Default", "Clone", "Copy", "Drop", "Debug", "Display", "Iterator",
        "IntoIterator", "Send", "Sync", "Sized",
    ] {
        assert!(is_builtin_or_prelude_root(root));
        assert!(!is_reportable_origin_root(root));
    }
    for root in ["serde", "self", "HashMap", "vec", "standard"] {
        assert!(!is_builtin_or_prelude_root(root));
        assert!(is_reportable_origin_root(root));
    }
    assert!(!is_reportable_origin_root("9"));
}
