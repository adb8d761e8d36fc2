use dep_analysis::analyzer::{
    analyze_project, dependency_usages_for_file, normalize_path, Action, Analyzer,
};
use dep_analysis::dependencies::{internal_dependencies, InternalDependency};
use dep_analysis::modules::{
    module_dir_for_child_modules, module_file_for, module_files_referenced_by, path_attribute,
};
use dep_analysis::path::FilePath;
use dep_analysis::prefix::PathStyle;
use dep_analysis::resolve::{
    absolute_module_candidate, has_module_prefix, module_path_to_string, resolve_internal_module,
    usage_path_segments, Usage,
};
use dep_analysis::syntax::{ModuleEvent, SourceFile, WrittenAttribute};
use dep_analysis::table::OrderedSet;

/// A file system in memory: the text of each file under its path.
type Files<'a> = [(&'a str, &'a str)];

fn path(text: &str) -> FilePath {
    FilePath::of_text(PathStyle::Unix, text)
}

/// The path as it was written.
fn shown(path: &FilePath) -> String {
    String::from_utf8(path.bytes().clone()).unwrap()
}

fn texts(parts: &[&str]) -> Vec<String> {
    parts.iter().map(|part| part.to_string()).collect()
}

fn contents<'a>(files: &Files<'a>, file: &FilePath) -> Option<&'a str> {
    files.iter().find(|(name, _)| path(name) == *file).map(|(_, text)| *text)
}

/// Walks over the files from `root` on. Also returns the paths that were read.
fn walk(files: &Files, root: &str) -> (Analyzer, Vec<String>) {
    let mut analyzer = analyze_project(path(root));
    let mut read = Vec::new();
    loop {
        match analyzer.next_action() {
            Action::Canonicalize { path } => {
                analyzer.canonicalized(contents(files, &path).map(|_| path))
            }
            Action::Read { path } => {
                read.push(shown(&path));
                analyzer.contents_read(match contents(files, &path) {
                    Some(text) => Ok(text.to_owned()),
                    None => Err("no such file".to_owned()),
                })
            }
            Action::Probe { path } => analyzer.probed(contents(files, &path).is_some()),
            Action::Finish | Action::Fail { .. } => return (analyzer, read),
        }
    }
}

fn usages(files: &Files, root: &str) -> Result<Vec<Usage>, String> {
    told_usages(walk(files, root).0)
}

/// The usages that were found, or what is said of the failure.
fn told_usages(analyzer: Analyzer) -> Result<Vec<Usage>, String> {
    dependency_usages_for_file(analyzer)
        .map_err(|failure| failure.message(&shown(failure.path().unwrap())))
}

fn dependencies(files: &Files, root: &str) -> Vec<InternalDependency> {
    let analysis = walk(files, root).0.into_analysis();
    internal_dependencies(&analysis.usages, &analysis.module_paths)
}

fn file_usage(file: &str, module: &[&str], line: usize, origin: &str, symbol: &str) -> Usage {
    Usage {
        file: path(file),
        module: texts(module),
        line,
        origin: origin.to_owned(),
        symbol: symbol.to_owned(),
    }
}

fn internal_dep(file: &str, line: usize, from: &str, to: &str) -> InternalDependency {
    InternalDependency {
        file: path(file),
        line,
        from_module: from.to_owned(),
        to_module: to.to_owned(),
    }
}

fn modules(paths: &[&[&str]]) -> OrderedSet<Vec<String>> {
    let mut set = OrderedSet::new();
    for module in paths {
        set.insert(texts(module));
    }
    set
}

#[test]
fn recurses_into_referenced_module_files() {
    let files = [
        ("/repo/lib.rs", "\nuse root_dep::Root;\nmod child;\n"),
        ("/repo/child.rs", "\nuse child_dep::Child;\nmod grand;\n"),
        ("/repo/child/grand.rs", "\nuse grand_dep::Grand;\n"),
    ];

    assert_eq!(
        usages(&files, "/repo/lib.rs").unwrap(),
        [
            file_usage("/repo/lib.rs", &["crate"], 2, "root_dep", "Root"),
            file_usage("/repo/child.rs", &["crate", "child"], 2, "child_dep", "Child"),
            file_usage(
                "/repo/child/grand.rs",
                &["crate", "child", "grand"],
                2,
                "grand_dep",
                "Grand"
            ),
        ]
    );
}

#[test]
fn recurses_into_mods_declared_inside_inline_modules() {
    let files = [
        ("/repo/lib.rs", "\nmod outer {\n    mod inner;\n}\n"),
        ("/repo/outer/inner.rs", "\nuse inner_dep::Inner;\n"),
    ];

    assert_eq!(
        usages(&files, "/repo/lib.rs").unwrap(),
        [file_usage(
            "/repo/outer/inner.rs",
            &["crate", "outer", "inner"],
            2,
            "inner_dep",
            "Inner"
        )]
    );
}

#[test]
fn resolves_raw_identifier_module_filenames() {
    let files = [
        ("/repo/lib.rs", "\nmod r#type;\n"),
        ("/repo/type.rs", "\nuse type_dep::TypeDep;\n"),
    ];

    assert_eq!(
        usages(&files, "/repo/lib.rs").unwrap(),
        [file_usage("/repo/type.rs", &["crate", "type"], 2, "type_dep", "TypeDep")]
    );
}

#[test]
fn internal_dependencies_resolve_known_modules() {
    let files = [
        ("/repo/lib.rs", "\nmod a;\nmod b;\n"),
        (
            "/repo/a.rs",
            "\nuse crate::b::Thing;\nuse self::nested::NestedThing;\nmod nested;\n",
        ),
        ("/repo/b.rs", ""),
        ("/repo/a/nested.rs", ""),
    ];

    assert_eq!(
        dependencies(&files, "/repo/lib.rs"),
        [
            internal_dep("/repo/a.rs", 2, "crate::a", "crate::b"),
            internal_dep("/repo/a.rs", 3, "crate::a", "crate::a::nested"),
        ]
    );
}

#[test]
fn internal_dependencies_use_inline_module_names() {
    let files = [
        (
            "/repo/lib.rs",
            r#"
mod b;
mod outer {
    mod inner;

    fn f() {
        self::inner::Thing::new();
        crate::b::Thing::new();
    }
}
"#,
        ),
        ("/repo/b.rs", ""),
        ("/repo/outer/inner.rs", ""),
    ];

    assert_eq!(
        dependencies(&files, "/repo/lib.rs"),
        [
            internal_dep("/repo/lib.rs", 7, "crate::outer", "crate::outer::inner"),
            internal_dep("/repo/lib.rs", 8, "crate::outer", "crate::b"),
        ]
    );
}

#[test]
fn walks_depth_first_and_reads_no_file_twice() {
    let files = [
        ("/r/main.rs", "mod a; mod b; #[path(\"a.rs\")] mod again;"),
        ("/r/a.rs", "mod x; #[path(\"../main.rs\")] mod back;"),
        ("/r/a/x.rs", "use dep::X;"),
        ("/r/b.rs", "#[path(\"/r/b.rs\")] mod itself;"),
    ];
    let (analyzer, read) = walk(&files, "/r/main.rs");
    assert_eq!(
        read,
        ["/r/main.rs", "/r/a.rs", "/r/a/x.rs", "/r/a/../main.rs"]
    );
    assert_eq!(
        told_usages(analyzer),
        Err("failed to read /r/a/../main.rs: no such file".to_owned())
    );

    let files = [
        ("/r/main.rs", "mod a; mod b; #[path(\"a.rs\")] mod again;"),
        ("/r/a.rs", "mod x; #[path(\"/r/main.rs\")] mod back;"),
        ("/r/a/x.rs", "use dep::X;"),
        ("/r/b.rs", "#[path(\"/r/./b.rs\")] mod itself;"),
    ];
    let (analyzer, read) = walk(&files, "/r/main.rs");
    assert_eq!(read, ["/r/main.rs", "/r/a.rs", "/r/a/x.rs", "/r/b.rs"]);
    let analysis = analyzer.into_analysis();
    assert_eq!(
        analysis.usages,
        [file_usage("/r/a/x.rs", &["crate", "a", "x"], 1, "dep", "X")]
    );
    assert_eq!(
        analysis.module_paths.into_vec(),
        [
            texts(&["crate"]),
            texts(&["crate", "a"]),
            texts(&["crate", "a", "x"]),
            texts(&["crate", "b"]),
        ]
    );
}

#[test]
fn each_usage_lies_in_a_known_module() {
    let files = [
        ("lib.rs", "use d::A; mod m { use d::B; mod n { use d::C; } use d::D; } mod f;"),
        ("f/mod.rs", "mod g { use d::E; }"),
    ];
    let analysis = walk(&files, "lib.rs").0.into_analysis();
    assert_eq!(analysis.usages.len(), 5);
    for usage in &analysis.usages {
        assert!(analysis.module_paths.contains(&usage.module));
    }
    assert_eq!(analysis.usages[4].module, texts(&["crate", "f", "g"]));
    assert_eq!(analysis.usages[4].file, path("f/mod.rs"));
    for module in analysis.module_paths.into_vec() {
        assert_eq!(module[0], "crate");
    }
}

#[test]
fn findings_outlast_a_failure() {
    let files = [
        ("lib.rs", "use d::A; mod m { mod n { use d::B; } } mod f; mod gone;"),
        ("f.rs", "use d::C; mod g;"),
        ("f/g.rs", "use d::D;"),
    ];
    let analysis = walk(&files, "lib.rs").0.into_analysis();
    let symbols = analysis.usages.iter().map(|usage| usage.symbol.clone()).collect::<Vec<_>>();
    assert_eq!(symbols, ["A", "B", "C", "D"]);
    assert!(analysis.module_paths.contains(&texts(&["crate", "gone"])));
    for module in analysis.module_paths.into_vec() {
        for length in 1..=module.len() {
            let around = module[..length].to_vec();
            assert!(walk(&files, "lib.rs").0.into_analysis().module_paths.contains(&around));
        }
    }
}

#[test]
fn imports_are_not_searched_for_names() {
    let files = [
        ("lib.rs", "#[a = { mod x { use d::X; mod y; } }] use b::C;"),
        ("x/y.rs", "use d::Y;"),
    ];
    let analysis = walk(&files, "lib.rs").0.into_analysis();
    let symbols = analysis.usages.iter().map(|usage| usage.symbol.clone()).collect::<Vec<_>>();
    assert_eq!(symbols, ["C", "Y"]);
    assert_eq!(
        analysis.module_paths.into_vec(),
        [texts(&["crate"]), texts(&["crate", "x", "y"])]
    );
}

#[test]
fn no_use_of_a_crate_is_listed_twice() {
    let files = [
        ("lib.rs", "mod a; mod b; use d::X; fn f() { d::X; }"),
        ("a.rs", "use d::X; fn f() { d::X; } mod m { use d::X; }"),
        ("b.rs", "#[path(\"./../a.rs\")] mod c; #[path(\"/a.rs\")] mod d; use d::X;"),
        ("/a.rs", "use d::X;"),
    ];
    let mut files = files.to_vec();
    files.push(("b/./../a.rs", "use d::X;"));
    let usages = usages(&files, "lib.rs").unwrap();
    for (i, left) in usages.iter().enumerate() {
        for right in &usages[i + 1..] {
            assert!(
                left.file != right.file
                    || left.module != right.module
                    || left.origin != right.origin
                    || left.symbol != right.symbol
            );
        }
    }
    assert_eq!(usages.len(), 6);
}

#[test]
fn a_missing_root_cannot_be_read() {
    assert_eq!(
        usages(&[], "src//lib.rs"),
        Err("failed to read src//lib.rs: no such file".to_owned())
    );
}

#[test]
fn a_missing_module_is_looked_for_in_the_flat_file() {
    let files = [("/r/lib.rs", "mod gone;")];
    assert_eq!(
        usages(&files, "/r/lib.rs"),
        Err("failed to read /r/gone.rs: no such file".to_owned())
    );
}

#[test]
fn a_file_that_does_not_parse_ends_the_walk() {
    let files = [
        ("/r/lib.rs", "mod a; mod b;"),
        ("/r/a.rs", "fn"),
        ("/r/b.rs", ""),
    ];
    let (analyzer, read) = walk(&files, "/r/lib.rs");
    assert_eq!(read, ["/r/lib.rs", "/r/a.rs"]);
    assert_eq!(
        told_usages(analyzer),
        Err(
            "failed to parse /r/a.rs: unexpected end of input, expected identifier".to_owned()
        )
    );
}

#[test]
fn flat_files_come_before_nested_ones() {
    let files = [
        ("/r/lib.rs", "mod both; mod nested;"),
        ("/r/both.rs", "use d::Flat;"),
        ("/r/both/mod.rs", "use d::Nested;"),
        ("/r/nested/mod.rs", "use d::Below; mod deep;"),
        ("/r/nested/deep.rs", "use d::Deep;"),
    ];
    assert_eq!(
        usages(&files, "/r/lib.rs").unwrap(),
        [
            file_usage("/r/both.rs", &["crate", "both"], 1, "d", "Flat"),
            file_usage("/r/nested/mod.rs", &["crate", "nested"], 1, "d", "Below"),
            file_usage("/r/nested/deep.rs", &["crate", "nested", "deep"], 1, "d", "Deep"),
        ]
    );
}

#[test]
fn only_parenthesized_path_attributes_count() {
    let files = [
        ("/r/lib.rs", "#[path = \"x.rs\"] mod a; #[doc(hidden)] #[path(\"y.rs\")] mod b;"),
        ("/r/a.rs", "use d::A;"),
        ("/r/y.rs", "use d::Y;"),
    ];
    assert_eq!(
        usages(&files, "/r/lib.rs").unwrap(),
        [
            file_usage("/r/a.rs", &["crate", "a"], 1, "d", "A"),
            file_usage("/r/y.rs", &["crate", "b"], 1, "d", "Y"),
        ]
    );
}

#[test]
fn the_first_path_attribute_with_an_argument_counts() {
    let attribute = |name: Option<&str>, argument: Option<&str>| WrittenAttribute {
        name: name.map(|text| text.to_owned()),
        argument: argument.map(|text| text.to_owned()),
    };
    assert_eq!(
        path_attribute(&vec![
            attribute(None, Some("a")),
            attribute(Some("cfg"), Some("b")),
            attribute(Some("path"), None),
            attribute(Some("path"), Some("c")),
            attribute(Some("path"), Some("d")),
        ]),
        Some("c".to_owned())
    );
    assert_eq!(path_attribute(&vec![attribute(Some("path"), None)]), None);
}

#[test]
fn inline_modules_have_directories_of_their_own() {
    let file = SourceFile {
        names: vec![],
        modules: vec![
            ModuleEvent::Enter { ident: "a".to_owned() },
            ModuleEvent::Enter { ident: "r#b".to_owned() },
            ModuleEvent::Declare { ident: "c".to_owned(), attributes: vec![] },
            ModuleEvent::Leave,
            ModuleEvent::Leave,
            ModuleEvent::Declare { ident: "r#d".to_owned(), attributes: vec![] },
        ],
    };
    let candidates = module_files_referenced_by(&file, path("/r"), &texts(&["crate"]));
    assert_eq!(candidates.len(), 2);
    assert_eq!(candidates[0].module, texts(&["crate", "a", "b", "c"]));
    assert_eq!(shown(&candidates[0].flat), "/r/a/b/c.rs");
    assert_eq!(shown(&candidates[0].nested), "/r/a/b/c/mod.rs");
    assert_eq!(candidates[0].explicit, None);
    assert_eq!(candidates[1].module, texts(&["crate", "d"]));
    assert_eq!(shown(&candidates[1].flat), "/r/d.rs");
}

#[test]
fn the_file_of_a_module() {
    let candidate = |explicit: bool| {
        let attributes = if explicit {
            vec![WrittenAttribute {
                name: Some("path".to_owned()),
                argument: Some("e.rs".to_owned()),
            }]
        } else {
            vec![]
        };
        let file = SourceFile {
            names: vec![],
            modules: vec![ModuleEvent::Declare { ident: "m".to_owned(), attributes }],
        };
        module_files_referenced_by(&file, path("d"), &texts(&["crate"])).remove(0)
    };
    assert_eq!(module_file_for(candidate(false), true, true).file, path("d/m.rs"));
    assert_eq!(module_file_for(candidate(false), false, true).file, path("d/m/mod.rs"));
    assert_eq!(module_file_for(candidate(false), false, false).file, path("d/m.rs"));
    assert_eq!(module_file_for(candidate(true), true, true).file, path("d/e.rs"));
    assert_eq!(module_file_for(candidate(true), true, true).module, texts(&["crate", "m"]));
}

#[test]
fn child_modules_lie_beside_or_below_their_file() {
    for (file, directory) in [
        ("/r/src/lib.rs", "/r/src"),
        ("/r/src/main.rs", "/r/src"),
        ("/r/src/a/mod.rs", "/r/src/a"),
        ("/r/src/a.rs", "/r/src/a"),
        ("src//b.c.rs", "src/b.c"),
        ("lib.rs", ""),
        ("a.rs", "a"),
        (".rs", ".rs"),
        ("a/..", "a/"),
        ("/", "./"),
        ("", "./"),
    ] {
        assert_eq!(shown(&module_dir_for_child_modules(&path(file))), directory);
    }
}

#[test]
fn paths_are_normalized_where_they_can_be() {
    assert_eq!(shown(&normalize_path(path("a"), Some(path("/b")))), "/b");
    assert_eq!(shown(&normalize_path(path("a"), None)), "a");
}

#[test]
fn resolves_to_the_longest_known_module() {
    let known = modules(&[&["crate"], &["crate", "a"], &["crate", "a", "b"], &["crate", "c"]]);
    let resolve = |module: &[&str], origin: &str, symbol: &str| {
        resolve_internal_module(&file_usage("f", module, 1, origin, symbol), &known)
    };
    assert_eq!(resolve(&["crate"], "crate::a", "b::T"), Some(texts(&["crate", "a", "b"])));
    assert_eq!(resolve(&["crate"], "crate::a", "x::T"), Some(texts(&["crate", "a"])));
    assert_eq!(resolve(&["crate"], "crate::x", "T"), Some(texts(&["crate"])));
    assert_eq!(resolve(&["crate", "a"], "self::b", "T"), Some(texts(&["crate", "a", "b"])));
    assert_eq!(resolve(&["crate", "a"], "super::c", "T"), Some(texts(&["crate", "c"])));
    assert_eq!(resolve(&["crate"], "super::c", "T"), None);
    assert_eq!(resolve(&["crate", "a"], "c", "T"), Some(texts(&["crate", "a"])));
    assert_eq!(resolve(&["crate"], "a::b", "*"), Some(texts(&["crate", "a", "b"])));
    assert_eq!(resolve(&["elsewhere"], "c", "T"), Some(texts(&["crate", "c"])));
    assert_eq!(resolve(&["elsewhere"], "", "*"), None);
}

#[test]
fn local_roots_stand_for_modules() {
    let known = modules(&[]);
    let absolute = |from: &[&str], path: &[&str]| {
        absolute_module_candidate(&texts(from), &texts(path), &known)
    };
    let direct = absolute(&["crate"], &["crate", "a", "x", "T"]);
    assert_eq!(direct, Some(texts(&["crate", "a", "x", "T"])));
    assert_eq!(absolute(&["crate", "a"], &["self", "x", "T"]), direct);
    assert_eq!(absolute(&["crate", "a", "b"], &["super", "x", "T"]), direct);
    assert_eq!(absolute(&[], &["super", "T"]), Some(texts(&["T"])));
    assert_eq!(absolute(&["crate"], &["x", "T"]), None);
    assert_eq!(absolute(&["crate"], &[]), None);
}

#[test]
fn near_modules_come_before_those_below_the_root() {
    let known = modules(&[&["m", "a"], &["crate", "a"]]);
    assert_eq!(
        absolute_module_candidate(&texts(&["m"]), &texts(&["a", "T"]), &known),
        Some(texts(&["m", "a", "T"]))
    );
    assert_eq!(
        absolute_module_candidate(&texts(&["n"]), &texts(&["a", "T"]), &known),
        Some(texts(&["crate", "a", "T"]))
    );
}

#[test]
fn module_prefixes() {
    let known = modules(&[&["a", "b"]]);
    assert!(has_module_prefix(&texts(&["a", "b"]), &known));
    assert!(has_module_prefix(&texts(&["a", "b", "c"]), &known));
    assert!(!has_module_prefix(&texts(&["a"]), &known));
    assert!(!has_module_prefix(&texts(&[]), &modules(&[&[]])));
}

#[test]
fn path_segments_leave_out_globs_and_gaps() {
    let segments = |origin: &str, symbol: &str| {
        usage_path_segments(&file_usage("f", &[], 1, origin, symbol))
    };
    assert_eq!(segments("a::b", "c::d"), texts(&["a", "b", "c", "d"]));
    assert_eq!(segments("a", "*"), texts(&["a"]));
    assert_eq!(segments("::a::", "::"), texts(&["a"]));
    assert_eq!(segments("extern crate", "x"), texts(&["extern crate", "x"]));
    assert_eq!(module_path_to_string(&texts(&["a", "b", "c"])), "a::b::c");
    assert_eq!(module_path_to_string(&texts(&[])), "");
}

#[test]
fn dependencies_keep_the_least_line_and_the_first_path() {
    let known = modules(&[&["crate"], &["crate", "a"], &["crate", "b"]]);
    let usages = vec![
        file_usage("/r//z.rs", &["crate", "a"], 9, "crate::b", "T"),
        file_usage("/r/z.rs", &["crate", "a"], 4, "crate::b", "U"),
        file_usage("/r/z.rs", &["crate", "a"], 6, "crate::b", "T"),
        file_usage("/r/c.rs", &["crate", "b"], 8, "crate::a", "T"),
        file_usage("/r/c.rs", &["crate", "b"], 8, "crate::x", "T"),
        file_usage("/r/c.rs", &["crate", "b"], 1, "self::x", "T"),
        file_usage("/r/c.rs", &["crate", "b"], 1, "serde", "T"),
    ];
    let listed = internal_dependencies(&usages, &known);
    assert_eq!(
        listed,
        [
            internal_dep("/r/c.rs", 8, "crate::b", "crate"),
            internal_dep("/r/c.rs", 8, "crate::b", "crate::a"),
            internal_dep("/r/z.rs", 4, "crate::a", "crate::b"),
        ]
    );
    assert_eq!(shown(&listed[2].file), "/r//z.rs");
    for dependency in &listed {
        assert_ne!(dependency.from_module, dependency.to_module);
    }
}
