use dep_analysis::modules::module_dir_for_child_modules;
use dep_analysis::order::{rank_text, Rank, Ranked};
use dep_analysis::path::{FilePath, PathComponent};
use dep_analysis::prefix::{PathStyle, PrefixKind};
use dep_analysis::table::{insert_ranked, OrderedMap, OrderedSet};
use dep_analysis::text::{
    append_texts, chars_of, copy_texts, decimal_text, join, same_texts, split, text_of,
};
use dep_analysis::usage::text_is;

fn texts(parts: &[&str]) -> Vec<String> {
    parts.iter().map(|part| part.to_string()).collect()
}

fn path(text: &str) -> FilePath {
    FilePath::of_text(PathStyle::Unix, text)
}

fn windows(text: &str) -> FilePath {
    FilePath::of_text(PathStyle::Windows, text)
}

/// The path as it was written.
fn shown(path: &FilePath) -> String {
    String::from_utf8(path.bytes().clone()).unwrap()
}

/// The path `rest`, taken from the directory `path`.
fn joined(path: FilePath, rest: &str) -> String {
    shown(&path.join(&rest.as_bytes().to_vec()))
}

/// The components of a path, each as text.
fn component_texts(path: &FilePath) -> Vec<String> {
    let text = |bytes: &Vec<u8>| String::from_utf8(bytes.clone()).unwrap();
    path.components()
        .iter()
        .map(|component| match component {
            PathComponent::Prefix(prefix) => {
                let first = text(&prefix.first);
                let second = text(&prefix.second);
                match prefix.kind {
                    PrefixKind::Verbatim => format!("<verbatim {first}>"),
                    PrefixKind::VerbatimUnc => format!("<verbatim share {first} {second}>"),
                    PrefixKind::VerbatimDisk => format!("<verbatim disk {first}>"),
                    PrefixKind::Device => format!("<device {first}>"),
                    PrefixKind::Unc => format!("<share {first} {second}>"),
                    PrefixKind::Disk => format!("<disk {first}>"),
                }
            }
            PathComponent::Root => "<root>".to_owned(),
            PathComponent::Current => "<current>".to_owned(),
            PathComponent::Parent => "<parent>".to_owned(),
            PathComponent::Name(name) => text(name),
        })
        .collect()
}

fn components(text: &str) -> Vec<String> {
    component_texts(&path(text))
}

#[test]
fn splits_at_double_colons() {
    assert_eq!(split("a::b::c"), texts(&["a", "b", "c"]));
    assert_eq!(split("a"), texts(&["a"]));
    assert_eq!(split(""), texts(&[""]));
    assert_eq!(split("::"), texts(&["", ""]));
    assert_eq!(split("a:b"), texts(&["a:b"]));
    assert_eq!(split("a:::b"), texts(&["a", ":b"]));
    assert_eq!(split("::::"), texts(&["", "", ""]));
}

#[test]
fn splitting_and_joining_undo_each_other() {
    for text in ["a::b", "", "::a::", "a:::b", "\u{fc}::x", "::::"] {
        let pieces = split(text);
        assert_eq!(join(&pieces, 0, pieces.len()), text);
        assert_eq!(text.split("::").collect::<Vec<_>>(), pieces);
    }
    for parts in [texts(&["a"]), texts(&["", "b"]), texts(&["x", "y", "z"])] {
        assert_eq!(split(&join(&parts, 0, parts.len())), parts);
    }
    assert_eq!(join(&texts(&["a", "b", "c", "d"]), 1, 3), "b::c");
    assert_eq!(join(&texts(&["a"]), 1, 1), "");
}

#[test]
fn numerals() {
    for number in [0u128, 7, 10, 99, 100, 1234567890, u128::MAX] {
        assert_eq!(decimal_text(number), number.to_string());
    }
}

#[test]
fn texts_are_copied_and_compared() {
    let list = texts(&["a", "b", "c"]);
    assert_eq!(copy_texts(&list), list);
    let mut more = texts(&["z"]);
    append_texts(&mut more, &list, 1);
    assert_eq!(more, texts(&["z", "b", "c"]));
    assert!(same_texts(&list, &texts(&["a", "b", "c"])));
    assert!(!same_texts(&list, &texts(&["a", "b"])));
    assert!(!same_texts(&list, &texts(&["a", "b", "d"])));
    assert!(text_is("x", "x") && !text_is("x", "xy") && !text_is("", "x"));
    assert_eq!(chars_of("a\u{1f600}b"), ['a', '\u{1f600}', 'b']);
    assert_eq!(text_of(&vec!['a', 'b', 'c'], 1, 2), "b");
}

#[test]
fn texts_are_ordered_as_std_orders_them() {
    let samples = ["", "a", "aa", "ab", "b", "Z", "\u{e9}", "\u{ffff}", "\u{10000}"];
    for left in samples {
        for right in samples {
            let expected = if left < right {
                Rank::Before
            } else if left == right {
                Rank::Same
            } else {
                Rank::After
            };
            assert_eq!(rank_text(left, right), expected);
        }
    }
    assert_eq!(texts(&["a"]).rank(&texts(&["a", "b"])), Rank::Before);
    assert_eq!(texts(&["b"]).rank(&texts(&["a", "b"])), Rank::After);
    assert_eq!((1usize, "b".to_owned()).rank(&(1, "a".to_owned())), Rank::After);
    assert_eq!((1usize, "b".to_owned()).rank(&(2, "a".to_owned())), Rank::Before);
}

#[test]
fn sets_are_ordered_and_hold_each_value_once() {
    let mut set: OrderedSet<String> = OrderedSet::new();
    assert!(set.insert("b".to_owned()));
    assert!(set.insert("a".to_owned()));
    assert!(!set.insert("b".to_owned()));
    assert!(set.contains(&"a".to_owned()));
    assert!(!set.contains(&"c".to_owned()));
    assert_eq!(set.into_vec(), texts(&["a", "b"]));
}

#[test]
fn maps_keep_the_last_value_or_the_least_line() {
    let mut map: OrderedMap<String, usize> = OrderedMap::new();
    map.put("b".to_owned(), 1);
    map.put("b".to_owned(), 5);
    map.note_line("a".to_owned(), 7);
    map.note_line("a".to_owned(), 9);
    map.note_line("a".to_owned(), 3);
    assert_eq!(map.get(&"a".to_owned()), Some(&3));
    assert_eq!(map.get(&"c".to_owned()), None);
    assert_eq!(map.into_parts(), (texts(&["a", "b"]), vec![3, 5]));
}

#[test]
fn items_are_put_in_their_place() {
    let mut items = vec![1usize, 3, 5];
    insert_ranked(&mut items, 4);
    insert_ranked(&mut items, 0);
    insert_ranked(&mut items, 9);
    assert_eq!(items, [0, 1, 3, 4, 5, 9]);
}

#[test]
fn path_components() {
    assert_eq!(components("/a/b"), ["<root>", "a", "b"]);
    assert_eq!(components("a//b/./c/"), ["a", "b", "c"]);
    assert_eq!(components("./a/.."), ["<current>", "a", "<parent>"]);
    assert_eq!(components("//"), ["<root>"]);
    assert_eq!(components("/./a"), ["<root>", "a"]);
    assert_eq!(components(""), Vec::<String>::new());
    assert_eq!(components("."), ["<current>"]);
    assert_eq!(components("..."), ["..."]);
}

#[test]
fn paths_are_the_same_where_their_components_are() {
    assert_eq!(path("a//b/."), path("a/b"));
    assert_ne!(path("a/b"), path("a/../a/b"));
    assert_ne!(path("/a"), path("a"));
    assert_ne!(path("./a"), path("a"));
}

#[test]
fn paths_behave_as_those_of_std() {
    let samples = [
        "", ".", "..", "/", "//", "a", "a/", "a/b", "/a", "/a/b.rs", "a//b", "a/./b", "./a",
        "/./a", "a/b/.", "a/b/..", "x.tar.gz", ".hidden", "a/.hidden.rs", "...", "..rs", "//a/b",
        "a/b//", "a./b.", "/..", "\u{fc}/\u{e9}.rs",
    ];
    for text in samples {
        let mine = path(text);
        let std = std::path::Path::new(text);
        assert_eq!(
            mine.parent().map(|parent| shown(&parent)),
            std.parent().map(|parent| parent.to_str().unwrap().to_owned())
        );
        assert_eq!(
            mine.file_name(),
            std.file_name().map(|name| name.to_str().unwrap().as_bytes().to_vec())
        );
        assert_eq!(
            mine.file_stem(),
            std.file_stem().map(|stem| stem.to_str().unwrap().as_bytes().to_vec())
        );
        for rest in samples {
            assert_eq!(joined(path(text), rest), std.join(rest).to_str().unwrap());
            let other = std::path::Path::new(rest);
            assert_eq!(mine == path(rest), std == other);
            let expected = if std < other {
                Rank::Before
            } else if std == other {
                Rank::Same
            } else {
                Rank::After
            };
            assert_eq!(mine.rank(&path(rest)), expected);
        }
        assert_eq!(mine.components().len(), std.components().count());
    }
}

#[test]
fn parents_have_the_other_components() {
    for text in ["a/b", "/a", "a//b/./c/", "./x", "a/.."] {
        let mut all = components(text);
        all.pop();
        assert_eq!(component_texts(&path(text).parent().unwrap()), all);
    }
    assert!(path("/").parent().is_none());
    assert!(path("").parent().is_none());
}

#[test]
fn joined_paths_join_their_components() {
    let join = |text: &str, rest: &str| components(&joined(path(text), rest));
    assert_eq!(join("a/b", "c/d"), ["a", "b", "c", "d"]);
    assert_eq!(join("a", "./b"), ["a", "b"]);
    assert_eq!(join("a", "/b"), ["<root>", "b"]);
    assert_eq!(join("", "./b"), ["<current>", "b"]);
    assert_eq!(joined(path("a"), ""), "a/");
}

#[test]
fn paths_need_not_be_text() {
    let unix = |bytes: &[u8]| FilePath::new(PathStyle::Unix, bytes.to_vec());
    let file = unix(b"/r\xff/\xfe.x.rs");
    assert_eq!(file.style(), PathStyle::Unix);
    assert_eq!(file.file_name(), Some(b"\xfe.x.rs".to_vec()));
    assert_eq!(file.file_stem(), Some(b"\xfe.x".to_vec()));
    assert_eq!(file.parent().unwrap().bytes(), b"/r\xff");
    assert_eq!(file.join(&b"\x80".to_vec()).bytes(), b"/r\xff/\xfe.x.rs/\x80");
    assert_eq!(unix(b"a//\xff/."), unix(b"a/\xff"));
    assert_ne!(unix(b"a/\xff"), unix(b"a/\xfe"));
    assert_eq!(unix(b"\xfe").rank(&unix(b"\xff")), Rank::Before);
    assert_eq!(module_dir_for_child_modules(&file).bytes(), b"/r\xff/\xfe.x");
    assert_eq!(module_dir_for_child_modules(&unix(b"\xff/lib.rs")).bytes(), b"\xff");
}

#[test]
fn backslashes_are_part_of_names_on_unix() {
    assert_eq!(components("a\\b/C:"), ["a\\b", "C:"]);
    assert_eq!(path("a\\b.rs").file_stem(), Some(b"a\\b".to_vec()));
}

#[test]
fn windows_components() {
    for (text, expected) in [
        ("a\\b/c", vec!["a", "b", "c"]),
        ("\\a\\.\\b", vec!["<root>", "a", "b"]),
        (".\\a\\..", vec!["<current>", "a", "<parent>"]),
        ("c:\\a", vec!["<disk C>", "<root>", "a"]),
        ("c:a", vec!["<disk C>", "a"]),
        ("c:.\\a", vec!["<disk C>", "a"]),
        ("\\\\server\\share", vec!["<share server share>", "<root>"]),
        ("//server/share/a", vec!["<share server share>", "<root>", "a"]),
        ("\\\\server", vec!["<root>", "server"]),
        ("\\\\server\\\\a", vec!["<root>", "server", "a"]),
        ("\\\\.\\pipe\\a", vec!["<device pipe>", "<root>", "a"]),
        ("\\\\?\\C:\\a\\.\\b/c", vec!["<verbatim disk C>", "<root>", "a", "<current>", "b/c"]),
        ("\\\\?\\C:", vec!["<verbatim disk C>"]),
        ("\\\\?\\C:a", vec!["<verbatim C:a>"]),
        ("\\\\?\\a\\b", vec!["<verbatim a>", "<root>", "b"]),
        ("\\\\?\\UNC\\server\\share\\a", vec!["<verbatim share server share>", "<root>", "a"]),
        ("//?/a/b", vec!["<share ? a>", "<root>", "b"]),
        ("", vec![]),
    ] {
        assert_eq!(component_texts(&windows(text)), expected, "{text}");
    }
}

#[test]
fn windows_paths_are_the_same_where_their_components_are() {
    assert_eq!(windows("c:\\a"), windows("C:/a/"));
    assert_ne!(windows("c:\\a"), windows("C:a"));
    assert_ne!(windows("\\\\?\\C:\\a"), windows("C:\\a"));
    assert_eq!(windows("\\\\?\\C:\\a").rank(&windows("\\\\.\\C\\a")), Rank::Before);
    assert_eq!(windows("\\\\s\\t").rank(&windows("C:\\a")), Rank::Before);
    assert_eq!(windows("C:\\a").rank(&windows("D:\\a")), Rank::Before);
    assert_eq!(windows("D:\\a").rank(&windows("\\a")), Rank::Before);
    assert_eq!(windows("\\a").rank(&windows("a")), Rank::Before);
    assert_eq!(windows("a\\b").rank(&windows("a/b")), Rank::Same);
}

#[test]
fn windows_paths_are_joined() {
    for (text, rest, expected) in [
        ("a", "b", "a\\b"),
        ("a\\", "b", "a\\b"),
        ("a/", "b/c", "a/b/c"),
        ("C:", "b", "C:b"),
        ("C:\\", "b", "C:\\b"),
        ("C:\\a", "\\b", "C:\\b"),
        ("C:\\a", "/b", "C:/b"),
        ("C:\\a", "D:b", "D:b"),
        ("a", "\\\\s\\t\\b", "\\\\s\\t\\b"),
        ("\\\\s\\t", "b", "\\\\s\\t\\b"),
        ("", "b", "b"),
        ("a", "", "a\\"),
        ("\\\\?\\C:\\a", "b\\..\\.\\c/d", "\\\\?\\C:\\a\\c\\d"),
        ("\\\\?\\C:\\a", "..\\..\\..\\b", "\\\\?\\C:\\b"),
        ("\\\\?\\C:\\a", "\\b", "\\\\?\\C:\\b"),
        ("\\\\?\\C:\\a", "", "\\\\?\\C:\\a\\"),
        ("\\\\?\\C:", "a", "\\\\?\\C:\\a"),
        ("\\\\?\\c:\\a", "b", "\\\\?\\c:\\a\\b"),
    ] {
        assert_eq!(joined(windows(text), rest), expected, "{text} {rest}");
    }
}

#[test]
fn windows_parents() {
    for (text, expected) in [
        ("a\\b", Some("a")),
        ("a/b\\", Some("a")),
        ("C:\\a", Some("C:\\")),
        ("C:a", Some("C:")),
        ("C:.\\a", Some("C:.")),
        ("C:\\", None),
        ("C:", None),
        ("\\\\s\\t\\a", Some("\\\\s\\t\\")),
        ("\\\\s\\t", None),
        ("\\\\?\\C:\\a\\b", Some("\\\\?\\C:\\a")),
        ("\\\\?\\C:\\a", Some("\\\\?\\C:\\")),
        ("\\\\?\\C:", None),
        (".\\a", Some(".")),
        (".", Some("")),
        ("", None),
    ] {
        let parent = windows(text).parent().map(|parent| shown(&parent));
        assert_eq!(parent.as_deref(), expected, "{text}");
        if let Some(parent) = windows(text).parent() {
            let mut all = component_texts(&windows(text));
            all.pop();
            assert_eq!(component_texts(&parent), all);
        }
    }
}

#[test]
fn windows_child_modules_lie_beside_or_below_their_file() {
    for (file, directory) in [
        ("C:\\r\\src\\lib.rs", "C:\\r\\src"),
        ("C:\\r\\src\\a.rs", "C:\\r\\src\\a"),
        ("\\\\?\\C:\\r\\src\\main.rs", "\\\\?\\C:\\r\\src"),
        ("\\\\?\\C:\\r\\src\\a.rs", "\\\\?\\C:\\r\\src\\a"),
        ("src/a/mod.rs", "src/a"),
        ("C:a.rs", "C:a"),
        ("C:", ".\\"),
    ] {
        assert_eq!(shown(&module_dir_for_child_modules(&windows(file))), directory, "{file}");
    }
}
