//! How `use` items, paths and inline modules of a file become its usages.
use crate::order::{sequence_less, text_less, Ranked};
use crate::syntax::{
    parsed_source, ImportTree, ImportTreeView, NameEvent, NameEventView, SourceFile, WrittenPath,
    WrittenPathView,
};
use crate::table::ascending;
use crate::usage::{path_usage, FileLocalUsage, FileLocalUsageView, SymbolStyle};
use crate::visitor::{
    after_event, after_events, all_bare, bare, dependency_usages, file_analysis_from_file,
    lists_usages, usage_key, usage_list_is_unique, usages_from_file, usages_of, with_import,
    with_imports, with_usage, DependencyVisitor, FileAnalysis, UsageKey, VisitorView,
};
use vstd::prelude::*;

verus! {

/// From `before` on, `after` has `usage` recorded, if there is one: inside the inline modules that
/// the walk is in, at its line or at an earlier one that it had. Nothing else differs.
pub open spec fn records(
    before: VisitorView,
    usage: Option<FileLocalUsageView>,
    after: VisitorView,
) -> bool {
    &&& after.module == before.module
    &&& after.inline_module_paths == before.inline_module_paths
    &&& match usage {
        None => after.usages == before.usages,
        Some(usage) => {
            let key = (before.module, (usage.origin, usage.symbol));
            &&& after.usages.dom() == before.usages.dom().insert(key)
            &&& forall|other: UsageKey|
                other != key && #[trigger] before.usages.dom().contains(other)
                    ==> after.usages[other] == before.usages[other]
            &&& before.usages.dom().contains(key) ==> after.usages[key] == if usage.line
                < before.usages[key] {
                usage.line
            } else {
                before.usages[key]
            }
            &&& !before.usages.dom().contains(key) ==> after.usages[key] == usage.line
        },
    }
}

proof fn lemma_records(before: VisitorView, usage: Option<FileLocalUsageView>)
    ensures
        records(before, usage, with_usage(before, usage)),
{
    let after = with_usage(before, usage);
    if let Some(usage) = usage {
        let key = (before.module, (usage.origin, usage.symbol));
        assert(after.usages.dom() =~= before.usages.dom().insert(key));
    }
}

proof fn lemma_after_push(events: Seq<NameEventView>, event: NameEventView)
    ensures
        after_events(events.push(event)) == after_event(after_events(events), event),
{
    assert(events.push(event).drop_last() =~= events);
}

/// A path of two segments or more, or with a leading `::`, records what its segments, without
/// marks, record. Any other path records nothing.
pub proof fn paths_record_their_segments(events: Seq<NameEventView>, path: WrittenPathView)
    requires
        path.trait_segments is None,
    ensures
        records(
            after_events(events),
            if path.segments.len() >= 2 || path.leading_colon {
                path_usage(
                    Seq::new(path.segments.len(), |i: int| bare(path.segments[i])),
                    path.line,
                    path.style,
                )
            } else {
                None
            },
            after_events(events.push(NameEventView::Path(path))),
        ),
{
    lemma_after_push(events, NameEventView::Path(path));
    let names = Seq::new(path.segments.len(), |i: int| bare(path.segments[i]));
    assert(all_bare(path.segments) =~= names);
    lemma_records(after_events(events), path_usage(names, path.line, path.style));
    lemma_records(after_events(events), None);
}

/// A path such as `<T as a::b>::c` records what the path of its trait, of as many of its segments
/// as it says, records, and then what the whole path records.
pub proof fn traits_in_paths_record_their_own_paths(
    events: Seq<NameEventView>,
    path: WrittenPathView,
    count: usize,
    length: int,
)
    requires
        path.trait_segments == Some(count),
        length == if count < path.segments.len() {
            count as int
        } else {
            path.segments.len() as int
        },
    ensures
        after_events(events.push(NameEventView::Path(path))) == after_events(
            events.push(
                NameEventView::Path(
                    WrittenPathView {
                        segments: path.segments.take(length),
                        style: SymbolStyle::Plain,
                        trait_segments: None,
                        ..path
                    },
                ),
            ).push(NameEventView::Path(WrittenPathView { trait_segments: None, ..path })),
        ),
{
    let of_trait = WrittenPathView {
        segments: path.segments.take(length),
        style: SymbolStyle::Plain,
        trait_segments: None,
        ..path
    };
    let whole = WrittenPathView { trait_segments: None, ..path };
    lemma_after_push(events, NameEventView::Path(path));
    lemma_after_push(events, NameEventView::Path(of_trait));
    lemma_after_push(events.push(NameEventView::Path(of_trait)), NameEventView::Path(whole));
    let names = all_bare(path.segments);
    assert(all_bare(of_trait.segments) =~= names.take(length));
    assert(names.take(names.len() as int) =~= names);
}

/// An `extern crate` item records the crate's name, whatever the name is.
pub proof fn extern_crates_are_recorded(
    events: Seq<NameEventView>,
    ident: Seq<char>,
    line: usize,
)
    ensures
        records(
            after_events(events),
            Some(
                FileLocalUsageView {
                    module_path_suffix: seq![],
                    line,
                    origin: "extern crate"@,
                    symbol: bare(ident),
                },
            ),
            after_events(events.push(NameEventView::ExternCrate { ident, line })),
        ),
{
    lemma_after_push(events, NameEventView::ExternCrate { ident, line });
    lemma_records(
        after_events(events),
        Some(
            FileLocalUsageView {
                module_path_suffix: seq![],
                line,
                origin: "extern crate"@,
                symbol: bare(ident),
            },
        ),
    );
}

/// The tree `tree` behind the path `prefix`.
pub open spec fn behind(prefix: Seq<Seq<char>>, tree: ImportTreeView) -> ImportTreeView
    decreases prefix.len(),
{
    if prefix.len() == 0 {
        tree
    } else {
        behind(
            prefix.drop_last(),
            ImportTreeView::Path { ident: prefix.last(), tree: Box::new(tree) },
        )
    }
}

proof fn lemma_behind(
    found: VisitorView,
    prefix: Seq<Seq<char>>,
    tree: ImportTreeView,
    outer: Seq<Seq<char>>,
)
    ensures
        with_import(found, behind(prefix, tree), outer) == with_import(
            found,
            tree,
            outer + all_bare(prefix),
        ),
    decreases prefix.len(),
{
    if prefix.len() == 0 {
        assert(outer + all_bare(prefix) =~= outer);
    } else {
        let shorter = prefix.drop_last();
        let longer = ImportTreeView::Path { ident: prefix.last(), tree: Box::new(tree) };
        lemma_behind(found, shorter, longer, outer);
        assert((outer + all_bare(shorter)).push(bare(prefix.last())) =~= outer + all_bare(prefix));
    }
}

proof fn lemma_use(events: Seq<NameEventView>, prefix: Seq<Seq<char>>, tree: ImportTreeView)
    ensures
        after_events(events.push(NameEventView::Use(behind(prefix, tree)))) == with_import(
            after_events(events),
            tree,
            all_bare(prefix),
        ),
{
    let none = Seq::<Seq<char>>::empty();
    lemma_after_push(events, NameEventView::Use(behind(prefix, tree)));
    lemma_behind(after_events(events), prefix, tree, none);
    assert(none + all_bare(prefix) =~= all_bare(prefix));
}

/// A name imported behind any path records the whole path to it, and a renamed one does the same:
/// the new name makes no difference.
pub proof fn imported_names_record_their_paths(
    events: Seq<NameEventView>,
    prefix: Seq<Seq<char>>,
    ident: Seq<char>,
    line: usize,
)
    ensures
        records(
            after_events(events),
            path_usage(
                Seq::new(prefix.len(), |i: int| bare(prefix[i])) + seq![bare(ident)],
                line,
                SymbolStyle::Plain,
            ),
            after_events(
                events.push(
                    NameEventView::Use(behind(prefix, ImportTreeView::Name { ident, line })),
                ),
            ),
        ),
        after_events(
            events.push(NameEventView::Use(behind(prefix, ImportTreeView::Rename { ident, line }))),
        ) == after_events(
            events.push(NameEventView::Use(behind(prefix, ImportTreeView::Name { ident, line }))),
        ),
{
    lemma_use(events, prefix, ImportTreeView::Name { ident, line });
    lemma_use(events, prefix, ImportTreeView::Rename { ident, line });
    let names = Seq::new(prefix.len(), |i: int| bare(prefix[i]));
    assert(all_bare(prefix) =~= names);
    assert(names.push(bare(ident)) =~= names + seq![bare(ident)]);
    lemma_records(
        after_events(events),
        path_usage(names.push(bare(ident)), line, SymbolStyle::Plain),
    );
}

/// A glob import behind any path records that path followed by `*`.
pub proof fn glob_imports_record_a_star(
    events: Seq<NameEventView>,
    prefix: Seq<Seq<char>>,
    line: usize,
)
    ensures
        records(
            after_events(events),
            path_usage(
                Seq::new(prefix.len(), |i: int| bare(prefix[i])) + seq!["*"@],
                line,
                SymbolStyle::Plain,
            ),
            after_events(
                events.push(NameEventView::Use(behind(prefix, ImportTreeView::Glob { line }))),
            ),
        ),
{
    lemma_use(events, prefix, ImportTreeView::Glob { line });
    let names = Seq::new(prefix.len(), |i: int| bare(prefix[i]));
    assert(all_bare(prefix) =~= names);
    assert(names.push("*"@) =~= names + seq!["*"@]);
    lemma_records(after_events(events), path_usage(names.push("*"@), line, SymbolStyle::Plain));
}

/// A group behind any path imports what its items import, each behind that same path, one after
/// the other: `use a::{b, c};` is `use a::b; use a::c;`. An empty group imports nothing.
pub proof fn groups_import_their_items(
    events: Seq<NameEventView>,
    prefix: Seq<Seq<char>>,
    items: Seq<ImportTreeView>,
    item: ImportTreeView,
)
    ensures
        after_events(
            events.push(
                NameEventView::Use(behind(prefix, ImportTreeView::Group { items: seq![] })),
            ),
        ) == after_events(events),
        after_events(
            events.push(
                NameEventView::Use(
                    behind(prefix, ImportTreeView::Group { items: items.push(item) }),
                ),
            ),
        ) == after_events(
            events.push(NameEventView::Use(behind(prefix, ImportTreeView::Group { items }))).push(
                NameEventView::Use(behind(prefix, item)),
            ),
        ),
{
    let group = ImportTreeView::Group { items };
    let more = items.push(item);
    let none = Seq::<ImportTreeView>::empty();
    lemma_use(events, prefix, ImportTreeView::Group { items: none });
    assert(with_imports(after_events(events), none, all_bare(prefix)) == after_events(events));
    lemma_use(events, prefix, group);
    lemma_use(events, prefix, ImportTreeView::Group { items: more });
    lemma_use(events.push(NameEventView::Use(behind(prefix, group))), prefix, item);
    let found = after_events(events);
    let names = all_bare(prefix);
    assert(more.drop_last() =~= items);
    assert(more.last() == item);
    assert(with_imports(found, more, names) == with_import(
        with_imports(found, more.drop_last(), names),
        more.last(),
        names,
    ));
}

/// Entering an inline module notes it, below those that the walk is in, and leaving it goes back.
/// Neither changes the usages, and before the walk there is nothing.
pub proof fn inline_modules_are_entered_and_left(events: Seq<NameEventView>, ident: Seq<char>)
    ensures
        ({
            let before = after_events(events);
            let inside = after_events(events.push(NameEventView::EnterModule { ident }));
            let outside = after_events(events.push(NameEventView::LeaveModule));
            let module = before.module + seq![bare(ident)];
            &&& inside.usages == before.usages
            &&& inside.module == module
            &&& inside.inline_module_paths == before.inline_module_paths + seq![module]
            &&& outside.usages == before.usages
            &&& outside.inline_module_paths == before.inline_module_paths
            &&& before.module.len() > 0 ==> outside.module == before.module.drop_last()
            &&& before.module.len() == 0 ==> outside.module.len() == 0
        }),
        after_events(Seq::<NameEventView>::empty()).usages.dom() == Set::<UsageKey>::empty(),
        after_events(Seq::<NameEventView>::empty()).module.len() == 0,
        after_events(Seq::<NameEventView>::empty()).inline_module_paths.len() == 0,
{
    lemma_after_push(events, NameEventView::EnterModule { ident });
    lemma_after_push(events, NameEventView::LeaveModule);
    let before = after_events(events);
    let module = before.module.push(bare(ident));
    assert(module =~= before.module + seq![bare(ident)]);
    assert(before.inline_module_paths.push(module) =~= before.inline_module_paths + seq![module]);
}

/// A visitor takes one step of the walk at a time, from nothing on.
pub proof fn visitors_walk_step_by_step(
    fresh: DependencyVisitor,
    visitor: &mut DependencyVisitor,
    events: Seq<NameEventView>,
    event: NameEvent,
)
    requires
        call_ensures(DependencyVisitor::new, (), fresh),
        old(visitor).well_formed(),
        old(visitor).deep_view() == after_events(events),
        call_ensures(DependencyVisitor::visit, (visitor, &event), ()),
    ensures
        fresh.well_formed(),
        fresh.deep_view() == after_events(Seq::<NameEventView>::empty()),
        final(visitor).well_formed(),
        final(visitor).deep_view() == after_events(events.push(event.deep_view())),
{
    lemma_after_push(events, event.deep_view());
}

/// A visitor records a usage inside the inline modules that it is in, and a written path, or the
/// trait in one, as it does on its walk.
pub proof fn visitors_record_usages(
    visitor: &mut DependencyVisitor,
    pather: &mut DependencyVisitor,
    usage: Option<FileLocalUsage>,
    path: WrittenPath,
    events: Seq<NameEventView>,
)
    requires
        old(visitor).well_formed(),
        call_ensures(DependencyVisitor::add_usage, (visitor, usage), ()),
        old(pather).well_formed(),
        old(pather).deep_view() == after_events(events),
        path.trait_segments is None,
        call_ensures(DependencyVisitor::add_qualified_path, (pather, &path), ()),
    ensures
        records(old(visitor).deep_view(), usage.deep_view(), final(visitor).deep_view()),
        final(pather).deep_view() == after_events(
            events.push(NameEventView::Path(path.deep_view())),
        ),
{
    lemma_records(old(visitor).deep_view(), usage.deep_view());
    lemma_after_push(events, NameEventView::Path(path.deep_view()));
}

/// A visitor records the leaves of a tree behind a path as it does for the `use` item of that tree
/// behind that path, and leaves the path as it was.
pub proof fn visitors_record_trees_behind_paths(
    visitor: &mut DependencyVisitor,
    tree: ImportTree,
    prefix: &mut Vec<String>,
    idents: Seq<Seq<char>>,
    events: Seq<NameEventView>,
)
    requires
        old(visitor).well_formed(),
        old(visitor).deep_view() == after_events(events),
        old(prefix).deep_view() == Seq::new(idents.len(), |i: int| bare(idents[i])),
        call_ensures(DependencyVisitor::add_use_tree, (visitor, &tree, prefix), ()),
    ensures
        final(visitor).deep_view() == after_events(
            events.push(NameEventView::Use(behind(idents, tree.deep_view()))),
        ),
        final(prefix).deep_view() == old(prefix).deep_view(),
{
    lemma_use(events, idents, tree.deep_view());
    assert(all_bare(idents) =~= Seq::new(idents.len(), |i: int| bare(idents[i])));
}

/// What a call of `file_analysis_from_file` lists: every usage that the walk found, with its least
/// line, and no other, and the inline modules in the order they were entered.
pub proof fn files_list_what_the_walk_found(
    file: SourceFile,
    analysis: FileAnalysis,
    key: UsageKey,
    line: usize,
)
    requires
        call_ensures(file_analysis_from_file, (&file,), analysis),
    ensures
        ({
            let found = after_events(file.names.deep_view());
            &&& analysis.inline_module_paths.deep_view() == found.inline_module_paths
            &&& (found.usages.dom().contains(key) && found.usages[key] == line) <==> exists|i: int|
                {
                    &&& 0 <= i < analysis.usages.len()
                    &&& (#[trigger] analysis.usages[i]).module_path_suffix.deep_view() == key.0
                    &&& analysis.usages[i].origin@ == key.1.0
                    &&& analysis.usages[i].symbol@ == key.1.1
                    &&& analysis.usages[i].line == line
                }
        }),
{
    let found = after_events(file.names.deep_view());
    let list = analysis.usages.deep_view();
    let usage = FileLocalUsageView {
        module_path_suffix: key.0,
        line,
        origin: key.1.0,
        symbol: key.1.1,
    };
    assert(usage_key(usage) == key);
    assert(usages_of(found.usages).contains(usage) <==> list.to_set().contains(usage));
    if list.contains(usage) {
        let i = list.index_of(usage);
        assert(list[i] == analysis.usages[i].deep_view());
        assert(analysis.usages[i].origin@ == key.1.0);
    }
    if exists|i: int|
        {
            &&& 0 <= i < analysis.usages.len()
            &&& (#[trigger] analysis.usages[i]).module_path_suffix.deep_view() == key.0
            &&& analysis.usages[i].origin@ == key.1.0
            &&& analysis.usages[i].symbol@ == key.1.1
            &&& analysis.usages[i].line == line
        } {
        let i = choose|i: int|
            {
                &&& 0 <= i < analysis.usages.len()
                &&& (#[trigger] analysis.usages[i]).module_path_suffix.deep_view() == key.0
                &&& analysis.usages[i].origin@ == key.1.0
                &&& analysis.usages[i].symbol@ == key.1.1
                &&& analysis.usages[i].line == line
            };
        assert(list[i] == analysis.usages[i].deep_view());
        assert(list[i] =~= usage);
    }
}

proof fn lemma_listed_before(list: Seq<FileLocalUsageView>, i: int, j: int)
    requires
        ascending::<FileLocalUsage>(list),
        0 <= i < j < list.len(),
    ensures
        FileLocalUsage::precedes(list[i], list[j]),
{
}

/// The usages of a file are listed by line; on one line by origin, then by symbol, and last by the
/// inline modules around them. None is listed twice.
pub proof fn files_list_usages_in_order(file: SourceFile, analysis: FileAnalysis, i: int, j: int)
    requires
        call_ensures(file_analysis_from_file, (&file,), analysis),
        0 <= i < j < analysis.usages.len(),
    ensures
        ({
            let (a, b) = (analysis.usages[i], analysis.usages[j]);
            ||| a.line < b.line
            ||| a.line == b.line && text_less(a.origin@, b.origin@)
            ||| a.line == b.line && a.origin@ == b.origin@ && text_less(a.symbol@, b.symbol@)
            ||| a.line == b.line && a.origin@ == b.origin@ && a.symbol@ == b.symbol@
                && sequence_less::<String>(
                a.module_path_suffix.deep_view(),
                b.module_path_suffix.deep_view(),
            )
        }),
{
    let list = analysis.usages.deep_view();
    lemma_listed_before(list, i, j);
    assert(list[i] == analysis.usages[i].deep_view());
    assert(list[j] == analysis.usages[j].deep_view());
}

/// What a call of `dependency_usages` gives for a text that parses is what `usages_from_file`
/// gives for the parsed file, which is what `file_analysis_from_file` lists; for a text that does
/// not parse it is the error.
pub proof fn texts_have_the_usages_of_their_files(
    source: &str,
    file: SourceFile,
    usages: Result<Vec<FileLocalUsage>, String>,
    of_file: Vec<FileLocalUsage>,
    analysis: FileAnalysis,
)
    requires
        call_ensures(dependency_usages, (source,), usages),
        call_ensures(usages_from_file, (&file,), of_file),
        call_ensures(file_analysis_from_file, (&file,), analysis),
    ensures
        of_file.deep_view() == analysis.usages.deep_view(),
        match parsed_source(source@) {
            Ok(parsed) => usages is Ok && (parsed == file.deep_view()
                ==> usages->Ok_0.deep_view() == of_file.deep_view()),
            Err(message) => usages is Err && usages->Err_0@ == message,
        },
{
    let table = after_events(file.deep_view().names).usages;
    assert(lists_usages(of_file.deep_view(), table));
    assert(lists_usages(analysis.usages.deep_view(), table));
    usage_list_is_unique(of_file.deep_view(), table);
    usage_list_is_unique(analysis.usages.deep_view(), table);
    if let Ok(parsed) = parsed_source(source@) {
        if parsed == file.deep_view() {
            usage_list_is_unique(usages->Ok_0.deep_view(), table);
        }
    }
}

} // verus!
