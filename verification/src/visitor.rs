//! Collects the usages of a file from the walk over its syntax tree.
use crate::syntax::{
    import_tree_view, import_trees_view, parse_file, parsed_source, ImportTree, ImportTreeView,
    NameEvent, NameEventView, SourceFile, WrittenPath, WrittenPathView, LONGEST_SOURCE,
};
use crate::table::{
    ascending, entries_from, insert_ranked, lemma_ascending_distinct, lemma_ascending_unique,
    lemma_entries_step, lemma_paired_at, paired, with_line, OrderedMap,
};
use crate::text::{chars_of, copy_texts, text_of};
use crate::usage::{
    path_usage, usage_from_segments, FileLocalUsage, FileLocalUsageView, SymbolStyle,
};
use vstd::prelude::*;

verus! {

/// An identifier without the marks `r#` in front of it.
pub open spec fn bare(ident: Seq<char>) -> Seq<char>
    decreases ident.len(),
{
    if ident.len() >= 2 && ident[0] == 'r' && ident[1] == '#' {
        bare(ident.skip(2))
    } else {
        ident
    }
}

/// Each of the identifiers without the marks `r#` in front of it.
pub open spec fn all_bare(idents: Seq<Seq<char>>) -> Seq<Seq<char>> {
    Seq::new(idents.len(), |i: int| bare(idents[i]))
}

/// An identifier without the marks `r#` in front of it.
pub fn ident_to_string(ident: &str) -> (name: String)
    ensures
        name@ == bare(ident@),
{
    let chars = chars_of(ident);
    let mut start: usize = 0;
    assert(ident@.skip(0) =~= ident@);
    while chars.len() - start >= 2 && chars[start] == 'r' && chars[start + 1] == '#'
        invariant
            chars@ == ident@,
            start <= chars.len(),
            bare(ident@) == bare(ident@.skip(start as int)),
        decreases chars.len() - start,
    {
        assert(ident@.skip(start as int).skip(2) =~= ident@.skip(start + 2));
        start = start + 2;
    }
    let name = text_of(&chars, start, chars.len());
    assert(name@ =~= ident@.skip(start as int));
    name
}

/// The first `count` identifiers, without the marks `r#` in front of them.
fn bare_segments(idents: &Vec<String>, count: usize) -> (names: Vec<String>)
    requires
        count <= idents.len(),
    ensures
        names.deep_view() == all_bare(idents.deep_view()).take(count as int),
{
    let ghost all = all_bare(idents.deep_view());
    let mut names: Vec<String> = Vec::new();
    let mut i: usize = 0;
    assert(names.deep_view() =~= all.take(0));
    while i < count
        invariant
            all == all_bare(idents.deep_view()),
            i <= count <= idents.len(),
            names.deep_view() == all.take(i as int),
        decreases count - i,
    {
        let ghost held = names.deep_view();
        names.push(ident_to_string(idents[i].as_str()));
        assert(names.deep_view() =~= held.push(all[i as int]));
        assert(all.take(i + 1) =~= all.take(i as int).push(all[i as int]));
        i = i + 1;
    }
    names
}

/// What tells one usage from another within a file: the inline modules around it, the origin and
/// the symbol.
pub type UsageKey = (Seq<Seq<char>>, (Seq<char>, Seq<char>));

/// What tells a usage from another within a file.
pub open spec fn usage_key(usage: FileLocalUsageView) -> UsageKey {
    (usage.module_path_suffix, (usage.origin, usage.symbol))
}

/// What a [`DependencyVisitor`] has found.
#[verifier::ext_equal]
pub struct VisitorView {
    pub usages: Map<UsageKey, usize>,
    pub module: Seq<Seq<char>>,
    pub inline_module_paths: Seq<Seq<Seq<char>>>,
}

/// What a visitor has found before it has seen anything.
pub open spec fn nothing_found() -> VisitorView {
    VisitorView { usages: Map::empty(), module: seq![], inline_module_paths: seq![] }
}

/// A usage counts inside the inline modules around it, with the least line it was met at.
pub open spec fn with_usage(found: VisitorView, usage: Option<FileLocalUsageView>) -> VisitorView {
    match usage {
        None => found,
        Some(usage) => VisitorView {
            usages: with_line(
                found.usages,
                (found.module, (usage.origin, usage.symbol)),
                usage.line,
            ),
            ..found
        },
    }
}

/// The trait in a path such as `<T as a::b>::c` counts as a path of its own.
pub open spec fn with_trait_path(found: VisitorView, path: WrittenPathView) -> VisitorView {
    match path.trait_segments {
        Some(count) if count > 0 => {
            let segments = all_bare(path.segments);
            let length = if count < segments.len() {
                count as int
            } else {
                segments.len() as int
            };
            with_usage(found, path_usage(segments.take(length), path.line, SymbolStyle::Plain))
        },
        _ => found,
    }
}

/// A path counts where it has a root: two segments or a leading `::`.
pub open spec fn with_qualified_path(found: VisitorView, path: WrittenPathView) -> VisitorView {
    if !path.leading_colon && path.segments.len() < 2 {
        found
    } else {
        with_usage(found, path_usage(all_bare(path.segments), path.line, path.style))
    }
}

/// Each leaf of a `use` item counts with the whole path to it, a glob as `*`.
pub open spec fn with_import(
    found: VisitorView,
    tree: ImportTreeView,
    prefix: Seq<Seq<char>>,
) -> VisitorView
    decreases tree,
{
    match tree {
        ImportTreeView::Path { ident, tree: inner } => with_import(
            found,
            *inner,
            prefix.push(bare(ident)),
        ),
        ImportTreeView::Name { ident, line } => with_usage(
            found,
            path_usage(prefix.push(bare(ident)), line, SymbolStyle::Plain),
        ),
        ImportTreeView::Rename { ident, line } => with_usage(
            found,
            path_usage(prefix.push(bare(ident)), line, SymbolStyle::Plain),
        ),
        ImportTreeView::Glob { line } => with_usage(
            found,
            path_usage(prefix.push("*"@), line, SymbolStyle::Plain),
        ),
        ImportTreeView::Group { items } => with_imports(found, items, prefix),
    }
}

/// The leaves of several trees count one tree after the other.
pub open spec fn with_imports(
    found: VisitorView,
    items: Seq<ImportTreeView>,
    prefix: Seq<Seq<char>>,
) -> VisitorView
    decreases items,
{
    if items.len() == 0 {
        found
    } else {
        with_import(with_imports(found, items.drop_last(), prefix), items.last(), prefix)
    }
}

/// What has been found after one more step of the walk.
pub open spec fn after_event(found: VisitorView, event: NameEventView) -> VisitorView {
    match event {
        NameEventView::Path(path) => with_qualified_path(with_trait_path(found, path), path),
        NameEventView::ExternCrate { ident, line } => with_usage(
            found,
            Some(
                FileLocalUsageView {
                    module_path_suffix: seq![],
                    line,
                    origin: "extern crate"@,
                    symbol: bare(ident),
                },
            ),
        ),
        NameEventView::Use(tree) => with_import(found, tree, seq![]),
        NameEventView::EnterModule { ident } => {
            let module = found.module.push(bare(ident));
            VisitorView {
                usages: found.usages,
                module,
                inline_module_paths: found.inline_module_paths.push(module),
            }
        },
        NameEventView::LeaveModule => VisitorView {
            module: if found.module.len() > 0 {
                found.module.drop_last()
            } else {
                found.module
            },
            ..found
        },
    }
}

/// What has been found after all of `events`.
pub open spec fn after_events(events: Seq<NameEventView>) -> VisitorView
    decreases events.len(),
{
    if events.len() == 0 {
        nothing_found()
    } else {
        after_event(after_events(events.drop_last()), events.last())
    }
}

/// Collects usages on the walk over a file.
pub struct DependencyVisitor {
    usages: OrderedMap<(Vec<String>, (String, String)), usize>,
    module: Vec<String>,
    inline_module_paths: Vec<Vec<String>>,
}

impl DeepView for DependencyVisitor {
    type V = VisitorView;

    closed spec fn deep_view(&self) -> VisitorView {
        VisitorView {
            usages: self.usages@,
            module: self.module.deep_view(),
            inline_module_paths: self.inline_module_paths.deep_view(),
        }
    }
}

impl DependencyVisitor {
    /// The table of usages is in order.
    pub closed spec fn well_formed(&self) -> bool {
        self.usages.well_formed()
    }

    /// A visitor that has seen nothing yet.
    pub fn new() -> (visitor: DependencyVisitor)
        ensures
            visitor.well_formed(),
            visitor.deep_view() == nothing_found(),
    {
        let visitor = DependencyVisitor {
            usages: OrderedMap::new(),
            module: Vec::new(),
            inline_module_paths: Vec::new(),
        };
        assert(visitor.deep_view() =~= nothing_found());
        visitor
    }

    /// Records `usage`, if there is one, inside the inline modules that the walk is in.
    pub fn add_usage(&mut self, usage: Option<FileLocalUsage>)
        requires
            old(self).well_formed(),
        ensures
            final(self).well_formed(),
            final(self).deep_view() == with_usage(old(self).deep_view(), usage.deep_view()),
    {
        match usage {
            None => {},
            Some(usage) => {
                let key = (copy_texts(&self.module), (usage.origin, usage.symbol));
                self.usages.note_line(key, usage.line);
            },
        }
        assert(self.deep_view() =~= with_usage(old(self).deep_view(), usage.deep_view()));
    }

    /// Records the leaves of `tree`, which stands behind the path `prefix`.
    pub fn add_use_tree(&mut self, tree: &ImportTree, prefix: &mut Vec<String>)
        requires
            old(self).well_formed(),
        ensures
            final(self).well_formed(),
            final(self).deep_view() == with_import(
                old(self).deep_view(),
                tree.deep_view(),
                old(prefix).deep_view(),
            ),
            final(prefix).deep_view() == old(prefix).deep_view(),
        decreases tree,
    {
        let ghost path = prefix.deep_view();
        match tree {
            ImportTree::Path { ident, tree: inner } => {
                push_text(prefix, ident_to_string(ident.as_str()));
                self.add_use_tree(&**inner, prefix);
                pop_text(prefix);
                assert(prefix.deep_view() =~= path);
            },
            ImportTree::Name { ident, line } => {
                push_text(prefix, ident_to_string(ident.as_str()));
                self.add_usage(usage_from_segments(prefix, *line, SymbolStyle::Plain));
                pop_text(prefix);
                assert(prefix.deep_view() =~= path);
            },
            ImportTree::Rename { ident, line } => {
                push_text(prefix, ident_to_string(ident.as_str()));
                self.add_usage(usage_from_segments(prefix, *line, SymbolStyle::Plain));
                pop_text(prefix);
                assert(prefix.deep_view() =~= path);
            },
            ImportTree::Glob { line } => {
                push_text(prefix, "*".to_owned());
                self.add_usage(usage_from_segments(prefix, *line, SymbolStyle::Plain));
                pop_text(prefix);
                assert(prefix.deep_view() =~= path);
            },
            ImportTree::Group { items } => {
                let ghost before = self.deep_view();
                let mut i: usize = 0;
                assert(items@.take(0) =~= seq![]);
                while i < items.len()
                    invariant
                        i <= items.len(),
                        self.well_formed(),
                        prefix.deep_view() == path,
                        self.deep_view() == with_imports(
                            before,
                            import_trees_view(items@.take(i as int)),
                            path,
                        ),
                        *tree == (ImportTree::Group { items: *items }),
                    decreases items.len() - i,
                {
                    let ghost done = items@.take(i as int);
                    let ghost more = items@.take(i + 1);
                    proof {
                        assert(more.drop_last() =~= done);
                        assert(more.last() == items[i as int]);
                        let views = import_trees_view(more);
                        assert(views == import_trees_view(done).push(import_tree_view(items[i as int])));
                        assert(views.drop_last() =~= import_trees_view(done));
                        assert(views.last() == import_tree_view(items[i as int]));
                        assert(decreases_to!(tree->items => tree->items@));
                        assert(decreases_to!(tree->items@ => tree->items@[i as int]));
                    }
                    self.add_use_tree(&items[i], prefix);
                    i = i + 1;
                }
                assert(items@.take(i as int) =~= items@);
            },
        }
    }

    /// Records a path that has a root.
    pub fn add_qualified_path(&mut self, path: &WrittenPath)
        requires
            old(self).well_formed(),
        ensures
            final(self).well_formed(),
            final(self).deep_view() == with_qualified_path(
                old(self).deep_view(),
                path.deep_view(),
            ),
    {
        if !path.leading_colon && path.segments.len() < 2 {
            return ;
        }
        let segments = bare_segments(&path.segments, path.segments.len());
        assert(segments.deep_view() =~= all_bare(path.segments.deep_view()));
        self.add_usage(usage_from_segments(&segments, path.line, path.style));
    }

    /// Records the trait of a path such as `<T as a::b>::c`.
    pub fn add_qself_trait_path(&mut self, path: &WrittenPath)
        requires
            old(self).well_formed(),
        ensures
            final(self).well_formed(),
            final(self).deep_view() == with_trait_path(old(self).deep_view(), path.deep_view()),
    {
        match path.trait_segments {
            Some(count) => {
                if count > 0 {
                    let length: usize = if count < path.segments.len() {
                        count
                    } else {
                        path.segments.len()
                    };
                    let segments = bare_segments(&path.segments, length);
                    self.add_usage(usage_from_segments(&segments, path.line, SymbolStyle::Plain));
                }
            },
            None => {},
        }
    }

    /// Takes one step of the walk.
    pub fn visit(&mut self, event: &NameEvent)
        requires
            old(self).well_formed(),
        ensures
            final(self).well_formed(),
            final(self).deep_view() == after_event(old(self).deep_view(), event.deep_view()),
    {
        match event {
            NameEvent::Path(path) => {
                self.add_qself_trait_path(path);
                self.add_qualified_path(path);
            },
            NameEvent::ExternCrate { ident, line } => {
                let module_path_suffix: Vec<String> = Vec::new();
                assert(module_path_suffix.deep_view() =~= seq![]);
                self.add_usage(
                    Some(
                        FileLocalUsage {
                            module_path_suffix,
                            line: *line,
                            origin: "extern crate".to_owned(),
                            symbol: ident_to_string(ident.as_str()),
                        },
                    ),
                );
            },
            NameEvent::Use(tree) => {
                let mut prefix: Vec<String> = Vec::new();
                assert(prefix.deep_view() =~= seq![]);
                self.add_use_tree(tree, &mut prefix);
            },
            NameEvent::EnterModule { ident } => {
                let ghost paths = self.inline_module_paths.deep_view();
                push_text(&mut self.module, ident_to_string(ident.as_str()));
                self.inline_module_paths.push(copy_texts(&self.module));
                assert(self.inline_module_paths.deep_view() =~= paths.push(
                    self.module.deep_view(),
                ));
            },
            NameEvent::LeaveModule => {
                pop_text(&mut self.module);
            },
        }
        assert(self.deep_view() =~= after_event(old(self).deep_view(), event.deep_view()));
    }
}

/// The usage with the given key, met at `line`.
pub open spec fn usage_with(key: UsageKey, line: usize) -> FileLocalUsageView {
    FileLocalUsageView { module_path_suffix: key.0, line, origin: key.1.0, symbol: key.1.1 }
}

/// The usages that a table of least lines stands for.
pub open spec fn usages_of(table: Map<UsageKey, usize>) -> Set<FileLocalUsageView> {
    Set::new(
        |usage: FileLocalUsageView|
            table.dom().contains(usage_key(usage)) && table[usage_key(usage)] == usage.line,
    )
}

/// `list` holds the usages of `table`, ordered by line, origin, symbol and inline modules.
pub open spec fn lists_usages(list: Seq<FileLocalUsageView>, table: Map<UsageKey, usize>) -> bool {
    &&& ascending::<FileLocalUsage>(list)
    &&& list.to_set() == usages_of(table)
}

/// The usages of `table`, ordered by line, origin, symbol and inline modules.
pub open spec fn sorted_usages(table: Map<UsageKey, usize>) -> Seq<FileLocalUsageView> {
    choose|list: Seq<FileLocalUsageView>| lists_usages(list, table)
}

/// A table of usages has one list only.
pub proof fn usage_list_is_unique(list: Seq<FileLocalUsageView>, table: Map<UsageKey, usize>)
    requires
        lists_usages(list, table),
    ensures
        list == sorted_usages(table),
{
    lemma_ascending_unique::<FileLocalUsage>(list, sorted_usages(table));
}

/// What was found in one file.
#[derive(Debug)]
pub struct FileAnalysis {
    pub usages: Vec<FileLocalUsage>,
    pub inline_module_paths: Vec<Vec<String>>,
}

impl DependencyVisitor {
    /// The usages found, in order, and the inline modules in the order they were entered.
    pub fn into_analysis(self) -> (analysis: FileAnalysis)
        requires
            self.well_formed(),
        ensures
            lists_usages(analysis.usages.deep_view(), self.deep_view().usages),
            analysis.inline_module_paths.deep_view() == self.deep_view().inline_module_paths,
    {
        let ghost table = self.usages@;
        let (mut keys, mut lines) = self.usages.into_parts();
        let ghost all_keys = keys.deep_view();
        let ghost all_lines = lines@;
        let ghost entry = |key: UsageKey, line: usize| usage_with(key, line);
        let mut usages: Vec<FileLocalUsage> = Vec::new();
        proof {
            assert(all_keys.take(all_keys.len() as int) =~= all_keys);
            assert(all_lines.take(all_lines.len() as int) =~= all_lines);
            assert(usages.deep_view().to_set() =~= entries_from(
                all_keys,
                all_lines,
                all_keys.len() as int,
                entry,
            ));
        }
        while keys.len() > 0
            invariant
                ascending::<(Vec<String>, (String, String))>(all_keys),
                all_keys.len() == all_lines.len(),
                keys.len() == lines.len(),
                keys.len() <= all_keys.len(),
                keys.deep_view() == all_keys.take(keys.len() as int),
                lines@ == all_lines.take(keys.len() as int),
                ascending::<FileLocalUsage>(usages.deep_view()),
                entry == (|key: UsageKey, line: usize| usage_with(key, line)),
                usages.deep_view().to_set() == entries_from(
                    all_keys,
                    all_lines,
                    keys.len() as int,
                    entry,
                ),
            decreases keys.len(),
        {
            let ghost count = keys.len() as int;
            let ghost before = keys.deep_view();
            let key = keys.pop();
            let line = lines.pop();
            assert(keys.deep_view() =~= all_keys.take(count - 1));
            assert(lines@ =~= all_lines.take(count - 1));
            match (key, line) {
                (Some((module_path_suffix, (origin, symbol))), Some(line)) => {
                    let usage = FileLocalUsage { module_path_suffix, line, origin, symbol };
                    let ghost view = usage.deep_view();
                    proof {
                        assert(before[count - 1] == all_keys[count - 1]);
                        assert(view =~= entry(all_keys[count - 1], all_lines[count - 1]));
                        if usages.deep_view().contains(view) {
                            assert(usages.deep_view().to_set().contains(view));
                            let i = choose|i: int|
                                count <= i < all_keys.len() && view == entry(
                                    #[trigger] all_keys[i],
                                    all_lines[i],
                                );
                            assert(usage_key(view) == all_keys[i]);
                            lemma_ascending_distinct::<
                                (Vec<String>, (String, String)),
                            >(all_keys, i, count - 1);
                        }
                    }
                    insert_ranked(&mut usages, usage);
                    proof {
                        lemma_entries_step(all_keys, all_lines, count - 1, entry);
                    }
                },
                _ => {},
            }
        }
        proof {
            assert(table == paired(all_keys, all_lines));
            assert forall|usage: FileLocalUsageView|
                usages.deep_view().to_set().contains(usage) == usages_of(table).contains(usage) by {
                if usages_of(table).contains(usage) {
                    let i = all_keys.index_of(usage_key(usage));
                    assert(all_keys[i] == usage_key(usage));
                    assert(usage =~= entry(all_keys[i], all_lines[i]));
                }
                if entries_from(all_keys, all_lines, 0, entry).contains(usage) {
                    let i = choose|i: int|
                        0 <= i < all_keys.len() && usage == entry(
                            #[trigger] all_keys[i],
                            all_lines[i],
                        );
                    assert(usage_key(usage) == all_keys[i]);
                    lemma_paired_at::<(Vec<String>, (String, String)), usize>(
                        all_keys,
                        all_lines,
                        i,
                    );
                }
            }
            assert(usages.deep_view().to_set() =~= usages_of(table));
        }
        FileAnalysis { usages, inline_module_paths: self.inline_module_paths }
    }
}

/// Walks over a parsed file.
pub fn file_analysis_from_file(file: &SourceFile) -> (analysis: FileAnalysis)
    ensures
        lists_usages(
            analysis.usages.deep_view(),
            after_events(file.deep_view().names).usages,
        ),
        analysis.inline_module_paths.deep_view() == after_events(
            file.deep_view().names,
        ).inline_module_paths,
{
    let ghost events = file.names.deep_view();
    let mut visitor = DependencyVisitor::new();
    let mut i: usize = 0;
    assert(events.take(0) =~= seq![]);
    while i < file.names.len()
        invariant
            events == file.names.deep_view(),
            i <= file.names.len(),
            visitor.well_formed(),
            visitor.deep_view() == after_events(events.take(i as int)),
        decreases file.names.len() - i,
    {
        proof {
            assert(events.take(i + 1).drop_last() =~= events.take(i as int));
            assert(events.take(i + 1).last() == file.names[i as int].deep_view());
        }
        visitor.visit(&file.names[i]);
        i = i + 1;
    }
    assert(events.take(i as int) =~= events);
    visitor.into_analysis()
}

/// The usages in a parsed file.
pub fn usages_from_file(file: &SourceFile) -> (usages: Vec<FileLocalUsage>)
    ensures
        lists_usages(usages.deep_view(), after_events(file.deep_view().names).usages),
{
    file_analysis_from_file(file).usages
}

/// The usages in a source text, or the message of the error that it does not parse with.
pub fn dependency_usages(source: &str) -> (usages: Result<Vec<FileLocalUsage>, String>)
    requires
        source@.len() <= LONGEST_SOURCE,
    ensures
        match parsed_source(source@) {
            Ok(file) => usages is Ok && lists_usages(
                usages->Ok_0.deep_view(),
                after_events(file.names).usages,
            ),
            Err(message) => usages is Err && usages->Err_0@ == message,
        },
{
    match parse_file(source) {
        Ok(file) => Ok(usages_from_file(&file)),
        Err(message) => Err(message),
    }
}

fn push_text(list: &mut Vec<String>, text: String)
    ensures
        final(list).deep_view() == old(list).deep_view().push(text@),
{
    let ghost before = list.deep_view();
    let ghost value = text@;
    list.push(text);
    assert(list.deep_view() =~= before.push(value));
}

fn pop_text(list: &mut Vec<String>)
    ensures
        final(list).deep_view() == (if old(list).len() > 0 {
            old(list).deep_view().drop_last()
        } else {
            old(list).deep_view()
        }),
{
    let ghost before = list.deep_view();
    list.pop();
    assert(before.len() > 0 ==> list.deep_view() =~= before.drop_last());
}

} // verus!
