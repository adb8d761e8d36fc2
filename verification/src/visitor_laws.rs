//! What the list of a file's usages says about the file.
use crate::syntax::{ImportTreeView, NameEventView, WrittenPathView};
use crate::table::{lemma_ascending_distinct, lemma_ascending_exists, with_line};
use crate::usage::{path_usage, FileLocalUsage, FileLocalUsageView, SymbolStyle};
use crate::visitor::{
    after_event, after_events, all_bare, bare, lists_usages, sorted_usages, usage_key, usage_with,
    usages_of, with_import, with_imports, with_qualified_path, with_trait_path, with_usage,
    UsageKey, VisitorView,
};
use vstd::prelude::*;

verus! {

/// A usage and where it was met.
pub type Sighting = (UsageKey, usize);

/// The usage that `usage` is, if it is one, in the module `module`.
pub open spec fn sighting(
    usage: Option<FileLocalUsageView>,
    module: Seq<Seq<char>>,
) -> Seq<Sighting> {
    match usage {
        None => seq![],
        Some(usage) => seq![((module, (usage.origin, usage.symbol)), usage.line)],
    }
}

/// The usages that the leaves of a `use` item are, from left to right.
pub open spec fn import_sightings(
    tree: ImportTreeView,
    prefix: Seq<Seq<char>>,
    module: Seq<Seq<char>>,
) -> Seq<Sighting>
    decreases tree,
{
    match tree {
        ImportTreeView::Path { ident, tree: inner } => import_sightings(
            *inner,
            prefix.push(bare(ident)),
            module,
        ),
        ImportTreeView::Name { ident, line } => sighting(
            path_usage(prefix.push(bare(ident)), line, SymbolStyle::Plain),
            module,
        ),
        ImportTreeView::Rename { ident, line } => sighting(
            path_usage(prefix.push(bare(ident)), line, SymbolStyle::Plain),
            module,
        ),
        ImportTreeView::Glob { line } => sighting(
            path_usage(prefix.push("*"@), line, SymbolStyle::Plain),
            module,
        ),
        ImportTreeView::Group { items } => imports_sightings(items, prefix, module),
    }
}

/// The usages that the leaves of several trees are, one tree after the other.
pub open spec fn imports_sightings(
    items: Seq<ImportTreeView>,
    prefix: Seq<Seq<char>>,
    module: Seq<Seq<char>>,
) -> Seq<Sighting>
    decreases items,
{
    if items.len() == 0 {
        seq![]
    } else {
        imports_sightings(items.drop_last(), prefix, module) + import_sightings(
            items.last(),
            prefix,
            module,
        )
    }
}

/// The usages that a written path is: that of the trait in it, and that of the path itself.
pub open spec fn path_sightings(path: WrittenPathView, module: Seq<Seq<char>>) -> Seq<Sighting> {
    let segments = all_bare(path.segments);
    let of_trait: Seq<Sighting> = match path.trait_segments {
        Some(count) if count > 0 => sighting(
            path_usage(
                segments.take(
                    if count < segments.len() {
                        count as int
                    } else {
                        segments.len() as int
                    },
                ),
                path.line,
                SymbolStyle::Plain,
            ),
            module,
        ),
        _ => seq![],
    };
    let of_path: Seq<Sighting> = if !path.leading_colon && path.segments.len() < 2 {
        seq![]
    } else {
        sighting(path_usage(segments, path.line, path.style), module)
    };
    of_trait + of_path
}

/// The usages that one step of the walk meets, in the module `module`.
pub open spec fn event_sightings(event: NameEventView, module: Seq<Seq<char>>) -> Seq<Sighting> {
    match event {
        NameEventView::Path(path) => path_sightings(path, module),
        NameEventView::ExternCrate { ident, line } => seq![
            ((module, ("extern crate"@, bare(ident))), line),
        ],
        NameEventView::Use(tree) => import_sightings(tree, seq![], module),
        _ => seq![],
    }
}

/// The inline modules around the place that the walk has come to.
pub open spec fn module_after(events: Seq<NameEventView>) -> Seq<Seq<char>>
    decreases events.len(),
{
    if events.len() == 0 {
        seq![]
    } else {
        let module = module_after(events.drop_last());
        match events.last() {
            NameEventView::EnterModule { ident } => module.push(bare(ident)),
            NameEventView::LeaveModule => if module.len() > 0 {
                module.drop_last()
            } else {
                module
            },
            _ => module,
        }
    }
}

/// All usages that the walk meets, in the order it meets them.
pub open spec fn sightings(events: Seq<NameEventView>) -> Seq<Sighting>
    decreases events.len(),
{
    if events.len() == 0 {
        seq![]
    } else {
        sightings(events.drop_last()) + event_sightings(
            events.last(),
            module_after(events.drop_last()),
        )
    }
}

/// The least line of each usage among `met`.
pub open spec fn least_lines(met: Seq<Sighting>) -> Map<UsageKey, usize>
    decreases met.len(),
{
    if met.len() == 0 {
        Map::empty()
    } else {
        with_line(least_lines(met.drop_last()), met.last().0, met.last().1)
    }
}

/// `found` with the usages `met` added to it.
spec fn with_sightings(found: VisitorView, met: Seq<Sighting>) -> VisitorView
    decreases met.len(),
{
    if met.len() == 0 {
        found
    } else {
        let earlier = with_sightings(found, met.drop_last());
        VisitorView {
            usages: with_line(earlier.usages, met.last().0, met.last().1),
            ..earlier
        }
    }
}

proof fn lemma_with_sightings_append(found: VisitorView, a: Seq<Sighting>, b: Seq<Sighting>)
    ensures
        with_sightings(found, a + b) == with_sightings(with_sightings(found, a), b),
    decreases b.len(),
{
    if b.len() == 0 {
        assert(a + b =~= a);
    } else {
        assert((a + b).drop_last() =~= a + b.drop_last());
        lemma_with_sightings_append(found, a, b.drop_last());
    }
}

proof fn lemma_with_sightings_module(found: VisitorView, met: Seq<Sighting>)
    ensures
        with_sightings(found, met).module == found.module,
        with_sightings(found, met).inline_module_paths == found.inline_module_paths,
    decreases met.len(),
{
    if met.len() > 0 {
        lemma_with_sightings_module(found, met.drop_last());
    }
}

proof fn lemma_with_usage(found: VisitorView, usage: Option<FileLocalUsageView>)
    ensures
        with_usage(found, usage) == with_sightings(found, sighting(usage, found.module)),
{
    let met = sighting(usage, found.module);
    if usage is Some {
        assert(met.drop_last() =~= seq![]);
        assert(with_sightings(found, met.drop_last()) == found);
    }
}

proof fn lemma_with_import(found: VisitorView, tree: ImportTreeView, prefix: Seq<Seq<char>>)
    ensures
        with_import(found, tree, prefix) == with_sightings(
            found,
            import_sightings(tree, prefix, found.module),
        ),
    decreases tree,
{
    match tree {
        ImportTreeView::Path { ident, tree: inner } => {
            lemma_with_import(found, *inner, prefix.push(bare(ident)));
        },
        ImportTreeView::Name { ident, line } => {
            lemma_with_usage(
                found,
                path_usage(prefix.push(bare(ident)), line, SymbolStyle::Plain),
            );
        },
        ImportTreeView::Rename { ident, line } => {
            lemma_with_usage(
                found,
                path_usage(prefix.push(bare(ident)), line, SymbolStyle::Plain),
            );
        },
        ImportTreeView::Glob { line } => {
            lemma_with_usage(found, path_usage(prefix.push("*"@), line, SymbolStyle::Plain));
        },
        ImportTreeView::Group { items } => {
            lemma_with_imports(found, items, prefix);
        },
    }
}

proof fn lemma_with_imports(
    found: VisitorView,
    items: Seq<ImportTreeView>,
    prefix: Seq<Seq<char>>,
)
    ensures
        with_imports(found, items, prefix) == with_sightings(
            found,
            imports_sightings(items, prefix, found.module),
        ),
    decreases items,
{
    if items.len() > 0 {
        let earlier = items.drop_last();
        let met = imports_sightings(earlier, prefix, found.module);
        lemma_with_imports(found, earlier, prefix);
        lemma_with_sightings_module(found, met);
        lemma_with_import(with_imports(found, earlier, prefix), items.last(), prefix);
        lemma_with_sightings_append(
            found,
            met,
            import_sightings(items.last(), prefix, found.module),
        );
    }
}

proof fn lemma_path_sightings(found: VisitorView, path: WrittenPathView)
    ensures
        with_qualified_path(with_trait_path(found, path), path) == with_sightings(
            found,
            path_sightings(path, found.module),
        ),
{
    let segments = all_bare(path.segments);
    let after_trait = with_trait_path(found, path);
    let of_trait: Seq<Sighting> = match path.trait_segments {
        Some(count) if count > 0 => {
            let length = if count < segments.len() {
                count as int
            } else {
                segments.len() as int
            };
            let usage = path_usage(segments.take(length), path.line, SymbolStyle::Plain);
            lemma_with_usage(found, usage);
            sighting(usage, found.module)
        },
        _ => seq![],
    };
    assert(after_trait == with_sightings(found, of_trait));
    lemma_with_sightings_module(found, of_trait);
    let of_path: Seq<Sighting> = if !path.leading_colon && path.segments.len() < 2 {
        seq![]
    } else {
        sighting(path_usage(segments, path.line, path.style), found.module)
    };
    lemma_with_usage(after_trait, path_usage(segments, path.line, path.style));
    lemma_with_sightings_append(found, of_trait, of_path);
}

proof fn lemma_event(found: VisitorView, event: NameEventView)
    ensures
        after_event(found, event).usages == with_sightings(
            found,
            event_sightings(event, found.module),
        ).usages,
{
    match event {
        NameEventView::Path(path) => {
            lemma_path_sightings(found, path);
        },
        NameEventView::ExternCrate { ident, line } => {
            let usage = FileLocalUsageView {
                module_path_suffix: seq![],
                line,
                origin: "extern crate"@,
                symbol: bare(ident),
            };
            lemma_with_usage(found, Some(usage));
            assert(sighting(Some(usage), found.module) =~= event_sightings(event, found.module));
        },
        NameEventView::Use(tree) => {
            lemma_with_import(found, tree, seq![]);
        },
        _ => {},
    }
}

proof fn lemma_event_module(found: VisitorView, event: NameEventView)
    ensures
        after_event(found, event).module == match event {
            NameEventView::EnterModule { ident } => found.module.push(bare(ident)),
            NameEventView::LeaveModule => if found.module.len() > 0 {
                found.module.drop_last()
            } else {
                found.module
            },
            _ => found.module,
        },
{
    match event {
        NameEventView::Path(path) => {
            lemma_path_sightings(found, path);
            lemma_with_sightings_module(found, path_sightings(path, found.module));
        },
        NameEventView::Use(tree) => {
            lemma_with_import(found, tree, seq![]);
            lemma_with_sightings_module(found, import_sightings(tree, seq![], found.module));
        },
        _ => {},
    }
}

proof fn lemma_with_sightings_least(found: VisitorView, before: Seq<Sighting>, met: Seq<Sighting>)
    requires
        found.usages == least_lines(before),
    ensures
        with_sightings(found, met).usages == least_lines(before + met),
    decreases met.len(),
{
    if met.len() == 0 {
        assert(before + met =~= before);
    } else {
        assert((before + met).drop_last() =~= before + met.drop_last());
        lemma_with_sightings_least(found, before, met.drop_last());
    }
}

/// The walk collects exactly the usages that it meets, each with its least line, and knows the
/// inline modules it is in.
pub proof fn walk_collects_what_it_meets(events: Seq<NameEventView>)
    ensures
        after_events(events).usages == least_lines(sightings(events)),
        after_events(events).module == module_after(events),
    decreases events.len(),
{
    if events.len() > 0 {
        let earlier = events.drop_last();
        let found = after_events(earlier);
        walk_collects_what_it_meets(earlier);
        lemma_event(found, events.last());
        lemma_event_module(found, events.last());
        lemma_with_sightings_least(
            found,
            sightings(earlier),
            event_sightings(events.last(), found.module),
        );
    }
}

proof fn lemma_least_lines(met: Seq<Sighting>)
    ensures
        forall|i: int|
            0 <= i < met.len() ==> least_lines(met).dom().contains((#[trigger] met[i]).0)
                && least_lines(met)[met[i].0] <= met[i].1,
        forall|key: UsageKey| #[trigger]
            least_lines(met).dom().contains(key) ==> met.contains((key, least_lines(met)[key])),
    decreases met.len(),
{
    if met.len() > 0 {
        let earlier = met.drop_last();
        lemma_least_lines(earlier);
        let last = met.last();
        assert forall|i: int| 0 <= i < met.len() implies least_lines(met).dom().contains(
            (#[trigger] met[i]).0,
        ) && least_lines(met)[met[i].0] <= met[i].1 by {
            if i < met.len() - 1 {
                assert(earlier[i] == met[i]);
            }
        }
        assert forall|key: UsageKey| #[trigger] least_lines(met).dom().contains(key) implies
            met.contains((key, least_lines(met)[key])) by {
            if key == last.0 && least_lines(met)[key] == last.1 {
                assert(met[met.len() - 1] == last);
            } else {
                assert(least_lines(earlier).dom().contains(key));
                let i = earlier.index_of((key, least_lines(earlier)[key]));
                assert(met[i] == earlier[i]);
            }
        }
    }
}

/// Each listed usage was met at the line it is listed with, each usage that was met is listed with
/// a line no later than where it was met, and none is listed twice.
pub proof fn usages_are_listed_once_at_their_first_line(
    events: Seq<NameEventView>,
    list: Seq<FileLocalUsageView>,
)
    requires
        lists_usages(list, after_events(events).usages),
    ensures
        forall|i: int|
            0 <= i < list.len() ==> sightings(events).contains(
                (usage_key(#[trigger] list[i]), list[i].line),
            ),
        forall|j: int|
            0 <= j < sightings(events).len() ==> exists|i: int|
                0 <= i < list.len() && usage_key(#[trigger] list[i]) == (#[trigger] sightings(
                    events,
                )[j]).0 && list[i].line <= sightings(events)[j].1,
        forall|i: int, j: int|
            0 <= i < j < list.len() ==> usage_key(#[trigger] list[i]) != usage_key(
                #[trigger] list[j],
            ),
{
    let met = sightings(events);
    let table = after_events(events).usages;
    walk_collects_what_it_meets(events);
    lemma_least_lines(met);
    assert forall|i: int| 0 <= i < list.len() implies met.contains(
        (usage_key(#[trigger] list[i]), list[i].line),
    ) by {
        assert(list.to_set().contains(list[i]));
        assert(usages_of(table).contains(list[i]));
        assert(table.dom().contains(usage_key(list[i])));
    }
    assert forall|j: int| 0 <= j < met.len() implies exists|i: int|
        0 <= i < list.len() && usage_key(#[trigger] list[i]) == (#[trigger] met[j]).0
            && list[i].line <= met[j].1 by {
        let key = met[j].0;
        let usage = usage_with(key, table[key]);
        assert(usage_key(usage) == key);
        assert(usages_of(table).contains(usage));
        assert(list.to_set().contains(usage));
        let i = list.index_of(usage);
        assert(list[i] == usage);
    }
    assert forall|i: int, j: int| 0 <= i < j < list.len() implies usage_key(#[trigger] list[i])
        != usage_key(#[trigger] list[j]) by {
        assert(list.to_set().contains(list[i]) && list.to_set().contains(list[j]));
        assert(usages_of(table).contains(list[i]) && usages_of(table).contains(list[j]));
        if usage_key(list[i]) == usage_key(list[j]) {
            assert(list[i] =~= list[j]);
            lemma_ascending_distinct::<FileLocalUsage>(list, i, j);
        }
    }
}

/// Each of the usages `met` was met in the module `module`.
spec fn all_met_in(met: Seq<Sighting>, module: Seq<Seq<char>>) -> bool {
    forall|i: int| 0 <= i < met.len() ==> (#[trigger] met[i]).0.0 == module
}

proof fn lemma_import_met_in(
    tree: ImportTreeView,
    prefix: Seq<Seq<char>>,
    module: Seq<Seq<char>>,
)
    ensures
        all_met_in(import_sightings(tree, prefix, module), module),
    decreases tree,
{
    match tree {
        ImportTreeView::Path { ident, tree: inner } => {
            lemma_import_met_in(*inner, prefix.push(bare(ident)), module);
        },
        ImportTreeView::Group { items } => {
            lemma_imports_met_in(items, prefix, module);
        },
        _ => {},
    }
}

proof fn lemma_imports_met_in(
    items: Seq<ImportTreeView>,
    prefix: Seq<Seq<char>>,
    module: Seq<Seq<char>>,
)
    ensures
        all_met_in(imports_sightings(items, prefix, module), module),
    decreases items,
{
    if items.len() > 0 {
        lemma_imports_met_in(items.drop_last(), prefix, module);
        lemma_import_met_in(items.last(), prefix, module);
    }
}

proof fn lemma_with_sightings_keys(found: VisitorView, met: Seq<Sighting>)
    requires
        all_met_in(met, found.module),
        found.usages.dom().finite(),
    ensures
        with_sightings(found, met).usages.dom().finite(),
        forall|key: UsageKey| #[trigger]
            with_sightings(found, met).usages.dom().contains(key) ==> found.usages.dom().contains(
                key,
            ) || key.0 == found.module,
    decreases met.len(),
{
    if met.len() > 0 {
        let earlier = met.drop_last();
        assert(all_met_in(earlier, found.module)) by {
            assert forall|i: int| 0 <= i < earlier.len() implies (#[trigger] earlier[i]).0.0
                == found.module by {
                assert(earlier[i] == met[i]);
            }
        }
        lemma_with_sightings_keys(found, earlier);
        assert(met[met.len() - 1] == met.last());
    }
}

/// Each usage lies in no inline module or in one that was entered, the modules around the place
/// that the walk has come to were all entered, and there are finitely many usages.
pub proof fn usages_lie_in_entered_modules(events: Seq<NameEventView>)
    ensures
        ({
            let found = after_events(events);
            &&& found.usages.dom().finite()
            &&& forall|key: UsageKey| #[trigger]
                found.usages.dom().contains(key) ==> key.0.len() == 0
                    || found.inline_module_paths.contains(key.0)
            &&& forall|length: int|
                1 <= length <= found.module.len() ==> found.inline_module_paths.contains(
                    #[trigger] found.module.take(length),
                )
        }),
    decreases events.len(),
{
    if events.len() > 0 {
        let earlier = events.drop_last();
        let before = after_events(earlier);
        let event = events.last();
        let found = after_events(events);
        usages_lie_in_entered_modules(earlier);
        lemma_event(before, event);
        lemma_event_module(before, event);
        let met = event_sightings(event, before.module);
        assert(all_met_in(met, before.module)) by {
            if let NameEventView::Use(tree) = event {
                lemma_import_met_in(tree, seq![], before.module);
            }
        }
        lemma_with_sightings_keys(before, met);
        assert(before.module.take(before.module.len() as int) =~= before.module);
        match event {
            NameEventView::EnterModule { ident } => {
                let entered = before.module.push(bare(ident));
                assert(found.inline_module_paths == before.inline_module_paths.push(entered));
                assert forall|module: Seq<Seq<char>>|
                    before.inline_module_paths.contains(module) || module
                        == entered implies #[trigger] found.inline_module_paths.contains(
                    module,
                ) by {
                    if before.inline_module_paths.contains(module) {
                        let i = before.inline_module_paths.index_of(module);
                        assert(found.inline_module_paths[i] == module);
                    } else {
                        assert(found.inline_module_paths[before.inline_module_paths.len() as int]
                            == module);
                    }
                }
                assert forall|length: int|
                    1 <= length
                        <= found.module.len() implies found.inline_module_paths.contains(
                    #[trigger] found.module.take(length),
                ) by {
                    if length <= before.module.len() {
                        assert(found.module.take(length) =~= before.module.take(length));
                    } else {
                        assert(found.module.take(length) =~= entered);
                    }
                }
            },
            NameEventView::LeaveModule => {
                assert forall|length: int|
                    1 <= length
                        <= found.module.len() implies found.inline_module_paths.contains(
                    #[trigger] found.module.take(length),
                ) by {
                    assert(found.module.take(length) =~= before.module.take(length));
                }
            },
            NameEventView::Path(path) => {
                lemma_path_sightings(before, path);
                lemma_with_sightings_module(before, met);
            },
            NameEventView::Use(tree) => {
                lemma_with_import(before, tree, seq![]);
                lemma_with_sightings_module(before, met);
            },
            NameEventView::ExternCrate { .. } => {},
        }
    }
}

/// The modules around an inline module that was entered were entered too.
pub proof fn entered_modules_lie_in_entered_modules(
    events: Seq<NameEventView>,
    module: Seq<Seq<char>>,
    length: int,
)
    requires
        after_events(events).inline_module_paths.contains(module),
        1 <= length <= module.len(),
    ensures
        after_events(events).inline_module_paths.contains(module.take(length)),
    decreases events.len(),
{
    if events.len() > 0 {
        let earlier = events.drop_last();
        let before = after_events(earlier).inline_module_paths;
        let after = after_events(events).inline_module_paths;
        let event = events.last();
        usages_lie_in_entered_modules(earlier);
        lemma_event_paths(after_events(earlier), event);
        assert(module.take(module.len() as int) =~= module);
        if before.contains(module) {
            entered_modules_lie_in_entered_modules(earlier, module, length);
            let at = before.index_of(module.take(length));
            assert(after[at] == module.take(length));
        } else {
            let around = after_events(earlier).module;
            let at = after.index_of(module);
            assert(at == before.len());
            assert(module.drop_last() =~= around);
            if length < module.len() {
                assert(module.take(length) =~= around.take(length));
                let place = before.index_of(around.take(length));
                assert(after[place] == module.take(length));
            }
        }
    }
}

proof fn lemma_event_paths(found: VisitorView, event: NameEventView)
    ensures
        after_event(found, event).inline_module_paths == match event {
            NameEventView::EnterModule { ident } => found.inline_module_paths.push(
                found.module.push(bare(ident)),
            ),
            _ => found.inline_module_paths,
        },
{
    match event {
        NameEventView::Path(path) => {
            lemma_path_sightings(found, path);
            lemma_with_sightings_module(found, path_sightings(path, found.module));
        },
        NameEventView::Use(tree) => {
            lemma_with_import(found, tree, seq![]);
            lemma_with_sightings_module(found, import_sightings(tree, seq![], found.module));
        },
        _ => {},
    }
}

/// What the walk finds can be listed.
pub proof fn found_usages_can_be_listed(events: Seq<NameEventView>)
    ensures
        lists_usages(
            sorted_usages(after_events(events).usages),
            after_events(events).usages,
        ),
{
    let table = after_events(events).usages;
    usages_lie_in_entered_modules(events);
    let shown = |key: UsageKey| usage_with(key, table[key]);
    table.dom().lemma_map_finite(shown);
    assert forall|usage: FileLocalUsageView|
        usages_of(table).contains(usage) == table.dom().map(shown).contains(usage) by {
        if usages_of(table).contains(usage) {
            assert(usage =~= shown(usage_key(usage)));
        }
        if table.dom().map(shown).contains(usage) {
            let key = choose|key: UsageKey| table.dom().contains(key) && usage == shown(key);
            assert(usage_key(usage) == key);
        }
    }
    assert(usages_of(table) =~= table.dom().map(shown));
    let list = lemma_ascending_exists::<FileLocalUsage>(usages_of(table));
    assert(lists_usages(list, table));
}

} // verus!
