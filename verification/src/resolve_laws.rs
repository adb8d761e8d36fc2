//! How paths are resolved to modules.
use crate::resolve::{
    absolute_module_candidate, absolute_path, enclosing, has_module_prefix, known_prefix,
    lemma_longest_known, module_path_to_string, naming, path_segments, resolve_internal_module,
    resolved_module, usage_path_segments, Usage, UsageView,
};
use crate::table::OrderedSet;
use crate::text::{join_path, split_path};
use vstd::prelude::*;

verus! {

/// A usage resolves to a known module at the start of its absolute path, and to no shorter one
/// where a longer one is known.
pub proof fn usages_resolve_to_the_longest_known_module(
    usage: UsageView,
    known: Set<Seq<Seq<char>>>,
)
    ensures
        match absolute_path(usage.module, path_segments(usage.origin, usage.symbol), known) {
            Some(path) => match resolved_module(usage, known) {
                Some(module) => {
                    &&& known.contains(module)
                    &&& 1 <= module.len() <= path.len()
                    &&& module == path.take(module.len() as int)
                    &&& forall|longer: int|
                        module.len() < longer <= path.len() ==> !known.contains(
                            #[trigger] path.take(longer),
                        )
                },
                None => !known_prefix(path, known),
            },
            None => resolved_module(usage, known) is None,
        },
{
    if let Some(path) = absolute_path(
        usage.module,
        path_segments(usage.origin, usage.symbol),
        known,
    ) {
        lemma_longest_known(path, path.len() as int, known);
    }
}

/// Inside a module of the crate, `self::rest` means what the module's own path followed by `rest`
/// means anywhere.
pub proof fn self_stands_for_the_module(
    module: Seq<Seq<char>>,
    rest: Seq<Seq<char>>,
    elsewhere: Seq<Seq<char>>,
    known: Set<Seq<Seq<char>>>,
)
    requires
        module.len() > 0,
        module[0] == "crate"@,
    ensures
        absolute_path(module, seq!["self"@] + rest, known) == absolute_path(
            elsewhere,
            module + rest,
            known,
        ),
{
    reveal_strlit("self");
    reveal_strlit("crate");
    let path = seq!["self"@] + rest;
    assert(path.skip(1) =~= rest);
    assert(path[0].len() == 4);
    assert((module + rest)[0] == "crate"@);
    assert(module[0].len() == 5);
}

/// Inside a module below another one, `super::rest` means what the other one's path followed by
/// `rest` means anywhere.
pub proof fn super_stands_for_the_enclosing_module(
    outer: Seq<Seq<char>>,
    name: Seq<char>,
    rest: Seq<Seq<char>>,
    elsewhere: Seq<Seq<char>>,
    known: Set<Seq<Seq<char>>>,
)
    requires
        outer.len() > 0,
        outer[0] == "crate"@,
    ensures
        absolute_path(outer.push(name), seq!["super"@] + rest, known) == absolute_path(
            elsewhere,
            outer + rest,
            known,
        ),
{
    reveal_strlit("self");
    reveal_strlit("super");
    reveal_strlit("crate");
    let path = seq!["super"@] + rest;
    assert(path.skip(1) =~= rest);
    assert(path[0].len() == 5 && path[0][0] == 's');
    assert("crate"@[0] == 'c');
    assert("self"@.len() == 4);
    assert(enclosing(outer.push(name)) =~= outer);
    assert((outer + rest)[0] == "crate"@);
}

/// A path that starts with a name means a module near by before one of the same name below the
/// root: the root is tried only where nothing near by is known.
pub proof fn near_modules_come_first(
    from: Seq<Seq<char>>,
    path: Seq<Seq<char>>,
    known: Set<Seq<Seq<char>>>,
)
    requires
        path.len() > 0,
        path[0] != "crate"@,
        path[0] != "self"@,
        path[0] != "super"@,
    ensures
        known_prefix(from + path, known) ==> absolute_path(from, path, known) == Some(from + path),
        absolute_path(from, path, known) is None <==> !known_prefix(from + path, known)
            && !known_prefix(seq!["crate"@] + path, known),
{
}

/// A path that starts with `crate` is its own absolute path, wherever it stands and whatever
/// modules are known.
pub proof fn paths_from_the_root_are_absolute(
    from: Vec<String>,
    path: Vec<String>,
    known: OrderedSet<Vec<String>>,
    absolute: Option<Vec<String>>,
)
    requires
        call_ensures(absolute_module_candidate, (&from, &path, &known), absolute),
        path.len() > 0,
        path[0]@ == "crate"@,
    ensures
        absolute matches Some(absolute) && absolute.deep_view() == path.deep_view(),
{
    assert(path.deep_view()[0] == path[0]@);
    assert(absolute.deep_view() == Some(path.deep_view()));
}

/// A path that starts with `self` goes on from the module it stands in, and one that starts with
/// `super` from the module around that one. Neither depends on the modules that are known.
pub proof fn self_and_super_go_on_from_the_module(
    from: Vec<String>,
    path: Vec<String>,
    known: OrderedSet<Vec<String>>,
    absolute: Option<Vec<String>>,
)
    requires
        call_ensures(absolute_module_candidate, (&from, &path, &known), absolute),
        path.len() > 0,
    ensures
        path[0]@ == "self"@ ==> absolute.deep_view() == Some(
            from.deep_view() + path.deep_view().drop_first(),
        ),
        path[0]@ == "super"@ && from.len() > 0 ==> absolute.deep_view() == Some(
            from.deep_view().drop_last() + path.deep_view().drop_first(),
        ),
        path[0]@ == "super"@ && from.len() == 0 ==> absolute.deep_view() == Some(
            path.deep_view().drop_first(),
        ),
{
    reveal_strlit("self");
    reveal_strlit("super");
    reveal_strlit("crate");
    let segments = path.deep_view();
    assert(segments[0] == path[0]@);
    assert(segments.skip(1) =~= segments.drop_first());
    assert("super"@[0] == 's' && "crate"@[0] == 'c' && "self"@.len() == 4);
    let none = Seq::<Seq<char>>::empty();
    if from.len() == 0 {
        assert(from.deep_view() =~= none);
        assert(none + segments.drop_first() =~= segments.drop_first());
    }
}

/// Some start of `path`, of one segment or more, is among `known`.
pub open spec fn leads_through(path: Seq<Seq<char>>, known: Set<Seq<Seq<char>>>) -> bool {
    exists|length: int| 1 <= length <= path.len() && known.contains(#[trigger] path.take(length))
}

/// A path that starts with any other name goes on from the module it stands in, if that leads
/// through a known module; otherwise from the root, if that does; otherwise nowhere. A path
/// without segments leads nowhere.
pub proof fn names_are_looked_for_nearby_and_below_the_root(
    from: Vec<String>,
    path: Vec<String>,
    known: OrderedSet<Vec<String>>,
    absolute: Option<Vec<String>>,
)
    requires
        call_ensures(absolute_module_candidate, (&from, &path, &known), absolute),
        path.len() > 0 ==> !seq!["crate"@, "self"@, "super"@].contains(path[0]@),
    ensures
        path.len() == 0 ==> absolute is None,
        ({
            let near = from.deep_view() + path.deep_view();
            let far = seq!["crate"@] + path.deep_view();
            path.len() > 0 ==> match absolute {
                Some(absolute) => {
                    ||| leads_through(near, known@) && absolute.deep_view() == near
                    ||| !leads_through(near, known@) && leads_through(far, known@)
                        && absolute.deep_view() == far
                },
                None => !leads_through(near, known@) && !leads_through(far, known@),
            }
        }),
{
    let segments = path.deep_view();
    if path.len() > 0 {
        assert(segments[0] == path[0]@);
        let roots = seq!["crate"@, "self"@, "super"@];
        assert(roots[0] == "crate"@ && roots[1] == "self"@ && roots[2] == "super"@);
        assert(roots.contains("crate"@) && roots.contains("self"@) && roots.contains("super"@));
        let near = from.deep_view() + segments;
        let far = seq!["crate"@] + segments;
        assert(leads_through(near, known@) <==> known_prefix(near, known@));
        assert(leads_through(far, known@) <==> known_prefix(far, known@));
    }
}

/// What a call of `has_module_prefix` tells.
pub proof fn prefixes_are_starts_of_any_length(
    path: Vec<String>,
    known: OrderedSet<Vec<String>>,
    has: bool,
)
    requires
        call_ensures(has_module_prefix, (&path, &known), has),
    ensures
        has <==> leads_through(path.deep_view(), known@),
{
}

/// The segments of a usage's path are the pieces of its origin and then those of its symbol,
/// without empty ones and without `*`.
pub proof fn paths_of_usages_leave_out_gaps_and_stars(usage: Usage, segments: Vec<String>)
    requires
        call_ensures(usage_path_segments, (&usage,), segments),
    ensures
        ({
            let named = |piece: Seq<char>| piece.len() > 0 && piece != "*"@;
            segments.deep_view() == split_path(usage.origin@).filter(named) + split_path(
                usage.symbol@,
            ).filter(named)
        }),
{
    let named = |piece: Seq<char>| piece.len() > 0 && piece != "*"@;
    assert(named =~= (|segment: Seq<char>| naming(segment)));
    lemma_filter_add(split_path(usage.origin@), split_path(usage.symbol@), named);
}

proof fn lemma_filter_add<T>(a: Seq<T>, b: Seq<T>, keeps: spec_fn(T) -> bool)
    ensures
        (a + b).filter(keeps) == a.filter(keeps) + b.filter(keeps),
    decreases b.len(),
{
    reveal(Seq::filter);
    if b.len() == 0 {
        assert(a + b =~= a);
        assert(b.filter(keeps) =~= seq![]);
        assert(a.filter(keeps) + b.filter(keeps) =~= a.filter(keeps));
    } else {
        lemma_filter_add(a, b.drop_last(), keeps);
        assert((a + b).drop_last() =~= a + b.drop_last());
        assert((a + b).last() == b.last());
        assert((a + b).filter(keeps) =~= a.filter(keeps) + b.filter(keeps));
    }
}

/// A usage resolves to the longest start of its absolute path that is a known module, of one
/// segment or more; without such a start, or without an absolute path, to none.
pub proof fn usages_resolve_along_their_absolute_path(
    usage: Usage,
    known: OrderedSet<Vec<String>>,
    segments: Vec<String>,
    absolute: Option<Vec<String>>,
    module: Option<Vec<String>>,
)
    requires
        call_ensures(usage_path_segments, (&usage,), segments),
        call_ensures(absolute_module_candidate, (&usage.module, &segments, &known), absolute),
        call_ensures(resolve_internal_module, (&usage, &known), module),
    ensures
        match (absolute, module) {
            (Some(absolute), Some(module)) => {
                let path = absolute.deep_view();
                let length = module.len() as int;
                &&& 1 <= length <= path.len()
                &&& module.deep_view() == path.take(length)
                &&& known@.contains(path.take(length))
                &&& forall|longer: int|
                    length < longer <= path.len() ==> !known@.contains(#[trigger] path.take(longer))
            },
            (Some(absolute), None) => !leads_through(absolute.deep_view(), known@),
            (None, Some(_)) => false,
            (None, None) => true,
        },
{
    usages_resolve_to_the_longest_known_module(usage.deep_view(), known@);
    if let Some(module) = module {
        assert(module.deep_view().len() == module.len());
    }
}

/// A usage whose path from the root names a known module resolves to that module, wherever it
/// stands.
pub proof fn paths_to_known_modules_resolve_to_them(
    usage: Usage,
    known: OrderedSet<Vec<String>>,
    segments: Vec<String>,
    module: Option<Vec<String>>,
)
    requires
        call_ensures(usage_path_segments, (&usage,), segments),
        call_ensures(resolve_internal_module, (&usage, &known), module),
        segments.len() > 0,
        segments[0]@ == "crate"@,
        known@.contains(segments.deep_view()),
    ensures
        module matches Some(module) && module.deep_view() == segments.deep_view(),
{
    let path = segments.deep_view();
    assert(path[0] == segments[0]@);
    assert(path.take(path.len() as int) =~= path);
    usages_resolve_to_the_longest_known_module(usage.deep_view(), known@);
    assert(module.deep_view() == Some(path));
}

/// What a usage resolves to depends on its module and its path alone, not on its file or line.
pub proof fn usages_of_one_path_resolve_alike(
    left: Usage,
    right: Usage,
    known: OrderedSet<Vec<String>>,
    left_segments: Vec<String>,
    right_segments: Vec<String>,
    left_module: Option<Vec<String>>,
    right_module: Option<Vec<String>>,
)
    requires
        call_ensures(usage_path_segments, (&left,), left_segments),
        call_ensures(usage_path_segments, (&right,), right_segments),
        left.module.deep_view() == right.module.deep_view(),
        left_segments.deep_view() == right_segments.deep_view(),
        call_ensures(resolve_internal_module, (&left, &known), left_module),
        call_ensures(resolve_internal_module, (&right, &known), right_module),
    ensures
        left_module.deep_view() == right_module.deep_view(),
{
}

/// A module is written as its names with two colons between them.
pub proof fn modules_are_written_with_colons(module: Vec<String>, text: String)
    requires
        call_ensures(module_path_to_string, (&module,), text),
    ensures
        text@ == join_path(module.deep_view()),
{
}

} // verus!
