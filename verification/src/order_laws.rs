//! What the orders of texts, sequences, usages and dependencies are.
use crate::dependencies::{InternalDependency, InternalDependencyView};
use crate::order::{lesser_at, lexicographic, rank_text, sequence_less, text_less, Rank, Ranked};
use crate::path::{FilePath, PathComponent, PathPart};
use crate::prefix::PrefixKind;
use crate::usage::{FileLocalUsage, FileLocalUsageView};
use vstd::prelude::*;

verus! {

proof fn lemma_lexicographic_steps<T>(less: spec_fn(T, T) -> bool, a: Seq<T>, b: Seq<T>, x: T, y: T)
    requires
        !less(x, x),
    ensures
        lexicographic(less, Seq::<T>::empty(), b) <==> b.len() > 0,
        !lexicographic(less, a, Seq::<T>::empty()),
        lexicographic(less, seq![x] + a, seq![x] + b) <==> lexicographic(less, a, b),
        x != y ==> (lexicographic(less, seq![x] + a, seq![y] + b) <==> less(x, y)),
{
    let none = Seq::<T>::empty();
    if b.len() > 0 {
        assert(none.take(0) =~= b.take(0));
        assert(lesser_at(less, none, b, 0));
    }
    let xa = seq![x] + a;
    let xb = seq![x] + b;
    if lexicographic(less, a, b) {
        let at = choose|at: int| lesser_at(less, a, b, at);
        assert(xa.take(at + 1) =~= seq![x] + a.take(at));
        assert(xb.take(at + 1) =~= seq![x] + b.take(at));
        assert(lesser_at(less, xa, xb, at + 1));
    }
    if lexicographic(less, xa, xb) {
        let at = choose|at: int| lesser_at(less, xa, xb, at);
        assert(at > 0);
        assert forall|i: int| 0 <= i < at - 1 implies a[i] == b[i] by {
            assert(xa.take(at)[i + 1] == xb.take(at)[i + 1]);
        }
        assert(a.take(at - 1) =~= b.take(at - 1));
        assert(lesser_at(less, a, b, at - 1));
    }
    let yb = seq![y] + b;
    if x != y {
        if less(x, y) {
            assert(xa.take(0) =~= yb.take(0));
            assert(lesser_at(less, xa, yb, 0));
        }
        if lexicographic(less, xa, yb) {
            let at = choose|at: int| lesser_at(less, xa, yb, at);
            if at > 0 {
                assert(xa.take(at)[0] == yb.take(at)[0]);
            }
        }
    }
}

/// Texts are ordered as in a dictionary, by code point: nothing comes before anything else, a
/// common first character does not matter, and different first characters decide.
pub proof fn texts_are_in_dictionary_order(a: Seq<char>, b: Seq<char>, x: char, y: char)
    ensures
        text_less(Seq::<char>::empty(), b) <==> b.len() > 0,
        !text_less(a, Seq::<char>::empty()),
        text_less(seq![x] + a, seq![x] + b) <==> text_less(a, b),
        x != y ==> (text_less(seq![x] + a, seq![y] + b) <==> x < y),
{
    lemma_lexicographic_steps(|x: char, y: char| crate::order::char_less(x, y), a, b, x, y);
}

/// What a call of `rank_text` gives is the place in the dictionary: a text before another one, the
/// same, or after it.
pub proof fn ranked_texts_are_in_dictionary_order(left: &str, right: &str, rank: Rank)
    requires
        call_ensures(rank_text, (left, right), rank),
    ensures
        rank == Rank::Same <==> left@ == right@,
        rank == Rank::Before <==> text_less(left@, right@),
        rank == Rank::After <==> text_less(right@, left@),
{
}

/// Sequences are ordered as in a dictionary, by the order of their elements.
pub proof fn sequences_are_in_dictionary_order<T: Ranked>(
    a: Seq<<T as DeepView>::V>,
    b: Seq<<T as DeepView>::V>,
    x: <T as DeepView>::V,
    y: <T as DeepView>::V,
)
    ensures
        sequence_less::<T>(Seq::<<T as DeepView>::V>::empty(), b) <==> b.len() > 0,
        !sequence_less::<T>(a, Seq::<<T as DeepView>::V>::empty()),
        sequence_less::<T>(seq![x] + a, seq![x] + b) <==> sequence_less::<T>(a, b),
        x != y ==> (sequence_less::<T>(seq![x] + a, seq![y] + b) <==> T::precedes(x, y)),
{
    crate::order::lemma_order_laws::<T>();
    lemma_lexicographic_steps(
        |x: <T as DeepView>::V, y: <T as DeepView>::V| T::precedes(x, y),
        a,
        b,
        x,
        y,
    );
}

/// Usages are ordered by line; on one line by origin, then by symbol, and last by the inline
/// modules around them, outermost first.
pub proof fn usages_are_ordered_by_line(a: FileLocalUsageView, b: FileLocalUsageView)
    ensures
        a.line != b.line ==> (FileLocalUsage::precedes(a, b) <==> a.line < b.line),
        a.line == b.line && a.origin != b.origin ==> (FileLocalUsage::precedes(a, b)
            <==> text_less(a.origin, b.origin)),
        a.line == b.line && a.origin == b.origin && a.symbol != b.symbol ==> (
        FileLocalUsage::precedes(a, b) <==> text_less(a.symbol, b.symbol)),
        a.line == b.line && a.origin == b.origin && a.symbol == b.symbol ==> (
        FileLocalUsage::precedes(a, b) <==> sequence_less::<String>(
            a.module_path_suffix,
            b.module_path_suffix,
        )),
{
    crate::order::lemma_order_laws::<String>();
    assert(!String::precedes(a.origin, a.origin));
    assert(!String::precedes(a.symbol, a.symbol));
}

/// Dependencies are ordered by file, component by component; in one file by line, then by the
/// module that they lead from, and last by the one that they lead to.
pub proof fn dependencies_are_ordered_by_file_and_line(
    a: InternalDependencyView,
    b: InternalDependencyView,
)
    ensures
        a.file != b.file ==> (InternalDependency::precedes(a, b) <==> sequence_less::<
            PathComponent,
        >(a.file, b.file)),
        a.file == b.file && a.line != b.line ==> (InternalDependency::precedes(a, b) <==> a.line
            < b.line),
        a.file == b.file && a.line == b.line && a.from_module != b.from_module ==> (
        InternalDependency::precedes(a, b) <==> text_less(a.from_module, b.from_module)),
        a.file == b.file && a.line == b.line && a.from_module == b.from_module ==> (
        InternalDependency::precedes(a, b) <==> text_less(a.to_module, b.to_module)),
{
    crate::order::lemma_order_laws::<FilePath>();
    crate::order::lemma_order_laws::<String>();
    assert(!FilePath::precedes(a.file, a.file));
    assert(!String::precedes(a.from_module, a.from_module));
}

/// Components of paths are ordered by their kind: prefixes, the root, the current directory, the
/// parent, names. Names are ordered as in a dictionary, byte by byte.
pub proof fn components_are_ordered_by_kind(a: PathPart, b: PathPart)
    ensures
        a is Prefix && !(b is Prefix) ==> PathComponent::precedes(a, b),
        a is Root && !(b is Prefix) && !(b is Root) ==> PathComponent::precedes(a, b),
        a is Current && (b is Parent || b is Name) ==> PathComponent::precedes(a, b),
        a is Parent && b is Name ==> PathComponent::precedes(a, b),
        a is Name && b is Name ==> (PathComponent::precedes(a, b) <==> sequence_less::<u8>(
            a->Name_0,
            b->Name_0,
        )),
{
    crate::order::lemma_order_laws::<Vec<u8>>();
    let none = Seq::<u8>::empty();
    assert(!<Vec<u8> as Ranked>::precedes(none, none));
    if let PathPart::Name(name) = a {
        assert(!<Vec<u8> as Ranked>::precedes(name, name));
    }
}

/// Bytes in a sequence are ordered by size.
pub proof fn bytes_are_in_dictionary_order(a: Seq<u8>, b: Seq<u8>, x: u8, y: u8)
    ensures
        sequence_less::<u8>(Seq::<u8>::empty(), b) <==> b.len() > 0,
        !sequence_less::<u8>(a, Seq::<u8>::empty()),
        sequence_less::<u8>(seq![x] + a, seq![x] + b) <==> sequence_less::<u8>(a, b),
        x != y ==> (sequence_less::<u8>(seq![x] + a, seq![y] + b) <==> x < y),
{
    sequences_are_in_dictionary_order::<u8>(a, b, x, y);
}

/// Prefixes are ordered by their kind, then by the name, server or drive in them, and last by the
/// share.
pub proof fn prefixes_are_ordered_by_kind(a: PathPart, b: PathPart)
    requires
        a is Prefix,
        b is Prefix,
    ensures
        ({
            let (x, y) = (a->Prefix_0, b->Prefix_0);
            &&& x.kind == PrefixKind::Verbatim && y.kind != PrefixKind::Verbatim
                ==> PathComponent::precedes(a, b)
            &&& x.kind == PrefixKind::VerbatimUnc && (y.kind == PrefixKind::VerbatimDisk || y.kind
                == PrefixKind::Device || y.kind == PrefixKind::Unc || y.kind == PrefixKind::Disk)
                ==> PathComponent::precedes(a, b)
            &&& x.kind == PrefixKind::VerbatimDisk && (y.kind == PrefixKind::Device || y.kind
                == PrefixKind::Unc || y.kind == PrefixKind::Disk) ==> PathComponent::precedes(a, b)
            &&& x.kind == PrefixKind::Device && (y.kind == PrefixKind::Unc || y.kind
                == PrefixKind::Disk) ==> PathComponent::precedes(a, b)
            &&& x.kind == PrefixKind::Unc && y.kind == PrefixKind::Disk ==> PathComponent::precedes(
                a,
                b,
            )
            &&& x.kind == y.kind && x.first != y.first ==> (PathComponent::precedes(a, b)
                <==> sequence_less::<u8>(x.first, y.first))
            &&& x.kind == y.kind && x.first == y.first ==> (PathComponent::precedes(a, b)
                <==> sequence_less::<u8>(x.second, y.second))
        }),
{
    crate::order::lemma_order_laws::<Vec<u8>>();
    let x = a->Prefix_0;
    assert(!<Vec<u8> as Ranked>::precedes(x.first, x.first));
}

} // verus!
