//! Total orders on values, and sequences kept in such an order.
use vstd::prelude::*;

verus! {

/// Where one value stands relative to another.
#[derive(Clone, Copy, Debug, PartialEq, Eq)]
pub enum Rank {
    Before,
    Same,
    After,
}

/// `less` is irreflexive, transitive, and holds one way or the other between any two
/// different values.
pub open spec fn strict_total<T>(less: spec_fn(T, T) -> bool) -> bool {
    &&& forall|a: T| !(#[trigger] less(a, a))
    &&& forall|a: T, b: T, c: T| #[trigger] less(a, b) && #[trigger] less(b, c) ==> less(a, c)
    &&& forall|a: T, b: T| #[trigger] less(a, b) || a == b || less(b, a)
}

/// Types whose mathematical values stand in a strict total order that can be decided.
pub trait Ranked: DeepView + Sized {
    spec fn precedes(a: <Self as DeepView>::V, b: <Self as DeepView>::V) -> bool;

    proof fn order_laws()
        ensures
            strict_total(
                |a: <Self as DeepView>::V, b: <Self as DeepView>::V| Self::precedes(a, b),
            ),
    ;

    fn rank(&self, other: &Self) -> (rank: Rank)
        ensures
            rank == Rank::Before <==> Self::precedes(self.deep_view(), other.deep_view()),
            rank == Rank::Same <==> self.deep_view() == other.deep_view(),
            rank == Rank::After <==> Self::precedes(other.deep_view(), self.deep_view()),
    ;
}

/// The laws of `T`'s order, spelled out over `T::precedes`.
pub proof fn lemma_order_laws<T: Ranked>()
    ensures
        forall|a: <T as DeepView>::V| !(#[trigger] T::precedes(a, a)),
        forall|a: <T as DeepView>::V, b: <T as DeepView>::V, c: <T as DeepView>::V|
            #[trigger] T::precedes(a, b) && #[trigger] T::precedes(b, c) ==> T::precedes(a, c),
        forall|a: <T as DeepView>::V, b: <T as DeepView>::V| #[trigger]
            T::precedes(a, b) || a == b || T::precedes(b, a),
{
    T::order_laws();
    let less = |a: <T as DeepView>::V, b: <T as DeepView>::V| T::precedes(a, b);
    assert(strict_total(less));
    assert forall|a: <T as DeepView>::V| !(#[trigger] T::precedes(a, a)) by {
        assert(!less(a, a));
    }
    assert forall|a: <T as DeepView>::V, b: <T as DeepView>::V, c: <T as DeepView>::V|
        #[trigger] T::precedes(a, b) && #[trigger] T::precedes(b, c) implies T::precedes(
        a,
        c,
    ) by {
        assert(less(a, b) && less(b, c));
        assert(less(a, c));
    }
    assert forall|a: <T as DeepView>::V, b: <T as DeepView>::V| #[trigger]
        T::precedes(a, b) || a == b || T::precedes(b, a) by {
        assert(less(a, b) || a == b || less(b, a));
    }
}

/// `a` and `b` agree before `at`, where `a` ends first or holds the lesser element.
pub open spec fn lesser_at<T>(less: spec_fn(T, T) -> bool, a: Seq<T>, b: Seq<T>, at: int) -> bool {
    &&& 0 <= at <= a.len()
    &&& at < b.len()
    &&& a.take(at) =~= b.take(at)
    &&& at == a.len() || less(a[at], b[at])
}

/// The lexicographic order on sequences: a proper prefix comes first, and otherwise the first
/// place where the two differ decides.
pub open spec fn lexicographic<T>(less: spec_fn(T, T) -> bool, a: Seq<T>, b: Seq<T>) -> bool {
    exists|at: int| lesser_at(less, a, b, at)
}

proof fn lemma_lexicographic_total<T>(
    less: spec_fn(T, T) -> bool,
    a: Seq<T>,
    b: Seq<T>,
    from: int,
)
    requires
        strict_total(less),
        0 <= from <= a.len(),
        from <= b.len(),
        a.take(from) =~= b.take(from),
    ensures
        lexicographic(less, a, b) || a == b || lexicographic(less, b, a),
    decreases a.len() - from,
{
    if from == a.len() && from == b.len() {
        assert(a =~= a.take(from));
        assert(b =~= b.take(from));
    } else if from == a.len() {
        assert(lesser_at(less, a, b, from));
    } else if from == b.len() {
        assert(lesser_at(less, b, a, from));
    } else if a[from] == b[from] {
        assert(a.take(from + 1) =~= a.take(from).push(a[from]));
        assert(b.take(from + 1) =~= b.take(from).push(b[from]));
        lemma_lexicographic_total(less, a, b, from + 1);
    } else {
        assert(less(a[from], b[from]) || less(b[from], a[from]));
        if less(a[from], b[from]) {
            assert(lesser_at(less, a, b, from));
        } else {
            assert(lesser_at(less, b, a, from));
        }
    }
}

proof fn lemma_lexicographic_transitive<T>(
    less: spec_fn(T, T) -> bool,
    a: Seq<T>,
    b: Seq<T>,
    c: Seq<T>,
)
    requires
        strict_total(less),
        lexicographic(less, a, b),
        lexicographic(less, b, c),
    ensures
        lexicographic(less, a, c),
{
    let i = choose|at: int| lesser_at(less, a, b, at);
    let j = choose|at: int| lesser_at(less, b, c, at);
    if i <= j {
        assert forall|k: int| 0 <= k < i implies a[k] == c[k] by {
            assert(a.take(i)[k] == b.take(i)[k]);
            assert(b.take(j)[k] == c.take(j)[k]);
        }
        if i < j {
            assert(b.take(j)[i] == c.take(j)[i]);
        } else if i < a.len() && i < b.len() {
            assert(less(a[i], b[i]) && less(b[i], c[i]));
        }
        assert(lesser_at(less, a, c, i));
    } else {
        assert forall|k: int| 0 <= k < j implies a[k] == c[k] by {
            assert(a.take(i)[k] == b.take(i)[k]);
            assert(b.take(j)[k] == c.take(j)[k]);
        }
        assert(a.take(i)[j] == b.take(i)[j]);
        assert(lesser_at(less, a, c, j));
    }
}

/// The lexicographic order over a strict total order is a strict total order.
pub proof fn lemma_lexicographic_strict_total<T>(less: spec_fn(T, T) -> bool)
    requires
        strict_total(less),
    ensures
        strict_total(|a: Seq<T>, b: Seq<T>| lexicographic(less, a, b)),
{
    let order = |a: Seq<T>, b: Seq<T>| lexicographic(less, a, b);
    assert forall|a: Seq<T>| !(#[trigger] order(a, a)) by {
        if order(a, a) {
            let at = choose|at: int| lesser_at(less, a, a, at);
            assert(less(a[at], a[at]));
        }
    }
    assert forall|a: Seq<T>, b: Seq<T>, c: Seq<T>| #[trigger]
        order(a, b) && #[trigger] order(b, c) implies order(a, c) by {
        lemma_lexicographic_transitive(less, a, b, c);
    }
    assert forall|a: Seq<T>, b: Seq<T>| #[trigger] order(a, b) || a == b || order(b, a) by {
        assert(a.take(0) =~= b.take(0));
        lemma_lexicographic_total(less, a, b, 0);
    }
}

/// `rank` is where `a` stands relative to `b` in the order `less`.
pub open spec fn ranks<T>(less: spec_fn(T, T) -> bool, a: T, b: T, rank: Rank) -> bool {
    match rank {
        Rank::Before => less(a, b),
        Rank::Same => a == b,
        Rank::After => less(b, a),
    }
}

/// A rank that fits is the only one that fits.
pub proof fn lemma_rank_unique<T>(less: spec_fn(T, T) -> bool, a: T, b: T, rank: Rank)
    requires
        strict_total(less),
        ranks(less, a, b, rank),
    ensures
        rank == Rank::Before <==> less(a, b),
        rank == Rank::Same <==> a == b,
        rank == Rank::After <==> less(b, a),
{
    assert(!less(a, a));
    if less(a, b) && less(b, a) {
        assert(less(a, a));
    }
}

/// The order of numbers by size.
pub open spec fn number_less(a: usize, b: usize) -> bool {
    a < b
}

impl Ranked for usize {
    open spec fn precedes(a: usize, b: usize) -> bool {
        number_less(a, b)
    }

    proof fn order_laws() {
    }

    fn rank(&self, other: &usize) -> (rank: Rank) {
        if *self < *other {
            Rank::Before
        } else if *self == *other {
            Rank::Same
        } else {
            Rank::After
        }
    }
}

impl Ranked for u8 {
    open spec fn precedes(a: u8, b: u8) -> bool {
        a < b
    }

    proof fn order_laws() {
    }

    fn rank(&self, other: &u8) -> (rank: Rank) {
        if *self < *other {
            Rank::Before
        } else if *self == *other {
            Rank::Same
        } else {
            Rank::After
        }
    }
}

/// The order of characters by code point.
pub open spec fn char_less(a: char, b: char) -> bool {
    a < b
}

/// The order of texts: lexicographic by code point, which is also the order of their UTF-8 bytes.
pub open spec fn text_less(a: Seq<char>, b: Seq<char>) -> bool {
    lexicographic(|x: char, y: char| char_less(x, y), a, b)
}

impl Ranked for String {
    open spec fn precedes(a: Seq<char>, b: Seq<char>) -> bool {
        text_less(a, b)
    }

    proof fn order_laws() {
        lemma_lexicographic_strict_total(|x: char, y: char| char_less(x, y));
        let less = |x: char, y: char| char_less(x, y);
        assert((|a: Seq<char>, b: Seq<char>| Self::precedes(a, b)) =~= (|a: Seq<char>, b: Seq<char>|
            lexicographic(less, a, b)));
    }

    fn rank(&self, other: &String) -> (rank: Rank) {
        rank_text(self.as_str(), other.as_str())
    }
}

/// Compares two texts by code point.
pub fn rank_text(left: &str, right: &str) -> (rank: Rank)
    ensures
        rank == Rank::Before <==> text_less(left@, right@),
        rank == Rank::Same <==> left@ == right@,
        rank == Rank::After <==> text_less(right@, left@),
{
    let ghost less = |x: char, y: char| char_less(x, y);
    let mut left_rest = left.chars();
    let mut right_rest = right.chars();
    let ghost mut at: int = 0;
    proof {
        assert(left@.skip(0) =~= left@);
        assert(right@.skip(0) =~= right@);
        lemma_lexicographic_strict_total(less);
    }
    loop
        invariant
            less == (|x: char, y: char| char_less(x, y)),
            strict_total(|a: Seq<char>, b: Seq<char>| lexicographic(less, a, b)),
            0 <= at <= left@.len(),
            at <= right@.len(),
            left@.take(at) =~= right@.take(at),
            vstd::std_specs::iter::IteratorSpec::remaining(&left_rest) == left@.skip(at),
            vstd::std_specs::iter::IteratorSpec::remaining(&right_rest) == right@.skip(at),
        decreases left@.len() - at,
    {
        let left_next = left_rest.next();
        let right_next = right_rest.next();
        let ghost order = |a: Seq<char>, b: Seq<char>| lexicographic(less, a, b);
        match (left_next, right_next) {
            (Some(x), Some(y)) => {
                if x < y {
                    proof {
                        assert(lesser_at(less, left@, right@, at));
                        assert(ranks(order, left@, right@, Rank::Before));
                        lemma_rank_unique(order, left@, right@, Rank::Before);
                    }
                    return Rank::Before;
                }
                if y < x {
                    proof {
                        assert(lesser_at(less, right@, left@, at));
                        assert(ranks(order, left@, right@, Rank::After));
                        lemma_rank_unique(order, left@, right@, Rank::After);
                    }
                    return Rank::After;
                }
                proof {
                    assert(left@.take(at + 1) =~= left@.take(at).push(x));
                    assert(right@.take(at + 1) =~= right@.take(at).push(y));
                    assert(left@.skip(at).drop_first() =~= left@.skip(at + 1));
                    assert(right@.skip(at).drop_first() =~= right@.skip(at + 1));
                    at = at + 1;
                }
            },
            (None, Some(_)) => {
                proof {
                    assert(lesser_at(less, left@, right@, at));
                    assert(ranks(order, left@, right@, Rank::Before));
                    lemma_rank_unique(order, left@, right@, Rank::Before);
                }
                return Rank::Before;
            },
            (Some(_), None) => {
                proof {
                    assert(lesser_at(less, right@, left@, at));
                    assert(ranks(order, left@, right@, Rank::After));
                    lemma_rank_unique(order, left@, right@, Rank::After);
                }
                return Rank::After;
            },
            (None, None) => {
                proof {
                    assert(left@ =~= left@.take(at));
                    assert(right@ =~= right@.take(at));
                    assert(ranks(order, left@, right@, Rank::Same));
                    lemma_rank_unique(order, left@, right@, Rank::Same);
                }
                return Rank::Same;
            },
        }
    }
}

/// The order of sequences whose elements are ordered as `T` is.
pub open spec fn sequence_less<T: Ranked>(
    a: Seq<<T as DeepView>::V>,
    b: Seq<<T as DeepView>::V>,
) -> bool {
    lexicographic(|x: <T as DeepView>::V, y: <T as DeepView>::V| T::precedes(x, y), a, b)
}

impl<T: Ranked> Ranked for Vec<T> {
    open spec fn precedes(a: Seq<<T as DeepView>::V>, b: Seq<<T as DeepView>::V>) -> bool {
        sequence_less::<T>(a, b)
    }

    proof fn order_laws() {
        T::order_laws();
        let less = |x: <T as DeepView>::V, y: <T as DeepView>::V| T::precedes(x, y);
        lemma_lexicographic_strict_total(less);
        assert((|a: Seq<<T as DeepView>::V>, b: Seq<<T as DeepView>::V>| Self::precedes(a, b))
            =~= (|a: Seq<<T as DeepView>::V>, b: Seq<<T as DeepView>::V>|
            lexicographic(less, a, b)));
    }

    fn rank(&self, other: &Vec<T>) -> (rank: Rank) {
        let ghost less = |x: <T as DeepView>::V, y: <T as DeepView>::V| T::precedes(x, y);
        let ghost order = |a: Seq<<T as DeepView>::V>, b: Seq<<T as DeepView>::V>|
            lexicographic(less, a, b);
        let ghost left = self.deep_view();
        let ghost right = other.deep_view();
        proof {
            T::order_laws();
            lemma_lexicographic_strict_total(less);
        }
        let mut at: usize = 0;
        while at < self.len() && at < other.len()
            invariant
                less == (|x: <T as DeepView>::V, y: <T as DeepView>::V| T::precedes(x, y)),
                order == (|a: Seq<<T as DeepView>::V>, b: Seq<<T as DeepView>::V>|
                    lexicographic(less, a, b)),
                strict_total(order),
                left == self.deep_view(),
                right == other.deep_view(),
                at <= self.len(),
                at <= other.len(),
                left.take(at as int) =~= right.take(at as int),
            decreases self.len() - at,
        {
            match self[at].rank(&other[at]) {
                Rank::Before => {
                    proof {
                        assert(lesser_at(less, left, right, at as int));
                        assert(ranks(order, left, right, Rank::Before));
                        lemma_rank_unique(order, left, right, Rank::Before);
                    }
                    return Rank::Before;
                },
                Rank::After => {
                    proof {
                        assert(lesser_at(less, right, left, at as int));
                        assert(ranks(order, left, right, Rank::After));
                        lemma_rank_unique(order, left, right, Rank::After);
                    }
                    return Rank::After;
                },
                Rank::Same => {
                    assert(left.take(at + 1) =~= left.take(at as int).push(left[at as int]));
                    assert(right.take(at + 1) =~= right.take(at as int).push(right[at as int]));
                },
            }
            at = at + 1;
        }
        let rank = if at < other.len() {
            assert(lesser_at(less, left, right, at as int));
            Rank::Before
        } else if at < self.len() {
            assert(lesser_at(less, right, left, at as int));
            Rank::After
        } else {
            assert(left =~= left.take(at as int));
            assert(right =~= right.take(at as int));
            Rank::Same
        };
        proof {
            assert(ranks(order, left, right, rank));
            lemma_rank_unique(order, left, right, rank);
        }
        rank
    }
}

/// The order of pairs: the first components decide, and the second ones where those are equal.
pub open spec fn pair_less<A: Ranked, B: Ranked>(
    a: (<A as DeepView>::V, <B as DeepView>::V),
    b: (<A as DeepView>::V, <B as DeepView>::V),
) -> bool {
    A::precedes(a.0, b.0) || (a.0 == b.0 && B::precedes(a.1, b.1))
}

impl<A: Ranked, B: Ranked> Ranked for (A, B) {
    open spec fn precedes(
        a: (<A as DeepView>::V, <B as DeepView>::V),
        b: (<A as DeepView>::V, <B as DeepView>::V),
    ) -> bool {
        pair_less::<A, B>(a, b)
    }

    proof fn order_laws() {
        lemma_order_laws::<A>();
        lemma_order_laws::<B>();
    }

    fn rank(&self, other: &(A, B)) -> (rank: Rank) {
        proof {
            lemma_order_laws::<A>();
            lemma_order_laws::<B>();
        }
        match self.0.rank(&other.0) {
            Rank::Same => self.1.rank(&other.1),
            decided => decided,
        }
    }
}

} // verus!
