//! Sets and maps whose keys are kept in ascending order.
use crate::order::{Rank, Ranked};
use vstd::prelude::*;

verus! {

/// Each element of `items` precedes all later ones, so none occurs twice.
pub open spec fn ascending<T: Ranked>(items: Seq<<T as DeepView>::V>) -> bool {
    forall|i: int, j: int|
        0 <= i < j < items.len() ==> #[trigger] T::precedes(items[i], items[j])
}

/// Finds `key` in `items`, or else the place where it belongs.
fn locate<T: Ranked>(items: &Vec<T>, key: &T) -> (place: (bool, usize))
    requires
        ascending::<T>(items.deep_view()),
    ensures
        place.1 <= items.len(),
        forall|i: int| 0 <= i < place.1 ==> #[trigger] T::precedes(items.deep_view()[i], key.deep_view()),
        place.0 ==> place.1 < items.len() && items.deep_view()[place.1 as int] == key.deep_view(),
        !place.0 ==> forall|i: int|
            place.1 <= i < items.len() ==> #[trigger] T::precedes(key.deep_view(), items.deep_view()[i]),
{
    let ghost sorted = items.deep_view();
    let mut low: usize = 0;
    let mut high: usize = items.len();
    proof {
        crate::order::lemma_order_laws::<T>();
    }
    while low < high
        invariant
            sorted == items.deep_view(),
            ascending::<T>(sorted),
            0 <= low <= high <= items.len(),
            forall|i: int| 0 <= i < low ==> #[trigger] T::precedes(sorted[i], key.deep_view()),
            forall|i: int|
                high <= i < items.len() ==> #[trigger] T::precedes(key.deep_view(), sorted[i]),
            forall|a: <T as DeepView>::V, b: <T as DeepView>::V, c: <T as DeepView>::V|
                #[trigger] T::precedes(a, b) && #[trigger] T::precedes(b, c) ==> T::precedes(a, c),
        decreases high - low,
    {
        let middle: usize = low + (high - low) / 2;
        assert(items[middle as int].deep_view() == sorted[middle as int]);
        match items[middle].rank(key) {
            Rank::Before => {
                assert forall|i: int| 0 <= i < middle + 1 implies #[trigger] T::precedes(
                    sorted[i],
                    key.deep_view(),
                ) by {
                    if i < middle {
                        assert(T::precedes(sorted[i], sorted[middle as int]));
                    }
                }
                low = middle + 1;
            },
            Rank::After => {
                assert forall|i: int| middle <= i < items.len() implies #[trigger] T::precedes(
                    key.deep_view(),
                    sorted[i],
                ) by {
                    if i > middle {
                        assert(T::precedes(sorted[middle as int], sorted[i]));
                    }
                }
                high = middle;
            },
            Rank::Same => {
                assert forall|i: int| 0 <= i < middle implies #[trigger] T::precedes(
                    sorted[i],
                    key.deep_view(),
                ) by {
                    assert(T::precedes(sorted[i], sorted[middle as int]));
                }
                return (true, middle);
            },
        }
    }
    (false, low)
}

proof fn lemma_insert_ascending<T: Ranked>(
    items: Seq<<T as DeepView>::V>,
    at: int,
    key: <T as DeepView>::V,
)
    requires
        ascending::<T>(items),
        0 <= at <= items.len(),
        forall|i: int| 0 <= i < at ==> #[trigger] T::precedes(items[i], key),
        forall|i: int| at <= i < items.len() ==> #[trigger] T::precedes(key, items[i]),
    ensures
        ascending::<T>(items.insert(at, key)),
        items.insert(at, key).to_set() =~= items.to_set().insert(key),
        !items.contains(key),
{
    crate::order::lemma_order_laws::<T>();
    let inserted = items.insert(at, key);
    assert forall|i: int, j: int| 0 <= i < j < inserted.len() implies #[trigger] T::precedes(
        inserted[i],
        inserted[j],
    ) by {
        let from = if i < at { i } else { i - 1 };
        let to = if j < at { j } else { j - 1 };
        if i != at && j != at {
            assert(inserted[i] == items[from] && inserted[j] == items[to]);
        }
    }
    assert forall|x: <T as DeepView>::V| inserted.to_set().contains(x) == items.to_set().insert(
        key,
    ).contains(x) by {
        if items.contains(x) {
            let i = items.index_of(x);
            assert(inserted[if i < at { i } else { i + 1 }] == x);
        }
        assert(inserted[at] == key);
        if inserted.contains(x) {
            let i = inserted.index_of(x);
            if i != at {
                assert(items[if i < at { i } else { i - 1 }] == x);
            }
        }
    }
    if items.contains(key) {
        let i = items.index_of(key);
        assert(items[i] == key);
        assert(T::precedes(items[i], key) || T::precedes(key, items[i]));
        assert(!T::precedes(key, key));
    }
}

/// Puts `item` in its place in an ascending list that does not hold it.
pub fn insert_ranked<T: Ranked>(items: &mut Vec<T>, item: T)
    requires
        ascending::<T>(old(items).deep_view()),
        !old(items).deep_view().contains(item.deep_view()),
    ensures
        ascending::<T>(final(items).deep_view()),
        final(items).deep_view().to_set() == old(items).deep_view().to_set().insert(item.deep_view()),
        exists|at: int|
            0 <= at <= old(items).len() && final(items)@ == #[trigger] old(items)@.insert(at, item),
{
    let ghost before = items.deep_view();
    let (found, at) = locate(items, &item);
    proof {
        if found {
            assert(before[at as int] == item.deep_view());
        }
        lemma_insert_ascending::<T>(before, at as int, item.deep_view());
    }
    let ghost value = item.deep_view();
    items.insert(at, item);
    assert(items.deep_view() =~= before.insert(at as int, value));
}

/// Two ascending lists with the same elements are the same list.
pub proof fn lemma_ascending_unique<T: Ranked>(
    a: Seq<<T as DeepView>::V>,
    b: Seq<<T as DeepView>::V>,
)
    requires
        ascending::<T>(a),
        ascending::<T>(b),
        a.to_set() == b.to_set(),
    ensures
        a == b,
    decreases a.len(),
{
    crate::order::lemma_order_laws::<T>();
    if a.len() == 0 {
        if b.len() > 0 {
            assert(b.to_set().contains(b[0]));
            assert(a.to_set().contains(b[0]));
        }
        assert(a =~= b);
    } else {
        assert(a.to_set().contains(a.last()));
        assert(b.to_set().contains(a.last()));
        assert(b.to_set().contains(b.last()));
        assert(a.to_set().contains(b.last()));
        let i = b.index_of(a.last());
        let j = a.index_of(b.last());
        if a.last() != b.last() {
            assert(T::precedes(b[i], b[b.len() - 1]));
            assert(T::precedes(a[j], a[a.len() - 1]));
            assert(T::precedes(a.last(), a.last()));
        }
        let last = a.last();
        assert forall|x: <T as DeepView>::V| a.drop_last().to_set().contains(x)
            == b.drop_last().to_set().contains(x) by {
            lemma_drop_last_contains::<T>(a, x);
            lemma_drop_last_contains::<T>(b, x);
            assert(a.to_set().contains(x) == b.to_set().contains(x));
            assert(a.to_set().contains(x) == a.contains(x));
            assert(b.to_set().contains(x) == b.contains(x));
            assert(a.drop_last().to_set().contains(x) == a.drop_last().contains(x));
            assert(b.drop_last().to_set().contains(x) == b.drop_last().contains(x));
        }
        assert(a.drop_last().to_set() =~= b.drop_last().to_set());
        lemma_ascending_unique::<T>(a.drop_last(), b.drop_last());
        assert(a =~= a.drop_last().push(last));
        assert(b =~= b.drop_last().push(last));
    }
}

proof fn lemma_drop_last_contains<T: Ranked>(
    items: Seq<<T as DeepView>::V>,
    x: <T as DeepView>::V,
)
    requires
        ascending::<T>(items),
        items.len() > 0,
    ensures
        items.drop_last().contains(x) <==> items.contains(x) && x != items.last(),
{
    crate::order::lemma_order_laws::<T>();
    if items.drop_last().contains(x) {
        let i = items.drop_last().index_of(x);
        assert(items[i] == x);
        assert(T::precedes(items[i], items[items.len() - 1]));
    }
    if items.contains(x) && x != items.last() {
        let i = items.index_of(x);
        assert(items.drop_last()[i] == x);
    }
}

proof fn lemma_place_exists<T: Ranked>(
    items: Seq<<T as DeepView>::V>,
    key: <T as DeepView>::V,
) -> (at: int)
    requires
        ascending::<T>(items),
        !items.contains(key),
    ensures
        0 <= at <= items.len(),
        forall|i: int| 0 <= i < at ==> #[trigger] T::precedes(items[i], key),
        forall|i: int| at <= i < items.len() ==> #[trigger] T::precedes(key, items[i]),
    decreases items.len(),
{
    crate::order::lemma_order_laws::<T>();
    if items.len() == 0 {
        0
    } else {
        let last = items.len() - 1;
        assert(items[last] != key);
        if T::precedes(items[last], key) {
            assert forall|i: int| 0 <= i < items.len() implies #[trigger] T::precedes(
                items[i],
                key,
            ) by {
                if i < last {
                    assert(T::precedes(items[i], items[last]));
                }
            }
            items.len() as int
        } else {
            let earlier = items.drop_last();
            assert(ascending::<T>(earlier)) by {
                assert forall|i: int, j: int| 0 <= i < j < earlier.len() implies
                    #[trigger] T::precedes(earlier[i], earlier[j]) by {
                    assert(T::precedes(items[i], items[j]));
                }
            }
            assert(!earlier.contains(key)) by {
                if earlier.contains(key) {
                    assert(items[earlier.index_of(key)] == key);
                }
            }
            let at = lemma_place_exists::<T>(earlier, key);
            assert forall|i: int| 0 <= i < at implies #[trigger] T::precedes(items[i], key) by {
                assert(T::precedes(earlier[i], key));
            }
            assert forall|i: int| at <= i < items.len() implies #[trigger] T::precedes(
                key,
                items[i],
            ) by {
                if i < last {
                    assert(T::precedes(key, earlier[i]));
                }
            }
            at
        }
    }
}

/// The elements of a finite set can be listed in ascending order.
pub proof fn lemma_ascending_exists<T: Ranked>(elements: Set<<T as DeepView>::V>) -> (list: Seq<
    <T as DeepView>::V,
>)
    requires
        elements.finite(),
    ensures
        ascending::<T>(list),
        list.to_set() == elements,
    decreases elements.len(),
{
    if elements.len() == 0 {
        let list = Seq::<<T as DeepView>::V>::empty();
        assert(list.to_set() =~= elements);
        list
    } else {
        let key = elements.choose();
        let others = lemma_ascending_exists::<T>(elements.remove(key));
        assert(!others.contains(key)) by {
            assert(others.to_set().contains(key) == others.contains(key));
        }
        let at = lemma_place_exists::<T>(others, key);
        lemma_insert_ascending::<T>(others, at, key);
        assert(elements.remove(key).insert(key) =~= elements);
        others.insert(at, key)
    }
}

/// A set of values, held in ascending order.
#[derive(Debug)]
pub struct OrderedSet<K: Ranked> {
    keys: Vec<K>,
}

impl<K: Ranked> View for OrderedSet<K> {
    type V = Set<<K as DeepView>::V>;

    closed spec fn view(&self) -> Set<<K as DeepView>::V> {
        self.keys.deep_view().to_set()
    }
}

impl<K: Ranked> OrderedSet<K> {
    /// The elements are in ascending order.
    pub closed spec fn well_formed(&self) -> bool {
        ascending::<K>(self.keys.deep_view())
    }

    /// The set without elements.
    pub fn new() -> (set: OrderedSet<K>)
        ensures
            set.well_formed(),
            set@ == Set::<<K as DeepView>::V>::empty(),
    {
        let set = OrderedSet { keys: Vec::new() };
        assert(set@ =~= Set::empty());
        set
    }

    /// Whether `key` is an element.
    pub fn contains(&self, key: &K) -> (present: bool)
        requires
            self.well_formed(),
        ensures
            present == self@.contains(key.deep_view()),
    {
        let (found, at) = locate(&self.keys, key);
        proof {
            let keys = self.keys.deep_view();
            if found {
                assert(keys[at as int] == key.deep_view());
            } else {
                lemma_insert_ascending::<K>(keys, at as int, key.deep_view());
            }
        }
        found
    }

    /// Adds `key`, and tells whether it was not there before.
    pub fn insert(&mut self, key: K) -> (added: bool)
        requires
            old(self).well_formed(),
        ensures
            final(self).well_formed(),
            final(self)@ == old(self)@.insert(key.deep_view()),
            added == !old(self)@.contains(key.deep_view()),
    {
        let ghost keys = self.keys.deep_view();
        let ghost value = key.deep_view();
        let (found, at) = locate(&self.keys, &key);
        if found {
            assert(keys[at as int] == value);
            assert(self@ =~= old(self)@.insert(value));
        } else {
            proof {
                lemma_insert_ascending::<K>(keys, at as int, value);
            }
            self.keys.insert(at, key);
            assert(self.keys.deep_view() =~= keys.insert(at as int, value));
        }
        !found
    }

    /// The elements, in ascending order.
    pub fn into_vec(self) -> (elements: Vec<K>)
        requires
            self.well_formed(),
        ensures
            ascending::<K>(elements.deep_view()),
            elements.deep_view().to_set() == self@,
    {
        self.keys
    }
}

/// A map from keys to values, held in ascending order of the keys.
#[derive(Debug)]
pub struct OrderedMap<K: Ranked, V> {
    keys: Vec<K>,
    values: Vec<V>,
}

/// The map that sends each key to the value that stands at the same place.
pub open spec fn paired<A, V>(keys: Seq<A>, values: Seq<V>) -> Map<A, V> {
    Map::new(|key: A| keys.contains(key), |key: A| values[keys.index_of(key)])
}

impl<K: Ranked, V> View for OrderedMap<K, V> {
    type V = Map<<K as DeepView>::V, V>;

    closed spec fn view(&self) -> Map<<K as DeepView>::V, V> {
        paired(self.keys.deep_view(), self.values@)
    }
}

/// An ascending list holds no element at two places.
pub proof fn lemma_ascending_distinct<T: Ranked>(items: Seq<<T as DeepView>::V>, i: int, j: int)
    requires
        ascending::<T>(items),
        0 <= i < items.len(),
        0 <= j < items.len(),
        items[i] == items[j],
    ensures
        i == j,
{
    crate::order::lemma_order_laws::<T>();
    if i < j {
        assert(T::precedes(items[i], items[j]));
    } else if j < i {
        assert(T::precedes(items[j], items[i]));
    }
}

/// In a map built from an ascending key list, the key at place `i` has the value at place `i`.
pub proof fn lemma_paired_at<T: Ranked, V>(keys: Seq<<T as DeepView>::V>, values: Seq<V>, i: int)
    requires
        ascending::<T>(keys),
        0 <= i < keys.len(),
    ensures
        paired(keys, values).dom().contains(keys[i]),
        paired(keys, values)[keys[i]] == values[i],
{
    assert(keys.contains(keys[i]));
    lemma_ascending_distinct::<T>(keys, i, keys.index_of(keys[i]));
}

impl<K: Ranked, V> OrderedMap<K, V> {
    /// The keys are in ascending order, and each has a value.
    pub closed spec fn well_formed(&self) -> bool {
        &&& ascending::<K>(self.keys.deep_view())
        &&& self.keys.len() == self.values.len()
    }

    /// The map without keys.
    pub fn new() -> (map: OrderedMap<K, V>)
        ensures
            map.well_formed(),
            map@ == Map::<<K as DeepView>::V, V>::empty(),
    {
        let map = OrderedMap { keys: Vec::new(), values: Vec::new() };
        assert(map@ =~= Map::empty());
        map
    }

    /// The value of `key`, if it has one.
    pub fn get(&self, key: &K) -> (value: Option<&V>)
        requires
            self.well_formed(),
        ensures
            value matches Some(v) ==> self@.dom().contains(key.deep_view()) && *v
                == self@[key.deep_view()],
            value is None ==> !self@.dom().contains(key.deep_view()),
    {
        let (found, at) = locate(&self.keys, key);
        let ghost keys = self.keys.deep_view();
        if found {
            proof {
                lemma_paired_at::<K, V>(keys, self.values@, at as int);
            }
            Some(&self.values[at])
        } else {
            proof {
                lemma_insert_ascending::<K>(keys, at as int, key.deep_view());
            }
            None
        }
    }

    /// Gives `key` the value `value`, in place of any it had.
    pub fn put(&mut self, key: K, value: V)
        requires
            old(self).well_formed(),
        ensures
            final(self).well_formed(),
            final(self)@ == old(self)@.insert(key.deep_view(), value),
    {
        let ghost keys = self.keys.deep_view();
        let ghost values = self.values@;
        let ghost name = key.deep_view();
        let (found, at) = locate(&self.keys, &key);
        if found {
            self.values.set(at, value);
            assert(self.keys.deep_view() =~= keys);
            proof {
                assert forall|k: <K as DeepView>::V| keys.contains(k) implies #[trigger] self@[k]
                    == old(self)@.insert(name, value)[k] by {
                    let i = keys.index_of(k);
                    if i != at {
                        if k == name {
                            lemma_ascending_distinct::<K>(keys, i, at as int);
                        }
                    }
                }
                assert(keys.contains(name)) by {
                    assert(keys[at as int] == name);
                }
            }
            assert(self@ =~= old(self)@.insert(name, value));
        } else {
            proof {
                lemma_insert_ascending::<K>(keys, at as int, name);
            }
            self.keys.insert(at, key);
            self.values.insert(at, value);
            assert(self.keys.deep_view() =~= keys.insert(at as int, name));
            proof {
                let new_keys = self.keys.deep_view();
                let new_values = self.values@;
                lemma_paired_at::<K, V>(new_keys, new_values, at as int);
                assert forall|k: <K as DeepView>::V|
                    new_keys.contains(k) == (keys.contains(k) || k == name) by {
                    assert(new_keys.to_set().contains(k) == keys.to_set().insert(name).contains(k));
                }
                assert forall|k: <K as DeepView>::V| keys.contains(k) implies #[trigger] self@[k]
                    == old(self)@[k] by {
                    let i = keys.index_of(k);
                    let j = if i < at { i } else { i + 1 };
                    assert(new_keys[j] == k);
                    lemma_paired_at::<K, V>(new_keys, new_values, j);
                }
            }
            assert(self@ =~= old(self)@.insert(name, value));
        }
    }

    /// The keys in ascending order, and the value of each at the same place.
    pub fn into_parts(self) -> (parts: (Vec<K>, Vec<V>))
        requires
            self.well_formed(),
        ensures
            ascending::<K>(parts.0.deep_view()),
            parts.0.len() == parts.1.len(),
            paired(parts.0.deep_view(), parts.1@) == self@,
    {
        (self.keys, self.values)
    }
}

/// What `entry` makes of the keys and values from place `from` on.
pub open spec fn entries_from<A, V, T>(
    keys: Seq<A>,
    values: Seq<V>,
    from: int,
    entry: spec_fn(A, V) -> T,
) -> Set<T> {
    Set::new(
        |made: T|
            exists|i: int| from <= i < keys.len() && made == entry(#[trigger] keys[i], values[i]),
    )
}

/// One place more adds what `entry` makes of that place.
pub proof fn lemma_entries_step<A, V, T>(
    keys: Seq<A>,
    values: Seq<V>,
    at: int,
    entry: spec_fn(A, V) -> T,
)
    requires
        0 <= at < keys.len(),
    ensures
        entries_from(keys, values, at, entry) == entries_from(keys, values, at + 1, entry).insert(
            entry(keys[at], values[at]),
        ),
{
    let more = entries_from(keys, values, at + 1, entry).insert(entry(keys[at], values[at]));
    assert forall|made: T| entries_from(keys, values, at, entry).contains(made) == more.contains(
        made,
    ) by {
        if entries_from(keys, values, at, entry).contains(made) {
            let i = choose|i: int|
                at <= i < keys.len() && made == entry(#[trigger] keys[i], values[i]);
            assert(i == at || i >= at + 1);
        }
    }
    assert(entries_from(keys, values, at, entry) =~= more);
}

/// The least line for each key, once `key` has also been met at `line`.
pub open spec fn with_line<A>(lines: Map<A, usize>, key: A, line: usize) -> Map<A, usize> {
    if lines.dom().contains(key) && lines[key] <= line {
        lines
    } else {
        lines.insert(key, line)
    }
}

impl<K: Ranked> OrderedMap<K, usize> {
    /// Notes that `key` has been met at `line`: the least line of each key stays.
    pub fn note_line(&mut self, key: K, line: usize)
        requires
            old(self).well_formed(),
        ensures
            final(self).well_formed(),
            final(self)@ == with_line(old(self)@, key.deep_view(), line),
    {
        let earlier = match self.get(&key) {
            Some(held) => *held <= line,
            None => false,
        };
        if !earlier {
            self.put(key, line);
        }
    }
}

} // verus!
