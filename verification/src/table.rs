//! A map from names to values that keeps its names in order.

use crate::order;
use crate::order::Place;
use crate::text;
use std::collections::BTreeMap;
use vstd::prelude::*;

verus! {

/// The map that a sequence of entries describes, where of several entries under one name the
/// last one counts.
pub open spec fn last_wins<W>(entries: Seq<(Seq<char>, W)>) -> Map<Seq<char>, W>
    decreases entries.len(),
{
    if entries.len() == 0 {
        Map::empty()
    } else {
        last_wins(entries.drop_last()).insert(entries.last().0, entries.last().1)
    }
}

/// `names` are exactly the names that `map` has a value for, in ascending order.
pub open spec fn lists_names<W>(names: Seq<Seq<char>>, map: Map<Seq<char>, W>) -> bool {
    &&& order::ascending(names)
    &&& forall|name: Seq<char>| #[trigger] names.contains(name) <==> map.contains_key(name)
}

/// The names that `map` has a value for, in ascending order.
pub open spec fn sorted_names<W>(map: Map<Seq<char>, W>) -> Seq<Seq<char>> {
    choose|names: Seq<Seq<char>>| lists_names(names, map)
}

/// A map from names to values that keeps its names in order.
pub struct Table<V> {
    entries: Vec<(String, V)>,
}

/// The names of a sequence of entries.
spec fn names_of<V>(entries: Seq<(String, V)>) -> Seq<Seq<char>> {
    entries.map_values(|entry: (String, V)| entry.0@)
}

/// Whether an entry stands under `name`.
spec fn has_entry<V>(entries: Seq<(String, V)>, name: Seq<char>) -> bool {
    exists|i: int| 0 <= i < entries.len() && #[trigger] entries[i].0@ == name
}

/// The position of an entry under `name`.
spec fn entry_at<V>(entries: Seq<(String, V)>, name: Seq<char>) -> int {
    choose|i: int| 0 <= i < entries.len() && #[trigger] entries[i].0@ == name
}

impl<V: DeepView> View for Table<V> {
    type V = Map<Seq<char>, V::V>;

    closed spec fn view(&self) -> Map<Seq<char>, V::V> {
        Map::new(
            |name: Seq<char>| has_entry(self.entries@, name),
            |name: Seq<char>| self.entries@[entry_at(self.entries@, name)].1.deep_view(),
        )
    }
}

impl<V> Table<V> {
    /// The names are in ascending order, so none occurs twice.
    #[verifier::type_invariant]
    pub closed spec fn wf(&self) -> bool {
        order::ascending(names_of(self.entries@))
    }
}

impl<V: DeepView> Table<V> {
    /// An entry's value is what the map holds under the entry's name.
    proof fn lemma_entry(&self, i: int)
        requires
            self.wf(),
            0 <= i < self.entries@.len(),
        ensures
            self@.contains_key(self.entries@[i].0@),
            self@[self.entries@[i].0@] == self.entries@[i].1.deep_view(),
    {
        let name = self.entries@[i].0@;
        let k = entry_at(self.entries@, name);
        let names = names_of(self.entries@);
        assert(names[i] == name && names[k] == name);
        if i < k {
            order::lemma_precedes_asymmetric(names[i], names[k]);
        } else if k < i {
            order::lemma_precedes_asymmetric(names[k], names[i]);
        }
    }

    /// The table without entries.
    pub fn new() -> (table: Table<V>)
        ensures
            table@ == Map::<Seq<char>, V::V>::empty(),
    {
        let table: Table<V> = Table { entries: Vec::new() };
        assert(table@ =~= Map::<Seq<char>, V::V>::empty());
        table
    }

    /// Where `name` stands among the entries, or where it would have to be put.
    fn search(&self, name: &str) -> (found: (usize, bool))
        ensures
            found.0 <= self.entries@.len(),
            forall|i: int| 0 <= i < found.0 ==> order::precedes(#[trigger] names_of(self.entries@)[i], name@),
            found.1 ==> found.0 < self.entries@.len() && names_of(self.entries@)[found.0 as int] == name@,
            !found.1 ==> forall|i: int|
                found.0 <= i < self.entries@.len() ==> order::precedes(
                    name@,
                    #[trigger] names_of(self.entries@)[i],
                ),
    {
        proof {
            use_type_invariant(self);
        }
        let ghost names = names_of(self.entries@);
        let mut low: usize = 0;
        let mut high: usize = self.entries.len();
        while low < high
            invariant
                low <= high <= self.entries@.len(),
                names == names_of(self.entries@),
                order::ascending(names),
                forall|i: int| 0 <= i < low ==> order::precedes(#[trigger] names[i], name@),
                forall|i: int| high <= i < names.len() ==> order::precedes(name@, #[trigger] names[i]),
            decreases high - low,
        {
            let middle: usize = low + (high - low) / 2;
            match order::place(self.entries[middle].0.as_str(), name) {
                Place::Before => {
                    assert forall|i: int| 0 <= i < middle + 1
                        implies order::precedes(#[trigger] names[i], name@) by {
                        if i < middle {
                            order::lemma_precedes_transitive(names[i], names[middle as int], name@);
                        }
                    }
                    low = middle + 1;
                },
                Place::Same => {
                    assert(forall|i: int| 0 <= i < middle ==> order::precedes(names[i], names[middle as int]));
                    return (middle, true);
                },
                Place::After => {
                    assert forall|i: int| middle <= i < names.len()
                        implies order::precedes(name@, #[trigger] names[i]) by {
                        if middle < i {
                            order::lemma_precedes_transitive(name@, names[middle as int], names[i]);
                        }
                    }
                    high = middle;
                },
            }
        }
        (low, false)
    }

    /// The table with `value` under `name`, in place of what stood there.
    pub fn with(self, name: String, value: V) -> (table: Table<V>)
        ensures
            table@ == self@.insert(name@, value.deep_view()),
    {
        let (at, present) = self.search(name.as_str());
        proof {
            use_type_invariant(&self);
        }
        let ghost before = self;
        let ghost names = names_of(self.entries@);
        let ghost key = name@;
        let mut entries = self.entries;
        if present {
            entries.set(at, (name, value));
            assert(names_of(entries@) =~= names);
        } else {
            entries.insert(at, (name, value));
            proof {
                let now = names_of(entries@);
                assert(now =~= names.insert(at as int, key));
                lemma_ascending_insert(names, at as int, key);
            }
        }
        let table = Table { entries };
        proof {
            table.lemma_entry(at as int);
            assert forall|other: Seq<char>| other != key implies {
                &&& #[trigger] table@.contains_key(other) <==> before@.contains_key(other)
                &&& before@.contains_key(other) ==> table@[other] == before@[other]
            } by {
                if before@.contains_key(other) {
                    let i = entry_at(before.entries@, other);
                    let k = if present || i < at { i } else { i + 1 };
                    assert(table.entries@[k] == before.entries@[i]);
                    table.lemma_entry(k);
                    before.lemma_entry(i);
                }
                if table@.contains_key(other) {
                    let k = entry_at(table.entries@, other);
                    let i = if present || k < at { k } else { k - 1 };
                    assert(k != at);
                    assert(table.entries@[k] == before.entries@[i]);
                    before.lemma_entry(i);
                }
            }
            assert(table@ =~= before@.insert(key, value.deep_view()));
        }
        table
    }

    /// The value under `name`.
    pub fn get(&self, name: &str) -> (value: Option<&V>)
        ensures
            match value {
                Some(value) => self@.contains_key(name@) && self@[name@] == value.deep_view(),
                None => !self@.contains_key(name@),
            },
    {
        proof {
            use_type_invariant(self);
        }
        let (at, present) = self.search(name);
        if present {
            proof {
                self.lemma_entry(at as int);
            }
            Some(&self.entries[at].1)
        } else {
            proof {
                if self@.contains_key(name@) {
                    let i = entry_at(self.entries@, name@);
                    let names = names_of(self.entries@);
                    if i < at {
                        order::lemma_precedes_asymmetric(names[i], name@);
                    } else {
                        order::lemma_precedes_asymmetric(name@, names[i]);
                    }
                }
            }
            None
        }
    }

    /// The names that have a value, in ascending order.
    pub fn names(&self) -> (names: Vec<&str>)
        ensures
            lists_names(text::texts(names@), self@),
            text::texts(names@) == sorted_names(self@),
    {
        proof {
            use_type_invariant(self);
        }
        let mut names: Vec<&str> = Vec::new();
        let mut done: usize = 0;
        while done < self.entries.len()
            invariant
                done <= self.entries@.len(),
                names@.len() == done,
                forall|i: int| 0 <= i < done ==> (#[trigger] names@[i])@ == self.entries@[i].0@,
            decreases self.entries.len() - done,
        {
            names.push(self.entries[done].0.as_str());
            done = done + 1;
        }
        proof {
            assert(text::texts(names@) =~= names_of(self.entries@));
            assert forall|name: Seq<char>| #[trigger] text::texts(names@).contains(name) <==> self@.contains_key(name) by {
                if text::texts(names@).contains(name) {
                    let i = choose|i: int| 0 <= i < names@.len() && text::texts(names@)[i] == name;
                    self.lemma_entry(i);
                }
                if self@.contains_key(name) {
                    let i = entry_at(self.entries@, name);
                    assert(text::texts(names@)[i] == name);
                }
            }
            lemma_sorted_names(text::texts(names@), self@);
        }
        names
    }
}

/// `core::fmt::Formatter`, carried through to the standard library.
#[verifier::external_type_specification]
#[verifier::external_body]
pub struct ExFormatter<'a>(core::fmt::Formatter<'a>);

/// `core::fmt::Error`, the error of a writer behind a `core::fmt::Formatter`.
#[verifier::external_type_specification]
#[verifier::external_body]
pub struct ExFmtError(core::fmt::Error);

/// Calls `core::fmt::Debug::fmt` on a `BTreeMap`.
///
/// Nothing is claimed of the call: a formatter does not show what was written to it, and whether
/// writing succeeds is up to the writer behind it.
#[verifier::external_body]
fn debug_map<V: core::fmt::Debug>(
    map: &BTreeMap<&str, &V>,
    f: &mut core::fmt::Formatter<'_>,
) -> core::fmt::Result {
    core::fmt::Debug::fmt(map, f)
}

/// Shows a table as a map from names to values.
impl<V: core::fmt::Debug> core::fmt::Debug for Table<V> {
    fn fmt(&self, f: &mut core::fmt::Formatter<'_>) -> core::fmt::Result {
        let mut map: BTreeMap<&str, &V> = BTreeMap::new();
        let mut done: usize = 0;
        while done < self.entries.len()
            invariant
                done <= self.entries@.len(),
            decreases self.entries.len() - done,
        {
            let entry = &self.entries[done];
            map.insert(entry.0.as_str(), &entry.1);
            done = done + 1;
        }
        debug_map(&map, f)
    }
}

impl<V: Clone + DeepView> Clone for Table<V> {
    fn clone(&self) -> (table: Self)
        ensures
            table@.dom() == self@.dom(),
            (forall|a: V, b: V| #[trigger] cloned::<V>(a, b) ==> a.deep_view() == b.deep_view()) ==> table@
                == self@,
    {
        proof {
            use_type_invariant(self);
        }
        let mut entries: Vec<(String, V)> = Vec::new();
        let mut done: usize = 0;
        while done < self.entries.len()
            invariant
                done <= self.entries@.len(),
                entries@.len() == done,
                forall|i: int|
                    0 <= i < done ==> (#[trigger] entries@[i]).0@ == self.entries@[i].0@ && cloned::<V>(
                        self.entries@[i].1,
                        entries@[i].1,
                    ),
            decreases self.entries.len() - done,
        {
            let entry = &self.entries[done];
            entries.push((entry.0.clone(), entry.1.clone()));
            done = done + 1;
        }
        assert(names_of(entries@) =~= names_of(self.entries@));
        let table = Table { entries };
        proof {
            let faithful = forall|a: V, b: V| #[trigger] cloned::<V>(a, b) ==> a.deep_view() == b.deep_view();
            assert forall|name: Seq<char>| {
                &&& #[trigger] table@.contains_key(name) <==> self@.contains_key(name)
                &&& faithful && self@.contains_key(name) ==> table@[name] == self@[name]
            } by {
                if self@.contains_key(name) {
                    let i = entry_at(self.entries@, name);
                    assert(table.entries@[i].0@ == name);
                    table.lemma_entry(i);
                    self.lemma_entry(i);
                }
                if table@.contains_key(name) {
                    let i = entry_at(table.entries@, name);
                    assert(self.entries@[i].0@ == name);
                    self.lemma_entry(i);
                }
            }
            assert(table@.dom() =~= self@.dom());
            if faithful {
                assert(table@ =~= self@);
            }
        }
        table
    }
}

/// There is only one way to list the names of a map in ascending order.
pub proof fn lemma_listing_unique<W>(a: Seq<Seq<char>>, b: Seq<Seq<char>>, map: Map<Seq<char>, W>)
    requires
        lists_names(a, map),
        lists_names(b, map),
    ensures
        a == b,
    decreases a.len(),
{
    if a.len() == 0 {
        if b.len() > 0 {
            assert(b.contains(b[0]));
            assert(a.contains(b[0]));
        }
    } else {
        assert(a.contains(a[0]));
        assert(b.contains(a[0]));
        let i = choose|i: int| 0 <= i < b.len() && b[i] == a[0];
        assert(b.contains(b[0]));
        assert(a.contains(b[0]));
        let k = choose|k: int| 0 <= k < a.len() && a[k] == b[0];
        if i > 0 && k > 0 {
            assert(order::precedes(b[0], b[i]));
            assert(order::precedes(a[0], a[k]));
            order::lemma_precedes_asymmetric(a[0], b[0]);
        }
        assert(a[0] == b[0]);
        let smaller = map.remove(a[0]);
        lemma_listing_rest(a, map);
        lemma_listing_rest(b, map);
        lemma_listing_unique(a.drop_first(), b.drop_first(), smaller);
        assert(a =~= seq![a[0]] + a.drop_first());
        assert(b =~= seq![b[0]] + b.drop_first());
    }
}

/// The names after the first one list the map without it.
proof fn lemma_listing_rest<W>(names: Seq<Seq<char>>, map: Map<Seq<char>, W>)
    requires
        lists_names(names, map),
        names.len() > 0,
    ensures
        lists_names(names.drop_first(), map.remove(names[0])),
{
    let rest = names.drop_first();
    assert forall|i: int, j: int| 0 <= i < j < rest.len()
        implies #[trigger] order::precedes(rest[i], rest[j]) by {
        assert(order::precedes(names[i + 1], names[j + 1]));
    }
    assert forall|name: Seq<char>| #[trigger] rest.contains(name) <==> map.remove(names[0]).contains_key(name) by {
        if rest.contains(name) {
            let i = choose|i: int| 0 <= i < rest.len() && rest[i] == name;
            assert(names[i + 1] == name);
            assert(names.contains(name));
            assert(order::precedes(names[0], names[i + 1]));
            order::lemma_precedes_asymmetric(names[0], name);
        }
        if map.remove(names[0]).contains_key(name) {
            assert(names.contains(name));
            let i = choose|i: int| 0 <= i < names.len() && names[i] == name;
            assert(rest[i - 1] == name);
        }
    }
}

/// A listing of a map's names is the sorted one.
pub proof fn lemma_sorted_names<W>(names: Seq<Seq<char>>, map: Map<Seq<char>, W>)
    requires
        lists_names(names, map),
    ensures
        names == sorted_names(map),
{
    lemma_listing_unique(names, sorted_names(map), map);
}

/// Ascending names stay ascending where a name is put behind those that come before it and ahead of
/// those that come after it.
proof fn lemma_ascending_insert(names: Seq<Seq<char>>, at: int, name: Seq<char>)
    requires
        order::ascending(names),
        0 <= at <= names.len(),
        forall|i: int| 0 <= i < at ==> order::precedes(#[trigger] names[i], name),
        forall|i: int| at <= i < names.len() ==> order::precedes(name, #[trigger] names[i]),
    ensures
        order::ascending(names.insert(at, name)),
{
    let now = names.insert(at, name);
    assert forall|i: int, j: int| 0 <= i < j < now.len()
        implies #[trigger] order::precedes(now[i], now[j]) by {
        if j < at {
            assert(order::precedes(names[i], names[j]));
        } else if i < at && j == at {
            assert(order::precedes(names[i], name));
        } else if i < at {
            assert(order::precedes(names[i], names[j - 1]));
        } else if i == at {
            assert(order::precedes(name, names[j - 1]));
        } else {
            assert(order::precedes(names[i - 1], names[j - 1]));
        }
    }
}

/// Where a name that is not among ascending names has to be put.
proof fn lemma_place_among(names: Seq<Seq<char>>, name: Seq<char>) -> (at: int)
    requires
        order::ascending(names),
        !names.contains(name),
    ensures
        0 <= at <= names.len(),
        forall|i: int| 0 <= i < at ==> order::precedes(#[trigger] names[i], name),
        forall|i: int| at <= i < names.len() ==> order::precedes(name, #[trigger] names[i]),
    decreases names.len(),
{
    if names.len() == 0 {
        0
    } else {
        let front = names.drop_last();
        let last = names.last();
        assert(names.contains(last));
        order::lemma_precedes_total(last, name);
        if order::precedes(last, name) {
            assert forall|i: int| 0 <= i < names.len()
                implies order::precedes(#[trigger] names[i], name) by {
                if i < names.len() - 1 {
                    assert(order::precedes(names[i], names[names.len() - 1]));
                    order::lemma_precedes_transitive(names[i], last, name);
                }
            }
            names.len() as int
        } else {
            assert forall|i: int, j: int| 0 <= i < j < front.len()
                implies #[trigger] order::precedes(front[i], front[j]) by {
                assert(order::precedes(names[i], names[j]));
            }
            let at = lemma_place_among(front, name);
            assert forall|i: int| 0 <= i < at implies order::precedes(#[trigger] names[i], name) by {
                assert(order::precedes(front[i], name));
            }
            assert forall|i: int| at <= i < names.len()
                implies order::precedes(name, #[trigger] names[i]) by {
                if i < front.len() {
                    assert(order::precedes(name, front[i]));
                }
            }
            at
        }
    }
}

/// The names of a finite map can be listed in ascending order.
pub proof fn lemma_listing_exists<W>(map: Map<Seq<char>, W>)
    requires
        map.dom().finite(),
    ensures
        lists_names(sorted_names(map), map),
    decreases map.dom().len(),
{
    if map.dom().len() == 0 {
        let names = Seq::<Seq<char>>::empty();
        assert(map.dom() =~= Set::empty());
        assert(lists_names(names, map));
    } else {
        let name = map.dom().choose();
        let rest = map.remove(name);
        lemma_listing_exists(rest);
        let fewer = sorted_names(rest);
        assert(!fewer.contains(name));
        let at = lemma_place_among(fewer, name);
        let names = fewer.insert(at, name);
        lemma_ascending_insert(fewer, at, name);
        assert forall|other: Seq<char>| #[trigger] names.contains(other) <==> map.contains_key(other) by {
            if names.contains(other) {
                let i = choose|i: int| 0 <= i < names.len() && names[i] == other;
                if i != at {
                    let k = if i < at { i } else { i - 1 };
                    assert(fewer[k] == other);
                    assert(fewer.contains(other));
                }
            }
            if map.contains_key(other) {
                if other == name {
                    assert(names[at] == other);
                } else {
                    assert(fewer.contains(other));
                    let k = choose|k: int| 0 <= k < fewer.len() && fewer[k] == other;
                    let i = if k < at { k } else { k + 1 };
                    assert(names[i] == other);
                }
            }
        }
        assert(lists_names(names, map));
    }
}

/// Entries describe a finite map, whose names are those of the entries.
pub proof fn lemma_last_wins_names<W>(entries: Seq<(Seq<char>, W)>)
    ensures
        last_wins(entries).dom().finite(),
        forall|name: Seq<char>| #[trigger]
            last_wins(entries).contains_key(name) <==> exists|i: int|
                0 <= i < entries.len() && (#[trigger] entries[i]).0 == name,
    decreases entries.len(),
{
    if entries.len() > 0 {
        let front = entries.drop_last();
        lemma_last_wins_names(front);
        assert forall|name: Seq<char>| #[trigger]
            last_wins(entries).contains_key(name) <==> exists|i: int|
                0 <= i < entries.len() && (#[trigger] entries[i]).0 == name by {
            if last_wins(entries).contains_key(name) {
                if name == entries.last().0 {
                    assert(entries[entries.len() - 1].0 == name);
                } else {
                    assert(last_wins(front).contains_key(name));
                    let i = choose|i: int| 0 <= i < front.len() && (#[trigger] front[i]).0 == name;
                    assert(entries[i].0 == name);
                }
            }
            if exists|i: int| 0 <= i < entries.len() && (#[trigger] entries[i]).0 == name {
                let i = choose|i: int| 0 <= i < entries.len() && (#[trigger] entries[i]).0 == name;
                if i < front.len() {
                    assert(front[i].0 == name);
                    assert(last_wins(front).contains_key(name));
                }
            }
        }
    }
}

/// An entry that no later one replaces is found under its name.
pub proof fn lemma_last_wins_value<W>(entries: Seq<(Seq<char>, W)>, i: int)
    requires
        0 <= i < entries.len(),
        forall|j: int| i < j < entries.len() ==> (#[trigger] entries[j]).0 != entries[i].0,
    ensures
        last_wins(entries).contains_key(entries[i].0),
        last_wins(entries)[entries[i].0] == entries[i].1,
    decreases entries.len(),
{
    if i < entries.len() - 1 {
        let front = entries.drop_last();
        assert forall|j: int| i < j < front.len() implies (#[trigger] front[j]).0 != front[i].0 by {
            assert(entries[j].0 != entries[i].0);
        }
        lemma_last_wins_value(front, i);
        assert(entries[entries.len() - 1].0 != entries[i].0);
    }
}

/// The order of entries is irrelevant where no name occurs twice: the same entries describe the same
/// map.
pub proof fn law_order_of_entries_is_irrelevant<W>(a: Seq<(Seq<char>, W)>, b: Seq<(Seq<char>, W)>)
    requires
        forall|i: int, j: int| 0 <= i < j < a.len() ==> (#[trigger] a[i]).0 != (#[trigger] a[j]).0,
        forall|i: int, j: int| 0 <= i < j < b.len() ==> (#[trigger] b[i]).0 != (#[trigger] b[j]).0,
        forall|entry: (Seq<char>, W)| #[trigger] a.contains(entry) <==> b.contains(entry),
    ensures
        last_wins(a) == last_wins(b),
{
    lemma_last_wins_names(a);
    lemma_last_wins_names(b);
    assert forall|name: Seq<char>| {
        &&& #[trigger] last_wins(a).contains_key(name) <==> last_wins(b).contains_key(name)
        &&& last_wins(a).contains_key(name) ==> last_wins(a)[name] == last_wins(b)[name]
    } by {
        if last_wins(a).contains_key(name) {
            let i = choose|i: int| 0 <= i < a.len() && (#[trigger] a[i]).0 == name;
            assert(a.contains(a[i]));
            assert(b.contains(a[i]));
            let k = choose|k: int| 0 <= k < b.len() && b[k] == a[i];
            lemma_last_wins_value(a, i);
            lemma_last_wins_value(b, k);
        }
        if last_wins(b).contains_key(name) {
            let k = choose|k: int| 0 <= k < b.len() && (#[trigger] b[k]).0 == name;
            assert(b.contains(b[k]));
            assert(a.contains(b[k]));
            let i = choose|i: int| 0 <= i < a.len() && a[i] == b[k];
            lemma_last_wins_value(a, i);
        }
    }
    assert(last_wins(a) =~= last_wins(b));
}

/// A listing of a map's names holds each name that the map has a value for, and nothing else, once; and
/// of any two names, the earlier one has ended or holds the smaller character where they first differ.
pub proof fn law_listing_is_complete_and_sorted<W>(
    names: Seq<Seq<char>>,
    map: Map<Seq<char>, W>,
    i: int,
    j: int,
)
    requires
        lists_names(names, map),
    ensures
        names.to_set() == map.dom(),
        names.no_duplicates(),
        0 <= i < j < names.len() ==> exists|at: int|
            0 <= at <= names[i].len() && at < names[j].len() && #[trigger] names[i].take(at) == names[j].take(at)
                && (at == names[i].len() || names[i][at] < names[j][at]),
{
    assert forall|name: Seq<char>| names.to_set().contains(name) <==> map.dom().contains(name) by {
        assert(names.contains(name) <==> map.contains_key(name));
    }
    assert(names.to_set() =~= map.dom());
    assert forall|k: int, l: int| 0 <= k < names.len() && 0 <= l < names.len() && k != l
        implies names[k] != names[l] by {
        if k < l {
            order::lemma_precedes_asymmetric(names[k], names[l]);
        } else {
            order::lemma_precedes_asymmetric(names[l], names[k]);
        }
    }
    if 0 <= i < j < names.len() {
        order::law_ascending_is_lexicographic(names, i, j);
    }
}

/// The sorted names of a finite map are each name that the map has a value for, and nothing else, once;
/// and of any two names, the earlier one has ended or holds the smaller character where they first
/// differ.
pub proof fn law_sorted_names_are_complete_and_sorted<W>(map: Map<Seq<char>, W>, i: int, j: int)
    requires
        map.dom().finite(),
    ensures
        sorted_names(map).to_set() == map.dom(),
        sorted_names(map).no_duplicates(),
        0 <= i < j < sorted_names(map).len() ==> exists|at: int|
            0 <= at <= sorted_names(map)[i].len() && at < sorted_names(map)[j].len()
                && #[trigger] sorted_names(map)[i].take(at) == sorted_names(map)[j].take(at) && (at
                == sorted_names(map)[i].len() || sorted_names(map)[i][at] < sorted_names(map)[j][at]),
{
    lemma_listing_exists(map);
    law_listing_is_complete_and_sorted(sorted_names(map), map, i, j);
}

} // verus!
