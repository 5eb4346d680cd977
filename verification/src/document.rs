//! What the YAML reader finds in a Compose file.

use crate::scalar::Scalar;
use crate::table;
use crate::table::Table;
use crate::text;
use vstd::prelude::*;

verus! {

/// A Compose file as read: the entries of its `services` mapping.
#[derive(Debug)]
pub struct RawCompose {
    /// Service names and what is declared under them, in the order of the reader.
    pub services: Vec<(String, RawService)>,
}

/// A service as read; all but its image and environment is left out.
#[derive(Debug)]
pub struct RawService {
    /// The value of `image`.
    pub image: Option<String>,
    /// The value of `environment`.
    pub environment: Option<RawEnvironment>,
}

/// The two forms of `environment`.
#[derive(Debug)]
pub enum RawEnvironment {
    /// The mapping form, `POSTGRES_USER: postgres`.
    Mapping(Vec<(String, Option<Scalar>)>),
    /// The list form, `- POSTGRES_USER=postgres`.
    List(Vec<String>),
}

/// The variable that an entry of the list form declares: what stands before its first `=` is the
/// key and what stands after it the value; without a `=` the entry is a key without a value.
pub open spec fn variable_of(entry: Seq<char>) -> (Seq<char>, Option<Seq<char>>) {
    match text::split_at_first(entry, '=') {
        Some((key, value)) => (key, Some(value)),
        None => (entry, None),
    }
}

/// The variables that the mapping form declares.
pub open spec fn mapped_variables(map: Seq<(String, Option<Scalar>)>) -> Seq<(Seq<char>, Option<Seq<char>>)> {
    map.map_values(
        |entry: (String, Option<Scalar>)|
            (
                entry.0@,
                match entry.1 {
                    Some(scalar) => Some(scalar.0@),
                    None => None,
                },
            ),
    )
}

/// The variables that the list form declares.
pub open spec fn listed_variables(list: Seq<String>) -> Seq<(Seq<char>, Option<Seq<char>>)> {
    list.map_values(|entry: String| variable_of(entry@))
}

impl RawEnvironment {
    /// The declared variables, in the order of the reader.
    pub open spec fn entries(self) -> Seq<(Seq<char>, Option<Seq<char>>)> {
        match self {
            RawEnvironment::Mapping(map) => mapped_variables(map@),
            RawEnvironment::List(list) => listed_variables(list@),
        }
    }

    /// The declared variables; a key that is declared again takes its last value.
    pub open spec fn variables(self) -> Map<Seq<char>, Option<Seq<char>>> {
        table::last_wins(self.entries())
    }

    /// The declared variables by key.
    pub fn into_table(self) -> (variables: Table<Option<String>>)
        ensures
            variables@ == self.variables(),
    {
        let ghost entries = self.entries();
        let mut variables: Table<Option<String>> = Table::new();
        match self {
            RawEnvironment::Mapping(map) => {
                for entry in it: map
                    invariant
                        it.seq() == map@,
                        entries == mapped_variables(map@),
                        variables@ == table::last_wins(entries.take(it.index())),
                {
                    let value = match entry.1 {
                        Some(scalar) => Some(scalar.0),
                        None => None,
                    };
                    assert(entries.take(it.index() + 1).drop_last() =~= entries.take(it.index()));
                    variables = variables.with(entry.0, value);
                }
            },
            RawEnvironment::List(list) => {
                for entry in it: list
                    invariant
                        it.seq() == list@,
                        entries == listed_variables(list@),
                        variables@ == table::last_wins(entries.take(it.index())),
                {
                    let (key, value) = match text::split_once(entry.as_str(), '=') {
                        Some((key, value)) => (key.to_owned(), Some(value.to_owned())),
                        None => (entry.clone(), None),
                    };
                    assert(entries.take(it.index() + 1).drop_last() =~= entries.take(it.index()));
                    variables = variables.with(key, value);
                }
            },
        }
        assert(entries.take(entries.len() as int) =~= entries);
        variables
    }
}

/// A declared variable that is not declared again is found under its key with its value, and no
/// variable is found that is not declared.
pub proof fn law_declared_variables_are_found(environment: RawEnvironment)
    ensures
        forall|i: int|
            #![trigger environment.entries()[i]]
            0 <= i < environment.entries().len() && (forall|j: int|
                i < j < environment.entries().len() ==> (#[trigger] environment.entries()[j]).0
                    != environment.entries()[i].0) ==> environment.variables().contains_key(
                environment.entries()[i].0,
            ) && environment.variables()[environment.entries()[i].0] == environment.entries()[i].1,
        forall|key: Seq<char>| #[trigger]
            environment.variables().contains_key(key) ==> exists|i: int|
                0 <= i < environment.entries().len() && (#[trigger] environment.entries()[i]).0 == key,
{
    let entries = environment.entries();
    table::lemma_last_wins_names(entries);
    assert forall|i: int|
        #![trigger entries[i]]
        0 <= i < entries.len() && (forall|j: int|
            i < j < entries.len() ==> (#[trigger] entries[j]).0 != entries[i].0) implies environment.variables().contains_key(
        entries[i].0,
    ) && environment.variables()[entries[i].0] == entries[i].1 by {
        table::lemma_last_wins_value(entries, i);
    }
}

/// How the list form writes a variable.
pub open spec fn written(key: Seq<char>, value: Option<Seq<char>>) -> Seq<char> {
    match value {
        Some(value) => key + seq!['='] + value,
        None => key,
    }
}

/// The list form reads back what it writes, provided that the key holds no `=`.
pub proof fn law_list_entry_round_trip(key: Seq<char>, value: Option<Seq<char>>)
    requires
        !key.contains('='),
    ensures
        variable_of(written(key, value)) == (key, value),
{
    let entry = written(key, value);
    entry.index_of_first_ensures('=');
    if let Some(value) = value {
        assert(entry[key.len() as int] == '=');
        assert(entry.contains('='));
        let at = entry.index_of_first('=')->0;
        if at < key.len() {
            assert(key[at] == '=');
        }
        assert(entry.take(at) =~= key);
        assert(entry.skip(at + 1) =~= value);
    }
}

/// Both forms of an environment are understood alike: a list that writes out the entries of a
/// mapping declares the same variables, provided that no key holds a `=`.
pub proof fn law_both_forms_agree(map: Vec<(String, Option<Scalar>)>, list: Vec<String>)
    requires
        list@.len() == map@.len(),
        forall|i: int| 0 <= i < map@.len() ==> !(#[trigger] mapped_variables(map@)[i]).0.contains('='),
        forall|i: int|
            0 <= i < map@.len() ==> (#[trigger] list@[i])@ == written(
                mapped_variables(map@)[i].0,
                mapped_variables(map@)[i].1,
            ),
    ensures
        RawEnvironment::List(list).variables() == RawEnvironment::Mapping(map).variables(),
{
    let entries = mapped_variables(map@);
    assert forall|i: int| 0 <= i < entries.len() implies listed_variables(list@)[i] == entries[i] by {
        law_list_entry_round_trip(entries[i].0, entries[i].1);
        assert(list@[i]@ == written(entries[i].0, entries[i].1));
    }
    assert(listed_variables(list@) =~= entries);
}

/// The mapping form keeps keys and values: an entry whose key is not declared again is found under its
/// key with the text of its scalar, or without a value if it has none; and only keys of entries are
/// found.
pub proof fn law_mapping_form_keeps_its_values(map: Vec<(String, Option<Scalar>)>, i: int, key: Seq<char>)
    ensures
        0 <= i < map@.len() && (forall|j: int| i < j < map@.len() ==> (#[trigger] map@[j]).0@ != map@[i].0@) ==> {
            let variables = RawEnvironment::Mapping(map).variables();
            &&& variables.contains_key(map@[i].0@)
            &&& match map@[i].1 {
                Some(scalar) => variables[map@[i].0@] == Some(scalar.0@),
                None => variables[map@[i].0@] is None,
            }
        },
        RawEnvironment::Mapping(map).variables().contains_key(key) <==> exists|k: int|
            0 <= k < map@.len() && (#[trigger] map@[k]).0@ == key,
{
    let entries = mapped_variables(map@);
    assert(RawEnvironment::Mapping(map).entries() == entries);
    if 0 <= i < map@.len() && (forall|j: int| i < j < map@.len() ==> (#[trigger] map@[j]).0@ != map@[i].0@) {
        assert forall|j: int| i < j < entries.len() implies (#[trigger] entries[j]).0 != entries[i].0 by {
            assert(map@[j].0@ != map@[i].0@);
        }
        table::lemma_last_wins_value(entries, i);
    }
    table::lemma_last_wins_names(entries);
    if RawEnvironment::Mapping(map).variables().contains_key(key) {
        let k = choose|k: int| 0 <= k < entries.len() && (#[trigger] entries[k]).0 == key;
        assert(map@[k].0@ == key);
    }
    if exists|k: int| 0 <= k < map@.len() && (#[trigger] map@[k]).0@ == key {
        let k = choose|k: int| 0 <= k < map@.len() && (#[trigger] map@[k]).0@ == key;
        assert(entries[k].0 == key);
    }
}

/// An entry of the list form declares the key that it is, or that a `=` follows in it; no key holds a
/// `=`.
proof fn lemma_declared_key(entry: Seq<char>, key: Seq<char>)
    ensures
        variable_of(entry).0 == key <==> !key.contains('=') && (entry == key || (key + seq!['=']).is_prefix_of(
            entry,
        )),
{
    entry.index_of_first_ensures('=');
    if variable_of(entry).0 == key {
        if let Some(at) = entry.index_of_first('=') {
            assert((key + seq!['=']) =~= entry.subrange(0, at + 1));
        }
    }
    if !key.contains('=') {
        if (key + seq!['=']).is_prefix_of(entry) {
            let value = entry.skip(key.len() + 1int);
            assert((key + seq!['='])[key.len() as int] == '=');
            assert(entry =~= written(key, Some(value)));
            law_list_entry_round_trip(key, Some(value));
        } else if entry == key {
            law_list_entry_round_trip(key, None);
        }
    }
}

/// The list form keeps keys and values: where no later entry declares `key` again, an entry that is
/// `key`, `=` and a value gives `key` that value, and one that is just `key` gives it none.
pub proof fn law_list_form_keeps_its_values(list: Vec<String>, i: int, key: Seq<char>, value: Seq<char>)
    requires
        0 <= i < list@.len(),
        !key.contains('='),
        forall|j: int|
            i < j < list@.len() ==> (#[trigger] list@[j])@ != key && !(key + seq!['=']).is_prefix_of(list@[j]@),
    ensures
        list@[i]@ == key + seq!['='] + value ==> RawEnvironment::List(list).variables().contains_key(key)
            && RawEnvironment::List(list).variables()[key] == Some(value),
        list@[i]@ == key ==> RawEnvironment::List(list).variables().contains_key(key)
            && RawEnvironment::List(list).variables()[key] is None,
{
    let entries = listed_variables(list@);
    assert(RawEnvironment::List(list).entries() == entries);
    law_list_entry_round_trip(key, Some(value));
    law_list_entry_round_trip(key, None);
    if list@[i]@ == key + seq!['='] + value || list@[i]@ == key {
        assert(entries[i] == variable_of(list@[i]@));
        assert forall|j: int| i < j < entries.len() implies (#[trigger] entries[j]).0 != entries[i].0 by {
            lemma_declared_key(list@[j]@, key);
        }
        table::lemma_last_wins_value(entries, i);
    }
}

/// The list form declares exactly the keys that an entry is, or that a `=` follows at the start of an
/// entry; no key holds a `=`.
pub proof fn law_list_form_declares_its_keys(list: Vec<String>, key: Seq<char>)
    ensures
        RawEnvironment::List(list).variables().contains_key(key) <==> !key.contains('=') && exists|k: int|
            0 <= k < list@.len() && ((#[trigger] list@[k])@ == key || (key + seq!['=']).is_prefix_of(list@[k]@)),
{
    let entries = listed_variables(list@);
    assert(RawEnvironment::List(list).entries() == entries);
    table::lemma_last_wins_names(entries);
    if RawEnvironment::List(list).variables().contains_key(key) {
        let k = choose|k: int| 0 <= k < entries.len() && (#[trigger] entries[k]).0 == key;
        lemma_declared_key(list@[k]@, key);
    }
    if !key.contains('=') && exists|k: int|
        0 <= k < list@.len() && ((#[trigger] list@[k])@ == key || (key + seq!['=']).is_prefix_of(list@[k]@)) {
        let k = choose|k: int|
            0 <= k < list@.len() && ((#[trigger] list@[k])@ == key || (key + seq!['=']).is_prefix_of(list@[k]@));
        lemma_declared_key(list@[k]@, key);
        assert(entries[k].0 == key);
    }
}

} // verus!
