//! Documents of the kind a configuration is written in: nothing, a truth
//! value, a number, a text, a sequence of documents, or named documents.

use vstd::prelude::*;
use crate::sequence::{first_index_of, lemma_first_index_of, lemma_first_index_of_is};

verus! {

/// A document.
#[derive(Debug, PartialEq, Eq)]
pub enum Json {
    Null,
    Bool(bool),
    /// A number, held as the characters that write it.
    Number(String),
    String(String),
    /// An ordered sequence of documents.
    Array(Vec<Json>),
    /// Named documents, in the order in which they were entered.
    Object(Vec<(String, Json)>),
}

/// What a document holds.
pub enum JsonView {
    Null,
    Bool(bool),
    Number(Seq<char>),
    String(Seq<char>),
    Array(Seq<JsonView>),
    Object(Seq<(Seq<char>, JsonView)>),
}

/// What named documents hold: each name with what is entered under it, in
/// the order of the entries.
pub type Entries = Seq<(Seq<char>, JsonView)>;

/// What the document `json` holds.
pub open spec fn json_view(json: Json) -> JsonView
    decreases json,
{
    match json {
        Json::Null => JsonView::Null,
        Json::Bool(b) => JsonView::Bool(b),
        Json::Number(n) => JsonView::Number(n@),
        Json::String(s) => JsonView::String(s@),
        Json::Array(items) => JsonView::Array(
            Seq::new(
                items.len() as nat,
                |i: int|
                    if 0 <= i < items.len() {
                        json_view(items[i])
                    } else {
                        JsonView::Null
                    },
            ),
        ),
        Json::Object(entries) => JsonView::Object(
            Seq::new(
                entries.len() as nat,
                |i: int|
                    if 0 <= i < entries.len() {
                        (entries[i].0@, json_view(entries[i].1))
                    } else {
                        (Seq::empty(), JsonView::Null)
                    },
            ),
        ),
    }
}

impl View for Json {
    type V = JsonView;

    open spec fn view(&self) -> JsonView {
        json_view(*self)
    }
}

/// What the documents of a sequence hold, one for one.
pub open spec fn items_view(items: Seq<Json>) -> Seq<JsonView> {
    Seq::new(items.len(), |i: int| json_view(items[i]))
}

/// What named documents hold, one for one, each under its name.
pub open spec fn entries_view(entries: Seq<(String, Json)>) -> Entries {
    Seq::new(entries.len(), |i: int| (entries[i].0@, json_view(entries[i].1)))
}

/// A sequence of documents holds what its items hold.
pub proof fn lemma_array_view(items: Vec<Json>)
    ensures
        json_view(Json::Array(items)) == JsonView::Array(items_view(items@)),
{
    assert(json_view(Json::Array(items))->Array_0 =~= items_view(items@));
}

/// Named documents hold what their entries hold.
pub proof fn lemma_object_view(entries: Vec<(String, Json)>)
    ensures
        json_view(Json::Object(entries)) == JsonView::Object(entries_view(entries@)),
{
    assert(json_view(Json::Object(entries))->Object_0 =~= entries_view(entries@));
}

/// The names under which documents are entered, in their order.
pub open spec fn keys_of(entries: Entries) -> Seq<Seq<char>> {
    Seq::new(entries.len(), |i: int| entries[i].0)
}

/// The position of the first entry named `key`.
pub open spec fn key_index(entries: Entries, key: Seq<char>) -> Option<int> {
    first_index_of(keys_of(entries), key)
}

/// The document entered under `key`: that of the first entry of that name.
pub open spec fn get(entries: Entries, key: Seq<char>) -> Option<JsonView> {
    match key_index(entries, key) {
        Some(i) => Some(entries[i].1),
        None => None,
    }
}

/// The entries with `value` entered under `key`: in the place of what was
/// entered under that name, or behind all others where nothing was.
pub open spec fn put(entries: Entries, key: Seq<char>, value: JsonView) -> Entries {
    match key_index(entries, key) {
        Some(i) => entries.update(i, (key, value)),
        None => entries.push((key, value)),
    }
}

/// The entries without the first one named `key`.
pub open spec fn remove_key(entries: Entries, key: Seq<char>) -> Entries {
    match key_index(entries, key) {
        Some(i) => entries.remove(i),
        None => entries,
    }
}

/// No name is entered twice.
pub open spec fn distinct_keys(entries: Entries) -> bool {
    forall|i: int, j: int|
        0 <= i < j < entries.len() ==> (#[trigger] entries[i]).0 != (#[trigger] entries[j]).0
}

/// The first entry named `key` stands at the position found, and no entry
/// before it has that name; where none is found, no entry has it.
pub proof fn lemma_key_index(entries: Entries, key: Seq<char>)
    ensures
        match key_index(entries, key) {
            Some(i) => 0 <= i < entries.len() && entries[i].0 == key && forall|j: int|
                0 <= j < i ==> (#[trigger] entries[j]).0 != key,
            None => forall|j: int| 0 <= j < entries.len() ==> (#[trigger] entries[j]).0 != key,
        },
{
    let keys = keys_of(entries);
    lemma_first_index_of(keys, key);
    match key_index(entries, key) {
        Some(i) => {
            assert forall|j: int| 0 <= j < i implies (#[trigger] entries[j]).0 != key by {
                assert(keys[j] != key);
            }
        },
        None => {
            assert forall|j: int| 0 <= j < entries.len() implies (#[trigger] entries[j]).0
                != key by {
                assert(keys[j] != key);
            }
        },
    }
}

/// An entry named `key` before which no entry has that name is the one
/// found; where `i` is the number of entries, none is.
pub proof fn lemma_key_index_is(entries: Entries, key: Seq<char>, i: int)
    requires
        0 <= i <= entries.len(),
        forall|j: int| 0 <= j < i ==> (#[trigger] entries[j]).0 != key,
        i < entries.len() ==> entries[i].0 == key,
    ensures
        key_index(entries, key) == if i < entries.len() {
            Some(i)
        } else {
            None
        },
{
    let keys = keys_of(entries);
    assert forall|j: int| 0 <= j < i implies #[trigger] keys[j] != key by {
        assert(entries[j].0 != key);
    }
    lemma_first_index_of_is(keys, key, i);
}

/// What is entered under a name is found under it.
pub proof fn lemma_get_after_put(entries: Entries, key: Seq<char>, value: JsonView)
    ensures
        key_index(put(entries, key, value), key) == match key_index(entries, key) {
            Some(i) => Some(i),
            None => Some(entries.len() as int),
        },
        get(put(entries, key, value), key) == Some(value),
{
    lemma_key_index(entries, key);
    let after = put(entries, key, value);
    let at = match key_index(entries, key) {
        Some(i) => i,
        None => entries.len() as int,
    };
    assert forall|j: int| 0 <= j < at implies (#[trigger] after[j]).0 != key by {
        assert(after[j] == entries[j]);
    }
    lemma_key_index_is(after, key, at);
}

/// Entering something under one name leaves what is found under another.
pub proof fn lemma_get_other_after_put(
    entries: Entries,
    key: Seq<char>,
    value: JsonView,
    other: Seq<char>,
)
    requires
        other != key,
    ensures
        get(put(entries, key, value), other) == get(entries, other),
{
    lemma_key_index(entries, key);
    lemma_key_index(entries, other);
    let after = put(entries, key, value);
    match key_index(entries, other) {
        Some(i) => {
            assert forall|j: int| 0 <= j < i implies (#[trigger] after[j]).0 != other by {
                if j < entries.len() && key_index(entries, key) != Some(j) {
                    assert(after[j] == entries[j]);
                }
            }
            assert(after[i] == entries[i]);
            lemma_key_index_is(after, other, i);
        },
        None => {
            assert forall|j: int| 0 <= j < after.len() implies (#[trigger] after[j]).0 != other by {
                if j < entries.len() && key_index(entries, key) != Some(j) {
                    assert(after[j] == entries[j]);
                }
            }
            lemma_key_index_is(after, other, after.len() as int);
        },
    }
}

/// Among entries with distinct names, nothing is found under a name once
/// its entry is taken away.
pub proof fn lemma_get_after_remove(entries: Entries, key: Seq<char>)
    requires
        distinct_keys(entries),
    ensures
        get(remove_key(entries, key), key) is None,
{
    lemma_key_index(entries, key);
    let after = remove_key(entries, key);
    match key_index(entries, key) {
        Some(i) => {
            assert forall|j: int| 0 <= j < after.len() implies (#[trigger] after[j]).0 != key by {
                if j < i {
                    assert(after[j] == entries[j]);
                } else {
                    assert(after[j] == entries[j + 1]);
                }
            }
        },
        None => {},
    }
    lemma_key_index_is(after, key, after.len() as int);
}

/// Taking away the entry of one name leaves what is found under another.
pub proof fn lemma_get_other_after_remove(
    entries: Entries,
    key: Seq<char>,
    other: Seq<char>,
)
    requires
        other != key,
    ensures
        get(remove_key(entries, key), other) == get(entries, other),
{
    lemma_key_index(entries, key);
    lemma_key_index(entries, other);
    let after = remove_key(entries, key);
    match key_index(entries, key) {
        None => {},
        Some(gone) => {
            match key_index(entries, other) {
                Some(i) => {
                    let at = if i < gone {
                        i
                    } else {
                        i - 1
                    };
                    assert forall|j: int| 0 <= j < at implies (#[trigger] after[j]).0 != other by {
                        if j < gone {
                            assert(after[j] == entries[j]);
                        } else {
                            assert(after[j] == entries[j + 1]);
                        }
                    }
                    assert(after[at] == entries[i]);
                    lemma_key_index_is(after, other, at);
                },
                None => {
                    assert forall|j: int| 0 <= j < after.len() implies (#[trigger] after[j]).0
                        != other by {
                        if j < gone {
                            assert(after[j] == entries[j]);
                        } else {
                            assert(after[j] == entries[j + 1]);
                        }
                    }
                    lemma_key_index_is(after, other, after.len() as int);
                },
            }
        },
    }
}

/// Entering something under a name keeps the names distinct.
pub proof fn lemma_put_keeps_keys_distinct(
    entries: Entries,
    key: Seq<char>,
    value: JsonView,
)
    requires
        distinct_keys(entries),
    ensures
        distinct_keys(put(entries, key, value)),
{
    lemma_key_index(entries, key);
    let after = put(entries, key, value);
    assert forall|i: int, j: int| 0 <= i < j < after.len() implies (#[trigger] after[i]).0 != (
    #[trigger] after[j]).0 by {
        if j < entries.len() {
            assert(after[i].0 == entries[i].0);
            assert(after[j].0 == entries[j].0);
        } else {
            assert(after[i] == entries[i]);
        }
    }
}

/// Taking an entry away keeps the names distinct.
pub proof fn lemma_remove_keeps_keys_distinct(entries: Entries, key: Seq<char>)
    requires
        distinct_keys(entries),
    ensures
        distinct_keys(remove_key(entries, key)),
{
    lemma_key_index(entries, key);
    let after = remove_key(entries, key);
    match key_index(entries, key) {
        None => {},
        Some(gone) => {
            assert forall|i: int, j: int| 0 <= i < j < after.len() implies (#[trigger] after[i]).0
                != (#[trigger] after[j]).0 by {
                let from_i = if i < gone {
                    i
                } else {
                    i + 1
                };
                let from_j = if j < gone {
                    j
                } else {
                    j + 1
                };
                assert(after[i] == entries[from_i]);
                assert(after[j] == entries[from_j]);
            }
        },
    }
}

impl Clone for Json {
    /// A document that holds what this one holds.
    fn clone(&self) -> (copy: Json)
        ensures
            copy@ == self@,
        decreases self,
    {
        match self {
            Json::Null => Json::Null,
            Json::Bool(b) => Json::Bool(*b),
            Json::Number(n) => Json::Number(n.clone()),
            Json::String(s) => Json::String(s.clone()),
            Json::Array(items) => {
                let mut copies: Vec<Json> = Vec::new();
                let mut i: usize = 0;
                while i < items.len()
                    invariant
                        i <= items.len(),
                        copies.len() == i,
                        forall|k: int| 0 <= k < i ==> copies[k]@ == items[k]@,
                        self is Array && self->Array_0 == items,
                    decreases items.len() - i,
                {
                    copies.push(items[i].clone());
                    i += 1;
                }
                let copy = Json::Array(copies);
                assert(copy@->Array_0 =~= self@->Array_0);
                copy
            },
            Json::Object(entries) => {
                let copies = clone_entries(entries);
                proof {
                    lemma_object_view(copies);
                    lemma_object_view(*entries);
                }
                Json::Object(copies)
            },
        }
    }
}

/// Entries that hold what `entries` hold, under the same names and in the
/// same order.
pub fn clone_entries(entries: &Vec<(String, Json)>) -> (copies: Vec<(String, Json)>)
    ensures
        entries_view(copies@) == entries_view(entries@),
    decreases entries,
{
    let mut copies: Vec<(String, Json)> = Vec::new();
    let mut i: usize = 0;
    while i < entries.len()
        invariant
            i <= entries.len(),
            copies.len() == i,
            forall|k: int|
                0 <= k < i ==> copies[k].0@ == entries[k].0@ && copies[k].1@ == entries[k].1@,
        decreases entries.len() - i,
    {
        copies.push((entries[i].0.clone(), entries[i].1.clone()));
        i += 1;
    }
    assert(entries_view(copies@) =~= entries_view(entries@));
    copies
}

/// The position of the first entry named `key`.
pub fn find_key(entries: &Vec<(String, Json)>, key: &String) -> (found: Option<usize>)
    ensures
        match found {
            Some(i) => key_index(entries_view(entries@), key@) == Some(i as int) && i
                < entries.len(),
            None => key_index(entries_view(entries@), key@) is None,
        },
{
    let ghost view = entries_view(entries@);
    let mut i: usize = 0;
    while i < entries.len()
        invariant
            i <= entries.len(),
            view == entries_view(entries@),
            forall|j: int| 0 <= j < i ==> (#[trigger] view[j]).0 != key@,
        decreases entries.len() - i,
    {
        if entries[i].0 == *key {
            proof {
                lemma_key_index_is(view, key@, i as int);
            }
            return Some(i);
        }
        i += 1;
    }
    proof {
        lemma_key_index_is(view, key@, i as int);
    }
    None
}

} // verus!
