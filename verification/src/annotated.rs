//! Annotated documents: what the redaction engine hands back. Every node
//! holds a raw value, or none where the engine took it away, and a record of
//! what was done to it. The library reads such a document and never changes
//! what it finds there, but for the one reserved entry that an engine may add
//! at the top.

use vstd::prelude::*;
use crate::sequence::{first_index_of, lemma_first_index_of_is};
use crate::text::{
    chars_of, first_segment, is_root_path, parse_index, parse_index_in, segment_end, segment_len,
};

verus! {

/// What the engine noted about one node.
#[derive(Debug, PartialEq, Eq)]
pub struct Meta {
    /// What was redacted, one entry per remark.
    pub remarks: Vec<String>,
    /// What went wrong, one entry per error.
    pub errors: Vec<String>,
    /// The node's own path.
    pub path: String,
}

/// The raw value of a node.
#[derive(Debug, PartialEq, Eq)]
pub enum Value {
    Null,
    Bool(bool),
    I64(i64),
    U64(u64),
    /// A floating-point number, held as the 64 bits that encode it. The two
    /// zeros, which differ in their sign bit alone, count as one number.
    Float(u64),
    String(String),
    /// An ordered sequence of nodes.
    Array(Vec<Annotated>),
    /// Named nodes, in the order in which they were entered.
    Object(Vec<(String, Annotated)>),
}

/// A node of an annotated document.
#[derive(Debug, PartialEq, Eq)]
pub struct Annotated {
    /// The raw value; `None` where the node was redacted away.
    pub value: Option<Value>,
    /// The engine's notes on the node.
    pub meta: Meta,
}

/// An annotated document as the engine returns it.
pub type StrippedEvent = Annotated;

/// The shape of a raw value with everything below it, the notes left out.
/// Two nodes are told apart by this shape alone.
pub enum RawValue {
    Null,
    Bool(bool),
    I64(i64),
    U64(u64),
    Float(u64),
    String(Seq<char>),
    Array(Seq<Option<RawValue>>),
    Object(Seq<(Seq<char>, Option<RawValue>)>),
}

/// The bits by which a floating-point number is told from others: its own,
/// but for the zero with the sign bit set, which counts as the other zero.
pub open spec fn float_key(bits: u64) -> u64 {
    if bits == 0x8000_0000_0000_0000u64 {
        0u64
    } else {
        bits
    }
}

/// The shape of the raw value `value`.
pub open spec fn shape_of(value: Value) -> RawValue
    decreases value,
{
    match value {
        Value::Null => RawValue::Null,
        Value::Bool(b) => RawValue::Bool(b),
        Value::I64(n) => RawValue::I64(n),
        Value::U64(n) => RawValue::U64(n),
        Value::Float(bits) => RawValue::Float(float_key(bits)),
        Value::String(s) => RawValue::String(s@),
        Value::Array(items) => RawValue::Array(
            Seq::new(
                items.len() as nat,
                |i: int|
                    if 0 <= i < items.len() {
                        match items[i].value {
                            Some(inner) => Some(shape_of(inner)),
                            None => None,
                        }
                    } else {
                        None
                    },
            ),
        ),
        Value::Object(entries) => RawValue::Object(
            Seq::new(
                entries.len() as nat,
                |i: int|
                    if 0 <= i < entries.len() {
                        (
                            entries[i].0@,
                            match entries[i].1.value {
                                Some(inner) => Some(shape_of(inner)),
                                None => None,
                            },
                        )
                    } else {
                        (Seq::empty(), None)
                    },
            ),
        ),
    }
}

impl View for Value {
    type V = RawValue;

    open spec fn view(&self) -> RawValue {
        shape_of(*self)
    }
}

impl View for Annotated {
    type V = Option<RawValue>;

    open spec fn view(&self) -> Option<RawValue> {
        match self.value {
            Some(value) => Some(shape_of(value)),
            None => None,
        }
    }
}

/// The names of the entries of a mapping, in their order.
pub open spec fn entry_names(entries: Seq<(String, Annotated)>) -> Seq<Seq<char>> {
    Seq::new(entries.len(), |i: int| entries[i].0@)
}

/// The position of the first entry named `key`.
pub open spec fn entry_index(entries: Seq<(String, Annotated)>, key: Seq<char>) -> Option<int> {
    first_index_of(entry_names(entries), key)
}

/// The node that `segment` names directly below `node`: the element at that
/// index of a sequence, the first entry of that name of a mapping, and nothing
/// below any other node, nor for an empty segment.
pub open spec fn child(node: Annotated, segment: Seq<char>) -> Option<Annotated> {
    if segment.len() == 0 {
        None
    } else {
        match node.value {
            Some(Value::Array(items)) => match parse_index(segment) {
                Some(i) => if i < items.len() {
                    Some(items[i as int])
                } else {
                    None
                },
                None => None,
            },
            Some(Value::Object(entries)) => match entry_index(entries@, segment) {
                Some(i) => Some(entries[i].1),
                None => None,
            },
            _ => None,
        }
    }
}

/// The node that `path` addresses in the document rooted at `node`. A root
/// path addresses `node` itself; any other path names a child by its first
/// segment, and addresses in it what the rest of the path does.
pub open spec fn resolve(node: Annotated, path: Seq<char>) -> Option<Annotated>
    decreases path.len(),
{
    if is_root_path(path) {
        Some(node)
    } else {
        match child(node, first_segment(path)) {
            Some(below) => {
                if segment_len(path) < path.len() {
                    resolve(below, path.skip(segment_len(path) as int + 1))
                } else {
                    Some(below)
                }
            },
            None => None,
        }
    }
}

/// The raw value that `path` addresses in `document`. `None` where the path
/// addresses nothing, and where it addresses a node without a raw value.
pub open spec fn raw_value_at(document: Annotated, path: Seq<char>) -> Option<RawValue> {
    match resolve(document, path) {
        Some(node) => node@,
        None => None,
    }
}

/// The raw value of a lookup that may have found no node.
pub open spec fn raw_of(found: Option<&Annotated>) -> Option<RawValue> {
    match found {
        Some(node) => node@,
        None => None,
    }
}

/// The entries of a mapping that are not named `key`, in their order.
pub open spec fn without_key(entries: Seq<(String, Annotated)>, key: Seq<char>) -> Seq<
    (String, Annotated),
>
    decreases entries.len(),
{
    if entries.len() == 0 {
        entries
    } else if entries[0].0@ == key {
        without_key(entries.skip(1), key)
    } else {
        seq![entries[0]] + without_key(entries.skip(1), key)
    }
}

/// The name of the entry that an engine may add at the top of its result to
/// carry its own notes.
pub open spec fn sidecar_key() -> Seq<char> {
    "_meta"@
}

/// Whether `stripped` is `result` without the engine's own notes: where
/// `result` is a mapping, the same entries in the same order but for those
/// under the reserved name; anything else, unchanged.
pub open spec fn is_without_sidecar(result: Annotated, stripped: Annotated) -> bool {
    &&& stripped.meta == result.meta
    &&& match result.value {
        Some(Value::Object(entries)) => stripped.value matches Some(Value::Object(kept))
            && kept@ == without_key(entries@, sidecar_key()),
        _ => stripped.value == result.value,
    }
}

/// The position of the first entry named `key`.
pub fn find_entry(entries: &Vec<(String, Annotated)>, key: &String) -> (found: Option<usize>)
    ensures
        match found {
            Some(i) => entry_index(entries@, key@) == Some(i as int) && i < entries.len(),
            None => entry_index(entries@, key@) is None,
        },
{
    let ghost names = entry_names(entries@);
    let mut i: usize = 0;
    while i < entries.len()
        invariant
            i <= entries.len(),
            names == entry_names(entries@),
            forall|j: int| 0 <= j < i ==> #[trigger] names[j] != key@,
        decreases entries.len() - i,
    {
        if entries[i].0 == *key {
            proof {
                lemma_first_index_of_is(names, key@, i as int);
            }
            return Some(i);
        }
        i += 1;
    }
    proof {
        lemma_first_index_of_is(names, key@, i as int);
    }
    None
}

/// Looks up the node that `path` addresses in `value`. The segments of the
/// path are separated by `.`; each names an entry of a mapping or, below a
/// sequence, the index of an element. A path that names nothing, an empty
/// segment among them, finds nothing.
pub fn get_value_by_path<'a>(value: &'a Annotated, path: &str) -> (found: Option<&'a Annotated>)
    ensures
        match found {
            Some(node) => resolve(*value, path@) == Some(*node),
            None => resolve(*value, path@) is None,
        },
{
    let chars = chars_of(path);
    let mut node: &Annotated = value;
    let mut start: usize = 0;
    assert(chars@.skip(0) =~= path@);
    loop
        invariant
            chars@ == path@,
            start <= chars.len(),
            resolve(*value, path@) == resolve(*node, chars@.skip(start as int)),
        decreases chars.len() - start,
    {
        let ghost rest = chars@.skip(start as int);
        let remaining: usize = chars.len() - start;
        if remaining == 0 || (remaining == 1 && chars[start] == '.') {
            assert(is_root_path(rest));
            return Some(node);
        }
        assert(!is_root_path(rest));
        let end: usize = segment_end(&chars, start);
        assert(first_segment(rest) =~= chars@.subrange(start as int, end as int));
        if end == start {
            return None;
        }
        let below: &Annotated = match &node.value {
            Some(Value::Array(items)) => {
                match parse_index_in(&chars, start, end) {
                    Some(i) => {
                        if i < items.len() {
                            &items[i]
                        } else {
                            return None;
                        }
                    },
                    None => {
                        return None;
                    },
                }
            },
            Some(Value::Object(entries)) => {
                let segment: String = path.substring_char(start, end).to_owned();
                match find_entry(entries, &segment) {
                    Some(i) => &entries[i].1,
                    None => {
                        return None;
                    },
                }
            },
            _ => {
                return None;
            },
        };
        assert(child(*node, first_segment(rest)) == Some(*below));
        if end < chars.len() {
            assert(rest.skip(segment_len(rest) as int + 1) =~= chars@.skip(end as int + 1));
            node = below;
            start = end + 1;
        } else {
            return Some(below);
        }
    }
}

/// The bits by which a floating-point number is told from others.
pub fn float_key_of(bits: u64) -> (key: u64)
    ensures
        key == float_key(bits),
{
    if bits == 0x8000_0000_0000_0000u64 {
        0u64
    } else {
        bits
    }
}

/// Whether two raw values have the same shape, the notes on the nodes below
/// them left aside.
pub fn same_value(a: &Value, b: &Value) -> (same: bool)
    ensures
        same == (a@ == b@),
    decreases a, 0nat,
{
    match a {
        Value::Null => match b {
            Value::Null => true,
            _ => false,
        },
        Value::Bool(x) => match b {
            Value::Bool(y) => *x == *y,
            _ => false,
        },
        Value::I64(x) => match b {
            Value::I64(y) => *x == *y,
            _ => false,
        },
        Value::U64(x) => match b {
            Value::U64(y) => *x == *y,
            _ => false,
        },
        Value::Float(x) => match b {
            Value::Float(y) => float_key_of(*x) == float_key_of(*y),
            _ => false,
        },
        Value::String(x) => match b {
            Value::String(y) => *x == *y,
            _ => false,
        },
        Value::Array(xs) => match b {
            Value::Array(ys) => {
                if xs.len() != ys.len() {
                    assert(a@->Array_0.len() != b@->Array_0.len());
                    return false;
                }
                let mut i: usize = 0;
                while i < xs.len()
                    invariant
                        i <= xs.len(),
                        xs.len() == ys.len(),
                        a is Array && a->Array_0 == xs,
                        b is Array && b->Array_0 == ys,
                        forall|j: int| 0 <= j < i ==> xs@[j]@ == ys@[j]@,
                    decreases xs.len() - i,
                {
                    if !same_raw_value(&xs[i], &ys[i]) {
                        assert(a@->Array_0[i as int] != b@->Array_0[i as int]);
                        return false;
                    }
                    i += 1;
                }
                assert(a@->Array_0 =~= b@->Array_0);
                true
            },
            _ => false,
        },
        Value::Object(xs) => match b {
            Value::Object(ys) => {
                if xs.len() != ys.len() {
                    assert(a@->Object_0.len() != b@->Object_0.len());
                    return false;
                }
                let mut i: usize = 0;
                while i < xs.len()
                    invariant
                        i <= xs.len(),
                        xs.len() == ys.len(),
                        a is Object && a->Object_0 == xs,
                        b is Object && b->Object_0 == ys,
                        forall|j: int|
                            0 <= j < i ==> xs@[j].0@ == ys@[j].0@ && xs@[j].1@ == ys@[j].1@,
                    decreases xs.len() - i,
                {
                    if !(xs[i].0 == ys[i].0) || !same_raw_value(&xs[i].1, &ys[i].1) {
                        assert(a@->Object_0[i as int] != b@->Object_0[i as int]);
                        return false;
                    }
                    i += 1;
                }
                assert(a@->Object_0 =~= b@->Object_0);
                true
            },
            _ => false,
        },
    }
}

/// Whether two nodes have the same raw value: both none, or both one of the
/// same shape. The notes on the nodes play no part.
pub fn same_raw_value(a: &Annotated, b: &Annotated) -> (same: bool)
    ensures
        same == (a@ == b@),
    decreases a, 1nat,
{
    match &a.value {
        Some(x) => match &b.value {
            Some(y) => same_value(x, y),
            None => false,
        },
        None => b.value.is_none(),
    }
}

/// Whether two lookups found the same raw value. A lookup that found no node
/// and one that found a node without a raw value both found none.
pub fn same_found(a: Option<&Annotated>, b: Option<&Annotated>) -> (same: bool)
    ensures
        same == (raw_of(a) == raw_of(b)),
{
    match a {
        Some(x) => match b {
            Some(y) => same_raw_value(x, y),
            None => x.value.is_none(),
        },
        None => match b {
            Some(y) => y.value.is_none(),
            None => true,
        },
    }
}

/// Takes the engine's own notes out of its result: where the document is a
/// mapping, every entry under the reserved name leaves it. Anything else is
/// handed back as it came.
pub fn strip_sidecar(result: Annotated) -> (stripped: Annotated)
    ensures
        is_without_sidecar(result, stripped),
{
    let Annotated { value, meta } = result;
    match value {
        Some(Value::Object(mut entries)) => {
            let reserved: String = "_meta".to_owned();
            let ghost given = entries@;
            let mut i: usize = 0;
            assert(entries@.skip(0) =~= given);
            assert(entries@.take(0) + without_key(given, sidecar_key()) =~= without_key(
                given,
                sidecar_key(),
            ));
            while i < entries.len()
                invariant
                    i <= entries.len(),
                    reserved@ == sidecar_key(),
                    without_key(given, sidecar_key()) == entries@.take(i as int) + without_key(
                        entries@.skip(i as int),
                        sidecar_key(),
                    ),
                decreases entries.len() - i,
            {
                let ghost before = entries@;
                assert(before.skip(i as int)[0] == before[i as int]);
                if entries[i].0 == reserved {
                    entries.remove(i);
                    assert(entries@.take(i as int) =~= before.take(i as int));
                    assert(entries@.skip(i as int) =~= before.skip(i as int).skip(1));
                } else {
                    assert(before.take(i as int + 1) =~= before.take(i as int) + seq![
                        before[i as int],
                    ]);
                    assert(before.skip(i as int + 1) =~= before.skip(i as int).skip(1));
                    i += 1;
                }
            }
            assert(entries@.take(i as int) =~= entries@);
            assert(entries@.skip(i as int) =~= Seq::empty());
            Annotated { value: Some(Value::Object(entries)), meta }
        },
        other => Annotated { value: other, meta },
    }
}

} // verus!
