//! Paths and names as sequences of characters: the segments of a dotted path,
//! a decimal index, and the small string operations the rest of the library
//! is built from.

use vstd::prelude::*;

verus! {

/// What each of the strings holds, one for one.
pub open spec fn texts(names: Seq<String>) -> Seq<Seq<char>> {
    Seq::new(names.len(), |i: int| names[i]@)
}

/// The separator between the segments of a path.
pub open spec fn is_separator(c: char) -> bool {
    c == '.'
}

/// The number of characters of `path` that stand before its first separator:
/// all of them where it holds none.
pub open spec fn segment_len(path: Seq<char>) -> nat
    decreases path.len(),
{
    if path.len() == 0 || is_separator(path[0]) {
        0
    } else {
        1 + segment_len(path.skip(1))
    }
}

/// The first segment of `path`: what stands before its first separator.
pub open spec fn first_segment(path: Seq<char>) -> Seq<char> {
    path.take(segment_len(path) as int)
}

/// The last segment of `path`: what follows its last separator, or the whole
/// of it where it holds none.
pub open spec fn last_segment(path: Seq<char>) -> Seq<char>
    decreases path.len(),
{
    if segment_len(path) < path.len() {
        last_segment(path.skip(segment_len(path) as int + 1))
    } else {
        path
    }
}

/// A path that addresses the node it is resolved against: the empty path,
/// and the path made of one separator.
pub open spec fn is_root_path(path: Seq<char>) -> bool {
    path.len() == 0 || (path.len() == 1 && is_separator(path[0]))
}

/// A prefix that holds no separator and is followed by one, or reaches the
/// end of the path, is the first segment.
pub proof fn lemma_segment_len_is(path: Seq<char>, n: int)
    requires
        0 <= n <= path.len(),
        forall|i: int| 0 <= i < n ==> !is_separator(#[trigger] path[i]),
        n < path.len() ==> is_separator(path[n]),
    ensures
        segment_len(path) == n,
    decreases path.len(),
{
    if n == 0 {
    } else {
        let tail = path.skip(1);
        assert(!is_separator(path[0]));
        assert forall|i: int| 0 <= i < n - 1 implies !is_separator(#[trigger] tail[i]) by {
            assert(tail[i] == path[i + 1]);
        }
        if n - 1 < tail.len() {
            assert(tail[n - 1] == path[n]);
        }
        lemma_segment_len_is(tail, n - 1);
    }
}

/// A segment that names a node: one character or more, none of them a
/// separator.
pub open spec fn is_segment(segment: Seq<char>) -> bool {
    segment.len() > 0 && forall|i: int| 0 <= i < segment.len() ==> !is_separator(
        #[trigger] segment[i],
    )
}

/// A path made of segments that each name a node, with one separator between
/// any two of them, and nothing else. The empty path is one.
pub open spec fn is_plain_path(path: Seq<char>) -> bool
    decreases path.len(),
{
    if path.len() == 0 {
        true
    } else if segment_len(path) == 0 {
        false
    } else if segment_len(path) < path.len() {
        segment_len(path) + 1 < path.len() && is_plain_path(
            path.skip(segment_len(path) as int + 1),
        )
    } else {
        true
    }
}

/// The path of the node that `segment` names below the node at `path`.
pub open spec fn joined_path(path: Seq<char>, segment: Seq<char>) -> Seq<char> {
    if path.len() == 0 {
        segment
    } else {
        path + seq!['.'] + segment
    }
}

/// The first segment ends within the path.
pub proof fn lemma_segment_len_bound(path: Seq<char>)
    ensures
        segment_len(path) <= path.len(),
    decreases path.len(),
{
    if path.len() > 0 && !is_separator(path[0]) {
        lemma_segment_len_bound(path.skip(1));
    }
}

/// The first segment of a path stays its first segment when more follows
/// the path behind a separator.
pub proof fn lemma_segment_len_of_joined(path: Seq<char>, segment: Seq<char>)
    requires
        path.len() > 0,
    ensures
        segment_len(joined_path(path, segment)) == segment_len(path),
    decreases path.len(),
{
    let joined = joined_path(path, segment);
    if is_separator(path[0]) {
        assert(joined[0] == path[0]);
    } else {
        assert(joined[0] == path[0]);
        let tail = path.skip(1);
        if tail.len() == 0 {
            assert(joined.skip(1)[0] == '.');
            assert(segment_len(joined.skip(1)) == 0);
            assert(segment_len(tail) == 0);
        } else {
            assert(joined.skip(1) =~= joined_path(tail, segment));
            lemma_segment_len_of_joined(tail, segment);
        }
        assert(segment_len(joined) == 1 + segment_len(joined.skip(1)));
        assert(segment_len(path) == 1 + segment_len(tail));
    }
}

/// The value of a decimal digit, and nothing for any other character.
pub open spec fn digit_value(c: char) -> Option<nat> {
    if '0' <= c <= '9' {
        Some((c as nat - '0' as nat) as nat)
    } else {
        None
    }
}

/// Every character is a decimal digit.
pub open spec fn all_digits(digits: Seq<char>) -> bool {
    forall|i: int| 0 <= i < digits.len() ==> (#[trigger] digit_value(digits[i])) is Some
}

/// The number that a run of decimal digits writes, the first digit weighing
/// most.
pub open spec fn decimal_value(digits: Seq<char>) -> nat
    decreases digits.len(),
{
    if digits.len() == 0 {
        0
    } else {
        10 * decimal_value(digits.drop_last()) + match digit_value(digits.last()) {
            Some(d) => d,
            None => 0,
        }
    }
}

/// The digits of an index segment: the segment itself, less one leading `+`.
pub open spec fn index_digits(segment: Seq<char>) -> Seq<char> {
    if segment.len() > 0 && segment[0] == '+' {
        segment.skip(1)
    } else {
        segment
    }
}

/// The index that a segment writes: one or more decimal digits, which a
/// single `+` may precede. Any other segment writes none.
pub open spec fn parse_index(segment: Seq<char>) -> Option<nat> {
    let digits = index_digits(segment);
    if digits.len() > 0 && all_digits(digits) {
        Some(decimal_value(digits))
    } else {
        None
    }
}

/// A longer run of digits never writes a smaller number than its prefix.
pub proof fn lemma_decimal_value_grows(digits: Seq<char>, n: int)
    requires
        0 <= n <= digits.len(),
    ensures
        decimal_value(digits.take(n)) <= decimal_value(digits),
    decreases digits.len() - n,
{
    if n == digits.len() {
        assert(digits.take(n) =~= digits);
    } else {
        lemma_decimal_value_grows(digits, n + 1);
        assert(digits.take(n + 1).drop_last() =~= digits.take(n));
    }
}

/// The characters of `s`, in order.
pub fn chars_of(s: &str) -> (chars: Vec<char>)
    ensures
        chars@ == s@,
{
    let mut chars: Vec<char> = Vec::new();
    for c in it: s.chars()
        invariant
            it.seq() == s@,
            chars@ == s@.take(it.index() as int),
    {
        chars.push(c);
    }
    chars
}

/// Where the segment that starts at `start` ends: the position of the next
/// separator, or the length of the path.
pub fn segment_end(path: &Vec<char>, start: usize) -> (end: usize)
    requires
        start <= path.len(),
    ensures
        start <= end <= path.len(),
        end - start == segment_len(path@.skip(start as int)),
{
    let mut end: usize = start;
    while end < path.len() && path[end] != '.'
        invariant
            start <= end <= path.len(),
            forall|i: int| start <= i < end ==> !is_separator(#[trigger] path@[i]),
        decreases path.len() - end,
    {
        end += 1;
    }
    proof {
        let rest = path@.skip(start as int);
        assert forall|i: int| 0 <= i < end - start implies !is_separator(#[trigger] rest[i]) by {
            assert(rest[i] == path@[start + i]);
        }
        lemma_segment_len_is(rest, end - start);
    }
    end
}

/// The index written by the characters of `path` from `start` up to `end`.
/// `None` where they write no index, or one that no `usize` holds.
pub fn parse_index_in(path: &Vec<char>, start: usize, end: usize) -> (index: Option<usize>)
    requires
        start <= end <= path.len(),
    ensures
        match index {
            Some(i) => parse_index(path@.subrange(start as int, end as int)) == Some(i as nat),
            None => match parse_index(path@.subrange(start as int, end as int)) {
                Some(n) => n > usize::MAX,
                None => true,
            },
        },
{
    let ghost segment = path@.subrange(start as int, end as int);
    let first: usize = if start < end && path[start] == '+' {
        start + 1
    } else {
        start
    };
    let ghost digits = index_digits(segment);
    assert(digits =~= path@.subrange(first as int, end as int));
    if first == end {
        return None;
    }
    let mut value: usize = 0;
    let mut i: usize = first;
    while i < end
        invariant
            first <= i <= end <= path.len(),
            segment == path@.subrange(start as int, end as int),
            digits == index_digits(segment),
            digits.len() > 0,
            digits == path@.subrange(first as int, end as int),
            all_digits(digits.take(i - first)),
            value == decimal_value(digits.take(i - first)),
        decreases end - i,
    {
        let c: char = path[i];
        assert(c == digits[i - first]);
        if c < '0' || c > '9' {
            assert(digit_value(digits[i - first]) is None);
            return None;
        }
        let d: usize = (c as u32 - '0' as u32) as usize;
        proof {
            let next = digits.take(i - first + 1);
            assert(next.drop_last() =~= digits.take(i - first));
            assert(next.last() == c);
            assert(digit_value(c) == Some(d as nat));
            assert(decimal_value(next) == 10 * value + d);
            assert forall|k: int| 0 <= k < next.len() implies (#[trigger] digit_value(
                next[k],
            )) is Some by {
                if k < i - first {
                    assert(next[k] == digits.take(i - first)[k]);
                }
            }
        }
        if value > (usize::MAX - d) / 10 {
            proof {
                lemma_decimal_value_grows(digits, i - first + 1);
                if all_digits(digits) {
                    assert(decimal_value(digits) > usize::MAX);
                }
            }
            return None;
        }
        value = value * 10 + d;
        i += 1;
    }
    assert(digits.take(end - first) =~= digits);
    Some(value)
}

/// Whether the two strings hold the same characters.
pub fn same_text(a: &str, b: &String) -> (same: bool)
    ensures
        same == (a@ == b@),
{
    let owned = a.to_owned();
    owned == *b
}

/// Whether `name` is among `names`.
pub fn holds_text(names: &Vec<String>, name: &String) -> (held: bool)
    ensures
        held == texts(names@).contains(name@),
{
    let mut i: usize = 0;
    while i < names.len()
        invariant
            i <= names.len(),
            forall|j: int| 0 <= j < i ==> texts(names@)[j] != name@,
        decreases names.len() - i,
    {
        if names[i] == *name {
            assert(texts(names@)[i as int] == name@);
            return true;
        }
        i += 1;
    }
    false
}

/// The path of the node that `segment` names below the node at `path`: the
/// segment alone below the root, and else the path, a separator and the
/// segment.
pub fn path_below(path: &str, segment: &str) -> (below: String)
    ensures
        below@ == joined_path(path@, segment@),
{
    if path.is_empty() {
        segment.to_owned()
    } else {
        let mut below: String = path.to_owned();
        proof {
            reveal_strlit(".");
            assert("."@ =~= seq!['.']);
        }
        below.append(".");
        below.append(segment);
        below
    }
}

} // verus!
