//! Dotted path keys.
//!
//! A key names a leaf of a document by the segments on the way to it,
//! separated by `.`.  A segment that ends in `$array` says that the value at
//! this segment is wrapped in an array of one element; the name of such a
//! segment is what stands before its first `$`.

use crate::first_index::{first_index, lemma_first_index, lemma_first_index_is};
use vstd::prelude::*;
use vstd::string::*;

verus! {

/// The separator of the segments of a key.
pub open spec fn separator() -> char {
    '.'
}

/// The character that starts the array marker.
pub open spec fn marker_start() -> char {
    '$'
}

/// The suffix that marks a segment as an array: `$array`.
pub open spec fn array_marker() -> Seq<char> {
    seq!['$', 'a', 'r', 'r', 'a', 'y']
}

/// The place of the first `c` in `s`, or the length of `s` where it has none.
pub open spec fn find_char(s: Seq<char>, c: char) -> int {
    first_index(s, c)
}

/// The segments of a key: the pieces between its separators.  A key without
/// a separator is one segment, the empty key too.
pub open spec fn split_segments(key: Seq<char>) -> Seq<Seq<char>>
    decreases key.len(),
{
    let dot = find_char(key, separator());
    if 0 <= dot < key.len() {
        seq![key.take(dot)] + split_segments(key.skip(dot + 1))
    } else {
        seq![key]
    }
}

/// Whether a segment carries the array marker.
pub open spec fn is_array_segment(segment: Seq<char>) -> bool {
    segment.len() >= array_marker().len() && segment.skip(segment.len() - array_marker().len())
        == array_marker()
}

/// The name under which a segment's value stands in its parent object: for
/// an array segment what precedes its first `$`, else the whole segment.
pub open spec fn segment_name(segment: Seq<char>) -> Seq<char> {
    if is_array_segment(segment) {
        segment.take(find_char(segment, marker_start()))
    } else {
        segment
    }
}

/// The key of a property below a prefix: the name alone under the empty
/// prefix, else prefix, separator and name.
pub open spec fn child_key(prefix: Seq<char>, name: Seq<char>) -> Seq<char> {
    if prefix.len() == 0 {
        name
    } else {
        prefix + seq![separator()] + name
    }
}

/// The key of the items of an array that stands at `prefix`.
pub open spec fn items_key(prefix: Seq<char>) -> Seq<char> {
    prefix + array_marker()
}

/// A key has at least one segment.
pub proof fn lemma_split_some(key: Seq<char>)
    ensures
        split_segments(key).len() > 0,
{
}

/// The place of the first `c` in `text`, or its length in characters.
pub fn find_char_in(text: &str, c: char) -> (at: usize)
    ensures
        at == find_char(text@, c),
{
    let n = text.unicode_len();
    let mut i: usize = 0;
    while i < n
        invariant
            i <= n,
            n == text@.len(),
            forall|k: int| 0 <= k < i ==> text@[k] != c,
        decreases n - i,
    {
        if text.get_char(i) == c {
            proof {
                lemma_first_index_is(text@, c, i as int);
            }
            return i;
        }
        i += 1;
    }
    proof {
        lemma_first_index_is(text@, c, i as int);
    }
    i
}

/// The views of a vector of strings.
pub open spec fn texts(parts: Seq<String>) -> Seq<Seq<char>> {
    Seq::new(parts.len(), |i: int| parts[i]@)
}

/// Splits a key into its segments.
pub fn split_key(key: &str) -> (segments: Vec<String>)
    ensures
        texts(segments@) == split_segments(key@),
        segments.len() >= 1,
{
    let n = key.unicode_len();
    let mut segments: Vec<String> = Vec::new();
    let mut start: usize = 0;
    let mut i: usize = 0;
    proof {
        assert(key@.skip(0) =~= key@);
        assert(texts(segments@) + split_segments(key@) =~= split_segments(key@));
    }
    while i < n
        invariant
            start <= i <= n,
            n == key@.len(),
            forall|k: int| start <= k < i ==> key@[k] != separator(),
            split_segments(key@) == texts(segments@) + split_segments(key@.skip(start as int)),
        decreases n - i,
    {
        if key.get_char(i) == '.' {
            let piece = String::from_str(key.substring_char(start, i));
            proof {
                let rest = key@.skip(start as int);
                lemma_first_index_is(rest, separator(), i - start);
                assert(rest.take(i - start) =~= key@.subrange(start as int, i as int));
                assert(rest.skip(i - start + 1) =~= key@.skip(i + 1));
                assert(texts(segments@.push(piece)) =~= texts(segments@) + seq![piece@]);
            }
            segments.push(piece);
            start = i + 1;
        }
        i += 1;
    }
    let piece = String::from_str(key.substring_char(start, n));
    proof {
        let rest = key@.skip(start as int);
        lemma_first_index_is(rest, separator(), rest.len() as int);
        assert(rest =~= key@.subrange(start as int, n as int));
        assert(texts(segments@.push(piece)) =~= texts(segments@) + seq![piece@]);
    }
    segments.push(piece);
    segments
}

/// Whether a segment carries the array marker.
pub fn has_array_marker(segment: &str) -> (marked: bool)
    ensures
        marked == is_array_segment(segment@),
{
    let marker = "$array";
    proof {
        reveal_strlit("$array");
        assert(marker@ =~= array_marker());
    }
    let n = segment.unicode_len();
    if n < 6 {
        return false;
    }
    let tail = segment.substring_char(n - 6, n);
    assert(tail@ =~= segment@.skip(segment@.len() - array_marker().len()));
    let mut i: usize = 0;
    while i < 6
        invariant
            i <= 6,
            tail@.len() == 6,
            segment@.len() >= 6,
            tail@ == segment@.skip(segment@.len() - array_marker().len()),
            marker@ == array_marker(),
            forall|k: int| 0 <= k < i ==> tail@[k] == array_marker()[k],
        decreases 6 - i,
    {
        if tail.get_char(i) != marker.get_char(i) {
            assert(tail@[i as int] != array_marker()[i as int]);
            return false;
        }
        i += 1;
    }
    assert(tail@ =~= array_marker());
    true
}

/// The name of a segment and whether the segment is marked as an array.
pub fn segment_parts(segment: &str) -> (parts: (String, bool))
    ensures
        parts.0@ == segment_name(segment@),
        parts.1 == is_array_segment(segment@),
{
    if has_array_marker(segment) {
        let cut = find_char_in(segment, '$');
        proof {
            lemma_first_index(segment@, marker_start());
        }
        let name = String::from_str(segment.substring_char(0, cut));
        (name, true)
    } else {
        (String::from_str(segment), false)
    }
}

/// The key of a property below a prefix.
pub fn make_child_key(prefix: &str, name: &str) -> (key: String)
    ensures
        key@ == child_key(prefix@, name@),
{
    if prefix.unicode_len() == 0 {
        String::from_str(name)
    } else {
        proof {
            reveal_strlit(".");
        }
        let mut key = String::from_str(prefix);
        key.append(".");
        key.append(name);
        assert(key@ =~= child_key(prefix@, name@));
        key
    }
}

/// The key of the items of an array that stands at `prefix`.
pub fn make_items_key(prefix: &str) -> (key: String)
    ensures
        key@ == items_key(prefix@),
{
    proof {
        reveal_strlit("$array");
    }
    let mut key = String::from_str(prefix);
    key.append("$array");
    assert(key@ =~= items_key(prefix@));
    key
}

} // verus!
