//! Where the values of a table stand in the rebuilt document, array
//! segments included.
//!
//! A way leads down through the document segment by segment: through the
//! object at the name of a plain segment, and through the one element of the
//! array at the name of an array segment.  Of a table whose keys part from
//! one another at a name, the document holds each value at the end of the way
//! of its key, and at every array segment on the way an array of exactly one
//! element, however many keys share the segment.

use crate::composite_objects::{insert_nested, reconstruct, single_item, Rows};
use crate::json::{lemma_key_position, lemma_put, lookup, put, Entries, JsonModel, MemberModel};
use crate::path_key::{is_array_segment, lemma_split_some, segment_name};
use crate::reconstruct_laws::{
    comparable, lemma_comparable_rest, plain_path, row_path, separate,
};
use vstd::prelude::*;

verus! {

/// Whether the value is what a segment that is not the last of its key leads
/// through: an object at a plain segment, an array of exactly one element
/// that is an object at an array segment.
pub open spec fn fits(value: JsonModel, segment: Seq<char>) -> bool {
    if is_array_segment(segment) {
        value matches JsonModel::Array(items) && items.len() == 1 && items[0] is Object
    } else {
        value is Object
    }
}

/// The entries into which a way goes on through a value.
pub open spec fn inner_of(value: JsonModel) -> Entries {
    match value {
        JsonModel::Object(entries) => entries,
        JsonModel::Array(items) => match items[0] {
            JsonModel::Object(entries) => entries,
            _ => Seq::empty(),
        },
        _ => Seq::empty(),
    }
}

/// The value at the end of the way `path`: the last segment gives the value
/// at its name, and every segment before it leads through what fits it.
pub open spec fn reach(doc: Entries, path: Seq<Seq<char>>) -> Option<JsonModel>
    decreases path.len(),
{
    if path.len() == 0 {
        None
    } else {
        match lookup(doc, segment_name(path[0])) {
            None => None,
            Some(value) => if path.len() == 1 {
                Some(value)
            } else if fits(value, path[0]) {
                reach(inner_of(value), path.skip(1))
            } else {
                None
            },
        }
    }
}

/// How two ways stand to one another.
pub enum Relation {
    /// As far as both go they go by the same names, through the same kinds
    /// of segments.
    Follows,
    /// They part at a name, after going together.
    Parts,
    /// They go by the same names, and at one of them one goes through an
    /// array and the other through an object.
    Clashes,
}

/// How the way `x` stands to the way `p`.
pub open spec fn relation(x: Seq<Seq<char>>, p: Seq<Seq<char>>) -> Relation
    decreases x.len(),
{
    if x.len() == 0 || p.len() == 0 {
        Relation::Follows
    } else if segment_name(x[0]) != segment_name(p[0]) {
        Relation::Parts
    } else if x.len() == 1 || p.len() == 1 {
        Relation::Follows
    } else if is_array_segment(x[0]) != is_array_segment(p[0]) {
        Relation::Clashes
    } else {
        relation(x.skip(1), p.skip(1))
    }
}

/// Whether the ways of the rows part from one another, each two of them at a
/// name.
pub open spec fn apart(rows: Rows) -> bool {
    forall|i: int, j: int|
        0 <= i < rows.len() && 0 <= j < rows.len() && i != j ==> relation(
            #[trigger] row_path(rows, i),
            #[trigger] row_path(rows, j),
        ) == Relation::Parts
}

/// Whether on the way `path`, before its end, the object holds nothing or
/// what fits the segment.
pub open spec fn open_way(doc: Entries, path: Seq<Seq<char>>) -> bool {
    forall|n: int|
        0 < n < path.len() ==> (#[trigger] reach(doc, path.take(n))) is None || fits(
            reach(doc, path.take(n))->0,
            path[n - 1],
        )
}

/// Whether the value found at the end of the way `x` is accounted for by the
/// row at place `r`: the way follows that of the row, and where it ends
/// before it, the value fits the segment of the row at which it ends.
pub open spec fn kept_by(rows: Rows, r: int, x: Seq<Seq<char>>, found: JsonModel) -> bool {
    &&& 0 <= r < rows.len()
    &&& relation(x, row_path(rows, r)) == Relation::Follows
    &&& x.len() < row_path(rows, r).len() ==> fits(found, row_path(rows, r)[x.len() - 1])
}

/// Whether everything in the object is accounted for by a row.
pub open spec fn all_kept(rows: Rows, doc: Entries) -> bool {
    forall|x: Seq<Seq<char>>|
        (#[trigger] reach(doc, x)) is Some ==> exists|r: int| kept_by(rows, r, x, reach(doc, x)->0)
}

/// Nothing stands in an object without entries.
pub proof fn lemma_reach_empty(path: Seq<Seq<char>>)
    ensures
        reach(Seq::<MemberModel>::empty(), path) is None,
{
    if path.len() > 0 {
        lemma_key_position(Seq::<MemberModel>::empty(), segment_name(path[0]));
    }
}

/// A way that reaches a value leads, before its end, through what fits its
/// segments: at every array segment before the last the document holds an
/// array of exactly one element.
pub proof fn lemma_reach_through(doc: Entries, path: Seq<Seq<char>>, n: int)
    requires
        reach(doc, path) is Some,
        0 < n < path.len(),
    ensures
        reach(doc, path.take(n)) is Some,
        fits(reach(doc, path.take(n))->0, path[n - 1]),
    decreases n,
{
    let shorter = path.take(n);
    let value = lookup(doc, segment_name(path[0]))->0;
    assert(shorter[0] == path[0]);
    if n > 1 {
        lemma_reach_through(inner_of(value), path.skip(1), n - 1);
        assert(shorter.skip(1) =~= path.skip(1).take(n - 1));
    }
}

/// A way that follows the beginning of another, and ends no later than that
/// beginning does, follows the other.
pub proof fn lemma_follows_longer(x: Seq<Seq<char>>, p: Seq<Seq<char>>, n: int)
    requires
        0 < n <= p.len(),
        0 < x.len() <= n,
        relation(p.take(n), x) == Relation::Follows,
    ensures
        relation(p, x) == Relation::Follows,
    decreases n,
{
    let shorter = p.take(n);
    assert(shorter[0] == p[0]);
    if x.len() > 1 && p.len() > 1 {
        assert(n > 1);
        assert(shorter.skip(1) =~= p.skip(1).take(n - 1));
        lemma_follows_longer(x.skip(1), p.skip(1), n - 1);
    }
}

/// Two ways that part, the beginning of the one following the other beyond
/// its end: at the end of that beginning both go through the same kind of
/// segment.
pub proof fn lemma_parts_later(x: Seq<Seq<char>>, p: Seq<Seq<char>>, n: int)
    requires
        0 < n < p.len(),
        n < x.len(),
        relation(p.take(n), x) == Relation::Follows,
        relation(p, x) == Relation::Parts,
    ensures
        is_array_segment(p[n - 1]) == is_array_segment(x[n - 1]),
    decreases n,
{
    let shorter = p.take(n);
    assert(shorter[0] == p[0]);
    if n > 1 {
        assert(shorter.skip(1) =~= p.skip(1).take(n - 1));
        lemma_parts_later(x.skip(1), p.skip(1), n - 1);
    }
}

/// Inserting along a way that is open puts the value at the end of the way
/// and what fits each segment before the end at that segment; it leaves
/// alone what stands on the ways that part from it, and nothing stands on a
/// way that clashes with it.
pub proof fn lemma_insert_reach(doc: Entries, path: Seq<Seq<char>>, value: JsonModel)
    requires
        path.len() > 0,
        open_way(doc, path),
    ensures
        reach(insert_nested(doc, path, value), path) == Some(value),
        forall|x: Seq<Seq<char>>|
            relation(x, path) == Relation::Parts ==> #[trigger] reach(
                insert_nested(doc, path, value),
                x,
            ) == reach(doc, x),
        forall|x: Seq<Seq<char>>|
            relation(x, path) == Relation::Clashes ==> (#[trigger] reach(
                insert_nested(doc, path, value),
                x,
            )) is None,
        forall|x: Seq<Seq<char>>|
            relation(x, path) == Relation::Follows && 0 < x.len() < path.len() ==> (#[trigger] reach(
                insert_nested(doc, path, value),
                x,
            )) is Some && fits(reach(insert_nested(doc, path, value), x)->0, path[x.len() - 1]),
    decreases path.len(),
{
    let after = insert_nested(doc, path, value);
    let name = segment_name(path[0]);
    let rest = path.skip(1);
    lemma_key_position(doc, name);
    if path.len() == 1 {
        lemma_put(doc, name, value);
        assert forall|x: Seq<Seq<char>>| relation(x, path) == Relation::Parts implies #[trigger] reach(
            after,
            x,
        ) == reach(doc, x) by {
            assert(segment_name(x[0]) != name);
        }
    } else {
        let empty = Seq::<MemberModel>::empty();
        let first = path.take(1);
        assert(first[0] == path[0]);
        assert(reach(doc, first) == lookup(doc, name));
        let inner = match lookup(doc, name) {
            Some(held) => inner_of(held),
            None => empty,
        };
        assert(lookup(doc, name) is Some ==> fits(lookup(doc, name)->0, path[0]));
        let filled = insert_nested(inner, rest, value);
        let holder = if is_array_segment(path[0]) {
            single_item(filled)
        } else {
            JsonModel::Object(filled)
        };
        assert(after == put(doc, name, holder)) by {
            if is_array_segment(path[0]) {
                if let Some(JsonModel::Array(items)) = lookup(doc, name) {
                    assert(items.update(0, JsonModel::Object(filled)) =~= seq![
                        JsonModel::Object(filled),
                    ]);
                }
            }
        }
        assert(fits(holder, path[0]));
        assert(inner_of(holder) == filled);
        lemma_put(doc, name, holder);
        assert(open_way(inner, rest)) by {
            assert forall|n: int| 0 < n < rest.len() implies (#[trigger] reach(
                inner,
                rest.take(n),
            )) is None || fits(reach(inner, rest.take(n))->0, rest[n - 1]) by {
                if lookup(doc, name) is None {
                    lemma_reach_empty(rest.take(n));
                } else {
                    let longer = path.take(n + 1);
                    assert(longer[0] == path[0]);
                    assert(longer.skip(1) =~= rest.take(n));
                    assert(reach(doc, longer) == reach(inner, rest.take(n)));
                }
            }
        }
        lemma_insert_reach(inner, rest, value);
        assert(reach(after, path) == reach(filled, rest));
        assert forall|x: Seq<Seq<char>>| relation(x, path) == Relation::Parts implies #[trigger] reach(
            after,
            x,
        ) == reach(doc, x) by {
            if segment_name(x[0]) == name {
                assert(relation(x.skip(1), rest) == Relation::Parts);
                assert(fits(holder, x[0]));
                assert(reach(after, x) == reach(filled, x.skip(1)));
                assert(reach(filled, x.skip(1)) == reach(inner, x.skip(1)));
                if lookup(doc, name) is None {
                    lemma_reach_empty(x.skip(1));
                } else {
                    assert(fits(lookup(doc, name)->0, x[0]));
                }
            }
        }
        assert forall|x: Seq<Seq<char>>| relation(x, path) == Relation::Clashes implies (
        #[trigger] reach(after, x)) is None by {
            if is_array_segment(x[0]) == is_array_segment(path[0]) {
                assert(relation(x.skip(1), rest) == Relation::Clashes);
                assert(fits(holder, x[0]));
                assert(reach(after, x) == reach(filled, x.skip(1)));
            } else {
                assert(!fits(holder, x[0]));
            }
        }
        assert forall|x: Seq<Seq<char>>|
            relation(x, path) == Relation::Follows && 0 < x.len() < path.len() implies (
        #[trigger] reach(after, x)) is Some && fits(reach(after, x)->0, path[x.len() - 1]) by {
            if x.len() > 1 {
                assert(relation(x.skip(1), rest) == Relation::Follows);
                assert(fits(holder, x[0]));
                assert(reach(after, x) == reach(filled, x.skip(1)));
                assert(rest[x.len() - 2] == path[x.len() - 1]);
            }
        }
    }
}

/// The document rebuilt from rows whose ways part from one another holds the
/// value of each row at the end of the way of the row, and nothing that is
/// not on the way of a row or inside the value of one.
pub proof fn lemma_reconstruct_apart(rows: Rows)
    requires
        apart(rows),
    ensures
        forall|r: int|
            0 <= r < rows.len() ==> reach(reconstruct(rows), #[trigger] row_path(rows, r)) == Some(
                rows[r].value.json(),
            ),
        all_kept(rows, reconstruct(rows)),
    decreases rows.len(),
{
    if rows.len() == 0 {
        assert forall|x: Seq<Seq<char>>| (#[trigger] reach(reconstruct(rows), x)) is None by {
            lemma_reach_empty(x);
        }
    } else {
        let before = rows.drop_last();
        let last = rows.len() - 1;
        let way = row_path(rows, last);
        let value = rows.last().value.json();
        assert forall|r: int| 0 <= r < before.len() implies row_path(before, r) == row_path(
            rows,
            r,
        ) by {
            assert(before[r] == rows[r]);
        }
        assert(apart(before)) by {
            assert forall|i: int, j: int|
                0 <= i < before.len() && 0 <= j < before.len() && i != j implies relation(
                #[trigger] row_path(before, i),
                #[trigger] row_path(before, j),
            ) == Relation::Parts by {
                assert(relation(row_path(rows, i), row_path(rows, j)) == Relation::Parts);
            }
        }
        lemma_reconstruct_apart(before);
        let doc = reconstruct(before);
        let after = reconstruct(rows);
        assert(after == insert_nested(doc, way, value));
        lemma_split_some(rows.last().key);
        assert(way.len() > 0);
        assert(open_way(doc, way)) by {
            assert forall|n: int| 0 < n < way.len() implies (#[trigger] reach(
                doc,
                way.take(n),
            )) is None || fits(reach(doc, way.take(n))->0, way[n - 1]) by {
                let x = way.take(n);
                if reach(doc, x) is Some {
                    let found = reach(doc, x)->0;
                    let r = choose|r: int| kept_by(before, r, x, found);
                    let other = row_path(rows, r);
                    assert(row_path(before, r) == other);
                    assert(relation(row_path(rows, last), row_path(rows, r)) == Relation::Parts);
                    lemma_split_some(rows[r].key);
                    if other.len() <= n {
                        lemma_follows_longer(other, way, n);
                    } else {
                        lemma_parts_later(other, way, n);
                    }
                }
            }
        }
        lemma_insert_reach(doc, way, value);
        assert forall|r: int| 0 <= r < rows.len() implies reach(
            after,
            #[trigger] row_path(rows, r),
        ) == Some(rows[r].value.json()) by {
            if r < last {
                assert(relation(row_path(rows, r), row_path(rows, last)) == Relation::Parts);
                assert(reach(doc, row_path(before, r)) == Some(before[r].value.json()));
            }
        }
        assert forall|x: Seq<Seq<char>>| (#[trigger] reach(after, x)) is Some implies exists|
            r: int,
        | kept_by(rows, r, x, reach(after, x)->0) by {
            let found = reach(after, x)->0;
            match relation(x, way) {
                Relation::Follows => {
                    assert(kept_by(rows, last, x, found));
                },
                Relation::Parts => {
                    assert(reach(doc, x) == Some(found));
                    let r = choose|r: int| kept_by(before, r, x, found);
                    assert(row_path(before, r) == row_path(rows, r));
                    assert(kept_by(rows, r, x, found));
                },
                Relation::Clashes => {},
            }
        }
    }
}

/// Of a table whose ways part from one another, the rebuilt document holds
/// at every array segment of every key that is not the last of the key an
/// array of exactly one element, an object, however many keys share the
/// segment; and it holds the value of every row at the end of its way
/// through these objects and arrays.
pub proof fn lemma_marked_arrays(rows: Rows, r: int, n: int)
    requires
        apart(rows),
        0 <= r < rows.len(),
        0 <= n < row_path(rows, r).len() - 1,
        is_array_segment(row_path(rows, r)[n]),
    ensures
        reach(reconstruct(rows), row_path(rows, r)) == Some(rows[r].value.json()),
        reach(reconstruct(rows), row_path(rows, r).take(n + 1)) matches Some(
            JsonModel::Array(items),
        ) && items.len() == 1 && items[0] is Object,
{
    lemma_reconstruct_apart(rows);
    lemma_reach_through(reconstruct(rows), row_path(rows, r), n + 1);
}

/// A way that follows another and ends no later reaches what the beginning
/// of the other of its length reaches: only the names and the kinds of the
/// segments before the last count.
pub proof fn lemma_reach_follows(doc: Entries, x: Seq<Seq<char>>, p: Seq<Seq<char>>)
    requires
        0 < x.len() <= p.len(),
        relation(x, p) == Relation::Follows,
    ensures
        reach(doc, x) == reach(doc, p.take(x.len() as int)),
    decreases x.len(),
{
    let shorter = p.take(x.len() as int);
    assert(shorter[0] == p[0]);
    if x.len() > 1 {
        assert(shorter.skip(1) =~= p.skip(1).take(x.len() - 1));
        if let Some(value) = lookup(doc, segment_name(x[0])) {
            lemma_reach_follows(inner_of(value), x.skip(1), p.skip(1));
        }
    }
}

/// What a way reaches beyond a value: what it reaches inside the value,
/// where the value fits the segment at which the way goes into it.
pub open spec fn reach_below(value: JsonModel, x: Seq<Seq<char>>, at: int) -> Option<JsonModel> {
    if fits(value, x[at - 1]) {
        reach(inner_of(value), x.skip(at))
    } else {
        None
    }
}

/// A way that follows another and goes on beyond its end reaches what it
/// reaches inside the value at the end of the other.
pub proof fn lemma_reach_beyond(doc: Entries, x: Seq<Seq<char>>, p: Seq<Seq<char>>)
    requires
        0 < p.len() < x.len(),
        relation(x, p) == Relation::Follows,
    ensures
        reach(doc, x) == match reach(doc, p) {
            Some(value) => reach_below(value, x, p.len() as int),
            None => None,
        },
    decreases p.len(),
{
    if p.len() > 1 {
        if let Some(value) = lookup(doc, segment_name(x[0])) {
            lemma_reach_beyond(inner_of(value), x.skip(1), p.skip(1));
            assert(x.skip(1).skip(p.len() - 1) =~= x.skip(p.len() as int));
        }
    }
}

/// Whether every row of the first table is a row of the second.
pub open spec fn rows_among(rows: Rows, other: Rows) -> bool {
    forall|i: int| 0 <= i < rows.len() ==> exists|j: int| 0 <= j < other.len() && other[j] == #[trigger] rows[i]
}

/// What the document of one table holds at the end of a way, the document
/// of a table with the same rows holds too.
proof fn lemma_order_one_way(rows: Rows, other: Rows, x: Seq<Seq<char>>)
    requires
        apart(rows),
        apart(other),
        rows_among(rows, other),
        reach(reconstruct(rows), x) is Some,
    ensures
        reach(reconstruct(other), x) is Some,
        exists|r: int|
            0 <= r < rows.len() && relation(x, row_path(rows, r)) == Relation::Follows && (x.len()
                >= row_path(rows, r).len() ==> reach(reconstruct(rows), x) == reach(
                reconstruct(other),
                x,
            )),
{
    let first = reconstruct(rows);
    let second = reconstruct(other);
    lemma_reconstruct_apart(rows);
    lemma_reconstruct_apart(other);
    let r = choose|r: int| kept_by(rows, r, x, reach(first, x)->0);
    let way = row_path(rows, r);
    let j = choose|j: int| 0 <= j < other.len() && other[j] == rows[r];
    assert(row_path(other, j) == way);
    assert(reach(first, way) == Some(rows[r].value.json()));
    assert(reach(second, way) == Some(rows[r].value.json()));
    lemma_split_some(rows[r].key);
    if x.len() < way.len() {
        lemma_reach_follows(second, x, way);
        lemma_reach_through(second, way, x.len() as int);
    } else if x.len() == way.len() {
        lemma_reach_follows(first, x, way);
        lemma_reach_follows(second, x, way);
        assert(way.take(x.len() as int) =~= way);
    } else {
        lemma_reach_beyond(first, x, way);
        lemma_reach_beyond(second, x, way);
    }
}

/// The order of the rows does not count: of two tables with the same rows,
/// whose ways part from one another, the rebuilt documents hold something at
/// the end of the same ways, and the same value wherever a way leads to the
/// value of a row or into it.  The documents differ at most in the order of
/// the entries of their objects.
pub proof fn lemma_order_of_rows(rows: Rows, other: Rows)
    requires
        apart(rows),
        apart(other),
        rows_among(rows, other),
        rows_among(other, rows),
    ensures
        forall|x: Seq<Seq<char>>|
            (#[trigger] reach(reconstruct(rows), x)) is Some <==> reach(reconstruct(other), x)
                is Some,
        forall|r: int|
            0 <= r < rows.len() ==> reach(reconstruct(rows), #[trigger] row_path(rows, r)) == reach(
                reconstruct(other),
                row_path(rows, r),
            ),
        forall|x: Seq<Seq<char>>, r: int|
            0 <= r < rows.len() && row_path(rows, r).len() <= x.len() && #[trigger] relation(
                x,
                row_path(rows, r),
            ) == Relation::Follows ==> reach(reconstruct(rows), x) == reach(reconstruct(other), x),
{
    let first = reconstruct(rows);
    let second = reconstruct(other);
    lemma_reconstruct_apart(rows);
    lemma_reconstruct_apart(other);
    assert forall|x: Seq<Seq<char>>| (#[trigger] reach(first, x)) is Some <==> reach(second, x)
        is Some by {
        if reach(first, x) is Some {
            lemma_order_one_way(rows, other, x);
        }
        if reach(second, x) is Some {
            lemma_order_one_way(other, rows, x);
        }
    }
    assert forall|x: Seq<Seq<char>>, r: int|
        0 <= r < rows.len() && row_path(rows, r).len() <= x.len() && #[trigger] relation(
            x,
            row_path(rows, r),
        ) == Relation::Follows implies reach(first, x) == reach(second, x) by {
        let way = row_path(rows, r);
        let j = choose|j: int| 0 <= j < other.len() && other[j] == rows[r];
        assert(row_path(other, j) == way);
        lemma_split_some(rows[r].key);
        if x.len() == way.len() {
            lemma_reach_follows(first, x, way);
            lemma_reach_follows(second, x, way);
            assert(way.take(x.len() as int) =~= way);
        } else {
            lemma_reach_beyond(first, x, way);
            lemma_reach_beyond(second, x, way);
        }
    }
    assert forall|r: int| 0 <= r < rows.len() implies reach(first, #[trigger] row_path(rows, r))
        == reach(second, row_path(rows, r)) by {
        let j = choose|j: int| 0 <= j < other.len() && other[j] == rows[r];
        assert(row_path(other, j) == row_path(rows, r));
    }
}

/// Two ways of plain segments of which neither is the beginning of the
/// other part at a name.
pub proof fn lemma_plain_ways_part(p: Seq<Seq<char>>, q: Seq<Seq<char>>)
    requires
        plain_path(p),
        plain_path(q),
        !comparable(p, q),
    ensures
        relation(p, q) == Relation::Parts,
    decreases p.len(),
{
    assert(!is_array_segment(p[0]) && !is_array_segment(q[0]));
    if p[0] == q[0] {
        if p.len() == 1 {
            assert(q.take(1) =~= p);
        } else if q.len() == 1 {
            assert(p.take(1) =~= q);
        } else {
            let rest_p = p.skip(1);
            let rest_q = q.skip(1);
            assert(plain_path(rest_p)) by {
                assert forall|i: int| 0 <= i < rest_p.len() implies !is_array_segment(
                    #[trigger] rest_p[i],
                ) by {
                    assert(rest_p[i] == p[i + 1]);
                }
            }
            assert(plain_path(rest_q)) by {
                assert forall|i: int| 0 <= i < rest_q.len() implies !is_array_segment(
                    #[trigger] rest_q[i],
                ) by {
                    assert(rest_q[i] == q[i + 1]);
                }
            }
            lemma_comparable_rest(p, q);
            lemma_plain_ways_part(rest_p, rest_q);
        }
    }
}

/// The rows of a table whose ways are of plain segments, none the beginning
/// of another, part from one another.
pub proof fn lemma_separate_apart(rows: Rows)
    requires
        separate(rows),
    ensures
        apart(rows),
{
    assert forall|i: int, j: int|
        0 <= i < rows.len() && 0 <= j < rows.len() && i != j implies relation(
        #[trigger] row_path(rows, i),
        #[trigger] row_path(rows, j),
    ) == Relation::Parts by {
        lemma_plain_ways_part(row_path(rows, i), row_path(rows, j));
    }
}

} // verus!
