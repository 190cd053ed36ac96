//! What holds of the documents that are rebuilt from flat tables.

use crate::composite_objects::{insert_nested, reconstruct, single_item, Rows};
use crate::json::{
    distinct_keys, key_position, lemma_key_position, lemma_put, lookup, put, Entries, JsonModel,
    MemberModel,
};
use crate::path_key::{is_array_segment, segment_name, split_segments};
use vstd::prelude::*;

verus! {

/// Whether every array in the value has exactly one element.
pub open spec fn single_arrays(value: JsonModel) -> bool
    decreases value, 0int,
{
    match value {
        JsonModel::Array(items) => items.len() == 1 && single_arrays(items[0]),
        JsonModel::Object(entries) => members_single(entries, entries.len() as int),
        _ => true,
    }
}

/// Whether every array in the values of the first `count` entries has
/// exactly one element.
pub open spec fn members_single(entries: Entries, count: int) -> bool
    decreases entries, count,
{
    if 0 < count <= entries.len() {
        single_arrays(entries[count - 1].value) && members_single(entries, count - 1)
    } else {
        true
    }
}

/// The entries are checked one by one.
pub proof fn lemma_members_single(entries: Entries, count: int)
    requires
        0 <= count <= entries.len(),
    ensures
        members_single(entries, count) <==> forall|i: int|
            0 <= i < count ==> single_arrays(#[trigger] entries[i].value),
    decreases count,
{
    if count > 0 {
        lemma_members_single(entries, count - 1);
        if members_single(entries, count) {
            assert forall|i: int| 0 <= i < count implies single_arrays(
                #[trigger] entries[i].value,
            ) by {
                if i == count - 1 {
                } else {
                    assert(0 <= i < count - 1);
                }
            }
        }
    }
}

/// An object is checked entry by entry.
pub proof fn lemma_object_single(entries: Entries)
    ensures
        single_arrays(JsonModel::Object(entries)) <==> forall|i: int|
            0 <= i < entries.len() ==> single_arrays(#[trigger] entries[i].value),
{
    lemma_members_single(entries, entries.len() as int);
}

/// Setting a key to a value whose arrays have one element keeps it so.
pub proof fn lemma_put_single(entries: Entries, key: Seq<char>, value: JsonModel)
    requires
        single_arrays(JsonModel::Object(entries)),
        single_arrays(value),
    ensures
        single_arrays(JsonModel::Object(put(entries, key, value))),
{
    let after = put(entries, key, value);
    lemma_object_single(entries);
    lemma_object_single(after);
    lemma_key_position(entries, key);
    let at = key_position(entries, key);
    assert forall|i: int| 0 <= i < after.len() implies single_arrays(#[trigger] after[i].value) by {
        if i != at {
            assert(after[i] == entries[i]);
        }
    }
}

/// Inserting a value whose arrays have one element into an object whose
/// arrays have one element leaves an object whose arrays have one element.
pub proof fn lemma_insert_single(obj: Entries, segments: Seq<Seq<char>>, value: JsonModel)
    requires
        single_arrays(JsonModel::Object(obj)),
        single_arrays(value),
    ensures
        single_arrays(JsonModel::Object(insert_nested(obj, segments, value))),
    decreases segments.len(),
{
    if segments.len() == 0 {
    } else {
        let name = segment_name(segments[0]);
        let rest = segments.skip(1);
        let empty = Seq::<MemberModel>::empty();
        lemma_object_single(empty);
        lemma_object_single(obj);
        lemma_key_position(obj, name);
        if segments.len() == 1 {
            lemma_put_single(obj, name, value);
        } else if is_array_segment(segments[0]) {
            match lookup(obj, name) {
                None => {
                    lemma_insert_single(empty, rest, value);
                    lemma_put_single(obj, name, single_item(insert_nested(empty, rest, value)));
                },
                Some(JsonModel::Array(items)) => {
                    assert(single_arrays(obj[key_position(obj, name)].value));
                    if items.len() > 0 {
                        match items[0] {
                            JsonModel::Object(inner) => {
                                lemma_insert_single(inner, rest, value);
                                let changed = items.update(
                                    0,
                                    JsonModel::Object(insert_nested(inner, rest, value)),
                                );
                                assert(changed.len() == 1);
                                lemma_put_single(obj, name, JsonModel::Array(changed));
                            },
                            _ => {},
                        }
                    }
                },
                Some(_) => {},
            }
        } else {
            match lookup(obj, name) {
                None => {
                    lemma_insert_single(empty, rest, value);
                    lemma_put_single(
                        obj,
                        name,
                        JsonModel::Object(insert_nested(empty, rest, value)),
                    );
                },
                Some(JsonModel::Object(inner)) => {
                    assert(single_arrays(obj[key_position(obj, name)].value));
                    lemma_insert_single(inner, rest, value);
                    lemma_put_single(
                        obj,
                        name,
                        JsonModel::Object(insert_nested(inner, rest, value)),
                    );
                },
                Some(_) => {},
            }
        }
    }
}

/// Every array of a rebuilt document has exactly one element, where every
/// array inside the leaves of the table has: rebuilding makes no other
/// arrays, and makes none longer.
pub proof fn lemma_reconstruct_single(rows: Rows)
    requires
        forall|r: int| 0 <= r < rows.len() ==> single_arrays((#[trigger] rows[r]).value.json()),
    ensures
        single_arrays(JsonModel::Object(reconstruct(rows))),
    decreases rows.len(),
{
    if rows.len() == 0 {
        lemma_object_single(Seq::<MemberModel>::empty());
    } else {
        let before = rows.drop_last();
        assert forall|r: int| 0 <= r < before.len() implies single_arrays(
            (#[trigger] before[r]).value.json(),
        ) by {
            assert(before[r] == rows[r]);
        }
        lemma_reconstruct_single(before);
        lemma_insert_single(
            reconstruct(before),
            split_segments(rows.last().key),
            rows.last().value.json(),
        );
    }
}

/// What an array segment that is not the last does to the value at its
/// name: a free name gets an array of exactly one element; an array that
/// stands there keeps its length; anything else stays, and the whole object
/// with it.
pub proof fn lemma_array_segment(obj: Entries, segments: Seq<Seq<char>>, value: JsonModel)
    requires
        segments.len() >= 2,
        is_array_segment(segments[0]),
    ensures
        match lookup(obj, segment_name(segments[0])) {
            None => {
                &&& lookup(insert_nested(obj, segments, value), segment_name(segments[0]))
                    matches Some(JsonModel::Array(items))
                &&& items.len() == 1
            },
            Some(JsonModel::Array(before)) => {
                &&& lookup(insert_nested(obj, segments, value), segment_name(segments[0]))
                    matches Some(JsonModel::Array(items))
                &&& items.len() == before.len()
            },
            Some(_) => insert_nested(obj, segments, value) == obj,
        },
{
    let name = segment_name(segments[0]);
    let rest = segments.skip(1);
    match lookup(obj, name) {
        None => {
            lemma_put(obj, name, single_item(insert_nested(Seq::empty(), rest, value)));
        },
        Some(JsonModel::Array(items)) => {
            if items.len() > 0 {
                match items[0] {
                    JsonModel::Object(inner) => {
                        lemma_put(
                            obj,
                            name,
                            JsonModel::Array(
                                items.update(
                                    0,
                                    JsonModel::Object(insert_nested(inner, rest, value)),
                                ),
                            ),
                        );
                    },
                    _ => {},
                }
            }
        },
        Some(_) => {},
    }
}

/// Whether no object in the value has two entries with one key.
pub open spec fn unique_keys(value: JsonModel) -> bool
    decreases value, 0int,
{
    match value {
        JsonModel::Array(items) => items_unique(items, items.len() as int),
        JsonModel::Object(entries) => distinct_keys(entries) && members_unique(
            entries,
            entries.len() as int,
        ),
        _ => true,
    }
}

/// Whether no object in the first `count` items has two entries with one key.
pub open spec fn items_unique(items: Seq<JsonModel>, count: int) -> bool
    decreases items, count,
{
    if 0 < count <= items.len() {
        unique_keys(items[count - 1]) && items_unique(items, count - 1)
    } else {
        true
    }
}

/// Whether no object in the values of the first `count` entries has two
/// entries with one key.
pub open spec fn members_unique(entries: Entries, count: int) -> bool
    decreases entries, count,
{
    if 0 < count <= entries.len() {
        unique_keys(entries[count - 1].value) && members_unique(entries, count - 1)
    } else {
        true
    }
}

/// The items are checked one by one.
pub proof fn lemma_items_unique(items: Seq<JsonModel>, count: int)
    requires
        0 <= count <= items.len(),
    ensures
        items_unique(items, count) <==> forall|i: int|
            0 <= i < count ==> unique_keys(#[trigger] items[i]),
    decreases count,
{
    if count > 0 {
        lemma_items_unique(items, count - 1);
        if items_unique(items, count) {
            assert forall|i: int| 0 <= i < count implies unique_keys(#[trigger] items[i]) by {
                if i < count - 1 {
                    assert(0 <= i < count - 1);
                }
            }
        }
    }
}

/// The entries are checked one by one.
pub proof fn lemma_members_unique(entries: Entries, count: int)
    requires
        0 <= count <= entries.len(),
    ensures
        members_unique(entries, count) <==> forall|i: int|
            0 <= i < count ==> unique_keys(#[trigger] entries[i].value),
    decreases count,
{
    if count > 0 {
        lemma_members_unique(entries, count - 1);
        if members_unique(entries, count) {
            assert forall|i: int| 0 <= i < count implies unique_keys(
                #[trigger] entries[i].value,
            ) by {
                if i < count - 1 {
                    assert(0 <= i < count - 1);
                }
            }
        }
    }
}

/// Setting a key to a value without double keys keeps an object without
/// double keys so.
pub proof fn lemma_put_unique(entries: Entries, key: Seq<char>, value: JsonModel)
    requires
        unique_keys(JsonModel::Object(entries)),
        unique_keys(value),
    ensures
        unique_keys(JsonModel::Object(put(entries, key, value))),
{
    let after = put(entries, key, value);
    lemma_members_unique(entries, entries.len() as int);
    lemma_members_unique(after, after.len() as int);
    lemma_key_position(entries, key);
    lemma_put(entries, key, value);
    let at = key_position(entries, key);
    assert forall|i: int| 0 <= i < after.len() implies unique_keys(#[trigger] after[i].value) by {
        if i != at {
            assert(after[i] == entries[i]);
        }
    }
}

/// Inserting a value without double keys into an object without double keys
/// leaves an object without double keys.
pub proof fn lemma_insert_unique(obj: Entries, segments: Seq<Seq<char>>, value: JsonModel)
    requires
        unique_keys(JsonModel::Object(obj)),
        unique_keys(value),
    ensures
        unique_keys(JsonModel::Object(insert_nested(obj, segments, value))),
    decreases segments.len(),
{
    if segments.len() == 0 {
    } else {
        let name = segment_name(segments[0]);
        let rest = segments.skip(1);
        let empty = Seq::<MemberModel>::empty();
        assert(unique_keys(JsonModel::Object(empty)));
        lemma_members_unique(obj, obj.len() as int);
        lemma_key_position(obj, name);
        if segments.len() == 1 {
            lemma_put_unique(obj, name, value);
        } else if is_array_segment(segments[0]) {
            match lookup(obj, name) {
                None => {
                    lemma_insert_unique(empty, rest, value);
                    let item = single_item(insert_nested(empty, rest, value));
                    lemma_items_unique(item->Array_0, 1);
                    lemma_put_unique(obj, name, item);
                },
                Some(JsonModel::Array(items)) => {
                    assert(unique_keys(obj[key_position(obj, name)].value));
                    if items.len() > 0 {
                        match items[0] {
                            JsonModel::Object(inner) => {
                                lemma_items_unique(items, items.len() as int);
                                lemma_insert_unique(inner, rest, value);
                                let changed = items.update(
                                    0,
                                    JsonModel::Object(insert_nested(inner, rest, value)),
                                );
                                lemma_items_unique(changed, changed.len() as int);
                                assert forall|i: int| 0 <= i < changed.len() implies unique_keys(
                                    #[trigger] changed[i],
                                ) by {
                                    if i != 0 {
                                        assert(changed[i] == items[i]);
                                    }
                                }
                                lemma_put_unique(obj, name, JsonModel::Array(changed));
                            },
                            _ => {},
                        }
                    }
                },
                Some(_) => {},
            }
        } else {
            match lookup(obj, name) {
                None => {
                    lemma_insert_unique(empty, rest, value);
                    lemma_put_unique(
                        obj,
                        name,
                        JsonModel::Object(insert_nested(empty, rest, value)),
                    );
                },
                Some(JsonModel::Object(inner)) => {
                    assert(unique_keys(obj[key_position(obj, name)].value));
                    lemma_insert_unique(inner, rest, value);
                    lemma_put_unique(
                        obj,
                        name,
                        JsonModel::Object(insert_nested(inner, rest, value)),
                    );
                },
                Some(_) => {},
            }
        }
    }
}

/// No object of a rebuilt document has two entries with one key, where no
/// object inside the leaves of the table has.
pub proof fn lemma_reconstruct_unique(rows: Rows)
    requires
        forall|r: int| 0 <= r < rows.len() ==> unique_keys((#[trigger] rows[r]).value.json()),
    ensures
        unique_keys(JsonModel::Object(reconstruct(rows))),
    decreases rows.len(),
{
    if rows.len() == 0 {
    } else {
        let before = rows.drop_last();
        assert forall|r: int| 0 <= r < before.len() implies unique_keys(
            (#[trigger] before[r]).value.json(),
        ) by {
            assert(before[r] == rows[r]);
        }
        lemma_reconstruct_unique(before);
        lemma_insert_unique(
            reconstruct(before),
            split_segments(rows.last().key),
            rows.last().value.json(),
        );
    }
}

/// The value that stands in the object at the end of the way `path`, which
/// leads through objects by the names of their entries.
pub open spec fn get_path(doc: Entries, path: Seq<Seq<char>>) -> Option<JsonModel>
    decreases path.len(),
{
    if path.len() == 0 {
        None
    } else {
        match lookup(doc, path[0]) {
            None => None,
            Some(value) => if path.len() == 1 {
                Some(value)
            } else {
                match value {
                    JsonModel::Object(inner) => get_path(inner, path.skip(1)),
                    _ => None,
                }
            },
        }
    }
}

/// Whether the way `p` is the beginning of the way `q`.
pub open spec fn is_prefix(p: Seq<Seq<char>>, q: Seq<Seq<char>>) -> bool {
    p.len() <= q.len() && q.take(p.len() as int) == p
}

/// Whether one of the two ways is the beginning of the other.
pub open spec fn comparable(p: Seq<Seq<char>>, q: Seq<Seq<char>>) -> bool {
    is_prefix(p, q) || is_prefix(q, p)
}

/// Whether the way has a segment and none of its segments is an array
/// segment.
pub open spec fn plain_path(path: Seq<Seq<char>>) -> bool {
    path.len() > 0 && forall|i: int| 0 <= i < path.len() ==> !is_array_segment(#[trigger] path[i])
}

/// Whether the value is there and is an object.
pub open spec fn is_object(found: Option<JsonModel>) -> bool {
    match found {
        Some(value) => value is Object,
        None => false,
    }
}

/// Whether nothing but objects stands in the object on the way `path`,
/// before its end.
pub open spec fn clear_way(doc: Entries, path: Seq<Seq<char>>) -> bool {
    forall|n: int|
        0 < n < path.len() ==> (#[trigger] get_path(doc, path.take(n))) is None || is_object(
            get_path(doc, path.take(n)),
        )
}

/// Two ways that start with the same segment compare as their rests do.
pub proof fn lemma_comparable_rest(p: Seq<Seq<char>>, q: Seq<Seq<char>>)
    requires
        p.len() > 0,
        q.len() > 0,
        p[0] == q[0],
    ensures
        comparable(p.skip(1), q.skip(1)) ==> comparable(p, q),
{
    if is_prefix(p.skip(1), q.skip(1)) {
        assert(q.skip(1).take(p.len() - 1) == p.skip(1));
        assert forall|i: int| 0 <= i < p.len() implies q.take(p.len() as int)[i] == p[i] by {
            if i > 0 {
                assert(q.skip(1).take(p.len() - 1)[i - 1] == p.skip(1)[i - 1]);
            }
        }
        assert(q.take(p.len() as int) =~= p);
    }
    if is_prefix(q.skip(1), p.skip(1)) {
        assert(p.skip(1).take(q.len() - 1) == q.skip(1));
        assert forall|i: int| 0 <= i < q.len() implies p.take(q.len() as int)[i] == q[i] by {
            if i > 0 {
                assert(p.skip(1).take(q.len() - 1)[i - 1] == q.skip(1)[i - 1]);
            }
        }
        assert(p.take(q.len() as int) =~= q);
    }
}

/// Nothing stands in an object without entries.
pub proof fn lemma_get_path_empty(path: Seq<Seq<char>>)
    ensures
        get_path(Seq::<MemberModel>::empty(), path) is None,
{
    if path.len() > 0 {
        lemma_key_position(Seq::<MemberModel>::empty(), path[0]);
    }
}

/// Inserting along a way of plain segments that is clear puts the value at
/// the end of the way, makes an object of every place before the end, and
/// leaves alone what stands on the ways that do not compare with it.
pub proof fn lemma_insert_plain(doc: Entries, path: Seq<Seq<char>>, value: JsonModel)
    requires
        plain_path(path),
        clear_way(doc, path),
    ensures
        get_path(insert_nested(doc, path, value), path) == Some(value),
        forall|other: Seq<Seq<char>>|
            !comparable(other, path) ==> #[trigger] get_path(
                insert_nested(doc, path, value),
                other,
            ) == get_path(doc, other),
        forall|n: int|
            0 < n < path.len() ==> is_object(
                #[trigger] get_path(insert_nested(doc, path, value), path.take(n)),
            ),
    decreases path.len(),
{
    let after = insert_nested(doc, path, value);
    let name = path[0];
    let rest = path.skip(1);
    assert(!is_array_segment(path[0]));
    assert(segment_name(path[0]) == name);
    if path.len() == 1 {
        lemma_put(doc, name, value);
        assert forall|other: Seq<Seq<char>>| !comparable(other, path) implies #[trigger] get_path(
            after,
            other,
        ) == get_path(doc, other) by {
            if other.len() > 0 {
                if other[0] == name {
                    assert(other.take(1) =~= path);
                    assert(is_prefix(path, other));
                }
            }
        }
    } else {
        let empty = Seq::<MemberModel>::empty();
        assert(path.take(1) =~= seq![name]);
        let first = get_path(doc, path.take(1));
        assert(first == lookup(doc, name));
        let inner = match lookup(doc, name) {
            Some(JsonModel::Object(inner)) => inner,
            _ => empty,
        };
        assert(lookup(doc, name) is None || lookup(doc, name) == Some(JsonModel::Object(inner)));
        let filled = insert_nested(inner, rest, value);
        assert(after == put(doc, name, JsonModel::Object(filled)));
        lemma_put(doc, name, JsonModel::Object(filled));
        assert(plain_path(rest)) by {
            assert forall|i: int| 0 <= i < rest.len() implies !is_array_segment(
                #[trigger] rest[i],
            ) by {
                assert(rest[i] == path[i + 1]);
            }
        }
        assert(clear_way(inner, rest)) by {
            assert forall|n: int| 0 < n < rest.len() implies (#[trigger] get_path(
                inner,
                rest.take(n),
            )) is None || is_object(get_path(inner, rest.take(n))) by {
                if lookup(doc, name) is None {
                    lemma_get_path_empty(rest.take(n));
                } else {
                    let longer = path.take(n + 1);
                    assert(longer[0] == name);
                    assert(longer.skip(1) =~= rest.take(n));
                    assert(get_path(doc, longer) == get_path(inner, rest.take(n)));
                }
            }
        }
        lemma_insert_plain(inner, rest, value);
        assert(get_path(after, path) == get_path(filled, rest));
        assert forall|other: Seq<Seq<char>>| !comparable(other, path) implies #[trigger] get_path(
            after,
            other,
        ) == get_path(doc, other) by {
            if other.len() > 0 {
                if other[0] == name {
                    if other.len() == 1 {
                        assert(path.take(1) =~= other);
                        assert(is_prefix(other, path));
                    } else {
                        lemma_comparable_rest(other, path);
                        assert(get_path(after, other) == get_path(filled, other.skip(1)));
                        assert(get_path(filled, other.skip(1)) == get_path(inner, other.skip(1)));
                        if lookup(doc, name) is None {
                            lemma_get_path_empty(other.skip(1));
                        }
                    }
                }
            }
        }
        assert forall|n: int| 0 < n < path.len() implies is_object(
            #[trigger] get_path(after, path.take(n)),
        ) by {
            let shorter = path.take(n);
            assert(shorter[0] == name);
            if n == 1 {
            } else {
                assert(shorter.skip(1) =~= rest.take(n - 1));
                assert(get_path(after, shorter) == get_path(filled, rest.take(n - 1)));
            }
        }
    }
}

/// The way of the row at place `r`: the segments of its key.
pub open spec fn row_path(rows: Rows, r: int) -> Seq<Seq<char>> {
    split_segments(rows[r].key)
}

/// Whether the ways of the rows are ways of plain segments of which none is
/// the beginning of another.
pub open spec fn separate(rows: Rows) -> bool {
    &&& forall|r: int| 0 <= r < rows.len() ==> plain_path(#[trigger] row_path(rows, r))
    &&& forall|i: int, j: int|
        0 <= i < rows.len() && 0 <= j < rows.len() && i != j ==> !comparable(
            #[trigger] row_path(rows, i),
            #[trigger] row_path(rows, j),
        )
}

/// Whether the value found at the end of the way `p` is accounted for by the
/// row at place `r`: the way of the row leads to it or into it, or leads on
/// through it and it is an object.
pub open spec fn on_way(rows: Rows, r: int, p: Seq<Seq<char>>, found: JsonModel) -> bool {
    &&& 0 <= r < rows.len()
    &&& is_prefix(row_path(rows, r), p) || (is_prefix(p, row_path(rows, r)) && found is Object)
}

/// Whether everything in the object is accounted for by a row.
pub open spec fn accounted(rows: Rows, doc: Entries) -> bool {
    forall|p: Seq<Seq<char>>|
        (#[trigger] get_path(doc, p)) is Some ==> exists|r: int|
            on_way(rows, r, p, get_path(doc, p)->0)
}

/// The document rebuilt from rows with separate ways holds the value of each
/// row at the end of the way of the row, and nothing that is not on the way
/// of a row or inside the value of one.
pub proof fn lemma_reconstruct_separate(rows: Rows)
    requires
        separate(rows),
    ensures
        forall|r: int|
            0 <= r < rows.len() ==> get_path(reconstruct(rows), #[trigger] row_path(rows, r))
                == Some(rows[r].value.json()),
        accounted(rows, reconstruct(rows)),
    decreases rows.len(),
{
    if rows.len() == 0 {
        assert forall|p: Seq<Seq<char>>| (#[trigger] get_path(reconstruct(rows), p)) is None by {
            lemma_get_path_empty(p);
        }
    } else {
        let before = rows.drop_last();
        let last = rows.len() - 1;
        let way = row_path(rows, last);
        let value = rows.last().value.json();
        assert forall|r: int| 0 <= r < before.len() implies row_path(before, r) == row_path(
            rows,
            r,
        ) by {
            assert(before[r] == rows[r]);
        }
        assert(separate(before)) by {
            assert forall|r: int| 0 <= r < before.len() implies plain_path(
                #[trigger] row_path(before, r),
            ) by {
                assert(plain_path(row_path(rows, r)));
            }
            assert forall|i: int, j: int|
                0 <= i < before.len() && 0 <= j < before.len() && i != j implies !comparable(
                #[trigger] row_path(before, i),
                #[trigger] row_path(before, j),
            ) by {
                assert(!comparable(row_path(rows, i), row_path(rows, j)));
            }
        }
        lemma_reconstruct_separate(before);
        let doc = reconstruct(before);
        let after = reconstruct(rows);
        assert(after == insert_nested(doc, way, value));
        assert(plain_path(way));
        assert(clear_way(doc, way)) by {
            assert forall|n: int| 0 < n < way.len() implies (#[trigger] get_path(
                doc,
                way.take(n),
            )) is None || is_object(get_path(doc, way.take(n))) by {
                let p = way.take(n);
                if let Some(found) = get_path(doc, p) {
                    let r = choose|r: int| on_way(before, r, p, found);
                    if is_prefix(row_path(before, r), p) {
                        let short = row_path(rows, r);
                        assert(way.take(short.len() as int) =~= p.take(short.len() as int));
                        assert(is_prefix(short, way));
                        assert(comparable(row_path(rows, r), row_path(rows, last)));
                    }
                }
            }
        }
        lemma_insert_plain(doc, way, value);
        assert forall|r: int| 0 <= r < rows.len() implies get_path(
            after,
            #[trigger] row_path(rows, r),
        ) == Some(rows[r].value.json()) by {
            if r < last {
                assert(!comparable(row_path(rows, r), row_path(rows, last)));
                assert(get_path(doc, row_path(before, r)) == Some(before[r].value.json()));
            }
        }
        assert forall|p: Seq<Seq<char>>| (#[trigger] get_path(after, p)) is Some implies exists|
            r: int,
        | on_way(rows, r, p, get_path(after, p)->0) by {
            let found = get_path(after, p)->0;
            if comparable(p, way) {
                if is_prefix(way, p) {
                    assert(on_way(rows, last, p, found));
                } else {
                    assert(p =~= way.take(p.len() as int));
                    assert(0 < p.len() < way.len());
                    assert(on_way(rows, last, p, found));
                }
            } else {
                assert(get_path(doc, p) == Some(found));
                let r = choose|r: int| on_way(before, r, p, found);
                assert(on_way(rows, r, p, found));
            }
        }
    }
}

} // verus!
