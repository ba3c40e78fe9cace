//! What holds of every successful decode: where spans lie, how the children of
//! a List and the fields of a Compound were read, and that a node's span alone
//! decodes to the node again.

use vstd::prelude::*;
use crate::bytes::{has_bytes, i16_at, i32_at, i64_at, i8_at, u32_at, u64_at};
use crate::decode::{
    array_value, decode_at, fields_from, is_array_kind, is_scalar_kind, items_from, payload_at,
    scalar_value, text_at, width_of,
};
use crate::tag::{
    Error, Tree, Value, KIND_BYTE, KIND_BYTE_ARRAY, KIND_COMPOUND, KIND_DOUBLE, KIND_FLOAT,
    KIND_INT, KIND_INT_ARRAY, KIND_LIST, KIND_LONG, KIND_LONG_ARRAY, KIND_SHORT, KIND_TEXT,
};

verus! {

/// The kind that a value is of.
pub open spec fn kind_of(value: Value) -> u8 {
    match value {
        Value::Byte(_) => KIND_BYTE,
        Value::Short(_) => KIND_SHORT,
        Value::Int(_) => KIND_INT,
        Value::Long(_) => KIND_LONG,
        Value::Float(_) => KIND_FLOAT,
        Value::Double(_) => KIND_DOUBLE,
        Value::ByteArray(_) => KIND_BYTE_ARRAY,
        Value::Text(_) => KIND_TEXT,
        Value::List(_) => KIND_LIST,
        Value::Compound(_) => KIND_COMPOUND,
        Value::IntArray(_) => KIND_INT_ARRAY,
        Value::LongArray(_) => KIND_LONG_ARRAY,
    }
}

/// Whether `node` is what `buf` decodes to at the node's own start, by the
/// node's own kind.
pub open spec fn decoded_in(buf: Seq<u8>, node: Tree) -> bool {
    decode_at(buf, node.start, kind_of(node.value)) == Ok::<Tree, Error>(node)
}

/// The items that a List's reader adds lie one after the other from `pos` on,
/// each is what the buffer decodes to at its start by the element kind, there
/// are `left` of them, and the reader stops where the last one ends.
proof fn lemma_items_chain(buf: Seq<u8>, pos: int, kind: u8, left: int, done: Seq<Tree>)
    requires
        0 <= pos <= buf.len(),
        0 <= left,
        items_from(buf, pos, kind, left, done) is Ok,
    ensures
        ({
            let (items, end) = items_from(buf, pos, kind, left, done).unwrap();
            &&& items.len() == done.len() + left
            &&& items.subrange(0, done.len() as int) == done
            &&& pos <= end <= buf.len()
            &&& left == 0 ==> end == pos
            &&& left > 0 ==> items[done.len() as int].start == pos && end == items.last().end
            &&& forall|i: int|
                done.len() <= i < items.len() ==> decode_at(buf, (#[trigger] items[i]).start, kind)
                    == Ok::<Tree, Error>(items[i]) && items[i].start < items[i].end
            &&& forall|i: int|
                done.len() <= i < items.len() - 1 ==> (#[trigger] items[i + 1]).start
                    == items[i].end
        }),
    decreases buf.len() - pos, left,
{
    let (items, end) = items_from(buf, pos, kind, left, done).unwrap();
    if left <= 0 {
        assert(items.subrange(0, done.len() as int) =~= done);
    } else {
        let item = decode_at(buf, pos, kind).unwrap();
        let more = done.push(item);
        lemma_items_chain(buf, item.end, kind, left - 1, more);
        assert(items.subrange(0, more.len() as int) == more);
        assert(items[done.len() as int] == more[done.len() as int]);
        assert(items.subrange(0, done.len() as int) =~= done) by {
            assert forall|i: int| 0 <= i < done.len() implies items[i] == done[i] by {
                assert(items[i] == items.subrange(0, more.len() as int)[i]);
            }
        }
        assert forall|i: int| done.len() <= i < items.len() - 1 implies (#[trigger] items[i
            + 1]).start == items[i].end by {
            if i == done.len() {
            }
        }
    }
}

/// Every successful decode gives a node of the kind asked for, whose span
/// starts at `pos`, is not empty, and lies in the buffer.
pub proof fn lemma_span_in_buffer(buf: Seq<u8>, pos: int, kind: u8)
    requires
        decode_at(buf, pos, kind) is Ok,
    ensures
        ({
            let node = decode_at(buf, pos, kind).unwrap();
            &&& node.start == pos
            &&& pos < node.end <= buf.len()
            &&& kind_of(node.value) == kind
        }),
{
    lemma_starts_in_buffer(buf, pos, kind);
    if kind == KIND_LIST {
        lemma_items_chain(buf, pos + 5, buf[pos], i32_at(buf, pos + 1), Seq::empty());
    } else if kind == KIND_COMPOUND {
        lemma_fields_decoded(buf, pos, Map::empty());
    }
}

/// The fields that a Compound's reader adds are each what the buffer decodes
/// to at the field's start by the field's kind, and the reader stops after
/// `pos` and inside the buffer.
proof fn lemma_fields_decoded(buf: Seq<u8>, pos: int, done: Map<Seq<char>, Tree>)
    requires
        0 <= pos,
        fields_from(buf, pos, done) is Ok,
        forall|name: Seq<char>| done.contains_key(name) ==> decoded_in(buf, #[trigger] done[name]),
    ensures
        ({
            let (fields, end) = fields_from(buf, pos, done).unwrap();
            &&& pos < end <= buf.len()
            &&& forall|name: Seq<char>|
                fields.contains_key(name) ==> decoded_in(buf, #[trigger] fields[name])
            &&& forall|name: Seq<char>| done.contains_key(name) ==> fields.contains_key(name)
        }),
    decreases buf.len() - pos,
{
    if buf[pos] != 0 {
        let (name, at) = text_at(buf, pos + 1).unwrap();
        let field = decode_at(buf, at, buf[pos]).unwrap();
        lemma_kind_kept(buf, at, buf[pos]);
        lemma_fields_decoded(buf, field.end, done.insert(name, field));
    }
}

/// A successful decode gives a value of the kind asked for, in a span that
/// starts where the decode did.
proof fn lemma_kind_kept(buf: Seq<u8>, pos: int, kind: u8)
    requires
        decode_at(buf, pos, kind) is Ok,
    ensures
        kind_of(decode_at(buf, pos, kind).unwrap().value) == kind,
        decode_at(buf, pos, kind).unwrap().start == pos,
{
}

/// A List of declared element kind `k` and count `c` decodes to exactly `c`
/// children. Each child is what the buffer decodes to by kind `k` at the
/// child's start; the first starts after the element kind's byte and the
/// count, each next one where the one before it ends, and the List ends with
/// its last child. With no children the List is those five bytes and nothing
/// more, whatever `k` is.
pub proof fn lemma_list_homogeneous(buf: Seq<u8>, pos: int)
    requires
        decode_at(buf, pos, KIND_LIST) is Ok,
    ensures
        ({
            let list = decode_at(buf, pos, KIND_LIST).unwrap();
            let k = buf[pos];
            let c = i32_at(buf, pos + 1);
            &&& has_bytes(buf, pos, 5)
            &&& list.value is List
            &&& list.value->List_0.len() == c
            &&& forall|i: int|
                0 <= i < c ==> decode_at(buf, (#[trigger] list.value->List_0[i]).start, k) == Ok::<
                    Tree,
                    Error,
                >(list.value->List_0[i])
            &&& c > 0 ==> list.value->List_0[0].start == pos + 5 && list.end
                == list.value->List_0.last().end
            &&& forall|i: int|
                0 <= i < c - 1 ==> (#[trigger] list.value->List_0[i + 1]).start
                    == list.value->List_0[i].end
            &&& c == 0 ==> list.end == pos + 5
        }),
{
    lemma_starts_in_buffer(buf, pos, KIND_LIST);
    lemma_items_chain(buf, pos + 5, buf[pos], i32_at(buf, pos + 1), Seq::empty());
}

/// Every child of a decoded List is what the buffer decodes to at the child's
/// start, by the child's kind.
pub proof fn lemma_list_children(buf: Seq<u8>, pos: int)
    requires
        decode_at(buf, pos, KIND_LIST) is Ok,
    ensures
        ({
            let list = decode_at(buf, pos, KIND_LIST).unwrap();
            &&& list.value is List
            &&& forall|i: int|
                0 <= i < list.value->List_0.len() ==> decoded_in(
                    buf,
                    #[trigger] list.value->List_0[i],
                )
        }),
{
    lemma_list_homogeneous(buf, pos);
    let items = decode_at(buf, pos, KIND_LIST).unwrap().value->List_0;
    assert forall|i: int| 0 <= i < items.len() implies decoded_in(buf, #[trigger] items[i]) by {
        lemma_kind_kept(buf, items[i].start, buf[pos]);
    }
}

/// Every field that a decoded Compound maps a name to is what the buffer
/// decodes to at the field's start, by the field's kind.
pub proof fn lemma_compound_fields(buf: Seq<u8>, pos: int)
    requires
        decode_at(buf, pos, KIND_COMPOUND) is Ok,
    ensures
        ({
            let compound = decode_at(buf, pos, KIND_COMPOUND).unwrap();
            &&& compound.value is Compound
            &&& forall|name: Seq<char>|
                compound.value->Compound_0.contains_key(name) ==> decoded_in(
                    buf,
                    #[trigger] compound.value->Compound_0[name],
                )
        }),
{
    lemma_starts_in_buffer(buf, pos, KIND_COMPOUND);
    lemma_fields_decoded(buf, pos, Map::empty());
}

/// The node `node` with every span in it moved by `by` bytes.
pub open spec fn moved(node: Tree, by: int) -> Tree
    decreases node,
{
    Tree { start: node.start + by, end: node.end + by, value: moved_value(node.value, by) }
}

/// The items of a List, each moved by `by` bytes.
pub open spec fn moved_items(items: Seq<Tree>, by: int) -> Seq<Tree>
    decreases items,
{
    Seq::new(
        items.len(),
        |i: int|
            if 0 <= i < items.len() {
                moved(items[i], by)
            } else {
                arbitrary()
            },
    )
}

/// The fields of a Compound, each moved by `by` bytes.
pub open spec fn moved_fields(fields: Map<Seq<char>, Tree>, by: int) -> Map<Seq<char>, Tree>
    decreases fields,
{
    Map::new(
        |name: Seq<char>| fields.contains_key(name),
        |name: Seq<char>|
            if fields.dom().finite() && fields.contains_key(name) {
                moved(fields[name], by)
            } else {
                arbitrary()
            },
    )
}

/// The value `value` with every span in it moved by `by` bytes.
pub open spec fn moved_value(value: Value, by: int) -> Value
    decreases value,
{
    match value {
        Value::List(items) => Value::List(moved_items(items, by)),
        Value::Compound(fields) => Value::Compound(moved_fields(fields, by)),
        _ => value,
    }
}

/// Whether the `n` bytes of `a` from `pa` on are the `n` bytes of `b` from
/// `pb` on.
pub open spec fn same_bytes(a: Seq<u8>, pa: int, b: Seq<u8>, pb: int, n: int) -> bool {
    &&& 0 <= pa
    &&& 0 <= pb
    &&& 0 <= n
    &&& pa + n <= a.len()
    &&& pb + n <= b.len()
    &&& a.subrange(pa, pa + n) == b.subrange(pb, pb + n)
}

proof fn lemma_same_byte(a: Seq<u8>, pa: int, b: Seq<u8>, pb: int, n: int, k: int)
    requires
        same_bytes(a, pa, b, pb, n),
        0 <= k < n,
    ensures
        a[pa + k] == b[pb + k],
{
    assert(a.subrange(pa, pa + n)[k] == a[pa + k]);
    assert(b.subrange(pb, pb + n)[k] == b[pb + k]);
}

proof fn lemma_same_within(a: Seq<u8>, pa: int, b: Seq<u8>, pb: int, n: int, k: int, m: int)
    requires
        same_bytes(a, pa, b, pb, n),
        0 <= k,
        0 <= m,
        k + m <= n,
    ensures
        same_bytes(a, pa + k, b, pb + k, m),
{
    let x = a.subrange(pa + k, pa + k + m);
    let y = b.subrange(pb + k, pb + k + m);
    assert forall|i: int| 0 <= i < m implies #[trigger] x[i] == y[i] by {
        lemma_same_byte(a, pa, b, pb, n, k + i);
    }
    assert(x =~= y);
}

proof fn lemma_same_reads(a: Seq<u8>, pa: int, b: Seq<u8>, pb: int, n: int, k: int, w: int)
    requires
        same_bytes(a, pa, b, pb, n),
        0 <= k,
        w == 1 || w == 2 || w == 4 || w == 8,
        k + w <= n,
    ensures
        a[pa + k] == b[pb + k],
        i8_at(a, pa + k) == i8_at(b, pb + k),
        w >= 2 ==> i16_at(a, pa + k) == i16_at(b, pb + k),
        w >= 4 ==> i32_at(a, pa + k) == i32_at(b, pb + k) && u32_at(a, pa + k) == u32_at(
            b,
            pb + k,
        ),
        w >= 8 ==> i64_at(a, pa + k) == i64_at(b, pb + k) && u64_at(a, pa + k) == u64_at(
            b,
            pb + k,
        ),
{
    lemma_same_byte(a, pa, b, pb, n, k);
    if w >= 2 {
        lemma_same_byte(a, pa, b, pb, n, k + 1);
    }
    if w >= 4 {
        lemma_same_byte(a, pa, b, pb, n, k + 2);
        lemma_same_byte(a, pa, b, pb, n, k + 3);
    }
    if w >= 8 {
        lemma_same_byte(a, pa, b, pb, n, k + 4);
        lemma_same_byte(a, pa, b, pb, n, k + 5);
        lemma_same_byte(a, pa, b, pb, n, k + 6);
        lemma_same_byte(a, pa, b, pb, n, k + 7);
    }
}

proof fn lemma_moved_push(done: Seq<Tree>, item: Tree, by: int)
    ensures
        moved_items(done.push(item), by) == moved_items(done, by).push(moved(item, by)),
{
    assert(moved_items(done.push(item), by) =~= moved_items(done, by).push(moved(item, by)));
}

proof fn lemma_moved_insert(done: Map<Seq<char>, Tree>, name: Seq<char>, field: Tree, by: int)
    requires
        done.dom().finite(),
    ensures
        done.insert(name, field).dom().finite(),
        moved_fields(done.insert(name, field), by) == moved_fields(done, by).insert(
            name,
            moved(field, by),
        ),
{
    assert(moved_fields(done.insert(name, field), by) =~= moved_fields(done, by).insert(
        name,
        moved(field, by),
    ));
}

proof fn lemma_items_end(buf: Seq<u8>, pos: int, kind: u8, left: int, done: Seq<Tree>)
    requires
        0 <= pos <= buf.len(),
        items_from(buf, pos, kind, left, done) is Ok,
    ensures
        pos <= items_from(buf, pos, kind, left, done).unwrap().1 <= buf.len(),
    decreases buf.len() - pos, left,
{
    if left > 0 {
        let item = decode_at(buf, pos, kind).unwrap();
        lemma_items_end(buf, item.end, kind, left - 1, done.push(item));
    }
}

proof fn lemma_fields_end(buf: Seq<u8>, pos: int, done: Map<Seq<char>, Tree>)
    requires
        0 <= pos,
        fields_from(buf, pos, done) is Ok,
    ensures
        pos < fields_from(buf, pos, done).unwrap().1 <= buf.len(),
    decreases buf.len() - pos,
{
    if buf[pos] != 0 {
        let (name, at) = text_at(buf, pos + 1).unwrap();
        let field = decode_at(buf, at, buf[pos]).unwrap();
        lemma_fields_end(buf, field.end, done.insert(name, field));
    }
}

proof fn lemma_scalar_moved(a: Seq<u8>, pa: int, b: Seq<u8>, pb: int, kind: u8)
    requires
        is_scalar_kind(kind),
        same_bytes(a, pa, b, pb, width_of(kind)),
    ensures
        scalar_value(a, pa, kind) == scalar_value(b, pb, kind),
{
    lemma_same_reads(a, pa, b, pb, width_of(kind), 0, width_of(kind));
}

proof fn lemma_array_moved(a: Seq<u8>, pa: int, b: Seq<u8>, pb: int, kind: u8, count: int)
    requires
        is_array_kind(kind),
        0 <= count,
        same_bytes(a, pa, b, pb, count * width_of(kind)),
    ensures
        array_value(a, pa, kind, count) == array_value(b, pb, kind, count),
{
    let n = count * width_of(kind);
    if kind == KIND_BYTE_ARRAY {
        let x = array_value(a, pa, kind, count)->ByteArray_0;
        let y = array_value(b, pb, kind, count)->ByteArray_0;
        assert forall|i: int| 0 <= i < count implies x[i] == y[i] by {
            lemma_same_reads(a, pa, b, pb, n, i, 1);
        }
        assert(x =~= y);
    } else if kind == KIND_INT_ARRAY {
        let x = array_value(a, pa, kind, count)->IntArray_0;
        let y = array_value(b, pb, kind, count)->IntArray_0;
        assert forall|i: int| 0 <= i < count implies x[i] == y[i] by {
            lemma_same_reads(a, pa, b, pb, n, 4 * i, 4);
        }
        assert(x =~= y);
    } else {
        let x = array_value(a, pa, kind, count)->LongArray_0;
        let y = array_value(b, pb, kind, count)->LongArray_0;
        assert forall|i: int| 0 <= i < count implies x[i] == y[i] by {
            lemma_same_reads(a, pa, b, pb, n, 8 * i, 8);
        }
        assert(x =~= y);
    }
}

proof fn lemma_text_moved(a: Seq<u8>, pa: int, b: Seq<u8>, pb: int)
    requires
        0 <= pa,
        text_at(a, pa) is Ok,
        same_bytes(a, pa, b, pb, text_at(a, pa).unwrap().1 - pa),
    ensures
        text_at(b, pb) == Ok::<(Seq<char>, int), Error>(
            (text_at(a, pa).unwrap().0, text_at(a, pa).unwrap().1 + pb - pa),
        ),
{
    let n = i16_at(a, pa);
    lemma_same_reads(a, pa, b, pb, n + 2, 0, 2);
    lemma_same_within(a, pa, b, pb, n + 2, 2, n);
}

/// Decoding reads nothing but the bytes of the span it reports: where another
/// buffer holds the same bytes at another place, it decodes there to the same
/// node, moved to that place.
pub proof fn lemma_decode_moved(a: Seq<u8>, pa: int, b: Seq<u8>, pb: int, kind: u8)
    requires
        decode_at(a, pa, kind) is Ok,
        same_bytes(a, pa, b, pb, decode_at(a, pa, kind).unwrap().end - pa),
    ensures
        decode_at(b, pb, kind) == Ok::<Tree, Error>(
            moved(decode_at(a, pa, kind).unwrap(), pb - pa),
        ),
    decreases a.len() - pa, 2int, 0int,
{
    lemma_starts_in_buffer(a, pa, kind);
    let by = pb - pa;
    lemma_span_in_buffer(a, pa, kind);
    let (value, end) = payload_at(a, pa, kind).unwrap();
    let n = end - pa;
    if is_scalar_kind(kind) {
        lemma_scalar_moved(a, pa, b, pb, kind);
    } else if is_array_kind(kind) {
        lemma_same_reads(a, pa, b, pb, n, 0, 4);
        let count = i32_at(a, pa);
        lemma_same_within(a, pa, b, pb, n, 4, count * width_of(kind));
        lemma_array_moved(a, pa + 4, b, pb + 4, kind, count);
    } else if kind == KIND_TEXT {
        lemma_text_moved(a, pa, b, pb);
    } else if kind == KIND_LIST {
        lemma_items_end(a, pa + 5, a[pa], i32_at(a, pa + 1), Seq::empty());
        lemma_same_reads(a, pa, b, pb, n, 0, 1);
        lemma_same_reads(a, pa, b, pb, n, 1, 4);
        lemma_same_within(a, pa, b, pb, n, 5, n - 5);
        lemma_items_moved(a, pa + 5, b, pb + 5, a[pa], i32_at(a, pa + 1), Seq::empty());
        assert(moved_items(Seq::<Tree>::empty(), by) =~= Seq::<Tree>::empty());
    } else if kind == KIND_COMPOUND {
        lemma_fields_moved(a, pa, b, pb, Map::empty());
        assert(moved_fields(Map::<Seq<char>, Tree>::empty(), by) =~= Map::<
            Seq<char>,
            Tree,
        >::empty());
    }
}

#[verifier::rlimit(60)]
proof fn lemma_items_moved(
    a: Seq<u8>,
    pa: int,
    b: Seq<u8>,
    pb: int,
    kind: u8,
    left: int,
    done: Seq<Tree>,
)
    requires
        0 <= pa <= a.len(),
        0 <= left,
        items_from(a, pa, kind, left, done) is Ok,
        same_bytes(a, pa, b, pb, items_from(a, pa, kind, left, done).unwrap().1 - pa),
    ensures
        items_from(b, pb, kind, left, moved_items(done, pb - pa)) == Ok::<(Seq<Tree>, int), Error>(
            (
                moved_items(items_from(a, pa, kind, left, done).unwrap().0, pb - pa),
                items_from(a, pa, kind, left, done).unwrap().1 + pb - pa,
            ),
        ),
    decreases a.len() - pa, 3int, left,
{
    let by = pb - pa;
    let end = items_from(a, pa, kind, left, done).unwrap().1;
    if left > 0 {
        let item = decode_at(a, pa, kind).unwrap();
        let more = done.push(item);
        assert(items_from(a, pa, kind, left, done) == items_from(a, item.end, kind, left - 1, more));
        lemma_items_end(a, item.end, kind, left - 1, more);
        lemma_same_within(a, pa, b, pb, end - pa, 0, item.end - pa);
        lemma_decode_moved(a, pa, b, pb, kind);
        lemma_same_within(a, pa, b, pb, end - pa, item.end - pa, end - item.end);
        lemma_items_moved(a, item.end, b, item.end + by, kind, left - 1, more);
        assert(moved(item, by).end == item.end + by);
        lemma_moved_push(done, item, by);
        assert(items_from(b, pb, kind, left, moved_items(done, by)) == items_from(
            b,
            item.end + by,
            kind,
            left - 1,
            moved_items(done, by).push(moved(item, by)),
        ));
    }
}

#[verifier::rlimit(60)]
proof fn lemma_fields_moved(
    a: Seq<u8>,
    pa: int,
    b: Seq<u8>,
    pb: int,
    done: Map<Seq<char>, Tree>,
)
    requires
        0 <= pa,
        done.dom().finite(),
        fields_from(a, pa, done) is Ok,
        same_bytes(a, pa, b, pb, fields_from(a, pa, done).unwrap().1 - pa),
    ensures
        fields_from(b, pb, moved_fields(done, pb - pa)) == Ok::<
            (Map<Seq<char>, Tree>, int),
            Error,
        >(
            (
                moved_fields(fields_from(a, pa, done).unwrap().0, pb - pa),
                fields_from(a, pa, done).unwrap().1 + pb - pa,
            ),
        ),
    decreases a.len() - pa, 0int, 0int,
{
    let by = pb - pa;
    let end = fields_from(a, pa, done).unwrap().1;
    lemma_fields_end(a, pa, done);
    lemma_same_reads(a, pa, b, pb, end - pa, 0, 1);
    if a[pa] != 0 {
        let (name, at) = text_at(a, pa + 1).unwrap();
        let field = decode_at(a, at, a[pa]).unwrap();
        let more = done.insert(name, field);
        lemma_fields_end(a, field.end, more);
        lemma_span_in_buffer(a, at, a[pa]);
        lemma_same_within(a, pa, b, pb, end - pa, 1, at - pa - 1);
        lemma_text_moved(a, pa + 1, b, pb + 1);
        lemma_same_within(a, pa, b, pb, end - pa, at - pa, field.end - at);
        lemma_decode_moved(a, at, b, at + by, a[pa]);
        lemma_same_within(a, pa, b, pb, end - pa, field.end - pa, end - field.end);
        lemma_fields_moved(a, field.end, b, field.end + by, more);
        lemma_moved_insert(done, name, field, by);
        assert(fields_from(a, pa, done) == fields_from(a, field.end, more));
        assert(text_at(b, pb + 1) == Ok::<(Seq<char>, int), Error>((name, at + by)));
        assert(decode_at(b, at + by, b[pb]) == Ok::<Tree, Error>(moved(field, by)));
        assert(moved(field, by).end == field.end + by);
        assert(fields_from(b, pb, moved_fields(done, by)) == fields_from(
            b,
            field.end + by,
            moved_fields(done, by).insert(name, moved(field, by)),
        ));
    }
}

/// Nothing decodes from before the start of the buffer.
pub proof fn lemma_starts_in_buffer(buf: Seq<u8>, pos: int, kind: u8)
    requires
        decode_at(buf, pos, kind) is Ok,
    ensures
        0 <= pos,
{
}

/// The span of a decoded node is exact: the bytes of the span, taken alone,
/// decode by the node's kind to the same node with its spans counted from the
/// start of those bytes, and the decode takes all of them.
pub proof fn lemma_span_exact(buf: Seq<u8>, node: Tree)
    requires
        decoded_in(buf, node),
    ensures
        node.start < node.end <= buf.len(),
        decode_at(buf.subrange(node.start, node.end), 0, kind_of(node.value)) == Ok::<Tree, Error>(
            moved(node, -node.start),
        ),
        moved(node, -node.start).start == 0,
        moved(node, -node.start).end == buf.subrange(node.start, node.end).len(),
{
    lemma_starts_in_buffer(buf, node.start, kind_of(node.value));
    lemma_span_in_buffer(buf, node.start, kind_of(node.value));
    let alone = buf.subrange(node.start, node.end);
    assert(alone.subrange(0, node.end - node.start) =~= alone);
    lemma_decode_moved(
        buf,
        node.start,
        buf.subrange(node.start, node.end),
        0,
        kind_of(node.value),
    );
}

/// Each field of a decoded Compound decodes again from the bytes of its own
/// span, taken alone, to the node that the Compound maps its name to, with the
/// spans counted from the start of those bytes.
pub proof fn lemma_fields_round_trip(buf: Seq<u8>, pos: int)
    requires
        decode_at(buf, pos, KIND_COMPOUND) is Ok,
    ensures
        ({
            let compound = decode_at(buf, pos, KIND_COMPOUND).unwrap();
            &&& compound.value is Compound
            &&& forall|name: Seq<char>| #[trigger]
                compound.value->Compound_0.contains_key(name) ==> ({
                    let field = compound.value->Compound_0[name];
                    decode_at(buf.subrange(field.start, field.end), 0, kind_of(field.value))
                        == Ok::<Tree, Error>(moved(field, -field.start))
                })
        }),
{
    lemma_compound_fields(buf, pos);
    let fields = decode_at(buf, pos, KIND_COMPOUND).unwrap().value->Compound_0;
    assert forall|name: Seq<char>| #[trigger] fields.contains_key(name) implies ({
        let field = fields[name];
        decode_at(buf.subrange(field.start, field.end), 0, kind_of(field.value)) == Ok::<
            Tree,
            Error,
        >(moved(field, -field.start))
    }) by {
        lemma_span_exact(buf, fields[name]);
    }
}

/// Each child of a decoded List decodes again from the bytes of its own span,
/// taken alone, by the List's element kind, to the same child with the spans
/// counted from the start of those bytes.
pub proof fn lemma_children_round_trip(buf: Seq<u8>, pos: int)
    requires
        decode_at(buf, pos, KIND_LIST) is Ok,
    ensures
        ({
            let list = decode_at(buf, pos, KIND_LIST).unwrap();
            &&& list.value is List
            &&& forall|i: int|
                0 <= i < list.value->List_0.len() ==> ({
                    let child = #[trigger] list.value->List_0[i];
                    decode_at(buf.subrange(child.start, child.end), 0, buf[pos]) == Ok::<
                        Tree,
                        Error,
                    >(moved(child, -child.start))
                })
        }),
{
    lemma_list_homogeneous(buf, pos);
    let items = decode_at(buf, pos, KIND_LIST).unwrap().value->List_0;
    assert forall|i: int| 0 <= i < items.len() implies ({
        let child = #[trigger] items[i];
        decode_at(buf.subrange(child.start, child.end), 0, buf[pos]) == Ok::<Tree, Error>(
            moved(child, -child.start),
        )
    }) by {
        assert(decode_at(buf, items[i].start, buf[pos]) == Ok::<Tree, Error>(items[i]));
        lemma_kind_kept(buf, items[i].start, buf[pos]);
        lemma_span_exact(buf, items[i]);
    }
}

} // verus!
