//! The decoder: what a buffer decodes to, and the function that computes it.

use vstd::prelude::*;
use vstd::slice::{slice_subrange, slice_to_vec};
use vstd::utf8::{decode_utf8, valid_utf8};
use crate::bytes::{
    be_i16, be_i32, be_i64, be_u32, be_u64, has_bytes, i16_at, i32_at, i64_at, i8_at, u32_at,
    u64_at, utf8_text,
};
use crate::tag::{
    node_ordered, nodes_view, tag_ordered, Compound, Error, Node, Tag, Tree, Value,
    KIND_BYTE, KIND_BYTE_ARRAY, KIND_COMPOUND, KIND_DOUBLE, KIND_END, KIND_FLOAT, KIND_INT,
    KIND_INT_ARRAY, KIND_LIST, KIND_LONG, KIND_LONG_ARRAY, KIND_SHORT, KIND_TEXT,
};

verus! {

/// The error of a read at `pos` that the buffer is too short for.
pub open spec fn short_at(pos: int) -> Error {
    Error::UnexpectedEnd { offset: pos as usize }
}

/// The six fixed-width kinds.
pub open spec fn is_scalar_kind(kind: u8) -> bool {
    KIND_BYTE <= kind <= KIND_DOUBLE
}

/// The three kinds that are a count followed by fixed-width elements.
pub open spec fn is_array_kind(kind: u8) -> bool {
    kind == KIND_BYTE_ARRAY || kind == KIND_INT_ARRAY || kind == KIND_LONG_ARRAY
}

/// The number of bytes of a scalar, or of one element of an array.
pub open spec fn width_of(kind: u8) -> int {
    if kind == KIND_BYTE || kind == KIND_BYTE_ARRAY {
        1
    } else if kind == KIND_SHORT {
        2
    } else if kind == KIND_INT || kind == KIND_FLOAT || kind == KIND_INT_ARRAY {
        4
    } else {
        8
    }
}

/// The scalar of kind `kind` that the bytes at `pos` spell.
pub open spec fn scalar_value(buf: Seq<u8>, pos: int, kind: u8) -> Value {
    if kind == KIND_BYTE {
        Value::Byte(i8_at(buf, pos) as i8)
    } else if kind == KIND_SHORT {
        Value::Short(i16_at(buf, pos) as i16)
    } else if kind == KIND_INT {
        Value::Int(i32_at(buf, pos) as i32)
    } else if kind == KIND_LONG {
        Value::Long(i64_at(buf, pos) as i64)
    } else if kind == KIND_FLOAT {
        Value::Float(u32_at(buf, pos) as u32)
    } else {
        Value::Double(u64_at(buf, pos) as u64)
    }
}

/// The array of kind `kind` whose `count` elements start at `pos`.
pub open spec fn array_value(buf: Seq<u8>, pos: int, kind: u8, count: int) -> Value {
    if kind == KIND_BYTE_ARRAY {
        Value::ByteArray(Seq::new(count as nat, |i: int| i8_at(buf, pos + i) as i8))
    } else if kind == KIND_INT_ARRAY {
        Value::IntArray(Seq::new(count as nat, |i: int| i32_at(buf, pos + 4 * i) as i32))
    } else {
        Value::LongArray(Seq::new(count as nat, |i: int| i64_at(buf, pos + 8 * i) as i64))
    }
}

/// A scalar payload at `pos`: the value and the position after it.
pub open spec fn scalar_at(buf: Seq<u8>, pos: int, kind: u8) -> Result<(Value, int), Error> {
    if !has_bytes(buf, pos, width_of(kind)) {
        Err(short_at(pos))
    } else {
        Ok((scalar_value(buf, pos, kind), pos + width_of(kind)))
    }
}

/// An array payload at `pos`: a signed 32-bit count, then the elements.
pub open spec fn array_at(buf: Seq<u8>, pos: int, kind: u8) -> Result<(Value, int), Error> {
    if !has_bytes(buf, pos, 4) {
        Err(short_at(pos))
    } else if i32_at(buf, pos) < 0 {
        Err(Error::NegativeLength { offset: pos as usize })
    } else if !has_bytes(buf, pos + 4, i32_at(buf, pos) * width_of(kind)) {
        Err(short_at(pos + 4))
    } else {
        Ok(
            (
                array_value(buf, pos + 4, kind, i32_at(buf, pos)),
                pos + 4 + i32_at(buf, pos) * width_of(kind),
            ),
        )
    }
}

/// The text that `bytes` encode, where they are valid UTF-8.
#[verifier::opaque]
pub open spec fn text_of(bytes: Seq<u8>) -> Option<Seq<char>> {
    if valid_utf8(bytes) {
        Some(decode_utf8(bytes))
    } else {
        None
    }
}

/// A text at `pos`: a signed 16-bit length, then that many bytes of UTF-8.
pub open spec fn text_at(buf: Seq<u8>, pos: int) -> Result<(Seq<char>, int), Error> {
    if !has_bytes(buf, pos, 2) {
        Err(short_at(pos))
    } else if i16_at(buf, pos) < 0 {
        Err(Error::NegativeLength { offset: pos as usize })
    } else if !has_bytes(buf, pos + 2, i16_at(buf, pos)) {
        Err(short_at(pos + 2))
    } else {
        match text_of(buf.subrange(pos + 2, pos + 2 + i16_at(buf, pos))) {
            None => Err(Error::InvalidEncoding { offset: pos as usize }),
            Some(text) => Ok((text, pos + 2 + i16_at(buf, pos))),
        }
    }
}

/// What decoding a payload of kind `kind` at `pos` gives: the node with its
/// span, or the first error met on the way. The span starts at `pos` and ends
/// where the payload's reader stopped.
pub open spec fn decode_at(buf: Seq<u8>, pos: int, kind: u8) -> Result<Tree, Error>
    decreases buf.len() - pos, 2int, 0int,
{
    match payload_at(buf, pos, kind) {
        Ok((value, end)) => Ok(Tree { start: pos, end, value }),
        Err(e) => Err(e),
    }
}

/// The reader of each kind: the value at `pos` and the position after it. The
/// terminator's identifier and any identifier above the last kind have none.
pub open spec fn payload_at(buf: Seq<u8>, pos: int, kind: u8) -> Result<(Value, int), Error>
    decreases buf.len() - pos, 1int, 0int,
{
    if is_scalar_kind(kind) {
        scalar_at(buf, pos, kind)
    } else if is_array_kind(kind) {
        array_at(buf, pos, kind)
    } else if kind == KIND_TEXT {
        match text_at(buf, pos) {
            Ok((text, end)) => Ok((Value::Text(text), end)),
            Err(e) => Err(e),
        }
    } else if kind == KIND_LIST {
        if !has_bytes(buf, pos, 1) {
            Err(short_at(pos))
        } else if !has_bytes(buf, pos + 1, 4) {
            Err(short_at(pos + 1))
        } else if i32_at(buf, pos + 1) < 0 {
            Err(Error::NegativeLength { offset: (pos + 1) as usize })
        } else {
            match items_from(buf, pos + 5, buf[pos], i32_at(buf, pos + 1), Seq::empty()) {
                Ok((items, end)) => Ok((Value::List(items), end)),
                Err(e) => Err(e),
            }
        }
    } else if kind == KIND_COMPOUND {
        match fields_from(buf, pos, Map::empty()) {
            Ok((fields, end)) => Ok((Value::Compound(fields), end)),
            Err(e) => Err(e),
        }
    } else {
        Err(Error::UnknownTagKind { offset: pos as usize, id: kind })
    }
}

/// The rest of a List: `left` more payloads of kind `kind` from `pos` on, added
/// to the `done` ones that came before. Every payload ends after its start and
/// inside the buffer, so the test on an item's end never fails; it is what
/// shows that the reader moves forward.
pub open spec fn items_from(buf: Seq<u8>, pos: int, kind: u8, left: int, done: Seq<Tree>) -> Result<
    (Seq<Tree>, int),
    Error,
>
    decreases buf.len() - pos, 3int, left,
{
    if left <= 0 {
        Ok((done, pos))
    } else {
        match decode_at(buf, pos, kind) {
            Err(e) => Err(e),
            Ok(item) => if pos < item.end <= buf.len() {
                items_from(buf, item.end, kind, left - 1, done.push(item))
            } else {
                Err(short_at(pos))
            },
        }
    }
}

/// The rest of a Compound: named payloads from `pos` on, up to the terminator,
/// written over the `done` ones that came before. A field's name is read
/// before its payload, and the payload by the identifier that stands before
/// the name. As for a List, the test on a field's end never fails.
pub open spec fn fields_from(buf: Seq<u8>, pos: int, done: Map<Seq<char>, Tree>) -> Result<
    (Map<Seq<char>, Tree>, int),
    Error,
>
    decreases buf.len() - pos, 0int, 0int,
{
    if !has_bytes(buf, pos, 1) {
        Err(short_at(pos))
    } else if buf[pos] == KIND_END {
        Ok((done, pos + 1))
    } else {
        match text_at(buf, pos + 1) {
            Err(e) => Err(e),
            Ok((name, at)) => match decode_at(buf, at, buf[pos]) {
                Err(e) => Err(e),
                Ok(field) => if at < field.end <= buf.len() {
                    fields_from(buf, field.end, done.insert(name, field))
                } else {
                    Err(short_at(at))
                },
            },
        }
    }
}

/// What decoding a whole buffer gives: one Compound payload from its start.
pub open spec fn decode_root_of(buf: Seq<u8>) -> Result<Tree, Error> {
    decode_at(buf, 0, KIND_COMPOUND)
}

/// Whether `r` is what the model `m` says, node by view.
pub open spec fn same_node(r: Result<Node, Error>, m: Result<Tree, Error>) -> bool {
    match r {
        Ok(node) => m == Ok::<Tree, Error>(node@),
        Err(e) => m == Err::<Tree, Error>(e),
    }
}

/// Whether `r` is what the model `m` says, tag by view.
pub open spec fn same_payload(r: Result<(Tag, usize), Error>, m: Result<(Value, int), Error>) -> bool {
    match r {
        Ok((tag, end)) => m == Ok::<(Value, int), Error>((tag@, end as int)),
        Err(e) => m == Err::<(Value, int), Error>(e),
    }
}

/// Whether `n` bytes lie in `buf` from `pos` on.
fn fits(buf: &[u8], pos: usize, n: usize) -> (r: bool)
    ensures
        r == has_bytes(buf@, pos as int, n as int),
        r ==> pos + n <= usize::MAX,
{
    pos <= buf.len() && n <= buf.len() - pos
}

/// The `n` bytes of `buf` from `pos` on.
fn window(buf: &[u8], pos: usize, n: usize) -> (r: &[u8])
    requires
        has_bytes(buf@, pos as int, n as int),
    ensures
        r@ == buf@.subrange(pos as int, pos + n),
{
    let len: usize = buf.len();
    assert(pos + n <= len);
    slice_subrange(buf, pos, pos + n)
}

/// The byte at `pos` as a two's complement number.
fn read_i8(buf: &[u8], pos: usize) -> (r: i8)
    requires
        has_bytes(buf@, pos as int, 1),
    ensures
        r as int == i8_at(buf@, pos as int),
{
    let b: u8 = buf[pos];
    if b >= 0x80 {
        (b as i16 - 0x100) as i8
    } else {
        b as i8
    }
}

/// The big-endian signed number in the 2 bytes at `pos`.
fn read_i16(buf: &[u8], pos: usize) -> (r: i16)
    requires
        has_bytes(buf@, pos as int, 2),
    ensures
        r as int == i16_at(buf@, pos as int),
{
    be_i16(window(buf, pos, 2))
}

/// The big-endian signed number in the 4 bytes at `pos`.
fn read_i32(buf: &[u8], pos: usize) -> (r: i32)
    requires
        has_bytes(buf@, pos as int, 4),
    ensures
        r as int == i32_at(buf@, pos as int),
{
    be_i32(window(buf, pos, 4))
}

/// The big-endian signed number in the 8 bytes at `pos`.
fn read_i64(buf: &[u8], pos: usize) -> (r: i64)
    requires
        has_bytes(buf@, pos as int, 8),
    ensures
        r as int == i64_at(buf@, pos as int),
{
    be_i64(window(buf, pos, 8))
}

/// The big-endian unsigned number in the 4 bytes at `pos`.
fn read_u32(buf: &[u8], pos: usize) -> (r: u32)
    requires
        has_bytes(buf@, pos as int, 4),
    ensures
        r as int == u32_at(buf@, pos as int),
{
    be_u32(window(buf, pos, 4))
}

/// The big-endian unsigned number in the 8 bytes at `pos`.
fn read_u64(buf: &[u8], pos: usize) -> (r: u64)
    requires
        has_bytes(buf@, pos as int, 8),
    ensures
        r as int == u64_at(buf@, pos as int),
{
    be_u64(window(buf, pos, 8))
}

/// Reads a payload of one of the fixed-width kinds.
fn decode_scalar(buf: &[u8], pos: usize, kind: u8) -> (r: Result<(Tag, usize), Error>)
    requires
        is_scalar_kind(kind),
    ensures
        same_payload(r, scalar_at(buf@, pos as int, kind)),
        r matches Ok((tag, end)) ==> pos < end <= buf@.len() && tag_ordered(tag),
{
    let width: usize = if kind == KIND_BYTE {
        1
    } else if kind == KIND_SHORT {
        2
    } else if kind == KIND_INT || kind == KIND_FLOAT {
        4
    } else {
        8
    };
    if !fits(buf, pos, width) {
        return Err(Error::UnexpectedEnd { offset: pos });
    }
    let tag = if kind == KIND_BYTE {
        Tag::Byte(read_i8(buf, pos))
    } else if kind == KIND_SHORT {
        Tag::Short(read_i16(buf, pos))
    } else if kind == KIND_INT {
        Tag::Int(read_i32(buf, pos))
    } else if kind == KIND_LONG {
        Tag::Long(read_i64(buf, pos))
    } else if kind == KIND_FLOAT {
        Tag::Float(read_u32(buf, pos))
    } else {
        Tag::Double(read_u64(buf, pos))
    };
    Ok((tag, pos + width))
}

/// Reads `n` signed bytes from `base` on.
fn read_bytes(buf: &[u8], base: usize, n: usize) -> (items: Vec<i8>)
    requires
        has_bytes(buf@, base as int, n as int),
        buf@.len() <= usize::MAX,
    ensures
        items@ == Seq::new(n as nat, |i: int| i8_at(buf@, base + i) as i8),
{
    let mut items: Vec<i8> = Vec::new();
    let mut i: usize = 0;
    while i < n
        invariant
            i <= n,
            has_bytes(buf@, base as int, n as int),
            buf@.len() <= usize::MAX,
            items@.len() == i,
            forall|j: int| 0 <= j < i ==> items@[j] as int == i8_at(buf@, base + j),
        decreases n - i,
    {
        items.push(read_i8(buf, base + i));
        i += 1;
    }
    assert(items@ =~= Seq::new(n as nat, |i: int| i8_at(buf@, base + i) as i8));
    items
}

/// Reads `n` signed 32-bit numbers from `base` on.
fn read_ints(buf: &[u8], base: usize, n: usize) -> (items: Vec<i32>)
    requires
        has_bytes(buf@, base as int, 4 * n),
        buf@.len() <= usize::MAX,
    ensures
        items@ == Seq::new(n as nat, |i: int| i32_at(buf@, base + 4 * i) as i32),
{
    let mut items: Vec<i32> = Vec::new();
    let mut i: usize = 0;
    while i < n
        invariant
            i <= n,
            has_bytes(buf@, base as int, 4 * n),
            buf@.len() <= usize::MAX,
            items@.len() == i,
            forall|j: int| 0 <= j < i ==> items@[j] as int == i32_at(buf@, base + 4 * j),
        decreases n - i,
    {
        items.push(read_i32(buf, base + 4 * i));
        i += 1;
    }
    assert(items@ =~= Seq::new(n as nat, |i: int| i32_at(buf@, base + 4 * i) as i32));
    items
}

/// Reads `n` signed 64-bit numbers from `base` on.
fn read_longs(buf: &[u8], base: usize, n: usize) -> (items: Vec<i64>)
    requires
        has_bytes(buf@, base as int, 8 * n),
        buf@.len() <= usize::MAX,
    ensures
        items@ == Seq::new(n as nat, |i: int| i64_at(buf@, base + 8 * i) as i64),
{
    let mut items: Vec<i64> = Vec::new();
    let mut i: usize = 0;
    while i < n
        invariant
            i <= n,
            has_bytes(buf@, base as int, 8 * n),
            buf@.len() <= usize::MAX,
            items@.len() == i,
            forall|j: int| 0 <= j < i ==> items@[j] as int == i64_at(buf@, base + 8 * j),
        decreases n - i,
    {
        items.push(read_i64(buf, base + 8 * i));
        i += 1;
    }
    assert(items@ =~= Seq::new(n as nat, |i: int| i64_at(buf@, base + 8 * i) as i64));
    items
}

/// Reads a payload of one of the array kinds: the count, then the elements.
fn decode_array(buf: &[u8], pos: usize, kind: u8) -> (r: Result<(Tag, usize), Error>)
    requires
        is_array_kind(kind),
    ensures
        same_payload(r, array_at(buf@, pos as int, kind)),
        r matches Ok((tag, end)) ==> pos < end <= buf@.len() && tag_ordered(tag),
{
    if !fits(buf, pos, 4) {
        return Err(Error::UnexpectedEnd { offset: pos });
    }
    let count: i32 = read_i32(buf, pos);
    if count < 0 {
        return Err(Error::NegativeLength { offset: pos });
    }
    let width: u64 = if kind == KIND_BYTE_ARRAY {
        1
    } else if kind == KIND_INT_ARRAY {
        4
    } else {
        8
    };
    let rest: usize = buf.len() - (pos + 4);
    let total: u64 = count as u64 * width;
    if total > rest as u64 {
        return Err(Error::UnexpectedEnd { offset: pos + 4 });
    }
    let n: usize = count as usize;
    if kind == KIND_BYTE_ARRAY {
        Ok((Tag::ByteArray(read_bytes(buf, pos + 4, n)), pos + 4 + n))
    } else if kind == KIND_INT_ARRAY {
        Ok((Tag::IntArray(read_ints(buf, pos + 4, n)), pos + 4 + 4 * n))
    } else {
        Ok((Tag::LongArray(read_longs(buf, pos + 4, n)), pos + 4 + 8 * n))
    }
}

/// Reads a length-prefixed text, as a Text payload and a field's name are.
fn decode_text(buf: &[u8], pos: usize) -> (r: Result<(String, usize), Error>)
    ensures
        match r {
            Ok((text, end)) => text_at(buf@, pos as int) == Ok::<(Seq<char>, int), Error>(
                (text@, end as int),
            ),
            Err(e) => text_at(buf@, pos as int) == Err::<(Seq<char>, int), Error>(e),
        },
        r matches Ok((_, end)) ==> pos < end <= buf@.len(),
{
    if !fits(buf, pos, 2) {
        return Err(Error::UnexpectedEnd { offset: pos });
    }
    let length: i16 = read_i16(buf, pos);
    if length < 0 {
        return Err(Error::NegativeLength { offset: pos });
    }
    let n: usize = length as usize;
    if !fits(buf, pos + 2, n) {
        return Err(Error::UnexpectedEnd { offset: pos + 2 });
    }
    proof {
        reveal(text_of);
    }
    match utf8_text(slice_to_vec(window(buf, pos + 2, n))) {
        Some(text) => Ok((text, pos + 2 + n)),
        None => Err(Error::InvalidEncoding { offset: pos }),
    }
}

/// Decodes the payload of kind `kind` that starts at `pos`, and records the
/// span of bytes that it took. The terminator's identifier and identifiers
/// above the last kind are refused.
pub fn decode(buf: &[u8], pos: usize, kind: u8) -> (r: Result<Node, Error>)
    ensures
        same_node(r, decode_at(buf@, pos as int, kind)),
        r matches Ok(node) ==> node.start == pos && pos < node.end <= buf@.len()
            && node.well_formed(),
    decreases buf@.len() - pos, 2int,
{
    match decode_payload(buf, pos, kind) {
        Ok((tag, end)) => Ok(Node { start: pos, end, tag }),
        Err(e) => Err(e),
    }
}

/// Picks the reader of `kind` and runs it at `pos`.
fn decode_payload(buf: &[u8], pos: usize, kind: u8) -> (r: Result<(Tag, usize), Error>)
    ensures
        same_payload(r, payload_at(buf@, pos as int, kind)),
        r matches Ok((tag, end)) ==> pos < end <= buf@.len() && tag_ordered(tag),
    decreases buf@.len() - pos, 1int,
{
    if KIND_BYTE <= kind && kind <= KIND_DOUBLE {
        decode_scalar(buf, pos, kind)
    } else if kind == KIND_BYTE_ARRAY || kind == KIND_INT_ARRAY || kind == KIND_LONG_ARRAY {
        decode_array(buf, pos, kind)
    } else if kind == KIND_TEXT {
        match decode_text(buf, pos) {
            Ok((text, end)) => Ok((Tag::Text(text), end)),
            Err(e) => Err(e),
        }
    } else if kind == KIND_LIST {
        decode_list(buf, pos)
    } else if kind == KIND_COMPOUND {
        decode_compound(buf, pos)
    } else {
        Err(Error::UnknownTagKind { offset: pos, id: kind })
    }
}

/// Reads a List payload: the element kind, the count, then each child.
fn decode_list(buf: &[u8], pos: usize) -> (r: Result<(Tag, usize), Error>)
    ensures
        same_payload(r, payload_at(buf@, pos as int, KIND_LIST)),
        r matches Ok((tag, end)) ==> pos < end <= buf@.len() && tag_ordered(tag),
    decreases buf@.len() - pos, 0int,
{
    if !fits(buf, pos, 1) {
        return Err(Error::UnexpectedEnd { offset: pos });
    }
    let kind: u8 = buf[pos];
    if !fits(buf, pos + 1, 4) {
        return Err(Error::UnexpectedEnd { offset: pos + 1 });
    }
    let count: i32 = read_i32(buf, pos + 1);
    if count < 0 {
        return Err(Error::NegativeLength { offset: pos + 1 });
    }
    let ghost whole = items_from(buf@, pos + 5, kind, count as int, Seq::empty());
    let mut items: Vec<Node> = Vec::new();
    let mut at: usize = pos + 5;
    let mut left: i32 = count;
    assert(nodes_view(items) =~= Seq::empty());
    while left > 0
        invariant
            pos + 5 <= at <= buf@.len(),
            0 <= left <= count,
            has_bytes(buf@, pos as int, 5),
            kind == buf@[pos as int],
            count == i32_at(buf@, pos + 1),
            whole == items_from(buf@, pos + 5, kind, count as int, Seq::empty()),
            forall|i: int| 0 <= i < items.len() ==> node_ordered(#[trigger] items[i]),
            items_from(buf@, at as int, kind, left as int, nodes_view(items)) == whole,
        decreases left,
    {
        match decode(buf, at, kind) {
            Err(e) => {
                return Err(e);
            },
            Ok(node) => {
                let ghost before = items;
                let ghost tree = node@;
                at = node.end;
                items.push(node);
                left -= 1;
                assert(nodes_view(items) =~= nodes_view(before).push(tree));
            },
        }
    }
    Ok((Tag::List(items), at))
}

/// Reads a Compound payload: named fields up to the terminator.
fn decode_compound(buf: &[u8], pos: usize) -> (r: Result<(Tag, usize), Error>)
    ensures
        same_payload(r, payload_at(buf@, pos as int, KIND_COMPOUND)),
        r matches Ok((tag, end)) ==> pos < end <= buf@.len() && tag_ordered(tag),
    decreases buf@.len() - pos, 0int,
{
    let ghost whole = fields_from(buf@, pos as int, Map::empty());
    let mut compound = Compound::new();
    let mut at: usize = pos;
    loop
        invariant
            pos <= at,
            whole == fields_from(buf@, pos as int, Map::empty()),
            compound.well_formed(),
            fields_from(buf@, at as int, compound@) == whole,
        decreases buf@.len() - at,
    {
        if !fits(buf, at, 1) {
            return Err(Error::UnexpectedEnd { offset: at });
        }
        let kind: u8 = buf[at];
        if kind == KIND_END {
            return Ok((Tag::Compound(compound), at + 1));
        }
        let (name, start) = match decode_text(buf, at + 1) {
            Ok(named) => named,
            Err(e) => {
                return Err(e);
            },
        };
        match decode(buf, start, kind) {
            Err(e) => {
                return Err(e);
            },
            Ok(node) => {
                at = node.end;
                compound.put(name, node);
            },
        }
    }
}

/// Decodes a whole buffer: one Compound payload that starts at its first byte,
/// with no identifier or name before it.
pub fn decode_root(buf: &[u8]) -> (r: Result<Node, Error>)
    ensures
        same_node(r, decode_root_of(buf@)),
        r matches Ok(node) ==> node.start == 0 && 0 < node.end <= buf@.len()
            && node.well_formed(),
{
    decode(buf, 0, KIND_COMPOUND)
}

} // verus!
