//! Big-endian integers and UTF-8 text, as the format lays them out.

use vstd::prelude::*;
use vstd::utf8::{decode_utf8, valid_utf8};
use byteorder::{BigEndian, ByteOrder};

verus! {

/// Whether `n` bytes lie in `buf` from `pos` on.
pub open spec fn has_bytes(buf: Seq<u8>, pos: int, n: int) -> bool {
    0 <= pos && 0 <= n && pos + n <= buf.len()
}

/// The unsigned number that the 2 bytes at `pos` spell, most significant first.
pub open spec fn u16_at(buf: Seq<u8>, pos: int) -> int {
    buf[pos] as int * 0x100 + buf[pos + 1] as int
}

/// The unsigned number that the 4 bytes at `pos` spell, most significant first.
pub open spec fn u32_at(buf: Seq<u8>, pos: int) -> int {
    u16_at(buf, pos) * 0x1_0000 + u16_at(buf, pos + 2)
}

/// The unsigned number that the 8 bytes at `pos` spell, most significant first.
pub open spec fn u64_at(buf: Seq<u8>, pos: int) -> int {
    u32_at(buf, pos) * 0x1_0000_0000 + u32_at(buf, pos + 4)
}

/// The byte at `pos` read as a two's complement number.
pub open spec fn i8_at(buf: Seq<u8>, pos: int) -> int {
    if buf[pos] >= 0x80 {
        buf[pos] as int - 0x100
    } else {
        buf[pos] as int
    }
}

/// The 2 bytes at `pos` read as a two's complement number.
pub open spec fn i16_at(buf: Seq<u8>, pos: int) -> int {
    if u16_at(buf, pos) >= 0x8000 {
        u16_at(buf, pos) - 0x1_0000
    } else {
        u16_at(buf, pos)
    }
}

/// The 4 bytes at `pos` read as a two's complement number.
pub open spec fn i32_at(buf: Seq<u8>, pos: int) -> int {
    if u32_at(buf, pos) >= 0x8000_0000 {
        u32_at(buf, pos) - 0x1_0000_0000
    } else {
        u32_at(buf, pos)
    }
}

/// The 8 bytes at `pos` read as a two's complement number.
pub open spec fn i64_at(buf: Seq<u8>, pos: int) -> int {
    if u64_at(buf, pos) >= 0x8000_0000_0000_0000 {
        u64_at(buf, pos) - 0x1_0000_0000_0000_0000
    } else {
        u64_at(buf, pos)
    }
}

/// `byteorder::BigEndian::read_i16`: the first 2 bytes of `bytes`, most
/// significant first, as a two's complement number. It panics on fewer bytes.
#[verifier::external_body]
pub(crate) fn be_i16(bytes: &[u8]) -> (r: i16)
    requires
        bytes@.len() >= 2,
    ensures
        r as int == i16_at(bytes@, 0),
{
    BigEndian::read_i16(bytes)
}

/// `byteorder::BigEndian::read_i32`: the first 4 bytes of `bytes`, most
/// significant first, as a two's complement number. It panics on fewer bytes.
#[verifier::external_body]
pub(crate) fn be_i32(bytes: &[u8]) -> (r: i32)
    requires
        bytes@.len() >= 4,
    ensures
        r as int == i32_at(bytes@, 0),
{
    BigEndian::read_i32(bytes)
}

/// `byteorder::BigEndian::read_i64`: the first 8 bytes of `bytes`, most
/// significant first, as a two's complement number. It panics on fewer bytes.
#[verifier::external_body]
pub(crate) fn be_i64(bytes: &[u8]) -> (r: i64)
    requires
        bytes@.len() >= 8,
    ensures
        r as int == i64_at(bytes@, 0),
{
    BigEndian::read_i64(bytes)
}

/// `byteorder::BigEndian::read_u32`: the first 4 bytes of `bytes`, most
/// significant first, as an unsigned number. It panics on fewer bytes.
#[verifier::external_body]
pub(crate) fn be_u32(bytes: &[u8]) -> (r: u32)
    requires
        bytes@.len() >= 4,
    ensures
        r as int == u32_at(bytes@, 0),
{
    BigEndian::read_u32(bytes)
}

/// `byteorder::BigEndian::read_u64`: the first 8 bytes of `bytes`, most
/// significant first, as an unsigned number. It panics on fewer bytes.
#[verifier::external_body]
pub(crate) fn be_u64(bytes: &[u8]) -> (r: u64)
    requires
        bytes@.len() >= 8,
    ensures
        r as int == u64_at(bytes@, 0),
{
    BigEndian::read_u64(bytes)
}

/// `String::from_utf8`: the text that `bytes` encode, where they are valid
/// UTF-8, and nothing where they are not.
#[verifier::external_body]
pub(crate) fn utf8_text(bytes: Vec<u8>) -> (r: Option<String>)
    ensures
        r.is_some() <==> valid_utf8(bytes@),
        r matches Some(text) ==> text@ == decode_utf8(bytes@),
{
    match String::from_utf8(bytes) {
        Ok(text) => Some(text),
        Err(_) => None,
    }
}

} // verus!
