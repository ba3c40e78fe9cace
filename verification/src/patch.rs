//! Removal of a span of bytes from a buffer.

use vstd::prelude::*;

verus! {

/// What is left of `buf` once the bytes of `[start, end)` are taken out: the
/// bytes before the span, then the bytes after it.
pub open spec fn without_span(buf: Seq<u8>, start: int, end: int) -> Seq<u8> {
    buf.subrange(0, start) + buf.subrange(end, buf.len() as int)
}

/// Removes the bytes of `[start, end)` from `buffer`; the bytes after the span
/// move left by its length. Nothing else in the buffer is touched: a count or
/// length stored elsewhere that covered the removed bytes stays as it was.
pub fn delete_span(buffer: &mut Vec<u8>, start: usize, end: usize)
    requires
        start <= end <= old(buffer)@.len(),
    ensures
        final(buffer)@ == without_span(old(buffer)@, start as int, end as int),
        final(buffer)@.len() == old(buffer)@.len() - (end - start),
        forall|i: int| 0 <= i < start ==> final(buffer)@[i] == old(buffer)@[i],
        forall|i: int|
            start <= i < final(buffer)@.len() ==> final(buffer)@[i] == old(buffer)@[i + (end
                - start)],
{
    let ghost before = buffer@;
    let len: usize = buffer.len();
    let width: usize = end - start;
    let mut i: usize = end;
    while i < len
        invariant
            start <= end <= i <= len,
            width == end - start,
            buffer@.len() == len,
            before.len() == len,
            forall|j: int| 0 <= j < start ==> buffer@[j] == before[j],
            forall|j: int| start <= j < i - width ==> buffer@[j] == before[j + width],
            forall|j: int| i <= j < len ==> buffer@[j] == before[j],
        decreases len - i,
    {
        let byte: u8 = buffer[i];
        buffer.set(i - width, byte);
        i += 1;
    }
    buffer.truncate(len - width);
    assert(buffer@ =~= without_span(before, start as int, end as int));
}

} // verus!
