//! Framing on the wire: one record per line. A record is a text without a
//! line feed; a frame is a record followed by one line feed. What a record
//! says is decoded elsewhere; this module only cuts the stream.

use crate::fault::Fault;
use vstd::prelude::*;

verus! {

/// The byte that ends a frame: a line feed.
pub const TERMINATOR: u8 = 0x0a;

/// The bytes can stand in a frame: there is at least one, and none is the
/// terminator.
pub open spec fn is_record(bytes: Seq<u8>) -> bool {
    bytes.len() > 0 && forall|i: int| 0 <= i < bytes.len() ==> bytes[i] != TERMINATOR
}

/// The frame that carries `record`.
pub open spec fn framed(record: Seq<u8>) -> Seq<u8> {
    record.push(TERMINATOR)
}

/// A line as it was read from the stream, without the terminator at its
/// end. The last line of a stream may lack the terminator.
pub open spec fn body(line: Seq<u8>) -> Seq<u8> {
    if line.len() > 0 && line.last() == TERMINATOR {
        line.drop_last()
    } else {
        line
    }
}

/// Whether the bytes hold no terminator.
fn free_of_terminator(bytes: &[u8], end: usize) -> (r: bool)
    requires
        end <= bytes@.len(),
    ensures
        r == forall|i: int| 0 <= i < end ==> bytes@[i] != TERMINATOR,
{
    let mut i: usize = 0;
    while i < end
        invariant
            i <= end <= bytes@.len(),
            forall|k: int| 0 <= k < i ==> bytes@[k] != TERMINATOR,
        decreases end - i,
    {
        if bytes[i] == TERMINATOR {
            return false;
        }
        i = i + 1;
    }
    true
}

/// The first `end` bytes.
fn copy_of(bytes: &[u8], end: usize) -> (r: Vec<u8>)
    requires
        end <= bytes@.len(),
    ensures
        r@ == bytes@.take(end as int),
{
    let mut r: Vec<u8> = Vec::new();
    let mut i: usize = 0;
    while i < end
        invariant
            i <= end <= bytes@.len(),
            r@ == bytes@.take(i as int),
        decreases end - i,
    {
        r.push(bytes[i]);
        i = i + 1;
        assert(r@ =~= bytes@.take(i as int));
    }
    r
}

/// Puts a record into a frame. Bytes that cannot stand in a frame are
/// refused as a malformed message.
pub fn frame(record: &[u8]) -> (r: Result<Vec<u8>, Fault>)
    ensures
        match r {
            Ok(line) => is_record(record@) && line@ == framed(record@),
            Err(fault) => !is_record(record@) && fault == Fault::MalformedMessage,
        },
{
    if record.len() == 0 || !free_of_terminator(record, record.len()) {
        return Err(Fault::MalformedMessage);
    }
    let mut line = copy_of(record, record.len());
    assert(record@.take(record@.len() as int) =~= record@);
    line.push(TERMINATOR);
    Ok(line)
}

/// Takes the record out of a line that was read from the stream. A line
/// that holds no record, such as an empty one, is a malformed message.
pub fn unframe(line: &[u8]) -> (r: Result<Vec<u8>, Fault>)
    ensures
        match r {
            Ok(record) => is_record(body(line@)) && record@ == body(line@),
            Err(fault) => !is_record(body(line@)) && fault == Fault::MalformedMessage,
        },
{
    let n = line.len();
    let end: usize = if n > 0 && line[n - 1] == TERMINATOR {
        n - 1
    } else {
        n
    };
    assert(body(line@) =~= line@.take(end as int));
    if end == 0 {
        return Err(Fault::MalformedMessage);
    }
    let clean = free_of_terminator(line, end);
    proof {
        if is_record(body(line@)) {
            assert forall|i: int| 0 <= i < end implies line@[i] != TERMINATOR by {
                assert(body(line@)[i] == line@[i]);
            }
        }
    }
    if !clean {
        return Err(Fault::MalformedMessage);
    }
    Ok(copy_of(line, end))
}

/// Unframing a frame gives back the record that was framed.
pub proof fn lemma_unframe_frame(record: Seq<u8>)
    requires
        is_record(record),
    ensures
        body(framed(record)) == record,
        !is_record(framed(record)),
{
    assert(framed(record).drop_last() =~= record);
    assert(framed(record)[record.len() as int] == TERMINATOR);
}

} // verus!
