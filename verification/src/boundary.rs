//! The boundary adapter, on owned buffers.
//!
//! Linear memory is modeled as a byte vector.  `receive` copies the
//! `(pointer, capacity)` region out of it and is proved to depend on that
//! region alone, so no call can ever read outside
//! `[pointer, pointer + capacity)`.  `deliver` wraps an encoded value into
//! the frame layout a returned allocation uses: an eight-byte big-endian
//! length header followed by the payload, so the host can tell from the
//! header alone how many bytes to copy out.  `open_frame` is the host-side
//! inverse.
//!
//! The raw-pointer plumbing that moves these buffers in and out of real
//! guest memory is thin, unverifiable glue and lives outside this crate;
//! the ownership rule it must follow is: the host copies a delivered frame
//! out immediately after the call returns, then asks the guest to release
//! it, and a received region is only borrowed for the duration of one call.

use vstd::prelude::*;

use crate::decode::{copy_range, read_u64};
use crate::encode::{encode, push_u64};
use crate::value::{Error, ErrorModel, Value, wf, wf_err};
use crate::wire::{be8, enc, from8, lemma_be8_from8, lemma_from8_be8};

verus! {

/// The diagnostic text of a rejected receive: "receive out of range".
pub open spec fn range_text() -> Seq<u8> {
    seq![
        114u8, 101u8, 99u8, 101u8, 105u8, 118u8, 101u8, 32u8, 111u8, 117u8, 116u8, 32u8, 111u8,
        102u8, 32u8, 114u8, 97u8, 110u8, 103u8, 101u8,
    ]
}

/// The error reported when a `(pointer, capacity)` pair does not lie inside
/// guest memory.
fn range_error() -> (e: Error)
    ensures
        e.model() == ErrorModel::Message(range_text()),
        wf_err(e.model()),
{
    let mut t: Vec<u8> = Vec::new();
    t.push(114);
    t.push(101);
    t.push(99);
    t.push(101);
    t.push(105);
    t.push(118);
    t.push(101);
    t.push(32);
    t.push(111);
    t.push(117);
    t.push(116);
    t.push(32);
    t.push(111);
    t.push(102);
    t.push(32);
    t.push(114);
    t.push(97);
    t.push(110);
    t.push(103);
    t.push(101);
    assert(t@ =~= range_text());
    Error::Message(t)
}

/// Copies `capacity` bytes starting at `pointer` out of guest memory into a
/// freshly owned buffer.
///
/// The result is exactly `memory[pointer .. pointer + capacity]` — the call
/// depends on no byte outside that region, reads nothing when the region
/// does not lie inside memory, and leaves memory untouched (it is only
/// borrowed).
pub fn receive(memory: &Vec<u8>, pointer: usize, capacity: usize) -> (r: Result<Vec<u8>, Error>)
    ensures
        pointer + capacity <= memory@.len() ==> (r matches Ok(buf) && buf@ == memory@.subrange(
            pointer as int,
            pointer as int + capacity as int,
        )),
        pointer + capacity > memory@.len() ==> (r matches Err(e) && e.model()
            == ErrorModel::Message(range_text())),
{
    if pointer > memory.len() || capacity > memory.len() - pointer {
        return Err(range_error());
    }
    Ok(copy_range(memory, pointer, capacity))
}

/// The frame layout of a delivered buffer: an eight-byte big-endian length
/// header, then the payload.
pub open spec fn frame_of(payload: Seq<u8>) -> Seq<u8> {
    be8(payload.len() as u64) + payload
}

/// Encodes a value and wraps it into the delivered frame layout.
///
/// The result is owned by the caller; in the boundary protocol the host
/// copies it out right after the call returns and then requests release.
pub fn deliver(v: &Value) -> (frame: Vec<u8>)
    ensures
        frame@ == frame_of(enc(v.model())),
        wf(v.model()),
{
    let mut payload = encode(v);
    let mut frame: Vec<u8> = Vec::new();
    push_u64(&mut frame, payload.len() as u64);
    frame.append(&mut payload);
    assert(frame@ =~= frame_of(enc(v.model())));
    frame
}

/// The host-side inverse of `deliver`: checks the header and hands back the
/// payload.  Returns the payload exactly when the buffer is a well-formed
/// frame.
pub fn open_frame(frame: &Vec<u8>) -> (r: Option<Vec<u8>>)
    ensures
        (r matches Some(q) ==> frame@ == frame_of(q@)),
        forall|p: Seq<u8>|
            p.len() <= u64::MAX && frame@ == frame_of(p) ==> (r matches Some(q) && q@ == p),
{
    proof {
        assert forall|p: Seq<u8>| p.len() <= u64::MAX && frame@ == frame_of(p) implies frame@.len()
            == 8 + p.len() && from8(frame@.subrange(0, 8)) == p.len() && frame@.subrange(
            8,
            frame@.len() as int,
        ) == p by {
            lemma_from8_be8(p.len() as u64);
            assert(frame@.subrange(0, 8) =~= be8(p.len() as u64));
            assert(frame@.subrange(8, frame@.len() as int) =~= p);
        }
    }
    if frame.len() < 8 {
        return None;
    }
    let n = read_u64(frame, 0);
    let rest = frame.len() - 8;
    if n != rest as u64 {
        return None;
    }
    let pay = copy_range(frame, 8, rest);
    proof {
        lemma_be8_from8(frame@.subrange(0, 8));
        assert(frame@ =~= frame_of(pay@));
    }
    Some(pay)
}

} // verus!
