//! A marshaling bridge for a flat, byte-oriented calling convention.
//!
//! A host and a compiled guest module exchange structured values through a
//! pointer and a length.  Everything that crosses the boundary is reduced to
//! bytes in a self-describing wire format and reconstituted on the other
//! side.  This crate holds the verified core of that bridge:
//!
//! * `value`: the closed intermediate value model and the serializable
//!   error taxonomy;
//! * `wire`: the wire format as a mathematical function from values to
//!   byte sequences, with its injectivity and prefix-freedom laws;
//! * `encode`: the encoder, proved to produce exactly the wire encoding;
//! * `decode`: the decoder, proved sound (whatever it accepts re-encodes to
//!   the input) and complete (every encoding is accepted and every
//!   truncation is rejected with a structured error);
//! * `boundary`: bounds-checked transfer into and out of a modeled linear
//!   memory, and the length-prefixed frame layout of a delivered buffer;
//! * `guest`: the guest-facing entry points, each a thin composition of
//!   receive, decode, encode and deliver.
//!
//! Raw-pointer plumbing cannot be verified and lives outside this crate; the
//! functions here work on owned, bounds-checked buffers only.

pub mod boundary;
pub mod decode;
pub mod encode;
pub mod guest;
pub mod value;
pub mod wire;
