//! The encoder.
//!
//! `encode` turns a value into exactly the byte sequence `wire::enc` assigns
//! to its model.  Encoding is total over the value model: it cannot fail, and
//! it also establishes that the model of every executable value is
//! well-formed (every collection it holds fits the wire headers).

use vstd::prelude::*;

use crate::value::{
    Entry, Error, ErrorCode, Value, lemma_model_entries_from, lemma_model_seq_from,
    lemma_wf_seq_from, model_entries_from, model_seq_from, wf, wf_err,
};
use crate::wire::{
    ERR_MESSAGE, ERR_SYNTAX, ERR_UNMATCHED, TAG_BYTES, TAG_DICT, TAG_ERR, TAG_EXT, TAG_INT,
    TAG_LIST, TAG_NIL, TAG_SET, TAG_TEXT, TAG_TRUE, TAG_FALSE, be8, code_num, enc, enc_err,
    enc_seq_from, lemma_enc_seq_push,
};

verus! {

/// Appends the eight big-endian bytes of `x`.
pub(crate) fn push_u64(out: &mut Vec<u8>, x: u64)
    ensures
        final(out)@ == old(out)@ + be8(x),
{
    out.push(((x >> 56) & 0xff) as u8);
    out.push(((x >> 48) & 0xff) as u8);
    out.push(((x >> 40) & 0xff) as u8);
    out.push(((x >> 32) & 0xff) as u8);
    out.push(((x >> 24) & 0xff) as u8);
    out.push(((x >> 16) & 0xff) as u8);
    out.push(((x >> 8) & 0xff) as u8);
    out.push((x & 0xff) as u8);
    assert(out@ =~= old(out)@ + be8(x));
}

/// Appends a copy of `bs`.
fn push_bytes(out: &mut Vec<u8>, bs: &Vec<u8>)
    ensures
        final(out)@ == old(out)@ + bs@,
{
    let ghost base = out@;
    let mut k: usize = 0;
    while k < bs.len()
        invariant
            k <= bs@.len(),
            out@ == base + bs@.take(k as int),
        decreases bs@.len() - k,
    {
        out.push(bs[k]);
        assert(out@ =~= base + bs@.take(k as int + 1));
        k = k + 1;
    }
    assert(out@ =~= base + bs@);
}

/// The wire byte of a syntax-violation category.
fn code_byte(c: ErrorCode) -> (r: u8)
    ensures
        r == code_num(c),
{
    match c {
        ErrorCode::UnsupportedCacheType => 0,
        ErrorCode::TrailingBytes => 1,
    }
}

/// Appends the encoding of an error payload (the bytes after `TAG_ERR`).
fn encode_err_into(e: &Error, out: &mut Vec<u8>)
    ensures
        final(out)@ == old(out)@ + enc_err(e.model()),
        wf_err(e.model()),
{
    match e {
        Error::Message(bs) => {
            out.push(ERR_MESSAGE);
            push_u64(out, bs.len() as u64);
            push_bytes(out, bs);
            assert(out@ =~= old(out)@ + enc_err(e.model()));
        },
        Error::UnmatchedCode { expected, actual } => {
            out.push(ERR_UNMATCHED);
            push_u64(out, *expected as u64);
            push_u64(out, *actual as u64);
            assert(out@ =~= old(out)@ + enc_err(e.model()));
        },
        Error::Syntax { code, detail } => {
            out.push(ERR_SYNTAX);
            out.push(code_byte(*code));
            push_u64(out, *detail as u64);
            assert(out@ =~= old(out)@ + enc_err(e.model()));
        },
    }
}

/// Appends the encoding of `v`.
fn encode_into(v: &Value, out: &mut Vec<u8>)
    ensures
        final(out)@ == old(out)@ + enc(v.model()),
        wf(v.model()),
    decreases v,
{
    match v {
        Value::Nil => {
            out.push(TAG_NIL);
            assert(out@ =~= old(out)@ + enc(v.model()));
        },
        Value::Boolean(b) => {
            if *b {
                out.push(TAG_TRUE);
            } else {
                out.push(TAG_FALSE);
            }
            assert(out@ =~= old(out)@ + enc(v.model()));
        },
        Value::Integer(x) => {
            out.push(TAG_INT);
            push_u64(out, *x as u64);
            assert(out@ =~= old(out)@ + enc(v.model()));
        },
        Value::Text(bs) => {
            out.push(TAG_TEXT);
            push_u64(out, bs.len() as u64);
            push_bytes(out, bs);
            assert(out@ =~= old(out)@ + enc(v.model()));
        },
        Value::Bytes(bs) => {
            out.push(TAG_BYTES);
            push_u64(out, bs.len() as u64);
            push_bytes(out, bs);
            assert(out@ =~= old(out)@ + enc(v.model()));
        },
        Value::List(xs) => {
            let ghost ms = model_seq_from(xs@, 0);
            proof {
                lemma_model_seq_from(xs@, 0);
            }
            out.push(TAG_LIST);
            push_u64(out, xs.len() as u64);
            encode_elements(xs, out);
            proof {
                lemma_wf_seq_from(ms, 0);
            }
            assert(out@ =~= old(out)@ + enc(v.model()));
        },
        Value::SetOf(xs) => {
            let ghost ms = model_seq_from(xs@, 0);
            proof {
                lemma_model_seq_from(xs@, 0);
            }
            out.push(TAG_SET);
            push_u64(out, xs.len() as u64);
            encode_elements(xs, out);
            proof {
                lemma_wf_seq_from(ms, 0);
            }
            assert(out@ =~= old(out)@ + enc(v.model()));
        },
        Value::Ext(tag, xs) => {
            let ghost ms = model_seq_from(xs@, 0);
            proof {
                lemma_model_seq_from(xs@, 0);
            }
            out.push(TAG_EXT);
            push_u64(out, *tag);
            push_u64(out, xs.len() as u64);
            encode_elements(xs, out);
            proof {
                lemma_wf_seq_from(ms, 0);
            }
            assert(out@ =~= old(out)@ + enc(v.model()));
        },
        Value::Dict(es) => {
            let ghost ms = model_entries_from(es@, 0);
            proof {
                lemma_model_entries_from(es@, 0);
            }
            out.push(TAG_DICT);
            push_u64(out, es.len() as u64);
            encode_entries(es, out);
            proof {
                lemma_wf_seq_from(ms, 0);
                assert(ms.len() / 2 == es@.len());
            }
            assert(out@ =~= old(out)@ + enc(v.model()));
        },
        Value::Error(e) => {
            out.push(TAG_ERR);
            encode_err_into(e, out);
            assert(out@ =~= old(out)@ + enc(v.model()));
        },
    }
}

/// Appends the encodings of all elements of `xs`, in order.
fn encode_elements(xs: &Vec<Value>, out: &mut Vec<u8>)
    ensures
        final(out)@ == old(out)@ + enc_seq_from(model_seq_from(xs@, 0), 0),
        forall|j: int| 0 <= j < model_seq_from(xs@, 0).len() ==> #[trigger] wf(
            model_seq_from(xs@, 0)[j],
        ),
    decreases xs,
{
    let ghost ms = model_seq_from(xs@, 0);
    proof {
        lemma_model_seq_from(xs@, 0);
    }
    let ghost base = out@;
    let mut k: usize = 0;
    while k < xs.len()
        invariant
            k <= xs@.len(),
            ms == model_seq_from(xs@, 0),
            ms.len() == xs@.len(),
            forall|j: int| 0 <= j < xs@.len() ==> ms[j] == #[trigger] xs@[j].model(),
            out@ == base + enc_seq_from(ms.take(k as int), 0),
            forall|j: int| 0 <= j < k ==> #[trigger] wf(ms[j]),
        decreases xs@.len() - k,
    {
        encode_into(&xs[k], out);
        proof {
            assert(ms.take(k as int + 1) =~= ms.take(k as int).push(ms[k as int]));
            lemma_enc_seq_push(ms.take(k as int), ms[k as int], 0);
            assert(out@ =~= base + enc_seq_from(ms.take(k as int + 1), 0));
        }
        k = k + 1;
    }
    assert(ms.take(ms.len() as int) =~= ms);
}

/// Appends the encodings of all entries of `es`: key, value, key, value, ...
fn encode_entries(es: &Vec<Entry>, out: &mut Vec<u8>)
    ensures
        final(out)@ == old(out)@ + enc_seq_from(model_entries_from(es@, 0), 0),
        forall|j: int| 0 <= j < model_entries_from(es@, 0).len() ==> #[trigger] wf(
            model_entries_from(es@, 0)[j],
        ),
    decreases es,
{
    let ghost ms = model_entries_from(es@, 0);
    proof {
        lemma_model_entries_from(es@, 0);
        assert forall|j: int|
            0 <= j < es@.len() implies ms[2 * j] == #[trigger] es@[j].key.model() by {
            assert(ms[2 * j] == es@[0 + j].key.model());
        }
        assert forall|j: int|
            0 <= j < es@.len() implies ms[2 * j + 1] == #[trigger] es@[j].val.model() by {
            assert(ms[2 * j + 1] == es@[0 + j].val.model());
        }
    }
    let ghost base = out@;
    let mut k: usize = 0;
    while k < es.len()
        invariant
            k <= es@.len(),
            ms == model_entries_from(es@, 0),
            ms.len() == 2 * es@.len(),
            forall|j: int| 0 <= j < es@.len() ==> ms[2 * j] == #[trigger] es@[j].key.model(),
            forall|j: int| 0 <= j < es@.len() ==> ms[2 * j + 1] == #[trigger] es@[j].val.model(),
            out@ == base + enc_seq_from(ms.take(2 * k as int), 0),
            forall|j: int| 0 <= j < 2 * k ==> #[trigger] wf(ms[j]),
        decreases es@.len() - k,
    {
        encode_into(&es[k].key, out);
        proof {
            assert(ms.take(2 * k as int + 1) =~= ms.take(2 * k as int).push(ms[2 * k as int]));
            lemma_enc_seq_push(ms.take(2 * k as int), ms[2 * k as int], 0);
            assert(out@ =~= base + enc_seq_from(ms.take(2 * k as int + 1), 0));
        }
        encode_into(&es[k].val, out);
        proof {
            assert(ms.take(2 * k as int + 2) =~= ms.take(2 * k as int + 1).push(
                ms[2 * k as int + 1],
            ));
            lemma_enc_seq_push(ms.take(2 * k as int + 1), ms[2 * k as int + 1], 0);
            assert(out@ =~= base + enc_seq_from(ms.take(2 * k as int + 2), 0));
        }
        k = k + 1;
    }
    assert(ms.take(ms.len() as int) =~= ms);
}

/// Encodes a value into its wire byte sequence.
///
/// Total over the value model: every value has an encoding, and the
/// encoding is exactly `enc` of the value's model.  As a byproduct, the
/// model of any value that exists at run time is well-formed.
pub fn encode(v: &Value) -> (out: Vec<u8>)
    ensures
        out@ == enc(v.model()),
        wf(v.model()),
{
    let mut out: Vec<u8> = Vec::new();
    encode_into(v, &mut out);
    assert(out@ =~= enc(v.model()));
    out
}

} // verus!
