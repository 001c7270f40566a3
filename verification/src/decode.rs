//! The decoder.
//!
//! `decode` parses a wire buffer back into a value.  Its contract is two
//! sided: whatever it accepts re-encodes to exactly the input (soundness),
//! and every well-formed encoding is accepted and yields the one value it
//! stands for (completeness).  Together with the wire format's
//! prefix-freedom this gives the round-trip and truncation-safety
//! guarantees of the bridge.  The decoder never panics and never reads
//! outside the buffer; malformed input turns into a structured `Error`.

use vstd::prelude::*;

use crate::value::{
    Entry, Error, ErrorCode, ErrorModel, Value, ValueModel, lemma_model_entries_from,
    lemma_model_seq_from, lemma_wf_seq_from, lemma_wf_seq_index, model_entries_from,
    model_seq_from, wf, wf_err, wf_seq,
};
use crate::wire::{
    ERR_MESSAGE, ERR_SYNTAX, ERR_UNMATCHED, TAG_BYTES, TAG_DICT, TAG_ERR, TAG_EXT, TAG_FALSE,
    TAG_INT, TAG_LIST, TAG_NIL, TAG_SET, TAG_TEXT, TAG_TRUE, be8, code_num, enc, enc_err,
    enc_seq_from, from8, is_assigned, lemma_be8_from8, lemma_enc_err_unique, lemma_enc_unique,
    lemma_err_variant_from_tag, lemma_placed_err_shape, lemma_placed_shape, lemma_prefix_at_split,
    lemma_variant_from_tag, prefix_at,
};

verus! {

/// The diagnostic text of the truncation error: "unexpected end of input".
pub open spec fn eof_text() -> Seq<u8> {
    seq![
        117u8, 110u8, 101u8, 120u8, 112u8, 101u8, 99u8, 116u8, 101u8, 100u8, 32u8, 101u8, 110u8,
        100u8, 32u8, 111u8, 102u8, 32u8, 105u8, 110u8, 112u8, 117u8, 116u8,
    ]
}

/// The error reported when the buffer ends before an item is complete.
fn eof_error() -> (e: Error)
    ensures
        e.model() == ErrorModel::Message(eof_text()),
        wf_err(e.model()),
{
    let mut t: Vec<u8> = Vec::new();
    t.push(117);
    t.push(110);
    t.push(101);
    t.push(120);
    t.push(112);
    t.push(101);
    t.push(99);
    t.push(116);
    t.push(101);
    t.push(100);
    t.push(32);
    t.push(101);
    t.push(110);
    t.push(100);
    t.push(32);
    t.push(111);
    t.push(102);
    t.push(32);
    t.push(105);
    t.push(110);
    t.push(112);
    t.push(117);
    t.push(116);
    assert(t@ =~= eof_text());
    Error::Message(t)
}

/// The error reported for a byte that is not an assigned type code.
fn unmatched_error(actual: u8) -> (e: Error)
    ensures
        e.model() == ErrorModel::UnmatchedCode(TAG_ERR as i64, actual as i64),
        wf_err(e.model()),
{
    Error::UnmatchedCode { expected: TAG_ERR as i64, actual: actual as i64 }
}

/// Reads the eight big-endian bytes at `p`.
pub(crate) fn read_u64(b: &Vec<u8>, p: usize) -> (n: u64)
    requires
        p + 8 <= b@.len(),
    ensures
        n == from8(b@.subrange(p as int, p as int + 8)),
{
    proof {
        assert(b@.len() == b.len());
    }
    let n = ((b[p] as u64) << 56) | ((b[p + 1] as u64) << 48) | ((b[p + 2] as u64) << 40) | ((b[p
        + 3] as u64) << 32) | ((b[p + 4] as u64) << 24) | ((b[p + 5] as u64) << 16) | ((b[p
        + 6] as u64) << 8) | (b[p + 7] as u64);
    proof {
        let s = b@.subrange(p as int, p as int + 8);
        assert(s[0] == b@[p as int] && s[1] == b@[p as int + 1] && s[2] == b@[p as int + 2] && s[3]
            == b@[p as int + 3] && s[4] == b@[p as int + 4] && s[5] == b@[p as int + 5] && s[6]
            == b@[p as int + 6] && s[7] == b@[p as int + 7]);
    }
    n
}

/// Copies `b[p .. p + n]` into a fresh buffer.
pub(crate) fn copy_range(b: &Vec<u8>, p: usize, n: usize) -> (out: Vec<u8>)
    requires
        p + n <= b@.len(),
    ensures
        out@ == b@.subrange(p as int, p as int + n),
{
    proof {
        assert(b@.len() == b.len());
    }
    let mut out: Vec<u8> = Vec::new();
    let mut k: usize = 0;
    while k < n
        invariant
            k <= n,
            p + n <= b@.len(),
            b@.len() <= usize::MAX,
            out@ == b@.subrange(p as int, p as int + k),
        decreases n - k,
    {
        out.push(b[p + k]);
        assert(out@ =~= b@.subrange(p as int, p as int + k + 1));
        k = k + 1;
    }
    out
}

/// A region that equals a concatenation of two placed parts.
proof fn lemma_glue2(b: Seq<u8>, i: int, j: int, s0: Seq<u8>, s1: Seq<u8>)
    requires
        0 <= i,
        i + s0.len() + s1.len() == j,
        j <= b.len(),
        b.subrange(i, i + s0.len()) == s0,
        b.subrange(i + s0.len(), j) == s1,
    ensures
        b.subrange(i, j) == s0 + s1,
{
    assert forall|d: int| 0 <= d < j - i implies b.subrange(i, j)[d] == (s0 + s1)[d] by {
        if d < s0.len() {
            assert(b.subrange(i, i + s0.len())[d] == s0[d]);
        } else {
            assert(b.subrange(i + s0.len(), j)[d - s0.len()] == s1[d - s0.len()]);
        }
    }
    assert(b.subrange(i, j) =~= s0 + s1);
}

/// A region that equals a concatenation of three placed parts.
proof fn lemma_glue3(b: Seq<u8>, i: int, j: int, s0: Seq<u8>, s1: Seq<u8>, s2: Seq<u8>)
    requires
        0 <= i,
        i + s0.len() + s1.len() + s2.len() == j,
        j <= b.len(),
        b.subrange(i, i + s0.len()) == s0,
        b.subrange(i + s0.len(), i + s0.len() + s1.len()) == s1,
        b.subrange(i + s0.len() + s1.len(), j) == s2,
    ensures
        b.subrange(i, j) == s0 + s1 + s2,
{
    lemma_glue2(b, i, i + s0.len() + s1.len(), s0, s1);
    lemma_glue2(b, i, j, s0 + s1, s2);
    assert(s0 + s1 + s2 =~= (s0 + s1) + s2);
}

/// At a successful return, completeness follows from uniqueness: any model
/// placed at `i` must be the one that was decoded.
proof fn lemma_ok_complete(b: Seq<u8>, i: int, mv: ValueModel, j: int)
    requires
        wf(mv),
        0 <= i <= j <= b.len(),
        b.subrange(i, j) == enc(mv),
    ensures
        forall|m: ValueModel| wf(m) && #[trigger] prefix_at(b, i, enc(m)) ==> m == mv && j == i
            + enc(m).len(),
{
    assert forall|m: ValueModel| wf(m) && #[trigger] prefix_at(b, i, enc(m)) implies m == mv && j
        == i + enc(m).len() by {
        assert(prefix_at(b, i, enc(mv)));
        lemma_enc_unique(b, i, m, mv);
    }
}

/// The error-payload counterpart of `lemma_ok_complete`.
proof fn lemma_ok_err_complete(b: Seq<u8>, i: int, ev: ErrorModel, j: int)
    requires
        wf_err(ev),
        0 <= i <= j <= b.len(),
        b.subrange(i, j) == enc_err(ev),
    ensures
        forall|em: ErrorModel| wf_err(em) && #[trigger] prefix_at(b, i, enc_err(em)) ==> em == ev
            && j == i + enc_err(em).len(),
{
    assert forall|em: ErrorModel| wf_err(em) && #[trigger] prefix_at(b, i, enc_err(em)) implies em
        == ev && j == i + enc_err(em).len() by {
        assert(prefix_at(b, i, enc_err(ev)));
        lemma_enc_err_unique(b, i, em, ev);
    }
}

/// Parses one error payload (the bytes after `TAG_ERR`) starting at `i`.
fn decode_error_at(b: &Vec<u8>, i: usize) -> (r: Result<(Error, usize), Error>)
    requires
        i <= b@.len(),
    ensures
        (r matches Ok(p) ==> i < p.1 <= b@.len() && wf_err(p.0.model()) && b@.subrange(
            i as int,
            p.1 as int,
        ) == enc_err(p.0.model())),
        forall|em: ErrorModel| wf_err(em) && #[trigger] prefix_at(b@, i as int, enc_err(em)) ==> (
        r matches Ok(p) && p.0.model() == em && p.1 == i + enc_err(em).len()),
        r matches Err(e) ==> wf_err(e.model()),
{
    if i == b.len() {
        proof {
            assert forall|em: ErrorModel| !(wf_err(em) && #[trigger] prefix_at(
                b@,
                i as int,
                enc_err(em),
            )) by {
                if wf_err(em) && prefix_at(b@, i as int, enc_err(em)) {
                    lemma_placed_err_shape(b@, i as int, em);
                }
            }
        }
        return Err(eof_error());
    }
    let d = b[i];
    if d == ERR_MESSAGE {
        if b.len() - i < 9 {
            proof {
                assert forall|em: ErrorModel| !(wf_err(em) && #[trigger] prefix_at(
                    b@,
                    i as int,
                    enc_err(em),
                )) by {
                    if wf_err(em) && prefix_at(b@, i as int, enc_err(em)) {
                        lemma_placed_err_shape(b@, i as int, em);
                        lemma_err_variant_from_tag(em);
                    }
                }
            }
            return Err(eof_error());
        }
        let n = read_u64(b, i + 1);
        let avail = b.len() - (i + 9);
        if n > avail as u64 {
            proof {
                assert forall|em: ErrorModel| !(wf_err(em) && #[trigger] prefix_at(
                    b@,
                    i as int,
                    enc_err(em),
                )) by {
                    if wf_err(em) && prefix_at(b@, i as int, enc_err(em)) {
                        lemma_placed_err_shape(b@, i as int, em);
                        lemma_err_variant_from_tag(em);
                    }
                }
            }
            return Err(eof_error());
        }
        let cnt = n as usize;
        let pay = copy_range(b, i + 9, cnt);
        let e = Error::Message(pay);
        let j = i + 9 + cnt;
        proof {
            lemma_be8_from8(b@.subrange(i as int + 1, i as int + 9));
            assert(b@.subrange(i as int, i as int + 1) =~= seq![ERR_MESSAGE]);
            lemma_glue3(
                b@,
                i as int,
                j as int,
                seq![ERR_MESSAGE],
                be8(n),
                b@.subrange(i as int + 9, j as int),
            );
            assert(b@.subrange(i as int, j as int) == enc_err(e.model()));
            lemma_ok_err_complete(b@, i as int, e.model(), j as int);
        }
        return Ok((e, j));
    }
    if d == ERR_UNMATCHED {
        if b.len() - i < 17 {
            proof {
                assert forall|em: ErrorModel| !(wf_err(em) && #[trigger] prefix_at(
                    b@,
                    i as int,
                    enc_err(em),
                )) by {
                    if wf_err(em) && prefix_at(b@, i as int, enc_err(em)) {
                        lemma_placed_err_shape(b@, i as int, em);
                        lemma_err_variant_from_tag(em);
                    }
                }
            }
            return Err(eof_error());
        }
        let x = read_u64(b, i + 1);
        let y = read_u64(b, i + 9);
        let e = Error::UnmatchedCode { expected: x as i64, actual: y as i64 };
        let j = i + 17;
        proof {
            assert((x as i64) as u64 == x) by (bit_vector);
            assert((y as i64) as u64 == y) by (bit_vector);
            lemma_be8_from8(b@.subrange(i as int + 1, i as int + 9));
            lemma_be8_from8(b@.subrange(i as int + 9, i as int + 17));
            assert(b@.subrange(i as int, i as int + 1) =~= seq![ERR_UNMATCHED]);
            lemma_glue3(b@, i as int, j as int, seq![ERR_UNMATCHED], be8(x), be8(y));
            assert(b@.subrange(i as int, j as int) == enc_err(e.model()));
            lemma_ok_err_complete(b@, i as int, e.model(), j as int);
        }
        return Ok((e, j));
    }
    if d == ERR_SYNTAX {
        if b.len() - i < 10 {
            proof {
                assert forall|em: ErrorModel| !(wf_err(em) && #[trigger] prefix_at(
                    b@,
                    i as int,
                    enc_err(em),
                )) by {
                    if wf_err(em) && prefix_at(b@, i as int, enc_err(em)) {
                        lemma_placed_err_shape(b@, i as int, em);
                        lemma_err_variant_from_tag(em);
                    }
                }
            }
            return Err(eof_error());
        }
        let cb = b[i + 1];
        if cb > 1 {
            proof {
                assert forall|em: ErrorModel| !(wf_err(em) && #[trigger] prefix_at(
                    b@,
                    i as int,
                    enc_err(em),
                )) by {
                    if wf_err(em) && prefix_at(b@, i as int, enc_err(em)) {
                        lemma_placed_err_shape(b@, i as int, em);
                        lemma_err_variant_from_tag(em);
                        match em {
                            ErrorModel::Syntax(c, _) => {
                                crate::wire::lemma_code_from_num(c);
                            },
                            _ => {},
                        }
                    }
                }
            }
            return Err(unmatched_error(cb));
        }
        let code = if cb == 0 {
            ErrorCode::UnsupportedCacheType
        } else {
            ErrorCode::TrailingBytes
        };
        let dd = read_u64(b, i + 2);
        let e = Error::Syntax { code, detail: dd as i64 };
        let j = i + 10;
        proof {
            assert((dd as i64) as u64 == dd) by (bit_vector);
            lemma_be8_from8(b@.subrange(i as int + 2, i as int + 10));
            assert(b@.subrange(i as int, i as int + 2) =~= seq![ERR_SYNTAX, code_num(code)]);
            lemma_glue2(b@, i as int, j as int, seq![ERR_SYNTAX, code_num(code)], be8(dd));
            assert(b@.subrange(i as int, j as int) == enc_err(e.model()));
            lemma_ok_err_complete(b@, i as int, e.model(), j as int);
        }
        return Ok((e, j));
    }
    proof {
        assert forall|em: ErrorModel| !(wf_err(em) && #[trigger] prefix_at(
            b@,
            i as int,
            enc_err(em),
        )) by {
            if wf_err(em) && prefix_at(b@, i as int, enc_err(em)) {
                lemma_placed_err_shape(b@, i as int, em);
                lemma_err_variant_from_tag(em);
            }
        }
    }
    Err(unmatched_error(d))
}

/// Parses one value starting at `i`.
///
/// Soundness: an accepted item occupies `b[i .. j]` and those bytes are
/// exactly the encoding of the returned value.  Completeness: if any
/// well-formed model's encoding lies at `i`, the parse succeeds and returns
/// that model.
fn decode_value_at(b: &Vec<u8>, i: usize) -> (r: Result<(Value, usize), Error>)
    requires
        i <= b@.len(),
    ensures
        (r matches Ok(p) ==> i < p.1 <= b@.len() && wf(p.0.model()) && b@.subrange(
            i as int,
            p.1 as int,
        ) == enc(p.0.model())),
        forall|m: ValueModel| wf(m) && #[trigger] prefix_at(b@, i as int, enc(m)) ==> (r matches Ok(
            p,
        ) && p.0.model() == m && p.1 == i + enc(m).len()),
        r matches Err(e) ==> wf_err(e.model()),
        i < b@.len() && !is_assigned(b@[i as int]) ==> (r matches Err(e) && e.model()
            == ErrorModel::UnmatchedCode(TAG_ERR as i64, b@[i as int] as i64)),
        i == b@.len() ==> (r matches Err(e) && e.model() == ErrorModel::Message(eof_text())),
    decreases b@.len() - i, 0int,
{
    if i == b.len() {
        proof {
            assert forall|m: ValueModel| !(wf(m) && #[trigger] prefix_at(b@, i as int, enc(m))) by {
                if wf(m) && prefix_at(b@, i as int, enc(m)) {
                    lemma_placed_shape(b@, i as int, m);
                }
            }
        }
        return Err(eof_error());
    }
    let t = b[i];
    if t > TAG_ERR {
        proof {
            assert forall|m: ValueModel| !(wf(m) && #[trigger] prefix_at(b@, i as int, enc(m))) by {
                if wf(m) && prefix_at(b@, i as int, enc(m)) {
                    lemma_placed_shape(b@, i as int, m);
                }
            }
        }
        return Err(unmatched_error(t));
    }
    if t == TAG_NIL {
        let v = Value::Nil;
        let j = i + 1;
        proof {
            assert(b@.subrange(i as int, j as int) =~= enc(v.model()));
            lemma_ok_complete(b@, i as int, v.model(), j as int);
        }
        return Ok((v, j));
    }
    if t == TAG_TRUE || t == TAG_FALSE {
        let v = Value::Boolean(t == TAG_TRUE);
        let j = i + 1;
        proof {
            assert(b@.subrange(i as int, j as int) =~= enc(v.model()));
            lemma_ok_complete(b@, i as int, v.model(), j as int);
        }
        return Ok((v, j));
    }
    if t == TAG_INT {
        if b.len() - i < 9 {
            proof {
                assert forall|m: ValueModel| !(wf(m) && #[trigger] prefix_at(
                    b@,
                    i as int,
                    enc(m),
                )) by {
                    if wf(m) && prefix_at(b@, i as int, enc(m)) {
                        lemma_placed_shape(b@, i as int, m);
                        lemma_variant_from_tag(m);
                    }
                }
            }
            return Err(eof_error());
        }
        let n = read_u64(b, i + 1);
        let v = Value::Integer(n as i64);
        let j = i + 9;
        proof {
            assert((n as i64) as u64 == n) by (bit_vector);
            lemma_be8_from8(b@.subrange(i as int + 1, i as int + 9));
            assert(b@.subrange(i as int, i as int + 1) =~= seq![TAG_INT]);
            lemma_glue2(b@, i as int, j as int, seq![TAG_INT], be8(n));
            assert(b@.subrange(i as int, j as int) == enc(v.model()));
            lemma_ok_complete(b@, i as int, v.model(), j as int);
        }
        return Ok((v, j));
    }
    if t == TAG_TEXT || t == TAG_BYTES {
        if b.len() - i < 9 {
            proof {
                assert forall|m: ValueModel| !(wf(m) && #[trigger] prefix_at(
                    b@,
                    i as int,
                    enc(m),
                )) by {
                    if wf(m) && prefix_at(b@, i as int, enc(m)) {
                        lemma_placed_shape(b@, i as int, m);
                        lemma_variant_from_tag(m);
                    }
                }
            }
            return Err(eof_error());
        }
        let n = read_u64(b, i + 1);
        let avail = b.len() - (i + 9);
        if n > avail as u64 {
            proof {
                assert forall|m: ValueModel| !(wf(m) && #[trigger] prefix_at(
                    b@,
                    i as int,
                    enc(m),
                )) by {
                    if wf(m) && prefix_at(b@, i as int, enc(m)) {
                        lemma_placed_shape(b@, i as int, m);
                        lemma_variant_from_tag(m);
                    }
                }
            }
            return Err(eof_error());
        }
        let cnt = n as usize;
        let pay = copy_range(b, i + 9, cnt);
        let j = i + 9 + cnt;
        let v = if t == TAG_TEXT {
            Value::Text(pay)
        } else {
            Value::Bytes(pay)
        };
        proof {
            lemma_be8_from8(b@.subrange(i as int + 1, i as int + 9));
            assert(b@.subrange(i as int, i as int + 1) =~= seq![t]);
            lemma_glue3(
                b@,
                i as int,
                j as int,
                seq![t],
                be8(n),
                b@.subrange(i as int + 9, j as int),
            );
            assert(b@.subrange(i as int, j as int) == enc(v.model()));
            lemma_ok_complete(b@, i as int, v.model(), j as int);
        }
        return Ok((v, j));
    }
    if t == TAG_LIST || t == TAG_SET {
        if b.len() - i < 9 {
            proof {
                assert forall|m: ValueModel| !(wf(m) && #[trigger] prefix_at(
                    b@,
                    i as int,
                    enc(m),
                )) by {
                    if wf(m) && prefix_at(b@, i as int, enc(m)) {
                        lemma_placed_shape(b@, i as int, m);
                        lemma_variant_from_tag(m);
                    }
                }
            }
            return Err(eof_error());
        }
        let n = read_u64(b, i + 1);
        match decode_elements(b, i + 9, n) {
            Ok((elems, j)) => {
                let ghost pm = model_seq_from(elems@, 0);
                let v = if t == TAG_LIST {
                    Value::List(elems)
                } else {
                    Value::SetOf(elems)
                };
                proof {
                    lemma_be8_from8(b@.subrange(i as int + 1, i as int + 9));
                    assert(b@.subrange(i as int, i as int + 1) =~= seq![t]);
                    lemma_glue3(b@, i as int, j as int, seq![t], be8(n), enc_seq_from(pm, 0));
                    lemma_wf_seq_from(pm, 0);
                    assert(b@.subrange(i as int, j as int) == enc(v.model()));
                    lemma_ok_complete(b@, i as int, v.model(), j as int);
                }
                return Ok((v, j));
            },
            Err(e) => {
                proof {
                    assert forall|m: ValueModel| !(wf(m) && #[trigger] prefix_at(
                        b@,
                        i as int,
                        enc(m),
                    )) by {
                        if wf(m) && prefix_at(b@, i as int, enc(m)) {
                            lemma_placed_shape(b@, i as int, m);
                            lemma_variant_from_tag(m);
                        }
                    }
                }
                return Err(e);
            },
        }
    }
    if t == TAG_EXT {
        if b.len() - i < 17 {
            proof {
                assert forall|m: ValueModel| !(wf(m) && #[trigger] prefix_at(
                    b@,
                    i as int,
                    enc(m),
                )) by {
                    if wf(m) && prefix_at(b@, i as int, enc(m)) {
                        lemma_placed_shape(b@, i as int, m);
                        lemma_variant_from_tag(m);
                    }
                }
            }
            return Err(eof_error());
        }
        let xt = read_u64(b, i + 1);
        let n = read_u64(b, i + 9);
        match decode_elements(b, i + 17, n) {
            Ok((elems, j)) => {
                let ghost pm = model_seq_from(elems@, 0);
                let v = Value::Ext(xt, elems);
                proof {
                    lemma_be8_from8(b@.subrange(i as int + 1, i as int + 9));
                    lemma_be8_from8(b@.subrange(i as int + 9, i as int + 17));
                    assert(b@.subrange(i as int, i as int + 1) =~= seq![TAG_EXT]);
                    lemma_glue3(
                        b@,
                        i as int,
                        i as int + 17,
                        seq![TAG_EXT],
                        be8(xt),
                        be8(n),
                    );
                    lemma_glue2(
                        b@,
                        i as int,
                        j as int,
                        seq![TAG_EXT] + be8(xt) + be8(n),
                        enc_seq_from(pm, 0),
                    );
                    lemma_wf_seq_from(pm, 0);
                    assert(b@.subrange(i as int, j as int) == enc(v.model()));
                    lemma_ok_complete(b@, i as int, v.model(), j as int);
                }
                return Ok((v, j));
            },
            Err(e) => {
                proof {
                    assert forall|m: ValueModel| !(wf(m) && #[trigger] prefix_at(
                        b@,
                        i as int,
                        enc(m),
                    )) by {
                        if wf(m) && prefix_at(b@, i as int, enc(m)) {
                            lemma_placed_shape(b@, i as int, m);
                            lemma_variant_from_tag(m);
                        }
                    }
                }
                return Err(e);
            },
        }
    }
    if t == TAG_DICT {
        if b.len() - i < 9 {
            proof {
                assert forall|m: ValueModel| !(wf(m) && #[trigger] prefix_at(
                    b@,
                    i as int,
                    enc(m),
                )) by {
                    if wf(m) && prefix_at(b@, i as int, enc(m)) {
                        lemma_placed_shape(b@, i as int, m);
                        lemma_variant_from_tag(m);
                    }
                }
            }
            return Err(eof_error());
        }
        let n = read_u64(b, i + 1);
        match decode_entries(b, i + 9, n) {
            Ok((entries, j)) => {
                let ghost pm = model_entries_from(entries@, 0);
                let v = Value::Dict(entries);
                proof {
                    lemma_be8_from8(b@.subrange(i as int + 1, i as int + 9));
                    assert(b@.subrange(i as int, i as int + 1) =~= seq![TAG_DICT]);
                    lemma_glue3(b@, i as int, j as int, seq![TAG_DICT], be8(n), enc_seq_from(pm, 0));
                    lemma_wf_seq_from(pm, 0);
                    assert(b@.subrange(i as int, j as int) == enc(v.model()));
                    lemma_ok_complete(b@, i as int, v.model(), j as int);
                }
                return Ok((v, j));
            },
            Err(e) => {
                proof {
                    assert forall|m: ValueModel| !(wf(m) && #[trigger] prefix_at(
                        b@,
                        i as int,
                        enc(m),
                    )) by {
                        if wf(m) && prefix_at(b@, i as int, enc(m)) {
                            lemma_placed_shape(b@, i as int, m);
                            lemma_variant_from_tag(m);
                        }
                    }
                }
                return Err(e);
            },
        }
    }
    match decode_error_at(b, i + 1) {
        Ok((e, j)) => {
            let v = Value::Error(e);
            proof {
                assert(b@.subrange(i as int, i as int + 1) =~= seq![TAG_ERR]);
                lemma_glue2(b@, i as int, j as int, seq![TAG_ERR], enc_err(e.model()));
                assert(b@.subrange(i as int, j as int) == enc(v.model()));
                lemma_ok_complete(b@, i as int, v.model(), j as int);
            }
            Ok((v, j))
        },
        Err(e2) => {
            proof {
                assert forall|m: ValueModel| !(wf(m) && #[trigger] prefix_at(
                    b@,
                    i as int,
                    enc(m),
                )) by {
                    if wf(m) && prefix_at(b@, i as int, enc(m)) {
                        lemma_placed_shape(b@, i as int, m);
                        lemma_variant_from_tag(m);
                    }
                }
            }
            Err(e2)
        },
    }
}

/// Parses `n` consecutive values starting at `p`.
///
/// Soundness and completeness mirror `decode_value_at`, over the
/// concatenated element encodings.
fn decode_elements(b: &Vec<u8>, p: usize, n: u64) -> (r: Result<(Vec<Value>, usize), Error>)
    requires
        p <= b@.len(),
    ensures
        (r matches Ok(q) ==> {
            &&& p <= q.1 <= b@.len()
            &&& q.0@.len() == n
            &&& model_seq_from(q.0@, 0).len() == n
            &&& forall|j: int| 0 <= j < model_seq_from(q.0@, 0).len() ==> #[trigger] wf(
                model_seq_from(q.0@, 0)[j],
            )
            &&& b@.subrange(p as int, q.1 as int) == enc_seq_from(model_seq_from(q.0@, 0), 0)
        }),
        forall|ms: Seq<ValueModel>|
            ms.len() == n && wf_seq(ms) && #[trigger] prefix_at(b@, p as int, enc_seq_from(ms, 0))
                ==> (r matches Ok(q) && model_seq_from(q.0@, 0) == ms && q.1 == p + enc_seq_from(
                ms,
                0,
            ).len()),
        r matches Err(e) ==> wf_err(e.model()),
    decreases b@.len() - p, 1int,
{
    let mut elems: Vec<Value> = Vec::new();
    let mut cur: usize = p;
    let ghost mut pm: Seq<ValueModel> = Seq::empty();
    let mut k: u64 = 0;
    proof {
        assert(b@.subrange(p as int, p as int) =~= enc_seq_from(pm, 0));
        lemma_model_seq_from(elems@, 0);
        assert(model_seq_from(elems@, 0) =~= pm);
    }
    while k < n
        invariant
            p <= cur <= b@.len(),
            k <= n,
            pm.len() == k,
            elems@.len() == k,
            model_seq_from(elems@, 0) == pm,
            forall|j: int| 0 <= j < pm.len() ==> #[trigger] wf(pm[j]),
            b@.subrange(p as int, cur as int) == enc_seq_from(pm, 0),
            forall|ms: Seq<ValueModel>|
                ms.len() == n && wf_seq(ms) && #[trigger] prefix_at(
                    b@,
                    p as int,
                    enc_seq_from(ms, 0),
                ) ==> ms.subrange(0, k as int) == pm && prefix_at(
                    b@,
                    cur as int,
                    enc_seq_from(ms, k as int),
                ),
        decreases n - k,
    {
        let ghost old_pm = pm;
        let ghost old_cur = cur as int;
        match decode_value_at(b, cur) {
            Err(e) => {
                proof {
                    assert forall|ms: Seq<ValueModel>| !(ms.len() == n && wf_seq(ms)
                        && #[trigger] prefix_at(b@, p as int, enc_seq_from(ms, 0))) by {
                        if ms.len() == n && wf_seq(ms) && prefix_at(
                            b@,
                            p as int,
                            enc_seq_from(ms, 0),
                        ) {
                            assert(prefix_at(b@, old_cur, enc_seq_from(ms, k as int)));
                            lemma_prefix_at_split(
                                b@,
                                old_cur,
                                enc(ms[k as int]),
                                enc_seq_from(ms, k as int + 1),
                            );
                            lemma_wf_seq_index(ms, k as int);
                            assert(prefix_at(b@, old_cur, enc(ms[k as int])));
                        }
                    }
                }
                return Err(e);
            },
            Ok((v, j)) => {
                let ghost old_elems = elems@;
                proof {
                    pm = pm.push(v.model());
                }
                elems.push(v);
                proof {
                    crate::wire::lemma_enc_seq_push(old_pm, v.model(), 0);
                    lemma_glue2(
                        b@,
                        p as int,
                        j as int,
                        enc_seq_from(old_pm, 0),
                        enc(v.model()),
                    );
                    lemma_model_seq_from(old_elems, 0);
                    lemma_model_seq_from(elems@, 0);
                    assert forall|d: int| 0 <= d < pm.len() implies model_seq_from(elems@, 0)[d]
                        == pm[d] by {
                        if d < old_pm.len() {
                            assert(model_seq_from(old_elems, 0)[d] == old_pm[d]);
                            assert(elems@[0 + d] == old_elems[0 + d]);
                        } else {
                            assert(elems@[0 + d] == v);
                        }
                    }
                    assert(model_seq_from(elems@, 0) =~= pm);
                    assert forall|ms: Seq<ValueModel>|
                        ms.len() == n && wf_seq(ms) && #[trigger] prefix_at(
                            b@,
                            p as int,
                            enc_seq_from(ms, 0),
                        ) implies ms.subrange(0, k as int + 1) == pm && prefix_at(
                        b@,
                        j as int,
                        enc_seq_from(ms, k as int + 1),
                    ) by {
                        assert(ms.subrange(0, k as int) == old_pm);
                        assert(prefix_at(b@, old_cur, enc_seq_from(ms, k as int)));
                        lemma_prefix_at_split(
                            b@,
                            old_cur,
                            enc(ms[k as int]),
                            enc_seq_from(ms, k as int + 1),
                        );
                        lemma_wf_seq_index(ms, k as int);
                        assert(prefix_at(b@, old_cur, enc(ms[k as int])));
                        assert(v.model() == ms[k as int]);
                        assert(ms.subrange(0, k as int + 1) =~= ms.subrange(0, k as int).push(
                            ms[k as int],
                        ));
                    }
                }
                cur = j;
                k = k + 1;
            },
        }
    }
    proof {
        assert forall|ms: Seq<ValueModel>|
            ms.len() == n && wf_seq(ms) && #[trigger] prefix_at(
                b@,
                p as int,
                enc_seq_from(ms, 0),
            ) implies (model_seq_from(elems@, 0) == ms && cur == p + enc_seq_from(ms, 0).len()) by {
            assert(ms.subrange(0, k as int) =~= ms);
            assert(pm == ms);
        }
    }
    Ok((elems, cur))
}

/// Parses `n` consecutive key/value pairs starting at `p`.
fn decode_entries(b: &Vec<u8>, p: usize, n: u64) -> (r: Result<(Vec<Entry>, usize), Error>)
    requires
        p <= b@.len(),
    ensures
        (r matches Ok(q) ==> {
            &&& p <= q.1 <= b@.len()
            &&& q.0@.len() == n
            &&& model_entries_from(q.0@, 0).len() == 2 * n
            &&& forall|j: int| 0 <= j < model_entries_from(q.0@, 0).len() ==> #[trigger] wf(
                model_entries_from(q.0@, 0)[j],
            )
            &&& b@.subrange(p as int, q.1 as int) == enc_seq_from(model_entries_from(q.0@, 0), 0)
        }),
        forall|ms: Seq<ValueModel>|
            ms.len() == 2 * n && wf_seq(ms) && #[trigger] prefix_at(
                b@,
                p as int,
                enc_seq_from(ms, 0),
            ) ==> (r matches Ok(q) && model_entries_from(q.0@, 0) == ms && q.1 == p + enc_seq_from(
                ms,
                0,
            ).len()),
        r matches Err(e) ==> wf_err(e.model()),
    decreases b@.len() - p, 1int,
{
    let mut entries: Vec<Entry> = Vec::new();
    let mut cur: usize = p;
    let ghost mut pm: Seq<ValueModel> = Seq::empty();
    let mut k: u64 = 0;
    proof {
        assert(b@.subrange(p as int, p as int) =~= enc_seq_from(pm, 0));
        lemma_model_entries_from(entries@, 0);
        assert(model_entries_from(entries@, 0) =~= pm);
    }
    while k < n
        invariant
            p <= cur <= b@.len(),
            k <= n,
            pm.len() == 2 * k,
            entries@.len() == k,
            model_entries_from(entries@, 0) == pm,
            forall|j: int| 0 <= j < pm.len() ==> #[trigger] wf(pm[j]),
            b@.subrange(p as int, cur as int) == enc_seq_from(pm, 0),
            forall|ms: Seq<ValueModel>|
                ms.len() == 2 * n && wf_seq(ms) && #[trigger] prefix_at(
                    b@,
                    p as int,
                    enc_seq_from(ms, 0),
                ) ==> ms.subrange(0, 2 * k as int) == pm && prefix_at(
                    b@,
                    cur as int,
                    enc_seq_from(ms, 2 * k as int),
                ),
        decreases n - k,
    {
        let ghost old_pm = pm;
        let ghost old_cur = cur as int;
        let key = match decode_value_at(b, cur) {
            Err(e) => {
                proof {
                    assert forall|ms: Seq<ValueModel>| !(ms.len() == 2 * n && wf_seq(ms)
                        && #[trigger] prefix_at(b@, p as int, enc_seq_from(ms, 0))) by {
                        if ms.len() == 2 * n && wf_seq(ms) && prefix_at(
                            b@,
                            p as int,
                            enc_seq_from(ms, 0),
                        ) {
                            assert(prefix_at(b@, old_cur, enc_seq_from(ms, 2 * k as int)));
                            lemma_prefix_at_split(
                                b@,
                                old_cur,
                                enc(ms[2 * k as int]),
                                enc_seq_from(ms, 2 * k as int + 1),
                            );
                            lemma_wf_seq_index(ms, 2 * k as int);
                            assert(prefix_at(b@, old_cur, enc(ms[2 * k as int])));
                        }
                    }
                }
                return Err(e);
            },
            Ok(kq) => kq,
        };
        let (kv, j1) = key;
        let val = match decode_value_at(b, j1) {
            Err(e) => {
                proof {
                    assert forall|ms: Seq<ValueModel>| !(ms.len() == 2 * n && wf_seq(ms)
                        && #[trigger] prefix_at(b@, p as int, enc_seq_from(ms, 0))) by {
                        if ms.len() == 2 * n && wf_seq(ms) && prefix_at(
                            b@,
                            p as int,
                            enc_seq_from(ms, 0),
                        ) {
                            assert(prefix_at(b@, old_cur, enc_seq_from(ms, 2 * k as int)));
                            lemma_prefix_at_split(
                                b@,
                                old_cur,
                                enc(ms[2 * k as int]),
                                enc_seq_from(ms, 2 * k as int + 1),
                            );
                            lemma_wf_seq_index(ms, 2 * k as int);
                            assert(prefix_at(b@, old_cur, enc(ms[2 * k as int])));
                            assert(kv.model() == ms[2 * k as int]);
                            lemma_prefix_at_split(
                                b@,
                                j1 as int,
                                enc(ms[2 * k as int + 1]),
                                enc_seq_from(ms, 2 * k as int + 2),
                            );
                            lemma_wf_seq_index(ms, 2 * k as int + 1);
                            assert(prefix_at(b@, j1 as int, enc(ms[2 * k as int + 1])));
                        }
                    }
                }
                return Err(e);
            },
            Ok(vq) => vq,
        };
        let (vv, j2) = val;
        let ghost old_entries = entries@;
        proof {
            pm = pm.push(kv.model()).push(vv.model());
        }
        entries.push(Entry { key: kv, val: vv });
        proof {
            crate::wire::lemma_enc_seq_push(old_pm, kv.model(), 0);
            crate::wire::lemma_enc_seq_push(old_pm.push(kv.model()), vv.model(), 0);
            lemma_glue2(b@, p as int, j1 as int, enc_seq_from(old_pm, 0), enc(kv.model()));
            lemma_glue2(
                b@,
                p as int,
                j2 as int,
                enc_seq_from(old_pm.push(kv.model()), 0),
                enc(vv.model()),
            );
            lemma_model_entries_from(old_entries, 0);
            lemma_model_entries_from(entries@, 0);
            assert forall|d: int| 0 <= d < pm.len() implies model_entries_from(entries@, 0)[d]
                == pm[d] by {
                if d < old_pm.len() {
                    assert(model_entries_from(old_entries, 0)[d] == old_pm[d]);
                    if d % 2 == 0 {
                        assert(model_entries_from(old_entries, 0)[2 * (d / 2)]
                            == old_entries[0 + d / 2].key.model());
                        assert(model_entries_from(entries@, 0)[2 * (d / 2)]
                            == entries@[0 + d / 2].key.model());
                        assert(entries@[0 + d / 2] == old_entries[0 + d / 2]);
                    } else {
                        assert(model_entries_from(old_entries, 0)[2 * (d / 2) + 1]
                            == old_entries[0 + d / 2].val.model());
                        assert(model_entries_from(entries@, 0)[2 * (d / 2) + 1]
                            == entries@[0 + d / 2].val.model());
                        assert(entries@[0 + d / 2] == old_entries[0 + d / 2]);
                    }
                } else {
                    assert(entries@[0 + d / 2] == Entry { key: kv, val: vv });
                    if d % 2 == 0 {
                        assert(model_entries_from(entries@, 0)[2 * (d / 2)]
                            == entries@[0 + d / 2].key.model());
                    } else {
                        assert(model_entries_from(entries@, 0)[2 * (d / 2) + 1]
                            == entries@[0 + d / 2].val.model());
                    }
                }
            }
            assert(model_entries_from(entries@, 0) =~= pm);
            assert forall|ms: Seq<ValueModel>|
                ms.len() == 2 * n && wf_seq(ms) && #[trigger] prefix_at(
                    b@,
                    p as int,
                    enc_seq_from(ms, 0),
                ) implies ms.subrange(0, 2 * (k as int + 1)) == pm && prefix_at(
                b@,
                j2 as int,
                enc_seq_from(ms, 2 * (k as int + 1)),
            ) by {
                assert(ms.subrange(0, 2 * k as int) == old_pm);
                assert(prefix_at(b@, old_cur, enc_seq_from(ms, 2 * k as int)));
                lemma_prefix_at_split(
                    b@,
                    old_cur,
                    enc(ms[2 * k as int]),
                    enc_seq_from(ms, 2 * k as int + 1),
                );
                lemma_wf_seq_index(ms, 2 * k as int);
                assert(prefix_at(b@, old_cur, enc(ms[2 * k as int])));
                assert(kv.model() == ms[2 * k as int]);
                lemma_prefix_at_split(
                    b@,
                    j1 as int,
                    enc(ms[2 * k as int + 1]),
                    enc_seq_from(ms, 2 * k as int + 2),
                );
                lemma_wf_seq_index(ms, 2 * k as int + 1);
                assert(prefix_at(b@, j1 as int, enc(ms[2 * k as int + 1])));
                assert(vv.model() == ms[2 * k as int + 1]);
                assert(ms.subrange(0, 2 * (k as int + 1)) =~= ms.subrange(0, 2 * k as int).push(
                    ms[2 * k as int],
                ).push(ms[2 * k as int + 1]));
            }
        }
        cur = j2;
        k = k + 1;
    }
    proof {
        assert forall|ms: Seq<ValueModel>|
            ms.len() == 2 * n && wf_seq(ms) && #[trigger] prefix_at(
                b@,
                p as int,
                enc_seq_from(ms, 0),
            ) implies (model_entries_from(entries@, 0) == ms && cur == p + enc_seq_from(
            ms,
            0,
        ).len()) by {
            assert(ms.subrange(0, 2 * k as int) =~= ms);
            assert(pm == ms);
        }
    }
    Ok((entries, cur))
}

/// Decodes a complete wire buffer into a value.
///
/// Strict: the buffer must hold exactly one encoded item.  The contract
/// pins the function down from both sides:
///
/// * soundness: an accepted value re-encodes to exactly the input;
/// * round trip: if the input is the encoding of any well-formed model,
///   decoding succeeds and returns that model (so `decode` after `encode`
///   gives back a semantically equal value);
/// * truncation safety: any proper prefix of a well-formed encoding is
///   rejected with a structured error, never a panic or an out-of-bounds
///   read;
/// * strictness: a complete item followed by leftover bytes is rejected
///   with a `Syntax` error of category `TrailingBytes`, whose detail counts
///   the leftover bytes;
/// * an empty buffer reports the truncation message, and an unassigned
///   leading type code reports an `UnmatchedCode` error naming the byte.
pub fn decode(bytes: &Vec<u8>) -> (r: Result<Value, Error>)
    ensures
        (r matches Ok(v) ==> wf(v.model()) && enc(v.model()) == bytes@),
        forall|m: ValueModel| wf(m) && enc(m) == bytes@ ==> (r matches Ok(v) && v.model() == m),
        forall|m: ValueModel|
            wf(m) && bytes@.len() < enc(m).len() && bytes@ == enc(m).subrange(
                0,
                bytes@.len() as int,
            ) ==> (r matches Err(_)),
        forall|m: ValueModel|
            wf(m) && enc(m).len() < bytes@.len() && enc(m) == bytes@.subrange(
                0,
                enc(m).len() as int,
            ) ==> (r matches Err(e) && e.model() matches ErrorModel::Syntax(c, d) && c
                == ErrorCode::TrailingBytes && (bytes@.len() - enc(m).len() <= i64::MAX ==> d
                == bytes@.len() - enc(m).len())),
        r matches Err(e) ==> wf_err(e.model()),
        bytes@.len() == 0 ==> (r matches Err(e) && e.model() == ErrorModel::Message(eof_text())),
        bytes@.len() > 0 && !is_assigned(bytes@[0]) ==> (r matches Err(e) && e.model()
            == ErrorModel::UnmatchedCode(TAG_ERR as i64, bytes@[0] as i64)),
{
    proof {
        assert forall|m: ValueModel| wf(m) && enc(m) == bytes@ implies prefix_at(
            bytes@,
            0,
            enc(m),
        ) by {
            assert(bytes@.subrange(0, enc(m).len() as int) =~= enc(m));
        }
        assert forall|m: ValueModel|
            wf(m) && enc(m).len() <= bytes@.len() && enc(m) == bytes@.subrange(
                0,
                enc(m).len() as int,
            ) implies prefix_at(bytes@, 0, enc(m)) by {
        }
    }
    match decode_value_at(bytes, 0) {
        Err(e) => Err(e),
        Ok((v, j)) => {
            if j == bytes.len() {
                proof {
                    assert(bytes@.subrange(0, j as int) =~= bytes@);
                    assert forall|m: ValueModel|
                        wf(m) && bytes@.len() < enc(m).len() && bytes@ == enc(m).subrange(
                            0,
                            bytes@.len() as int,
                        ) implies false by {
                        let w = enc(m);
                        assert(w.subrange(0, w.len() as int) =~= w);
                        assert(prefix_at(w, 0, enc(v.model())));
                        assert(prefix_at(w, 0, enc(m)));
                        lemma_enc_unique(w, 0, v.model(), m);
                    }
                }
                Ok(v)
            } else {
                proof {
                    assert(bytes@.len() == bytes.len());
                }
                let extra = bytes.len() - j;
                let extra64: u64 = extra as u64;
                let d: i64 = if extra64 > 0x7fffffffffffffff {
                    0x7fffffffffffffff
                } else {
                    extra64 as i64
                };
                Err(Error::Syntax { code: ErrorCode::TrailingBytes, detail: d })
            }
        },
    }
}

} // verus!
