//! The wire format, as mathematics.
//!
//! `enc` maps a value model to the byte sequence that represents it on the
//! wire.  The format is self-describing: every item starts with a one-byte
//! type code, lengths and counts stand in 64-bit big-endian headers, and
//! collection elements follow their header in order.
//!
//! The laws at the end are what make the boundary protocol safe:
//! `lemma_encoding_injective` (two well-formed values with the same encoding
//! are the same value) and `lemma_encoding_prefix_free` (no encoding is a
//! proper prefix of another, so a truncated buffer can never be mistaken for
//! a complete one).

use vstd::prelude::*;

use crate::value::{ErrorCode, ErrorModel, ValueModel, wf, wf_err, wf_seq};

verus! {

/// Type code of `Nil`.
pub const TAG_NIL: u8 = 0;

/// Type code of `Boolean(true)`.
pub const TAG_TRUE: u8 = 1;

/// Type code of `Boolean(false)`.
pub const TAG_FALSE: u8 = 2;

/// Type code of `Integer`; 8 payload bytes, big-endian two's complement.
pub const TAG_INT: u8 = 3;

/// Type code of `Text`; a byte-count header, then that many UTF-8 bytes.
pub const TAG_TEXT: u8 = 4;

/// Type code of `Bytes`; a byte-count header, then the bytes.
pub const TAG_BYTES: u8 = 5;

/// Type code of `List`; an element-count header, then the elements.
pub const TAG_LIST: u8 = 6;

/// Type code of `Dict`; a pair-count header, then key and value encodings
/// alternating in wire order.
pub const TAG_DICT: u8 = 7;

/// Type code of `SetOf`; an element-count header, then the elements.
pub const TAG_SET: u8 = 8;

/// Type code of `Ext`; an extension tag, an element-count header, then the
/// field encodings.
pub const TAG_EXT: u8 = 9;

/// Type code of `Error`; a discriminant byte, then the variant's payload.
pub const TAG_ERR: u8 = 10;

/// Discriminant of `Error::Message`.
pub const ERR_MESSAGE: u8 = 0;

/// Discriminant of `Error::UnmatchedCode`.
pub const ERR_UNMATCHED: u8 = 1;

/// Discriminant of `Error::Syntax`.
pub const ERR_SYNTAX: u8 = 2;

/// Whether a byte is an assigned type code.
pub open spec fn is_assigned(t: u8) -> bool {
    t <= TAG_ERR
}

/// The byte that names a syntax-violation category on the wire.
pub open spec fn code_num(c: ErrorCode) -> u8 {
    match c {
        ErrorCode::UnsupportedCacheType => 0,
        ErrorCode::TrailingBytes => 1,
    }
}

/// The eight bytes of `x`, big-endian.
pub open spec fn be8(x: u64) -> Seq<u8> {
    seq![
        ((x >> 56) & 0xff) as u8,
        ((x >> 48) & 0xff) as u8,
        ((x >> 40) & 0xff) as u8,
        ((x >> 32) & 0xff) as u8,
        ((x >> 24) & 0xff) as u8,
        ((x >> 16) & 0xff) as u8,
        ((x >> 8) & 0xff) as u8,
        (x & 0xff) as u8,
    ]
}

/// The 64-bit value whose big-endian bytes are `s[0..8]`.
pub open spec fn from8(s: Seq<u8>) -> u64
    recommends
        s.len() == 8,
{
    ((s[0] as u64) << 56) | ((s[1] as u64) << 48) | ((s[2] as u64) << 40) | ((s[3] as u64) << 32)
        | ((s[4] as u64) << 24) | ((s[5] as u64) << 16) | ((s[6] as u64) << 8) | (s[7] as u64)
}

/// The type code that opens the encoding of `m`.
pub open spec fn tag_of(m: ValueModel) -> u8 {
    match m {
        ValueModel::Nil => TAG_NIL,
        ValueModel::Boolean(v) => if v {
            TAG_TRUE
        } else {
            TAG_FALSE
        },
        ValueModel::Integer(_) => TAG_INT,
        ValueModel::Text(_) => TAG_TEXT,
        ValueModel::Bytes(_) => TAG_BYTES,
        ValueModel::List(_) => TAG_LIST,
        ValueModel::Dict(_) => TAG_DICT,
        ValueModel::SetOf(_) => TAG_SET,
        ValueModel::Ext(_, _) => TAG_EXT,
        ValueModel::Error(_) => TAG_ERR,
    }
}

/// The discriminant byte that opens the encoding of an error payload.
pub open spec fn err_tag_of(e: ErrorModel) -> u8 {
    match e {
        ErrorModel::Message(_) => ERR_MESSAGE,
        ErrorModel::UnmatchedCode(_, _) => ERR_UNMATCHED,
        ErrorModel::Syntax(_, _) => ERR_SYNTAX,
    }
}

/// The wire encoding of a value model.
pub open spec fn enc(m: ValueModel) -> Seq<u8>
    decreases m, 0int,
{
    match m {
        ValueModel::Nil => seq![TAG_NIL],
        ValueModel::Boolean(v) => if v {
            seq![TAG_TRUE]
        } else {
            seq![TAG_FALSE]
        },
        ValueModel::Integer(x) => seq![TAG_INT] + be8(x as u64),
        ValueModel::Text(bs) => seq![TAG_TEXT] + be8(bs.len() as u64) + bs,
        ValueModel::Bytes(bs) => seq![TAG_BYTES] + be8(bs.len() as u64) + bs,
        ValueModel::List(ms) => seq![TAG_LIST] + be8(ms.len() as u64) + enc_seq_from(ms, 0),
        ValueModel::Dict(ms) => seq![TAG_DICT] + be8((ms.len() / 2) as u64)
            + enc_seq_from(ms, 0),
        ValueModel::SetOf(ms) => seq![TAG_SET] + be8(ms.len() as u64) + enc_seq_from(ms, 0),
        ValueModel::Ext(tag, ms) => seq![TAG_EXT] + be8(tag) + be8(ms.len() as u64)
            + enc_seq_from(ms, 0),
        ValueModel::Error(e) => seq![TAG_ERR] + enc_err(e),
    }
}

/// The concatenated encodings of `ms[k..]`.
pub open spec fn enc_seq_from(ms: Seq<ValueModel>, k: int) -> Seq<u8>
    decreases ms, ms.len() - k,
{
    if 0 <= k < ms.len() {
        enc(ms[k]) + enc_seq_from(ms, k + 1)
    } else {
        Seq::empty()
    }
}

/// The wire encoding of an error payload (the bytes after `TAG_ERR`).
pub open spec fn enc_err(e: ErrorModel) -> Seq<u8> {
    match e {
        ErrorModel::Message(bs) => seq![ERR_MESSAGE] + be8(bs.len() as u64) + bs,
        ErrorModel::UnmatchedCode(x, y) => seq![ERR_UNMATCHED] + be8(x as u64) + be8(y as u64),
        ErrorModel::Syntax(c, d) => seq![ERR_SYNTAX, code_num(c)] + be8(d as u64),
    }
}

/// `s` occupies `b[p .. p + s.len()]`.
pub open spec fn prefix_at(b: Seq<u8>, p: int, s: Seq<u8>) -> bool {
    &&& 0 <= p
    &&& p + s.len() <= b.len()
    &&& b.subrange(p, p + s.len()) == s
}

/// Reading back the big-endian bytes of `x` yields `x`.
pub proof fn lemma_from8_be8(x: u64)
    ensures
        from8(be8(x)) == x,
{
    assert((((((x >> 56) & 0xff) as u8) as u64) << 56) | (((((x >> 48) & 0xff) as u8) as u64)
        << 48) | (((((x >> 40) & 0xff) as u8) as u64) << 40) | (((((x >> 32) & 0xff) as u8) as u64)
        << 32) | (((((x >> 24) & 0xff) as u8) as u64) << 24) | (((((x >> 16) & 0xff) as u8) as u64)
        << 16) | (((((x >> 8) & 0xff) as u8) as u64) << 8) | (((x & 0xff) as u8) as u64) == x)
        by (bit_vector);
}

/// Re-encoding the value read from eight bytes yields the same bytes.
pub proof fn lemma_be8_from8(s: Seq<u8>)
    requires
        s.len() == 8,
    ensures
        be8(from8(s)) == s,
{
    let b0 = s[0];
    let b1 = s[1];
    let b2 = s[2];
    let b3 = s[3];
    let b4 = s[4];
    let b5 = s[5];
    let b6 = s[6];
    let b7 = s[7];
    let n = from8(s);
    assert(n == ((b0 as u64) << 56) | ((b1 as u64) << 48) | ((b2 as u64) << 40) | ((b3 as u64)
        << 32) | ((b4 as u64) << 24) | ((b5 as u64) << 16) | ((b6 as u64) << 8) | (b7 as u64));
    assert((((n >> 56) & 0xff) as u8) == b0 && (((n >> 48) & 0xff) as u8) == b1 && (((n >> 40)
        & 0xff) as u8) == b2 && (((n >> 32) & 0xff) as u8) == b3 && (((n >> 24) & 0xff) as u8)
        == b4 && (((n >> 16) & 0xff) as u8) == b5 && (((n >> 8) & 0xff) as u8) == b6 && ((n
        & 0xff) as u8) == b7) by (bit_vector)
        requires
            n == ((b0 as u64) << 56) | ((b1 as u64) << 48) | ((b2 as u64) << 40) | ((b3 as u64)
                << 32) | ((b4 as u64) << 24) | ((b5 as u64) << 16) | ((b6 as u64) << 8) | (
            b7 as u64),
    ;
    assert(be8(n) =~= s);
}

/// A region that holds a concatenation splits into its two parts.
pub proof fn lemma_prefix_at_split(b: Seq<u8>, p: int, s: Seq<u8>, t: Seq<u8>)
    requires
        prefix_at(b, p, s + t),
    ensures
        prefix_at(b, p, s),
        prefix_at(b, p + s.len(), t),
{
    let whole = b.subrange(p, p + s.len() + t.len());
    assert(b.subrange(p, p + s.len()) =~= s) by {
        assert forall|j: int| 0 <= j < s.len() implies b.subrange(p, p + s.len())[j] == s[j] by {
            assert(whole[j] == (s + t)[j]);
        }
    }
    assert(b.subrange(p + s.len(), p + s.len() + t.len()) =~= t) by {
        assert forall|j: int| 0 <= j < t.len() implies b.subrange(
            p + s.len(),
            p + s.len() + t.len(),
        )[j] == t[j] by {
            assert(whole[s.len() + j] == (s + t)[s.len() + j]);
        }
    }
}

/// A byte inside a placed region equals the region's byte.
pub proof fn lemma_prefix_at_index(b: Seq<u8>, p: int, s: Seq<u8>, j: int)
    requires
        prefix_at(b, p, s),
        0 <= j < s.len(),
    ensures
        b[p + j] == s[j],
{
    assert(b.subrange(p, p + s.len())[j] == s[j]);
}

/// Every encoding opens with its type code, which is assigned.
pub proof fn lemma_enc_head(m: ValueModel)
    ensures
        enc(m).len() >= 1,
        enc(m)[0] == tag_of(m),
        is_assigned(tag_of(m)),
{
    match m {
        ValueModel::Nil => {},
        ValueModel::Boolean(_) => {},
        ValueModel::Integer(_) => {},
        ValueModel::Text(_) => {},
        ValueModel::Bytes(_) => {},
        ValueModel::List(_) => {},
        ValueModel::Dict(_) => {},
        ValueModel::SetOf(_) => {},
        ValueModel::Ext(_, _) => {},
        ValueModel::Error(_) => {},
    }
}

/// The type code determines the variant.
pub proof fn lemma_variant_from_tag(m: ValueModel)
    ensures
        tag_of(m) == TAG_NIL ==> m == ValueModel::Nil,
        tag_of(m) == TAG_TRUE ==> m == ValueModel::Boolean(true),
        tag_of(m) == TAG_FALSE ==> m == ValueModel::Boolean(false),
        tag_of(m) == TAG_INT ==> m is Integer,
        tag_of(m) == TAG_TEXT ==> m is Text,
        tag_of(m) == TAG_BYTES ==> m is Bytes,
        tag_of(m) == TAG_LIST ==> m is List,
        tag_of(m) == TAG_DICT ==> m is Dict,
        tag_of(m) == TAG_SET ==> m is SetOf,
        tag_of(m) == TAG_EXT ==> m is Ext,
        tag_of(m) == TAG_ERR ==> m is Error,
{
    match m {
        ValueModel::Nil => {},
        ValueModel::Boolean(_) => {},
        ValueModel::Integer(_) => {},
        ValueModel::Text(_) => {},
        ValueModel::Bytes(_) => {},
        ValueModel::List(_) => {},
        ValueModel::Dict(_) => {},
        ValueModel::SetOf(_) => {},
        ValueModel::Ext(_, _) => {},
        ValueModel::Error(_) => {},
    }
}

/// The discriminant byte determines the error variant.
pub proof fn lemma_err_variant_from_tag(e: ErrorModel)
    ensures
        err_tag_of(e) <= ERR_SYNTAX,
        err_tag_of(e) == ERR_MESSAGE ==> e is Message,
        err_tag_of(e) == ERR_UNMATCHED ==> e is UnmatchedCode,
        err_tag_of(e) == ERR_SYNTAX ==> e is Syntax,
{
    match e {
        ErrorModel::Message(_) => {},
        ErrorModel::UnmatchedCode(_, _) => {},
        ErrorModel::Syntax(_, _) => {},
    }
}

/// The wire byte of a syntax category determines the category.
pub proof fn lemma_code_from_num(c: ErrorCode)
    ensures
        code_num(c) <= 1,
        code_num(c) == 0 ==> c == ErrorCode::UnsupportedCacheType,
        code_num(c) == 1 ==> c == ErrorCode::TrailingBytes,
{
    match c {
        ErrorCode::UnsupportedCacheType => {},
        ErrorCode::TrailingBytes => {},
    }
}

/// What a placed encoding says about the bytes under it: the type code, the
/// headers, the total length, and where the payload sits.
pub proof fn lemma_placed_shape(b: Seq<u8>, p: int, m: ValueModel)
    requires
        wf(m),
        prefix_at(b, p, enc(m)),
    ensures
        0 <= p < b.len(),
        b[p] == tag_of(m),
        is_assigned(b[p]),
        m is Nil ==> enc(m).len() == 1,
        m is Boolean ==> enc(m).len() == 1,
        m matches ValueModel::Integer(x) ==> enc(m).len() == 9 && p + 9 <= b.len() && from8(
            b.subrange(p + 1, p + 9),
        ) == x as u64,
        m matches ValueModel::Text(bs) ==> enc(m).len() == 9 + bs.len() && p + 9 <= b.len()
            && from8(b.subrange(p + 1, p + 9)) == bs.len() && prefix_at(b, p + 9, bs),
        m matches ValueModel::Bytes(bs) ==> enc(m).len() == 9 + bs.len() && p + 9 <= b.len()
            && from8(b.subrange(p + 1, p + 9)) == bs.len() && prefix_at(b, p + 9, bs),
        m matches ValueModel::List(ms) ==> enc(m).len() == 9 + enc_seq_from(ms, 0).len() && p + 9
            <= b.len() && from8(b.subrange(p + 1, p + 9)) == ms.len() && prefix_at(
            b,
            p + 9,
            enc_seq_from(ms, 0),
        ),
        m matches ValueModel::Dict(ms) ==> enc(m).len() == 9 + enc_seq_from(ms, 0).len() && p + 9
            <= b.len() && from8(b.subrange(p + 1, p + 9)) == ms.len() / 2 && prefix_at(
            b,
            p + 9,
            enc_seq_from(ms, 0),
        ),
        m matches ValueModel::SetOf(ms) ==> enc(m).len() == 9 + enc_seq_from(ms, 0).len() && p + 9
            <= b.len() && from8(b.subrange(p + 1, p + 9)) == ms.len() && prefix_at(
            b,
            p + 9,
            enc_seq_from(ms, 0),
        ),
        m matches ValueModel::Ext(tag, ms) ==> enc(m).len() == 17 + enc_seq_from(ms, 0).len() && p
            + 17 <= b.len() && from8(b.subrange(p + 1, p + 9)) == tag && from8(
            b.subrange(p + 9, p + 17),
        ) == ms.len() && prefix_at(b, p + 17, enc_seq_from(ms, 0)),
        m matches ValueModel::Error(e) ==> enc(m).len() == 1 + enc_err(e).len() && prefix_at(
            b,
            p + 1,
            enc_err(e),
        ),
{
    lemma_enc_head(m);
    lemma_prefix_at_index(b, p, enc(m), 0);
    match m {
        ValueModel::Nil => {},
        ValueModel::Boolean(_) => {},
        ValueModel::Integer(x) => {
            lemma_prefix_at_split(b, p, seq![TAG_INT], be8(x as u64));
            assert(b.subrange(p + 1, p + 9) == be8(x as u64));
            lemma_from8_be8(x as u64);
        },
        ValueModel::Text(bs) => {
            lemma_prefix_at_split(b, p, seq![TAG_TEXT] + be8(bs.len() as u64), bs);
            lemma_prefix_at_split(b, p, seq![TAG_TEXT], be8(bs.len() as u64));
            assert(b.subrange(p + 1, p + 9) == be8(bs.len() as u64));
            lemma_from8_be8(bs.len() as u64);
        },
        ValueModel::Bytes(bs) => {
            lemma_prefix_at_split(b, p, seq![TAG_BYTES] + be8(bs.len() as u64), bs);
            lemma_prefix_at_split(b, p, seq![TAG_BYTES], be8(bs.len() as u64));
            assert(b.subrange(p + 1, p + 9) == be8(bs.len() as u64));
            lemma_from8_be8(bs.len() as u64);
        },
        ValueModel::List(ms) => {
            lemma_prefix_at_split(b, p, seq![TAG_LIST] + be8(ms.len() as u64), enc_seq_from(ms, 0));
            lemma_prefix_at_split(b, p, seq![TAG_LIST], be8(ms.len() as u64));
            assert(b.subrange(p + 1, p + 9) == be8(ms.len() as u64));
            lemma_from8_be8(ms.len() as u64);
        },
        ValueModel::Dict(ms) => {
            lemma_prefix_at_split(
                b,
                p,
                seq![TAG_DICT] + be8((ms.len() / 2) as u64),
                enc_seq_from(ms, 0),
            );
            lemma_prefix_at_split(b, p, seq![TAG_DICT], be8((ms.len() / 2) as u64));
            assert(b.subrange(p + 1, p + 9) == be8((ms.len() / 2) as u64));
            lemma_from8_be8((ms.len() / 2) as u64);
        },
        ValueModel::SetOf(ms) => {
            lemma_prefix_at_split(b, p, seq![TAG_SET] + be8(ms.len() as u64), enc_seq_from(ms, 0));
            lemma_prefix_at_split(b, p, seq![TAG_SET], be8(ms.len() as u64));
            assert(b.subrange(p + 1, p + 9) == be8(ms.len() as u64));
            lemma_from8_be8(ms.len() as u64);
        },
        ValueModel::Ext(tag, ms) => {
            lemma_prefix_at_split(
                b,
                p,
                seq![TAG_EXT] + be8(tag) + be8(ms.len() as u64),
                enc_seq_from(ms, 0),
            );
            lemma_prefix_at_split(b, p, seq![TAG_EXT] + be8(tag), be8(ms.len() as u64));
            lemma_prefix_at_split(b, p, seq![TAG_EXT], be8(tag));
            assert(b.subrange(p + 1, p + 9) == be8(tag));
            assert(b.subrange(p + 9, p + 17) == be8(ms.len() as u64));
            lemma_from8_be8(tag);
            lemma_from8_be8(ms.len() as u64);
        },
        ValueModel::Error(e) => {
            lemma_prefix_at_split(b, p, seq![TAG_ERR], enc_err(e));
        },
    }
}

/// What a placed error payload says about the bytes under it.
pub proof fn lemma_placed_err_shape(b: Seq<u8>, p: int, e: ErrorModel)
    requires
        wf_err(e),
        prefix_at(b, p, enc_err(e)),
    ensures
        0 <= p < b.len(),
        b[p] == err_tag_of(e),
        b[p] <= ERR_SYNTAX,
        e matches ErrorModel::Message(bs) ==> enc_err(e).len() == 9 + bs.len() && p + 9 <= b.len()
            && from8(b.subrange(p + 1, p + 9)) == bs.len() && prefix_at(b, p + 9, bs),
        e matches ErrorModel::UnmatchedCode(x, y) ==> enc_err(e).len() == 17 && p + 17 <= b.len()
            && from8(b.subrange(p + 1, p + 9)) == x as u64 && from8(b.subrange(p + 9, p + 17))
            == y as u64,
        e matches ErrorModel::Syntax(c, d) ==> enc_err(e).len() == 10 && p + 10 <= b.len() && b[p
            + 1] == code_num(c) && from8(b.subrange(p + 2, p + 10)) == d as u64,
{
    lemma_err_variant_from_tag(e);
    lemma_prefix_at_index(b, p, enc_err(e), 0);
    match e {
        ErrorModel::Message(bs) => {
            lemma_prefix_at_split(b, p, seq![ERR_MESSAGE] + be8(bs.len() as u64), bs);
            lemma_prefix_at_split(b, p, seq![ERR_MESSAGE], be8(bs.len() as u64));
            assert(b.subrange(p + 1, p + 9) == be8(bs.len() as u64));
            lemma_from8_be8(bs.len() as u64);
        },
        ErrorModel::UnmatchedCode(x, y) => {
            lemma_prefix_at_split(b, p, seq![ERR_UNMATCHED] + be8(x as u64), be8(y as u64));
            lemma_prefix_at_split(b, p, seq![ERR_UNMATCHED], be8(x as u64));
            assert(b.subrange(p + 1, p + 9) == be8(x as u64));
            assert(b.subrange(p + 9, p + 17) == be8(y as u64));
            lemma_from8_be8(x as u64);
            lemma_from8_be8(y as u64);
        },
        ErrorModel::Syntax(c, d) => {
            lemma_prefix_at_split(b, p, seq![ERR_SYNTAX, code_num(c)], be8(d as u64));
            lemma_prefix_at_index(b, p, enc_err(e), 1);
            assert(b.subrange(p + 2, p + 10) == be8(d as u64));
            lemma_from8_be8(d as u64);
        },
    }
}

/// Two well-formed error payloads placed at the same position are the same
/// error.
pub proof fn lemma_enc_err_unique(b: Seq<u8>, p: int, e1: ErrorModel, e2: ErrorModel)
    requires
        wf_err(e1),
        wf_err(e2),
        prefix_at(b, p, enc_err(e1)),
        prefix_at(b, p, enc_err(e2)),
    ensures
        e1 == e2,
{
    lemma_placed_err_shape(b, p, e1);
    lemma_placed_err_shape(b, p, e2);
    lemma_err_variant_from_tag(e1);
    lemma_err_variant_from_tag(e2);
    match e1 {
        ErrorModel::Message(bs1) => {
            match e2 {
                ErrorModel::Message(bs2) => {
                    assert(bs1.len() == bs2.len());
                    assert(bs1 =~= bs2) by {
                        assert(bs1 == b.subrange(p + 9, p + 9 + bs1.len()));
                        assert(bs2 == b.subrange(p + 9, p + 9 + bs2.len()));
                    }
                },
                _ => {},
            }
        },
        ErrorModel::UnmatchedCode(x1, y1) => {
            match e2 {
                ErrorModel::UnmatchedCode(x2, y2) => {
                    assert(x1 as u64 == x2 as u64 && y1 as u64 == y2 as u64);
                    assert(x1 as u64 == x2 as u64 ==> x1 == x2) by (bit_vector);
                    assert(y1 as u64 == y2 as u64 ==> y1 == y2) by (bit_vector);
                },
                _ => {},
            }
        },
        ErrorModel::Syntax(c1, d1) => {
            match e2 {
                ErrorModel::Syntax(c2, d2) => {
                    lemma_code_from_num(c1);
                    lemma_code_from_num(c2);
                    assert(code_num(c1) == code_num(c2));
                    assert(d1 as u64 == d2 as u64);
                    assert(d1 as u64 == d2 as u64 ==> d1 == d2) by (bit_vector);
                },
                _ => {},
            }
        },
    }
}

/// Two well-formed encodings placed at the same position are encodings of
/// the same value.  This is the heart of both injectivity and
/// prefix-freedom.
pub proof fn lemma_enc_unique(b: Seq<u8>, p: int, m1: ValueModel, m2: ValueModel)
    requires
        wf(m1),
        wf(m2),
        prefix_at(b, p, enc(m1)),
        prefix_at(b, p, enc(m2)),
    ensures
        m1 == m2,
    decreases m2, 0int,
{
    lemma_placed_shape(b, p, m1);
    lemma_placed_shape(b, p, m2);
    lemma_variant_from_tag(m1);
    lemma_variant_from_tag(m2);
    assert(tag_of(m1) == tag_of(m2));
    match m1 {
        ValueModel::Nil => {},
        ValueModel::Boolean(_) => {},
        ValueModel::Integer(x1) => {
            match m2 {
                ValueModel::Integer(x2) => {
                    assert(x1 as u64 == x2 as u64);
                    assert(x1 as u64 == x2 as u64 ==> x1 == x2) by (bit_vector);
                },
                _ => {},
            }
        },
        ValueModel::Text(bs1) => {
            match m2 {
                ValueModel::Text(bs2) => {
                    assert(bs1.len() == bs2.len());
                    assert(bs1 =~= bs2) by {
                        assert(bs1 == b.subrange(p + 9, p + 9 + bs1.len()));
                        assert(bs2 == b.subrange(p + 9, p + 9 + bs2.len()));
                    }
                },
                _ => {},
            }
        },
        ValueModel::Bytes(bs1) => {
            match m2 {
                ValueModel::Bytes(bs2) => {
                    assert(bs1.len() == bs2.len());
                    assert(bs1 =~= bs2) by {
                        assert(bs1 == b.subrange(p + 9, p + 9 + bs1.len()));
                        assert(bs2 == b.subrange(p + 9, p + 9 + bs2.len()));
                    }
                },
                _ => {},
            }
        },
        ValueModel::List(ms1) => {
            match m2 {
                ValueModel::List(ms2) => {
                    assert(ms1.len() == ms2.len());
                    lemma_enc_seq_unique(b, p + 9, ms1, ms2, 0);
                    assert(ms1 =~= ms2);
                },
                _ => {},
            }
        },
        ValueModel::Dict(ms1) => {
            match m2 {
                ValueModel::Dict(ms2) => {
                    assert(ms1.len() / 2 == ms2.len() / 2);
                    assert(ms1.len() == ms2.len());
                    lemma_enc_seq_unique(b, p + 9, ms1, ms2, 0);
                    assert(ms1 =~= ms2);
                },
                _ => {},
            }
        },
        ValueModel::SetOf(ms1) => {
            match m2 {
                ValueModel::SetOf(ms2) => {
                    assert(ms1.len() == ms2.len());
                    lemma_enc_seq_unique(b, p + 9, ms1, ms2, 0);
                    assert(ms1 =~= ms2);
                },
                _ => {},
            }
        },
        ValueModel::Ext(t1, ms1) => {
            match m2 {
                ValueModel::Ext(t2, ms2) => {
                    assert(t1 == t2);
                    assert(ms1.len() == ms2.len());
                    lemma_enc_seq_unique(b, p + 17, ms1, ms2, 0);
                    assert(ms1 =~= ms2);
                },
                _ => {},
            }
        },
        ValueModel::Error(e1) => {
            match m2 {
                ValueModel::Error(e2) => {
                    lemma_enc_err_unique(b, p + 1, e1, e2);
                },
                _ => {},
            }
        },
    }
}

/// Two equally long, well-formed element sequences whose encodings are
/// placed at the same position agree element by element from `k` on.
pub proof fn lemma_enc_seq_unique(
    b: Seq<u8>,
    p: int,
    ms1: Seq<ValueModel>,
    ms2: Seq<ValueModel>,
    k: int,
)
    requires
        wf_seq(ms1),
        wf_seq(ms2),
        ms1.len() == ms2.len(),
        0 <= k <= ms1.len(),
        prefix_at(b, p, enc_seq_from(ms1, k)),
        prefix_at(b, p, enc_seq_from(ms2, k)),
    ensures
        forall|j: int| k <= j < ms1.len() ==> ms1[j] == ms2[j],
    decreases ms2, ms2.len() - k,
{
    if k < ms1.len() {
        crate::value::lemma_wf_seq_index(ms1, k);
        crate::value::lemma_wf_seq_index(ms2, k);
        lemma_prefix_at_split(b, p, enc(ms1[k]), enc_seq_from(ms1, k + 1));
        lemma_prefix_at_split(b, p, enc(ms2[k]), enc_seq_from(ms2, k + 1));
        lemma_enc_unique(b, p, ms1[k], ms2[k]);
        lemma_enc_seq_unique(b, p + enc(ms1[k]).len(), ms1, ms2, k + 1);
    }
}

/// LAW, round trip: the wire encoding is injective over well-formed values,
/// so any decoder that returns a value whose encoding is the input returns
/// the one value the input stands for.
pub proof fn lemma_encoding_injective(m1: ValueModel, m2: ValueModel)
    requires
        wf(m1),
        wf(m2),
        enc(m1) == enc(m2),
    ensures
        m1 == m2,
{
    let b = enc(m2);
    assert(b.subrange(0, b.len() as int) =~= b);
    lemma_enc_unique(b, 0, m1, m2);
}

/// LAW, truncation safety: no well-formed encoding is a prefix of another's
/// unless the values are the same, so a proper prefix of a valid encoding is
/// never itself a valid encoding.
pub proof fn lemma_encoding_prefix_free(m1: ValueModel, m2: ValueModel)
    requires
        wf(m1),
        wf(m2),
        enc(m1).is_prefix_of(enc(m2)),
    ensures
        m1 == m2,
{
    let b = enc(m2);
    assert(b.subrange(0, b.len() as int) =~= b);
    assert(prefix_at(b, 0, enc(m1)));
    lemma_enc_unique(b, 0, m1, m2);
}

/// LAW, error round trip: the error taxonomy's encoding is injective, so an
/// error keeps its discriminant and payload across encode and decode.
pub proof fn lemma_error_encoding_injective(e1: ErrorModel, e2: ErrorModel)
    requires
        wf_err(e1),
        wf_err(e2),
        enc_err(e1) == enc_err(e2),
    ensures
        e1 == e2,
{
    let b = enc_err(e2);
    assert(b.subrange(0, b.len() as int) =~= b);
    lemma_enc_err_unique(b, 0, e1, e2);
}

/// Appending one element extends the concatenated encodings by that
/// element's encoding.
pub proof fn lemma_enc_seq_push(ms: Seq<ValueModel>, x: ValueModel, k: int)
    requires
        0 <= k <= ms.len(),
    ensures
        enc_seq_from(ms.push(x), k) == enc_seq_from(ms, k) + enc(x),
    decreases ms.len() - k,
{
    if k < ms.len() {
        lemma_enc_seq_push(ms, x, k + 1);
        assert(ms.push(x)[k] == ms[k]);
        assert(enc(ms[k]) + (enc_seq_from(ms, k + 1) + enc(x)) =~= (enc(ms[k]) + enc_seq_from(
            ms,
            k + 1,
        )) + enc(x));
    } else {
        assert(ms.push(x)[k] == x);
        assert(enc_seq_from(ms.push(x), k + 1) =~= Seq::<u8>::empty());
        assert(enc(x) + Seq::<u8>::empty() =~= enc(x));
        assert(enc_seq_from(ms, k) + enc(x) =~= enc(x));
    }
}

} // verus!

