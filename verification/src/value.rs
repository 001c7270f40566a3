//! The intermediate value model and the error taxonomy.
//!
//! `Value` is the universal in-memory representation of every datum the wire
//! format can carry.  `Error` is the closed taxonomy of failure causes; it is
//! itself a `Value` variant, so a decode failure can be reported across the
//! boundary as an ordinary value.
//!
//! Contracts never speak of the executable types directly: each type has a
//! ghost model (`ValueModel`, `ErrorModel`) built from mathematical sequences,
//! reached through the `model()` spec functions.  Two values are semantically
//! equal exactly when their models are equal.

use vstd::prelude::*;

verus! {

/// One key/value pair of a map.  Wire order matters and duplicate keys must
/// round-trip, so a map is an ordered sequence of entries, not a hash table.
#[derive(Debug, PartialEq, Eq)]
pub struct Entry {
    pub key: Value,
    pub val: Value,
}

/// The closed set of variants the wire format can carry.
///
/// `Text` holds the UTF-8 bytes of a string; the bridge shuttles the bytes
/// unchanged and leaves their interpretation to the host.  A `SetOf` value
/// keeps its elements in wire order and the bridge does not deduplicate
/// them: uniqueness is the producer's contract.  An `Ext` value is a tagged
/// extension construct: a numeric tag and a sequence of fields.  Numbers
/// travel as 64-bit integers; the format assigns no floating-point code.
#[derive(Debug, PartialEq, Eq)]
pub enum Value {
    Nil,
    Boolean(bool),
    Integer(i64),
    Text(Vec<u8>),
    Bytes(Vec<u8>),
    List(Vec<Value>),
    Dict(Vec<Entry>),
    SetOf(Vec<Value>),
    Ext(u64, Vec<Value>),
    Error(Error),
}

/// A named syntax-violation category, carried by `Error::Syntax`.
#[derive(Clone, Copy, PartialEq, Eq, Structural, Debug)]
pub enum ErrorCode {
    /// An auxiliary cache construct that this bridge does not support.
    UnsupportedCacheType,
    /// Bytes left over after a structurally complete decode.
    TrailingBytes,
}

/// The closed error taxonomy.  Every decode failure is one of these; each
/// variant encodes to a distinct structured record, so the host can tell the
/// kinds apart after the boundary crossing.
#[derive(Debug, PartialEq, Eq)]
pub enum Error {
    /// A free-text diagnostic (UTF-8 bytes).
    Message(Vec<u8>),
    /// The decoder expected one wire type code and met another.  `expected`
    /// holds the largest assigned type code, naming the valid range.
    UnmatchedCode { expected: i64, actual: i64 },
    /// A named grammar violation plus a numeric detail.
    Syntax { code: ErrorCode, detail: i64 },
}

/// Ghost model of a `Value`.  Collection contents are sequences; a map is
/// modeled as its flat wire order, keys at even and values at odd positions.
pub enum ValueModel {
    Nil,
    Boolean(bool),
    Integer(i64),
    Text(Seq<u8>),
    Bytes(Seq<u8>),
    List(Seq<ValueModel>),
    Dict(Seq<ValueModel>),
    SetOf(Seq<ValueModel>),
    Ext(u64, Seq<ValueModel>),
    Error(ErrorModel),
}

/// Ghost model of an `Error`.
pub enum ErrorModel {
    Message(Seq<u8>),
    UnmatchedCode(i64, i64),
    Syntax(ErrorCode, i64),
}

impl Value {
    /// The ghost model of this value.
    pub open spec fn model(self) -> ValueModel
        decreases self, 0int,
    {
        match self {
            Value::Nil => ValueModel::Nil,
            Value::Boolean(b) => ValueModel::Boolean(b),
            Value::Integer(x) => ValueModel::Integer(x),
            Value::Text(bs) => ValueModel::Text(bs@),
            Value::Bytes(bs) => ValueModel::Bytes(bs@),
            Value::List(xs) => ValueModel::List(model_seq_from(xs@, 0)),
            Value::Dict(es) => ValueModel::Dict(model_entries_from(es@, 0)),
            Value::SetOf(xs) => ValueModel::SetOf(model_seq_from(xs@, 0)),
            Value::Ext(tag, xs) => ValueModel::Ext(tag, model_seq_from(xs@, 0)),
            Value::Error(e) => ValueModel::Error(e.model()),
        }
    }
}

impl Error {
    /// The ghost model of this error.
    pub open spec fn model(self) -> ErrorModel {
        match self {
            Error::Message(bs) => ErrorModel::Message(bs@),
            Error::UnmatchedCode { expected, actual } => ErrorModel::UnmatchedCode(
                expected,
                actual,
            ),
            Error::Syntax { code, detail } => ErrorModel::Syntax(code, detail),
        }
    }
}

/// Models of the values `xs[k..]`, in order.
pub open spec fn model_seq_from(xs: Seq<Value>, k: int) -> Seq<ValueModel>
    decreases xs, xs.len() - k,
{
    if 0 <= k < xs.len() {
        seq![xs[k].model()] + model_seq_from(xs, k + 1)
    } else {
        Seq::empty()
    }
}

/// Models of the entries `es[k..]`, flattened to wire order: key, value,
/// key, value, ...
pub open spec fn model_entries_from(es: Seq<Entry>, k: int) -> Seq<ValueModel>
    decreases es, es.len() - k,
{
    if 0 <= k < es.len() {
        seq![es[k].key.model(), es[k].val.model()] + model_entries_from(es, k + 1)
    } else {
        Seq::empty()
    }
}

/// How `model_seq_from` relates to the element models, index by index.
pub proof fn lemma_model_seq_from(xs: Seq<Value>, k: int)
    requires
        0 <= k <= xs.len(),
    ensures
        model_seq_from(xs, k).len() == xs.len() - k,
        forall|j: int|
            0 <= j < xs.len() - k ==> model_seq_from(xs, k)[j] == xs[k + j].model(),
    decreases xs.len() - k,
{
    if k < xs.len() {
        lemma_model_seq_from(xs, k + 1);
    }
}

/// How `model_entries_from` relates to the entry models, index by index.
pub proof fn lemma_model_entries_from(es: Seq<Entry>, k: int)
    requires
        0 <= k <= es.len(),
    ensures
        model_entries_from(es, k).len() == 2 * (es.len() - k),
        forall|j: int|
            0 <= j < es.len() - k ==> model_entries_from(es, k)[2 * j]
                == #[trigger] es[k + j].key.model(),
        forall|j: int|
            0 <= j < es.len() - k ==> model_entries_from(es, k)[2 * j + 1]
                == #[trigger] es[k + j].val.model(),
    decreases es.len() - k,
{
    if k < es.len() {
        lemma_model_entries_from(es, k + 1);
        assert forall|j: int| 1 <= j < es.len() - k implies model_entries_from(es, k)[2 * j]
            == #[trigger] es[k + j].key.model() by {
            assert(model_entries_from(es, k + 1)[2 * (j - 1)] == es[k + 1 + (j - 1)].key.model());
            assert(model_entries_from(es, k)[2 * j] == model_entries_from(es, k + 1)[2 * j - 2]);
        }
        assert forall|j: int| 1 <= j < es.len() - k implies model_entries_from(es, k)[2 * j + 1]
            == #[trigger] es[k + j].val.model() by {
            assert(model_entries_from(es, k + 1)[2 * (j - 1) + 1] == es[k + 1 + (j - 1)].val.model());
            assert(model_entries_from(es, k)[2 * j + 1] == model_entries_from(es, k + 1)[2 * j - 1]);
        }
    }
}

/// Well-formedness of a model: every collection and byte payload is small
/// enough for its length to stand in the wire format's 64-bit headers, and a
/// map's flat sequence pairs up.  The model of every executable value is
/// well-formed.
pub open spec fn wf(m: ValueModel) -> bool
    decreases m, 0int,
{
    match m {
        ValueModel::Nil => true,
        ValueModel::Boolean(_) => true,
        ValueModel::Integer(_) => true,
        ValueModel::Text(bs) => bs.len() <= u64::MAX,
        ValueModel::Bytes(bs) => bs.len() <= u64::MAX,
        ValueModel::List(ms) => ms.len() <= u64::MAX && wf_seq_from(ms, 0),
        ValueModel::Dict(ms) => ms.len() % 2 == 0 && ms.len() / 2 <= u64::MAX && wf_seq_from(
            ms,
            0,
        ),
        ValueModel::SetOf(ms) => ms.len() <= u64::MAX && wf_seq_from(ms, 0),
        ValueModel::Ext(_, ms) => ms.len() <= u64::MAX && wf_seq_from(ms, 0),
        ValueModel::Error(e) => wf_err(e),
    }
}

/// Well-formedness of every element of `ms[k..]`.
pub open spec fn wf_seq_from(ms: Seq<ValueModel>, k: int) -> bool
    decreases ms, ms.len() - k,
{
    if 0 <= k < ms.len() {
        wf(ms[k]) && wf_seq_from(ms, k + 1)
    } else {
        true
    }
}

/// Well-formedness of every element of a sequence of models.
pub open spec fn wf_seq(ms: Seq<ValueModel>) -> bool {
    wf_seq_from(ms, 0)
}

/// `wf_seq_from` is the element-wise statement it looks like.
pub proof fn lemma_wf_seq_from(ms: Seq<ValueModel>, k: int)
    requires
        0 <= k <= ms.len(),
    ensures
        wf_seq_from(ms, k) <==> (forall|j: int| k <= j < ms.len() ==> #[trigger] wf(ms[j])),
    decreases ms.len() - k,
{
    if k < ms.len() {
        lemma_wf_seq_from(ms, k + 1);
        if wf_seq_from(ms, k) {
            assert forall|j: int| k <= j < ms.len() implies #[trigger] wf(ms[j]) by {
                if j != k {
                    assert(wf(ms[j]));
                }
            }
        }
        if forall|j: int| k <= j < ms.len() ==> #[trigger] wf(ms[j]) {
            assert(wf(ms[k]));
            assert(forall|j: int| k + 1 <= j < ms.len() ==> #[trigger] wf(ms[j]));
            assert(wf_seq_from(ms, k));
        }
    }
}

/// Every element of a well-formed sequence is well-formed.
pub proof fn lemma_wf_seq_index(ms: Seq<ValueModel>, j: int)
    requires
        wf_seq(ms),
        0 <= j < ms.len(),
    ensures
        wf(ms[j]),
{
    lemma_wf_seq_from(ms, 0);
}

/// Well-formedness of an error model.
pub open spec fn wf_err(e: ErrorModel) -> bool {
    match e {
        ErrorModel::Message(bs) => bs.len() <= u64::MAX,
        ErrorModel::UnmatchedCode(_, _) => true,
        ErrorModel::Syntax(_, _) => true,
    }
}

} // verus!
