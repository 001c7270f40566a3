//! The guest-facing entry points.
//!
//! Each entry point is the thin composition the boundary protocol asks
//! for: receive (when it takes input), decode, the error capture, encode
//! and deliver.  Every one returns a complete delivered frame (see
//! `boundary::frame_of`); no failure ever escapes as anything but an
//! encoded `Error` value inside an ordinary frame.  The contracts pin each
//! frame to a fixed model, so two calls of the same probe always deliver
//! byte-identical content in separately owned buffers.

use vstd::prelude::*;

use crate::boundary::{deliver, frame_of};
use crate::decode::{decode, eof_text};
use crate::value::{
    Entry, Error, ErrorCode, ErrorModel, Value, ValueModel, lemma_model_entries_from,
    lemma_model_seq_from, model_entries_from, model_seq_from, wf, wf_err,
};
use crate::wire::{TAG_ERR, enc, is_assigned};

verus! {

/// The bytes of "hello".
pub open spec fn w_hello() -> Seq<u8> {
    seq![104u8, 101u8, 108u8, 108u8, 111u8]
}
/// The bytes of "from".
pub open spec fn w_from() -> Seq<u8> {
    seq![102u8, 114u8, 111u8, 109u8]
}
/// The bytes of "wasm!".
pub open spec fn w_wasm() -> Seq<u8> {
    seq![119u8, 97u8, 115u8, 109u8, 33u8]
}
/// The bytes of "isn't".
pub open spec fn w_isnt() -> Seq<u8> {
    seq![105u8, 115u8, 110u8, 39u8, 116u8]
}
/// The bytes of "this".
pub open spec fn w_this() -> Seq<u8> {
    seq![116u8, 104u8, 105u8, 115u8]
}
/// The bytes of "exciting?!".
pub open spec fn w_exciting() -> Seq<u8> {
    seq![101u8, 120u8, 99u8, 105u8, 116u8, 105u8, 110u8, 103u8, 63u8, 33u8]
}
/// The bytes of "some message".
pub open spec fn w_some_message() -> Seq<u8> {
    seq![115u8, 111u8, 109u8, 101u8, 32u8, 109u8, 101u8, 115u8, 115u8, 97u8, 103u8, 101u8]
}
/// The bytes of "type".
pub open spec fn w_type_key() -> Seq<u8> {
    seq![116u8, 121u8, 112u8, 101u8]
}
/// The bytes of "test_lib_error".
pub open spec fn w_test_lib_error() -> Seq<u8> {
    seq![116u8, 101u8, 115u8, 116u8, 95u8, 108u8, 105u8, 98u8, 95u8, 101u8, 114u8, 114u8, 111u8, 114u8]
}
/// The bytes of "field_0".
pub open spec fn w_field_0() -> Seq<u8> {
    seq![102u8, 105u8, 101u8, 108u8, 100u8, 95u8, 48u8]
}

fn v_hello() -> (t: Vec<u8>)
    ensures
        t@ == w_hello(),
{
    let mut t: Vec<u8> = Vec::new();
    t.push(104);
    t.push(101);
    t.push(108);
    t.push(108);
    t.push(111);
    assert(t@ =~= w_hello());
    t
}
fn v_from() -> (t: Vec<u8>)
    ensures
        t@ == w_from(),
{
    let mut t: Vec<u8> = Vec::new();
    t.push(102);
    t.push(114);
    t.push(111);
    t.push(109);
    assert(t@ =~= w_from());
    t
}
fn v_wasm() -> (t: Vec<u8>)
    ensures
        t@ == w_wasm(),
{
    let mut t: Vec<u8> = Vec::new();
    t.push(119);
    t.push(97);
    t.push(115);
    t.push(109);
    t.push(33);
    assert(t@ =~= w_wasm());
    t
}
fn v_isnt() -> (t: Vec<u8>)
    ensures
        t@ == w_isnt(),
{
    let mut t: Vec<u8> = Vec::new();
    t.push(105);
    t.push(115);
    t.push(110);
    t.push(39);
    t.push(116);
    assert(t@ =~= w_isnt());
    t
}
fn v_this() -> (t: Vec<u8>)
    ensures
        t@ == w_this(),
{
    let mut t: Vec<u8> = Vec::new();
    t.push(116);
    t.push(104);
    t.push(105);
    t.push(115);
    assert(t@ =~= w_this());
    t
}
fn v_exciting() -> (t: Vec<u8>)
    ensures
        t@ == w_exciting(),
{
    let mut t: Vec<u8> = Vec::new();
    t.push(101);
    t.push(120);
    t.push(99);
    t.push(105);
    t.push(116);
    t.push(105);
    t.push(110);
    t.push(103);
    t.push(63);
    t.push(33);
    assert(t@ =~= w_exciting());
    t
}
fn v_some_message() -> (t: Vec<u8>)
    ensures
        t@ == w_some_message(),
{
    let mut t: Vec<u8> = Vec::new();
    t.push(115);
    t.push(111);
    t.push(109);
    t.push(101);
    t.push(32);
    t.push(109);
    t.push(101);
    t.push(115);
    t.push(115);
    t.push(97);
    t.push(103);
    t.push(101);
    assert(t@ =~= w_some_message());
    t
}
fn v_type_key() -> (t: Vec<u8>)
    ensures
        t@ == w_type_key(),
{
    let mut t: Vec<u8> = Vec::new();
    t.push(116);
    t.push(121);
    t.push(112);
    t.push(101);
    assert(t@ =~= w_type_key());
    t
}
fn v_test_lib_error() -> (t: Vec<u8>)
    ensures
        t@ == w_test_lib_error(),
{
    let mut t: Vec<u8> = Vec::new();
    t.push(116);
    t.push(101);
    t.push(115);
    t.push(116);
    t.push(95);
    t.push(108);
    t.push(105);
    t.push(98);
    t.push(95);
    t.push(101);
    t.push(114);
    t.push(114);
    t.push(111);
    t.push(114);
    assert(t@ =~= w_test_lib_error());
    t
}
fn v_field_0() -> (t: Vec<u8>)
    ensures
        t@ == w_field_0(),
{
    let mut t: Vec<u8> = Vec::new();
    t.push(102);
    t.push(105);
    t.push(101);
    t.push(108);
    t.push(100);
    t.push(95);
    t.push(48);
    assert(t@ =~= w_field_0());
    t
}

/// The UTF-8 bytes of the large demonstration text's repeating unit: five
/// emoji faces (winking, sunglasses, thinking, neutral, rolling eyes)
/// separated by single spaces.
pub open spec fn w_big_unit() -> Seq<u8> {
    seq![240u8, 159u8, 152u8, 137u8, 32u8, 240u8, 159u8, 152u8, 142u8, 32u8, 240u8, 159u8, 164u8, 148u8, 32u8, 240u8, 159u8, 152u8, 144u8, 32u8, 240u8, 159u8, 153u8, 132u8]
}

/// The bytes of the large demonstration text: the emoji unit repeated six
/// times with no separator, exercising multi-byte UTF-8 across the
/// boundary.
pub open spec fn big_text() -> Seq<u8> {
    w_big_unit() + w_big_unit() + w_big_unit() + w_big_unit() + w_big_unit() + w_big_unit()
}

fn push_big_unit(t: &mut Vec<u8>)
    ensures
        final(t)@ == old(t)@ + w_big_unit(),
{
    t.push(240);
    t.push(159);
    t.push(152);
    t.push(137);
    t.push(32);
    t.push(240);
    t.push(159);
    t.push(152);
    t.push(142);
    t.push(32);
    t.push(240);
    t.push(159);
    t.push(164);
    t.push(148);
    t.push(32);
    t.push(240);
    t.push(159);
    t.push(152);
    t.push(144);
    t.push(32);
    t.push(240);
    t.push(159);
    t.push(153);
    t.push(132);
    assert(t@ =~= old(t)@ + w_big_unit());
}

fn v_big_text() -> (t: Vec<u8>)
    ensures
        t@ == big_text(),
{
    let mut t: Vec<u8> = Vec::new();
    push_big_unit(&mut t);
    push_big_unit(&mut t);
    push_big_unit(&mut t);
    push_big_unit(&mut t);
    push_big_unit(&mut t);
    push_big_unit(&mut t);
    assert(t@ =~= big_text());
    t
}

/// The fixed demonstration value the no-argument probe delivers: two rows
/// of three short strings.
pub open spec fn hello_model() -> ValueModel {
    ValueModel::List(
        seq![
            ValueModel::List(
                seq![
                    ValueModel::Text(w_hello()),
                    ValueModel::Text(w_from()),
                    ValueModel::Text(w_wasm()),
                ],
            ),
            ValueModel::List(
                seq![
                    ValueModel::Text(w_isnt()),
                    ValueModel::Text(w_this()),
                    ValueModel::Text(w_exciting()),
                ],
            ),
        ],
    )
}

/// The value the large-text probe delivers: one long emoji string in a
/// list.
pub open spec fn big_string_model() -> ValueModel {
    ValueModel::List(seq![ValueModel::Text(big_text())])
}

/// The value the error-inspection probe delivers: one of each error
/// variant, with fixed payloads.
pub open spec fn errors_model() -> ValueModel {
    ValueModel::List(
        seq![
            ValueModel::Error(ErrorModel::Message(w_some_message())),
            ValueModel::Error(ErrorModel::UnmatchedCode(42, 43)),
            ValueModel::Error(ErrorModel::Syntax(ErrorCode::UnsupportedCacheType, 99)),
        ],
    )
}

/// The record the custom-error probe delivers: a map with a "type"
/// discriminant field and one payload field.
pub open spec fn custom_error_model() -> ValueModel {
    ValueModel::Dict(
        seq![
            ValueModel::Text(w_type_key()),
            ValueModel::Text(w_test_lib_error()),
            ValueModel::Text(w_field_0()),
            ValueModel::Text(w_some_message()),
        ],
    )
}

/// No-argument probe: delivers the fixed demonstration value.  The frame
/// content is the same on every call, while each call hands out a freshly
/// owned buffer.
pub fn hello() -> (frame: Vec<u8>)
    ensures
        frame@ == frame_of(enc(hello_model())),
{
    let t1 = v_hello();
    let t2 = v_from();
    let t3 = v_wasm();
    let mut row1: Vec<Value> = Vec::new();
    row1.push(Value::Text(t1));
    row1.push(Value::Text(t2));
    row1.push(Value::Text(t3));
    let t4 = v_isnt();
    let t5 = v_this();
    let t6 = v_exciting();
    let mut row2: Vec<Value> = Vec::new();
    row2.push(Value::Text(t4));
    row2.push(Value::Text(t5));
    row2.push(Value::Text(t6));
    proof {
        lemma_model_seq_from(row1@, 0);
        lemma_model_seq_from(row2@, 0);
    }
    let ghost r1m = model_seq_from(row1@, 0);
    let ghost r2m = model_seq_from(row2@, 0);
    let mut outer: Vec<Value> = Vec::new();
    outer.push(Value::List(row1));
    outer.push(Value::List(row2));
    let v = Value::List(outer);
    proof {
        lemma_model_seq_from(outer@, 0);
        assert(r1m =~= seq![
            ValueModel::Text(w_hello()),
            ValueModel::Text(w_from()),
            ValueModel::Text(w_wasm()),
        ]);
        assert(r2m =~= seq![
            ValueModel::Text(w_isnt()),
            ValueModel::Text(w_this()),
            ValueModel::Text(w_exciting()),
        ]);
        assert(model_seq_from(outer@, 0) =~= seq![
            ValueModel::List(r1m),
            ValueModel::List(r2m),
        ]);
        assert(v.model() == hello_model());
    }
    deliver(&v)
}

/// Large-text probe: delivers a list holding one long string.
pub fn big_string() -> (frame: Vec<u8>)
    ensures
        frame@ == frame_of(enc(big_string_model())),
{
    let t = v_big_text();
    let mut xs: Vec<Value> = Vec::new();
    xs.push(Value::Text(t));
    let v = Value::List(xs);
    proof {
        lemma_model_seq_from(xs@, 0);
        assert(model_seq_from(xs@, 0) =~= seq![ValueModel::Text(big_text())]);
        assert(v.model() == big_string_model());
    }
    deliver(&v)
}

/// Echo: decodes the received bytes and delivers the decoded value back,
/// or delivers the decode error as an ordinary value.
///
/// When the input is a well-formed encoding, the delivered payload is that
/// same encoding; otherwise the payload is the encoding of some
/// well-formed error value, so the host always gets a frame it can decode.
/// Two failure shapes are pinned exactly: an empty input delivers the
/// truncation message, and an input opening with an unassigned type code
/// delivers an `UnmatchedCode` error naming that byte.
pub fn echo(input: &Vec<u8>) -> (frame: Vec<u8>)
    ensures
        forall|m: ValueModel| wf(m) && enc(m) == input@ ==> frame@ == frame_of(enc(m)),
        (forall|m: ValueModel| wf(m) ==> enc(m) != input@) ==> exists|e: ErrorModel|
            wf_err(e) && frame@ == frame_of(enc(ValueModel::Error(e))),
        input@.len() == 0 ==> frame@ == frame_of(
            enc(ValueModel::Error(ErrorModel::Message(eof_text()))),
        ),
        input@.len() > 0 && !is_assigned(input@[0]) ==> frame@ == frame_of(
            enc(
                ValueModel::Error(
                    ErrorModel::UnmatchedCode(TAG_ERR as i64, input@[0] as i64),
                ),
            ),
        ),
{
    match decode(input) {
        Ok(v) => {
            let frame = deliver(&v);
            proof {
                assert forall|m: ValueModel| wf(m) && enc(m) == input@ implies frame@ == frame_of(
                    enc(m),
                ) by {
                    crate::wire::lemma_encoding_injective(m, v.model());
                }
            }
            frame
        },
        Err(e) => {
            let ghost em = e.model();
            let frame = deliver(&Value::Error(e));
            proof {
                assert(wf_err(em) && frame@ == frame_of(enc(ValueModel::Error(em))));
            }
            frame
        },
    }
}

/// Error-inspection probe: delivers a list of pre-built error values, one
/// per variant, so the host can check that the taxonomy itself survives
/// the boundary crossing.
pub fn get_errors() -> (frame: Vec<u8>)
    ensures
        frame@ == frame_of(enc(errors_model())),
{
    let msg = Error::Message(v_some_message());
    let unmatched = Error::UnmatchedCode { expected: 42, actual: 43 };
    let unsupported = Error::Syntax { code: ErrorCode::UnsupportedCacheType, detail: 99 };
    let mut xs: Vec<Value> = Vec::new();
    xs.push(Value::Error(msg));
    xs.push(Value::Error(unmatched));
    xs.push(Value::Error(unsupported));
    let v = Value::List(xs);
    proof {
        lemma_model_seq_from(xs@, 0);
        assert(model_seq_from(xs@, 0) =~= seq![
            ValueModel::Error(ErrorModel::Message(w_some_message())),
            ValueModel::Error(ErrorModel::UnmatchedCode(42, 43)),
            ValueModel::Error(ErrorModel::Syntax(ErrorCode::UnsupportedCacheType, 99)),
        ]);
        assert(v.model() == errors_model());
    }
    deliver(&v)
}

/// Custom-error probe: delivers a structured record describing an
/// application-defined failure, as a map with a discriminant field.
pub fn get_custom_error() -> (frame: Vec<u8>)
    ensures
        frame@ == frame_of(enc(custom_error_model())),
{
    let e1 = Entry { key: Value::Text(v_type_key()), val: Value::Text(v_test_lib_error()) };
    let e2 = Entry { key: Value::Text(v_field_0()), val: Value::Text(v_some_message()) };
    let mut es: Vec<Entry> = Vec::new();
    es.push(e1);
    es.push(e2);
    let v = Value::Dict(es);
    proof {
        lemma_model_entries_from(es@, 0);
        // The index lemma's instances, in the shapes its triggers expect.
        assert(model_entries_from(es@, 0)[2 * 0int] == es@[0 + 0int].key.model());
        assert(model_entries_from(es@, 0)[2 * 0int + 1] == es@[0 + 0int].val.model());
        assert(model_entries_from(es@, 0)[2 * 1int] == es@[0 + 1int].key.model());
        assert(model_entries_from(es@, 0)[2 * 1int + 1] == es@[0 + 1int].val.model());
        assert(model_entries_from(es@, 0) =~= seq![
            ValueModel::Text(w_type_key()),
            ValueModel::Text(w_test_lib_error()),
            ValueModel::Text(w_field_0()),
            ValueModel::Text(w_some_message()),
        ]);
        assert(v.model() == custom_error_model());
    }
    deliver(&v)
}

} // verus!
