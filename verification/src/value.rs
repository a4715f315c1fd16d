//! The decoded value shape, its mathematical model, and the
//! well-formedness notion under which encoding and decoding invert each
//! other.

use vstd::prelude::*;

verus! {

use vstd::utf8::{encode_utf8, valid_utf8};
use crate::wire::lex_lt;

/// The mathematical model of a wire value: string payloads are the raw
/// payload bytes, integers are unbounded, and a dictionary is its entry
/// sequence in the order the entries stand.
pub enum SpecValue {
    Text(Seq<u8>),
    Int(int),
    List(Seq<SpecValue>),
    Dict(Seq<(Seq<u8>, SpecValue)>),
}

/// A decoded or to-be-encoded value.  The wire knows four shapes: strings
/// (held as UTF-8 text), signed 64-bit integers, lists, and dictionaries
/// with string keys.  Dictionary entries are kept as a pair sequence in the
/// order they were produced; the encoder, not this type, is responsible for
/// emitting them in canonical key order.
#[derive(Debug, PartialEq)]
pub enum Value {
    /// A string value.
    ByteString(String),
    /// A number value.
    Int(i64),
    /// A list of values.
    List(Vec<Value>),
    /// A dictionary of string keys and values.
    Dict(Vec<(String, Value)>),
}

pub open spec fn view_value(v: Value) -> SpecValue
    decreases v,
{
    match v {
        Value::ByteString(s) => SpecValue::Text(encode_utf8(s@)),
        Value::Int(n) => SpecValue::Int(n as int),
        Value::List(vs) => SpecValue::List(view_list(vs@)),
        Value::Dict(es) => SpecValue::Dict(view_entries(es@)),
    }
}

pub open spec fn view_list(vs: Seq<Value>) -> Seq<SpecValue>
    decreases vs,
{
    if vs.len() == 0 {
        Seq::empty()
    } else {
        seq![view_value(vs[0])] + view_list(vs.drop_first())
    }
}

pub open spec fn view_entries(es: Seq<(String, Value)>) -> Seq<(Seq<u8>, SpecValue)>
    decreases es,
{
    if es.len() == 0 {
        Seq::empty()
    } else {
        seq![(encode_utf8(es[0].0@), view_value(es[0].1))] + view_entries(es.drop_first())
    }
}

impl View for Value {
    type V = SpecValue;

    open spec fn view(&self) -> SpecValue {
        view_value(*self)
    }
}

pub proof fn lemma_view_list_len(vs: Seq<Value>)
    ensures
        view_list(vs).len() == vs.len(),
        forall|i: int| 0 <= i < vs.len() ==> #[trigger] view_list(vs)[i] == view_value(vs[i]),
    decreases vs,
{
    if vs.len() > 0 {
        lemma_view_list_len(vs.drop_first());
        assert(forall|i: int|
            0 <= i < vs.drop_first().len() ==> #[trigger] vs.drop_first()[i] == vs[i + 1]);
    }
}

pub proof fn lemma_view_list_push(vs: Seq<Value>, x: Value)
    ensures
        view_list(vs.push(x)) == view_list(vs).push(view_value(x)),
{
    lemma_view_list_len(vs);
    lemma_view_list_len(vs.push(x));
    assert(view_list(vs.push(x)) =~= view_list(vs).push(view_value(x)));
}

pub proof fn lemma_view_entries_len(es: Seq<(String, Value)>)
    ensures
        view_entries(es).len() == es.len(),
        forall|i: int|
            0 <= i < es.len() ==> #[trigger] view_entries(es)[i] == (
            encode_utf8(es[i].0@),
            view_value(es[i].1),
            ),
    decreases es,
{
    if es.len() > 0 {
        lemma_view_entries_len(es.drop_first());
        assert(forall|i: int|
            0 <= i < es.drop_first().len() ==> #[trigger] es.drop_first()[i] == es[i + 1]);
    }
}

pub proof fn lemma_view_entries_push(es: Seq<(String, Value)>, x: (String, Value))
    ensures
        view_entries(es.push(x)) == view_entries(es).push(
            (encode_utf8(x.0@), view_value(x.1)),
        ),
{
    lemma_view_entries_len(es);
    lemma_view_entries_len(es.push(x));
    assert(view_entries(es.push(x)) =~= view_entries(es).push(
        (encode_utf8(x.0@), view_value(x.1)),
    ));
}

/// A size measure on model values, used as the termination measure of the
/// encoder's mutually recursive walk.
pub open spec fn size_of(v: SpecValue) -> nat
    decreases v,
{
    match v {
        SpecValue::Text(b) => 1,
        SpecValue::Int(n) => 1,
        SpecValue::List(vs) => 1 + size_list(vs),
        SpecValue::Dict(es) => 1 + size_entries(es),
    }
}

pub open spec fn size_list(vs: Seq<SpecValue>) -> nat
    decreases vs,
{
    if vs.len() == 0 {
        0
    } else {
        size_of(vs[0]) + size_list(vs.drop_first())
    }
}

pub open spec fn size_entries(es: Seq<(Seq<u8>, SpecValue)>) -> nat
    decreases es,
{
    if es.len() == 0 {
        0
    } else {
        size_of(es[0].1) + size_entries(es.drop_first())
    }
}

pub proof fn lemma_size_list_elem(vs: Seq<SpecValue>, i: int)
    requires
        0 <= i < vs.len(),
    ensures
        size_of(vs[i]) <= size_list(vs),
    decreases vs,
{
    if i == 0 {
    } else {
        lemma_size_list_elem(vs.drop_first(), i - 1);
        assert(vs.drop_first()[i - 1] == vs[i]);
    }
}

pub proof fn lemma_size_entries_elem(es: Seq<(Seq<u8>, SpecValue)>, i: int)
    requires
        0 <= i < es.len(),
    ensures
        size_of(es[i].1) <= size_entries(es),
    decreases es,
{
    if i == 0 {
    } else {
        lemma_size_entries_elem(es.drop_first(), i - 1);
        assert(es.drop_first()[i - 1] == es[i]);
    }
}

/// The values whose encoding decodes back to the value itself: string
/// payloads are valid UTF-8 and of representable length, integers fit the
/// signed 64-bit range, and dictionary keys ascend strictly, so that the
/// entry order is already the canonical one.
pub open spec fn spec_wf(v: SpecValue) -> bool
    decreases v,
{
    match v {
        SpecValue::Text(b) => valid_utf8(b) && b.len() <= u64::MAX,
        SpecValue::Int(n) => i64::MIN <= n <= i64::MAX,
        SpecValue::List(vs) => forall|i: int| 0 <= i < vs.len() ==> spec_wf(#[trigger] vs[i]),
        SpecValue::Dict(es) => (forall|i: int|
            0 <= i < es.len() ==> valid_utf8((#[trigger] es[i]).0) && es[i].0.len() <= u64::MAX
                && spec_wf(es[i].1)) && (forall|i: int, j: int|
            0 <= i < j < es.len() ==> lex_lt(#[trigger] es[i].0, #[trigger] es[j].0)),
    }
}

} // verus!
