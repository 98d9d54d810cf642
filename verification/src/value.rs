use vstd::prelude::*;
use crate::utf8::offset_model;

verus! {

broadcast use vstd::seq::axiom_seq_index_decreases;

/// A text payload: the raw bytes of a wire string together with the offset
/// of the first byte sequence that is not valid UTF-8, if any. Decoding
/// never rejects a string payload for being malformed: the bytes are kept
/// exactly as read, and `invalid_at` records where validation first failed.
#[derive(Debug, PartialEq)]
pub struct Utf8String {
    pub bytes: Vec<u8>,
    pub invalid_at: Option<usize>,
}

/// One decoded value: a tree built bottom-up during a single decode call
/// and returned wholly owned. Map entries keep their order as read;
/// duplicate keys are permitted and not deduplicated. Floats are carried
/// as their IEEE-754 big-endian bit patterns, taken from the wire as-is.
#[derive(Debug, PartialEq)]
pub enum Value {
    Nil,
    Boolean(bool),
    UnsignedInt(u64),
    SignedInt(i64),
    F32(u32),
    F64(u64),
    Text(Utf8String),
    Binary(Vec<u8>),
    Array(Vec<Value>),
    Mapping(Vec<(Value, Value)>),
    Ext(i8, Vec<u8>),
}

/// The mathematical model of a decoded value, over sequences.
#[verifier::ext_equal]
pub enum ValueModel {
    Nil,
    Boolean(bool),
    UnsignedInt(u64),
    SignedInt(i64),
    F32(u32),
    F64(u64),
    Text(Seq<u8>, Option<int>),
    Binary(Seq<u8>),
    Array(Seq<ValueModel>),
    Mapping(Seq<(ValueModel, ValueModel)>),
    Ext(i8, Seq<u8>),
}

/// The model of a value.
pub open spec fn value_model(v: Value) -> ValueModel
    decreases v,
{
    match v {
        Value::Nil => ValueModel::Nil,
        Value::Boolean(b) => ValueModel::Boolean(b),
        Value::UnsignedInt(n) => ValueModel::UnsignedInt(n),
        Value::SignedInt(n) => ValueModel::SignedInt(n),
        Value::F32(bits) => ValueModel::F32(bits),
        Value::F64(bits) => ValueModel::F64(bits),
        Value::Text(s) => ValueModel::Text(s.bytes@, offset_model(s.invalid_at)),
        Value::Binary(b) => ValueModel::Binary(b@),
        Value::Array(vs) => ValueModel::Array(seq_model(vs@)),
        Value::Mapping(ps) => ValueModel::Mapping(pairs_model(ps@)),
        Value::Ext(tag, b) => ValueModel::Ext(tag, b@),
    }
}

/// The models of a sequence of values, in order.
pub open spec fn seq_model(vs: Seq<Value>) -> Seq<ValueModel>
    decreases vs,
{
    Seq::new(
        vs.len(),
        |i: int|
            if 0 <= i < vs.len() {
                value_model(vs[i])
            } else {
                ValueModel::Nil
            },
    )
}

/// The models of a sequence of key/value pairs, in order.
pub open spec fn pairs_model(ps: Seq<(Value, Value)>) -> Seq<(ValueModel, ValueModel)>
    decreases ps,
{
    Seq::new(
        ps.len(),
        |i: int|
            if 0 <= i < ps.len() {
                (value_model(ps[i].0), value_model(ps[i].1))
            } else {
                (ValueModel::Nil, ValueModel::Nil)
            },
    )
}

} // verus!
