//! The dynamic MessagePack value: the payload type carried by every frame.
//!
//! Floating-point numbers are held as their IEEE 754 bit patterns so that the
//! codec can move them through the wire format byte for byte; a host that
//! wants the numeric interpretation converts outside the library.

use vstd::prelude::*;

verus! {

broadcast use vstd::std_specs::vec::group_vec_axioms;

/// A MessagePack value.
///
/// Integers are split by sign: `Uint` carries every non-negative integer and
/// `Int` carries the strictly negative ones, mirroring the canonical reading
/// of the wire format, where a decoder always yields the unsigned reading of
/// a non-negative number.
#[derive(Debug, PartialEq)]
pub enum Value {
    /// The nil value.
    Nil,
    /// A boolean.
    Boolean(bool),
    /// A non-negative integer.
    Uint(u64),
    /// A strictly negative integer (well-formed values keep it negative).
    Int(i64),
    /// A 32-bit float, stored as its bit pattern.
    F32(u32),
    /// A 64-bit float, stored as its bit pattern.
    F64(u64),
    /// A UTF-8 text string.
    Str(String),
    /// A raw byte string.
    Bin(Vec<u8>),
    /// An ordered sequence of values.
    Array(Vec<Value>),
    /// An ordered list of key-value pairs.
    Dict(Vec<(Value, Value)>),
    /// An application-defined extension: a type tag and its payload bytes.
    Ext(i8, Vec<u8>),
}

/// The mathematical shape of a [`Value`]: the same tree over `Seq` instead of
/// `Vec` and over character sequences instead of `String`.
pub enum ValModel {
    Nil,
    Boolean(bool),
    Uint(u64),
    Int(i64),
    F32(u32),
    F64(u64),
    Str(Seq<char>),
    Bin(Seq<u8>),
    Array(Seq<ValModel>),
    Dict(Seq<(ValModel, ValModel)>),
    Ext(i8, Seq<u8>),
}

/// The model of a value: the same tree with `Seq` in place of `Vec`.
pub open spec fn val_model(v: Value) -> ValModel
    decreases v,
{
    match v {
        Value::Nil => ValModel::Nil,
        Value::Boolean(b) => ValModel::Boolean(b),
        Value::Uint(n) => ValModel::Uint(n),
        Value::Int(n) => ValModel::Int(n),
        Value::F32(bits) => ValModel::F32(bits),
        Value::F64(bits) => ValModel::F64(bits),
        Value::Str(s) => ValModel::Str(s@),
        Value::Bin(b) => ValModel::Bin(b@),
        Value::Array(a) => ValModel::Array(
            Seq::new(
                a@.len(),
                |i: int|
                    if 0 <= i < a@.len() {
                        val_model(a@[i])
                    } else {
                        ValModel::Nil
                    },
            ),
        ),
        Value::Dict(m) => ValModel::Dict(
            Seq::new(
                m@.len(),
                |i: int|
                    if 0 <= i < m@.len() {
                        (val_model(m@[i].0), val_model(m@[i].1))
                    } else {
                        (ValModel::Nil, ValModel::Nil)
                    },
            ),
        ),
        Value::Ext(tag, data) => ValModel::Ext(tag, data@),
    }
}

impl View for Value {
    type V = ValModel;

    open spec fn view(&self) -> ValModel {
        val_model(*self)
    }
}

impl DeepView for Value {
    type V = ValModel;

    open spec fn deep_view(&self) -> ValModel {
        val_model(*self)
    }
}

/// The models of a sequence of values.
pub open spec fn vals_model(s: Seq<Value>) -> Seq<ValModel> {
    Seq::new(s.len(), |i: int| val_model(s[i]))
}

/// The models of a sequence of key-value pairs.
pub open spec fn pairs_model(s: Seq<(Value, Value)>) -> Seq<(ValModel, ValModel)> {
    Seq::new(s.len(), |i: int| (val_model(s[i].0), val_model(s[i].1)))
}

/// The model of an array value is the array of the element models.
pub proof fn lemma_val_model_array(a: Vec<Value>)
    ensures
        val_model(Value::Array(a)) == ValModel::Array(vals_model(a@)),
{
    let x = val_model(Value::Array(a));
    assert(x is Array);
    let s1 = x->Array_0;
    assert(s1.len() == a@.len());
    assert forall|i: int| 0 <= i < a@.len() implies s1[i] == val_model(a@[i]) by {}
    assert(s1 =~= vals_model(a@));
}

/// The model of a map value is the map of the pairwise models.
pub proof fn lemma_val_model_dict(m: Vec<(Value, Value)>)
    ensures
        val_model(Value::Dict(m)) == ValModel::Dict(pairs_model(m@)),
{
    let x = val_model(Value::Dict(m));
    assert(x is Dict);
    let s1 = x->Dict_0;
    assert(s1.len() == m@.len());
    assert forall|i: int|
        0 <= i < m@.len() implies s1[i] == (val_model(m@[i].0), val_model(m@[i].1)) by {}
    assert(s1 =~= pairs_model(m@));
}

/// Copies a byte string.
pub fn clone_bytes(v: &Vec<u8>) -> (r: Vec<u8>)
    ensures
        r@ == v@,
{
    let mut out: Vec<u8> = Vec::new();
    let mut i: usize = 0;
    while i < v.len()
        invariant
            i <= v@.len(),
            out@ == v@.take(i as int),
        decreases v@.len() - i,
    {
        out.push(v[i]);
        assert(out@ =~= v@.take(i + 1));
        i = i + 1;
    }
    assert(out@ =~= v@);
    out
}

/// Deep-copies a sequence of values; the models coincide element by
/// element.
#[verifier::loop_isolation(false)]
pub fn clone_values(v: &Vec<Value>) -> (r: Vec<Value>)
    ensures
        vals_model(r@) == vals_model(v@),
{
    let mut out: Vec<Value> = Vec::new();
    let mut i: usize = 0;
    while i < v.len()
        invariant
            i <= v@.len(),
            out@.len() == i,
            forall|k: int| 0 <= k < i ==> val_model(#[trigger] out@[k]) == val_model(v@[k]),
        decreases v@.len() - i,
    {
        out.push(v[i].clone());
        i = i + 1;
    }
    assert(vals_model(out@) =~= vals_model(v@));
    out
}

impl Clone for Value {
    /// Deep copy: the copy's model is exactly the original's.
    #[verifier::loop_isolation(false)]
    fn clone(&self) -> (r: Value)
        ensures
            val_model(r) == val_model(*self),
        decreases self,
    {
        match self {
            Value::Nil => Value::Nil,
            Value::Boolean(b) => Value::Boolean(*b),
            Value::Uint(n) => Value::Uint(*n),
            Value::Int(n) => Value::Int(*n),
            Value::F32(bits) => Value::F32(*bits),
            Value::F64(bits) => Value::F64(*bits),
            Value::Str(s) => Value::Str(s.clone()),
            Value::Bin(b) => Value::Bin(clone_bytes(b)),
            Value::Array(a) => {
                let mut out: Vec<Value> = Vec::new();
                let mut i: usize = 0;
                while i < a.len()
                    invariant
                        i <= a@.len(),
                        out@.len() == i,
                        forall|k: int|
                            0 <= k < i ==> val_model(#[trigger] out@[k]) == val_model(a@[k]),
                    decreases a@.len() - i,
                {
                    proof {
                        assert(*self == Value::Array(*a));
                        assert(decreases_to!(*self => *a));
                        assert(decreases_to!(*a => a@[i as int]));
                    }
                    out.push(a[i].clone());
                    i = i + 1;
                }
                proof {
                    lemma_val_model_array(out);
                    lemma_val_model_array(*a);
                    assert(vals_model(out@) =~= vals_model(a@));
                }
                Value::Array(out)
            }
            Value::Dict(m) => {
                let mut out: Vec<(Value, Value)> = Vec::new();
                let mut i: usize = 0;
                while i < m.len()
                    invariant
                        i <= m@.len(),
                        out@.len() == i,
                        forall|k: int|
                            0 <= k < i ==> (val_model(#[trigger] out@[k].0), val_model(out@[k].1))
                                == (val_model(m@[k].0), val_model(m@[k].1)),
                    decreases m@.len() - i,
                {
                    proof {
                        assert(*self == Value::Dict(*m));
                        assert(decreases_to!(*self => *m));
                        assert(decreases_to!(*m => m@[i as int]));
                        assert(decreases_to!(m@[i as int] => m@[i as int].0));
                        assert(decreases_to!(m@[i as int] => m@[i as int].1));
                    }
                    let key = m[i].0.clone();
                    let value = m[i].1.clone();
                    out.push((key, value));
                    i = i + 1;
                }
                proof {
                    lemma_val_model_dict(out);
                    lemma_val_model_dict(*m);
                    assert(pairs_model(out@) =~= pairs_model(m@));
                }
                Value::Dict(out)
            }
            Value::Ext(tag, data) => Value::Ext(*tag, clone_bytes(data)),
        }
    }
}

} // verus!
