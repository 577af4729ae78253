//! Conversions between native host types and the dynamic [`Value`].
//!
//! These are the mechanical layer the generated API wrappers use: each
//! native type states which values carry it and what reading one yields.
//! A value of the wrong shape is excluded by precondition rather than met
//! with a panic.

use vstd::prelude::*;
use vstd::string::StringExecFns;
use crate::value::{Value, ValModel, val_model, vals_model, lemma_val_model_array,
    lemma_val_model_dict, pairs_model};

verus! {

broadcast use {vstd::std_specs::vec::group_vec_axioms, vstd::seq::group_seq_axioms};

/// The model of an integer as a value: non-negative numbers read unsigned.
pub open spec fn int_model(n: i64) -> ValModel {
    if n >= 0 {
        ValModel::Uint(n as u64)
    } else {
        ValModel::Int(n)
    }
}

/// Whether `v` carries a signed 64-bit integer.
pub open spec fn is_int_like(v: ValModel) -> bool {
    ||| (v matches ValModel::Uint(n) && n <= i64::MAX)
    ||| v is Int
}

/// The signed reading of an integer-carrying value.
pub open spec fn int_of(v: ValModel) -> i64 {
    match v {
        ValModel::Uint(n) => n as i64,
        ValModel::Int(n) => n,
        _ => 0,
    }
}

/// A native reading of a dynamic value.
pub trait FromVal<T>: DeepView + Sized {
    /// Whether `v` carries this type.
    spec fn can_from(v: T) -> bool;

    /// What reading `v` yields.
    spec fn model_from(v: T) -> Self::V;

    /// Reads the native value out of `v`.  Values of the wrong shape are
    /// excluded up front rather than met with a panic.
    fn from_val(v: T) -> (r: Self)
        requires
            Self::can_from(v),
        ensures
            r.deep_view() == Self::model_from(v),
    ;
}

/// A dynamic value built from a native one.
pub trait IntoVal<T: DeepView> {
    /// The value this converts to.
    spec fn val_of(&self) -> T::V;

    fn into_val(self) -> (r: T)
        ensures
            r.deep_view() == self.val_of(),
    ;
}

impl FromVal<Value> for () {
    open spec fn can_from(v: Value) -> bool {
        true
    }

    open spec fn model_from(v: Value) -> () {
        ()
    }

    fn from_val(_v: Value) -> Self {
    }
}

impl FromVal<Value> for Value {
    open spec fn can_from(v: Value) -> bool {
        true
    }

    open spec fn model_from(v: Value) -> ValModel {
        val_model(v)
    }

    fn from_val(v: Value) -> Self {
        v
    }
}

impl FromVal<Value> for bool {
    open spec fn can_from(v: Value) -> bool {
        val_model(v) is Boolean
    }

    open spec fn model_from(v: Value) -> bool {
        val_model(v)->Boolean_0
    }

    fn from_val(v: Value) -> Self {
        match v {
            Value::Boolean(b) => b,
            _ => false,
        }
    }
}

impl FromVal<Value> for String {
    open spec fn can_from(v: Value) -> bool {
        val_model(v) is Str
    }

    open spec fn model_from(v: Value) -> Seq<char> {
        val_model(v)->Str_0
    }

    fn from_val(v: Value) -> Self {
        match v {
            Value::Str(s) => s,
            _ => String::new(),
        }
    }
}

impl FromVal<Value> for i64 {
    open spec fn can_from(v: Value) -> bool {
        is_int_like(val_model(v))
    }

    open spec fn model_from(v: Value) -> i64 {
        int_of(val_model(v))
    }

    fn from_val(v: Value) -> Self {
        match v {
            Value::Uint(n) => n as i64,
            Value::Int(n) => n,
            _ => 0,
        }
    }
}

impl FromVal<Value> for (i64, i64) {
    open spec fn can_from(v: Value) -> bool {
        &&& val_model(v) is Array
        &&& val_model(v)->Array_0.len() == 2
        &&& is_int_like(val_model(v)->Array_0[0])
        &&& is_int_like(val_model(v)->Array_0[1])
    }

    open spec fn model_from(v: Value) -> (i64, i64) {
        (int_of(val_model(v)->Array_0[0]), int_of(val_model(v)->Array_0[1]))
    }

    fn from_val(v: Value) -> Self {
        proof {
            if let Value::Array(a) = &v {
                lemma_val_model_array(*a);
            }
        }
        match v {
            Value::Array(a) => {
                let x = match &a[0] {
                    Value::Uint(n) => *n as i64,
                    Value::Int(n) => *n,
                    _ => 0,
                };
                let y = match &a[1] {
                    Value::Uint(n) => *n as i64,
                    Value::Int(n) => *n,
                    _ => 0,
                };
                (x, y)
            }
            _ => (0, 0),
        }
    }
}

impl FromVal<Value> for Vec<Value> {
    open spec fn can_from(v: Value) -> bool {
        val_model(v) is Array
    }

    open spec fn model_from(v: Value) -> Seq<ValModel> {
        val_model(v)->Array_0
    }

    fn from_val(v: Value) -> Self {
        match v {
            Value::Array(a) => {
                proof {
                    lemma_val_model_array(a);
                    assert(a.deep_view() =~= vals_model(a@));
                }
                a
            }
            _ => Vec::new(),
        }
    }
}

impl FromVal<Value> for Vec<(Value, Value)> {
    open spec fn can_from(v: Value) -> bool {
        val_model(v) is Dict
    }

    open spec fn model_from(v: Value) -> Seq<(ValModel, ValModel)> {
        val_model(v)->Dict_0
    }

    fn from_val(v: Value) -> Self {
        match v {
            Value::Dict(m) => {
                proof {
                    lemma_val_model_dict(m);
                    assert(m.deep_view() =~= pairs_model(m@));
                }
                m
            }
            _ => Vec::new(),
        }
    }
}

impl IntoVal<Value> for Value {
    open spec fn val_of(&self) -> ValModel {
        val_model(*self)
    }

    fn into_val(self) -> Value {
        self
    }
}

impl IntoVal<Value> for bool {
    open spec fn val_of(&self) -> ValModel {
        ValModel::Boolean(*self)
    }

    fn into_val(self) -> Value {
        Value::Boolean(self)
    }
}

impl IntoVal<Value> for i64 {
    open spec fn val_of(&self) -> ValModel {
        int_model(*self)
    }

    fn into_val(self) -> Value {
        if self >= 0 {
            Value::Uint(self as u64)
        } else {
            Value::Int(self)
        }
    }
}

impl IntoVal<Value> for String {
    open spec fn val_of(&self) -> ValModel {
        ValModel::Str(self@)
    }

    fn into_val(self) -> Value {
        Value::Str(self)
    }
}

impl<'a> IntoVal<Value> for &'a str {
    open spec fn val_of(&self) -> ValModel {
        ValModel::Str((*self)@)
    }

    fn into_val(self) -> Value {
        Value::Str(self.to_owned())
    }
}

impl IntoVal<Value> for (i64, i64) {
    open spec fn val_of(&self) -> ValModel {
        ValModel::Array(seq![int_model(self.0), int_model(self.1)])
    }

    fn into_val(self) -> (r: Value) {
        let mut items: Vec<Value> = Vec::new();
        items.push(self.0.into_val());
        items.push(self.1.into_val());
        proof {
            lemma_val_model_array(items);
            assert(vals_model(items@) =~= seq![int_model(self.0), int_model(self.1)]);
        }
        Value::Array(items)
    }
}

impl IntoVal<Value> for Vec<Value> {
    open spec fn val_of(&self) -> ValModel {
        ValModel::Array(self.deep_view())
    }

    fn into_val(self) -> (r: Value) {
        proof {
            lemma_val_model_array(self);
            assert(vals_model(self@) =~= self.deep_view());
        }
        Value::Array(self)
    }
}

impl IntoVal<Value> for Vec<(Value, Value)> {
    open spec fn val_of(&self) -> ValModel {
        ValModel::Dict(self.deep_view())
    }

    fn into_val(self) -> (r: Value) {
        proof {
            lemma_val_model_dict(self);
            assert(pairs_model(self@) =~= self.deep_view());
        }
        Value::Dict(self)
    }
}

impl IntoVal<Value> for Vec<String> {
    open spec fn val_of(&self) -> ValModel {
        ValModel::Array(Seq::new(self@.len(), |i: int| ValModel::Str(self@[i]@)))
    }

    fn into_val(self) -> (r: Value) {
        let mut items: Vec<Value> = Vec::new();
        let mut i: usize = 0;
        while i < self.len()
            invariant
                i <= self@.len(),
                items@.len() == i,
                forall|k: int|
                    0 <= k < i ==> val_model(#[trigger] items@[k]) == ValModel::Str(self@[k]@),
            decreases self@.len() - i,
        {
            let s = self[i].clone();
            items.push(Value::Str(s));
            i = i + 1;
        }
        proof {
            lemma_val_model_array(items);
            assert(vals_model(items@) =~= Seq::new(self@.len(), |i: int| ValModel::Str(self@[i]@)));
        }
        Value::Array(items)
    }
}

} // verus!
