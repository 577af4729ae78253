//! The three MessagePack-RPC frame shapes and their wire codec.
//!
//! A frame travels as a MessagePack array: `[0, msgid, method, params]` for
//! a request, `[1, msgid, error, result]` for a response and
//! `[2, method, params]` for a notification.  `encode` emits exactly that
//! array's canonical bytes; `decode` reads one value and checks the shape,
//! and `lemma_msg_round_trip` proves that decoding an encoded frame gives it
//! back, wherever in a byte stream it sits.

use vstd::prelude::*;
use vstd::utf8::encode_utf8;
use crate::value::{Value, ValModel, val_model, vals_model, lemma_val_model_array};
use crate::codec::{
    enc_val, dec_val, wf_val, Parsed, EncodeError, DecodeError, MAX_LEN, encode_value,
    decode_value, lemma_dec_enc_val,
};
use crate::{REQUEST_TYPE, RESPONSE_TYPE, NOTIFICATION_TYPE};

verus! {

broadcast use {vstd::std_specs::vec::group_vec_axioms, vstd::seq::group_seq_axioms};

/// One MessagePack-RPC frame.
#[derive(Debug, PartialEq)]
pub enum RpcMessage {
    /// A call that expects a response correlated by `msgid`.
    RpcRequest { msgid: u64, method: String, params: Vec<Value> },
    /// The answer to the request with the same `msgid`; `error` is nil
    /// exactly on success.
    RpcResponse { msgid: u64, error: Value, result: Value },
    /// A fire-and-forget event; no response ever refers to it.
    RpcNotification { method: String, params: Vec<Value> },
}

/// The mathematical shape of a frame.
pub enum MsgModel {
    Request { msgid: u64, method: Seq<char>, params: Seq<ValModel> },
    Response { msgid: u64, error: ValModel, result: ValModel },
    Notification { method: Seq<char>, params: Seq<ValModel> },
}

impl View for RpcMessage {
    type V = MsgModel;

    open spec fn view(&self) -> MsgModel {
        match self {
            RpcMessage::RpcRequest { msgid, method, params } => MsgModel::Request {
                msgid: *msgid,
                method: method@,
                params: vals_model(params@),
            },
            RpcMessage::RpcResponse { msgid, error, result } => MsgModel::Response {
                msgid: *msgid,
                error: val_model(*error),
                result: val_model(*result),
            },
            RpcMessage::RpcNotification { method, params } => MsgModel::Notification {
                method: method@,
                params: vals_model(params@),
            },
        }
    }
}

/// The array value that carries a frame on the wire.
pub open spec fn msg_val(m: MsgModel) -> ValModel {
    match m {
        MsgModel::Request { msgid, method, params } => ValModel::Array(
            seq![
                ValModel::Uint(REQUEST_TYPE),
                ValModel::Uint(msgid),
                ValModel::Str(method),
                ValModel::Array(params),
            ],
        ),
        MsgModel::Response { msgid, error, result } => ValModel::Array(
            seq![ValModel::Uint(RESPONSE_TYPE), ValModel::Uint(msgid), error, result],
        ),
        MsgModel::Notification { method, params } => ValModel::Array(
            seq![
                ValModel::Uint(NOTIFICATION_TYPE),
                ValModel::Str(method),
                ValModel::Array(params),
            ],
        ),
    }
}

/// The frame a well-shaped array value denotes, if any: an array of length
/// three or four whose leading discriminant and field types fit one of the
/// three shapes.
pub open spec fn msg_of_val(v: ValModel) -> Option<MsgModel> {
    match v {
        ValModel::Array(items) => {
            if items.len() == 4 && items[0] == ValModel::Uint(REQUEST_TYPE) {
                match (items[1], items[2], items[3]) {
                    (ValModel::Uint(id), ValModel::Str(mth), ValModel::Array(ps)) => Some(
                        MsgModel::Request { msgid: id, method: mth, params: ps },
                    ),
                    _ => None,
                }
            } else if items.len() == 4 && items[0] == ValModel::Uint(RESPONSE_TYPE) {
                match items[1] {
                    ValModel::Uint(id) => Some(
                        MsgModel::Response { msgid: id, error: items[2], result: items[3] },
                    ),
                    _ => None,
                }
            } else if items.len() == 3 && items[0] == ValModel::Uint(NOTIFICATION_TYPE) {
                match (items[1], items[2]) {
                    (ValModel::Str(mth), ValModel::Array(ps)) => Some(
                        MsgModel::Notification { method: mth, params: ps },
                    ),
                    _ => None,
                }
            } else {
                None
            }
        }
        _ => None,
    }
}

/// The canonical wire bytes of a frame.
pub open spec fn enc_msg(m: MsgModel) -> Seq<u8> {
    enc_val(msg_val(m))
}

/// The mathematical frame decoder: one value off the front of `s`, then the
/// shape check.  A value of the wrong shape is malformed, fatally.
pub open spec fn dec_msg(s: Seq<u8>) -> Parsed<MsgModel> {
    match dec_val(s) {
        Parsed::Found(v, k) => match msg_of_val(v) {
            Some(m) => Parsed::Found(m, k),
            None => Parsed::Bad,
        },
        Parsed::Short => Parsed::Short,
        Parsed::Bad => Parsed::Bad,
    }
}

/// A frame is well formed when its parts are: every parameter well formed,
/// every length within a 32-bit length field.
pub open spec fn wf_msg(m: MsgModel) -> bool {
    match m {
        MsgModel::Request { msgid, method, params } => encode_utf8(method).len() <= MAX_LEN
            && params.len() <= MAX_LEN && (forall|i: int|
            0 <= i < params.len() ==> wf_val(#[trigger] params[i])),
        MsgModel::Response { msgid, error, result } => wf_val(error) && wf_val(result),
        MsgModel::Notification { method, params } => encode_utf8(method).len() <= MAX_LEN
            && params.len() <= MAX_LEN && (forall|i: int|
            0 <= i < params.len() ==> wf_val(#[trigger] params[i])),
    }
}

/// A frame is well formed exactly when the array value carrying it is.
pub proof fn lemma_wf_msg_val(m: MsgModel)
    ensures
        wf_msg(m) == wf_val(msg_val(m)),
{
    reveal_with_fuel(crate::codec::wf_val, 3);
    let v = msg_val(m);
    match m {
        MsgModel::Request { msgid, method, params } => {
            let items = v->Array_0;
            assert(items[0] == ValModel::Uint(REQUEST_TYPE));
            assert(items[1] == ValModel::Uint(msgid));
            assert(items[2] == ValModel::Str(method));
            assert(items[3] == ValModel::Array(params));
            assert(wf_val(items[0]) && wf_val(items[1]));
            assert(wf_val(items[2]) == (encode_utf8(method).len() <= MAX_LEN));
            assert(wf_val(items[3]) == (params.len() <= MAX_LEN && (forall|i: int|
                0 <= i < params.len() ==> wf_val(#[trigger] params[i]))));
            if wf_msg(m) {
                assert(forall|i: int| 0 <= i < 4 ==> wf_val(#[trigger] items[i]));
            }
        }
        MsgModel::Response { msgid, error, result } => {
            let items = v->Array_0;
            assert(items[0] == ValModel::Uint(RESPONSE_TYPE));
            assert(items[1] == ValModel::Uint(msgid));
            assert(items[2] == error);
            assert(items[3] == result);
            if wf_msg(m) {
                assert(forall|i: int| 0 <= i < 4 ==> wf_val(#[trigger] items[i]));
            }
        }
        MsgModel::Notification { method, params } => {
            let items = v->Array_0;
            assert(items[0] == ValModel::Uint(NOTIFICATION_TYPE));
            assert(items[1] == ValModel::Str(method));
            assert(items[2] == ValModel::Array(params));
            assert(wf_val(items[1]) == (encode_utf8(method).len() <= MAX_LEN));
            assert(wf_val(items[2]) == (params.len() <= MAX_LEN && (forall|i: int|
                0 <= i < params.len() ==> wf_val(#[trigger] params[i]))));
            if wf_msg(m) {
                assert(forall|i: int| 0 <= i < 3 ==> wf_val(#[trigger] items[i]));
            }
        }
    }
}

/// The shape check undoes the shape construction.
pub proof fn lemma_msg_of_msg_val(m: MsgModel)
    ensures
        msg_of_val(msg_val(m)) == Some(m),
{
    match m {
        MsgModel::Request { msgid, method, params } => {}
        MsgModel::Response { msgid, error, result } => {}
        MsgModel::Notification { method, params } => {}
    }
}

/// The wire bytes of a run of frames: back to back, no framing header.
pub open spec fn enc_msgs(ms: Seq<MsgModel>) -> Seq<u8>
    decreases ms.len(),
{
    if ms.len() == 0 {
        Seq::empty()
    } else {
        enc_msg(ms[0]) + enc_msgs(ms.drop_first())
    }
}

/// The shape construction undoes the shape check: a value that denotes a
/// frame is exactly that frame's carrying array.
pub proof fn lemma_msg_val_of(v: ValModel)
    ensures
        msg_of_val(v) matches Some(m) ==> msg_val(m) == v,
{
    if let Some(m) = msg_of_val(v) {
        let items = v->Array_0;
        assert(msg_val(m)->Array_0 =~= items);
    }
}

/// Round trip of the frame codec: wherever a well-formed frame's bytes sit
/// in a stream, decoding finds that frame and consumes exactly its bytes.
pub proof fn lemma_msg_round_trip(m: MsgModel, rest: Seq<u8>)
    requires
        wf_msg(m),
    ensures
        dec_msg(enc_msg(m) + rest) == Parsed::Found(m, enc_msg(m).len() as int),
{
    lemma_wf_msg_val(m);
    lemma_dec_enc_val(msg_val(m), rest);
    lemma_msg_of_msg_val(m);
}

/// Concatenated frames decode in order from a shared cursor: the stream's
/// front holds the first frame, and consuming exactly its bytes leaves the
/// stream of the remaining frames in the same position.
pub proof fn lemma_stream_round_trip(ms: Seq<MsgModel>, rest: Seq<u8>)
    requires
        ms.len() > 0,
        forall|i: int| 0 <= i < ms.len() ==> wf_msg(#[trigger] ms[i]),
    ensures
        ({
            let s = enc_msgs(ms) + rest;
            let k = enc_msg(ms[0]).len() as int;
            &&& dec_msg(s) == Parsed::Found(ms[0], k)
            &&& s.skip(k) == enc_msgs(ms.drop_first()) + rest
        }),
{
    lemma_msg_round_trip(ms[0], enc_msgs(ms.drop_first()) + rest);
    assert(enc_msgs(ms) + rest =~= enc_msg(ms[0]) + (enc_msgs(ms.drop_first()) + rest));
    assert((enc_msgs(ms) + rest).skip(enc_msg(ms[0]).len() as int) =~= enc_msgs(ms.drop_first())
        + rest);
}

/// Builds the array value that carries `msg` on the wire.
fn msg_to_value(msg: RpcMessage) -> (v: Value)
    ensures
        val_model(v) == msg_val(msg@),
{
    match msg {
        RpcMessage::RpcRequest { msgid, method, params } => {
            proof {
                lemma_val_model_array(params);
            }
            let mut items: Vec<Value> = Vec::new();
            items.push(Value::Uint(REQUEST_TYPE));
            items.push(Value::Uint(msgid));
            items.push(Value::Str(method));
            items.push(Value::Array(params));
            proof {
                lemma_val_model_array(items);
                assert(vals_model(items@) =~= msg_val(
                    MsgModel::Request {
                        msgid,
                        method: items@[2]->Str_0@,
                        params: val_model(items@[3])->Array_0,
                    },
                )->Array_0);
            }
            Value::Array(items)
        }
        RpcMessage::RpcResponse { msgid, error, result } => {
            let mut items: Vec<Value> = Vec::new();
            items.push(Value::Uint(RESPONSE_TYPE));
            items.push(Value::Uint(msgid));
            items.push(error);
            items.push(result);
            proof {
                lemma_val_model_array(items);
                assert(vals_model(items@) =~= seq![
                    ValModel::Uint(RESPONSE_TYPE),
                    ValModel::Uint(msgid),
                    val_model(items@[2]),
                    val_model(items@[3]),
                ]);
            }
            Value::Array(items)
        }
        RpcMessage::RpcNotification { method, params } => {
            proof {
                lemma_val_model_array(params);
            }
            let mut items: Vec<Value> = Vec::new();
            items.push(Value::Uint(NOTIFICATION_TYPE));
            items.push(Value::Str(method));
            items.push(Value::Array(params));
            proof {
                lemma_val_model_array(items);
                assert(vals_model(items@) =~= seq![
                    ValModel::Uint(NOTIFICATION_TYPE),
                    val_model(items@[1]),
                    val_model(items@[2]),
                ]);
            }
            Value::Array(items)
        }
    }
}

/// Appends the canonical wire bytes of one frame to `buf`.  Succeeds on
/// every well-formed frame; it fails only when a parameter list, a method
/// name's UTF-8 form or a nested payload is too long for a length field,
/// and then leaves no promise about the buffer, which the caller discards.
pub fn encode(msg: RpcMessage, buf: &mut Vec<u8>) -> (r: Result<(), EncodeError>)
    ensures
        r is Ok ==> final(buf)@ == old(buf)@ + enc_msg(msg@),
        r is Ok <== wf_msg(msg@),
{
    let ghost mm = msg@;
    let v = msg_to_value(msg);
    proof {
        lemma_wf_msg_val(mm);
    }
    encode_value(&v, buf)
}

/// Decodes one frame at `pos`: one MessagePack value, then the shape check.
/// Returns the frame and the offset just past it; `Truncated` exactly when
/// the buffer ends inside the value, `Malformed` exactly when the bytes or
/// the shape can never form a frame.
#[verifier::rlimit(100)]
pub fn decode(bytes: &[u8], pos: usize) -> (r: Result<(RpcMessage, usize), DecodeError>)
    requires
        pos <= bytes@.len(),
    ensures
        ({
            let d = dec_msg(bytes@.skip(pos as int));
            match r {
                Ok(p) => d == Parsed::Found(p.0@, p.1 - pos) && pos < p.1 <= bytes@.len()
                    && wf_msg(p.0@),
                Err(DecodeError::Truncated) => d is Short,
                Err(DecodeError::Malformed) => d is Bad,
            }
        }),
{
    let (v, end) = match decode_value(bytes, pos) {
        Ok(p) => p,
        Err(e) => {
            return Err(e);
        }
    };
    proof {
        if let Some(m) = msg_of_val(val_model(v)) {
            lemma_msg_val_of(val_model(v));
            lemma_wf_msg_val(m);
        }
    }
    match v {
        Value::Array(mut items) => {
            proof {
                lemma_val_model_array(items);
            }
            let ghost im = vals_model(items@);
            if items.len() == 4 {
                let fourth = items.pop().unwrap();
                let third = items.pop().unwrap();
                let second = items.pop().unwrap();
                let first = items.pop().unwrap();
                proof {
                    assert(val_model(first) == im[0]);
                    assert(val_model(second) == im[1]);
                    assert(val_model(third) == im[2]);
                    assert(val_model(fourth) == im[3]);
                }
                let disc = match &first {
                    Value::Uint(d) => *d,
                    _ => {
                        return Err(DecodeError::Malformed);
                    }
                };
                if disc == REQUEST_TYPE {
                    match (second, third, fourth) {
                        (Value::Uint(id), Value::Str(mth), Value::Array(ps)) => {
                            proof {
                                lemma_val_model_array(ps);
                            }
                            Ok((RpcMessage::RpcRequest { msgid: id, method: mth, params: ps }, end))
                        }
                        _ => Err(DecodeError::Malformed),
                    }
                } else if disc == RESPONSE_TYPE {
                    match second {
                        Value::Uint(id) => Ok(
                            (RpcMessage::RpcResponse { msgid: id, error: third, result: fourth }, end),
                        ),
                        _ => Err(DecodeError::Malformed),
                    }
                } else {
                    Err(DecodeError::Malformed)
                }
            } else if items.len() == 3 {
                let third = items.pop().unwrap();
                let second = items.pop().unwrap();
                let first = items.pop().unwrap();
                proof {
                    assert(val_model(first) == im[0]);
                    assert(val_model(second) == im[1]);
                    assert(val_model(third) == im[2]);
                }
                let disc = match &first {
                    Value::Uint(d) => *d,
                    _ => {
                        return Err(DecodeError::Malformed);
                    }
                };
                if disc == NOTIFICATION_TYPE {
                    match (second, third) {
                        (Value::Str(mth), Value::Array(ps)) => {
                            proof {
                                lemma_val_model_array(ps);
                            }
                            Ok(
                                (RpcMessage::RpcNotification { method: mth, params: ps }, end),
                            )
                        }
                        _ => Err(DecodeError::Malformed),
                    }
                } else {
                    Err(DecodeError::Malformed)
                }
            } else {
                Err(DecodeError::Malformed)
            }
        }
        _ => Err(DecodeError::Malformed),
    }
}

impl Clone for RpcMessage {
    /// Deep copy: the copy's model is exactly the original's.
    fn clone(&self) -> (r: RpcMessage)
        ensures
            r@ == self@,
    {
        match self {
            RpcMessage::RpcRequest { msgid, method, params } => RpcMessage::RpcRequest {
                msgid: *msgid,
                method: method.clone(),
                params: crate::value::clone_values(params),
            },
            RpcMessage::RpcResponse { msgid, error, result } => RpcMessage::RpcResponse {
                msgid: *msgid,
                error: error.clone(),
                result: result.clone(),
            },
            RpcMessage::RpcNotification { method, params } => RpcMessage::RpcNotification {
                method: method.clone(),
                params: crate::value::clone_values(params),
            },
        }
    }
}

} // verus!
