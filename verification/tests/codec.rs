//! Wire-codec tests: frame round trips, exact byte layouts, malformed and
//! truncated input, and cross-checks against the rmpv reference codec.

use neovim_lib::{decode, encode, DecodeError, RpcMessage, Value};

fn enc(msg: RpcMessage) -> Vec<u8> {
    let mut buf: Vec<u8> = Vec::new();
    encode(msg, &mut buf).expect("encodable frame");
    buf
}

fn roundtrip(msg: RpcMessage) {
    let buf = enc(msg.clone());
    let (back, end) = decode(&buf, 0).expect("decodable frame");
    assert_eq!(msg, back);
    assert_eq!(end, buf.len());
}

#[test]
fn request_test() {
    let msg = RpcMessage::RpcRequest {
        msgid: 1,
        method: "test_method".to_owned(),
        params: vec![],
    };

    let mut buf: Vec<u8> = Vec::new();
    encode(msg.clone(), &mut buf).unwrap();
    let (msg_dest, _) = decode(&buf, 0).unwrap();

    assert_eq!(msg, msg_dest);
}

#[test]
fn request_test_twice() {
    let msg = RpcMessage::RpcRequest {
        msgid: 1,
        method: "test_method".to_owned(),
        params: vec![],
    };

    let msg2 = RpcMessage::RpcRequest {
        msgid: 2,
        method: "test_method_2".to_owned(),
        params: vec![],
    };

    let mut buf: Vec<u8> = Vec::new();
    encode(msg.clone(), &mut buf).unwrap();
    encode(msg2.clone(), &mut buf).unwrap();
    let len = buf.len();
    assert_eq!(34, len); // Note: msg2 is 2 longer than msg

    let (msg_dest, pos) = decode(&buf, 0).unwrap();
    assert_eq!(msg, msg_dest);
    assert_eq!(16, pos);

    let (msg_dest_2, pos2) = decode(&buf, pos).unwrap();
    assert_eq!(msg2, msg_dest_2);
    assert_eq!(34, pos2);
}

#[test]
fn roundtrip_all_scalar_kinds() {
    roundtrip(RpcMessage::RpcRequest {
        msgid: 0,
        method: "m".to_owned(),
        params: vec![
            Value::Nil,
            Value::Boolean(true),
            Value::Boolean(false),
            Value::Uint(0),
            Value::Uint(127),
            Value::Uint(128),
            Value::Uint(255),
            Value::Uint(256),
            Value::Uint(65535),
            Value::Uint(65536),
            Value::Uint(0xffff_ffff),
            Value::Uint(0x1_0000_0000),
            Value::Uint(u64::MAX),
            Value::Int(-1),
            Value::Int(-32),
            Value::Int(-33),
            Value::Int(-128),
            Value::Int(-129),
            Value::Int(-32768),
            Value::Int(-32769),
            Value::Int(-0x8000_0000),
            Value::Int(-0x8000_0001),
            Value::Int(i64::MIN),
            Value::F32(1.5f32.to_bits()),
            Value::F64((-0.25f64).to_bits()),
        ],
    });
}

#[test]
fn roundtrip_strings_and_bytes() {
    let long31 = "a".repeat(31);
    let long32 = "a".repeat(32);
    let long300 = "b".repeat(300);
    let long70000 = "c".repeat(70_000);
    roundtrip(RpcMessage::RpcNotification {
        method: "strings".to_owned(),
        params: vec![
            Value::Str(String::new()),
            Value::Str("héllo wörld ✓".to_owned()),
            Value::Str(long31),
            Value::Str(long32),
            Value::Str(long300),
            Value::Str(long70000),
            Value::Bin(vec![]),
            Value::Bin(vec![0, 1, 2, 254, 255]),
            Value::Bin(vec![7; 300]),
            Value::Bin(vec![9; 70_000]),
        ],
    });
}

#[test]
fn roundtrip_nested_containers() {
    let deep = Value::Array(vec![
        Value::Array(vec![Value::Uint(1), Value::Array(vec![Value::Str("x".to_owned())])]),
        Value::Dict(vec![
            (Value::Str("k".to_owned()), Value::Uint(1)),
            (Value::Uint(2), Value::Array(vec![Value::Nil])),
        ]),
        Value::Ext(5, vec![1, 2, 3]),
        Value::Ext(-7, vec![1]),
        Value::Ext(0, vec![]),
        Value::Ext(1, vec![0; 16]),
        Value::Ext(2, vec![0; 300]),
    ]);
    let many: Vec<Value> = (0..20).map(Value::Uint).collect();
    // a map large enough for a sized header, and one with equal keys:
    // pairs travel as an ordered list, so both survive unchanged
    let big_dict = Value::Dict((0..20).map(|i| (Value::Uint(i), Value::Uint(i + 1))).collect());
    let dup_keys = Value::Dict(vec![
        (Value::Str("k".to_owned()), Value::Uint(1)),
        (Value::Str("k".to_owned()), Value::Uint(2)),
    ]);
    roundtrip(RpcMessage::RpcResponse { msgid: 9, error: Value::Nil, result: deep });
    roundtrip(RpcMessage::RpcRequest { msgid: 3, method: "m".to_owned(), params: many });
    roundtrip(RpcMessage::RpcResponse { msgid: 10, error: Value::Nil, result: big_dict });
    roundtrip(RpcMessage::RpcResponse { msgid: 11, error: Value::Nil, result: dup_keys });
}

#[test]
fn exact_bytes_of_simple_request() {
    // [0, 0, "ping", []] in canonical MessagePack
    let buf = enc(RpcMessage::RpcRequest { msgid: 0, method: "ping".to_owned(), params: vec![] });
    assert_eq!(buf, vec![0x94, 0x00, 0x00, 0xa4, b'p', b'i', b'n', b'g', 0x90]);
}

#[test]
fn truncated_input_is_distinguished() {
    let buf = enc(RpcMessage::RpcRequest {
        msgid: 1,
        method: "test".to_owned(),
        params: vec![Value::Uint(300)],
    });
    assert!(decode(&buf, 0).is_ok());
    for cut in 0..buf.len() {
        assert_eq!(decode(&buf[..cut], 0), Err(DecodeError::Truncated));
    }
}

#[test]
fn malformed_input_is_fatal() {
    // the reserved marker can never begin a value
    assert_eq!(decode(&[0xc1], 0), Err(DecodeError::Malformed));
    // a bare scalar is not a frame
    assert_eq!(decode(&[0x07], 0), Err(DecodeError::Malformed));
    // unknown discriminant: [7, 0, "m", []]
    let bad = vec![0x94, 0x07, 0x00, 0xa1, b'm', 0x90];
    assert_eq!(decode(&bad, 0), Err(DecodeError::Malformed));
    // wrong arity: [0, 0, "m", [], 5]
    let five = vec![0x95, 0x00, 0x00, 0xa1, b'm', 0x90, 0x05];
    assert_eq!(decode(&five, 0), Err(DecodeError::Malformed));
    // notification arity with request discriminant: [0, "m", []]
    let short = vec![0x93, 0x00, 0xa1, b'm', 0x90];
    assert_eq!(decode(&short, 0), Err(DecodeError::Malformed));
    // method is not a string: [2, 5, []]
    let notstr = vec![0x93, 0x02, 0x05, 0x90];
    assert_eq!(decode(&notstr, 0), Err(DecodeError::Malformed));
    // params not an array: [2, "m", 5]
    let notarr = vec![0x93, 0x02, 0xa1, b'm', 0x05];
    assert_eq!(decode(&notarr, 0), Err(DecodeError::Malformed));
    // invalid UTF-8 inside a str payload
    let badutf8 = vec![0x93, 0x02, 0xa2, 0xff, 0xfe, 0x90];
    assert_eq!(decode(&badutf8, 0), Err(DecodeError::Malformed));
}

#[test]
fn non_minimal_encodings_decode() {
    // uint64 marker carrying 1: a non-canonical peer encoding of [2, "m", [1]]
    let buf = vec![
        0x93, 0x02, 0xa1, b'm', 0x91, 0xcf, 0, 0, 0, 0, 0, 0, 0, 1,
    ];
    let (msg, end) = decode(&buf, 0).unwrap();
    assert_eq!(end, buf.len());
    assert_eq!(
        msg,
        RpcMessage::RpcNotification { method: "m".to_owned(), params: vec![Value::Uint(1)] }
    );
    // int8 marker carrying a non-negative number decodes unsigned
    let buf2 = vec![0x93, 0x02, 0xa1, b'm', 0x91, 0xd0, 0x05];
    let (msg2, _) = decode(&buf2, 0).unwrap();
    assert_eq!(
        msg2,
        RpcMessage::RpcNotification { method: "m".to_owned(), params: vec![Value::Uint(5)] }
    );
}

fn to_rmpv(v: &Value) -> rmpv::Value {
    match v {
        Value::Nil => rmpv::Value::Nil,
        Value::Boolean(b) => rmpv::Value::Boolean(*b),
        Value::Uint(n) => rmpv::Value::Integer((*n).into()),
        Value::Int(n) => rmpv::Value::Integer((*n).into()),
        Value::F32(bits) => rmpv::Value::F32(f32::from_bits(*bits)),
        Value::F64(bits) => rmpv::Value::F64(f64::from_bits(*bits)),
        Value::Str(s) => rmpv::Value::String(s.clone().into()),
        Value::Bin(b) => rmpv::Value::Binary(b.clone()),
        Value::Array(a) => rmpv::Value::Array(a.iter().map(to_rmpv).collect()),
        Value::Dict(m) => {
            rmpv::Value::Map(m.iter().map(|(k, v)| (to_rmpv(k), to_rmpv(v))).collect())
        }
        Value::Ext(t, d) => rmpv::Value::Ext(*t, d.clone()),
    }
}

#[test]
fn encoding_matches_rmpv() {
    let samples = vec![
        Value::Nil,
        Value::Boolean(true),
        Value::Uint(0),
        Value::Uint(127),
        Value::Uint(128),
        Value::Uint(300),
        Value::Uint(70_000),
        Value::Uint(u64::MAX),
        Value::Int(-1),
        Value::Int(-33),
        Value::Int(-300),
        Value::Int(-70_000),
        Value::Int(i64::MIN),
        Value::F32(3.25f32.to_bits()),
        Value::F64(6.5f64.to_bits()),
        Value::Str("hello ✓".to_owned()),
        Value::Str("x".repeat(40)),
        Value::Bin(vec![1, 2, 3]),
        Value::Array(vec![Value::Uint(1), Value::Str("a".to_owned())]),
        Value::Dict(vec![(Value::Str("k".to_owned()), Value::Int(-5))]),
        Value::Ext(3, vec![9, 9]),
    ];
    for v in samples {
        let mine = enc(RpcMessage::RpcResponse { msgid: 0, error: Value::Nil, result: v.clone() });
        let theirs_val = rmpv::Value::Array(vec![
            rmpv::Value::Integer(1.into()),
            rmpv::Value::Integer(0.into()),
            rmpv::Value::Nil,
            to_rmpv(&v),
        ]);
        let mut theirs: Vec<u8> = Vec::new();
        rmpv::encode::write_value(&mut theirs, &theirs_val).unwrap();
        assert_eq!(mine, theirs, "byte mismatch for {:?}", v);
    }
}

#[test]
fn decoding_matches_rmpv() {
    // bytes produced by the reference codec decode to the equivalent frame
    let theirs_val = rmpv::Value::Array(vec![
        rmpv::Value::Integer(0.into()),
        rmpv::Value::Integer(7.into()),
        rmpv::Value::String("héllo".into()),
        rmpv::Value::Array(vec![
            rmpv::Value::Integer((-42).into()),
            rmpv::Value::Boolean(false),
            rmpv::Value::Binary(vec![1, 2]),
        ]),
    ]);
    let mut bytes: Vec<u8> = Vec::new();
    rmpv::encode::write_value(&mut bytes, &theirs_val).unwrap();
    let (msg, end) = decode(&bytes, 0).unwrap();
    assert_eq!(end, bytes.len());
    assert_eq!(
        msg,
        RpcMessage::RpcRequest {
            msgid: 7,
            method: "héllo".to_owned(),
            params: vec![
                Value::Int(-42),
                Value::Boolean(false),
                Value::Bin(vec![1, 2]),
            ],
        }
    );
}
