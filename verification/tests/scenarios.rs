//! End-to-end scenarios against a scripted peer: the peer's side of the
//! stream is a byte buffer filled and drained with the same codec.

use neovim_lib::requester::resolve_response;
use neovim_lib::{decode, encode, DecodeError, Dispatch, Requester, RpcMessage, Value};

fn peer_bytes(msg: RpcMessage) -> Vec<u8> {
    let mut buf: Vec<u8> = Vec::new();
    encode(msg, &mut buf).expect("peer frame encodes");
    buf
}

fn s(text: &str) -> Value {
    Value::Str(text.to_owned())
}

#[test]
fn single_call() {
    // Host issues call("ping", []).
    let mut req: Requester<u8> = Requester::new();
    let (msgid, wire) = req.send_msg("ping", vec![], 1).unwrap();
    assert_eq!(msgid, 0);

    // Peer receives [0, 0, "ping", []].
    let (seen, _) = decode(&wire, 0).unwrap();
    assert_eq!(
        seen,
        RpcMessage::RpcRequest { msgid: 0, method: "ping".to_owned(), params: vec![] }
    );

    // Peer replies [1, 0, nil, "pong"].
    let reply = peer_bytes(RpcMessage::RpcResponse {
        msgid: 0,
        error: Value::Nil,
        result: s("pong"),
    });
    let (frame, _) = decode(&reply, 0).unwrap();
    let outcome = match req.dispatch(frame) {
        Dispatch::Reply { sender, outcome } => {
            assert_eq!(sender, 1);
            outcome
        }
        _ => panic!("the response must reach the pending call"),
    };

    // Host observes Ok("pong").
    assert_eq!(resolve_response("ping", Some(outcome)), Ok(s("pong")));
}

#[test]
fn interleaved_calls() {
    // Host issues call("a", []) then call("b", []).
    let mut req: Requester<u8> = Requester::new();
    let (id_a, wire_a) = req.send_msg("a", vec![], 1).unwrap();
    let (id_b, wire_b) = req.send_msg("b", vec![], 2).unwrap();

    // Peer receives identifiers 0 then 1.
    assert_eq!((id_a, id_b), (0, 1));
    let (seen_a, _) = decode(&wire_a, 0).unwrap();
    let (seen_b, _) = decode(&wire_b, 0).unwrap();
    assert!(matches!(seen_a, RpcMessage::RpcRequest { msgid: 0, .. }));
    assert!(matches!(seen_b, RpcMessage::RpcRequest { msgid: 1, .. }));

    // Peer replies for id 1 first, then id 0.
    let reply_b = peer_bytes(RpcMessage::RpcResponse { msgid: 1, error: Value::Nil, result: s("B") });
    let reply_a = peer_bytes(RpcMessage::RpcResponse { msgid: 0, error: Value::Nil, result: s("A") });

    let (frame_b, _) = decode(&reply_b, 0).unwrap();
    match req.dispatch(frame_b) {
        Dispatch::Reply { sender, outcome } => {
            assert_eq!(sender, 2);
            assert_eq!(outcome, Ok(s("B")));
        }
        _ => panic!("response for id 1 must reach caller b"),
    }
    let (frame_a, _) = decode(&reply_a, 0).unwrap();
    match req.dispatch(frame_a) {
        Dispatch::Reply { sender, outcome } => {
            assert_eq!(sender, 1);
            assert_eq!(outcome, Ok(s("A")));
        }
        _ => panic!("response for id 0 must reach caller a"),
    }
}

#[test]
fn application_error() {
    // Peer replies [1, 0, "bad", nil] to id 0.
    let mut req: Requester<u8> = Requester::new();
    req.send_msg("work", vec![], 1).unwrap();
    let reply = peer_bytes(RpcMessage::RpcResponse { msgid: 0, error: s("bad"), result: Value::Nil });
    let (frame, _) = decode(&reply, 0).unwrap();
    match req.dispatch(frame) {
        Dispatch::Reply { outcome, .. } => {
            // Host observes Err("bad").
            assert_eq!(resolve_response("work", Some(outcome)), Err(s("bad")));
        }
        _ => panic!("the error response must reach the pending call"),
    }
}

#[test]
fn inbound_request() {
    // Peer sends [0, 7, "hello", ["world"]].
    let mut req: Requester<u8> = Requester::new();
    let inbound = peer_bytes(RpcMessage::RpcRequest {
        msgid: 7,
        method: "hello".to_owned(),
        params: vec![s("world")],
    });
    let (frame, _) = decode(&inbound, 0).unwrap();
    let (msgid, method, params) = match req.dispatch(frame) {
        Dispatch::Request { msgid, method, params } => (msgid, method, params),
        _ => panic!("an inbound request must go to the handler"),
    };
    assert_eq!((msgid, method.as_str()), (7, "hello"));
    assert_eq!(params, vec![s("world")]);

    // Handler returns Ok("hi"); host emits [1, 7, nil, "hi"].
    let reply = neovim_lib::requester::response_for(msgid, Ok(s("hi")));
    let mut emitted: Vec<u8> = Vec::new();
    encode(reply, &mut emitted).unwrap();
    let expected = peer_bytes(RpcMessage::RpcResponse {
        msgid: 7,
        error: Value::Nil,
        result: s("hi"),
    });
    assert_eq!(emitted, expected);
}

#[test]
fn inbound_notification_drives_outbound_call() {
    // Peer sends [2, "go", []].
    let mut req: Requester<u8> = Requester::new();
    let inbound = peer_bytes(RpcMessage::RpcNotification { method: "go".to_owned(), params: vec![] });
    let (frame, _) = decode(&inbound, 0).unwrap();
    let (method, _params) = match req.dispatch(frame) {
        Dispatch::Notify { method, params } => (method, params),
        _ => panic!("a notification must go to the handler, nothing else"),
    };
    assert_eq!(method, "go");

    // The handler, holding the requester, issues call("echo", ["x"]).
    let (msgid, wire) = req.send_msg("echo", vec![s("x")], 9).unwrap();
    assert_eq!(msgid, 0);
    let (seen, _) = decode(&wire, 0).unwrap();
    assert_eq!(
        seen,
        RpcMessage::RpcRequest { msgid: 0, method: "echo".to_owned(), params: vec![s("x")] }
    );

    // Peer replies; the handler's call completes.
    let reply = peer_bytes(RpcMessage::RpcResponse { msgid: 0, error: Value::Nil, result: s("ok") });
    let (rframe, _) = decode(&reply, 0).unwrap();
    match req.dispatch(rframe) {
        Dispatch::Reply { sender, outcome } => {
            assert_eq!(sender, 9);
            assert_eq!(outcome, Ok(s("ok")));
        }
        _ => panic!("the nested call's response must reach the handler"),
    }
    // No response frame is synthesized for the notification: nothing is
    // pending and no reply action was produced for it.
    let (left, _) = req.send_error_to_callers("probe");
    assert!(left.is_empty());
}

#[test]
fn reentrant_request_completes_before_its_reply() {
    // Peer sends a request; while handling it, the handler issues its own
    // call on the same connection and sees it through before replying.
    let mut req: Requester<u8> = Requester::new();
    let inbound = peer_bytes(RpcMessage::RpcRequest {
        msgid: 40,
        method: "compute".to_owned(),
        params: vec![],
    });
    let (frame, _) = decode(&inbound, 0).unwrap();
    let inbound_id = match req.dispatch(frame) {
        Dispatch::Request { msgid, .. } => msgid,
        _ => panic!("an inbound request must go to the handler"),
    };

    // Nested outbound call from inside the handler.
    let (nested_id, _wire) = req.send_msg("lookup", vec![], 5).unwrap();
    let reply = peer_bytes(RpcMessage::RpcResponse {
        msgid: nested_id,
        error: Value::Nil,
        result: Value::Uint(123),
    });
    let (rframe, _) = decode(&reply, 0).unwrap();
    let nested_outcome = match req.dispatch(rframe) {
        Dispatch::Reply { sender, outcome } => {
            assert_eq!(sender, 5);
            outcome
        }
        _ => panic!("the nested response must reach the handler's call"),
    };
    assert_eq!(nested_outcome, Ok(Value::Uint(123)));

    // The handler now answers the inbound request, with the inbound id.
    let reply = neovim_lib::requester::response_for(inbound_id, Ok(Value::Uint(124)));
    let mut emitted: Vec<u8> = Vec::new();
    encode(reply, &mut emitted).unwrap();
    let (back, _) = decode(&emitted, 0).unwrap();
    assert_eq!(
        back,
        RpcMessage::RpcResponse { msgid: 40, error: Value::Nil, result: Value::Uint(124) }
    );
}

#[test]
fn transport_death() {
    // One successful exchange first.
    let mut req: Requester<u8> = Requester::new();
    let (id, _) = req.send_msg("first", vec![], 1).unwrap();
    let reply = peer_bytes(RpcMessage::RpcResponse { msgid: id, error: Value::Nil, result: s("ok") });
    let (rframe, _) = decode(&reply, 0).unwrap();
    assert!(matches!(req.dispatch(rframe), Dispatch::Reply { .. }));

    // Two calls go out; the peer dies mid-frame.
    req.send_msg("a", vec![], 2).unwrap();
    req.send_msg("b", vec![], 3).unwrap();
    let full = peer_bytes(RpcMessage::RpcResponse { msgid: 1, error: Value::Nil, result: s("x") });
    let partial = &full[..full.len() - 1];
    assert_eq!(decode(partial, 0), Err(DecodeError::Truncated));

    // The loop treats the closed stream as fatal and fans the failure out:
    // every then-outstanding call resolves with an error whose message
    // contains the I/O error description.
    let (endpoints, err) = req.send_error_to_callers("unexpected end of file");
    assert_eq!(endpoints, vec![2, 3]);
    match &err {
        Value::Str(text) => {
            assert!(text.contains("unexpected end of file"));
            assert_eq!(text, "Error read response: unexpected end of file");
        }
        _ => panic!("the transport failure is a string-wrapped description"),
    }
    for _endpoint in endpoints {
        let observed = resolve_response("a", Some(Err(err.clone())));
        assert!(observed.is_err());
    }
}

#[test]
fn dropped_awaiter_does_not_poison_delivery() {
    // A call's awaiter goes away before the response arrives: the delivery
    // endpoint reports failure instead of panicking, and shutdown is not
    // blocked by the dead entry.
    let (tx, rx) = async_std::channel::bounded::<Result<Value, Value>>(1);
    drop(rx);
    let mut req: Requester<async_std::channel::Sender<Result<Value, Value>>> = Requester::new();
    req.send_msg("late", vec![], tx).unwrap();
    let reply = peer_bytes(RpcMessage::RpcResponse { msgid: 0, error: Value::Nil, result: s("x") });
    let (frame, _) = decode(&reply, 0).unwrap();
    match req.dispatch(frame) {
        Dispatch::Reply { sender, outcome } => {
            let sent = async_std::task::block_on(sender.send(outcome));
            assert!(sent.is_err());
        }
        _ => panic!("the response still routes to the registered endpoint"),
    }
    let (left, _) = req.send_error_to_callers("closing");
    assert!(left.is_empty());
}
