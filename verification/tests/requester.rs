//! Multiplexer-state tests: the pending-call table, identifier assignment,
//! failure fan-out, the default handler and the value conversions.

use neovim_lib::convert::{FromVal, IntoVal};
use neovim_lib::requester::find_sender;
use neovim_lib::{decode, DefaultHandler, Dispatch, Requester, RpcMessage, Value};

#[test]
fn client_test_find_sender() {
    let mut queue: Vec<(u64, u32)> = Vec::new();

    queue.push((1, 10));
    queue.push((2, 20));
    queue.push((3, 30));

    find_sender(&mut queue, 1);
    assert_eq!(2, queue.len());
    find_sender(&mut queue, 2);
    assert_eq!(1, queue.len());
    find_sender(&mut queue, 3);
    assert!(queue.is_empty());
}

#[test]
fn requester_test_find_sender() {
    let mut queue: Vec<(u64, u32)> = Vec::new();

    queue.push((1, 10));
    queue.push((2, 20));
    queue.push((3, 30));

    find_sender(&mut queue, 1);
    assert_eq!(2, queue.len());
    find_sender(&mut queue, 2);
    assert_eq!(1, queue.len());
    find_sender(&mut queue, 3);
    assert!(queue.is_empty());
}

#[test]
fn find_sender_returns_the_registered_endpoint() {
    let mut queue: Vec<(u64, u32)> = vec![(4, 40), (5, 50)];
    assert_eq!(find_sender(&mut queue, 5), Some(50));
    assert_eq!(queue, vec![(4, 40)]);
    assert_eq!(find_sender(&mut queue, 5), None);
    assert_eq!(queue, vec![(4, 40)]);
}

#[test]
fn identifiers_increase_from_zero() {
    let mut req: Requester<u32> = Requester::new();
    let (id0, frame0) = req.send_msg("a", vec![], 1).unwrap();
    let (id1, _) = req.send_msg("b", vec![Value::Uint(5)], 2).unwrap();
    let (id2, _) = req.send_msg("c", vec![], 3).unwrap();
    assert_eq!((id0, id1, id2), (0, 1, 2));
    // the emitted frame is the encoded request
    let (msg, end) = decode(&frame0, 0).unwrap();
    assert_eq!(end, frame0.len());
    assert_eq!(msg, RpcMessage::RpcRequest { msgid: 0, method: "a".to_owned(), params: vec![] });
}

#[test]
fn notify_emits_a_notification_and_registers_nothing() {
    let mut req: Requester<u32> = Requester::new();
    let frame = req.notify("event", vec![Value::Boolean(true)]).unwrap();
    let (msg, _) = decode(&frame, 0).unwrap();
    assert_eq!(
        msg,
        RpcMessage::RpcNotification {
            method: "event".to_owned(),
            params: vec![Value::Boolean(true)],
        }
    );
    // a notification consumed no identifier: the next call still takes 0
    let (id, _) = req.send_msg("a", vec![], 1).unwrap();
    assert_eq!(id, 0);
}

#[test]
fn fan_out_reaches_every_pending_caller() {
    let mut req: Requester<u32> = Requester::new();
    req.send_msg("a", vec![], 11).unwrap();
    req.send_msg("b", vec![], 22).unwrap();
    req.send_msg("c", vec![], 33).unwrap();
    let (endpoints, err) = req.send_error_to_callers("connection reset");
    assert_eq!(endpoints, vec![11, 22, 33]);
    assert_eq!(err, Value::Str("Error read response: connection reset".to_owned()));
    // the table is empty afterwards: nothing is left waiting
    let (endpoints2, _) = req.send_error_to_callers("again");
    assert!(endpoints2.is_empty());
}

#[test]
fn unknown_response_is_dropped_not_panicked() {
    let mut req: Requester<u32> = Requester::new();
    req.send_msg("a", vec![], 1).unwrap();
    let stray = RpcMessage::RpcResponse { msgid: 99, error: Value::Nil, result: Value::Nil };
    match req.dispatch(stray) {
        Dispatch::Unknown { msgid } => assert_eq!(msgid, 99),
        _ => panic!("a response for an unknown identifier must be dropped"),
    }
}

#[test]
fn resolve_response_names_the_method_on_silence() {
    let r = neovim_lib::requester::resolve_response("ping", None);
    assert_eq!(r, Err(Value::Str("Method 'ping' did not receive a response".to_owned())));
    let ok = neovim_lib::requester::resolve_response("ping", Some(Ok(Value::Uint(1))));
    assert_eq!(ok, Ok(Value::Uint(1)));
    let err = neovim_lib::requester::resolve_response("ping", Some(Err(Value::Uint(2))));
    assert_eq!(err, Err(Value::Uint(2)));
}

#[test]
fn default_handler_refuses_requests_quietly() {
    let h = DefaultHandler::new();
    let r = h.handle_request("anything".to_owned(), vec![Value::Nil]);
    assert_eq!(r, Err(Value::Str("Not implemented".to_owned())));
    h.handle_notify("anything".to_owned(), vec![]);
}

#[test]
fn conversions_round_trip() {
    let v: Value = true.into_val();
    assert_eq!(bool::from_val(v), true);

    let v: Value = 42i64.into_val();
    assert_eq!(v, Value::Uint(42));
    assert_eq!(i64::from_val(v), 42);

    let v: Value = (-42i64).into_val();
    assert_eq!(v, Value::Int(-42));
    assert_eq!(i64::from_val(v), -42);

    let v: Value = (3i64, -4i64).into_val();
    assert_eq!(v, Value::Array(vec![Value::Uint(3), Value::Int(-4)]));
    assert_eq!(<(i64, i64)>::from_val(v), (3, -4));

    let v: Value = "text".into_val();
    assert_eq!(String::from_val(v), "text".to_owned());

    let v: Value = vec!["a".to_owned(), "b".to_owned()].into_val();
    assert_eq!(
        v,
        Value::Array(vec![Value::Str("a".to_owned()), Value::Str("b".to_owned())])
    );

    let pairs = vec![(Value::Str("k".to_owned()), Value::Uint(1))];
    let v: Value = pairs.clone().into_val();
    assert_eq!(v, Value::Dict(pairs.clone()));
    assert_eq!(<Vec<(Value, Value)>>::from_val(v), pairs);

    let items = vec![Value::Nil, Value::Uint(7)];
    let v: Value = items.clone().into_val();
    assert_eq!(<Vec<Value>>::from_val(v), items);

    let v: Value = Value::Uint(9).into_val();
    assert_eq!(Value::from_val(v), Value::Uint(9));
    <()>::from_val(Value::Nil);
}
