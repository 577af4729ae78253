//! The RPC multiplexer state: the monotonic identifier counter, the
//! pending-call table, and the decision logic of the I/O loop.
//!
//! This module is the synchronous heart of the connection.  The asynchronous
//! shell around the library owns the actual stream and the delivery
//! endpoints; it calls [`Requester::send_msg`] under its lock to assign an
//! identifier, register an endpoint and obtain the frame bytes to write, and
//! it feeds every inbound frame to [`Requester::dispatch`] to learn what to
//! do with it.  The endpoint type `S` is opaque here: the shell instantiates
//! it with its one-shot channel sender.

use vstd::prelude::*;
use vstd::string::StringExecFns;
use crate::value::{Value, ValModel, val_model, vals_model};
use crate::model::{RpcMessage, MsgModel, enc_msg, wf_msg, encode};
use crate::codec::EncodeError;

verus! {

broadcast use {vstd::std_specs::vec::group_vec_axioms, vstd::seq::group_seq_axioms};

/// The index of the first entry of `q` that carries `msgid`, or -1.
pub open spec fn find_index<S>(q: Seq<(u64, S)>, msgid: u64) -> int
    decreases q.len(),
{
    if q.len() == 0 {
        -1
    } else if q[0].0 == msgid {
        0
    } else {
        let r = find_index(q.drop_first(), msgid);
        if r == -1 {
            -1
        } else {
            r + 1
        }
    }
}

/// What `find_index` finds: -1 exactly when no entry carries the
/// identifier, otherwise the first entry that does.
pub proof fn lemma_find_index<S>(q: Seq<(u64, S)>, msgid: u64)
    ensures
        ({
            let j = find_index(q, msgid);
            &&& j == -1 || 0 <= j < q.len()
            &&& (j == -1 <==> (forall|i: int| 0 <= i < q.len() ==> (#[trigger] q[i]).0 != msgid))
            &&& (j >= 0 ==> 0 <= j < q.len() && q[j].0 == msgid && (forall|i: int|
                0 <= i < j ==> (#[trigger] q[i]).0 != msgid))
        }),
    decreases q.len(),
{
    if q.len() == 0 {
    } else if q[0].0 == msgid {
        assert(q[0].0 == msgid);
    } else {
        lemma_find_index(q.drop_first(), msgid);
        let t = q.drop_first();
        assert(forall|i: int| 0 <= i < t.len() ==> #[trigger] t[i] == q[i + 1]);
        let r = find_index(t, msgid);
        if r == -1 {
            assert forall|i: int| 0 <= i < q.len() implies (#[trigger] q[i]).0 != msgid by {
                if i > 0 {
                    assert(q[i] == t[i - 1]);
                }
            }
        } else {
            assert(q[r + 1] == t[r]);
            assert forall|i: int| 0 <= i < r + 1 implies (#[trigger] q[i]).0 != msgid by {
                if i > 0 {
                    assert(q[i] == t[i - 1]);
                }
            }
        }
    }
}

/// Removes and returns the endpoint of the first pending entry that carries
/// `msgid`; leaves the table unchanged and returns nothing when no entry
/// does.  A response for an unknown identifier is thereby dropped, never a
/// panic.
#[verifier::loop_isolation(false)]
pub fn find_sender<S>(queue: &mut Vec<(u64, S)>, msgid: u64) -> (r: Option<S>)
    ensures
        ({
            let j = find_index(old(queue)@, msgid);
            if j >= 0 {
                &&& r matches Some(s) && s == old(queue)@[j].1
                &&& final(queue)@ == old(queue)@.remove(j)
            } else {
                &&& r is None
                &&& final(queue)@ == old(queue)@
            }
        }),
{
    proof {
        lemma_find_index(old(queue)@, msgid);
    }
    let mut i: usize = 0;
    while i < queue.len()
        invariant
            i <= queue@.len(),
            queue@ == old(queue)@,
            forall|k: int| 0 <= k < i ==> (#[trigger] queue@[k]).0 != msgid,
        decreases queue@.len() - i,
    {
        if queue[i].0 == msgid {
            let entry = queue.remove(i);
            return Some(entry.1);
        }
        i = i + 1;
    }
    None
}

/// The multiplexer state of one connection: what sits behind the shell's
/// lock and is shared by every clone of the caller-facing handle.
pub struct Requester<S> {
    /// The identifier the next outbound request will take; strictly
    /// increasing over the connection's life, starting at 0.
    msgid_counter: u64,
    /// The pending-call table: one entry per outstanding request, in
    /// insertion order, each holding the endpoint awaiting its response.
    queue: Vec<(u64, S)>,
}

/// The mathematical state of a [`Requester`].
pub struct ReqModel<S> {
    pub msgid_counter: u64,
    pub queue: Seq<(u64, S)>,
}

impl<S> View for Requester<S> {
    type V = ReqModel<S>;

    closed spec fn view(&self) -> ReqModel<S> {
        ReqModel { msgid_counter: self.msgid_counter, queue: self.queue@ }
    }
}

/// What one `send_msg` does to the state, and the identifier it assigns.
pub open spec fn spec_send<S>(st: ReqModel<S>, sender: S) -> (ReqModel<S>, u64) {
    (
        ReqModel {
            msgid_counter: (st.msgid_counter + 1) as u64,
            queue: st.queue.push((st.msgid_counter, sender)),
        },
        st.msgid_counter,
    )
}

/// What the I/O loop must do with one inbound frame.
pub enum Dispatch<S> {
    /// A response matched a pending call: deliver `outcome` through
    /// `sender` (on its own task, so the loop never blocks).
    Reply { sender: S, outcome: Result<Value, Value> },
    /// A response carried an identifier no one awaits: log it and drop the
    /// frame.
    Unknown { msgid: u64 },
    /// An inbound request: run the handler, wrap its outcome with
    /// [`response_for`] under the same identifier, and write that frame.
    Request { msgid: u64, method: String, params: Vec<Value> },
    /// An inbound notification: run the handler.  No frame is ever written
    /// back for it.
    Notify { method: String, params: Vec<Value> },
}

impl<S> Requester<S> {
    /// A fresh connection state: no pending calls, identifiers from 0.
    pub fn new() -> (r: Requester<S>)
        ensures
            r@.msgid_counter == 0,
            r@.queue == Seq::<(u64, S)>::empty(),
    {
        Requester { msgid_counter: 0, queue: Vec::new() }
    }

    /// The identifier the next call will take; the count of calls made so
    /// far on this connection.
    pub fn msgid_counter(&self) -> (r: u64)
        ensures
            r == self@.msgid_counter,
    {
        self.msgid_counter
    }

    /// Assigns the next identifier, registers `sender` under it, and
    /// returns the request frame's bytes for the shell to write.  On an
    /// encoding failure (an oversized argument) nothing changes and the
    /// error is surfaced, as a write failure would be.
    ///
    /// The identifier counter never wraps: 2^64 requests outrun any
    /// connection's life, so the shell may assume the precondition.
    pub fn send_msg(&mut self, method: &str, args: Vec<Value>, sender: S) -> (r: Result<
        (u64, Vec<u8>),
        EncodeError,
    >)
        requires
            old(self)@.msgid_counter < u64::MAX,
        ensures
            match r {
                Ok((msgid, frame)) => {
                    &&& (final(self)@, msgid) == spec_send(old(self)@, sender)
                    &&& frame@ == enc_msg(
                        MsgModel::Request {
                            msgid,
                            method: method@,
                            params: vals_model(args@),
                        },
                    )
                },
                Err(_) => {
                    &&& final(self)@ == old(self)@
                    &&& !wf_msg(
                        MsgModel::Request {
                            msgid: old(self)@.msgid_counter,
                            method: method@,
                            params: vals_model(args@),
                        },
                    )
                },
            },
            wf_msg(
                MsgModel::Request {
                    msgid: old(self)@.msgid_counter,
                    method: method@,
                    params: vals_model(args@),
                },
            ) ==> r is Ok,
    {
        let msgid = self.msgid_counter;
        let msg = RpcMessage::RpcRequest { msgid, method: method.to_owned(), params: args };
        let mut frame: Vec<u8> = Vec::new();
        match encode(msg, &mut frame) {
            Ok(()) => {
                self.msgid_counter = self.msgid_counter + 1;
                self.queue.push((msgid, sender));
                Ok((msgid, frame))
            }
            Err(e) => Err(e),
        }
    }

    /// Encodes a notification frame for the shell to write.  Notifications
    /// consume no identifier and touch no pending entry, and nothing is
    /// ever emitted later on their account.
    pub fn notify(&self, method: &str, args: Vec<Value>) -> (r: Result<Vec<u8>, EncodeError>)
        ensures
            match r {
                Ok(frame) => frame@ == enc_msg(
                    MsgModel::Notification { method: method@, params: vals_model(args@) },
                ),
                Err(_) => !wf_msg(
                    MsgModel::Notification { method: method@, params: vals_model(args@) },
                ),
            },
            wf_msg(MsgModel::Notification { method: method@, params: vals_model(args@) })
                ==> r is Ok,
    {
        let msg = RpcMessage::RpcNotification { method: method.to_owned(), params: args };
        let mut frame: Vec<u8> = Vec::new();
        match encode(msg, &mut frame) {
            Ok(()) => Ok(frame),
            Err(e) => Err(e),
        }
    }

    /// Routes one inbound frame.  A response resolves the first pending
    /// entry bearing its identifier — success exactly when its error slot
    /// is nil — or is reported unknown; requests and notifications pass
    /// through untouched for handler tasks.  Only a matched response
    /// changes the table, and the identifier counter never moves here.
    pub fn dispatch(&mut self, msg: RpcMessage) -> (r: Dispatch<S>)
        ensures
            final(self)@.msgid_counter == old(self)@.msgid_counter,
            match msg@ {
                MsgModel::Request { msgid, method, params } => {
                    &&& final(self)@.queue == old(self)@.queue
                    &&& r matches Dispatch::Request { msgid: mi, method: me, params: pa }
                        && mi == msgid && me@ == method && vals_model(pa@) == params
                },
                MsgModel::Notification { method, params } => {
                    &&& final(self)@.queue == old(self)@.queue
                    &&& r matches Dispatch::Notify { method: me, params: pa } && me@ == method
                        && vals_model(pa@) == params
                },
                MsgModel::Response { msgid, error, result } => {
                    let j = find_index(old(self)@.queue, msgid);
                    &&& (
                        final(self)@.queue,
                        match r {
                            Dispatch::Reply { sender, .. } => Some(sender),
                            _ => None,
                        },
                    ) == spec_take(old(self)@.queue, msgid)
                    &&& if j >= 0 {
                        &&& final(self)@.queue == old(self)@.queue.remove(j)
                        &&& r matches Dispatch::Reply { sender, outcome } && sender == old(
                            self,
                        )@.queue[j].1 && (match outcome {
                            Ok(v) => error is Nil && val_model(v) == result,
                            Err(e) => !(error is Nil) && val_model(e) == error,
                        })
                    } else {
                        &&& final(self)@.queue == old(self)@.queue
                        &&& r matches Dispatch::Unknown { msgid: mi } && mi == msgid
                    }
                },
            },
    {
        match msg {
            RpcMessage::RpcRequest { msgid, method, params } => Dispatch::Request {
                msgid,
                method,
                params,
            },
            RpcMessage::RpcNotification { method, params } => Dispatch::Notify { method, params },
            RpcMessage::RpcResponse { msgid, error, result } => {
                match find_sender(&mut self.queue, msgid) {
                    Some(sender) => {
                        let is_nil = match &error {
                            Value::Nil => true,
                            _ => false,
                        };
                        if is_nil {
                            Dispatch::Reply { sender, outcome: Ok(result) }
                        } else {
                            Dispatch::Reply { sender, outcome: Err(error) }
                        }
                    }
                    None => Dispatch::Unknown { msgid },
                }
            }
        }
    }

    /// Empties the pending-call table for shutdown fan-out, returning every
    /// endpoint in insertion order together with the transport-failure
    /// value each must receive.  After this, no call is left waiting on the
    /// table — a dropped awaiter among them cannot block shutdown.
    pub fn send_error_to_callers(&mut self, err_desc: &str) -> (r: (Vec<S>, Value))
        ensures
            final(self)@.msgid_counter == old(self)@.msgid_counter,
            final(self)@.queue == Seq::<(u64, S)>::empty(),
            r.0@.len() == old(self)@.queue.len(),
            forall|i: int|
                0 <= i < r.0@.len() ==> r.0@[i] == (#[trigger] old(self)@.queue[i]).1,
            val_model(r.1) == ValModel::Str(error_fanout_message(err_desc@)),
    {
        let mut out: Vec<S> = Vec::new();
        while self.queue.len() > 0
            invariant
                self@.msgid_counter == old(self)@.msgid_counter,
                out@.len() + self.queue@.len() == old(self)@.queue.len(),
                forall|i: int|
                    0 <= i < self.queue@.len() ==> #[trigger] self.queue@[i] == old(
                        self,
                    )@.queue[out@.len() + i],
                forall|i: int|
                    0 <= i < out@.len() ==> out@[i] == (#[trigger] old(self)@.queue[i]).1,
            decreases self.queue@.len(),
        {
            let entry = self.queue.remove(0);
            out.push(entry.1);
        }
        let mut text = String::from_str("Error read response: ");
        text.append(err_desc);
        (out, Value::Str(text))
    }
}

/// The transport-failure text delivered to every pending caller: the fixed
/// prefix followed by the underlying error's description.
pub open spec fn error_fanout_message(desc: Seq<char>) -> Seq<char> {
    "Error read response: "@ + desc
}

/// The text a call resolves to when its endpoint closes with no response.
pub open spec fn no_response_message(method: Seq<char>) -> Seq<char> {
    "Method '"@ + method + "' did not receive a response"@
}

/// The response frame the loop writes back for an inbound request: the
/// handler's success fills the result slot, its error the error slot, and
/// the frame carries the inbound identifier unchanged.
pub fn response_for(msgid: u64, outcome: Result<Value, Value>) -> (r: RpcMessage)
    ensures
        r@ matches MsgModel::Response { msgid: mi, error, result } && mi == msgid && (
        match outcome {
            Ok(v) => error is Nil && result == val_model(v),
            Err(e) => error == val_model(e) && result is Nil,
        }),
{
    match outcome {
        Ok(result) => RpcMessage::RpcResponse { msgid, error: Value::Nil, result },
        Err(error) => RpcMessage::RpcResponse { msgid, error, result: Value::Nil },
    }
}

/// What a call returns once its endpoint settles: the delivered outcome as
/// it stands, or, if the endpoint closed without ever being signaled, an
/// error naming the method that got no response.
pub fn resolve_response(method: &str, delivered: Option<Result<Value, Value>>) -> (r: Result<
    Value,
    Value,
>)
    ensures
        match delivered {
            Some(o) => r == o,
            None => r matches Err(e) && val_model(e) == ValModel::Str(
                no_response_message(method@),
            ),
        },
{
    match delivered {
        Some(o) => o,
        None => {
            let mut text = String::from_str("Method '");
            text.append(method);
            text.append("' did not receive a response");
            Err(Value::Str(text))
        }
    }
}

/// The identifiers assigned by a run of consecutive `send_msg` calls, one
/// per endpoint in `senders`, and the state they leave behind.
pub open spec fn run_sends<S>(st: ReqModel<S>, senders: Seq<S>) -> (ReqModel<S>, Seq<u64>)
    decreases senders.len(),
{
    if senders.len() == 0 {
        (st, Seq::empty())
    } else {
        let (st1, id) = spec_send(st, senders[0]);
        let (st2, ids) = run_sends(st1, senders.drop_first());
        (st2, seq![id] + ids)
    }
}

/// Identifier monotonicity: across any run of calls on one connection
/// state, the assigned identifiers are consecutive from the counter's
/// starting point — on a fresh state, `0, 1, 2, ...` — hence strictly
/// increasing.  Routing inbound frames between the calls cannot disturb
/// this: [`Requester::dispatch`] never moves the counter.
pub proof fn lemma_identifier_monotonicity<S>(st: ReqModel<S>, senders: Seq<S>)
    requires
        st.msgid_counter + senders.len() <= u64::MAX,
    ensures
        ({
            let (st2, ids) = run_sends(st, senders);
            &&& ids.len() == senders.len()
            &&& forall|i: int| 0 <= i < ids.len() ==> ids[i] == st.msgid_counter + i
            &&& forall|i: int, j: int| 0 <= i < j < ids.len() ==> ids[i] < ids[j]
            &&& st2.msgid_counter == st.msgid_counter + senders.len()
        }),
    decreases senders.len(),
{
    if senders.len() > 0 {
        let (st1, id) = spec_send(st, senders[0]);
        lemma_identifier_monotonicity(st1, senders.drop_first());
        let (st2, ids) = run_sends(st1, senders.drop_first());
        assert(forall|i: int| 0 <= i < ids.len() ==> (seq![id] + ids)[i + 1] == #[trigger] ids[i]);
    }
}

/// What routing one response does to the pending-call table (the
/// table-and-delivery part of [`Requester::dispatch`]): the first entry
/// bearing the identifier leaves and its endpoint is delivered to, or
/// nothing changes.
pub open spec fn spec_take<S>(q: Seq<(u64, S)>, msgid: u64) -> (Seq<(u64, S)>, Option<S>) {
    let j = find_index(q, msgid);
    if j >= 0 {
        (q.remove(j), Some(q[j].1))
    } else {
        (q, None)
    }
}

/// No two pending entries share an identifier.  The monotonic counter
/// guarantees this for every table the multiplexer builds.
pub open spec fn ids_distinct<S>(q: Seq<(u64, S)>) -> bool {
    forall|i: int, j: int| 0 <= i < j < q.len() ==> (#[trigger] q[i]).0 != (#[trigger] q[j]).0
}

/// Some pending entry registers endpoint `s` under identifier `id`.
pub open spec fn has_entry<S>(q: Seq<(u64, S)>, id: u64, s: S) -> bool {
    exists|i: int| 0 <= i < q.len() && #[trigger] q[i] == (id, s)
}

/// Routing a response delivers to exactly the endpoint registered under its
/// identifier, removes exactly that entry, and leaves every other
/// registration in place.
pub proof fn lemma_take_delivers<S>(q: Seq<(u64, S)>, msgid: u64, s: S)
    requires
        ids_distinct(q),
        has_entry(q, msgid, s),
    ensures
        ({
            let (q2, d) = spec_take(q, msgid);
            &&& d == Some(s)
            &&& q2.len() == q.len() - 1
            &&& ids_distinct(q2)
            &&& forall|id2: u64, s2: S|
                id2 != msgid ==> (has_entry(q2, id2, s2) <==> #[trigger] has_entry(q, id2, s2))
        }),
{
    lemma_find_index(q, msgid);
    let j = find_index(q, msgid);
    let w = choose|i: int| 0 <= i < q.len() && q[i] == (msgid, s);
    assert(q[w].0 == msgid);
    assert(j != -1);
    assert(q[j].0 == msgid);
    if j != w {
        assert(false);
    }
    assert(q[j].1 == s);
    let q2 = q.remove(j);
    q.remove_ensures(j);
    assert forall|id2: u64, s2: S|
        id2 != msgid implies (has_entry(q2, id2, s2) <==> #[trigger] has_entry(q, id2, s2)) by {
        if has_entry(q2, id2, s2) {
            let i = choose|i: int| 0 <= i < q2.len() && q2[i] == (id2, s2);
            if i < j {
                assert(q[i] == (id2, s2));
            } else {
                assert(q[i + 1] == (id2, s2));
            }
        }
        if has_entry(q, id2, s2) {
            let i = choose|i: int| 0 <= i < q.len() && q[i] == (id2, s2);
            assert(i != j);
            if i < j {
                assert(q2[i] == (id2, s2));
            } else {
                assert(q2[i - 1] == (id2, s2));
            }
        }
    }
    assert forall|i: int, k: int|
        0 <= i < k < q2.len() implies (#[trigger] q2[i]).0 != (#[trigger] q2[k]).0 by {
        let i1 = if i < j { i } else { i + 1 };
        let k1 = if k < j { k } else { k + 1 };
        assert(q2[i] == q[i1]);
        assert(q2[k] == q[k1]);
    }
}

/// The table and deliveries after routing a run of responses in order.
pub open spec fn run_responses<S>(q: Seq<(u64, S)>, ids: Seq<u64>) -> (Seq<(u64, S)>, Seq<
    Option<S>,
>)
    decreases ids.len(),
{
    if ids.len() == 0 {
        (q, Seq::empty())
    } else {
        let (q1, d) = spec_take(q, ids[0]);
        let (q2, ds) = run_responses(q1, ids.drop_first());
        (q2, seq![d] + ds)
    }
}

/// Response correlation: with any number of outstanding calls pending, if
/// the peer answers some of them in any order, each delivery reaches
/// exactly the endpoint registered under that response's identifier —
/// whatever the permutation, no awaiter receives another call's response.
pub proof fn lemma_response_correlation<S>(q: Seq<(u64, S)>, ids: Seq<u64>, senders: Seq<S>)
    requires
        ids_distinct(q),
        ids.len() == senders.len(),
        forall|i: int, j: int| 0 <= i < j < ids.len() ==> ids[i] != ids[j],
        forall|i: int| 0 <= i < ids.len() ==> has_entry(q, ids[i], #[trigger] senders[i]),
    ensures
        ({
            let (q2, ds) = run_responses(q, ids);
            &&& ds.len() == ids.len()
            &&& forall|i: int| 0 <= i < ds.len() ==> ds[i] == Some(senders[i])
        }),
    decreases ids.len(),
{
    if ids.len() > 0 {
        lemma_take_delivers(q, ids[0], senders[0]);
        let (q1, d) = spec_take(q, ids[0]);
        let tids = ids.drop_first();
        let tsnd = senders.drop_first();
        assert forall|i: int| 0 <= i < tids.len() implies has_entry(
            q1,
            tids[i],
            #[trigger] tsnd[i],
        ) by {
            assert(tids[i] == ids[i + 1]);
            assert(tsnd[i] == senders[i + 1]);
            assert(ids[i + 1] != ids[0]);
            assert(has_entry(q, ids[i + 1], senders[i + 1]));
        }
        assert(forall|i: int, j: int| 0 <= i < j < tids.len() ==> tids[i] != tids[j]) by {
            assert(forall|i: int| 0 <= i < tids.len() ==> tids[i] == ids[i + 1]);
        }
        lemma_response_correlation(q1, tids, tsnd);
        let (q2, ds) = run_responses(q1, tids);
        assert(forall|i: int| 0 <= i < ds.len() ==> (seq![d] + ds)[i + 1] == #[trigger] ds[i]);
        assert(forall|i: int| 0 <= i < tsnd.len() ==> #[trigger] tsnd[i] == senders[i + 1]);
    }
}

/// The table invariant the multiplexer maintains: every pending identifier
/// was assigned by the counter, so all sit below it and no two collide.
pub open spec fn table_inv<S>(st: ReqModel<S>) -> bool {
    &&& forall|i: int| 0 <= i < st.queue.len() ==> (#[trigger] st.queue[i]).0 < st.msgid_counter
    &&& ids_distinct(st.queue)
}

/// A fresh state satisfies the invariant.
pub proof fn lemma_new_inv<S>(st: ReqModel<S>)
    requires
        st.msgid_counter == 0,
        st.queue == Seq::<(u64, S)>::empty(),
    ensures
        table_inv(st),
{
}

/// Issuing a call preserves the invariant: the fresh identifier is the
/// counter itself, above everything already pending.
pub proof fn lemma_send_preserves_inv<S>(st: ReqModel<S>, sender: S)
    requires
        table_inv(st),
        st.msgid_counter < u64::MAX,
    ensures
        table_inv(spec_send(st, sender).0),
{
    let st2 = spec_send(st, sender).0;
    assert forall|i: int, j: int|
        0 <= i < j < st2.queue.len() implies (#[trigger] st2.queue[i]).0 != (
    #[trigger] st2.queue[j]).0 by {
        if j < st2.queue.len() - 1 {
            assert(st2.queue[i] == st.queue[i]);
            assert(st2.queue[j] == st.queue[j]);
        } else {
            assert(st2.queue[i] == st.queue[i]);
            assert(st2.queue[j].0 == st.msgid_counter);
        }
    }
}

/// Routing a matched response preserves the invariant: what is left of the
/// table is what was there, minus the resolved entry.
pub proof fn lemma_take_preserves_inv<S>(st: ReqModel<S>, msgid: u64)
    requires
        table_inv(st),
    ensures
        ({
            let j = find_index(st.queue, msgid);
            j >= 0 ==> table_inv(
                ReqModel { msgid_counter: st.msgid_counter, queue: st.queue.remove(j) },
            )
        }),
{
    lemma_find_index(st.queue, msgid);
    let j = find_index(st.queue, msgid);
    if j >= 0 {
        let q = st.queue;
        let q2 = q.remove(j);
        q.remove_ensures(j);
        assert forall|i: int, k: int|
            0 <= i < k < q2.len() implies (#[trigger] q2[i]).0 != (#[trigger] q2[k]).0 by {
            let i1 = if i < j { i } else { i + 1 };
            let k1 = if k < j { k } else { k + 1 };
            assert(q2[i] == q[i1]);
            assert(q2[k] == q[k1]);
        }
        assert forall|i: int| 0 <= i < q2.len() implies (#[trigger] q2[i]).0
            < st.msgid_counter by {
            let i1 = if i < j { i } else { i + 1 };
            assert(q2[i] == q[i1]);
        }
    }
}

} // verus!
