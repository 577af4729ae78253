//! The host-supplied capability that receives inbound work.
//!
//! The shell around the library invokes a handler on its own task for every
//! inbound request and notification.  [`DefaultHandler`] is the
//! implementation a host uses when it serves nothing itself: it answers
//! every request with a "Not implemented" error and ignores every
//! notification.

use vstd::prelude::*;
use vstd::string::StringExecFns;
use crate::value::{Value, ValModel, val_model};

verus! {

/// The do-nothing handler.
pub struct DefaultHandler {
}

impl DefaultHandler {
    pub fn new() -> (r: DefaultHandler) {
        DefaultHandler {  }
    }

    /// The default reply to any inbound request: the application error
    /// "Not implemented", which the loop sends back in the response's
    /// error slot.
    pub fn handle_request(&self, _name: String, _args: Vec<Value>) -> (r: Result<Value, Value>)
        ensures
            r matches Err(e) && val_model(e) == ValModel::Str("Not implemented"@),
    {
        Err(Value::Str(String::from_str("Not implemented")))
    }

    /// The default reaction to an inbound notification: none.  No reply
    /// frame is ever produced for a notification.
    pub fn handle_notify(&self, _name: String, _args: Vec<Value>) {
    }
}

} // verus!
