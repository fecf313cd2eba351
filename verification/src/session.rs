//! One step of a connection: from the bytes that have arrived to what is to
//! be done next.
//!
//! The transport is not this module's business. Its caller reads bytes, hands
//! over what has arrived and not been consumed, and carries out what the step
//! asks for: read more, drop the consumed bytes, append a record to the
//! durability log, send a response, close the connection. The record is to be
//! appended before the response is sent.

use vstd::prelude::*;
use vstd::slice::slice_to_vec;
use vstd::string::StringSliceAdditionalSpecFns;
use crate::aof::{command_of, is_logged, record_of, Command};
use crate::handler::{
    byte_views, dispatch, dispatch_answers, dispatch_shared, dispatched_store,
};
use crate::resp::{decode, Value};
use crate::store::{Store, StoreView};
use crate::wire::{decoding, encoding, DecodeError, ValueView};

verus! {

/// What a connection is to do next.
#[derive(Debug, PartialEq, Eq)]
pub enum Step {
    /// The input ends before a value is complete. Nothing was consumed:
    /// read more and step again on the old input followed by the new.
    NeedMore,
    /// A value that is no command was read and passed over.
    Skipped { consumed: usize },
    /// A command was dispatched. `record` is what the durability log gains,
    /// if the command changed the store; `response` is what the client is
    /// sent. The connection stays open, also where the response is an error.
    Replied { consumed: usize, response: Vec<u8>, record: Option<Vec<u8>> },
    /// The input is malformed, and no position in it can be trusted any
    /// more: send the response and close the connection.
    Closed { response: Vec<u8> },
}

/// The message sent before a connection is closed over malformed input.
pub open spec fn protocol_error_text() -> Seq<u8> {
    "ERR Protocol error".spec_bytes()
}

/// Whether a step on `input` may take the store from `before` to `after`
/// and end in `step`.
pub open spec fn steps(before: StoreView, input: Seq<u8>, after: StoreView, step: Step) -> bool {
    match decoding(input) {
        Err(DecodeError::Incomplete) => step == Step::NeedMore && after == before,
        Err(DecodeError::Protocol) => {
            &&& after == before
            &&& step matches Step::Closed { response }
            &&& response@ == encoding(ValueView::Error(protocol_error_text()))
        },
        Ok((v, n)) => match command_of(v) {
            None => step == (Step::Skipped { consumed: n as usize }) && after == before,
            Some((verb, args)) => {
                &&& after == dispatched_store(before, verb, args)
                &&& step matches Step::Replied { consumed, response, record }
                &&& consumed == n
                &&& exists|reply: ValueView| #[trigger]
                    dispatch_answers(before, verb, args, reply) && response@ == encoding(reply)
                &&& match record {
                    Some(bytes) => is_logged(verb, args) && bytes@ == record_of(verb, args),
                    None => !is_logged(verb, args),
                }
            },
        },
    }
}

/// Takes one step on `input`, the bytes that have arrived and not been
/// consumed: decodes the value at its start, and if that is a command,
/// dispatches it on `store`.
pub fn step(store: &mut Store, input: &[u8]) -> (r: Step)
    ensures
        steps(old(store)@, input@, final(store)@, r),
        match r {
            Step::Skipped { consumed } => 0 < consumed <= input.len(),
            Step::Replied { consumed, .. } => 0 < consumed <= input.len(),
            _ => true,
        },
{
    match decode(input) {
        Err(DecodeError::Incomplete) => Step::NeedMore,
        Err(DecodeError::Protocol) => {
            let reply = Value::Error(slice_to_vec("ERR Protocol error".as_bytes()));
            let r = Step::Closed { response: reply.marshal() };
            assert(steps(old(store)@, input@, store@, r));
            r
        },
        Ok((v, n)) => match Command::from_value(&v) {
            None => {
                let r = Step::Skipped { consumed: n };
                assert(steps(old(store)@, input@, store@, r));
                r
            },
            Some(c) => {
                let reply = dispatch(store, c.verb.as_slice(), &c.args);
                let record = if c.is_logged() {
                    Some(c.record())
                } else {
                    None
                };
                let r = Step::Replied { consumed: n, response: reply.marshal(), record };
                assert(dispatch_answers(old(store)@, c.verb@, byte_views(c.args@), reply@));
                assert(steps(old(store)@, input@, store@, r));
                r
            },
        },
    }
}

/// Takes one step on `input` with shared access to the store, if the step
/// needs no more. `None` says that the command at the start of `input`
/// changes the store: nothing was done, and the step is to be taken with
/// exclusive access.
pub fn step_shared(store: &Store, input: &[u8]) -> (r: Option<Step>)
    ensures
        match r {
            Some(s) => steps(store@, input@, store@, s) && match s {
                Step::Skipped { consumed } => 0 < consumed <= input.len(),
                Step::Replied { consumed, .. } => 0 < consumed <= input.len(),
                _ => true,
            },
            None => decoding(input@) matches Ok((v, n)) && command_of(v) matches Some(
                (verb, args),
            ) && is_logged(verb, args),
        },
{
    match decode(input) {
        Err(DecodeError::Incomplete) => Some(Step::NeedMore),
        Err(DecodeError::Protocol) => {
            let reply = Value::Error(slice_to_vec("ERR Protocol error".as_bytes()));
            let r = Step::Closed { response: reply.marshal() };
            assert(steps(store@, input@, store@, r));
            Some(r)
        },
        Ok((v, n)) => match Command::from_value(&v) {
            None => {
                let r = Step::Skipped { consumed: n };
                assert(steps(store@, input@, store@, r));
                Some(r)
            },
            Some(c) => match dispatch_shared(store, c.verb.as_slice(), &c.args) {
                Some(reply) => {
                    let r = Step::Replied { consumed: n, response: reply.marshal(), record: None };
                    assert(dispatch_answers(store@, c.verb@, byte_views(c.args@), reply@));
                    assert(steps(store@, input@, store@, r));
                    Some(r)
                },
                None => None,
            },
        },
    }
}

} // verus!
