use vstd::prelude::*;

verus! {

use crate::codec::{spec_encode, spec_decode, encode_link, decode_link};
use crate::error::Error;
use crate::link::MessageLink;
use crate::router::InboundMessage;
use crate::store::LinkStore;

/// What the return flow asks the transport to do: nothing, or copy the
/// operator's reply into the named conversation, addressed as a reply to the
/// named message, scoped to the named thread if one was recorded.
#[derive(Clone, Copy, Debug, PartialEq, Eq)]
pub enum ReturnAction {
    NoOp,
    Deliver { chat_id: i64, reply_to_message_id: i32, thread_id: Option<i32> },
}

/// The origin descriptor recorded for an inbound message.
pub open spec fn spec_link_of(m: InboundMessage) -> MessageLink {
    MessageLink {
        original_chat_id: m.chat_id,
        original_tread_id: m.thread_id,
        original_message_id: m.message_id,
    }
}

/// Builds the origin descriptor for an inbound message.
pub fn link_of(m: &InboundMessage) -> (r: MessageLink)
    ensures
        r == spec_link_of(*m),
{
    MessageLink {
        original_chat_id: m.chat_id,
        original_tread_id: m.thread_id,
        original_message_id: m.message_id,
    }
}

/// Forward flow, after the transport's copy step: `copy_result` is the id of
/// the copy the transport created in the operator conversation, or `None` if
/// the copy failed.
///
/// On a failed copy the flow aborts with a transport error and stores
/// nothing: no descriptor may exist for a copy that does not. On a
/// successful copy the encoded origin descriptor is recorded under the
/// copy's id.
pub fn forward_flow(store: &mut LinkStore, m: &InboundMessage, copy_result: Option<i32>) -> (r:
    Result<i32, Error>)
    ensures
        match copy_result {
            None => r == Err::<i32, Error>(Error::TransportError) && final(store)@ == old(store)@,
            Some(cid) => r == Ok::<i32, Error>(cid) && final(store)@ == old(store)@.insert(
                cid as int,
                spec_encode(spec_link_of(*m)),
            ),
        },
{
    match copy_result {
        None => Err(Error::TransportError),
        Some(cid) => {
            let link = link_of(m);
            let bytes = encode_link(&link);
            store.put(cid, bytes);
            Ok(cid)
        },
    }
}

/// What the return flow does, given the replied-to message id and the raw
/// bytes the store holds under it: a non-reply or an absent or empty entry
/// is a silent no-op; a malformed entry is a deserialization failure; a
/// well-formed entry routes the reply to the recorded origin.
pub open spec fn spec_return_action(reply_to: Option<i32>, raw: Option<Seq<u8>>) -> Result<
    ReturnAction,
    Error,
> {
    match reply_to {
        None => Ok(ReturnAction::NoOp),
        Some(_) => match raw {
            None => Ok(ReturnAction::NoOp),
            Some(v) => if v.len() == 0 {
                Ok(ReturnAction::NoOp)
            } else {
                match spec_decode(v) {
                    Some(l) => Ok(
                        ReturnAction::Deliver {
                            chat_id: l.original_chat_id,
                            reply_to_message_id: l.original_message_id,
                            thread_id: l.original_tread_id,
                        },
                    ),
                    None => Err(Error::DeserializationError),
                }
            },
        },
    }
}

/// Return flow decision on a raw store lookup result: `reply_to_message_id`
/// is the id of the message the operator replied to (if the event was a
/// reply at all), `raw` what the store returned for it.
pub fn return_decision(reply_to_message_id: Option<i32>, raw: Option<Vec<u8>>) -> (r: Result<
    ReturnAction,
    Error,
>)
    ensures
        r == spec_return_action(
            reply_to_message_id,
            match raw {
                Some(v) => Some(v@),
                None => None::<Seq<u8>>,
            },
        ),
{
    match reply_to_message_id {
        None => Ok(ReturnAction::NoOp),
        Some(_) => match raw {
            None => Ok(ReturnAction::NoOp),
            Some(v) => {
                if v.len() == 0 {
                    Ok(ReturnAction::NoOp)
                } else {
                    match decode_link(&v) {
                        Ok(l) => Ok(
                            ReturnAction::Deliver {
                                chat_id: l.original_chat_id,
                                reply_to_message_id: l.original_message_id,
                                thread_id: l.original_tread_id,
                            },
                        ),
                        Err(e) => Err(e),
                    }
                }
            },
        },
    }
}

/// Return flow against the link store: looks up the replied-to message's
/// entry and decides what to deliver.
pub fn return_flow(store: &LinkStore, m: &InboundMessage) -> (r: Result<ReturnAction, Error>)
    ensures
        r == spec_return_action(
            m.reply_to_message_id,
            match m.reply_to_message_id {
                Some(k) => if store@.contains_key(k as int) {
                    Some(store@[k as int])
                } else {
                    None::<Seq<u8>>
                },
                None => None::<Seq<u8>>,
            },
        ),
{
    match &m.reply_to_message_id {
        None => Ok(ReturnAction::NoOp),
        Some(k) => {
            let raw = store.get(*k);
            return_decision(m.reply_to_message_id, raw)
        },
    }
}

} // verus!
