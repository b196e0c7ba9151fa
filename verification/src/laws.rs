use vstd::prelude::*;

verus! {

use crate::codec::{spec_encode, spec_decode, lemma_decode_inverts_encode, lemma_encode_parts};
use crate::error::Error;
use crate::flows::{spec_link_of, spec_return_action, ReturnAction};
use crate::link::MessageLink;
use crate::router::{spec_classify, spec_is_command, EventClass, InboundMessage};

/// Forward round trip: a link entry written by a successful forward flow is
/// present under the copy's id, and decoding it reproduces the original
/// conversation id, thread id and message id exactly.
pub proof fn lemma_forward_link_round_trip(store: Map<int, Seq<u8>>, m: InboundMessage, copy_id: i32)
    ensures
        ({
            let after = store.insert(copy_id as int, spec_encode(spec_link_of(m)));
            &&& after.contains_key(copy_id as int)
            &&& spec_decode(after[copy_id as int]) == Some(spec_link_of(m))
            &&& spec_link_of(m).original_chat_id == m.chat_id
            &&& spec_link_of(m).original_tread_id == m.thread_id
            &&& spec_link_of(m).original_message_id == m.message_id
        }),
{
    lemma_decode_inverts_encode(spec_link_of(m));
}

/// Return routing: an operator reply to a copy whose link is recorded is
/// delivered into the original conversation, addressed as a reply to the
/// original message id, and scoped to the original thread if one was
/// recorded.
pub proof fn lemma_return_routes_to_origin(store: Map<int, Seq<u8>>, m: InboundMessage, copy_id: i32)
    requires
        store.contains_key(copy_id as int),
        store[copy_id as int] == spec_encode(spec_link_of(m)),
    ensures
        spec_return_action(Some(copy_id), Some(store[copy_id as int])) == Ok::<
            ReturnAction,
            Error,
        >(
            ReturnAction::Deliver {
                chat_id: m.chat_id,
                reply_to_message_id: m.message_id,
                thread_id: m.thread_id,
            },
        ),
{
    lemma_decode_inverts_encode(spec_link_of(m));
    lemma_encode_parts(spec_link_of(m));
}

/// Absent mapping: a reply to a message with no recorded link — whether the
/// key is missing or the stored value is the empty string — is a silent
/// no-op: no delivery and no error.
pub proof fn lemma_absent_key_noop(copy_id: i32)
    ensures
        spec_return_action(Some(copy_id), None::<Seq<u8>>) == Ok::<ReturnAction, Error>(
            ReturnAction::NoOp,
        ),
        spec_return_action(Some(copy_id), Some(Seq::<u8>::empty())) == Ok::<ReturnAction, Error>(
            ReturnAction::NoOp,
        ),
{
}

/// Malformed mapping: a non-empty stored value that decodes to no descriptor
/// surfaces a deserialization failure and delivers nothing.
pub proof fn lemma_malformed_value_errors(raw: Seq<u8>, copy_id: i32)
    requires
        raw.len() > 0,
        spec_decode(raw) == None::<MessageLink>,
    ensures
        spec_return_action(Some(copy_id), Some(raw)) == Err::<ReturnAction, Error>(
            Error::DeserializationError,
        ),
{
}

/// Command priority: a command event is classified as a command and nothing
/// else — never as an operator reply or a user message — whoever sent it and
/// whatever it replies to.
pub proof fn lemma_command_never_relays(m: InboundMessage, admin_chat_id: i64)
    requires
        spec_is_command(m),
    ensures
        spec_classify(m, admin_chat_id) == EventClass::Command,
        spec_classify(m, admin_chat_id) != EventClass::OperatorReply,
        spec_classify(m, admin_chat_id) != EventClass::UserMessage,
{
}

} // verus!
