use vstd::prelude::*;

verus! {

/// The origin descriptor: where a relayed message came from.
///
/// `original_chat_id` is the originating conversation, `original_message_id`
/// the message within it, and `original_tread_id` the optional sub-thread
/// (absent means top-level). The spelling `tread` is the wire format's
/// historical field name, kept so that stored entries stay decodable.
#[derive(Clone, Copy, Debug, PartialEq, Eq)]
pub struct MessageLink {
    pub original_chat_id: i64,
    pub original_tread_id: Option<i32>,
    pub original_message_id: i32,
}

impl MessageLink {
    pub fn new(original_chat_id: i64, original_tread_id: Option<i32>, original_message_id: i32) -> (r:
        MessageLink)
        ensures
            r == (MessageLink { original_chat_id, original_tread_id, original_message_id }),
    {
        MessageLink { original_chat_id, original_tread_id, original_message_id }
    }
}

} // verus!
