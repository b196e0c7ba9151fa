use vstd::prelude::*;

verus! {

/// An inbound conversational event, as the transport reports it: where it
/// was sent, which message it is, the thread it sits in, the message it
/// replies to (if any), and its text content (if any).
#[derive(Debug)]
pub struct InboundMessage {
    pub chat_id: i64,
    pub message_id: i32,
    pub thread_id: Option<i32>,
    pub reply_to_message_id: Option<i32>,
    pub text: Option<Vec<u8>>,
}

/// The three handled classes of inbound events, plus the deliberately
/// unhandled rest (an operator message that replies to nothing).
#[derive(Clone, Copy, Debug, PartialEq, Eq, Structural)]
pub enum EventClass {
    Command,
    OperatorReply,
    UserMessage,
    Unhandled,
}

/// `/help`
pub open spec fn cmd_help() -> Seq<u8> {
    seq![47u8, 104u8, 101u8, 108u8, 112u8]
}

/// `/start`
pub open spec fn cmd_start() -> Seq<u8> {
    seq![47u8, 115u8, 116u8, 97u8, 114u8, 116u8]
}

/// Is the event's text a recognized command token?
pub open spec fn spec_is_command(m: InboundMessage) -> bool {
    match m.text {
        Some(t) => t@ == cmd_help() || t@ == cmd_start(),
        None => false,
    }
}

/// Classification, first match wins: a command outranks everything; then an
/// operator-conversation message that replies to something; then any message
/// from outside the operator conversation; the rest is left unhandled.
pub open spec fn spec_classify(m: InboundMessage, admin_chat_id: i64) -> EventClass {
    if spec_is_command(m) {
        EventClass::Command
    } else if m.chat_id == admin_chat_id && m.reply_to_message_id is Some {
        EventClass::OperatorReply
    } else if m.chat_id != admin_chat_id {
        EventClass::UserMessage
    } else {
        EventClass::Unhandled
    }
}

/// Are two byte strings equal?
fn bytes_eq(a: &Vec<u8>, b: &Vec<u8>) -> (r: bool)
    ensures
        r <==> a@ == b@,
{
    let n = a.len();
    if b.len() != n {
        return false;
    }
    let mut i: usize = 0;
    while i < n
        invariant
            i <= n,
            n == a@.len(),
            n == b@.len(),
            forall|j: int| 0 <= j < i ==> a@[j] == b@[j],
        decreases n - i,
    {
        if a[i] != b[i] {
            return false;
        }
        i += 1;
    }
    proof {
        assert(a@ =~= b@);
    }
    true
}

fn cmd_help_vec() -> (v: Vec<u8>)
    ensures
        v@ == cmd_help(),
{
    let mut v: Vec<u8> = Vec::new();
    v.push(47u8);
    v.push(104u8);
    v.push(101u8);
    v.push(108u8);
    v.push(112u8);
    assert(v@ =~= cmd_help());
    v
}

fn cmd_start_vec() -> (v: Vec<u8>)
    ensures
        v@ == cmd_start(),
{
    let mut v: Vec<u8> = Vec::new();
    v.push(47u8);
    v.push(115u8);
    v.push(116u8);
    v.push(97u8);
    v.push(114u8);
    v.push(116u8);
    assert(v@ =~= cmd_start());
    v
}

/// Does the event carry a recognized command?
pub fn is_command(m: &InboundMessage) -> (r: bool)
    ensures
        r == spec_is_command(*m),
{
    match &m.text {
        None => false,
        Some(t) => {
            let help = cmd_help_vec();
            if bytes_eq(t, &help) {
                return true;
            }
            let start = cmd_start_vec();
            bytes_eq(t, &start)
        },
    }
}

/// Classifies an inbound event into exactly one branch, in priority order:
/// command, operator reply, user message, unhandled.
pub fn classify(m: &InboundMessage, admin_chat_id: i64) -> (c: EventClass)
    ensures
        c == spec_classify(*m, admin_chat_id),
{
    if is_command(m) {
        EventClass::Command
    } else if m.chat_id == admin_chat_id {
        match &m.reply_to_message_id {
            Some(_) => EventClass::OperatorReply,
            None => EventClass::Unhandled,
        }
    } else {
        EventClass::UserMessage
    }
}

} // verus!
