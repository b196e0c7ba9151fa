use anon_relay::codec::{decode_link, encode_link};
use anon_relay::error::Error;
use anon_relay::flows::{forward_flow, link_of, return_decision, return_flow, ReturnAction};
use anon_relay::link::MessageLink;
use anon_relay::router::{classify, is_command, EventClass, InboundMessage};
use anon_relay::store::LinkStore;

fn msg(
    chat_id: i64,
    message_id: i32,
    thread_id: Option<i32>,
    reply_to_message_id: Option<i32>,
    text: Option<&str>,
) -> InboundMessage {
    InboundMessage {
        chat_id,
        message_id,
        thread_id,
        reply_to_message_id,
        text: text.map(|t| t.as_bytes().to_vec()),
    }
}

#[test]
fn encode_exact_wire_form() {
    let l = MessageLink {
        original_chat_id: 100,
        original_tread_id: None,
        original_message_id: 7,
    };
    let bytes = encode_link(&l);
    assert_eq!(
        bytes,
        b"{\"original_chat_id\":100,\"original_tread_id\":null,\"original_message_id\":7}"
            .to_vec()
    );
}

#[test]
fn encode_exact_wire_form_with_thread() {
    let l = MessageLink {
        original_chat_id: -42,
        original_tread_id: Some(13),
        original_message_id: 900,
    };
    let bytes = encode_link(&l);
    assert_eq!(
        bytes,
        b"{\"original_chat_id\":-42,\"original_tread_id\":13,\"original_message_id\":900}"
            .to_vec()
    );
}

#[test]
fn round_trip_plain() {
    let l = MessageLink {
        original_chat_id: 100,
        original_tread_id: None,
        original_message_id: 7,
    };
    assert_eq!(decode_link(&encode_link(&l)), Ok(l));
}

#[test]
fn round_trip_negative_and_thread() {
    let l = MessageLink {
        original_chat_id: -1001234567890,
        original_tread_id: Some(-5),
        original_message_id: -1,
    };
    assert_eq!(decode_link(&encode_link(&l)), Ok(l));
}

#[test]
fn round_trip_extremes() {
    for l in [
        MessageLink {
            original_chat_id: i64::MIN,
            original_tread_id: Some(i32::MIN),
            original_message_id: i32::MAX,
        },
        MessageLink {
            original_chat_id: i64::MAX,
            original_tread_id: Some(i32::MAX),
            original_message_id: i32::MIN,
        },
        MessageLink {
            original_chat_id: 0,
            original_tread_id: Some(0),
            original_message_id: 0,
        },
    ] {
        assert_eq!(decode_link(&encode_link(&l)), Ok(l));
    }
}

#[test]
fn decode_rejects_malformed() {
    let cases: &[&[u8]] = &[
        b"",
        b"{}",
        b"garbage",
        b"{\"original_chat_id\":100}",
        b"{\"original_chat_id\":007,\"original_tread_id\":null,\"original_message_id\":7}",
        b"{\"original_chat_id\":100,\"original_tread_id\":null,\"original_message_id\":7",
        b"{\"original_chat_id\":100,\"original_tread_id\":null,\"original_message_id\":7}x",
        b"{\"original_chat_id\": 100,\"original_tread_id\":null,\"original_message_id\":7}",
        b"{\"original_chat_id\":-0,\"original_tread_id\":null,\"original_message_id\":7}",
        b"{\"original_chat_id\":100,\"original_tread_id\":nul,\"original_message_id\":7}",
        b"{\"original_chat_id\":100,\"original_tread_id\":null,\"original_message_id\":2147483648}",
        b"{\"original_chat_id\":9223372036854775808,\"original_tread_id\":null,\"original_message_id\":7}",
    ];
    for c in cases {
        assert_eq!(
            decode_link(&c.to_vec()),
            Err(Error::DeserializationError),
            "expected rejection of {:?}",
            String::from_utf8_lossy(c)
        );
    }
}

#[test]
fn decode_accepts_min_chat_id() {
    let raw = b"{\"original_chat_id\":-9223372036854775808,\"original_tread_id\":null,\"original_message_id\":7}".to_vec();
    assert_eq!(
        decode_link(&raw),
        Ok(MessageLink {
            original_chat_id: i64::MIN,
            original_tread_id: None,
            original_message_id: 7,
        })
    );
}

#[test]
fn store_put_get() {
    let mut store = LinkStore::new();
    store.put(555, b"abc".to_vec());
    assert_eq!(store.get(555), Some(b"abc".to_vec()));
    assert_eq!(store.get(556), None);
}

#[test]
fn store_link_round_trip() {
    let mut store = LinkStore::new();
    let l = MessageLink {
        original_chat_id: -7,
        original_tread_id: Some(2),
        original_message_id: 9,
    };
    store.put_link(321, &l);
    assert_eq!(store.get_link(321), Ok(Some(l)));
    assert_eq!(store.get_link(322), Ok(None));
}

#[test]
fn store_get_link_tolerates_empty_and_flags_malformed() {
    let mut store = LinkStore::new();
    store.put(1, Vec::new());
    assert_eq!(store.get_link(1), Ok(None));
    store.put(2, b"junk".to_vec());
    assert_eq!(store.get_link(2), Err(Error::DeserializationError));
}

#[test]
fn store_lookup_idempotent() {
    let mut store = LinkStore::new();
    store.put(7, b"payload".to_vec());
    let first = store.get(7);
    let second = store.get(7);
    assert_eq!(first, second);
    let absent_first = store.get(8);
    let absent_second = store.get(8);
    assert_eq!(absent_first, absent_second);
    assert_eq!(absent_first, None);
}

#[test]
fn classify_command() {
    assert_eq!(classify(&msg(100, 1, None, None, Some("/help")), 42), EventClass::Command);
    assert_eq!(classify(&msg(100, 1, None, None, Some("/start")), 42), EventClass::Command);
    assert!(is_command(&msg(100, 1, None, None, Some("/help"))));
    assert!(!is_command(&msg(100, 1, None, None, Some("hello"))));
    assert!(!is_command(&msg(100, 1, None, None, None)));
}

#[test]
fn classify_operator_reply() {
    assert_eq!(
        classify(&msg(42, 1, None, Some(555), Some("hi")), 42),
        EventClass::OperatorReply
    );
}

#[test]
fn classify_user_message() {
    assert_eq!(classify(&msg(100, 1, None, None, Some("hello")), 42), EventClass::UserMessage);
    // a user message that replies to something in its own conversation is
    // still a user message
    assert_eq!(classify(&msg(100, 2, None, Some(1), Some("x")), 42), EventClass::UserMessage);
}

#[test]
fn classify_operator_non_reply_unhandled() {
    assert_eq!(classify(&msg(42, 1, None, None, Some("note")), 42), EventClass::Unhandled);
}

#[test]
fn command_outranks_operator_reply() {
    // the operator replying to a copy with a command text is a command, so
    // no return flow runs
    assert_eq!(
        classify(&msg(42, 1, None, Some(555), Some("/help")), 42),
        EventClass::Command
    );
}

#[test]
fn forward_failure_stores_nothing() {
    let mut store = LinkStore::new();
    let m = msg(100, 7, None, None, Some("hello"));
    let r = forward_flow(&mut store, &m, None);
    assert_eq!(r, Err(Error::TransportError));
    assert_eq!(store.get(555), None);
}

#[test]
fn forward_success_links_copy() {
    let mut store = LinkStore::new();
    let m = msg(100, 7, Some(3), None, Some("hello"));
    let r = forward_flow(&mut store, &m, Some(555));
    assert_eq!(r, Ok(555));
    let raw = store.get(555).expect("link entry must exist");
    let link = decode_link(&raw).expect("stored entry must decode");
    assert_eq!(link, link_of(&m));
    assert_eq!(link.original_chat_id, 100);
    assert_eq!(link.original_tread_id, Some(3));
    assert_eq!(link.original_message_id, 7);
}

#[test]
fn return_non_reply_is_noop() {
    let store = LinkStore::new();
    let m = msg(42, 1, None, None, Some("x"));
    assert_eq!(return_flow(&store, &m), Ok(ReturnAction::NoOp));
}

#[test]
fn return_absent_key_is_noop() {
    let store = LinkStore::new();
    let m = msg(42, 1, None, Some(999), Some("x"));
    assert_eq!(return_flow(&store, &m), Ok(ReturnAction::NoOp));
}

#[test]
fn return_empty_value_is_noop() {
    let mut store = LinkStore::new();
    store.put(999, Vec::new());
    let m = msg(42, 1, None, Some(999), Some("x"));
    assert_eq!(return_flow(&store, &m), Ok(ReturnAction::NoOp));
    assert_eq!(return_decision(Some(999), Some(Vec::new())), Ok(ReturnAction::NoOp));
}

#[test]
fn return_malformed_value_errors() {
    let mut store = LinkStore::new();
    store.put(999, b"not a descriptor".to_vec());
    let m = msg(42, 1, None, Some(999), Some("x"));
    assert_eq!(return_flow(&store, &m), Err(Error::DeserializationError));
}

#[test]
fn return_known_mapping_delivers() {
    let mut store = LinkStore::new();
    let user = msg(100, 7, Some(3), None, Some("hello"));
    forward_flow(&mut store, &user, Some(555)).unwrap();
    let reply = msg(42, 800, None, Some(555), Some("hi"));
    assert_eq!(
        return_flow(&store, &reply),
        Ok(ReturnAction::Deliver {
            chat_id: 100,
            reply_to_message_id: 7,
            thread_id: Some(3),
        })
    );
}

#[test]
fn scenario_hello_hi() {
    // user A (conversation 100, message 7) sends "hello"; the copy gets id
    // 555 in the operator conversation; the operator replies "hi" to 555;
    // the reply is delivered into conversation 100 as a reply to message 7.
    let admin_chat: i64 = 42;
    let mut store = LinkStore::new();
    let user_msg = msg(100, 7, None, None, Some("hello"));
    assert_eq!(classify(&user_msg, admin_chat), EventClass::UserMessage);
    let copy_id = forward_flow(&mut store, &user_msg, Some(555)).unwrap();
    assert_eq!(copy_id, 555);
    let op_reply = msg(admin_chat, 900, None, Some(copy_id), Some("hi"));
    assert_eq!(classify(&op_reply, admin_chat), EventClass::OperatorReply);
    assert_eq!(
        return_flow(&store, &op_reply),
        Ok(ReturnAction::Deliver {
            chat_id: 100,
            reply_to_message_id: 7,
            thread_id: None,
        })
    );
}

#[test]
fn scenario_reply_to_unrelayed_message() {
    // the operator replies to an operator-conversation message that was
    // never a relayed copy: no delivery, no error
    let admin_chat: i64 = 42;
    let mut store = LinkStore::new();
    forward_flow(&mut store, &msg(100, 7, None, None, Some("hello")), Some(555)).unwrap();
    let op_reply = msg(admin_chat, 901, None, Some(556), Some("who?"));
    assert_eq!(classify(&op_reply, admin_chat), EventClass::OperatorReply);
    assert_eq!(return_flow(&store, &op_reply), Ok(ReturnAction::NoOp));
}
