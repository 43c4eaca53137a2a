use motherboard::poc::{answer_ping, bytes_of, reply_wait, requested_theme, theme_answer, theme_view, unknown_method, ReplyWait};
use motherboard::protocol::{CloseReason, InboxMessage, ReplyStatus, RequestId};

#[test]
fn ping_echoes_its_payload() {
    let answer = answer_ping("ping", b"abc".to_vec());
    assert_eq!(answer.status, ReplyStatus::Success);
    assert_eq!(answer.payload, b"abc".to_vec());
}

#[test]
fn unknown_methods_are_refused() {
    let answer = answer_ping("pong", b"abc".to_vec());
    assert_eq!(
        answer.status,
        ReplyStatus::Error { code: "UnknownMethod".to_string(), message: "unknown method: pong".to_string() }
    );
    assert_eq!(answer.payload, b"unknown method: pong".to_vec());
    assert_eq!(unknown_method("getTheme").payload, b"unknown method: getTheme".to_vec());
}

#[test]
fn themes_are_light_or_dark() {
    assert_eq!(requested_theme(b"light"), Ok(("light".to_string(), b"light".to_vec())));
    assert_eq!(requested_theme(b"dark"), Ok(("dark".to_string(), b"dark".to_vec())));
    assert_eq!(requested_theme(b"blue"), Err("unsupported theme: blue".to_string()));
    assert_eq!(requested_theme(&[0xff, 0xfe]), Err("theme payload must be valid UTF-8".to_string()));
}

#[test]
fn theme_answers() {
    let answer = theme_answer(Ok("dark".to_string()));
    assert_eq!(answer.status, ReplyStatus::Success);
    assert_eq!(answer.payload, b"dark".to_vec());
    let answer = theme_answer(Err("unsupported theme: blue".to_string()));
    assert_eq!(
        answer.status,
        ReplyStatus::Error { code: "InvalidTheme".to_string(), message: "unsupported theme: blue".to_string() }
    );
    assert_eq!(answer.payload, b"unsupported theme: blue".to_vec());
}

#[test]
fn the_window_follows_the_store() {
    let view = theme_view(Some(b"dark"));
    assert_eq!(view.theme, "dark");
    assert!(view.dark);
    assert_eq!(view.next_theme, "light");
    assert_eq!(view.label, "Theme store: dark");
    assert_eq!(view.button_label, "Switch to light");
    assert_eq!(view.palette.background, (0x12, 0x16, 0x1c, 0xff));
    let view = theme_view(Some(b"light"));
    assert!(!view.dark);
    assert_eq!(view.next_theme, "dark");
    assert_eq!(view.palette.button, (0x2d, 0x7d, 0xd2, 0xff));
    let view = theme_view(None);
    assert_eq!(view.theme, "loading");
    assert_eq!(view.next_theme, "dark");
    let view = theme_view(Some(&[0xc3]));
    assert_eq!(view.theme, "loading");
}

#[test]
fn text_is_utf8_encoded() {
    assert_eq!(bytes_of("é"), vec![0xc3, 0xa9]);
}

fn reply(id: u64, status: ReplyStatus, payload: &[u8]) -> InboxMessage {
    InboxMessage::FunctionCallReply { request_id: RequestId(id), status, payload: payload.to_vec(), fds: Vec::new() }
}

#[test]
fn waiting_for_a_reply() {
    assert!(matches!(reply_wait(reply(3, ReplyStatus::Success, b""), RequestId(3)), ReplyWait::Succeeded));
    assert!(matches!(reply_wait(reply(4, ReplyStatus::Success, b""), RequestId(3)), ReplyWait::Unrelated));
    let failed = reply(
        3,
        ReplyStatus::Error { code: "UnknownMethod".to_string(), message: "unknown method: pong".to_string() },
        b"unknown method: pong",
    );
    match reply_wait(failed, RequestId(3)) {
        ReplyWait::Failed { code, message, payload } => {
            assert_eq!(code, "UnknownMethod");
            assert_eq!(message, "unknown method: pong");
            assert_eq!(payload, b"unknown method: pong".to_vec());
        }
        _ => panic!("expected a failure"),
    }
    let closed = InboxMessage::ServiceClosed { service: "PingService".to_string(), reason: CloseReason::ServiceExited };
    assert!(matches!(reply_wait(closed, RequestId(3)), ReplyWait::Unrelated));
}
