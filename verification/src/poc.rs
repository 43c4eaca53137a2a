//! What the small programs built on the motherboard decide: the ping service's answers, the
//! settings service's theme requests, and what the settings window shows.
use vstd::prelude::*;
use crate::protocol::{InboxMessage, ReplyStatus, RequestId};
use crate::text::{concat, string_of};

verus! {

/// The name the ping service binds.
pub const PING_SERVICE_NAME: &'static str = "PingService";
/// The one method of the ping service.
pub const PING_METHOD: &'static str = "ping";
/// The name the settings service binds.
pub const SETTINGS_SERVICE_NAME: &'static str = "SettingsManager";
/// The settings service's method that changes the theme.
pub const SET_THEME_METHOD: &'static str = "setTheme";
/// The store that holds the current theme.
pub const THEME_STORE: &'static str = "theme";

/// The bytes of `s`, UTF-8 encoded.
pub fn bytes_of(s: &str) -> (r: Vec<u8>)
    ensures
        r@ == vstd::utf8::encode_utf8(s@),
{
    let b = s.as_bytes();
    let mut r: Vec<u8> = Vec::new();
    let mut k: usize = 0;
    while k < b.len()
        invariant
            k <= b@.len(),
            b@ == vstd::utf8::encode_utf8(s@),
            r@ == b@.take(k as int),
        decreases b.len() - k,
    {
        r.push(b[k]);
        assert(b@.take(k + 1) =~= b@.take(k as int).push(b@[k as int]));
        k = k + 1;
    }
    assert(b@.take(b@.len() as int) =~= b@);
    r
}

/// `std::str::from_utf8`: the text that `bytes` encode, if they are valid UTF-8; `None` if
/// they are not.
#[verifier::external_body]
fn utf8_text(bytes: &[u8]) -> (r: Option<&str>)
    ensures
        r is Some <==> vstd::utf8::valid_utf8(bytes@),
        r matches Some(text) ==> text@ == vstd::utf8::decode_utf8(bytes@),
{
    std::str::from_utf8(bytes).ok()
}

/// A service's answer to one function call: its status and its payload.
pub struct ServiceAnswer {
    pub status: ReplyStatus,
    pub payload: Vec<u8>,
}

/// The refusal of a call to a method the service does not have.
pub open spec fn unknown_method_answer(a: ServiceAnswer, method: Seq<char>) -> bool {
    let message = "unknown method: "@ + method;
    &&& a.status matches ReplyStatus::Error { code, message: m }
    &&& code@ == "UnknownMethod"@
    &&& m@ == message
    &&& a.payload@ == vstd::utf8::encode_utf8(message)
}

/// Refuses a call to `method`, which the service does not have.
pub fn unknown_method(method: &str) -> (a: ServiceAnswer)
    ensures
        unknown_method_answer(a, method@),
{
    let message = concat("unknown method: ", method);
    let payload = bytes_of(message.as_str());
    ServiceAnswer { status: ReplyStatus::Error { code: string_of("UnknownMethod"), message }, payload }
}

/// The ping service: `ping` is answered with the call's own payload, anything else is refused.
pub fn answer_ping(method: &str, payload: Vec<u8>) -> (a: ServiceAnswer)
    ensures
        if method@ == PING_METHOD@ {
            a.status == ReplyStatus::Success && a.payload == payload
        } else {
            unknown_method_answer(a, method@)
        },
{
    if crate::text::same_text(method, PING_METHOD) {
        ServiceAnswer { status: ReplyStatus::Success, payload }
    } else {
        unknown_method(method)
    }
}

/// What a message means to a client waiting for the reply to its call `request_id`.
pub enum ReplyWait {
    /// The call succeeded.
    Succeeded,
    /// The service refused the call.
    Failed { code: String, message: String, payload: Vec<u8> },
    /// Something else: keep waiting.
    Unrelated,
}

/// Reads `message` while waiting for the reply to the call `request_id`.
pub fn reply_wait(message: InboxMessage, request_id: RequestId) -> (r: ReplyWait)
    ensures
        match message {
            InboxMessage::FunctionCallReply { request_id: id, status, payload, .. } if id == request_id => match status {
                ReplyStatus::Success => r is Succeeded,
                ReplyStatus::Error { code, message } => r == (ReplyWait::Failed { code, message, payload }),
            },
            _ => r is Unrelated,
        },
{
    match message {
        InboxMessage::FunctionCallReply { request_id: id, status, payload, .. } => {
            if id.0 != request_id.0 {
                return ReplyWait::Unrelated;
            }
            match status {
                ReplyStatus::Success => ReplyWait::Succeeded,
                ReplyStatus::Error { code, message } => ReplyWait::Failed { code, message, payload },
            }
        },
        _ => ReplyWait::Unrelated,
    }
}

/// What a `setTheme` payload asks for: the theme's name and the store value that selects it,
/// or why the request is refused.
pub open spec fn theme_request(payload: Seq<u8>) -> Result<(Seq<char>, Seq<u8>), Seq<char>> {
    if !vstd::utf8::valid_utf8(payload) {
        Err("theme payload must be valid UTF-8"@)
    } else {
        let theme = vstd::utf8::decode_utf8(payload);
        if theme == "light"@ {
            Ok((theme, vstd::utf8::encode_utf8("light"@)))
        } else if theme == "dark"@ {
            Ok((theme, vstd::utf8::encode_utf8("dark"@)))
        } else {
            Err("unsupported theme: "@ + theme)
        }
    }
}

/// Reads a `setTheme` payload: `light` and `dark` are the known themes.
pub fn requested_theme(payload: &[u8]) -> (r: Result<(String, Vec<u8>), String>)
    ensures
        match theme_request(payload@) {
            Ok((theme, value)) => r matches Ok((name, bytes)) && name@ == theme && bytes@ == value,
            Err(message) => r matches Err(m) && m@ == message,
        },
{
    let theme = match utf8_text(payload) {
        Some(theme) => theme,
        None => return Err(string_of("theme payload must be valid UTF-8")),
    };
    let value = if crate::text::same_text(theme, "light") {
        bytes_of("light")
    } else if crate::text::same_text(theme, "dark") {
        bytes_of("dark")
    } else {
        return Err(concat("unsupported theme: ", theme));
    };
    Ok((string_of(theme), value))
}

/// The settings service's answer to `setTheme` once the request was carried out (`Ok` with the
/// theme's name) or refused (`Err` with the reason).
pub fn theme_answer(result: Result<String, String>) -> (a: ServiceAnswer)
    ensures
        match result {
            Ok(theme) => a.status == ReplyStatus::Success && a.payload@ == vstd::utf8::encode_utf8(theme@),
            Err(message) => {
                &&& a.status matches ReplyStatus::Error { code, message: m }
                &&& code@ == "InvalidTheme"@
                &&& m@ == message@
                &&& a.payload@ == vstd::utf8::encode_utf8(message@)
            },
        },
{
    match result {
        Ok(theme) => ServiceAnswer { status: ReplyStatus::Success, payload: bytes_of(theme.as_str()) },
        Err(message) => {
            let payload = bytes_of(message.as_str());
            ServiceAnswer { status: ReplyStatus::Error { code: string_of("InvalidTheme"), message }, payload }
        },
    }
}

/// A colour: red, green, blue and alpha.
pub type Rgba = (u8, u8, u8, u8);

/// The colours of the settings window.
pub struct Palette {
    pub background: Rgba,
    pub panel: Rgba,
    pub border: Rgba,
    pub text: Rgba,
    pub secondary_text: Rgba,
    pub button: Rgba,
    pub button_hover: Rgba,
    pub button_pressed: Rgba,
    pub button_text: Rgba,
}

/// The palette of the dark theme.
pub open spec fn dark_palette() -> Palette {
    Palette {
        background: (0x12, 0x16, 0x1c, 0xff),
        panel: (0x1d, 0x24, 0x2d, 0xff),
        border: (0x34, 0x3f, 0x4d, 0xff),
        text: (0xf4, 0xf7, 0xfa, 0xff),
        secondary_text: (0xa8, 0xb3, 0xc2, 0xff),
        button: (0xf6, 0xc4, 0x5d, 0xff),
        button_hover: (0xff, 0xd6, 0x7a, 0xff),
        button_pressed: (0xd8, 0x9d, 0x31, 0xff),
        button_text: (0x1a, 0x16, 0x0d, 0xff),
    }
}

/// The palette of the light theme.
pub open spec fn light_palette() -> Palette {
    Palette {
        background: (0xf3, 0xf6, 0xf8, 0xff),
        panel: (0xff, 0xff, 0xff, 0xff),
        border: (0xd8, 0xde, 0xe6, 0xff),
        text: (0x16, 0x1b, 0x22, 0xff),
        secondary_text: (0x5e, 0x69, 0x76, 0xff),
        button: (0x2d, 0x7d, 0xd2, 0xff),
        button_hover: (0x22, 0x68, 0xb0, 0xff),
        button_pressed: (0x1b, 0x4f, 0x88, 0xff),
        button_text: (0xff, 0xff, 0xff, 0xff),
    }
}

/// What the settings window shows for the theme store's value.
pub struct ThemeView {
    /// The theme's name, or `loading` while the store has no readable value.
    pub theme: String,
    pub dark: bool,
    /// The theme the button switches to.
    pub next_theme: String,
    /// `Theme store: ` and the theme's name.
    pub label: String,
    /// `Switch to ` and the next theme's name.
    pub button_label: String,
    pub palette: Palette,
}

/// The theme shown for the store value `value`.
pub open spec fn shown_theme(value: Option<&[u8]>) -> Seq<char> {
    match value {
        Some(bytes) if vstd::utf8::valid_utf8(bytes@) => vstd::utf8::decode_utf8(bytes@),
        _ => "loading"@,
    }
}

/// The settings window for the theme store's value (`None` until one arrived).
pub fn theme_view(value: Option<&[u8]>) -> (v: ThemeView)
    ensures
        v.theme@ == shown_theme(value),
        v.dark == (v.theme@ == "dark"@),
        v.next_theme@ == (if v.dark { "light"@ } else { "dark"@ }),
        v.label@ == "Theme store: "@ + v.theme@,
        v.button_label@ == "Switch to "@ + v.next_theme@,
        v.palette == (if v.dark { dark_palette() } else { light_palette() }),
{
    let text = match value {
        Some(bytes) => utf8_text(bytes),
        None => None,
    };
    let theme = match text {
        Some(t) => string_of(t),
        None => string_of("loading"),
    };
    let dark = crate::text::same_text(theme.as_str(), "dark");
    let next_theme = if dark { string_of("light") } else { string_of("dark") };
    let palette = if dark {
        Palette {
            background: (0x12, 0x16, 0x1c, 0xff),
            panel: (0x1d, 0x24, 0x2d, 0xff),
            border: (0x34, 0x3f, 0x4d, 0xff),
            text: (0xf4, 0xf7, 0xfa, 0xff),
            secondary_text: (0xa8, 0xb3, 0xc2, 0xff),
            button: (0xf6, 0xc4, 0x5d, 0xff),
            button_hover: (0xff, 0xd6, 0x7a, 0xff),
            button_pressed: (0xd8, 0x9d, 0x31, 0xff),
            button_text: (0x1a, 0x16, 0x0d, 0xff),
        }
    } else {
        Palette {
            background: (0xf3, 0xf6, 0xf8, 0xff),
            panel: (0xff, 0xff, 0xff, 0xff),
            border: (0xd8, 0xde, 0xe6, 0xff),
            text: (0x16, 0x1b, 0x22, 0xff),
            secondary_text: (0x5e, 0x69, 0x76, 0xff),
            button: (0x2d, 0x7d, 0xd2, 0xff),
            button_hover: (0x22, 0x68, 0xb0, 0xff),
            button_pressed: (0x1b, 0x4f, 0x88, 0xff),
            button_text: (0xff, 0xff, 0xff, 0xff),
        }
    };
    let label = concat("Theme store: ", theme.as_str());
    let button_label = concat("Switch to ", next_theme.as_str());
    ThemeView { theme, dark, next_theme, label, button_label, palette }
}

} // verus!
