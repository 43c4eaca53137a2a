use motherboard::midl::ast::{Enum, ServiceItem, Type};
use motherboard::midl::{parse_cli_args, parse_document, parse_mode, usage, RustMode};
use motherboard::midl::tokenizer::{tokenize, TokenKind};

const EXAMPLE: &str = r#"
service Init {
    store totalComponents: string[],
    store startingComponents: string[];
    store startedComponents: string[];
    store logs: string[];
}

service Auth {
    type AuthSessionToken = string;
    type PID = u64;

    enum AuthSessionStatus {
        Pending,
        LoggedIn,
        Canceled
    }

    enum FarProcessState {
        Running,
        ExittedNormally,
        Crashed { logs: string }
    }

    /// This starts a new login session.
    fn start_user_auth(user: string) -> AuthSessionToken?(error { UserNotFound, Conflict });
    fn login_with_password(sessionId: AuthSessionToken, password: string) -> bool?(error { InvalidSessionId });
    fn run_command_as(sessionId: AuthSessionToken) -> PID?(error { InvalidSessionId, CommandSpawnFailed });
    fn cancel_login(sessionId: AuthSessionToken) -> void?(error { NotFound });
    fn auth_session_status(sessionId: AuthSessionToken) -> AnonymousStore<AuthSessionStatus>?(error { InvalidSessionId, PermissionDenied });
    fn watch_far_process(sessionId: AuthSessionToken, pid: PID) -> AnonymousStore<FarProcessState>?(error { InvalidSessionId, PermissionDenied, PidNotFound });
}
"#;

#[test]
fn parses_auth_init_example() {
    let document = parse_document(EXAMPLE).unwrap();
    assert_eq!(document.services.len(), 2);
    assert_eq!(document.services[0].name, "Init");
    assert_eq!(document.services[1].name, "Auth");
    assert!(matches!(
        &document.services[1].items[2],
        ServiceItem::Enum(Enum { name, .. }) if name == "AuthSessionStatus"
    ));
}

#[test]
fn doc_comments_attach_to_the_next_function() {
    let document = parse_document(EXAMPLE).unwrap();
    match &document.services[1].items[4] {
        ServiceItem::Function(f) => {
            assert_eq!(f.name, "start_user_auth");
            assert_eq!(f.docs, vec!["This starts a new login session.".to_string()]);
            assert_eq!(f.errors, vec!["UserNotFound".to_string(), "Conflict".to_string()]);
        }
        other => panic!("unexpected item {other:?}"),
    }
}

#[test]
fn tokens_carry_line_and_column() {
    let tokens = tokenize("service A {\n  fn f() -> void;\n}").unwrap();
    assert_eq!(tokens[0].kind, TokenKind::Ident("service".to_string()));
    assert_eq!((tokens[0].line, tokens[0].column), (1, 1));
    assert_eq!(tokens[3].kind, TokenKind::Ident("fn".to_string()));
    assert_eq!((tokens[3].line, tokens[3].column), (2, 3));
    assert_eq!(tokens[7].kind, TokenKind::Arrow);
    assert_eq!((tokens[7].line, tokens[7].column), (2, 10));
    let last = tokens.last().unwrap();
    assert_eq!(last.kind, TokenKind::Eof);
    assert_eq!((last.line, last.column), (3, 2));
}

#[test]
fn lone_slash_is_reported_where_it_stands() {
    let error = tokenize("service A {\n  / }").unwrap_err();
    assert_eq!(error.message, "expected comment after `/`");
    assert_eq!((error.line, error.column), (2, 3));
}

#[test]
fn lone_dash_and_unknown_characters_are_reported() {
    let error = tokenize("a - b").unwrap_err();
    assert_eq!(error.message, "expected `>` after `-`");
    assert_eq!((error.line, error.column), (1, 3));
    let error = tokenize("a $").unwrap_err();
    assert_eq!(error.message, "unexpected character `$`");
    assert_eq!((error.line, error.column), (1, 3));
}

#[test]
fn doc_text_loses_leading_whitespace() {
    let tokens = tokenize("///   spaced out  \n").unwrap();
    assert_eq!(tokens[0].kind, TokenKind::Doc("spaced out  ".to_string()));
}

#[test]
fn nested_types_parse() {
    let document = parse_document("service S { fn f(a: (u8, string[])[], b: AnonymousStore<T>) -> void; }").unwrap();
    match &document.services[0].items[0] {
        ServiceItem::Function(f) => {
            match &f.params[0].ty {
                Type::Array(inner) => match inner.as_ref() {
                    Type::Tuple(items) => {
                        assert_eq!(items.len(), 2);
                        assert!(matches!(&items[1], Type::Array(_)));
                    }
                    other => panic!("unexpected {other:?}"),
                },
                other => panic!("unexpected {other:?}"),
            }
            assert!(matches!(&f.params[1].ty, Type::AnonymousStore(_)));
            assert!(matches!(f.returns, Type::Void));
        }
        other => panic!("unexpected item {other:?}"),
    }
}

#[test]
fn public_must_modify_store() {
    let error = parse_document("service S {\n public fn f() -> void; }").unwrap_err();
    assert_eq!(error.message, "`public` can only modify `store`");
    assert_eq!((error.line, error.column), (2, 9));
}

#[test]
fn unknown_item_is_reported() {
    let error = parse_document("service S { banana }").unwrap_err();
    assert_eq!(error.message, "expected service item");
    assert_eq!((error.line, error.column), (1, 13));
}

#[test]
fn missing_arrow_is_reported() {
    let error = parse_document("service S { fn f() void; }").unwrap_err();
    assert_eq!(error.message, "expected `->`");
}

#[test]
fn public_store_is_marked_public() {
    let document = parse_document("service S { public store theme: string; store hidden: u8 }").unwrap();
    match (&document.services[0].items[0], &document.services[0].items[1]) {
        (ServiceItem::Store(a), ServiceItem::Store(b)) => {
            assert!(a.public);
            assert!(!b.public);
            assert_eq!(b.name, "hidden");
        }
        _ => panic!("expected two stores"),
    }
}

#[test]
fn keywords_cannot_name_things() {
    let error = parse_document("service store { }").unwrap_err();
    assert_eq!(error.message, "expected identifier");
    assert_eq!((error.line, error.column), (1, 9));
    let error = parse_document("service S { fn f(type: u8) -> void; }").unwrap_err();
    assert_eq!(error.message, "expected identifier");
    assert_eq!(error.column, 18);
    let error = parse_document("service S { store logs: enum; }").unwrap_err();
    assert_eq!(error.message, "expected identifier");
}

#[test]
fn void_is_a_type() {
    let document = parse_document("service S { fn ping() -> void; store nothing: void[] }").unwrap();
    match (&document.services[0].items[0], &document.services[0].items[1]) {
        (ServiceItem::Function(f), ServiceItem::Store(s)) => {
            assert!(matches!(f.returns, Type::Void));
            assert!(matches!(&s.ty, Type::Array(inner) if matches!(**inner, Type::Void)));
        }
        _ => panic!("expected a function and a store"),
    }
}

#[test]
fn usage_follows_the_message() {
    assert_eq!(
        usage("missing input file"),
        "missing input file\nusage: midl <input.midl> [--mode client|server|both] [--rust-out <bindings.rs>]"
    );
}

#[test]
fn modes_are_named() {
    assert_eq!(parse_mode("client"), Ok(RustMode::Client));
    assert_eq!(parse_mode("server"), Ok(RustMode::Server));
    assert_eq!(parse_mode("both"), Ok(RustMode::Both));
    let error = parse_mode("all").unwrap_err();
    assert!(error.starts_with("unknown mode `all`\nusage: midl"));
}

fn args(list: &[&str]) -> Vec<String> {
    list.iter().map(|s| s.to_string()).collect()
}

#[test]
fn command_line_defaults_to_both_sides() {
    let options = parse_cli_args(&args(&["auth.midl"])).unwrap();
    assert_eq!(options.input, "auth.midl");
    assert_eq!(options.rust_out, None);
    assert_eq!(options.mode, RustMode::Both);
}

#[test]
fn command_line_last_flag_wins() {
    let options = parse_cli_args(&args(&["a.midl", "--mode", "client", "--rust-out", "x.rs", "--mode", "server"])).unwrap();
    assert_eq!(options.mode, RustMode::Server);
    assert_eq!(options.rust_out, Some("x.rs".to_string()));
}

#[test]
fn command_line_errors() {
    assert!(parse_cli_args(&args(&[])).unwrap_err().starts_with("missing input file\n"));
    assert!(parse_cli_args(&args(&["a", "--rust-out"])).unwrap_err().starts_with("missing path after --rust-out\n"));
    assert!(parse_cli_args(&args(&["a", "--mode"])).unwrap_err().starts_with("missing value after --mode\n"));
    assert!(parse_cli_args(&args(&["a", "--mode", "x"])).unwrap_err().starts_with("unknown mode `x`\n"));
    assert!(parse_cli_args(&args(&["a", "-v"])).unwrap_err().starts_with("unknown argument `-v`\n"));
}

#[test]
fn a_document_needs_a_service() {
    let error = parse_document("").unwrap_err();
    assert_eq!(error.message, "expected `service`");
    assert_eq!((error.line, error.column), (1, 1));
    let error = parse_document("\n  // nothing here\n").unwrap_err();
    assert_eq!(error.message, "expected `service`");
    assert_eq!((error.line, error.column), (3, 1));
}

#[test]
fn leading_layout_and_comments_change_only_positions() {
    let plain = tokenize("service S {}").unwrap();
    let padded = tokenize("\n\t // note\n  service S {}").unwrap();
    assert_eq!(plain.len(), padded.len());
    for (a, b) in plain.iter().zip(padded.iter()) {
        assert_eq!(a.kind, b.kind);
    }
    assert_eq!((padded[0].line, padded[0].column), (3, 3));
}

#[test]
fn a_plain_comment_breaks_doc_attachment() {
    let source = "service S {\n    /// Detached.\n    // a note\n    fn a() -> void;\n    /// First line.\n\n    /// Second line.\n    fn b() -> void;\n}";
    let document = parse_document(source).unwrap();
    match (&document.services[0].items[0], &document.services[0].items[1]) {
        (ServiceItem::Function(a), ServiceItem::Function(b)) => {
            assert!(a.docs.is_empty());
            assert_eq!(b.docs, vec!["First line.".to_string(), "Second line.".to_string()]);
        }
        _ => panic!("expected two functions"),
    }
    let tokens = tokenize("/// gone\n// cut\nservice").unwrap();
    assert_eq!(tokens[0].kind, TokenKind::Ident("service".to_string()));
    assert_eq!(tokens.len(), 2);
}

fn render(tokens: &[motherboard::midl::tokenizer::Token]) -> String {
    let mut out = String::new();
    for token in tokens {
        match &token.kind {
            TokenKind::Ident(x) => out.push_str(x),
            TokenKind::Doc(d) => {
                out.push_str("///");
                out.push_str(d);
                out.push('\n');
            }
            TokenKind::Arrow => out.push_str("->"),
            TokenKind::Symbol(c) => out.push(*c),
            TokenKind::Eof => continue,
        }
        out.push(' ');
    }
    out
}

#[test]
fn a_failure_is_reported_where_lexing_first_stops() {
    let source = "service A {\n  fn go() - x;\n}";
    let error = tokenize(source).unwrap_err();
    assert_eq!((error.line, error.column), (2, 11));
    assert_eq!(error.message, "expected `>` after `-`");
    let before: String = source.lines().next().unwrap().to_string() + "\n  fn go() ";
    assert!(tokenize(&before).is_ok());
    let error = tokenize("a / b").unwrap_err();
    assert_eq!((error.message.as_str(), error.line, error.column), ("expected comment after `/`", 1, 3));
    let error = tokenize("a\n  $").unwrap_err();
    assert_eq!((error.message.as_str(), error.line, error.column), ("unexpected character `$`", 2, 3));
}

#[test]
fn tokens_stand_where_they_start_and_end_with_one_eof() {
    let source = "/// Doc\nservice A {\n  fn go() -> u8;\n}\n";
    let tokens = tokenize(source).unwrap();
    let last = tokens.last().unwrap();
    assert_eq!((&last.kind, last.line, last.column), (&TokenKind::Eof, 5, 1));
    assert_eq!(tokens.iter().filter(|t| t.kind == TokenKind::Eof).count(), 1);
    let lines: Vec<&str> = source.split('\n').collect();
    for token in &tokens[..tokens.len() - 1] {
        let first = lines[token.line - 1].chars().nth(token.column - 1).unwrap();
        let expected = match &token.kind {
            TokenKind::Ident(x) => x.chars().next().unwrap(),
            TokenKind::Doc(_) => '/',
            TokenKind::Arrow => '-',
            TokenKind::Symbol(c) => *c,
            TokenKind::Eof => unreachable!(),
        };
        assert_eq!(first, expected);
    }
    for pair in tokens.windows(2) {
        assert!((pair[0].line, pair[0].column) < (pair[1].line, pair[1].column));
    }
    assert_eq!(tokens[0].kind, TokenKind::Doc("Doc".to_string()));
}

#[test]
fn rendered_tokens_read_back_as_the_same_kinds() {
    let tokens = tokenize(EXAMPLE).unwrap();
    let again = tokenize(&render(&tokens)).unwrap();
    let kinds = |ts: &[motherboard::midl::tokenizer::Token]| ts.iter().map(|t| t.kind.clone()).collect::<Vec<_>>();
    assert_eq!(kinds(&tokens), kinds(&again));
    assert_ne!(tokens, again);
}
