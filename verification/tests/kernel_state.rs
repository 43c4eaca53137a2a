use motherboard::kernel::ids::{AuthInfo, FileHandle, FileId, PidWithNs};
use motherboard::kernel::message_inbox::{Inboxes, LatchReadiness, QueuedInboxMessage};
use motherboard::kernel::state::{finish_block, finish_delivery, CommandOutcome, State, Step};
use motherboard::protocol::{
    CloseReason, Command, CommandReply, CommandResult, InboxMessage, Origin, ReplyStatus, ReplyToken, RequestId,
    StoreSubscriptionServerVerdict, SubscriptionId, TransportError,
};

const SERVICE: FileId = FileId(10);
const CLIENT: FileId = FileId(20);

fn daemon() -> AuthInfo {
    AuthInfo { uid: 0, pid_with_ns: PidWithNs { namespace: 1, pid: 100 }, is_trusted: true }
}

fn user() -> AuthInfo {
    AuthInfo { uid: 1000, pid_with_ns: PidWithNs { namespace: 1, pid: 200 }, is_trusted: true }
}

fn run(state: &mut State, command: Command, auth: AuthInfo, file: FileId) -> Step {
    run_with(state, command, auth, file, Some(Vec::new()))
}

fn run_with(state: &mut State, command: Command, auth: AuthInfo, file: FileId, resolved: Option<Vec<FileHandle>>) -> Step {
    assert!(state.has_token_room());
    state.execute_command(command, auth, file, resolved)
}

fn reply_of(step: Step) -> Result<CommandReply, TransportError> {
    match step.outcome {
        CommandOutcome::Reply(CommandResult(result)) => result,
        _ => panic!("expected an immediate reply"),
    }
}

fn delivered(step: Step) -> QueuedInboxMessage {
    match step.outcome {
        CommandOutcome::Deliver(message) => message,
        _ => panic!("expected a delivered message"),
    }
}

fn bind(state: &mut State, name: &str) -> Result<CommandReply, TransportError> {
    reply_of(run(state, Command::BindService { name: name.to_string() }, daemon(), SERVICE))
}

fn call(state: &mut State, service: &str, request: u64, payload: &[u8]) -> Step {
    run(
        state,
        Command::FunctionCall {
            service: service.to_string(),
            method: "ping".to_string(),
            request_id: RequestId(request),
            payload: payload.to_vec(),
            fds: Vec::new(),
        },
        user(),
        CLIENT,
    )
}

fn answer(state: &mut State, token: ReplyToken, from: FileId, payload: &[u8]) -> Step {
    run(
        state,
        Command::FunctionCallReply { reply_token: token, status: ReplyStatus::Success, payload: payload.to_vec(), fds: Vec::new() },
        daemon(),
        from,
    )
}

fn token_of(message: &QueuedInboxMessage) -> ReplyToken {
    match &message.message {
        InboxMessage::FunctionCallRequest { reply_token, .. } => *reply_token,
        other => panic!("expected a request, got {other:?}"),
    }
}

#[test]
fn trusted_daemon_binds_a_service() {
    let mut state = State::new();
    assert_eq!(bind(&mut state, "PingService"), Ok(CommandReply::ServiceBound));
}

#[test]
fn untrusted_or_user_processes_cannot_bind() {
    let mut state = State::new();
    let outsider = AuthInfo { uid: 0, pid_with_ns: PidWithNs { namespace: 2, pid: 1 }, is_trusted: false };
    let step = run(&mut state, Command::BindService { name: "A".to_string() }, outsider, SERVICE);
    assert_eq!(reply_of(step), Err(TransportError::Unauthorized));
    let step = run(&mut state, Command::BindService { name: "A".to_string() }, user(), SERVICE);
    assert_eq!(reply_of(step), Err(TransportError::Unauthorized));
}

#[test]
fn service_names_are_checked() {
    let mut state = State::new();
    assert_eq!(
        bind(&mut state, "Ping Service"),
        Err(TransportError::InvalidServiceName { message: "Service names cannot contain spaces".to_string() })
    );
    assert_eq!(
        bind(&mut state, "ABCDEFGHIJKLMNOPQRSTUVWXYZabcde"),
        Err(TransportError::InvalidServiceName {
            message: "Service name is too long. Expected length between 0 and 30 characters".to_string()
        })
    );
    assert_eq!(
        bind(&mut state, "ping_service"),
        Err(TransportError::InvalidServiceName { message: "Service names must only contain letters and numbers".to_string() })
    );
    assert_eq!(bind(&mut state, "ABCDEFGHIJKLMNOPQRSTUVWXYZabcd"), Ok(CommandReply::ServiceBound));
}

#[test]
fn a_bound_name_conflicts() {
    let mut state = State::new();
    assert_eq!(bind(&mut state, "Ping"), Ok(CommandReply::ServiceBound));
    assert_eq!(bind(&mut state, "Ping"), Err(TransportError::ServiceNameConflict));
}

#[test]
fn calling_an_unknown_service_is_refused() {
    let mut state = State::new();
    assert_eq!(reply_of(call(&mut state, "Nobody", 1, b"")), Err(TransportError::NoSuchService));
}

#[test]
fn a_bad_descriptor_refuses_the_call() {
    let mut state = State::new();
    bind(&mut state, "Ping").unwrap();
    let step = run_with(
        &mut state,
        Command::FunctionCall {
            service: "Ping".to_string(),
            method: "ping".to_string(),
            request_id: RequestId(1),
            payload: Vec::new(),
            fds: vec![3],
        },
        user(),
        CLIENT,
        None,
    );
    assert_eq!(reply_of(step), Err(TransportError::InvalidFileDescriptor));
}

#[test]
fn call_and_reply_round_trip() {
    let mut state = State::new();
    bind(&mut state, "Ping").unwrap();
    let step = call(&mut state, "Ping", 7, b"hello");
    assert_eq!(reply_of(step), Ok(CommandReply::FunctionCallAccepted { request_id: RequestId(7) }));

    let request = delivered(run(&mut state, Command::InboxNextMessage, daemon(), SERVICE));
    let token = token_of(&request);
    assert_eq!(token, ReplyToken(1));
    match &request.message {
        InboxMessage::FunctionCallRequest { service, method, request_id, origin, payload, .. } => {
            assert_eq!(service, "Ping");
            assert_eq!(method, "ping");
            assert_eq!(*request_id, RequestId(7));
            assert_eq!(*origin, Origin { pid: 200, uid: 1000, gid: 0, is_trusted: true });
            assert_eq!(payload, b"hello");
        }
        _ => unreachable!(),
    }

    let step = answer(&mut state, token, SERVICE, b"world");
    assert_eq!(step.wake, Some(CLIENT));
    assert_eq!(reply_of(step), Ok(CommandReply::FunctionCallReplyAccepted));

    let reply = delivered(run(&mut state, Command::InboxNextMessage, user(), CLIENT));
    match reply.message {
        InboxMessage::FunctionCallReply { request_id, status, payload, .. } => {
            assert_eq!(request_id, RequestId(7));
            assert_eq!(status, ReplyStatus::Success);
            assert_eq!(payload, b"world".to_vec());
        }
        other => panic!("expected a reply, got {other:?}"),
    }
}

#[test]
fn a_reply_token_works_once() {
    let mut state = State::new();
    bind(&mut state, "Ping").unwrap();
    call(&mut state, "Ping", 1, b"");
    let token = token_of(&delivered(run(&mut state, Command::InboxNextMessage, daemon(), SERVICE)));
    assert_eq!(reply_of(answer(&mut state, token, SERVICE, b"")), Ok(CommandReply::FunctionCallReplyAccepted));
    assert_eq!(reply_of(answer(&mut state, token, SERVICE, b"")), Err(TransportError::InvalidReplyToken));
}

#[test]
fn only_the_called_service_can_reply() {
    let mut state = State::new();
    bind(&mut state, "Ping").unwrap();
    call(&mut state, "Ping", 1, b"");
    let token = token_of(&delivered(run(&mut state, Command::InboxNextMessage, daemon(), SERVICE)));
    assert_eq!(reply_of(answer(&mut state, token, FileId(99), b"")), Err(TransportError::InvalidReplyToken));
    assert_eq!(reply_of(answer(&mut state, ReplyToken(42), SERVICE, b"")), Err(TransportError::InvalidReplyToken));
    assert_eq!(reply_of(answer(&mut state, token, SERVICE, b"")), Ok(CommandReply::FunctionCallReplyAccepted));
}

#[test]
fn queued_calls_are_fetched_in_order_with_fresh_tokens() {
    let mut state = State::new();
    bind(&mut state, "Ping").unwrap();
    call(&mut state, "Ping", 1, b"a");
    call(&mut state, "Ping", 2, b"b");
    call(&mut state, "Ping", 3, b"c");
    let step = run(&mut state, Command::InboxNextMessage, daemon(), SERVICE);
    assert_eq!(step.wake, Some(SERVICE));
    let first = delivered(step);
    let second = delivered(run(&mut state, Command::InboxNextMessage, daemon(), SERVICE));
    let third = delivered(run(&mut state, Command::InboxNextMessage, daemon(), SERVICE));
    assert_eq!(token_of(&first), ReplyToken(1));
    assert_eq!(token_of(&second), ReplyToken(2));
    assert_eq!(token_of(&third), ReplyToken(3));
    for (message, id) in [(first, 1), (second, 2), (third, 3)] {
        match message.message {
            InboxMessage::FunctionCallRequest { request_id, .. } => assert_eq!(request_id, RequestId(id)),
            _ => unreachable!(),
        }
    }
}

#[test]
fn nothing_to_fetch_blocks_on_a_latch() {
    let mut state = State::new();
    let step = run(&mut state, Command::InboxNextMessage, user(), CLIENT);
    assert_eq!(step.wake, None);
    let generation = match step.outcome {
        CommandOutcome::Block { file, generation } => {
            assert_eq!(file, CLIENT);
            generation
        }
        _ => panic!("expected to block"),
    };
    assert_eq!(state.inboxes().poll_latch(CLIENT, generation), LatchReadiness::NotReady);
    assert_eq!(state.inboxes().poll_latch(FileId(77), generation), LatchReadiness::HangUp);
    assert_eq!(finish_block(Some(5)), CommandResult(Err(TransportError::WouldBlock { latch_fd: 5 })));
    assert_eq!(finish_block(None), CommandResult(Err(TransportError::ResourceExhausted)));
}

#[test]
fn a_queued_reply_readies_the_latch() {
    let mut state = State::new();
    bind(&mut state, "Ping").unwrap();
    let generation = match run(&mut state, Command::InboxNextMessage, user(), CLIENT).outcome {
        CommandOutcome::Block { generation, .. } => generation,
        _ => panic!("expected to block"),
    };
    call(&mut state, "Ping", 1, b"");
    let token = token_of(&delivered(run(&mut state, Command::InboxNextMessage, daemon(), SERVICE)));
    answer(&mut state, token, SERVICE, b"");
    assert_eq!(state.inboxes().poll_latch(CLIENT, generation), LatchReadiness::ReadReady);
}

#[test]
fn a_call_wakes_the_service_inbox() {
    let mut state = State::new();
    bind(&mut state, "Ping").unwrap();
    let generation = match run(&mut state, Command::InboxNextMessage, daemon(), SERVICE).outcome {
        CommandOutcome::Block { generation, .. } => generation,
        _ => panic!("expected to block"),
    };
    let step = call(&mut state, "Ping", 1, b"");
    assert_eq!(step.wake, Some(SERVICE));
    assert_eq!(state.inboxes().poll_latch(SERVICE, generation), LatchReadiness::ReadReady);
}

#[test]
fn delivery_installs_descriptors() {
    let message = QueuedInboxMessage::new(
        InboxMessage::FunctionCallReply { request_id: RequestId(4), status: ReplyStatus::Success, payload: Vec::new(), fds: Vec::new() },
        vec![FileHandle(1), FileHandle(2)],
    );
    assert_eq!(
        finish_delivery(message, Some(vec![7, 8])),
        CommandResult(Ok(CommandReply::InboxMessagePopped(InboxMessage::FunctionCallReply {
            request_id: RequestId(4),
            status: ReplyStatus::Success,
            payload: Vec::new(),
            fds: vec![7, 8],
        })))
    );
    let message = QueuedInboxMessage::without_fds(InboxMessage::FunctionCallReply {
        request_id: RequestId(4),
        status: ReplyStatus::Success,
        payload: Vec::new(),
        fds: Vec::new(),
    });
    assert_eq!(finish_delivery(message, None), CommandResult(Err(TransportError::ResourceExhausted)));
}

fn create_store(state: &mut State, store: &str, value: &[u8], public: bool, from: FileId) -> Result<CommandReply, TransportError> {
    reply_of(run(
        state,
        Command::StoreCreate { service: "Ping".to_string(), store: store.to_string(), initial_value: value.to_vec(), public },
        daemon(),
        from,
    ))
}

fn subscribe(state: &mut State, service: &str, store: &str, id: u64, payload: &[u8]) -> Step {
    run(
        state,
        Command::StoreSubscribe {
            service: service.to_string(),
            store: store.to_string(),
            subscription_id: SubscriptionId(id),
            payload: payload.to_vec(),
        },
        user(),
        CLIENT,
    )
}

fn update_store(state: &mut State, store: &str, value: &[u8], from: FileId) -> Step {
    run(
        state,
        Command::StoreUpdate { service: "Ping".to_string(), store: store.to_string(), value: value.to_vec() },
        daemon(),
        from,
    )
}

fn fetch(state: &mut State, file: FileId) -> InboxMessage {
    delivered(run(state, Command::InboxNextMessage, user(), file)).message
}

fn accepted(store: &str, id: u64, value: &[u8], timestamp: isize) -> InboxMessage {
    InboxMessage::StoreSubscriptionAccepted {
        service: "Ping".to_string(),
        store: store.to_string(),
        subscription_id: SubscriptionId(id),
        current_value: value.to_vec(),
        last_updated_timestamp: timestamp,
    }
}

#[test]
fn the_owner_creates_a_store_once() {
    let mut state = State::new();
    bind(&mut state, "Ping").unwrap();
    assert_eq!(create_store(&mut state, "theme", b"light", true, SERVICE), Ok(CommandReply::StoreCreateAccepted));
    assert_eq!(create_store(&mut state, "theme", b"dark", true, SERVICE), Err(TransportError::StoreAlreadyExists));
    assert_eq!(create_store(&mut state, "logs", b"", false, SERVICE), Ok(CommandReply::StoreCreateAccepted));
}

#[test]
fn store_creation_checks_service_owner_and_name() {
    let mut state = State::new();
    let step = run(
        &mut state,
        Command::StoreCreate { service: "Nope".to_string(), store: "theme".to_string(), initial_value: Vec::new(), public: true },
        daemon(),
        SERVICE,
    );
    assert_eq!(reply_of(step), Err(TransportError::NoSuchService));
    bind(&mut state, "Ping").unwrap();
    assert_eq!(create_store(&mut state, "theme", b"", true, CLIENT), Err(TransportError::Unauthorized));
    assert_eq!(
        create_store(&mut state, "", b"", true, SERVICE),
        Err(TransportError::InvalidStoreName { message: "name cannot be empty".to_string() })
    );
    assert_eq!(
        create_store(&mut state, &"a".repeat(256), b"", true, SERVICE),
        Err(TransportError::InvalidStoreName { message: "name cannot be longer than 255 characters".to_string() })
    );
    assert_eq!(create_store(&mut state, &"a".repeat(255), b"", true, SERVICE), Ok(CommandReply::StoreCreateAccepted));
    assert_eq!(
        create_store(&mut state, "the me", b"", true, SERVICE),
        Err(TransportError::InvalidStoreName {
            message: "invalid characters found: allowed chars: 'a'..'z' | 'A'..'Z' | '0'..'9' | '_' | '-'".to_string()
        })
    );
}

#[test]
fn a_public_subscription_gets_the_value_and_every_update() {
    let mut state = State::new();
    bind(&mut state, "Ping").unwrap();
    create_store(&mut state, "theme", b"light", true, SERVICE).unwrap();
    let step = subscribe(&mut state, "Ping", "theme", 4, b"");
    assert_eq!(step.wake, Some(CLIENT));
    assert_eq!(reply_of(step), Ok(CommandReply::StoreSubscriptionAccepted { subscription_id: SubscriptionId(4) }));
    assert_eq!(fetch(&mut state, CLIENT), accepted("theme", 4, b"light", 1));
    let step = update_store(&mut state, "theme", b"dark", SERVICE);
    assert_eq!(step.wake, None);
    assert_eq!(step.fanout, vec![CLIENT]);
    assert_eq!(reply_of(step), Ok(CommandReply::StoreUpdateAccepted));
    assert_eq!(
        fetch(&mut state, CLIENT),
        InboxMessage::StoreSubscriptionUpdated {
            service: "Ping".to_string(),
            store: "theme".to_string(),
            subscription_id: SubscriptionId(4),
            payload: b"dark".to_vec(),
        }
    );
    assert_eq!(reply_of(subscribe(&mut state, "Ping", "theme", 4, b"")), Err(TransportError::SubscriptionIdConflict));
    assert_eq!(reply_of(subscribe(&mut state, "Ping", "theme", 5, b"")), Ok(CommandReply::StoreSubscriptionAccepted { subscription_id: SubscriptionId(5) }));
    assert_eq!(fetch(&mut state, CLIENT), accepted("theme", 5, b"dark", 2));
}

#[test]
fn every_subscriber_is_updated() {
    let mut state = State::new();
    bind(&mut state, "Ping").unwrap();
    create_store(&mut state, "theme", b"light", true, SERVICE).unwrap();
    subscribe(&mut state, "Ping", "theme", 1, b"");
    subscribe(&mut state, "Ping", "theme", 2, b"");
    let step = update_store(&mut state, "theme", b"dark", SERVICE);
    assert_eq!(step.fanout, vec![CLIENT, CLIENT]);
    let mut ids = Vec::new();
    fetch(&mut state, CLIENT);
    fetch(&mut state, CLIENT);
    for _ in 0..2 {
        match fetch(&mut state, CLIENT) {
            InboxMessage::StoreSubscriptionUpdated { subscription_id, payload, .. } => {
                assert_eq!(payload, b"dark".to_vec());
                ids.push(subscription_id.0);
            }
            other => panic!("expected an update, got {other:?}"),
        }
    }
    ids.sort();
    assert_eq!(ids, vec![1, 2]);
}

#[test]
fn a_private_subscription_asks_the_service() {
    let mut state = State::new();
    bind(&mut state, "Ping").unwrap();
    create_store(&mut state, "logs", b"first", false, SERVICE).unwrap();
    let step = subscribe(&mut state, "Ping", "logs", 7, b"please");
    assert_eq!(step.wake, Some(SERVICE));
    assert_eq!(reply_of(step), Ok(CommandReply::StoreSubscriptionAccepted { subscription_id: SubscriptionId(7) }));
    let token = match fetch(&mut state, SERVICE) {
        InboxMessage::SubscribeRequest { service, store, subscription_id, reply_token, origin, payload } => {
            assert_eq!(service, "Ping");
            assert_eq!(store, "logs");
            assert_eq!(subscription_id, SubscriptionId(7));
            assert_eq!(origin, Origin { pid: 200, uid: 1000, gid: 0, is_trusted: true });
            assert_eq!(payload, b"please".to_vec());
            reply_token
        }
        other => panic!("expected a subscription request, got {other:?}"),
    };
    assert_eq!(token, ReplyToken(1));
    let verdict = |v: StoreSubscriptionServerVerdict, from: FileId, state: &mut State| {
        run(state, Command::StoreSubscriptionReply { reply_token: token, verdict: v }, daemon(), from)
    };
    assert_eq!(reply_of(verdict(StoreSubscriptionServerVerdict::Accepted, CLIENT, &mut state)), Err(TransportError::InvalidReplyToken));
    let step = verdict(StoreSubscriptionServerVerdict::Accepted, SERVICE, &mut state);
    assert_eq!(step.wake, Some(CLIENT));
    assert_eq!(reply_of(step), Ok(CommandReply::StoreSubscriptionReplyAccepted));
    assert_eq!(fetch(&mut state, CLIENT), accepted("logs", 7, b"first", 1));
    assert_eq!(reply_of(verdict(StoreSubscriptionServerVerdict::Accepted, SERVICE, &mut state)), Err(TransportError::InvalidReplyToken));
    assert_eq!(update_store(&mut state, "logs", b"second", SERVICE).fanout, vec![CLIENT]);
}

#[test]
fn a_refusal_is_passed_on_to_the_client() {
    let mut state = State::new();
    bind(&mut state, "Ping").unwrap();
    create_store(&mut state, "logs", b"", false, SERVICE).unwrap();
    subscribe(&mut state, "Ping", "logs", 3, b"");
    let token = match fetch(&mut state, SERVICE) {
        InboxMessage::SubscribeRequest { reply_token, .. } => reply_token,
        other => panic!("expected a subscription request, got {other:?}"),
    };
    let step = run(
        &mut state,
        Command::StoreSubscriptionReply {
            reply_token: token,
            verdict: StoreSubscriptionServerVerdict::Rejected { message: "not you".to_string() },
        },
        daemon(),
        SERVICE,
    );
    assert_eq!(reply_of(step), Ok(CommandReply::StoreSubscriptionReplyAccepted));
    assert_eq!(
        fetch(&mut state, CLIENT),
        InboxMessage::StoreSubscriptionRejected {
            service: "Ping".to_string(),
            store: "logs".to_string(),
            subscription_id: SubscriptionId(3),
            message: "not you".to_string(),
        }
    );
    assert!(update_store(&mut state, "logs", b"x", SERVICE).fanout.is_empty());
}

#[test]
fn subscribing_needs_service_name_and_store() {
    let mut state = State::new();
    assert_eq!(reply_of(subscribe(&mut state, "Ping", "theme", 1, b"")), Err(TransportError::NoSuchService));
    bind(&mut state, "Ping").unwrap();
    assert_eq!(
        reply_of(subscribe(&mut state, "Ping", "", 1, b"")),
        Err(TransportError::InvalidStoreName { message: "name cannot be empty".to_string() })
    );
    assert_eq!(reply_of(subscribe(&mut state, "Ping", "theme", 1, b"")), Err(TransportError::NoSuchStore));
}

#[test]
fn updating_needs_the_owner_and_the_store() {
    let mut state = State::new();
    bind(&mut state, "Ping").unwrap();
    assert_eq!(reply_of(update_store(&mut state, "theme", b"", SERVICE)), Err(TransportError::NoSuchStore));
    create_store(&mut state, "theme", b"light", true, SERVICE).unwrap();
    assert_eq!(reply_of(update_store(&mut state, "theme", b"", CLIENT)), Err(TransportError::Unauthorized));
    let step = update_store(&mut state, "theme", b"dark", SERVICE);
    assert!(step.fanout.is_empty());
    assert_eq!(reply_of(step), Ok(CommandReply::StoreUpdateAccepted));
    subscribe(&mut state, "Ping", "theme", 1, b"");
    assert_eq!(fetch(&mut state, CLIENT), accepted("theme", 1, b"dark", 2));
}

#[test]
fn unsubscribing_ends_the_subscription() {
    let mut state = State::new();
    bind(&mut state, "Ping").unwrap();
    create_store(&mut state, "theme", b"", true, SERVICE).unwrap();
    subscribe(&mut state, "Ping", "theme", 4, b"");
    let unsubscribe = |state: &mut State| reply_of(run(state, Command::StoreUnsubscribe { subscription_id: SubscriptionId(4) }, user(), CLIENT));
    assert_eq!(unsubscribe(&mut state), Ok(CommandReply::StoreUnsubscribed));
    assert!(update_store(&mut state, "theme", b"x", SERVICE).fanout.is_empty());
    assert_eq!(unsubscribe(&mut state), Err(TransportError::NoSuchSubscription));
}

#[test]
fn unsubscribing_withdraws_an_unanswered_request() {
    let mut state = State::new();
    bind(&mut state, "Ping").unwrap();
    create_store(&mut state, "logs", b"", false, SERVICE).unwrap();
    subscribe(&mut state, "Ping", "logs", 6, b"");
    let token = match fetch(&mut state, SERVICE) {
        InboxMessage::SubscribeRequest { reply_token, .. } => reply_token,
        other => panic!("expected a subscription request, got {other:?}"),
    };
    let step = run(&mut state, Command::StoreUnsubscribe { subscription_id: SubscriptionId(6) }, user(), CLIENT);
    assert_eq!(reply_of(step), Ok(CommandReply::StoreUnsubscribed));
    let step = run(
        &mut state,
        Command::StoreSubscriptionReply { reply_token: token, verdict: StoreSubscriptionServerVerdict::Accepted },
        daemon(),
        SERVICE,
    );
    assert_eq!(reply_of(step), Err(TransportError::InvalidReplyToken));
    let step = run(&mut state, Command::StoreUnsubscribe { subscription_id: SubscriptionId(6) }, user(), CLIENT);
    assert_eq!(reply_of(step), Err(TransportError::NoSuchSubscription));
}

#[test]
fn cleanup_drops_the_subscriptions_of_the_connection() {
    let mut state = State::new();
    bind(&mut state, "Ping").unwrap();
    create_store(&mut state, "theme", b"", true, SERVICE).unwrap();
    create_store(&mut state, "logs", b"", false, SERVICE).unwrap();
    subscribe(&mut state, "Ping", "theme", 1, b"");
    subscribe(&mut state, "Ping", "logs", 2, b"");
    let token = match fetch(&mut state, SERVICE) {
        InboxMessage::SubscribeRequest { reply_token, .. } => reply_token,
        other => panic!("expected a subscription request, got {other:?}"),
    };
    state.cleanup(CLIENT);
    assert!(update_store(&mut state, "theme", b"x", SERVICE).fanout.is_empty());
    let step = run(
        &mut state,
        Command::StoreSubscriptionReply { reply_token: token, verdict: StoreSubscriptionServerVerdict::Accepted },
        daemon(),
        SERVICE,
    );
    assert_eq!(reply_of(step), Err(TransportError::InvalidReplyToken));
}

#[test]
fn a_closing_provider_takes_its_stores_and_tells_the_subscribers() {
    let mut state = State::new();
    bind(&mut state, "Ping").unwrap();
    create_store(&mut state, "theme", b"light", true, SERVICE).unwrap();
    create_store(&mut state, "font", b"mono", true, SERVICE).unwrap();
    subscribe(&mut state, "Ping", "theme", 1, b"");
    subscribe(&mut state, "Ping", "font", 2, b"");
    fetch(&mut state, CLIENT);
    fetch(&mut state, CLIENT);
    let report = state.cleanup(SERVICE);
    assert_eq!(report.woken, vec![CLIENT, CLIENT]);
    let closed = InboxMessage::ServiceClosed { service: "Ping".to_string(), reason: CloseReason::ServiceExited };
    assert_eq!(fetch(&mut state, CLIENT), closed);
    assert_eq!(fetch(&mut state, CLIENT), closed);
    assert_eq!(reply_of(subscribe(&mut state, "Ping", "theme", 3, b"")), Err(TransportError::NoSuchService));
    bind(&mut state, "Ping").unwrap();
    assert_eq!(create_store(&mut state, "theme", b"dark", true, SERVICE), Ok(CommandReply::StoreCreateAccepted));
    let step = run(&mut state, Command::StoreUnsubscribe { subscription_id: SubscriptionId(1) }, user(), CLIENT);
    assert_eq!(reply_of(step), Err(TransportError::NoSuchSubscription));
}

#[test]
fn a_closing_client_tells_nobody() {
    let mut state = State::new();
    bind(&mut state, "Ping").unwrap();
    create_store(&mut state, "theme", b"", true, SERVICE).unwrap();
    subscribe(&mut state, "Ping", "theme", 1, b"");
    assert!(state.cleanup(CLIENT).woken.is_empty());
    assert_eq!(reply_of(update_store(&mut state, "theme", b"x", SERVICE)), Ok(CommandReply::StoreUpdateAccepted));
}

#[test]
fn cleanup_forgets_the_connection() {
    let mut state = State::new();
    bind(&mut state, "Ping").unwrap();
    call(&mut state, "Ping", 1, b"pending");
    let report = state.cleanup(SERVICE);
    assert_eq!(report.closed_services.len(), 1);
    assert_eq!(report.closed_services[0].name, "Ping");
    assert_eq!(report.closed_services[0].request_queue.len(), 1);
    assert_eq!(reply_of(call(&mut state, "Ping", 2, b"")), Err(TransportError::NoSuchService));
    assert_eq!(bind(&mut state, "Ping"), Ok(CommandReply::ServiceBound));
}

#[test]
fn cleanup_drops_tokens_of_the_client() {
    let mut state = State::new();
    bind(&mut state, "Ping").unwrap();
    call(&mut state, "Ping", 1, b"");
    let token = token_of(&delivered(run(&mut state, Command::InboxNextMessage, daemon(), SERVICE)));
    let report = state.cleanup(CLIENT);
    assert!(report.closed_services.is_empty());
    assert_eq!(reply_of(answer(&mut state, token, SERVICE, b"")), Err(TransportError::InvalidReplyToken));
}

#[test]
fn cleanup_hands_back_the_inbox() {
    let mut state = State::new();
    bind(&mut state, "Ping").unwrap();
    call(&mut state, "Ping", 1, b"");
    let token = token_of(&delivered(run(&mut state, Command::InboxNextMessage, daemon(), SERVICE)));
    answer(&mut state, token, SERVICE, b"late");
    let report = state.cleanup(CLIENT);
    let inbox = report.closed_inbox.expect("the client had an inbox");
    let messages = inbox.into_messages();
    assert_eq!(messages.len(), 1);
    assert!(state.cleanup(CLIENT).closed_inbox.is_none());
}

#[test]
fn broadcast_reaches_every_inbox() {
    let mut inboxes = Inboxes::new();
    let closed = || InboxMessage::ServiceClosed { service: "Ping".to_string(), reason: CloseReason::ServiceExited };
    inboxes.bump(FileId(1));
    inboxes.queue(FileId(2), QueuedInboxMessage::without_fds(closed()));
    inboxes.broadcast(QueuedInboxMessage::new(closed(), vec![FileHandle(9)]));
    let first = inboxes.fetch(FileId(1)).unwrap();
    assert_eq!(first.message, closed());
    assert_eq!(first.fds, vec![FileHandle(9)]);
    assert!(inboxes.fetch(FileId(1)).is_none());
    assert!(inboxes.fetch(FileId(2)).unwrap().fds.is_empty());
    assert_eq!(inboxes.fetch(FileId(2)).unwrap().fds, vec![FileHandle(9)]);
    assert!(inboxes.fetch(FileId(3)).is_none());
}
