use motherboard::client::{
    check_bind_service, check_call, check_create, check_fetch, check_reply, check_subscribe, check_subscription_reply,
    check_unsubscribe, check_update, interpret_result, ClientError, IdCounters,
};
use motherboard::protocol::{
    CloseReason, CommandReply, CommandResult, InboxMessage, RequestId, SubscriptionId, TransportError,
};

#[test]
fn request_ids_start_at_one() {
    let mut counters = IdCounters::new();
    assert_eq!(counters.next_request_id(), RequestId(1));
    assert_eq!(counters.next_request_id(), RequestId(2));
}

#[test]
fn subscription_ids_start_at_one() {
    let mut counters = IdCounters::new();
    assert_eq!(counters.next_subscription_id(), SubscriptionId(1));
    assert_eq!(counters.next_subscription_id(), SubscriptionId(2));
}

#[test]
fn the_two_counters_are_independent() {
    let mut counters = IdCounters::new();
    assert_eq!(counters.next_request_id(), RequestId(1));
    assert_eq!(counters.next_subscription_id(), SubscriptionId(1));
    assert_eq!(counters.next_request_id(), RequestId(2));
}

#[test]
fn a_latch_refusal_means_would_block() {
    match interpret_result(CommandResult(Err(TransportError::WouldBlock { latch_fd: 9 }))) {
        Err(ClientError::WouldBlock(9)) => {}
        other => panic!("unexpected {other:?}"),
    }
    match interpret_result(CommandResult(Err(TransportError::NoSuchService))) {
        Err(ClientError::Transport(TransportError::NoSuchService)) => {}
        other => panic!("unexpected {other:?}"),
    }
    match interpret_result(CommandResult(Ok(CommandReply::ServiceBound))) {
        Ok(CommandReply::ServiceBound) => {}
        other => panic!("unexpected {other:?}"),
    }
}

#[test]
fn a_call_must_be_accepted_under_its_own_id() {
    assert!(matches!(
        check_call(CommandReply::FunctionCallAccepted { request_id: RequestId(3) }, RequestId(3)),
        Ok(RequestId(3))
    ));
    assert!(matches!(
        check_call(CommandReply::FunctionCallAccepted { request_id: RequestId(4) }, RequestId(3)),
        Err(ClientError::UnexpectedReply(CommandReply::FunctionCallAccepted { request_id: RequestId(4) }))
    ));
    assert!(matches!(
        check_call(CommandReply::ServiceBound, RequestId(3)),
        Err(ClientError::UnexpectedReply(CommandReply::ServiceBound))
    ));
}

#[test]
fn a_subscription_must_be_accepted_under_its_own_id() {
    assert!(matches!(
        check_subscribe(CommandReply::StoreSubscriptionAccepted { subscription_id: SubscriptionId(2) }, SubscriptionId(2)),
        Ok(SubscriptionId(2))
    ));
    assert!(matches!(
        check_subscribe(CommandReply::StoreSubscriptionAccepted { subscription_id: SubscriptionId(1) }, SubscriptionId(2)),
        Err(ClientError::UnexpectedReply(_))
    ));
}

#[test]
fn each_command_expects_its_own_reply() {
    assert!(check_bind_service(CommandReply::ServiceBound).is_ok());
    assert!(check_bind_service(CommandReply::StoreUnsubscribed).is_err());
    assert!(check_reply(CommandReply::FunctionCallReplyAccepted).is_ok());
    assert!(check_reply(CommandReply::ServiceBound).is_err());
    assert!(check_unsubscribe(CommandReply::StoreUnsubscribed).is_ok());
    assert!(check_unsubscribe(CommandReply::StoreCreateAccepted).is_err());
    assert!(check_create(CommandReply::StoreCreateAccepted).is_ok());
    assert!(check_create(CommandReply::StoreUpdateAccepted).is_err());
    assert!(check_update(CommandReply::StoreUpdateAccepted).is_ok());
    assert!(check_update(CommandReply::StoreCreateAccepted).is_err());
    assert!(check_subscription_reply(CommandReply::StoreSubscriptionReplyAccepted).is_ok());
    assert!(check_subscription_reply(CommandReply::FunctionCallReplyAccepted).is_err());
}

#[test]
fn fetch_hands_out_the_popped_message() {
    let message = InboxMessage::ServiceClosed { service: "Ping".to_string(), reason: CloseReason::ServiceExited };
    match check_fetch(CommandReply::InboxMessagePopped(message.clone())) {
        Ok(got) => assert_eq!(got, message),
        Err(error) => panic!("unexpected {error:?}"),
    }
    assert!(matches!(check_fetch(CommandReply::ServiceBound), Err(ClientError::UnexpectedReply(CommandReply::ServiceBound))));
}
