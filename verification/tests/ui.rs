use motherboard::protocol::{CloseReason, InboxMessage, SubscriptionId};
use motherboard::ui::UiSubscriptions;

fn accepted(service: &str, store: &str, id: u64, value: &[u8]) -> InboxMessage {
    InboxMessage::StoreSubscriptionAccepted {
        service: service.to_string(),
        store: store.to_string(),
        subscription_id: SubscriptionId(id),
        current_value: value.to_vec(),
        last_updated_timestamp: 1,
    }
}

fn updated(service: &str, store: &str, id: u64, value: &[u8]) -> InboxMessage {
    InboxMessage::StoreSubscriptionUpdated {
        service: service.to_string(),
        store: store.to_string(),
        subscription_id: SubscriptionId(id),
        payload: value.to_vec(),
    }
}

#[test]
fn values_go_to_the_matching_subscription() {
    let mut subscriptions: UiSubscriptions<&str> = UiSubscriptions::new();
    subscriptions.insert(SubscriptionId(1), "Settings".to_string(), "theme".to_string(), "theme sink");
    let delivery = subscriptions.dispatch_message(accepted("Settings", "theme", 1, b"light")).unwrap();
    assert_eq!(delivery.subscription_id, SubscriptionId(1));
    assert_eq!(delivery.value, b"light".to_vec());
    assert_eq!(subscriptions.get(delivery.subscription_id).unwrap().sink, "theme sink");
    let delivery = subscriptions.dispatch_message(updated("Settings", "theme", 1, b"dark")).unwrap();
    assert_eq!(delivery.value, b"dark".to_vec());
}

#[test]
fn values_for_another_store_are_dropped() {
    let mut subscriptions: UiSubscriptions<u8> = UiSubscriptions::new();
    subscriptions.insert(SubscriptionId(1), "Settings".to_string(), "theme".to_string(), 0);
    assert!(subscriptions.dispatch_message(updated("Settings", "font", 1, b"x")).is_none());
    assert!(subscriptions.dispatch_message(updated("Other", "theme", 1, b"x")).is_none());
    assert!(subscriptions.dispatch_message(updated("Settings", "theme", 2, b"x")).is_none());
    assert!(subscriptions.get(SubscriptionId(1)).is_some());
}

#[test]
fn rejected_and_closed_subscriptions_are_forgotten() {
    let mut subscriptions: UiSubscriptions<u8> = UiSubscriptions::new();
    subscriptions.insert(SubscriptionId(1), "S".to_string(), "a".to_string(), 0);
    subscriptions.insert(SubscriptionId(2), "S".to_string(), "b".to_string(), 0);
    let rejected = InboxMessage::StoreSubscriptionRejected {
        service: "S".to_string(),
        store: "a".to_string(),
        subscription_id: SubscriptionId(1),
        message: "no".to_string(),
    };
    assert!(subscriptions.dispatch_message(rejected).is_none());
    assert!(subscriptions.get(SubscriptionId(1)).is_none());
    let closed = InboxMessage::StoreSubscriptionClosed {
        service: "S".to_string(),
        store: "b".to_string(),
        subscription_id: SubscriptionId(2),
        reason: CloseReason::Cancelled,
    };
    assert!(subscriptions.dispatch_message(closed).is_none());
    assert!(subscriptions.get(SubscriptionId(2)).is_none());
}

#[test]
fn a_closed_service_takes_its_subscriptions() {
    let mut subscriptions: UiSubscriptions<u8> = UiSubscriptions::new();
    subscriptions.insert(SubscriptionId(1), "A".to_string(), "x".to_string(), 1);
    subscriptions.insert(SubscriptionId(2), "A".to_string(), "y".to_string(), 2);
    subscriptions.insert(SubscriptionId(3), "B".to_string(), "x".to_string(), 3);
    let message = InboxMessage::ServiceClosed { service: "A".to_string(), reason: CloseReason::ServiceExited };
    assert!(subscriptions.dispatch_message(message).is_none());
    assert!(subscriptions.get(SubscriptionId(1)).is_none());
    assert!(subscriptions.get(SubscriptionId(2)).is_none());
    assert_eq!(subscriptions.get(SubscriptionId(3)).unwrap().sink, 3);
}

#[test]
fn removing_directly() {
    let mut subscriptions: UiSubscriptions<u8> = UiSubscriptions::new();
    subscriptions.insert(SubscriptionId(1), "A".to_string(), "x".to_string(), 1);
    subscriptions.insert(SubscriptionId(2), "B".to_string(), "x".to_string(), 2);
    subscriptions.remove_subscription(SubscriptionId(1));
    assert!(subscriptions.get(SubscriptionId(1)).is_none());
    subscriptions.remove_service_subscriptions("B");
    assert!(subscriptions.get(SubscriptionId(2)).is_none());
}

#[test]
fn a_refused_subscription_is_rolled_back() {
    let mut subscriptions: UiSubscriptions<&str> = UiSubscriptions::new();
    subscriptions.insert(SubscriptionId(1), "Settings".to_string(), "theme".to_string(), "kept");
    subscriptions.insert(SubscriptionId(2), "Settings".to_string(), "font".to_string(), "refused");
    subscriptions.settle_subscription(SubscriptionId(2), false);
    assert!(subscriptions.get(SubscriptionId(2)).is_none());
    subscriptions.settle_subscription(SubscriptionId(1), true);
    assert_eq!(subscriptions.get(SubscriptionId(1)).unwrap().sink, "kept");
    assert!(subscriptions.dispatch_message(updated("Settings", "font", 2, b"x")).is_none());
}
