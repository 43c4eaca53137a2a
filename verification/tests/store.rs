use motherboard::kernel::ids::FileId;
use motherboard::kernel::services::store::{
    PendingStoreSubscription, StoreAlreadyExists, StoreMap, StoreName, StorePath, StoreSubscriptionReplyTokens,
    StoreSubscriptionTarget, Subscriptions,
};
use motherboard::protocol::{AnonymousStoreId, ReplyToken, SubscriptionId, TransportError};

fn path(service: &str, store: &str) -> StorePath {
    StorePath::new(service.to_string(), StoreName::check(store.to_string()).unwrap())
}

#[test]
fn store_names_are_checked() {
    assert_eq!(StoreName::check("theme".to_string()).unwrap().as_str(), "theme");
    assert_eq!(StoreName::check("a_b-C9".to_string()).unwrap().as_shared(), "a_b-C9");
    assert_eq!(StoreName::check(String::new()).unwrap_err().message, "name cannot be empty");
    assert_eq!(StoreName::check("x".repeat(255)).unwrap().as_str().len(), 255);
    assert_eq!(
        StoreName::check("x".repeat(256)).unwrap_err().message,
        "name cannot be longer than 255 characters"
    );
    assert_eq!(
        StoreName::check("the theme".to_string()).unwrap_err().message,
        "invalid characters found: allowed chars: 'a'..'z' | 'A'..'Z' | '0'..'9' | '_' | '-'"
    );
    assert_eq!(
        StoreName::check("thème".to_string()).unwrap_err().to_text(),
        "invalid store name: invalid characters found: allowed chars: 'a'..'z' | 'A'..'Z' | '0'..'9' | '_' | '-'"
    );
}

#[test]
fn a_store_path_is_registered_once() {
    let mut stores = StoreMap::new();
    let snapshot = stores.try_register(path("Settings", "theme"), b"light".to_vec(), true).unwrap();
    assert_eq!(snapshot.path, path("Settings", "theme"));
    assert_eq!(snapshot.current_value, b"light".to_vec());
    assert_eq!(snapshot.last_updated_timestamp, 1);
    assert_eq!(
        stores.try_register(path("Settings", "theme"), b"dark".to_vec(), false).unwrap_err(),
        StoreAlreadyExists
    );
    let store = stores.get(&path("Settings", "theme")).unwrap();
    assert!(store.is_public());
    assert_eq!(store.path(), &path("Settings", "theme"));
    assert_eq!(store.snapshot().current_value, b"light".to_vec());
    assert!(stores.get(&path("Settings", "other")).is_none());
}

#[test]
fn an_update_reads_back_with_a_later_timestamp() {
    let mut stores = StoreMap::new();
    stores.try_register(path("Settings", "theme"), b"light".to_vec(), true).unwrap();
    let snapshot = stores.update(&path("Settings", "theme"), b"dark".to_vec()).unwrap();
    assert_eq!(snapshot.current_value, b"dark".to_vec());
    assert_eq!(snapshot.last_updated_timestamp, 2);
    assert_eq!(stores.get(&path("Settings", "theme")).unwrap().snapshot().current_value, b"dark".to_vec());
}

#[test]
fn an_update_is_stamped_later_than_every_store_before_it() {
    let mut stores = StoreMap::new();
    let first = stores.try_register(path("Settings", "theme"), b"light".to_vec(), true).unwrap();
    let second = stores.try_register(path("Settings", "font"), b"mono".to_vec(), true).unwrap();
    let anonymous = stores.create_anonymous("Settings".to_string(), FileId(3), b"x".to_vec());
    let update = stores.update(&path("Settings", "theme"), b"dark".to_vec()).unwrap();
    assert!(first.last_updated_timestamp < second.last_updated_timestamp);
    assert!(second.last_updated_timestamp < anonymous.last_updated_timestamp);
    assert!(anonymous.last_updated_timestamp < update.last_updated_timestamp);
    let again = stores.update(&path("Settings", "theme"), b"light".to_vec()).unwrap();
    assert_eq!(again.last_updated_timestamp, update.last_updated_timestamp + 1);
}

#[test]
fn an_update_of_a_missing_store_uses_up_a_timestamp() {
    let mut stores = StoreMap::new();
    assert!(stores.update(&path("Settings", "theme"), b"dark".to_vec()).is_none());
    let snapshot = stores.try_register(path("Settings", "theme"), b"light".to_vec(), true).unwrap();
    assert_eq!(snapshot.last_updated_timestamp, 2);
}

#[test]
fn anonymous_stores_get_consecutive_ids() {
    let mut stores = StoreMap::new();
    let a = stores.create_anonymous("Auth".to_string(), FileId(1), b"pending".to_vec());
    let b = stores.create_anonymous("Auth".to_string(), FileId(1), Vec::new());
    assert_eq!(a.id, AnonymousStoreId(1));
    assert_eq!(b.id, AnonymousStoreId(2));
    assert_eq!(a.last_updated_timestamp, 1);
    assert_eq!(b.last_updated_timestamp, 2);
    assert_eq!(stores.anonymous_count(), 2);
    let store = stores.get_anonymous(AnonymousStoreId(1)).unwrap();
    assert_eq!(store.id(), AnonymousStoreId(1));
    assert_eq!(store.service(), "Auth");
    assert_eq!(store.owner_file_id(), FileId(1));
    assert_eq!(store.snapshot().current_value, b"pending".to_vec());
    let updated = stores.update_anonymous(AnonymousStoreId(1), b"done".to_vec()).unwrap();
    assert_eq!(updated.current_value, b"done".to_vec());
    assert_eq!(updated.last_updated_timestamp, 3);
    assert!(stores.update_anonymous(AnonymousStoreId(9), Vec::new()).is_none());
}

#[test]
fn removing_a_service_removes_its_stores() {
    let mut stores = StoreMap::new();
    stores.try_register(path("A", "one"), Vec::new(), true).unwrap();
    stores.try_register(path("A", "two"), Vec::new(), true).unwrap();
    stores.try_register(path("B", "one"), Vec::new(), true).unwrap();
    stores.create_anonymous("A".to_string(), FileId(1), Vec::new());
    stores.create_anonymous("B".to_string(), FileId(2), Vec::new());
    let mut removed: Vec<String> = stores.remove_service("A").iter().map(|p| p.store.as_str().to_string()).collect();
    removed.sort();
    assert_eq!(removed, vec!["one".to_string(), "two".to_string()]);
    assert!(stores.get(&path("A", "one")).is_none());
    assert!(stores.get(&path("B", "one")).is_some());
    assert_eq!(stores.remove_anonymous_service("A"), vec![AnonymousStoreId(1)]);
    assert!(stores.get_anonymous(AnonymousStoreId(1)).is_none());
    assert!(stores.get_anonymous(AnonymousStoreId(2)).is_some());
}

#[test]
fn an_anonymous_store_lives_until_its_last_subscription_ends() {
    let mut stores = StoreMap::new();
    let id = stores.create_anonymous("Auth".to_string(), FileId(1), Vec::new()).id;
    assert_eq!(stores.increment_anonymous_pending(id), Some(()));
    stores.decrement_anonymous_pending(id);
    assert!(stores.get_anonymous(id).is_some(), "never subscribed: kept");
    assert_eq!(stores.increment_anonymous_pending(id), Some(()));
    assert_eq!(stores.accept_anonymous_pending(id), Some(()));
    assert_eq!(stores.increment_anonymous_accepted(id), Some(()));
    stores.decrement_anonymous_accepted(id);
    assert!(stores.get_anonymous(id).is_some(), "one subscription left");
    stores.decrement_anonymous_accepted(id);
    assert!(stores.get_anonymous(id).is_none(), "unused: dropped");
    assert_eq!(stores.increment_anonymous_pending(id), None);
    assert_eq!(stores.increment_anonymous_accepted(id), None);
    assert_eq!(stores.accept_anonymous_pending(id), None);
}

#[test]
fn a_subscription_id_is_used_once_per_connection() {
    let mut subscriptions = Subscriptions::new();
    let target = StoreSubscriptionTarget::Named(path("Settings", "theme"));
    assert_eq!(subscriptions.insert(SubscriptionId(1), FileId(5), target.clone()), Ok(()));
    assert_eq!(
        subscriptions.insert(SubscriptionId(1), FileId(5), target.clone()),
        Err(TransportError::SubscriptionIdConflict)
    );
    assert_eq!(subscriptions.insert(SubscriptionId(1), FileId(6), target), Ok(()));
    assert_eq!(subscriptions.check_ownership(SubscriptionId(1), FileId(5)), Some(true));
    assert_eq!(subscriptions.check_ownership(SubscriptionId(2), FileId(5)), None);
}

#[test]
fn deleting_a_subscription_returns_its_target() {
    let mut subscriptions = Subscriptions::new();
    subscriptions.insert(SubscriptionId(1), FileId(5), StoreSubscriptionTarget::Anonymous(AnonymousStoreId(3))).unwrap();
    assert_eq!(
        subscriptions.delete_owned(SubscriptionId(1), FileId(5)),
        Ok(StoreSubscriptionTarget::Anonymous(AnonymousStoreId(3)))
    );
    assert_eq!(subscriptions.delete_owned(SubscriptionId(1), FileId(5)), Err(TransportError::NoSuchSubscription));
}

#[test]
fn subscribers_are_found_by_store() {
    let mut subscriptions = Subscriptions::new();
    let theme = StoreSubscriptionTarget::Named(path("Settings", "theme"));
    subscriptions.insert(SubscriptionId(1), FileId(5), theme.clone()).unwrap();
    subscriptions.insert(SubscriptionId(2), FileId(6), theme).unwrap();
    subscriptions.insert(SubscriptionId(3), FileId(6), StoreSubscriptionTarget::Named(path("Settings", "font"))).unwrap();
    subscriptions.insert(SubscriptionId(4), FileId(7), StoreSubscriptionTarget::Anonymous(AnonymousStoreId(1))).unwrap();
    let mut found = subscriptions.subscribers_for_store(&path("Settings", "theme"));
    found.sort_by_key(|(file, id)| (file.0, id.0));
    assert_eq!(found, vec![(FileId(5), SubscriptionId(1)), (FileId(6), SubscriptionId(2))]);
    assert_eq!(subscriptions.subscribers_for_anonymous_store(AnonymousStoreId(1)), vec![(FileId(7), SubscriptionId(4))]);
    assert!(subscriptions.subscribers_for_anonymous_store(AnonymousStoreId(2)).is_empty());
}

#[test]
fn subscription_cleanup_by_file_service_and_store() {
    let mut subscriptions = Subscriptions::new();
    subscriptions.insert(SubscriptionId(1), FileId(5), StoreSubscriptionTarget::Named(path("A", "x"))).unwrap();
    subscriptions.insert(SubscriptionId(2), FileId(6), StoreSubscriptionTarget::Named(path("A", "y"))).unwrap();
    subscriptions.insert(SubscriptionId(3), FileId(6), StoreSubscriptionTarget::Named(path("B", "x"))).unwrap();
    subscriptions.insert(SubscriptionId(4), FileId(7), StoreSubscriptionTarget::Anonymous(AnonymousStoreId(1))).unwrap();

    let removed = subscriptions.cleanup_file(FileId(5));
    assert_eq!(removed, vec![(FileId(5), SubscriptionId(1), StoreSubscriptionTarget::Named(path("A", "x")))]);

    let removed = subscriptions.cleanup_service("A");
    assert_eq!(removed, vec![(FileId(6), SubscriptionId(2), StoreSubscriptionTarget::Named(path("A", "y")))]);

    let removed = subscriptions.cleanup_anonymous_store(AnonymousStoreId(1));
    assert_eq!(removed, vec![(FileId(7), SubscriptionId(4), StoreSubscriptionTarget::Anonymous(AnonymousStoreId(1)))]);

    assert_eq!(subscriptions.check_ownership(SubscriptionId(3), FileId(6)), Some(true));
    assert_eq!(subscriptions.check_ownership(SubscriptionId(2), FileId(6)), None);
}

fn pending(client: u64, service: u64, id: u64) -> PendingStoreSubscription {
    PendingStoreSubscription {
        client_file_id: FileId(client),
        service_file_id: FileId(service),
        subscription_id: SubscriptionId(id),
        target: StoreSubscriptionTarget::Anonymous(AnonymousStoreId(id)),
    }
}

#[test]
fn subscription_tokens_work_once_for_their_service() {
    let mut tokens = StoreSubscriptionReplyTokens::new();
    let a = tokens.create(FileId(1), FileId(2), SubscriptionId(1), StoreSubscriptionTarget::Anonymous(AnonymousStoreId(1)));
    let b = tokens.create(FileId(1), FileId(2), SubscriptionId(2), StoreSubscriptionTarget::Anonymous(AnonymousStoreId(2)));
    assert_eq!((a, b), (ReplyToken(1), ReplyToken(2)));
    assert_eq!(tokens.len(), 2);
    assert_eq!(tokens.consume(a, FileId(9)).unwrap_err(), TransportError::InvalidReplyToken);
    let got = tokens.consume(a, FileId(2)).unwrap();
    assert_eq!(got.subscription_id, pending(1, 2, 1).subscription_id);
    assert_eq!(got.target, pending(1, 2, 1).target);
    assert_eq!(tokens.consume(a, FileId(2)).unwrap_err(), TransportError::InvalidReplyToken);
    assert_eq!(tokens.len(), 1);
}

#[test]
fn subscription_tokens_of_a_closed_connection_are_dropped() {
    let mut tokens = StoreSubscriptionReplyTokens::new();
    tokens.create(FileId(1), FileId(2), SubscriptionId(1), StoreSubscriptionTarget::Anonymous(AnonymousStoreId(1)));
    tokens.create(FileId(3), FileId(4), SubscriptionId(2), StoreSubscriptionTarget::Anonymous(AnonymousStoreId(2)));
    tokens.create(FileId(5), FileId(1), SubscriptionId(3), StoreSubscriptionTarget::Anonymous(AnonymousStoreId(3)));
    let mut removed: Vec<u64> = tokens.remove_for_file(FileId(1)).iter().map(|p| p.subscription_id.0).collect();
    removed.sort();
    assert_eq!(removed, vec![1, 3]);
    assert_eq!(tokens.len(), 1);
    assert!(tokens.consume(ReplyToken(2), FileId(4)).is_ok());
}

#[test]
fn a_withdrawn_request_cannot_be_answered() {
    let mut tokens = StoreSubscriptionReplyTokens::new();
    let a = tokens.create(FileId(1), FileId(2), SubscriptionId(7), StoreSubscriptionTarget::Anonymous(AnonymousStoreId(1)));
    let b = tokens.create(FileId(1), FileId(2), SubscriptionId(8), StoreSubscriptionTarget::Anonymous(AnonymousStoreId(1)));
    let c = tokens.create(FileId(3), FileId(2), SubscriptionId(7), StoreSubscriptionTarget::Anonymous(AnonymousStoreId(1)));
    assert!(tokens.cancel_request(FileId(1), SubscriptionId(7)));
    assert!(!tokens.cancel_request(FileId(1), SubscriptionId(7)));
    assert_eq!(tokens.len(), 2);
    assert_eq!(tokens.consume(a, FileId(2)).unwrap_err(), TransportError::InvalidReplyToken);
    assert!(tokens.consume(b, FileId(2)).is_ok());
    assert!(tokens.consume(c, FileId(2)).is_ok());
}

#[test]
fn errors_read_as_text() {
    assert_eq!(StoreAlreadyExists.to_text(), "store already exists");
    assert_eq!(TransportError::NoSuchSubscription.to_text(), "Store Subscription does not exist");
    assert_eq!(
        TransportError::InvalidServiceName { message: "x".to_string() }.to_text(),
        "Service name is invalid"
    );
    assert_eq!(
        TransportError::WouldBlock { latch_fd: 3 }.to_text(),
        "The inbox is empty; poll the returned latch fd before fetching again"
    );
}

#[test]
fn defaults_are_empty() {
    let mut stores = StoreMap::default();
    assert_eq!(stores.anonymous_count(), 0);
    assert_eq!(stores.create_anonymous("S".to_string(), FileId(1), Vec::new()).id, AnonymousStoreId(1));
    let subscriptions = Subscriptions::default();
    assert_eq!(subscriptions.check_ownership(SubscriptionId(1), FileId(1)), None);
    let mut tokens = StoreSubscriptionReplyTokens::default();
    assert_eq!(tokens.len(), 0);
    assert_eq!(
        tokens.create(FileId(1), FileId(2), SubscriptionId(1), StoreSubscriptionTarget::Anonymous(AnonymousStoreId(1))),
        ReplyToken(1)
    );
}
