//! Hash tables of the module, kept in `hashbrown` maps.
//!
//! Each table is a small struct around one `hashbrown::HashMap`; what a table holds is named by
//! a spec function, and each method states what the corresponding `hashbrown` method does to
//! that content.
use vstd::prelude::*;
use crate::kernel::reply_tokens::PendingReply;
use crate::kernel::message_inbox::MessageInbox;
use crate::kernel::services::Service;
use crate::kernel::numbering::NumberedTable;
use crate::kernel::services::store::{AnonymousStore, PendingStoreSubscription, Store, SubscriptionData};

verus! {

/// Pending function-call replies, keyed by reply token number.
#[verifier::external_body]
pub struct PendingReplyTable {
    map: hashbrown::HashMap<u64, PendingReply>,
}

/// What a [`PendingReplyTable`] holds.
pub uninterp spec fn pending_reply_entries(t: PendingReplyTable) -> Map<u64, PendingReply>;

impl PendingReplyTable {
    /// `hashbrown::HashMap::new`: an empty map.
    #[verifier::external_body]
    pub(crate) fn new() -> (table: Self)
        ensures
            pending_reply_entries(table) =~= Map::empty(),
    {
        PendingReplyTable { map: hashbrown::HashMap::new() }
    }

    /// `hashbrown::HashMap::len`: the number of entries.
    #[verifier::external_body]
    pub(crate) fn len(&self) -> (n: usize)
        ensures
            n as nat == pending_reply_entries(*self).len(),
    {
        self.map.len()
    }

    /// `hashbrown::HashMap::get`: the value stored under `key`, if any (copied out).
    #[verifier::external_body]
    pub(crate) fn get(&self, key: u64) -> (r: Option<PendingReply>)
        ensures
            r == pending_reply_entries(*self).get(key),
    {
        self.map.get(&key).copied()
    }

    /// `hashbrown::HashMap::insert`: stores `value` under `key`, replacing any previous value.
    #[verifier::external_body]
    pub(crate) fn insert(&mut self, key: u64, value: PendingReply)
        ensures
            pending_reply_entries(*final(self)) == pending_reply_entries(*old(self)).insert(key, value),
    {
        self.map.insert(key, value);
    }

    /// `hashbrown::HashMap::remove`: takes the value stored under `key` out of the map.
    #[verifier::external_body]
    pub(crate) fn remove(&mut self, key: u64) -> (r: Option<PendingReply>)
        ensures
            r == pending_reply_entries(*old(self)).get(key),
            pending_reply_entries(*final(self)) == pending_reply_entries(*old(self)).remove(key),
    {
        self.map.remove(&key)
    }

    /// `hashbrown::HashMap::keys`: every key once, in the map's own (unspecified) order.
    #[verifier::external_body]
    pub(crate) fn keys(&self) -> (r: Vec<u64>)
        ensures
            r@.no_duplicates(),
            r@.to_set() == pending_reply_entries(*self).dom(),
    {
        self.map.keys().copied().collect()
    }
}

impl NumberedTable for PendingReplyTable {
    open spec fn numbers(&self) -> Set<u64> {
        pending_reply_entries(*self).dom()
    }

    fn holds(&self, n: u64) -> (r: bool) {
        self.get(n).is_some()
    }
}

/// Connection inboxes, keyed by connection (`FileId`) number.
#[verifier::external_body]
pub struct InboxTable {
    map: hashbrown::HashMap<u64, MessageInbox>,
}

/// What an [`InboxTable`] holds.
pub uninterp spec fn inbox_entries(t: InboxTable) -> Map<u64, MessageInbox>;

impl InboxTable {
    /// `hashbrown::HashMap::new`: an empty map.
    #[verifier::external_body]
    pub(crate) fn new() -> (table: Self)
        ensures
            inbox_entries(table) =~= Map::empty(),
    {
        InboxTable { map: hashbrown::HashMap::new() }
    }

    /// `hashbrown::HashMap::get`: the value stored under `key`, if any.
    #[verifier::external_body]
    pub(crate) fn get(&self, key: u64) -> (r: Option<&MessageInbox>)
        ensures
            match r {
                Some(v) => inbox_entries(*self).contains_key(key) && *v == inbox_entries(*self)[key],
                None => !inbox_entries(*self).contains_key(key),
            },
    {
        self.map.get(&key)
    }

    /// `hashbrown::HashMap::insert`: stores `value` under `key`, replacing any previous value.
    #[verifier::external_body]
    pub(crate) fn insert(&mut self, key: u64, value: MessageInbox)
        ensures
            inbox_entries(*final(self)) == inbox_entries(*old(self)).insert(key, value),
    {
        self.map.insert(key, value);
    }

    /// `hashbrown::HashMap::remove`: takes the value stored under `key` out of the map.
    #[verifier::external_body]
    pub(crate) fn remove(&mut self, key: u64) -> (r: Option<MessageInbox>)
        ensures
            r == inbox_entries(*old(self)).get(key),
            inbox_entries(*final(self)) == inbox_entries(*old(self)).remove(key),
    {
        self.map.remove(&key)
    }

    /// `hashbrown::HashMap::keys`: every key once, in the map's own (unspecified) order.
    #[verifier::external_body]
    pub(crate) fn keys(&self) -> (r: Vec<u64>)
        ensures
            r@.no_duplicates(),
            r@.to_set() == inbox_entries(*self).dom(),
    {
        self.map.keys().copied().collect()
    }
}

/// Bound services, keyed by service name.
#[verifier::external_body]
pub struct ServiceTable {
    map: hashbrown::HashMap<String, Service>,
}

/// What a [`ServiceTable`] holds, keyed by the characters of each name.
pub uninterp spec fn service_entries(t: ServiceTable) -> Map<Seq<char>, Service>;

impl ServiceTable {
    /// `hashbrown::HashMap::new`: an empty map.
    #[verifier::external_body]
    pub(crate) fn new() -> (table: Self)
        ensures
            service_entries(table) =~= Map::empty(),
    {
        ServiceTable { map: hashbrown::HashMap::new() }
    }

    /// `hashbrown::HashMap::get`: the value stored under `key`, if any.
    #[verifier::external_body]
    pub(crate) fn get(&self, key: &str) -> (r: Option<&Service>)
        ensures
            match r {
                Some(v) => service_entries(*self).contains_key(key@) && *v == service_entries(*self)[key@],
                None => !service_entries(*self).contains_key(key@),
            },
    {
        self.map.get(key)
    }

    /// `hashbrown::HashMap::insert`: stores `value` under `key`, replacing any previous value.
    #[verifier::external_body]
    pub(crate) fn insert(&mut self, key: String, value: Service)
        ensures
            service_entries(*final(self)) == service_entries(*old(self)).insert(key@, value),
    {
        self.map.insert(key, value);
    }

    /// `hashbrown::HashMap::remove`: takes the value stored under `key` out of the map.
    #[verifier::external_body]
    pub(crate) fn remove(&mut self, key: &str) -> (r: Option<Service>)
        ensures
            r == service_entries(*old(self)).get(key@),
            service_entries(*final(self)) == service_entries(*old(self)).remove(key@),
    {
        self.map.remove(key)
    }

    /// `hashbrown::HashMap::keys`: every key once, in the map's own (unspecified) order.
    #[verifier::external_body]
    pub(crate) fn keys(&self) -> (r: Vec<String>)
        ensures
            r@.map_values(|k: String| k@).no_duplicates(),
            r@.map_values(|k: String| k@).to_set() == service_entries(*self).dom(),
    {
        self.map.keys().cloned().collect()
    }
}

/// Named stores, keyed by (service name, store name).
#[verifier::external_body]
pub struct StoreTable {
    map: hashbrown::HashMap<(String, String), Store>,
}

/// What a [`StoreTable`] holds, keyed by the characters of the two names.
pub uninterp spec fn store_entries(t: StoreTable) -> Map<(Seq<char>, Seq<char>), Store>;

impl StoreTable {
    /// `hashbrown::HashMap::new`: an empty map.
    #[verifier::external_body]
    pub(crate) fn new() -> (table: Self)
        ensures
            store_entries(table) =~= Map::empty(),
    {
        StoreTable { map: hashbrown::HashMap::new() }
    }

    /// `hashbrown::HashMap::get`: the value stored under `key`, if any.
    #[verifier::external_body]
    pub(crate) fn get(&self, key: &(String, String)) -> (r: Option<&Store>)
        ensures
            match r {
                Some(v) => store_entries(*self).contains_key((key.0@, key.1@)) && *v == store_entries(*self)[(key.0@, key.1@)],
                None => !store_entries(*self).contains_key((key.0@, key.1@)),
            },
    {
        self.map.get(key)
    }

    /// `hashbrown::HashMap::insert`: stores `value` under `key`, replacing any previous value.
    #[verifier::external_body]
    pub(crate) fn insert(&mut self, key: (String, String), value: Store)
        ensures
            store_entries(*final(self)) == store_entries(*old(self)).insert((key.0@, key.1@), value),
    {
        self.map.insert(key, value);
    }

    /// `hashbrown::HashMap::remove`: takes the value stored under `key` out of the map.
    #[verifier::external_body]
    pub(crate) fn remove(&mut self, key: &(String, String)) -> (r: Option<Store>)
        ensures
            r == store_entries(*old(self)).get((key.0@, key.1@)),
            store_entries(*final(self)) == store_entries(*old(self)).remove((key.0@, key.1@)),
    {
        self.map.remove(key)
    }

    /// `hashbrown::HashMap::keys`: every key once, in the map's own (unspecified) order.
    #[verifier::external_body]
    pub(crate) fn keys(&self) -> (r: Vec<(String, String)>)
        ensures
            r@.map_values(|k: (String, String)| (k.0@, k.1@)).no_duplicates(),
            r@.map_values(|k: (String, String)| (k.0@, k.1@)).to_set() == store_entries(*self).dom(),
    {
        self.map.keys().cloned().collect()
    }
}

/// Anonymous stores, keyed by store id number.
#[verifier::external_body]
pub struct AnonymousStoreTable {
    map: hashbrown::HashMap<u64, AnonymousStore>,
}

/// What an [`AnonymousStoreTable`] holds.
pub uninterp spec fn anonymous_store_entries(t: AnonymousStoreTable) -> Map<u64, AnonymousStore>;

impl AnonymousStoreTable {
    /// `hashbrown::HashMap::new`: an empty map.
    #[verifier::external_body]
    pub(crate) fn new() -> (table: Self)
        ensures
            anonymous_store_entries(table) =~= Map::empty(),
    {
        AnonymousStoreTable { map: hashbrown::HashMap::new() }
    }

    /// `hashbrown::HashMap::len`: the number of entries.
    #[verifier::external_body]
    pub(crate) fn len(&self) -> (n: usize)
        ensures
            n as nat == anonymous_store_entries(*self).len(),
    {
        self.map.len()
    }

    /// `hashbrown::HashMap::get`: the value stored under `key`, if any.
    #[verifier::external_body]
    pub(crate) fn get(&self, key: u64) -> (r: Option<&AnonymousStore>)
        ensures
            match r {
                Some(v) => anonymous_store_entries(*self).contains_key(key) && *v == anonymous_store_entries(*self)[key],
                None => !anonymous_store_entries(*self).contains_key(key),
            },
    {
        self.map.get(&key)
    }

    /// `hashbrown::HashMap::insert`: stores `value` under `key`, replacing any previous value.
    #[verifier::external_body]
    pub(crate) fn insert(&mut self, key: u64, value: AnonymousStore)
        ensures
            anonymous_store_entries(*final(self)) == anonymous_store_entries(*old(self)).insert(key, value),
    {
        self.map.insert(key, value);
    }

    /// `hashbrown::HashMap::remove`: takes the value stored under `key` out of the map.
    #[verifier::external_body]
    pub(crate) fn remove(&mut self, key: u64) -> (r: Option<AnonymousStore>)
        ensures
            r == anonymous_store_entries(*old(self)).get(key),
            anonymous_store_entries(*final(self)) == anonymous_store_entries(*old(self)).remove(key),
    {
        self.map.remove(&key)
    }

    /// `hashbrown::HashMap::keys`: every key once, in the map's own (unspecified) order.
    #[verifier::external_body]
    pub(crate) fn keys(&self) -> (r: Vec<u64>)
        ensures
            r@.no_duplicates(),
            r@.to_set() == anonymous_store_entries(*self).dom(),
    {
        self.map.keys().copied().collect()
    }
}

impl NumberedTable for AnonymousStoreTable {
    open spec fn numbers(&self) -> Set<u64> {
        anonymous_store_entries(*self).dom()
    }

    fn holds(&self, n: u64) -> (r: bool) {
        self.get(n).is_some()
    }
}

/// Store subscriptions, keyed by (subscriber connection number, subscription id number).
#[verifier::external_body]
pub struct SubscriptionTable {
    map: hashbrown::HashMap<(u64, u64), SubscriptionData>,
}

/// What a [`SubscriptionTable`] holds.
pub uninterp spec fn subscription_entries(t: SubscriptionTable) -> Map<(u64, u64), SubscriptionData>;

impl SubscriptionTable {
    /// `hashbrown::HashMap::new`: an empty map.
    #[verifier::external_body]
    pub(crate) fn new() -> (table: Self)
        ensures
            subscription_entries(table) =~= Map::empty(),
    {
        SubscriptionTable { map: hashbrown::HashMap::new() }
    }

    /// `hashbrown::HashMap::get`: the value stored under `key`, if any.
    #[verifier::external_body]
    pub(crate) fn get(&self, key: (u64, u64)) -> (r: Option<&SubscriptionData>)
        ensures
            match r {
                Some(v) => subscription_entries(*self).contains_key(key) && *v == subscription_entries(*self)[key],
                None => !subscription_entries(*self).contains_key(key),
            },
    {
        self.map.get(&key)
    }

    /// `hashbrown::HashMap::insert`: stores `value` under `key`, replacing any previous value.
    #[verifier::external_body]
    pub(crate) fn insert(&mut self, key: (u64, u64), value: SubscriptionData)
        ensures
            subscription_entries(*final(self)) == subscription_entries(*old(self)).insert(key, value),
    {
        self.map.insert(key, value);
    }

    /// `hashbrown::HashMap::remove`: takes the value stored under `key` out of the map.
    #[verifier::external_body]
    pub(crate) fn remove(&mut self, key: (u64, u64)) -> (r: Option<SubscriptionData>)
        ensures
            r == subscription_entries(*old(self)).get(key),
            subscription_entries(*final(self)) == subscription_entries(*old(self)).remove(key),
    {
        self.map.remove(&key)
    }

    /// `hashbrown::HashMap::keys`: every key once, in the map's own (unspecified) order.
    #[verifier::external_body]
    pub(crate) fn keys(&self) -> (r: Vec<(u64, u64)>)
        ensures
            r@.no_duplicates(),
            r@.to_set() == subscription_entries(*self).dom(),
    {
        self.map.keys().copied().collect()
    }
}

/// Unanswered subscription requests, keyed by reply token number.
#[verifier::external_body]
pub struct PendingSubscriptionTable {
    map: hashbrown::HashMap<u64, PendingStoreSubscription>,
}

/// What a [`PendingSubscriptionTable`] holds.
pub uninterp spec fn pending_subscription_entries(t: PendingSubscriptionTable) -> Map<u64, PendingStoreSubscription>;

impl PendingSubscriptionTable {
    /// `hashbrown::HashMap::new`: an empty map.
    #[verifier::external_body]
    pub(crate) fn new() -> (table: Self)
        ensures
            pending_subscription_entries(table) =~= Map::empty(),
    {
        PendingSubscriptionTable { map: hashbrown::HashMap::new() }
    }

    /// `hashbrown::HashMap::len`: the number of entries.
    #[verifier::external_body]
    pub(crate) fn len(&self) -> (n: usize)
        ensures
            n as nat == pending_subscription_entries(*self).len(),
    {
        self.map.len()
    }

    /// `hashbrown::HashMap::get`: the value stored under `key`, if any.
    #[verifier::external_body]
    pub(crate) fn get(&self, key: u64) -> (r: Option<&PendingStoreSubscription>)
        ensures
            match r {
                Some(v) => pending_subscription_entries(*self).contains_key(key) && *v == pending_subscription_entries(*self)[key],
                None => !pending_subscription_entries(*self).contains_key(key),
            },
    {
        self.map.get(&key)
    }

    /// `hashbrown::HashMap::insert`: stores `value` under `key`, replacing any previous value.
    #[verifier::external_body]
    pub(crate) fn insert(&mut self, key: u64, value: PendingStoreSubscription)
        ensures
            pending_subscription_entries(*final(self)) == pending_subscription_entries(*old(self)).insert(key, value),
    {
        self.map.insert(key, value);
    }

    /// `hashbrown::HashMap::remove`: takes the value stored under `key` out of the map.
    #[verifier::external_body]
    pub(crate) fn remove(&mut self, key: u64) -> (r: Option<PendingStoreSubscription>)
        ensures
            r == pending_subscription_entries(*old(self)).get(key),
            pending_subscription_entries(*final(self)) == pending_subscription_entries(*old(self)).remove(key),
    {
        self.map.remove(&key)
    }

    /// `hashbrown::HashMap::keys`: every key once, in the map's own (unspecified) order.
    #[verifier::external_body]
    pub(crate) fn keys(&self) -> (r: Vec<u64>)
        ensures
            r@.no_duplicates(),
            r@.to_set() == pending_subscription_entries(*self).dom(),
    {
        self.map.keys().copied().collect()
    }
}

impl NumberedTable for PendingSubscriptionTable {
    open spec fn numbers(&self) -> Set<u64> {
        pending_subscription_entries(*self).dom()
    }

    fn holds(&self, n: u64) -> (r: bool) {
        self.get(n).is_some()
    }
}

} // verus!
