//! Store subscriptions of a user interface: which subscription id shows which store, and what
//! each inbox message means for them.
//!
//! Each subscription carries a sink of the caller's choosing (a channel sender, a callback
//! handle): the registry decides which sink receives which value, the caller delivers it.
use vstd::prelude::*;
use std::collections::HashMap;
use crate::protocol::{InboxMessage, SubscriptionId};
use vstd::std_specs::iter::IteratorSpec;
use crate::text::same_text;

verus! {

broadcast use vstd::std_specs::hash::group_hash_axioms;

/// One store subscription of the interface.
pub struct UiSubscription<T> {
    pub service: String,
    pub store: String,
    pub sink: T,
}

/// The interface's store subscriptions, by subscription id number.
pub struct UiSubscriptions<T> {
    map: HashMap<u64, UiSubscription<T>>,
}

/// A store value for one subscription.
pub struct Delivery {
    pub subscription_id: SubscriptionId,
    pub value: Vec<u8>,
}

/// The subscription `id` of `m` shows the store `store` of `service`.
pub open spec fn shows<T>(m: Map<u64, UiSubscription<T>>, id: u64, service: Seq<char>, store: Seq<char>) -> bool {
    m.contains_key(id) && m[id].service@ == service && m[id].store@ == store
}

/// The value `value` for subscription `id`, if that subscription shows `service`'s `store`.
pub open spec fn delivery_for<T>(
    m: Map<u64, UiSubscription<T>>,
    service: String,
    store: String,
    id: SubscriptionId,
    value: Vec<u8>,
) -> Option<Delivery> {
    if shows(m, id.0, service@, store@) {
        Some(Delivery { subscription_id: id, value })
    } else {
        None
    }
}

/// What `message` does to the subscriptions `m`: the subscriptions afterwards, and the value
/// to deliver, if any.
pub open spec fn dispatch_spec<T>(m: Map<u64, UiSubscription<T>>, message: InboxMessage) -> (Map<u64, UiSubscription<T>>, Option<Delivery>) {
    match message {
        InboxMessage::StoreSubscriptionAccepted { service, store, subscription_id, current_value, .. } =>
            (m, delivery_for(m, service, store, subscription_id, current_value)),
        InboxMessage::StoreSubscriptionUpdated { service, store, subscription_id, payload } =>
            (m, delivery_for(m, service, store, subscription_id, payload)),
        InboxMessage::StoreSubscriptionRejected { subscription_id, .. } => (m.remove(subscription_id.0), None),
        InboxMessage::StoreSubscriptionClosed { subscription_id, .. } => (m.remove(subscription_id.0), None),
        InboxMessage::ServiceClosed { service, .. } => (without_service(m, service@), None),
        _ => (m, None),
    }
}

/// `m` without the subscriptions on stores of `service`.
pub open spec fn without_service<T>(m: Map<u64, UiSubscription<T>>, service: Seq<char>) -> Map<u64, UiSubscription<T>> {
    m.restrict(m.dom().filter(|k: u64| m[k].service@ != service))
}

impl<T> UiSubscriptions<T> {
    pub closed spec fn model(&self) -> Map<u64, UiSubscription<T>> {
        self.map@
    }

    pub fn new() -> (r: Self)
        ensures
            r.model() == Map::<u64, UiSubscription<T>>::empty(),
    {
        UiSubscriptions { map: HashMap::new() }
    }

    /// Records that subscription `id` shows `service`'s `store` through `sink` (replacing any
    /// earlier subscription under that id).
    pub fn insert(&mut self, id: SubscriptionId, service: String, store: String, sink: T)
        ensures
            final(self).model() == old(self).model().insert(id.0, UiSubscription { service, store, sink }),
    {
        self.map.insert(id.0, UiSubscription { service, store, sink });
    }

    /// The subscription `id`, if there is one.
    pub fn get(&self, id: SubscriptionId) -> (r: Option<&UiSubscription<T>>)
        ensures
            match r {
                Some(s) => self.model().contains_key(id.0) && *s == self.model()[id.0],
                None => !self.model().contains_key(id.0),
            },
    {
        self.map.get(&id.0)
    }

    /// Settles subscription `id` once the module has answered the subscribe command that
    /// followed its [`Self::insert`]: kept if the module accepted it, forgotten if it refused.
    pub fn settle_subscription(&mut self, id: SubscriptionId, accepted: bool)
        ensures
            accepted ==> final(self).model() == old(self).model(),
            !accepted ==> final(self).model() == old(self).model().remove(id.0),
    {
        if !accepted {
            self.map.remove(&id.0);
        }
    }

    /// Forgets subscription `id`.
    pub fn remove_subscription(&mut self, id: SubscriptionId)
        ensures
            final(self).model() == old(self).model().remove(id.0),
    {
        self.map.remove(&id.0);
    }

    /// Forgets every subscription on a store of `service`.
    pub fn remove_service_subscriptions(&mut self, service: &str)
        ensures
            final(self).model() == without_service(old(self).model(), service@),
    {
        let mut keys: Vec<u64> = Vec::new();
        let ghost all = self.map@.dom();
        let iter = self.map.keys();
        let ghost listed = iter.remaining().unref();
        proof {
            assert(listed.to_set() == all);
        }
        for k in it: iter
            invariant
                it.seq().unref() == listed,
                keys@ == listed.take(it.index() as int),
                listed.to_set() == all,
                listed.no_duplicates(),
        {
            keys.push(*k);
            assert(it.seq().unref().take(it.index() + 1) =~= it.seq().unref().take(it.index() as int).push(*k));
        }
        let ghost original = self.map@;
        proof {
            assert(keys@ =~= listed);
        }
        let mut i: usize = 0;
        while i < keys.len()
            invariant
                i <= keys.len(),
                keys@.no_duplicates(),
                keys@.to_set() == original.dom(),
                original == old(self).model(),
                forall|n: u64| #[trigger] self.map@.contains_key(n) ==> original.contains_key(n) && self.map@[n] == original[n],
                forall|n: u64| #[trigger] original.contains_key(n) && original[n].service@ != service@ ==> self.map@.contains_key(n),
                forall|j: int| 0 <= j < i ==> !(self.map@.contains_key(#[trigger] keys@[j]) && original[keys@[j]].service@ == service@),
                forall|j: int| i <= j < keys@.len() ==> self.map@.contains_key(#[trigger] keys@[j]),
            decreases keys.len() - i,
        {
            let key = keys[i];
            assert(keys@.to_set().contains(key));
            let hit = match self.map.get(&key) {
                Some(sub) => same_text(sub.service.as_str(), service),
                None => false,
            };
            if hit {
                self.map.remove(&key);
                assert forall|j: int| i < j < keys@.len() implies self.map@.contains_key(#[trigger] keys@[j]) by {
                    assert(keys@[j] != keys@[i as int]);
                }
            }
            i = i + 1;
        }
        proof {
            assert forall|n: u64| self.map@.contains_key(n) implies original[n].service@ != service@ by {
                assert(keys@.to_set().contains(n));
                let j = keys@.index_of(n);
            }
            assert(self.map@ =~= without_service(original, service@));
        }
    }

    fn delivery(&self, service: String, store: String, id: SubscriptionId, value: Vec<u8>) -> (r: Option<Delivery>)
        ensures
            r == delivery_for(self.model(), service, store, id, value),
    {
        match self.map.get(&id.0) {
            Some(sub) => {
                if sub.service == service && sub.store == store {
                    Some(Delivery { subscription_id: id, value })
                } else {
                    None
                }
            },
            None => None,
        }
    }

    /// What `message` means for the subscriptions: a store value for a subscription that shows
    /// that very store is handed back for delivery; a rejected or closed subscription is
    /// forgotten; a closed service takes its subscriptions with it; anything else is ignored.
    pub fn dispatch_message(&mut self, message: InboxMessage) -> (r: Option<Delivery>)
        ensures
            (final(self).model(), r) == dispatch_spec(old(self).model(), message),
    {
        match message {
            InboxMessage::StoreSubscriptionAccepted { service, store, subscription_id, current_value, .. } =>
                self.delivery(service, store, subscription_id, current_value),
            InboxMessage::StoreSubscriptionUpdated { service, store, subscription_id, payload } =>
                self.delivery(service, store, subscription_id, payload),
            InboxMessage::StoreSubscriptionRejected { subscription_id, .. } => {
                self.remove_subscription(subscription_id);
                None
            },
            InboxMessage::StoreSubscriptionClosed { subscription_id, .. } => {
                self.remove_subscription(subscription_id);
                None
            },
            InboxMessage::ServiceClosed { service, .. } => {
                self.remove_service_subscriptions(service.as_str());
                None
            },
            _ => None,
        }
    }
}

} // verus!

verus! {

/// When a service closes, the interface keeps no subscription on any of its stores, and the
/// others are untouched.
pub proof fn law_service_closed_drops_its_subscriptions<T>(
    m: Map<u64, UiSubscription<T>>,
    service: String,
    reason: crate::protocol::CloseReason,
    id: u64,
)
    ensures
        ({
            let (after, delivery) = dispatch_spec(m, InboxMessage::ServiceClosed { service, reason });
            &&& delivery is None
            &&& after.contains_key(id) ==> after[id].service@ != service@
            &&& m.contains_key(id) && m[id].service@ != service@ ==> after.contains_key(id) && after[id] == m[id]
        }),
{
}

/// A store value is only ever handed to the subscription it was sent for, and only while that
/// subscription shows that very store; value messages leave the subscriptions as they are.
pub proof fn law_values_reach_their_subscription<T>(m: Map<u64, UiSubscription<T>>, message: InboxMessage)
    ensures
        ({
            let (after, delivery) = dispatch_spec(m, message);
            &&& delivery matches Some(d) ==> (match message {
                InboxMessage::StoreSubscriptionAccepted { service, store, subscription_id, current_value, .. } =>
                    d.subscription_id == subscription_id && d.value == current_value && shows(m, subscription_id.0, service@, store@),
                InboxMessage::StoreSubscriptionUpdated { service, store, subscription_id, payload } =>
                    d.subscription_id == subscription_id && d.value == payload && shows(m, subscription_id.0, service@, store@),
                _ => false,
            })
            &&& delivery is Some ==> after == m
        }),
{
}

/// A rejected or closed subscription is forgotten, and only that one.
pub proof fn law_ended_subscription_forgotten<T>(m: Map<u64, UiSubscription<T>>, message: InboxMessage)
    ensures
        message matches InboxMessage::StoreSubscriptionRejected { subscription_id, .. } ==> dispatch_spec(m, message).0 == m.remove(
            subscription_id.0,
        ),
        message matches InboxMessage::StoreSubscriptionClosed { subscription_id, .. } ==> dispatch_spec(m, message).0 == m.remove(
            subscription_id.0,
        ),
{
}


/// Subscribing is undone cleanly: a fresh subscription recorded before asking the module shows
/// its store while it stands, and forgetting it on a refusal gives back the subscriptions as
/// they were.
pub proof fn law_refused_subscription_leaves_no_trace<T>(m: Map<u64, UiSubscription<T>>, id: u64, sub: UiSubscription<T>)
    requires
        !m.contains_key(id),
    ensures
        shows(m.insert(id, sub), id, sub.service@, sub.store@),
        m.insert(id, sub).remove(id) == m,
{
    assert(m.insert(id, sub).remove(id) =~= m);
}

} // verus!
