//! Stores that services publish, the subscriptions that clients hold on them, and the
//! subscription requests that services have not answered yet.
use vstd::prelude::*;
use crate::protocol::{AnonymousStoreId, ReplyToken, SubscriptionId, TransportError};
use crate::kernel::ids::FileId;
use crate::kernel::numbering::{NumberedTable, allocate_number, allocated_number, next_number};
use crate::kernel::tables::{
    AnonymousStoreTable, PendingSubscriptionTable, StoreTable, SubscriptionTable, anonymous_store_entries,
    pending_subscription_entries, store_entries, subscription_entries,
};
use crate::text::{chars_of, concat, same_text, string_of};

verus! {

/// The longest store name, in bytes.
pub const MAX_STORE_NAME: usize = 255;

/// A character allowed in a store name: an ASCII letter or digit, `_` or `-`.
pub open spec fn is_store_name_char(c: char) -> bool {
    ('a' <= c && c <= 'z') || ('A' <= c && c <= 'Z') || ('0' <= c && c <= '9') || c == '_' || c == '-'
}

/// Why `name` is not a valid store name, if it is not one; the checks are made in this order.
pub open spec fn store_name_problem(name: Seq<char>) -> Option<Seq<char>> {
    if name.len() == 0 {
        Some("name cannot be empty"@)
    } else if vstd::utf8::encode_utf8(name).len() > MAX_STORE_NAME {
        Some("name cannot be longer than 255 characters"@)
    } else if !(forall|i: int| 0 <= i < name.len() ==> is_store_name_char(#[trigger] name[i])) {
        Some("invalid characters found: allowed chars: 'a'..'z' | 'A'..'Z' | '0'..'9' | '_' | '-'"@)
    } else {
        None
    }
}

/// A store name that passed [`StoreName::check`].
#[derive(Clone, Debug, PartialEq, Eq, Hash)]
pub struct StoreName(String);

impl View for StoreName {
    type V = Seq<char>;

    closed spec fn view(&self) -> Seq<char> {
        self.0@
    }
}

/// Why a store name was refused.
#[derive(Clone, Debug)]
pub struct InvalidStoreName {
    pub message: String,
}

impl InvalidStoreName {
    /// The error as text: `invalid store name: ` and the message.
    pub fn to_text(&self) -> (r: String)
        ensures
            r@ == "invalid store name: "@ + self.message@,
    {
        concat("invalid store name: ", self.message.as_str())
    }
}

fn refuse_store_name(message: &str) -> (r: Result<StoreName, InvalidStoreName>)
    ensures
        r matches Err(e) && e.message@ == message@,
{
    Err(InvalidStoreName { message: string_of(message) })
}

impl StoreName {
    /// Accepts `name` if it is not empty, has at most [`MAX_STORE_NAME`] bytes and only
    /// contains ASCII letters, digits, `_` and `-`; otherwise says which rule it breaks first.
    pub fn check(name: String) -> (r: Result<StoreName, InvalidStoreName>)
        ensures
            match store_name_problem(name@) {
                Some(message) => r matches Err(e) && e.message@ == message,
                None => r matches Ok(n) && n@ == name@,
            },
    {
        if name.as_str().is_empty() {
            return refuse_store_name("name cannot be empty");
        }
        if crate::text::byte_len_exceeds(name.as_str(), MAX_STORE_NAME) {
            return refuse_store_name("name cannot be longer than 255 characters");
        }
        let chars = chars_of(name.as_str());
        let mut k: usize = 0;
        while k < chars.len()
            invariant
                chars@ == name@,
                k <= chars.len(),
                name@.len() > 0,
                vstd::utf8::encode_utf8(name@).len() <= MAX_STORE_NAME,
                forall|j: int| 0 <= j < k ==> is_store_name_char(#[trigger] chars@[j]),
            decreases chars.len() - k,
        {
            let c = chars[k];
            if !(('a' <= c && c <= 'z') || ('A' <= c && c <= 'Z') || ('0' <= c && c <= '9') || c == '_' || c == '-') {
                assert(!is_store_name_char(name@[k as int]));
                return refuse_store_name(
                    "invalid characters found: allowed chars: 'a'..'z' | 'A'..'Z' | '0'..'9' | '_' | '-'",
                );
            }
            k = k + 1;
        }
        Ok(StoreName(name))
    }

    /// The name as a shared string.
    pub fn as_shared(&self) -> (r: &String)
        ensures
            r@ == self@,
    {
        &self.0
    }

    /// The name as text.
    pub fn as_str(&self) -> (r: &str)
        ensures
            r@ == self@,
    {
        self.0.as_str()
    }

    fn duplicate(&self) -> (r: StoreName)
        ensures
            r@ == self@,
    {
        StoreName(self.0.clone())
    }
}

/// A named store: the service that owns it and the store's name within that service.
#[derive(Clone, Debug, PartialEq, Eq, Hash)]
pub struct StorePath {
    pub service: String,
    pub store: StoreName,
}

impl View for StorePath {
    type V = (Seq<char>, Seq<char>);

    open spec fn view(&self) -> (Seq<char>, Seq<char>) {
        (self.service@, self.store@)
    }
}

impl StorePath {
    pub fn new(service: String, store: StoreName) -> (r: StorePath)
        ensures
            r.service == service,
            r.store == store,
    {
        StorePath { service, store }
    }

    fn duplicate(&self) -> (r: StorePath)
        ensures
            r@ == self@,
    {
        StorePath { service: self.service.clone(), store: self.store.duplicate() }
    }

    /// The key under which the store map keeps this path.
    fn key(&self) -> (k: (String, String))
        ensures
            (k.0@, k.1@) == self@,
    {
        (self.service.clone(), self.store.0.clone())
    }
}

/// A copy of `v`.
pub(crate) fn copy_bytes(v: &Vec<u8>) -> (r: Vec<u8>)
    ensures
        r@ == v@,
{
    let mut r: Vec<u8> = Vec::new();
    let mut k: usize = 0;
    while k < v.len()
        invariant
            k <= v.len(),
            r@ == v@.take(k as int),
        decreases v.len() - k,
    {
        r.push(v[k]);
        assert(v@.take(k + 1) =~= v@.take(k as int).push(v@[k as int]));
        k = k + 1;
    }
    assert(v@.take(v.len() as int) =~= v@);
    r
}

/// Registering a store under a path that is already taken.
#[derive(Clone, Copy, Debug, PartialEq, Eq, Structural)]
pub struct StoreAlreadyExists;

impl StoreAlreadyExists {
    /// The error as text.
    pub fn to_text(&self) -> (r: String)
        ensures
            r@ == "store already exists"@,
    {
        string_of("store already exists")
    }
}

/// The mathematical value of a [`Store`].
pub struct StoreView {
    pub path: (Seq<char>, Seq<char>),
    pub value: Seq<u8>,
    pub public: bool,
    pub timestamp: isize,
}

/// A named store and its current value.
#[derive(Debug)]
pub struct Store {
    path: StorePath,
    current_value: Vec<u8>,
    public: bool,
    last_updated_timestamp: isize,
}

impl View for Store {
    type V = StoreView;

    closed spec fn view(&self) -> StoreView {
        StoreView {
            path: self.path@,
            value: self.current_value@,
            public: self.public,
            timestamp: self.last_updated_timestamp,
        }
    }
}

impl Store {
    pub fn path(&self) -> (r: &StorePath)
        ensures
            r@ == self@.path,
    {
        &self.path
    }

    pub fn is_public(&self) -> (r: bool)
        ensures
            r == self@.public,
    {
        self.public
    }

    /// The store's path, value and timestamp, copied out.
    pub fn snapshot(&self) -> (s: StoreSnapshot)
        ensures
            s.path@ == self@.path,
            s.current_value@ == self@.value,
            s.last_updated_timestamp == self@.timestamp,
    {
        StoreSnapshot {
            path: self.path.duplicate(),
            current_value: copy_bytes(&self.current_value),
            last_updated_timestamp: self.last_updated_timestamp,
        }
    }
}

/// A copy of a named store's state at one moment.
#[derive(Clone, Debug)]
pub struct StoreSnapshot {
    pub path: StorePath,
    pub current_value: Vec<u8>,
    pub last_updated_timestamp: isize,
}

/// The mathematical value of an [`AnonymousStore`].
pub struct AnonymousStoreView {
    pub id: u64,
    pub service: Seq<char>,
    pub owner: FileId,
    pub value: Seq<u8>,
    pub timestamp: isize,
    pub pending: usize,
    pub accepted: usize,
    pub ever_subscribed: bool,
}

/// A store without a name, created by a service for one exchange and known by its id.
#[derive(Debug)]
pub struct AnonymousStore {
    id: AnonymousStoreId,
    service: String,
    owner_file_id: FileId,
    current_value: Vec<u8>,
    last_updated_timestamp: isize,
    pending_count: usize,
    accepted_subscription_count: usize,
    has_ever_had_subscription: bool,
}

impl View for AnonymousStore {
    type V = AnonymousStoreView;

    closed spec fn view(&self) -> AnonymousStoreView {
        AnonymousStoreView {
            id: self.id.0,
            service: self.service@,
            owner: self.owner_file_id,
            value: self.current_value@,
            timestamp: self.last_updated_timestamp,
            pending: self.pending_count,
            accepted: self.accepted_subscription_count,
            ever_subscribed: self.has_ever_had_subscription,
        }
    }
}

impl AnonymousStore {
    pub fn id(&self) -> (r: AnonymousStoreId)
        ensures
            r.0 == self@.id,
    {
        self.id
    }

    pub fn service(&self) -> (r: &String)
        ensures
            r@ == self@.service,
    {
        &self.service
    }

    pub fn owner_file_id(&self) -> (r: FileId)
        ensures
            r == self@.owner,
    {
        self.owner_file_id
    }

    /// The store's id, value and timestamp, copied out.
    pub fn snapshot(&self) -> (s: AnonymousStoreSnapshot)
        ensures
            s.id.0 == self@.id,
            s.current_value@ == self@.value,
            s.last_updated_timestamp == self@.timestamp,
    {
        AnonymousStoreSnapshot {
            id: self.id,
            current_value: copy_bytes(&self.current_value),
            last_updated_timestamp: self.last_updated_timestamp,
        }
    }
}

/// A copy of an anonymous store's state at one moment.
#[derive(Clone, Debug)]
pub struct AnonymousStoreSnapshot {
    pub id: AnonymousStoreId,
    pub current_value: Vec<u8>,
    pub last_updated_timestamp: isize,
}

/// The timestamp handed out after `t`: timestamps run through `1..=isize::MAX` and then start
/// over at 1.
pub open spec fn timestamp_after(t: isize) -> isize {
    if t == isize::MAX { 1 } else { (t + 1) as isize }
}

/// `n + 1`, or `n` if that does not fit.
pub open spec fn saturating_inc(n: usize) -> usize {
    if n == usize::MAX { n } else { (n + 1) as usize }
}

/// `n - 1`, or 0 if `n` is 0.
pub open spec fn saturating_dec(n: usize) -> usize {
    if n == 0 { 0 } else { (n - 1) as usize }
}

/// An anonymous store that has had a subscription and has none left, pending or accepted, is
/// no longer needed.
pub open spec fn is_unused(s: AnonymousStoreView) -> bool {
    s.ever_subscribed && s.pending == 0 && s.accepted == 0
}

/// The anonymous stores after store `id` was looked at: dropped if it is unused.
pub open spec fn settle(stores: Map<u64, AnonymousStoreView>, id: u64) -> Map<u64, AnonymousStoreView> {
    if stores.contains_key(id) && is_unused(stores[id]) { stores.remove(id) } else { stores }
}

/// A change to the subscription counters of an anonymous store.
pub enum CounterChange {
    /// A subscription request arrived.
    AddPending,
    /// A subscription request went away unanswered.
    DropPending,
    /// A subscription was accepted without a request on record.
    AddAccepted,
    /// A pending subscription request was accepted.
    AcceptPending,
    /// An accepted subscription ended.
    DropAccepted,
}

/// The store `s` after `change`.
pub open spec fn apply_change(s: AnonymousStoreView, change: CounterChange) -> AnonymousStoreView {
    match change {
        CounterChange::AddPending => AnonymousStoreView { pending: saturating_inc(s.pending), ..s },
        CounterChange::DropPending => AnonymousStoreView { pending: saturating_dec(s.pending), ..s },
        CounterChange::AddAccepted => AnonymousStoreView { accepted: saturating_inc(s.accepted), ever_subscribed: true, ..s },
        CounterChange::AcceptPending => AnonymousStoreView {
            pending: saturating_dec(s.pending),
            accepted: saturating_inc(s.accepted),
            ever_subscribed: true,
            ..s
        },
        CounterChange::DropAccepted => AnonymousStoreView { accepted: saturating_dec(s.accepted), ..s },
    }
}

/// `stores` with `change` made to store `id`, if it is there.
pub open spec fn changed(stores: Map<u64, AnonymousStoreView>, id: u64, change: CounterChange) -> Map<u64, AnonymousStoreView> {
    if stores.contains_key(id) { stores.insert(id, apply_change(stores[id], change)) } else { stores }
}

/// The mathematical value of a [`StoreMap`].
pub struct StoreMapModel {
    /// Named stores by (service, store name).
    pub stores: Map<(Seq<char>, Seq<char>), StoreView>,
    /// Anonymous stores by id number.
    pub anonymous: Map<u64, AnonymousStoreView>,
    /// Where the next id allocation starts.
    pub next_anonymous_id: u64,
    /// The timestamp of the next change.
    pub next_timestamp: isize,
    /// The timestamp counter has run past `isize::MAX` and started over.
    pub wrapped: bool,
}

/// `m` with its next timestamp used up.
pub open spec fn stamped(m: StoreMapModel) -> StoreMapModel {
    StoreMapModel {
        next_timestamp: timestamp_after(m.next_timestamp),
        wrapped: m.wrapped || m.next_timestamp == isize::MAX,
        ..m
    }
}

/// Until the timestamp counter starts over, every store was stamped before the next
/// timestamp.
pub open spec fn stamps_are_older(m: StoreMapModel) -> bool {
    !m.wrapped ==> {
        &&& forall|k: (Seq<char>, Seq<char>)| #[trigger] m.stores.contains_key(k) ==> m.stores[k].timestamp < m.next_timestamp
        &&& forall|id: u64| #[trigger] m.anonymous.contains_key(id) ==> m.anonymous[id].timestamp < m.next_timestamp
    }
}

/// `m` after a new named store is registered at `path` with `value`, stamped with the next
/// timestamp.
pub open spec fn registered(m: StoreMapModel, path: (Seq<char>, Seq<char>), value: Seq<u8>, public: bool) -> StoreMapModel {
    StoreMapModel {
        stores: m.stores.insert(path, StoreView { path, value, public, timestamp: m.next_timestamp }),
        ..stamped(m)
    }
}

/// `m` after the named store at `path`, if there is one, gets `value`, stamped with the next
/// timestamp; the timestamp is used up either way.
pub open spec fn updated(m: StoreMapModel, path: (Seq<char>, Seq<char>), value: Seq<u8>) -> StoreMapModel {
    StoreMapModel {
        stores: if m.stores.contains_key(path) {
            m.stores.insert(path, StoreView { value, timestamp: m.next_timestamp, ..m.stores[path] })
        } else {
            m.stores
        },
        ..stamped(m)
    }
}

/// `m` after the anonymous store `id`, if there is one, gets `value`, stamped with the next
/// timestamp; the timestamp is used up either way.
pub open spec fn updated_anonymous(m: StoreMapModel, id: u64, value: Seq<u8>) -> StoreMapModel {
    StoreMapModel {
        anonymous: if m.anonymous.contains_key(id) {
            m.anonymous.insert(id, AnonymousStoreView { value, timestamp: m.next_timestamp, ..m.anonymous[id] })
        } else {
            m.anonymous
        },
        ..stamped(m)
    }
}

/// `m` after an anonymous store with id `id` is created for `service`, owned by `owner`, with
/// `value`, stamped with the next timestamp.
pub open spec fn created_anonymous(m: StoreMapModel, id: u64, service: Seq<char>, owner: FileId, value: Seq<u8>) -> StoreMapModel {
    StoreMapModel {
        anonymous: m.anonymous.insert(id, AnonymousStoreView {
            id,
            service,
            owner,
            value,
            timestamp: m.next_timestamp,
            pending: 0,
            accepted: 0,
            ever_subscribed: false,
        }),
        next_anonymous_id: next_number(id),
        ..stamped(m)
    }
}

/// All stores known to the module, named and anonymous.
pub struct StoreMap {
    stores: StoreTable,
    anonymous_stores: AnonymousStoreTable,
    next_anonymous_store_id: u64,
    next_timestamp: isize,
    wrapped: Ghost<bool>,
}

impl StoreMap {
    pub closed spec fn model(&self) -> StoreMapModel {
        StoreMapModel {
            stores: store_entries(self.stores).map_values(|s: Store| s@),
            anonymous: anonymous_store_entries(self.anonymous_stores).map_values(|s: AnonymousStore| s@),
            next_anonymous_id: self.next_anonymous_store_id,
            next_timestamp: self.next_timestamp,
            wrapped: self.wrapped@,
        }
    }

    /// Every store sits under its own path or id, id 0 is never used, the next timestamp is
    /// positive, and until the counter starts over every store was stamped before it.
    pub closed spec fn wf(&self) -> bool {
        &&& store_entries(self.stores).dom().finite()
        &&& forall|k: (Seq<char>, Seq<char>)| #[trigger] store_entries(self.stores).contains_key(k) ==> store_entries(self.stores)[k]@.path == k
        &&& anonymous_store_entries(self.anonymous_stores).dom().finite()
        &&& !anonymous_store_entries(self.anonymous_stores).contains_key(0)
        &&& forall|k: u64| #[trigger] anonymous_store_entries(self.anonymous_stores).contains_key(k) ==> anonymous_store_entries(self.anonymous_stores)[k]@.id == k
        &&& self.next_anonymous_store_id != 0
        &&& self.next_timestamp >= 1
        &&& !self.wrapped@ ==> {
            &&& forall|k: (Seq<char>, Seq<char>)| #[trigger] store_entries(self.stores).contains_key(k)
                ==> store_entries(self.stores)[k]@.timestamp < self.next_timestamp
            &&& forall|k: u64| #[trigger] anonymous_store_entries(self.anonymous_stores).contains_key(k)
                ==> anonymous_store_entries(self.anonymous_stores)[k]@.timestamp < self.next_timestamp
        }
    }

    /// What the invariant says, in terms of the model.
    pub proof fn lemma_wf(&self)
        requires
            self.wf(),
        ensures
            self.model().stores.dom().finite(),
            self.model().anonymous.dom().finite(),
            !self.model().anonymous.contains_key(0),
            self.model().next_anonymous_id != 0,
            self.model().next_timestamp >= 1,
            forall|k: (Seq<char>, Seq<char>)| #[trigger] self.model().stores.contains_key(k) ==> self.model().stores[k].path == k,
            forall|k: u64| #[trigger] self.model().anonymous.contains_key(k) ==> self.model().anonymous[k].id == k,
            stamps_are_older(self.model()),
    {
        assert(self.model().stores.dom() =~= store_entries(self.stores).dom());
        assert(self.model().anonymous.dom() =~= anonymous_store_entries(self.anonymous_stores).dom());
    }

    /// No stores; the first anonymous id is 1 and so is the first timestamp.
    pub fn new() -> (s: Self)
        ensures
            s.wf(),
            s.model().stores == Map::<(Seq<char>, Seq<char>), StoreView>::empty(),
            s.model().anonymous == Map::<u64, AnonymousStoreView>::empty(),
            s.model().next_anonymous_id == 1,
            s.model().next_timestamp == 1,
            !s.model().wrapped,
    {
        let s = StoreMap {
            stores: StoreTable::new(),
            anonymous_stores: AnonymousStoreTable::new(),
            next_anonymous_store_id: 1,
            next_timestamp: 1,
            wrapped: Ghost(false),
        };
        assert(s.model().stores =~= Map::<(Seq<char>, Seq<char>), StoreView>::empty());
        assert(s.model().anonymous =~= Map::<u64, AnonymousStoreView>::empty());
        s
    }

    /// The number of anonymous stores.
    pub fn anonymous_count(&self) -> (n: usize)
        requires
            self.wf(),
        ensures
            n == self.model().anonymous.len(),
    {
        assert(self.model().anonymous.dom() =~= anonymous_store_entries(self.anonymous_stores).dom());
        self.anonymous_stores.len()
    }

    fn allocate_timestamp(&mut self) -> (t: isize)
        requires
            old(self).wf(),
        ensures
            final(self).wf(),
            t == old(self).model().next_timestamp,
            final(self).model() == stamped(old(self).model()),
            !final(self).model().wrapped ==> t < final(self).model().next_timestamp,
    {
        let timestamp = self.next_timestamp;
        proof {
            self.wrapped@ = self.wrapped@ || timestamp == isize::MAX;
        }
        self.next_timestamp = self.next_timestamp.wrapping_add(1);
        if self.next_timestamp <= 0 {
            self.next_timestamp = 1;
        }
        timestamp
    }

    /// Registers a new named store with `initial_value`, stamped with the next timestamp, and
    /// returns its snapshot; refused, with nothing changed, if the path is taken.
    pub fn try_register(&mut self, path: StorePath, initial_value: Vec<u8>, public: bool) -> (r: Result<StoreSnapshot, StoreAlreadyExists>)
        requires
            old(self).wf(),
        ensures
            final(self).wf(),
            if old(self).model().stores.contains_key(path@) {
                &&& r == Err::<StoreSnapshot, StoreAlreadyExists>(StoreAlreadyExists)
                &&& final(self).model() == old(self).model()
            } else {
                let t = old(self).model().next_timestamp;
                &&& r matches Ok(snap) && snap.path@ == path@ && snap.current_value@ == initial_value@ && snap.last_updated_timestamp == t
                &&& final(self).model() == registered(old(self).model(), path@, initial_value@, public)
            },
    {
        let key = path.key();
        if self.stores.get(&key).is_some() {
            return Err(StoreAlreadyExists);
        }
        let last_updated_timestamp = self.allocate_timestamp();
        let store = Store { path, current_value: initial_value, public, last_updated_timestamp };
        let snapshot = store.snapshot();
        let ghost before = store_entries(self.stores);
        self.stores.insert(key, store);
        proof {
            assert(self.model().stores =~= old(self).model().stores.insert(path@, store@));
        }
        Ok(snapshot)
    }

    /// Sets the value of the named store at `path` and stamps it with the next timestamp; the
    /// timestamp is used up even when there is no such store.
    pub fn update(&mut self, path: &StorePath, value: Vec<u8>) -> (r: Option<StoreSnapshot>)
        requires
            old(self).wf(),
        ensures
            final(self).wf(),
            ({
                let m = old(self).model();
                let t = m.next_timestamp;
                &&& final(self).model() == updated(m, path@, value@)
                &&& if m.stores.contains_key(path@) {
                    r matches Some(snap) && snap.path@ == path@ && snap.current_value@ == value@ && snap.last_updated_timestamp == t
                } else {
                    r is None
                }
            }),
    {
        let last_updated_timestamp = self.allocate_timestamp();
        let key = path.key();
        let mut store = match self.stores.remove(&key) {
            Some(store) => store,
            None => {
                proof {
                    assert(self.model().stores =~= old(self).model().stores);
                }
                return None;
            },
        };
        store.current_value = value;
        store.last_updated_timestamp = last_updated_timestamp;
        let snapshot = store.snapshot();
        self.stores.insert(key, store);
        proof {
            let m = old(self).model();
            assert(self.model().stores =~= m.stores.insert(path@, StoreView { value: value@, timestamp: last_updated_timestamp, ..m.stores[path@] }));
        }
        Some(snapshot)
    }

    /// Creates an anonymous store for `service`, owned by the connection `owner_file_id`, with
    /// the first free id from the id cursor on and the next timestamp.
    pub fn create_anonymous(&mut self, service: String, owner_file_id: FileId, initial_value: Vec<u8>) -> (snap: AnonymousStoreSnapshot)
        requires
            old(self).wf(),
            old(self).model().anonymous.len() < u64::MAX,
        ensures
            final(self).wf(),
            ({
                let m = old(self).model();
                let t = m.next_timestamp;
                &&& snap.id.0 != 0
                &&& allocated_number(m.next_anonymous_id, m.anonymous.dom(), snap.id.0)
                &&& snap.current_value@ == initial_value@
                &&& snap.last_updated_timestamp == t
                &&& final(self).model() == created_anonymous(m, snap.id.0, service@, owner_file_id, initial_value@)
            }),
    {
        proof {
            self.lemma_wf();
            assert(self.model().anonymous.dom() =~= anonymous_store_entries(self.anonymous_stores).dom());
        }
        let id = AnonymousStoreId(allocate_number(&mut self.next_anonymous_store_id, &self.anonymous_stores));
        let last_updated_timestamp = self.allocate_timestamp();
        let store = AnonymousStore {
            id,
            service,
            owner_file_id,
            current_value: initial_value,
            last_updated_timestamp,
            pending_count: 0,
            accepted_subscription_count: 0,
            has_ever_had_subscription: false,
        };
        let snapshot = store.snapshot();
        self.anonymous_stores.insert(id.0, store);
        proof {
            assert(self.model().anonymous =~= old(self).model().anonymous.insert(id.0, store@));
        }
        snapshot
    }

    /// Sets the value of anonymous store `id` and stamps it with the next timestamp; the
    /// timestamp is used up even when there is no such store.
    pub fn update_anonymous(&mut self, id: AnonymousStoreId, value: Vec<u8>) -> (r: Option<AnonymousStoreSnapshot>)
        requires
            old(self).wf(),
        ensures
            final(self).wf(),
            ({
                let m = old(self).model();
                let t = m.next_timestamp;
                &&& final(self).model() == updated_anonymous(m, id.0, value@)
                &&& if m.anonymous.contains_key(id.0) {
                    r matches Some(snap) && snap.id == id && snap.current_value@ == value@ && snap.last_updated_timestamp == t
                } else {
                    r is None
                }
            }),
    {
        let last_updated_timestamp = self.allocate_timestamp();
        let mut store = match self.anonymous_stores.remove(id.0) {
            Some(store) => store,
            None => {
                proof {
                    assert(self.model().anonymous =~= old(self).model().anonymous);
                }
                return None;
            },
        };
        store.current_value = value;
        store.last_updated_timestamp = last_updated_timestamp;
        let snapshot = store.snapshot();
        self.anonymous_stores.insert(id.0, store);
        proof {
            let m = old(self).model();
            assert(self.model().anonymous =~= m.anonymous.insert(id.0, AnonymousStoreView { value: value@, timestamp: last_updated_timestamp, ..m.anonymous[id.0] }));
        }
        Some(snapshot)
    }

    /// The named store at `path`, if there is one.
    pub fn get(&self, path: &StorePath) -> (r: Option<&Store>)
        requires
            self.wf(),
        ensures
            match r {
                Some(store) => self.model().stores.contains_key(path@) && store@ == self.model().stores[path@],
                None => !self.model().stores.contains_key(path@),
            },
    {
        let key = path.key();
        self.stores.get(&key)
    }

    /// The anonymous store `id`, if there is one.
    pub fn get_anonymous(&self, id: AnonymousStoreId) -> (r: Option<&AnonymousStore>)
        requires
            self.wf(),
        ensures
            match r {
                Some(store) => self.model().anonymous.contains_key(id.0) && store@ == self.model().anonymous[id.0],
                None => !self.model().anonymous.contains_key(id.0),
            },
    {
        self.anonymous_stores.get(id.0)
    }

    /// Drops every named store of `service` and returns their paths (in no particular order).
    pub fn remove_service(&mut self, service: &str) -> (removed: Vec<StorePath>)
        requires
            old(self).wf(),
        ensures
            final(self).wf(),
            ({
                let m = old(self).model();
                &&& final(self).model() == (StoreMapModel {
                    stores: m.stores.restrict(m.stores.dom().filter(|k: (Seq<char>, Seq<char>)| k.0 != service@)),
                    ..m
                })
                &&& paths_of(removed@).no_duplicates()
                &&& paths_of(removed@).to_set() == m.stores.dom().filter(|k: (Seq<char>, Seq<char>)| k.0 == service@)
            }),
    {
        let keys = self.stores.keys();
        let ghost names = keys@.map_values(|k: (String, String)| (k.0@, k.1@));
        let ghost original = store_entries(self.stores);
        let mut removed: Vec<StorePath> = Vec::new();
        let mut k: usize = 0;
        while k < keys.len()
            invariant
                k <= keys.len(),
                self.wf(),
                self.anonymous_stores == old(self).anonymous_stores,
                self.next_anonymous_store_id == old(self).next_anonymous_store_id,
                self.next_timestamp == old(self).next_timestamp,
                self.wrapped == old(self).wrapped,
                original == store_entries(old(self).stores),
                names == keys@.map_values(|k: (String, String)| (k.0@, k.1@)),
                names.no_duplicates(),
                names.to_set() == original.dom(),
                forall|n: (Seq<char>, Seq<char>)| #[trigger] store_entries(self.stores).contains_key(n) ==> original.contains_key(n)
                    && store_entries(self.stores)[n] == original[n],
                forall|n: (Seq<char>, Seq<char>)|
                    #[trigger] original.contains_key(n) && n.0 != service@ ==> store_entries(self.stores).contains_key(n),
                forall|j: int| 0 <= j < k ==> !(store_entries(self.stores).contains_key(#[trigger] names[j]) && names[j].0 == service@),
                forall|j: int| k <= j < names.len() ==> store_entries(self.stores).contains_key(#[trigger] names[j]),
                paths_of(removed@).no_duplicates(),
                forall|n: (Seq<char>, Seq<char>)|
                    #[trigger] paths_of(removed@).contains(n) <==> (names.take(k as int).contains(n) && n.0 == service@),
            decreases keys.len() - k,
        {
            proof {
                assert(names[k as int] == (keys@[k as int].0@, keys@[k as int].1@));
            }
            let ghost n = names[k as int];
            let ghost before = removed@;
            let owned = same_text(keys[k].0.as_str(), service);
            if owned {
                let store = self.stores.remove(&keys[k]).unwrap();
                removed.push(store.path);
                proof {
                    assert forall|j: int| k < j < names.len() implies store_entries(self.stores).contains_key(#[trigger] names[j]) by {
                        assert(names[j] != names[k as int]);
                    }
                    assert(!paths_of(before).contains(n)) by {
                        if paths_of(before).contains(n) {
                            let j = names.take(k as int).index_of(n);
                            assert(names[j] == names[k as int]);
                        }
                    }
                }
            }
            proof {
                assert(names.take(k + 1) =~= names.take(k as int).push(n));
                let now = paths_of(removed@);
                let was = paths_of(before);
                if owned {
                    assert(now =~= was.push(n));
                } else {
                    assert(now =~= was);
                }
                assert forall|x: (Seq<char>, Seq<char>)| now.contains(x) <==> (names.take(k + 1).contains(x) && x.0 == service@) by {
                    if x == n {
                        if owned {
                            assert(now[now.len() - 1] == n);
                        } else if was.contains(n) {
                            let j = names.take(k as int).index_of(n);
                            assert(names[j] == names[k as int]);
                        }
                        assert(names.take(k + 1)[k as int] == n);
                    } else {
                        if now.contains(x) {
                            let i = now.index_of(x);
                            if owned {
                                assert(was[i] == x);
                            }
                        }
                        if names.take(k + 1).contains(x) {
                            let i = names.take(k + 1).index_of(x);
                            assert(names.take(k as int)[i] == x);
                        }
                        if was.contains(x) {
                            let i = was.index_of(x);
                            assert(now[i] == x);
                            let j = names.take(k as int).index_of(x);
                            assert(names.take(k + 1)[j] == x);
                        }
                    }
                }
            }
            k = k + 1;
        }
        proof {
            let m = old(self).model();
            assert(names.take(keys.len() as int) =~= names);
            assert(store_entries(self.stores) =~= original.restrict(original.dom().filter(|x: (Seq<char>, Seq<char>)| x.0 != service@))) by {
                assert forall|x: (Seq<char>, Seq<char>)| store_entries(self.stores).contains_key(x) implies x.0 != service@ by {
                    assert(names.to_set().contains(x));
                    let j = names.index_of(x);
                }
            }
            assert(self.model().stores =~= m.stores.restrict(m.stores.dom().filter(|x: (Seq<char>, Seq<char>)| x.0 != service@)));
            assert forall|x: (Seq<char>, Seq<char>)| paths_of(removed@).to_set().contains(x) <==> m.stores.dom().filter(
                |y: (Seq<char>, Seq<char>)| y.0 == service@,
            ).contains(x) by {
                if original.contains_key(x) {
                    assert(names.to_set().contains(x));
                }
                if names.contains(x) {
                    let j = names.index_of(x);
                    assert(names.to_set().contains(names[j]));
                }
            }
            assert(paths_of(removed@).to_set() =~= m.stores.dom().filter(|y: (Seq<char>, Seq<char>)| y.0 == service@));
        }
        removed
    }

    /// Drops every anonymous store of `service` and returns their ids (in no particular order).
    pub fn remove_anonymous_service(&mut self, service: &str) -> (removed: Vec<AnonymousStoreId>)
        requires
            old(self).wf(),
        ensures
            final(self).wf(),
            ({
                let m = old(self).model();
                &&& final(self).model() == (StoreMapModel {
                    anonymous: m.anonymous.restrict(m.anonymous.dom().filter(|k: u64| m.anonymous[k].service != service@)),
                    ..m
                })
                &&& ids_of(removed@).no_duplicates()
                &&& ids_of(removed@).to_set() == m.anonymous.dom().filter(|k: u64| m.anonymous[k].service == service@)
            }),
    {
        let keys = self.anonymous_stores.keys();
        let ghost original = anonymous_store_entries(self.anonymous_stores);
        let mut removed: Vec<AnonymousStoreId> = Vec::new();
        let mut k: usize = 0;
        while k < keys.len()
            invariant
                k <= keys.len(),
                self.wf(),
                self.stores == old(self).stores,
                self.next_anonymous_store_id == old(self).next_anonymous_store_id,
                self.next_timestamp == old(self).next_timestamp,
                self.wrapped == old(self).wrapped,
                original == anonymous_store_entries(old(self).anonymous_stores),
                keys@.no_duplicates(),
                keys@.to_set() == original.dom(),
                forall|n: u64| #[trigger] anonymous_store_entries(self.anonymous_stores).contains_key(n) ==> original.contains_key(n)
                    && anonymous_store_entries(self.anonymous_stores)[n] == original[n],
                forall|n: u64|
                    #[trigger] original.contains_key(n) && original[n]@.service != service@ ==> anonymous_store_entries(self.anonymous_stores).contains_key(n),
                forall|j: int| 0 <= j < k ==> !(anonymous_store_entries(self.anonymous_stores).contains_key(#[trigger] keys@[j])
                    && original[keys@[j]]@.service == service@),
                forall|j: int| k <= j < keys@.len() ==> anonymous_store_entries(self.anonymous_stores).contains_key(#[trigger] keys@[j]),
                ids_of(removed@).no_duplicates(),
                forall|n: u64|
                    #[trigger] ids_of(removed@).contains(n) <==> (keys@.take(k as int).contains(n) && original.contains_key(n)
                        && original[n]@.service == service@),
            decreases keys.len() - k,
        {
            let ghost n = keys@[k as int];
            let ghost before = removed@;
            let owned = match self.anonymous_stores.get(keys[k]) {
                Some(store) => same_text(store.service.as_str(), service),
                None => false,
            };
            assert(owned == (original[n]@.service == service@));
            if owned {
                self.anonymous_stores.remove(keys[k]);
                removed.push(AnonymousStoreId(keys[k]));
                proof {
                    assert forall|j: int| k < j < keys@.len() implies anonymous_store_entries(self.anonymous_stores).contains_key(#[trigger] keys@[j]) by {
                        assert(keys@[j] != keys@[k as int]);
                    }
                    assert(!ids_of(before).contains(n)) by {
                        if ids_of(before).contains(n) {
                            let j = keys@.take(k as int).index_of(n);
                            assert(keys@[j] == keys@[k as int]);
                        }
                    }
                }
            }
            proof {
                assert(keys@.take(k + 1) =~= keys@.take(k as int).push(n));
                assert(keys@.to_set().contains(n));
                let now = ids_of(removed@);
                let was = ids_of(before);
                if owned {
                    assert(now =~= was.push(n));
                } else {
                    assert(now =~= was);
                }
                assert forall|x: u64| now.contains(x) <==> (keys@.take(k + 1).contains(x) && original.contains_key(x)
                    && original[x]@.service == service@) by {
                    if x == n {
                        if owned {
                            assert(now[now.len() - 1] == n);
                        } else if was.contains(n) {
                            let j = keys@.take(k as int).index_of(n);
                            assert(keys@[j] == keys@[k as int]);
                        }
                        assert(keys@.take(k + 1)[k as int] == n);
                    } else {
                        if now.contains(x) {
                            let i = now.index_of(x);
                            if owned {
                                assert(was[i] == x);
                            }
                        }
                        if keys@.take(k + 1).contains(x) {
                            let i = keys@.take(k + 1).index_of(x);
                            assert(keys@.take(k as int)[i] == x);
                        }
                        if was.contains(x) {
                            let i = was.index_of(x);
                            assert(now[i] == x);
                            let j = keys@.take(k as int).index_of(x);
                            assert(keys@.take(k + 1)[j] == x);
                        }
                    }
                }
            }
            k = k + 1;
        }
        proof {
            let m = old(self).model();
            assert(keys@.take(keys.len() as int) =~= keys@);
            assert(anonymous_store_entries(self.anonymous_stores) =~= original.restrict(
                original.dom().filter(|x: u64| original[x]@.service != service@),
            )) by {
                assert forall|x: u64| anonymous_store_entries(self.anonymous_stores).contains_key(x) implies original[x]@.service != service@ by {
                    assert(keys@.to_set().contains(x));
                    let j = keys@.index_of(x);
                }
            }
            assert(self.model().anonymous =~= m.anonymous.restrict(m.anonymous.dom().filter(|x: u64| m.anonymous[x].service != service@)));
            assert forall|x: u64| ids_of(removed@).to_set().contains(x) <==> m.anonymous.dom().filter(
                |y: u64| m.anonymous[y].service == service@,
            ).contains(x) by {
                if original.contains_key(x) {
                    assert(keys@.to_set().contains(x));
                }
            }
            assert(ids_of(removed@).to_set() =~= m.anonymous.dom().filter(|y: u64| m.anonymous[y].service == service@));
        }
        removed
    }

    fn change_counters(&mut self, id: AnonymousStoreId, change: CounterChange) -> (found: bool)
        requires
            old(self).wf(),
        ensures
            final(self).wf(),
            found == old(self).model().anonymous.contains_key(id.0),
            final(self).model() == (StoreMapModel { anonymous: changed(old(self).model().anonymous, id.0, change), ..old(self).model() }),
    {
        let mut store = match self.anonymous_stores.remove(id.0) {
            Some(store) => store,
            None => {
                proof {
                    assert(self.model().anonymous =~= old(self).model().anonymous);
                }
                return false;
            },
        };
        match change {
            CounterChange::AddPending => {
                store.pending_count = store.pending_count.saturating_add(1);
            },
            CounterChange::DropPending => {
                store.pending_count = store.pending_count.saturating_sub(1);
            },
            CounterChange::AddAccepted => {
                store.accepted_subscription_count = store.accepted_subscription_count.saturating_add(1);
                store.has_ever_had_subscription = true;
            },
            CounterChange::AcceptPending => {
                store.pending_count = store.pending_count.saturating_sub(1);
                store.accepted_subscription_count = store.accepted_subscription_count.saturating_add(1);
                store.has_ever_had_subscription = true;
            },
            CounterChange::DropAccepted => {
                store.accepted_subscription_count = store.accepted_subscription_count.saturating_sub(1);
            },
        }
        self.anonymous_stores.insert(id.0, store);
        proof {
            let m = old(self).model();
            assert(self.model().anonymous =~= m.anonymous.insert(id.0, apply_change(m.anonymous[id.0], change)));
        }
        true
    }

    /// Records one more pending subscription request on anonymous store `id`; `None` if there
    /// is no such store.
    pub fn increment_anonymous_pending(&mut self, id: AnonymousStoreId) -> (r: Option<()>)
        requires
            old(self).wf(),
        ensures
            final(self).wf(),
            r is Some <==> old(self).model().anonymous.contains_key(id.0),
            final(self).model() == (StoreMapModel {
                anonymous: changed(old(self).model().anonymous, id.0, CounterChange::AddPending),
                ..old(self).model()
            }),
    {
        if self.change_counters(id, CounterChange::AddPending) { Some(()) } else { None }
    }

    /// Records that a pending subscription request on anonymous store `id` went away, and drops
    /// the store if it is then unused.
    pub fn decrement_anonymous_pending(&mut self, id: AnonymousStoreId)
        requires
            old(self).wf(),
        ensures
            final(self).wf(),
            final(self).model() == (StoreMapModel {
                anonymous: settle(changed(old(self).model().anonymous, id.0, CounterChange::DropPending), id.0),
                ..old(self).model()
            }),
    {
        self.change_counters(id, CounterChange::DropPending);
        self.cleanup_anonymous_if_unused(id);
    }

    /// Records one more accepted subscription on anonymous store `id`; `None` if there is no
    /// such store.
    pub fn increment_anonymous_accepted(&mut self, id: AnonymousStoreId) -> (r: Option<()>)
        requires
            old(self).wf(),
        ensures
            final(self).wf(),
            r is Some <==> old(self).model().anonymous.contains_key(id.0),
            final(self).model() == (StoreMapModel {
                anonymous: changed(old(self).model().anonymous, id.0, CounterChange::AddAccepted),
                ..old(self).model()
            }),
    {
        if self.change_counters(id, CounterChange::AddAccepted) { Some(()) } else { None }
    }

    /// Turns one pending subscription request on anonymous store `id` into an accepted
    /// subscription; `None` if there is no such store.
    pub fn accept_anonymous_pending(&mut self, id: AnonymousStoreId) -> (r: Option<()>)
        requires
            old(self).wf(),
        ensures
            final(self).wf(),
            r is Some <==> old(self).model().anonymous.contains_key(id.0),
            final(self).model() == (StoreMapModel {
                anonymous: changed(old(self).model().anonymous, id.0, CounterChange::AcceptPending),
                ..old(self).model()
            }),
    {
        if self.change_counters(id, CounterChange::AcceptPending) { Some(()) } else { None }
    }

    /// Records that an accepted subscription on anonymous store `id` ended, and drops the store
    /// if it is then unused.
    pub fn decrement_anonymous_accepted(&mut self, id: AnonymousStoreId)
        requires
            old(self).wf(),
        ensures
            final(self).wf(),
            final(self).model() == (StoreMapModel {
                anonymous: settle(changed(old(self).model().anonymous, id.0, CounterChange::DropAccepted), id.0),
                ..old(self).model()
            }),
    {
        self.change_counters(id, CounterChange::DropAccepted);
        self.cleanup_anonymous_if_unused(id);
    }

    fn cleanup_anonymous_if_unused(&mut self, id: AnonymousStoreId)
        requires
            old(self).wf(),
        ensures
            final(self).wf(),
            final(self).model() == (StoreMapModel { anonymous: settle(old(self).model().anonymous, id.0), ..old(self).model() }),
    {
        let should_remove = match self.anonymous_stores.get(id.0) {
            Some(store) => store.has_ever_had_subscription && store.pending_count == 0 && store.accepted_subscription_count == 0,
            None => false,
        };
        if should_remove {
            self.anonymous_stores.remove(id.0);
            proof {
                assert(self.model().anonymous =~= old(self).model().anonymous.remove(id.0));
            }
        }
    }
}

/// The numbers of `ids`, in order.
pub open spec fn ids_of(ids: Seq<AnonymousStoreId>) -> Seq<u64> {
    ids.map_values(|i: AnonymousStoreId| i.0)
}

/// The paths of `paths`, in order.
pub open spec fn paths_of(paths: Seq<StorePath>) -> Seq<(Seq<char>, Seq<char>)> {
    paths.map_values(|p: StorePath| p@)
}

} // verus!

verus! {

/// What a subscription is on: a named store or an anonymous one.
#[derive(Clone, Debug, PartialEq, Eq, Hash)]
pub enum StoreSubscriptionTarget {
    Named(StorePath),
    Anonymous(AnonymousStoreId),
}

/// The mathematical value of a [`StoreSubscriptionTarget`].
pub enum TargetView {
    Named((Seq<char>, Seq<char>)),
    Anonymous(u64),
}

impl View for StoreSubscriptionTarget {
    type V = TargetView;

    open spec fn view(&self) -> TargetView {
        match self {
            StoreSubscriptionTarget::Named(path) => TargetView::Named(path@),
            StoreSubscriptionTarget::Anonymous(id) => TargetView::Anonymous(id.0),
        }
    }
}

/// One subscription: what it is on, and the connection that holds it.
#[derive(Clone, Debug)]
pub struct SubscriptionData {
    target: StoreSubscriptionTarget,
    file: FileId,
}

/// The mathematical value of a [`SubscriptionData`].
pub struct SubscriptionView {
    pub target: TargetView,
    pub file: FileId,
}

impl View for SubscriptionData {
    type V = SubscriptionView;

    closed spec fn view(&self) -> SubscriptionView {
        SubscriptionView { target: self.target@, file: self.file }
    }
}

/// `x` (a connection and its subscription id) is subscribed to `target` in `m`.
pub open spec fn is_subscriber(m: Map<(u64, u64), SubscriptionView>, target: TargetView, x: (FileId, SubscriptionId)) -> bool {
    let k = (x.0.0, x.1.0);
    m.contains_key(k) && m[k].target == target && m[k].file == x.0
}

/// The subscription `k` with value `v` belongs to the connection `file`.
pub open spec fn held_by(k: (u64, u64), v: SubscriptionView, file: FileId) -> bool {
    k.0 == file.0 || v.file == file
}

/// The subscription `v` is on a named store of `service`.
pub open spec fn on_service(v: SubscriptionView, service: Seq<char>) -> bool {
    v.target matches TargetView::Named(p) && p.0 == service
}

/// The subscription `v` is on the anonymous store `id`.
pub open spec fn on_anonymous(v: SubscriptionView, id: u64) -> bool {
    v.target == TargetView::Anonymous(id)
}

/// The key of a removed subscription, as the cleanup functions report it.
pub open spec fn removed_key(e: (FileId, SubscriptionId, StoreSubscriptionTarget)) -> (u64, u64) {
    (e.0.0, e.1.0)
}

/// The keys of the removed subscriptions `removed`, in order.
pub open spec fn removed_keys(removed: Seq<(FileId, SubscriptionId, StoreSubscriptionTarget)>) -> Seq<(u64, u64)> {
    removed.map_values(|e: (FileId, SubscriptionId, StoreSubscriptionTarget)| removed_key(e))
}

/// `removed` reports exactly the subscriptions of `m` whose keys are in `keys`, each once,
/// with its connection and target.
pub open spec fn reports_removed(
    m: Map<(u64, u64), SubscriptionView>,
    keys: Set<(u64, u64)>,
    removed: Seq<(FileId, SubscriptionId, StoreSubscriptionTarget)>,
) -> bool {
    &&& removed_keys(removed).no_duplicates()
    &&& removed_keys(removed).to_set() == keys
    &&& forall|i: int|
        0 <= i < removed.len() ==> m[removed_key(#[trigger] removed[i])] == (SubscriptionView {
            target: removed[i].2@,
            file: removed[i].0,
        })
}

/// Which subscriptions a sweep removes.
enum Sweep {
    File(FileId),
    Service(String),
    AnonymousStore(AnonymousStoreId),
}

spec fn swept(sweep: Sweep, k: (u64, u64), v: SubscriptionView) -> bool {
    match sweep {
        Sweep::File(file) => held_by(k, v, file),
        Sweep::Service(service) => on_service(v, service@),
        Sweep::AnonymousStore(id) => on_anonymous(v, id.0),
    }
}

fn same_target(a: &StoreSubscriptionTarget, b: &StoreSubscriptionTarget) -> (r: bool)
    ensures
        r == (a@ == b@),
{
    match (a, b) {
        (StoreSubscriptionTarget::Named(p), StoreSubscriptionTarget::Named(q)) => p.service == q.service && p.store.0 == q.store.0,
        (StoreSubscriptionTarget::Anonymous(x), StoreSubscriptionTarget::Anonymous(y)) => x.0 == y.0,
        _ => false,
    }
}

fn sweeps(sweep: &Sweep, k: (u64, u64), data: &SubscriptionData) -> (r: bool)
    ensures
        r == swept(*sweep, k, data@),
{
    match sweep {
        Sweep::File(file) => k.0 == file.0 || data.file.0 == file.0,
        Sweep::Service(service) => match &data.target {
            StoreSubscriptionTarget::Named(path) => path.service == *service,
            StoreSubscriptionTarget::Anonymous(_) => false,
        },
        Sweep::AnonymousStore(id) => match &data.target {
            StoreSubscriptionTarget::Named(_) => false,
            StoreSubscriptionTarget::Anonymous(x) => x.0 == id.0,
        },
    }
}

/// The store subscriptions of all connections, keyed by (connection, subscription id).
pub struct Subscriptions {
    map: SubscriptionTable,
}

impl Subscriptions {
    pub closed spec fn model(&self) -> Map<(u64, u64), SubscriptionView> {
        subscription_entries(self.map).map_values(|d: SubscriptionData| d@)
    }

    /// Each subscription is held by the connection of its key.
    pub closed spec fn wf(&self) -> bool {
        &&& subscription_entries(self.map).dom().finite()
        &&& forall|k: (u64, u64)| #[trigger] subscription_entries(self.map).contains_key(k) ==> subscription_entries(self.map)[k].file.0 == k.0
    }

    /// What the invariant says, in terms of the model.
    pub proof fn lemma_wf(&self)
        requires
            self.wf(),
        ensures
            self.model().dom().finite(),
            forall|k: (u64, u64)| #[trigger] self.model().contains_key(k) ==> self.model()[k].file.0 == k.0,
    {
        assert(self.model().dom() =~= subscription_entries(self.map).dom());
    }

    pub fn new() -> (s: Self)
        ensures
            s.wf(),
            s.model() == Map::<(u64, u64), SubscriptionView>::empty(),
    {
        let s = Subscriptions { map: SubscriptionTable::new() };
        assert(s.model() =~= Map::<(u64, u64), SubscriptionView>::empty());
        s
    }

    /// Records that the connection `file` subscribed to `target` under `id`; refused, with
    /// nothing changed, if the connection already uses that id.
    pub fn insert(&mut self, id: SubscriptionId, file: FileId, target: StoreSubscriptionTarget) -> (r: Result<(), TransportError>)
        requires
            old(self).wf(),
        ensures
            final(self).wf(),
            if old(self).model().contains_key((file.0, id.0)) {
                &&& r == Err::<(), TransportError>(TransportError::SubscriptionIdConflict)
                &&& final(self).model() == old(self).model()
            } else {
                &&& r == Ok::<(), TransportError>(())
                &&& final(self).model() == old(self).model().insert((file.0, id.0), SubscriptionView { target: target@, file })
            },
    {
        let key = (file.0, id.0);
        if self.map.get(key).is_some() {
            return Err(TransportError::SubscriptionIdConflict);
        }
        let data = SubscriptionData { target, file };
        self.map.insert(key, data);
        proof {
            assert(self.model() =~= old(self).model().insert((file.0, id.0), data@));
        }
        Ok(())
    }

    /// Whether subscription `sub` of the connection `file_id` is held by that connection;
    /// `None` if there is no such subscription.
    pub fn check_ownership(&self, sub: SubscriptionId, file_id: FileId) -> (r: Option<bool>)
        requires
            self.wf(),
        ensures
            match self.model().get((file_id.0, sub.0)) {
                Some(v) => r == Some(v.file == file_id),
                None => r is None,
            },
    {
        match self.map.get((file_id.0, sub.0)) {
            Some(data) => Some(data.file.0 == file_id.0),
            None => None,
        }
    }

    /// Ends subscription `id` of the connection `file_id` and returns what it was on.
    pub fn delete_owned(&mut self, id: SubscriptionId, file_id: FileId) -> (r: Result<StoreSubscriptionTarget, TransportError>)
        requires
            old(self).wf(),
        ensures
            final(self).wf(),
            ({
                let m = old(self).model();
                let k = (file_id.0, id.0);
                if m.contains_key(k) && m[k].file == file_id {
                    &&& r matches Ok(t) && t@ == m[k].target
                    &&& final(self).model() == m.remove(k)
                } else {
                    &&& r == Err::<StoreSubscriptionTarget, TransportError>(TransportError::NoSuchSubscription)
                    &&& final(self).model() == m
                }
            }),
    {
        if self.check_ownership(id, file_id) != Some(true) {
            return Err(TransportError::NoSuchSubscription);
        }
        match self.map.remove((file_id.0, id.0)) {
            Some(data) => {
                proof {
                    assert(self.model() =~= old(self).model().remove((file_id.0, id.0)));
                }
                Ok(data.target)
            },
            None => Err(TransportError::NoSuchSubscription),
        }
    }

    fn subscribers_for(&self, target: &StoreSubscriptionTarget) -> (r: Vec<(FileId, SubscriptionId)>)
        requires
            self.wf(),
        ensures
            r@.no_duplicates(),
            forall|x: (FileId, SubscriptionId)| #[trigger] r@.contains(x) <==> is_subscriber(self.model(), target@, x),
    {
        proof {
            self.lemma_wf();
        }
        let keys = self.map.keys();
        let ghost m = self.model();
        let mut r: Vec<(FileId, SubscriptionId)> = Vec::new();
        let mut k: usize = 0;
        while k < keys.len()
            invariant
                k <= keys.len(),
                self.wf(),
                m == self.model(),
                forall|x: (u64, u64)| #[trigger] m.contains_key(x) ==> m[x].file.0 == x.0,
                keys@.no_duplicates(),
                keys@.to_set() == m.dom(),
                r@.no_duplicates(),
                forall|x: (FileId, SubscriptionId)|
                    #[trigger] r@.contains(x) <==> (keys@.take(k as int).contains((x.0.0, x.1.0)) && is_subscriber(m, target@, x)),
            decreases keys.len() - k,
        {
            let key = keys[k];
            let ghost before = r@;
            proof {
                assert(keys@.to_set().contains(key));
                assert(keys@.take(k + 1) =~= keys@.take(k as int).push(key));
            }
            let data = self.map.get(key).unwrap();
            let hit = same_target(&data.target, target);
            let ghost entry = (data.file, SubscriptionId(key.1));
            if hit {
                proof {
                    assert(!before.contains(entry)) by {
                        if before.contains(entry) {
                            let j = keys@.take(k as int).index_of(key);
                            assert(keys@[j] == keys@[k as int]);
                        }
                    }
                }
                r.push((data.file, SubscriptionId(key.1)));
            }
            proof {
                if hit {
                    assert(r@ =~= before.push(entry));
                } else {
                    assert(r@ =~= before);
                }
                assert forall|x: (FileId, SubscriptionId)| #[trigger] r@.contains(x) <==> (keys@.take(k + 1).contains((x.0.0, x.1.0))
                    && is_subscriber(m, target@, x)) by {
                    if (x.0.0, x.1.0) == key {
                        assert(keys@.take(k + 1)[k as int] == key);
                        if hit && is_subscriber(m, target@, x) {
                            assert(x == entry);
                            assert(r@[r@.len() - 1] == entry);
                        }
                        if before.contains(x) {
                            let j = keys@.take(k as int).index_of(key);
                            assert(keys@[j] == keys@[k as int]);
                        }
                        if r@.contains(x) && !before.contains(x) {
                            assert(x == entry);
                        }
                    } else {
                        if r@.contains(x) && !before.contains(x) {
                            let i = r@.index_of(x);
                            assert(before.len() == i);
                        }
                        if keys@.take(k + 1).contains((x.0.0, x.1.0)) {
                            let i = keys@.take(k + 1).index_of((x.0.0, x.1.0));
                            assert(keys@.take(k as int)[i] == (x.0.0, x.1.0));
                        }
                        if before.contains(x) {
                            let i = before.index_of(x);
                            assert(r@[i] == x);
                            let j = keys@.take(k as int).index_of((x.0.0, x.1.0));
                            assert(keys@.take(k + 1)[j] == (x.0.0, x.1.0));
                        }
                    }
                }
            }
            k = k + 1;
        }
        proof {
            assert(keys@.take(keys.len() as int) =~= keys@);
            assert forall|x: (FileId, SubscriptionId)| #[trigger] r@.contains(x) <==> is_subscriber(m, target@, x) by {
                if m.contains_key((x.0.0, x.1.0)) {
                    assert(keys@.to_set().contains((x.0.0, x.1.0)));
                }
            }
        }
        r
    }

    /// The connections, with their subscription ids, subscribed to the named store at `store`
    /// (in no particular order).
    pub fn subscribers_for_store(&self, store: &StorePath) -> (r: Vec<(FileId, SubscriptionId)>)
        requires
            self.wf(),
        ensures
            r@.no_duplicates(),
            forall|x: (FileId, SubscriptionId)| #[trigger] r@.contains(x) <==> is_subscriber(self.model(), TargetView::Named(store@), x),
    {
        self.subscribers_for(&StoreSubscriptionTarget::Named(store.duplicate()))
    }

    /// The connections, with their subscription ids, subscribed to the anonymous store `id`
    /// (in no particular order).
    pub fn subscribers_for_anonymous_store(&self, id: AnonymousStoreId) -> (r: Vec<(FileId, SubscriptionId)>)
        requires
            self.wf(),
        ensures
            r@.no_duplicates(),
            forall|x: (FileId, SubscriptionId)| #[trigger] r@.contains(x) <==> is_subscriber(self.model(), TargetView::Anonymous(id.0), x),
    {
        self.subscribers_for(&StoreSubscriptionTarget::Anonymous(id))
    }

    fn sweep(&mut self, sweep: &Sweep) -> (removed: Vec<(FileId, SubscriptionId, StoreSubscriptionTarget)>)
        requires
            old(self).wf(),
        ensures
            final(self).wf(),
            ({
                let m = old(self).model();
                &&& final(self).model() == m.restrict(m.dom().filter(|k: (u64, u64)| !swept(*sweep, k, m[k])))
                &&& reports_removed(m, m.dom().filter(|k: (u64, u64)| swept(*sweep, k, m[k])), removed@)
            }),
    {
        let keys = self.map.keys();
        let ghost original = subscription_entries(self.map);
        let ghost m = self.model();
        let mut removed: Vec<(FileId, SubscriptionId, StoreSubscriptionTarget)> = Vec::new();
        let mut k: usize = 0;
        while k < keys.len()
            invariant
                k <= keys.len(),
                self.wf(),
                original == subscription_entries(old(self).map),
                m == old(self).model(),
                m == original.map_values(|d: SubscriptionData| d@),
                keys@.no_duplicates(),
                keys@.to_set() == original.dom(),
                forall|n: (u64, u64)| #[trigger] subscription_entries(self.map).contains_key(n) ==> original.contains_key(n)
                    && subscription_entries(self.map)[n] == original[n],
                forall|n: (u64, u64)|
                    #[trigger] original.contains_key(n) && !swept(*sweep, n, original[n]@) ==> subscription_entries(self.map).contains_key(n),
                forall|j: int| 0 <= j < k ==> !(subscription_entries(self.map).contains_key(#[trigger] keys@[j])
                    && swept(*sweep, keys@[j], original[keys@[j]]@)),
                forall|j: int| k <= j < keys@.len() ==> subscription_entries(self.map).contains_key(#[trigger] keys@[j]),
                removed_keys(removed@).no_duplicates(),
                forall|n: (u64, u64)|
                    #[trigger] removed_keys(removed@).contains(n) <==> (keys@.take(k as int).contains(n) && original.contains_key(n)
                        && swept(*sweep, n, original[n]@)),
                forall|i: int|
                    0 <= i < removed@.len() ==> original.contains_key(removed_key(#[trigger] removed@[i])) && original[removed_key(removed@[i])]@
                        == (SubscriptionView { target: removed@[i].2@, file: removed@[i].0 }),
            decreases keys.len() - k,
        {
            let key = keys[k];
            let ghost before = removed@;
            proof {
                assert(keys@.to_set().contains(key));
            }
            let hit = sweeps(sweep, key, self.map.get(key).unwrap());
            if hit {
                let data = self.map.remove(key).unwrap();
                let entry = (data.file, SubscriptionId(key.1), data.target);
                proof {
                    assert(removed_key(entry) == key);
                    assert forall|j: int| k < j < keys@.len() implies subscription_entries(self.map).contains_key(#[trigger] keys@[j]) by {
                        assert(keys@[j] != keys@[k as int]);
                    }
                    assert(!removed_keys(before).contains(key)) by {
                        if removed_keys(before).contains(key) {
                            let j = keys@.take(k as int).index_of(key);
                            assert(keys@[j] == keys@[k as int]);
                        }
                    }
                }
                removed.push(entry);
            }
            proof {
                assert(keys@.take(k + 1) =~= keys@.take(k as int).push(key));
                let now = removed_keys(removed@);
                let was = removed_keys(before);
                if hit {
                    assert(now =~= was.push(key));
                } else {
                    assert(now =~= was);
                }
                assert forall|x: (u64, u64)| now.contains(x) <==> (keys@.take(k + 1).contains(x) && original.contains_key(x)
                    && swept(*sweep, x, original[x]@)) by {
                    if x == key {
                        if hit {
                            assert(now[now.len() - 1] == key);
                        } else if was.contains(key) {
                            let j = keys@.take(k as int).index_of(key);
                            assert(keys@[j] == keys@[k as int]);
                        }
                        assert(keys@.take(k + 1)[k as int] == key);
                    } else {
                        if now.contains(x) {
                            let i = now.index_of(x);
                            if hit {
                                assert(was[i] == x);
                            }
                        }
                        if keys@.take(k + 1).contains(x) {
                            let i = keys@.take(k + 1).index_of(x);
                            assert(keys@.take(k as int)[i] == x);
                        }
                        if was.contains(x) {
                            let i = was.index_of(x);
                            assert(now[i] == x);
                            let j = keys@.take(k as int).index_of(x);
                            assert(keys@.take(k + 1)[j] == x);
                        }
                    }
                }
            }
            k = k + 1;
        }
        proof {
            assert(keys@.take(keys.len() as int) =~= keys@);
            assert(subscription_entries(self.map) =~= original.restrict(original.dom().filter(|x: (u64, u64)| !swept(*sweep, x, original[x]@)))) by {
                assert forall|x: (u64, u64)| subscription_entries(self.map).contains_key(x) implies !swept(*sweep, x, original[x]@) by {
                    assert(keys@.to_set().contains(x));
                    let j = keys@.index_of(x);
                }
            }
            assert(self.model() =~= m.restrict(m.dom().filter(|x: (u64, u64)| !swept(*sweep, x, m[x]))));
            assert forall|x: (u64, u64)| removed_keys(removed@).to_set().contains(x) <==> m.dom().filter(
                |y: (u64, u64)| swept(*sweep, y, m[y]),
            ).contains(x) by {
                if original.contains_key(x) {
                    assert(keys@.to_set().contains(x));
                }
            }
            assert(removed_keys(removed@).to_set() =~= m.dom().filter(|y: (u64, u64)| swept(*sweep, y, m[y])));
        }
        removed
    }

    /// Drops every subscription held by the connection `file_id` and returns them.
    pub fn cleanup_file(&mut self, file_id: FileId) -> (removed: Vec<(FileId, SubscriptionId, StoreSubscriptionTarget)>)
        requires
            old(self).wf(),
        ensures
            final(self).wf(),
            ({
                let m = old(self).model();
                &&& final(self).model() == m.restrict(m.dom().filter(|k: (u64, u64)| !held_by(k, m[k], file_id)))
                &&& reports_removed(m, m.dom().filter(|k: (u64, u64)| held_by(k, m[k], file_id)), removed@)
            }),
    {
        let sweep = Sweep::File(file_id);
        let removed = self.sweep(&sweep);
        proof {
            let m = old(self).model();
            assert(m.dom().filter(|k: (u64, u64)| !swept(sweep, k, m[k])) =~= m.dom().filter(|k: (u64, u64)| !held_by(k, m[k], file_id)));
            assert(m.dom().filter(|k: (u64, u64)| swept(sweep, k, m[k])) =~= m.dom().filter(|k: (u64, u64)| held_by(k, m[k], file_id)));
        }
        removed
    }

    /// Drops every subscription on a named store of `service` and returns them.
    pub fn cleanup_service(&mut self, service: &str) -> (removed: Vec<(FileId, SubscriptionId, StoreSubscriptionTarget)>)
        requires
            old(self).wf(),
        ensures
            final(self).wf(),
            ({
                let m = old(self).model();
                &&& final(self).model() == m.restrict(m.dom().filter(|k: (u64, u64)| !on_service(m[k], service@)))
                &&& reports_removed(m, m.dom().filter(|k: (u64, u64)| on_service(m[k], service@)), removed@)
            }),
    {
        let sweep = Sweep::Service(string_of(service));
        let removed = self.sweep(&sweep);
        proof {
            let m = old(self).model();
            assert(m.dom().filter(|k: (u64, u64)| !swept(sweep, k, m[k])) =~= m.dom().filter(|k: (u64, u64)| !on_service(m[k], service@)));
            assert(m.dom().filter(|k: (u64, u64)| swept(sweep, k, m[k])) =~= m.dom().filter(|k: (u64, u64)| on_service(m[k], service@)));
        }
        removed
    }

    /// Drops every subscription on the anonymous store `anonymous_id` and returns them.
    pub fn cleanup_anonymous_store(&mut self, anonymous_id: AnonymousStoreId) -> (removed: Vec<(FileId, SubscriptionId, StoreSubscriptionTarget)>)
        requires
            old(self).wf(),
        ensures
            final(self).wf(),
            ({
                let m = old(self).model();
                &&& final(self).model() == m.restrict(m.dom().filter(|k: (u64, u64)| !on_anonymous(m[k], anonymous_id.0)))
                &&& reports_removed(m, m.dom().filter(|k: (u64, u64)| on_anonymous(m[k], anonymous_id.0)), removed@)
            }),
    {
        let sweep = Sweep::AnonymousStore(anonymous_id);
        let removed = self.sweep(&sweep);
        proof {
            let m = old(self).model();
            assert(m.dom().filter(|k: (u64, u64)| !swept(sweep, k, m[k])) =~= m.dom().filter(|k: (u64, u64)| !on_anonymous(m[k], anonymous_id.0)));
            assert(m.dom().filter(|k: (u64, u64)| swept(sweep, k, m[k])) =~= m.dom().filter(|k: (u64, u64)| on_anonymous(m[k], anonymous_id.0)));
        }
        removed
    }
}

/// A subscription request that the service has not answered yet.
#[derive(Clone, Debug)]
pub struct PendingStoreSubscription {
    pub client_file_id: FileId,
    pub service_file_id: FileId,
    pub subscription_id: SubscriptionId,
    pub target: StoreSubscriptionTarget,
}

} // verus!

verus! {

/// Whether the connection `file` is the client or the service of a pending subscription
/// request.
pub open spec fn request_involves(p: PendingStoreSubscription, file: FileId) -> bool {
    p.client_file_id == file || p.service_file_id == file
}

/// The pending request `p` is the connection `client` asking under subscription id `id`.
pub open spec fn asks(p: PendingStoreSubscription, client: FileId, id: SubscriptionId) -> bool {
    p.client_file_id == client && p.subscription_id == id
}

/// The subscription requests waiting for an answer from their service, by reply token.
pub struct StoreSubscriptionReplyTokens {
    next: u64,
    pending: PendingSubscriptionTable,
}

impl StoreSubscriptionReplyTokens {
    /// The token number the next allocation tries first.
    pub closed spec fn next_token(&self) -> u64 {
        self.next
    }

    /// Outstanding tokens and the request each one answers.
    pub closed spec fn pending(&self) -> Map<u64, PendingStoreSubscription> {
        pending_subscription_entries(self.pending)
    }

    /// 0 is never a token and the table is finite.
    pub closed spec fn wf(&self) -> bool {
        &&& self.next != 0
        &&& pending_subscription_entries(self.pending).dom().finite()
        &&& !pending_subscription_entries(self.pending).contains_key(0)
    }

    /// What the invariant says, in terms of the public view.
    pub proof fn lemma_wf(&self)
        requires
            self.wf(),
        ensures
            self.next_token() != 0,
            self.pending().dom().finite(),
            !self.pending().contains_key(0),
    {
    }

    /// No request is outstanding; the first token handed out is 1.
    pub fn new() -> (r: Self)
        ensures
            r.wf(),
            r.next_token() == 1,
            r.pending() == Map::<u64, PendingStoreSubscription>::empty(),
    {
        StoreSubscriptionReplyTokens { next: 1, pending: PendingSubscriptionTable::new() }
    }

    /// The number of outstanding requests.
    pub fn len(&self) -> (n: usize)
        ensures
            n == self.pending().len(),
    {
        self.pending.len()
    }

    /// Issues a fresh token for the request of `client_file_id` to subscribe to `target` at the
    /// service on `service_file_id`: the first free number from [`Self::next_token`] on.
    pub fn create(
        &mut self,
        client_file_id: FileId,
        service_file_id: FileId,
        subscription_id: SubscriptionId,
        target: StoreSubscriptionTarget,
    ) -> (token: ReplyToken)
        requires
            old(self).wf(),
            old(self).pending().len() < u64::MAX,
        ensures
            final(self).wf(),
            token.0 != 0,
            allocated_number(old(self).next_token(), old(self).pending().dom(), token.0),
            final(self).next_token() == next_number(token.0),
            final(self).pending() == old(self).pending().insert(
                token.0,
                PendingStoreSubscription { client_file_id, service_file_id, subscription_id, target },
            ),
    {
        let token = ReplyToken(allocate_number(&mut self.next, &self.pending));
        self.pending.insert(token.0, PendingStoreSubscription { client_file_id, service_file_id, subscription_id, target });
        token
    }

    /// Redeems `token` on behalf of the service at `service_file_id`: succeeds, and retires the
    /// token, only when it is outstanding and was issued for a request to that service;
    /// otherwise nothing changes.
    pub fn consume(&mut self, token: ReplyToken, service_file_id: FileId) -> (r: Result<PendingStoreSubscription, TransportError>)
        requires
            old(self).wf(),
        ensures
            final(self).wf(),
            final(self).next_token() == old(self).next_token(),
            match old(self).pending().get(token.0) {
                Some(p) if p.service_file_id == service_file_id => {
                    &&& r == Ok::<PendingStoreSubscription, TransportError>(p)
                    &&& final(self).pending() == old(self).pending().remove(token.0)
                },
                _ => {
                    &&& r == Err::<PendingStoreSubscription, TransportError>(TransportError::InvalidReplyToken)
                    &&& final(self).pending() == old(self).pending()
                },
            },
    {
        let owner = match self.pending.get(token.0) {
            Some(pending) => pending.service_file_id,
            None => return Err(TransportError::InvalidReplyToken),
        };
        if owner != service_file_id {
            return Err(TransportError::InvalidReplyToken);
        }
        match self.pending.remove(token.0) {
            Some(pending) => Ok(pending),
            None => Err(TransportError::InvalidReplyToken),
        }
    }

    /// Withdraws every request that the connection `client` made under subscription id `id`;
    /// says whether there was one.
    pub fn cancel_request(&mut self, client: FileId, id: SubscriptionId) -> (found: bool)
        requires
            old(self).wf(),
        ensures
            final(self).wf(),
            final(self).next_token() == old(self).next_token(),
            final(self).pending() == old(self).pending().restrict(
                old(self).pending().dom().filter(|t: u64| !asks(old(self).pending()[t], client, id)),
            ),
            found == exists|t: u64| #[trigger] old(self).pending().contains_key(t) && asks(old(self).pending()[t], client, id),
    {
        let keys = self.pending.keys();
        let ghost original = self.pending();
        let mut found = false;
        let mut i: usize = 0;
        while i < keys.len()
            invariant
                0 <= i <= keys.len(),
                keys@.no_duplicates(),
                keys@.to_set() == original.dom(),
                self.wf(),
                self.next == old(self).next,
                original == old(self).pending(),
                forall|t: u64| #[trigger] self.pending().contains_key(t) ==> original.contains_key(t) && self.pending()[t] == original[t],
                forall|t: u64| #[trigger] original.contains_key(t) && !asks(original[t], client, id) ==> self.pending().contains_key(t),
                forall|j: int| 0 <= j < i ==> !(self.pending().contains_key(#[trigger] keys@[j]) && asks(original[keys@[j]], client, id)),
                forall|j: int| i <= j < keys@.len() ==> (self.pending().contains_key(#[trigger] keys@[j])),
                found == exists|j: int| 0 <= j < i && asks(original[#[trigger] keys@[j]], client, id),
            decreases keys.len() - i,
        {
            let key = keys[i];
            assert(keys@.to_set().contains(key));
            let hit = match self.pending.get(key) {
                Some(p) => p.client_file_id == client && p.subscription_id == id,
                None => false,
            };
            if hit {
                self.pending.remove(key);
                found = true;
                proof {
                    assert forall|j: int| i < j < keys@.len() implies self.pending().contains_key(#[trigger] keys@[j]) by {
                        assert(keys@[j] != keys@[i as int]);
                    }
                }
            }
            i = i + 1;
        }
        proof {
            let kept = original.restrict(original.dom().filter(|t: u64| !asks(original[t], client, id)));
            assert forall|t: u64| self.pending().contains_key(t) <==> kept.contains_key(t) by {
                if original.contains_key(t) && asks(original[t], client, id) {
                    assert(keys@.to_set().contains(t));
                    let j = keys@.index_of(t);
                }
            }
            assert(self.pending() =~= kept);
            if found {
                let j = choose|j: int| 0 <= j < keys.len() && asks(original[#[trigger] keys@[j]], client, id);
                assert(keys@.to_set().contains(keys@[j]));
                assert(original.contains_key(keys@[j]));
            } else {
                assert forall|t: u64| !(#[trigger] original.contains_key(t) && asks(original[t], client, id)) by {
                    if original.contains_key(t) {
                        assert(keys@.to_set().contains(t));
                        let j = keys@.index_of(t);
                    }
                }
            }
        }
        found
    }

    /// Drops every request in which the connection `file_id` takes part, as client or as
    /// service, and returns them (in no particular order).
    pub fn remove_for_file(&mut self, file_id: FileId) -> (removed: Vec<PendingStoreSubscription>)
        requires
            old(self).wf(),
        ensures
            final(self).wf(),
            final(self).next_token() == old(self).next_token(),
            final(self).pending() == old(self).pending().restrict(
                old(self).pending().dom().filter(|t: u64| !request_involves(old(self).pending()[t], file_id)),
            ),
            exists|tokens: Seq<u64>|
                {
                    &&& tokens.no_duplicates()
                    &&& tokens.to_set() == old(self).pending().dom().filter(|t: u64| request_involves(old(self).pending()[t], file_id))
                    &&& tokens.len() == removed@.len()
                    &&& forall|i: int| 0 <= i < tokens.len() ==> removed@[i] == old(self).pending()[#[trigger] tokens[i]]
                },
    {
        let keys = self.pending.keys();
        let ghost original = self.pending();
        let ghost mut tokens: Seq<u64> = Seq::empty();
        let mut removed: Vec<PendingStoreSubscription> = Vec::new();
        let mut i: usize = 0;
        while i < keys.len()
            invariant
                0 <= i <= keys.len(),
                keys@.no_duplicates(),
                keys@.to_set() == original.dom(),
                self.wf(),
                self.next == old(self).next,
                original == old(self).pending(),
                forall|t: u64| #[trigger] self.pending().contains_key(t) ==> original.contains_key(t) && self.pending()[t] == original[t],
                forall|t: u64| #[trigger] original.contains_key(t) && !request_involves(original[t], file_id) ==> self.pending().contains_key(t),
                forall|j: int| 0 <= j < i ==> !(self.pending().contains_key(#[trigger] keys@[j]) && request_involves(original[keys@[j]], file_id)),
                forall|j: int| i <= j < keys@.len() ==> (self.pending().contains_key(#[trigger] keys@[j])),
                tokens.no_duplicates(),
                tokens.len() == removed@.len(),
                forall|j: int| 0 <= j < tokens.len() ==> removed@[j] == original[#[trigger] tokens[j]],
                forall|t: u64| #[trigger] tokens.contains(t) <==> (keys@.take(i as int).contains(t) && original.contains_key(t)
                    && request_involves(original[t], file_id)),
            decreases keys.len() - i,
        {
            let key = keys[i];
            let ghost before = tokens;
            assert(keys@.to_set().contains(key));
            let hit = match self.pending.get(key) {
                Some(p) => p.client_file_id == file_id || p.service_file_id == file_id,
                None => false,
            };
            if hit {
                let p = self.pending.remove(key).unwrap();
                removed.push(p);
                proof {
                    assert forall|j: int| i < j < keys@.len() implies self.pending().contains_key(#[trigger] keys@[j]) by {
                        assert(keys@[j] != keys@[i as int]);
                    }
                    assert(!before.contains(key)) by {
                        if before.contains(key) {
                            let j = keys@.take(i as int).index_of(key);
                            assert(keys@[j] == keys@[i as int]);
                        }
                    }
                    tokens = tokens.push(key);
                }
            }
            proof {
                assert(keys@.take(i + 1) =~= keys@.take(i as int).push(key));
                assert forall|x: u64| #[trigger] tokens.contains(x) <==> (keys@.take(i + 1).contains(x) && original.contains_key(x)
                    && request_involves(original[x], file_id)) by {
                    if x == key {
                        if hit {
                            assert(tokens[tokens.len() - 1] == key);
                        } else if before.contains(key) {
                            let j = keys@.take(i as int).index_of(key);
                            assert(keys@[j] == keys@[i as int]);
                        }
                        assert(keys@.take(i + 1)[i as int] == key);
                    } else {
                        if tokens.contains(x) {
                            let j = tokens.index_of(x);
                            if hit {
                                assert(before[j] == x);
                            }
                        }
                        if keys@.take(i + 1).contains(x) {
                            let j = keys@.take(i + 1).index_of(x);
                            assert(keys@.take(i as int)[j] == x);
                        }
                        if before.contains(x) {
                            let j = before.index_of(x);
                            assert(tokens[j] == x);
                            let l = keys@.take(i as int).index_of(x);
                            assert(keys@.take(i + 1)[l] == x);
                        }
                    }
                }
            }
            i = i + 1;
        }
        proof {
            let involved = original.dom().filter(|t: u64| request_involves(original[t], file_id));
            assert(keys@.take(keys.len() as int) =~= keys@);
            assert forall|t: u64| self.pending().contains_key(t) implies !request_involves(original[t], file_id) by {
                assert(keys@.to_set().contains(t));
                let j = keys@.index_of(t);
            }
            assert(self.pending() =~= original.restrict(original.dom().filter(|t: u64| !request_involves(original[t], file_id))));
            assert forall|t: u64| tokens.to_set().contains(t) <==> involved.contains(t) by {
                if original.contains_key(t) {
                    assert(keys@.to_set().contains(t));
                }
            }
            assert(tokens.to_set() =~= involved);
        }
        removed
    }
}

} // verus!

verus! {

/// A store path is registered once: after a store is registered at `path`, the path is taken,
/// so registering it again is refused; the new store holds the value it was given.
pub proof fn law_registered_path_is_taken(m: StoreMapModel, path: (Seq<char>, Seq<char>), value: Seq<u8>, public: bool)
    ensures
        registered(m, path, value, public).stores.contains_key(path),
        registered(m, path, value, public).stores[path].value == value,
        registered(m, path, value, public).stores[path].timestamp == m.next_timestamp,
{
}

/// A read gives back the last write: after an update of an existing store, the store holds the
/// new value with the update's timestamp, and every other store is as it was.
pub proof fn law_update_reads_back(m: StoreMapModel, path: (Seq<char>, Seq<char>), value: Seq<u8>, other: (Seq<char>, Seq<char>))
    requires
        m.stores.contains_key(path),
    ensures
        updated(m, path, value).stores[path].value == value,
        updated(m, path, value).stores[path].timestamp == m.next_timestamp,
        updated(m, path, value).stores[path].path == m.stores[path].path,
        updated(m, path, value).stores[path].public == m.stores[path].public,
        other != path ==> updated(m, path, value).stores.contains_key(other) == m.stores.contains_key(other)
            && updated(m, path, value).stores[other] == m.stores[other],
        updated(m, path, value).anonymous == m.anonymous,
{
}

/// Every change is stamped with a positive timestamp, and the next one is later, until the
/// counter wraps back to 1 after `isize::MAX`.
pub proof fn law_timestamps_advance(t: isize)
    requires
        t >= 1,
    ensures
        timestamp_after(t) >= 1,
        t < isize::MAX ==> timestamp_after(t) == t + 1,
        t == isize::MAX ==> timestamp_after(t) == 1,
{
}

/// Until the timestamp counter starts over, an update is the newest change: the updated store
/// is stamped later than every store, named or anonymous, held before it, and all stores are
/// still stamped before the next timestamp.
pub proof fn law_update_is_newest(
    m: StoreMapModel,
    path: (Seq<char>, Seq<char>),
    value: Seq<u8>,
    other: (Seq<char>, Seq<char>),
    other_id: u64,
)
    requires
        stamps_are_older(m),
        !stamped(m).wrapped,
        m.stores.contains_key(path),
    ensures
        m.stores.contains_key(other) ==> m.stores[other].timestamp < updated(m, path, value).stores[path].timestamp,
        m.anonymous.contains_key(other_id) ==> m.anonymous[other_id].timestamp < updated(m, path, value).stores[path].timestamp,
        stamps_are_older(updated(m, path, value)),
{
}

/// Until the timestamp counter starts over, a newly registered store is stamped later than
/// every store held before it, and all stores are still stamped before the next timestamp.
pub proof fn law_registered_is_newest(
    m: StoreMapModel,
    path: (Seq<char>, Seq<char>),
    value: Seq<u8>,
    public: bool,
    other: (Seq<char>, Seq<char>),
    other_id: u64,
)
    requires
        stamps_are_older(m),
        !stamped(m).wrapped,
    ensures
        m.stores.contains_key(other) ==> m.stores[other].timestamp < registered(m, path, value, public).stores[path].timestamp,
        m.anonymous.contains_key(other_id) ==> m.anonymous[other_id].timestamp < registered(m, path, value, public).stores[path].timestamp,
        stamps_are_older(registered(m, path, value, public)),
{
}

/// Until the timestamp counter starts over, each update of a store gives it a later timestamp
/// than the update before.
pub proof fn law_store_timestamps_increase(m: StoreMapModel, path: (Seq<char>, Seq<char>), first: Seq<u8>, second: Seq<u8>)
    requires
        !stamped(stamped(m)).wrapped,
        m.stores.contains_key(path),
    ensures
        updated(m, path, first).stores[path].timestamp < updated(updated(m, path, first), path, second).stores[path].timestamp,
{
}

/// An anonymous store lives until it is no longer needed: once it has had a subscription and
/// its last accepted subscription ends with none pending, it is dropped; a store that never
/// had a subscription is kept whatever happens to its pending requests.
pub proof fn law_anonymous_store_lifetime(stores: Map<u64, AnonymousStoreView>, id: u64)
    requires
        stores.contains_key(id),
    ensures
        stores[id].ever_subscribed && stores[id].pending == 0 && stores[id].accepted == 1 ==> !settle(
            changed(stores, id, CounterChange::DropAccepted),
            id,
        ).contains_key(id),
        stores[id].ever_subscribed && stores[id].pending == 1 && stores[id].accepted == 0 ==> !settle(
            changed(stores, id, CounterChange::DropPending),
            id,
        ).contains_key(id),
        !stores[id].ever_subscribed ==> settle(changed(stores, id, CounterChange::DropPending), id).contains_key(id),
        stores[id].accepted > 1 ==> settle(changed(stores, id, CounterChange::DropAccepted), id).contains_key(id),
{
}

/// A connection uses each subscription id once: after its subscription `id` is recorded, the
/// key is taken, so recording it again is refused; and ending it gives back its target.
pub proof fn law_subscription_id_taken(m: Map<(u64, u64), SubscriptionView>, file: FileId, id: SubscriptionId, target: TargetView)
    ensures
        m.insert((file.0, id.0), SubscriptionView { target, file }).contains_key((file.0, id.0)),
        m.insert((file.0, id.0), SubscriptionView { target, file })[(file.0, id.0)].file == file,
        m.insert((file.0, id.0), SubscriptionView { target, file })[(file.0, id.0)].target == target,
        is_subscriber(m.insert((file.0, id.0), SubscriptionView { target, file }), target, (file, id)),
{
}

} // verus!

verus! {

impl Default for StoreMap {
    fn default() -> (r: Self)
        ensures
            r.wf(),
            r.model().stores == Map::<(Seq<char>, Seq<char>), StoreView>::empty(),
            r.model().anonymous == Map::<u64, AnonymousStoreView>::empty(),
            r.model().next_anonymous_id == 1,
            r.model().next_timestamp == 1,
    {
        StoreMap::new()
    }
}

impl Default for Subscriptions {
    fn default() -> (r: Self)
        ensures
            r.wf(),
            r.model() == Map::<(u64, u64), SubscriptionView>::empty(),
    {
        Subscriptions::new()
    }
}

impl Default for StoreSubscriptionReplyTokens {
    fn default() -> (r: Self)
        ensures
            r.wf(),
            r.next_token() == 1,
            r.pending() == Map::<u64, PendingStoreSubscription>::empty(),
    {
        StoreSubscriptionReplyTokens::new()
    }
}

} // verus!
