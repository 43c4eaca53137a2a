//! Per-connection inboxes of asynchronous messages.
//!
//! Each inbox has a generation counter that moves whenever a message is queued or the inbox is
//! notified; a latch handed to userspace remembers the generation it saw and becomes readable
//! once the generation differs.
use vstd::prelude::*;
use crate::protocol::{InboxMessage, RawFd, ReplyStatus};
use crate::kernel::ids::{FileHandle, FileId};
use crate::kernel::tables::{InboxTable, inbox_entries};

verus! {

/// A message waiting in an inbox together with the files attached to it.
pub struct QueuedInboxMessage {
    pub message: InboxMessage,
    pub fds: Vec<FileHandle>,
}

/// `m` with `installed` as its descriptor list, for the two kinds of message that carry
/// descriptors; any other message is returned unchanged.
pub open spec fn with_installed_fds(m: InboxMessage, installed: Vec<RawFd>) -> InboxMessage {
    match m {
        InboxMessage::FunctionCallRequest { service, method, request_id, reply_token, origin, payload, fds } =>
            InboxMessage::FunctionCallRequest { service, method, request_id, reply_token, origin, payload, fds: installed },
        InboxMessage::FunctionCallReply { request_id, status, payload, fds } =>
            InboxMessage::FunctionCallReply { request_id, status, payload, fds: installed },
        other => other,
    }
}

impl QueuedInboxMessage {
    pub fn new(message: InboxMessage, fds: Vec<FileHandle>) -> (r: Self)
        ensures
            r.message == message,
            r.fds == fds,
    {
        QueuedInboxMessage { message, fds }
    }

    pub fn without_fds(message: InboxMessage) -> (r: Self)
        ensures
            r.message == message,
            r.fds@.len() == 0,
    {
        QueuedInboxMessage { message, fds: Vec::new() }
    }

    /// The message as userspace receives it, once its attached files have been installed as
    /// the descriptors `installed` in the receiving process.
    pub fn into_user_message(self, installed: Vec<RawFd>) -> (m: InboxMessage)
        ensures
            m == with_installed_fds(self.message, installed),
    {
        match self.message {
            InboxMessage::FunctionCallRequest { service, method, request_id, reply_token, origin, payload, fds } =>
                InboxMessage::FunctionCallRequest { service, method, request_id, reply_token, origin, payload, fds: installed },
            InboxMessage::FunctionCallReply { request_id, status, payload, fds } =>
                InboxMessage::FunctionCallReply { request_id, status, payload, fds: installed },
            other => other,
        }
    }
}

/// `a` and `b` carry the same message: the same fields, byte for byte.
pub open spec fn same_message(a: InboxMessage, b: InboxMessage) -> bool {
    match (a, b) {
        (
            InboxMessage::FunctionCallRequest { service: s1, method: m1, request_id: r1, reply_token: t1, origin: o1, payload: p1, fds: f1 },
            InboxMessage::FunctionCallRequest { service: s2, method: m2, request_id: r2, reply_token: t2, origin: o2, payload: p2, fds: f2 },
        ) => s1 == s2 && m1 == m2 && r1 == r2 && t1 == t2 && o1 == o2 && p1@ == p2@ && f1@ == f2@,
        (
            InboxMessage::FunctionCallReply { request_id: r1, status: st1, payload: p1, fds: f1 },
            InboxMessage::FunctionCallReply { request_id: r2, status: st2, payload: p2, fds: f2 },
        ) => r1 == r2 && st1 == st2 && p1@ == p2@ && f1@ == f2@,
        (
            InboxMessage::SubscribeRequest { service: s1, store: k1, subscription_id: i1, reply_token: t1, origin: o1, payload: p1 },
            InboxMessage::SubscribeRequest { service: s2, store: k2, subscription_id: i2, reply_token: t2, origin: o2, payload: p2 },
        ) => s1 == s2 && k1 == k2 && i1 == i2 && t1 == t2 && o1 == o2 && p1@ == p2@,
        (
            InboxMessage::StoreSubscriptionAccepted { service: s1, store: k1, subscription_id: i1, current_value: v1, last_updated_timestamp: ts1 },
            InboxMessage::StoreSubscriptionAccepted { service: s2, store: k2, subscription_id: i2, current_value: v2, last_updated_timestamp: ts2 },
        ) => s1 == s2 && k1 == k2 && i1 == i2 && v1@ == v2@ && ts1 == ts2,
        (
            InboxMessage::StoreSubscriptionRejected { service: s1, store: k1, subscription_id: i1, message: m1 },
            InboxMessage::StoreSubscriptionRejected { service: s2, store: k2, subscription_id: i2, message: m2 },
        ) => s1 == s2 && k1 == k2 && i1 == i2 && m1 == m2,
        (
            InboxMessage::StoreSubscriptionUpdated { service: s1, store: k1, subscription_id: i1, payload: p1 },
            InboxMessage::StoreSubscriptionUpdated { service: s2, store: k2, subscription_id: i2, payload: p2 },
        ) => s1 == s2 && k1 == k2 && i1 == i2 && p1@ == p2@,
        (
            InboxMessage::StoreSubscriptionClosed { service: s1, store: k1, subscription_id: i1, reason: c1 },
            InboxMessage::StoreSubscriptionClosed { service: s2, store: k2, subscription_id: i2, reason: c2 },
        ) => s1 == s2 && k1 == k2 && i1 == i2 && c1 == c2,
        (InboxMessage::ServiceClosed { service: s1, reason: c1 }, InboxMessage::ServiceClosed { service: s2, reason: c2 }) =>
            s1 == s2 && c1 == c2,
        _ => false,
    }
}

/// A copy of `v`.
fn copy_vec<T: Copy>(v: &Vec<T>) -> (r: Vec<T>)
    ensures
        r@ == v@,
{
    let mut r: Vec<T> = Vec::new();
    let mut k: usize = 0;
    while k < v.len()
        invariant
            k <= v.len(),
            r@ == v@.take(k as int),
        decreases v.len() - k,
    {
        r.push(v[k]);
        assert(v@.take(k + 1) =~= v@.take(k as int).push(v@[k as int]));
        k = k + 1;
    }
    assert(v@.take(v.len() as int) =~= v@);
    r
}

fn duplicate_status(status: &ReplyStatus) -> (r: ReplyStatus)
    ensures
        r == *status,
{
    match status {
        ReplyStatus::Success => ReplyStatus::Success,
        ReplyStatus::Error { code, message } => ReplyStatus::Error { code: code.clone(), message: message.clone() },
    }
}

/// A copy of `m`.
fn duplicate_message(m: &InboxMessage) -> (r: InboxMessage)
    ensures
        same_message(r, *m),
{
    match m {
        InboxMessage::FunctionCallRequest { service, method, request_id, reply_token, origin, payload, fds } =>
            InboxMessage::FunctionCallRequest {
                service: service.clone(),
                method: method.clone(),
                request_id: *request_id,
                reply_token: *reply_token,
                origin: *origin,
                payload: copy_vec(payload),
                fds: copy_vec(fds),
            },
        InboxMessage::FunctionCallReply { request_id, status, payload, fds } =>
            InboxMessage::FunctionCallReply {
                request_id: *request_id,
                status: duplicate_status(status),
                payload: copy_vec(payload),
                fds: copy_vec(fds),
            },
        InboxMessage::SubscribeRequest { service, store, subscription_id, reply_token, origin, payload } =>
            InboxMessage::SubscribeRequest {
                service: service.clone(),
                store: store.clone(),
                subscription_id: *subscription_id,
                reply_token: *reply_token,
                origin: *origin,
                payload: copy_vec(payload),
            },
        InboxMessage::StoreSubscriptionAccepted { service, store, subscription_id, current_value, last_updated_timestamp } =>
            InboxMessage::StoreSubscriptionAccepted {
                service: service.clone(),
                store: store.clone(),
                subscription_id: *subscription_id,
                current_value: copy_vec(current_value),
                last_updated_timestamp: *last_updated_timestamp,
            },
        InboxMessage::StoreSubscriptionRejected { service, store, subscription_id, message } =>
            InboxMessage::StoreSubscriptionRejected {
                service: service.clone(),
                store: store.clone(),
                subscription_id: *subscription_id,
                message: message.clone(),
            },
        InboxMessage::StoreSubscriptionUpdated { service, store, subscription_id, payload } =>
            InboxMessage::StoreSubscriptionUpdated {
                service: service.clone(),
                store: store.clone(),
                subscription_id: *subscription_id,
                payload: copy_vec(payload),
            },
        InboxMessage::StoreSubscriptionClosed { service, store, subscription_id, reason } =>
            InboxMessage::StoreSubscriptionClosed {
                service: service.clone(),
                store: store.clone(),
                subscription_id: *subscription_id,
                reason: *reason,
            },
        InboxMessage::ServiceClosed { service, reason } => InboxMessage::ServiceClosed { service: service.clone(), reason: *reason },
    }
}

impl QueuedInboxMessage {
    /// A copy of the message with the same attached files.
    pub fn duplicate(&self) -> (r: Self)
        ensures
            same_message(r.message, self.message),
            r.fds@ == self.fds@,
    {
        QueuedInboxMessage { message: duplicate_message(&self.message), fds: copy_vec(&self.fds) }
    }
}

/// One connection's inbox.
pub struct MessageInbox {
    messages: std::collections::VecDeque<QueuedInboxMessage>,
    generation: u64,
}

/// The contents of an inbox: its messages, oldest first, and its generation.
pub struct InboxModel {
    pub messages: Seq<QueuedInboxMessage>,
    pub generation: u64,
}

/// The generation after `g` moves once.
pub open spec fn next_generation(g: u64) -> u64 {
    if g == u64::MAX { 0 } else { (g + 1) as u64 }
}

/// An inbox that was just created.
pub open spec fn fresh_inbox() -> InboxModel {
    InboxModel { messages: Seq::empty(), generation: 0 }
}

/// The inbox of `file` in `m`, or a fresh one if it has none yet.
pub open spec fn inbox_or_fresh(m: Map<u64, InboxModel>, file: FileId) -> InboxModel {
    if m.contains_key(file.0) { m[file.0] } else { fresh_inbox() }
}

/// `m` after `message` is queued to `file`'s inbox (created if missing).
pub open spec fn queue_model(m: Map<u64, InboxModel>, file: FileId, message: QueuedInboxMessage) -> Map<u64, InboxModel> {
    let ib = inbox_or_fresh(m, file);
    m.insert(file.0, InboxModel { messages: ib.messages.push(message), generation: next_generation(ib.generation) })
}

/// `m` after every message of `messages` is queued to `file`'s inbox, in order.
pub open spec fn queue_all_model(m: Map<u64, InboxModel>, file: FileId, messages: Seq<QueuedInboxMessage>) -> Map<u64, InboxModel>
    decreases messages.len(),
{
    if messages.len() == 0 {
        m
    } else {
        queue_all_model(queue_model(m, file, messages[0]), file, messages.drop_first())
    }
}

/// `m` after the `j`-th message of `messages` is queued to the inbox of the `j`-th connection
/// of `files`, for each `j` in order.
pub open spec fn queue_each(m: Map<u64, InboxModel>, files: Seq<FileId>, messages: Seq<QueuedInboxMessage>) -> Map<u64, InboxModel>
    decreases messages.len(),
{
    if messages.len() == 0 {
        m
    } else {
        let j = messages.len() - 1;
        queue_model(queue_each(m, files, messages.drop_last()), files[j], messages[j])
    }
}

/// Queuing each message to its connection only looks at the connections of the messages
/// queued.
pub proof fn lemma_queue_each_prefix(m: Map<u64, InboxModel>, a: Seq<FileId>, b: Seq<FileId>, messages: Seq<QueuedInboxMessage>)
    requires
        forall|j: int| 0 <= j < messages.len() ==> #[trigger] a[j] == b[j],
    ensures
        queue_each(m, a, messages) == queue_each(m, b, messages),
    decreases messages.len(),
{
    if messages.len() > 0 {
        lemma_queue_each_prefix(m, a, b, messages.drop_last());
        assert(a[messages.len() - 1] == b[messages.len() - 1]);
    }
}

/// Queuing each message to its connection gives no inbox to a connection that had none and
/// gets no message.
pub proof fn lemma_queue_each_absent(m: Map<u64, InboxModel>, files: Seq<FileId>, messages: Seq<QueuedInboxMessage>, x: u64)
    requires
        !m.contains_key(x),
        forall|j: int| 0 <= j < messages.len() ==> (#[trigger] files[j]).0 != x,
    ensures
        !queue_each(m, files, messages).contains_key(x),
    decreases messages.len(),
{
    if messages.len() > 0 {
        lemma_queue_each_absent(m, files, messages.drop_last(), x);
        assert(files[messages.len() - 1].0 != x);
    }
}

/// `m` after `file`'s inbox (created if missing) is bumped.
pub open spec fn bump_model(m: Map<u64, InboxModel>, file: FileId) -> Map<u64, InboxModel> {
    let ib = inbox_or_fresh(m, file);
    m.insert(file.0, InboxModel { messages: ib.messages, generation: next_generation(ib.generation) })
}

/// `m` after `file`'s inbox is bumped if it exists.
pub open spec fn notify_model(m: Map<u64, InboxModel>, file: FileId) -> Map<u64, InboxModel> {
    if m.contains_key(file.0) { bump_model(m, file) } else { m }
}

/// `m` after making sure `file` has an inbox.
pub open spec fn ensure_model(m: Map<u64, InboxModel>, file: FileId) -> Map<u64, InboxModel> {
    m.insert(file.0, inbox_or_fresh(m, file))
}

impl MessageInbox {
    pub closed spec fn model(&self) -> InboxModel {
        InboxModel { messages: self.messages@, generation: self.generation }
    }

    pub fn new() -> (r: Self)
        ensures
            r.model() == fresh_inbox(),
    {
        MessageInbox { messages: std::collections::VecDeque::new(), generation: 0 }
    }

    fn queue(&mut self, message: QueuedInboxMessage)
        ensures
            final(self).model() == (InboxModel {
                messages: old(self).model().messages.push(message),
                generation: next_generation(old(self).model().generation),
            }),
    {
        self.messages.push_back(message);
        self.generation = self.generation.wrapping_add(1);
    }

    fn bump(&mut self)
        ensures
            final(self).model() == (InboxModel {
                messages: old(self).model().messages,
                generation: next_generation(old(self).model().generation),
            }),
    {
        self.generation = self.generation.wrapping_add(1);
    }

    fn try_pop(&mut self) -> (r: Option<QueuedInboxMessage>)
        ensures
            old(self).model().messages.len() == 0 ==> r is None && final(self).model() == old(self).model(),
            old(self).model().messages.len() > 0 ==> r == Some(old(self).model().messages[0]) && final(self).model()
                == (InboxModel {
                messages: old(self).model().messages.drop_first(),
                generation: old(self).model().generation,
            }),
    {
        self.messages.pop_front()
    }

    fn generation(&self) -> (g: u64)
        ensures
            g == self.model().generation,
    {
        self.generation
    }
}

/// What a latch that saw some generation reports.
#[derive(Clone, Copy, Debug, PartialEq, Eq, Structural)]
pub enum LatchReadiness {
    /// The inbox is gone: the connection was closed.
    HangUp,
    /// The generation moved since the latch was made: something may be fetched.
    ReadReady,
    /// Nothing happened yet.
    NotReady,
}

/// All inboxes of the module, one per connection that has one.
pub struct Inboxes {
    table: InboxTable,
}

impl Inboxes {
    /// The inbox of each connection, by connection number.
    pub closed spec fn model(&self) -> Map<u64, InboxModel> {
        inbox_entries(self.table).map_values(|ib: MessageInbox| ib.model())
    }

    pub closed spec fn wf(&self) -> bool {
        inbox_entries(self.table).dom().finite()
    }

    pub proof fn lemma_wf(&self)
        requires
            self.wf(),
        ensures
            self.model().dom().finite(),
    {
        assert(self.model().dom() =~= inbox_entries(self.table).dom());
    }

    pub fn new() -> (r: Self)
        ensures
            r.wf(),
            r.model() == Map::<u64, InboxModel>::empty(),
    {
        let r = Inboxes { table: InboxTable::new() };
        assert(r.model() =~= Map::<u64, InboxModel>::empty());
        r
    }

    /// Takes `file`'s inbox out of the table, or makes a fresh one.
    fn take_or_fresh(&mut self, file: FileId) -> (ib: MessageInbox)
        requires
            old(self).wf(),
        ensures
            final(self).wf(),
            ib.model() == inbox_or_fresh(old(self).model(), file),
            final(self).model() == old(self).model().remove(file.0),
    {
        let r = match self.table.remove(file.0) {
            Some(ib) => ib,
            None => MessageInbox::new(),
        };
        assert(self.model() =~= old(self).model().remove(file.0));
        r
    }

    fn put(&mut self, file: FileId, ib: MessageInbox)
        requires
            old(self).wf(),
        ensures
            final(self).wf(),
            final(self).model() == old(self).model().insert(file.0, ib.model()),
    {
        self.table.insert(file.0, ib);
        assert(self.model() =~= old(self).model().insert(file.0, ib.model()));
    }

    /// Queues `message` to `file`'s inbox, creating the inbox if needed.
    pub fn queue(&mut self, file: FileId, message: QueuedInboxMessage)
        requires
            old(self).wf(),
        ensures
            final(self).wf(),
            final(self).model() == queue_model(old(self).model(), file, message),
    {
        let mut ib = self.take_or_fresh(file);
        ib.queue(message);
        self.put(file, ib);
        assert(self.model() =~= queue_model(old(self).model(), file, message));
    }

    /// Moves `file`'s generation, creating the inbox if needed.
    pub fn bump(&mut self, file: FileId)
        requires
            old(self).wf(),
        ensures
            final(self).wf(),
            final(self).model() == bump_model(old(self).model(), file),
    {
        let mut ib = self.take_or_fresh(file);
        ib.bump();
        self.put(file, ib);
        assert(self.model() =~= bump_model(old(self).model(), file));
    }

    /// Moves `file`'s generation if it has an inbox; returns whether it had one.
    pub fn notify(&mut self, file: FileId) -> (woke: bool)
        requires
            old(self).wf(),
        ensures
            final(self).wf(),
            woke == old(self).model().contains_key(file.0),
            final(self).model() == notify_model(old(self).model(), file),
    {
        match self.table.remove(file.0) {
            Some(mut ib) => {
                ib.bump();
                self.put(file, ib);
                assert(self.model() =~= bump_model(old(self).model(), file));
                true
            },
            None => {
                assert(self.model() =~= old(self).model());
                false
            },
        }
    }

    /// Takes the oldest message out of `file`'s inbox, if there is one.
    pub fn fetch(&mut self, file: FileId) -> (r: Option<QueuedInboxMessage>)
        requires
            old(self).wf(),
        ensures
            final(self).wf(),
            match r {
                Some(m) => old(self).model().contains_key(file.0)
                    && old(self).model()[file.0].messages.len() > 0
                    && m == old(self).model()[file.0].messages[0]
                    && final(self).model() == old(self).model().insert(file.0, InboxModel {
                        messages: old(self).model()[file.0].messages.drop_first(),
                        generation: old(self).model()[file.0].generation,
                    }),
                None => (!old(self).model().contains_key(file.0) || old(self).model()[file.0].messages.len() == 0)
                    && final(self).model() == old(self).model(),
            },
    {
        match self.table.remove(file.0) {
            None => {
                assert(self.model() =~= old(self).model());
                None
            },
            Some(mut ib) => {
                let m = ib.try_pop();
                self.put(file, ib);
                assert(self.model() =~= old(self).model().insert(file.0, ib.model()));
                if m.is_none() {
                    assert(self.model() =~= old(self).model());
                }
                m
            },
        }
    }

    /// The generation of `file`'s inbox, creating the inbox if needed.
    pub fn latch_generation(&mut self, file: FileId) -> (g: u64)
        requires
            old(self).wf(),
        ensures
            final(self).wf(),
            final(self).model() == ensure_model(old(self).model(), file),
            g == inbox_or_fresh(old(self).model(), file).generation,
    {
        let ib = self.take_or_fresh(file);
        let g = ib.generation();
        self.put(file, ib);
        assert(self.model() =~= ensure_model(old(self).model(), file));
        g
    }

    /// What a latch of `file` that saw `observed_generation` reports now.
    ///
    /// A poller that gets [`LatchReadiness::NotReady`] registers on the inbox's wait queue and
    /// asks again, so that a message queued in between is not missed.
    pub fn poll_latch(&self, file: FileId, observed_generation: u64) -> (r: LatchReadiness)
        ensures
            r == (if !self.model().contains_key(file.0) {
                LatchReadiness::HangUp
            } else if self.model()[file.0].generation != observed_generation {
                LatchReadiness::ReadReady
            } else {
                LatchReadiness::NotReady
            }),
    {
        match self.table.get(file.0) {
            None => LatchReadiness::HangUp,
            Some(ib) => if ib.generation() != observed_generation {
                LatchReadiness::ReadReady
            } else {
                LatchReadiness::NotReady
            },
        }
    }

    /// Queues a copy of `message` to every inbox there is.
    pub fn broadcast(&mut self, message: QueuedInboxMessage)
        requires
            old(self).wf(),
        ensures
            final(self).wf(),
            final(self).model().dom() == old(self).model().dom(),
            forall|k: u64| #[trigger] old(self).model().contains_key(k) ==> {
                let before = old(self).model()[k];
                let after = final(self).model()[k];
                &&& after.generation == next_generation(before.generation)
                &&& after.messages.len() == before.messages.len() + 1
                &&& after.messages.drop_last() == before.messages
                &&& same_message(after.messages.last().message, message.message)
                &&& after.messages.last().fds@ == message.fds@
            },
    {
        let keys = self.table.keys();
        let ghost original = self.model();
        let mut i: usize = 0;
        while i < keys.len()
            invariant
                i <= keys.len(),
                self.wf(),
                keys@.no_duplicates(),
                keys@.to_set() == original.dom(),
                original == old(self).model(),
                self.model().dom() == original.dom(),
                forall|j: int| i <= j < keys@.len() ==> self.model()[#[trigger] keys@[j]] == original[keys@[j]],
                forall|j: int| 0 <= j < i ==> {
                    let before = original[#[trigger] keys@[j]];
                    let after = self.model()[keys@[j]];
                    &&& after.generation == next_generation(before.generation)
                    &&& after.messages.len() == before.messages.len() + 1
                    &&& after.messages.drop_last() == before.messages
                    &&& same_message(after.messages.last().message, message.message)
                    &&& after.messages.last().fds@ == message.fds@
                },
            decreases keys.len() - i,
        {
            let file = FileId(keys[i]);
            proof {
                assert(keys@.to_set().contains(keys@[i as int]));
            }
            let ghost before = self.model();
            let copy = message.duplicate();
            let mut ib = self.take_or_fresh(file);
            ib.queue(copy);
            self.put(file, ib);
            proof {
                assert(self.model() == before.insert(keys@[i as int], ib.model()));
                assert(self.model().dom() =~= original.dom());
                assert(ib.model().messages.drop_last() =~= before[keys@[i as int]].messages);
                assert forall|j: int| i < j < keys@.len() implies self.model()[#[trigger] keys@[j]] == original[keys@[j]] by {
                    assert(keys@[j] != keys@[i as int]);
                }
                assert forall|j: int| 0 <= j < i + 1 implies {
                    let b = original[#[trigger] keys@[j]];
                    let a = self.model()[keys@[j]];
                    &&& a.generation == next_generation(b.generation)
                    &&& a.messages.len() == b.messages.len() + 1
                    &&& a.messages.drop_last() == b.messages
                    &&& same_message(a.messages.last().message, message.message)
                    &&& a.messages.last().fds@ == message.fds@
                } by {
                    if j < i {
                        assert(keys@[j] != keys@[i as int]);
                    }
                }
            }
            i = i + 1;
        }
        proof {
            assert forall|k: u64| #[trigger] original.contains_key(k) implies {
                let b = original[k];
                let a = self.model()[k];
                &&& a.generation == next_generation(b.generation)
                &&& a.messages.len() == b.messages.len() + 1
                &&& a.messages.drop_last() == b.messages
                &&& same_message(a.messages.last().message, message.message)
                &&& a.messages.last().fds@ == message.fds@
            } by {
                assert(keys@.to_set().contains(k));
                let j = keys@.index_of(k);
            }
        }
    }

    /// Removes `file`'s inbox and hands back what it held.
    pub fn close_inbox(&mut self, file: FileId) -> (r: Option<MessageInbox>)
        requires
            old(self).wf(),
        ensures
            final(self).wf(),
            final(self).model() == old(self).model().remove(file.0),
            match r {
                Some(ib) => old(self).model().contains_key(file.0) && ib.model() == old(self).model()[file.0],
                None => !old(self).model().contains_key(file.0),
            },
    {
        let r = self.table.remove(file.0);
        assert(self.model() =~= old(self).model().remove(file.0));
        r
    }
}

impl MessageInbox {
    /// The messages left in a removed inbox, oldest first.
    pub fn into_messages(self) -> (r: Vec<QueuedInboxMessage>)
        ensures
            r@ == self.model().messages,
    {
        let mut messages = self.messages;
        let mut r: Vec<QueuedInboxMessage> = Vec::new();
        let ghost all = messages@;
        while messages.len() > 0
            invariant
                r@ + messages@ == all,
            decreases messages.len(),
        {
            let ghost before = messages@;
            match messages.pop_front() {
                Some(m) => {
                    r.push(m);
                    assert(r@ + messages@ =~= all);
                },
                None => {},
            }
        }
        assert(r@ =~= all);
        r
    }
}

} // verus!
