//! The module's state and what each command does to it.
//!
//! Work that only the kernel can do (resolving and installing file descriptors, creating latch
//! descriptors, waking poll waiters) is left to the caller: [`State::execute_command`] takes
//! the resolved attachments of the command as an argument and returns a [`Step`] that says
//! what remains to be done; [`finish_delivery`] and [`finish_block`] turn the outcome of that
//! work into the reply.
use vstd::prelude::*;
use crate::protocol::{
    CloseReason, Command, CommandReply, CommandResult, InboxMessage, Origin, RawFd, ReplyStatus, ReplyToken,
    RequestId, StoreSubscriptionServerVerdict, SubscriptionId, TransportError,
};
use crate::kernel::ids::{AuthInfo, FileHandle, FileId};
use crate::kernel::message_inbox::{
    InboxModel, Inboxes, MessageInbox, QueuedInboxMessage, ensure_model, inbox_or_fresh,
    lemma_queue_each_absent, lemma_queue_each_prefix, notify_model, queue_all_model, queue_each, queue_model,
    with_installed_fds,
};
use crate::kernel::reply_tokens::{PendingReply, ReplyTokens, involves};
use crate::kernel::services::{QueuedRequest, Service, is_request_message, issue_tokens};
use crate::kernel::services::store::{
    PendingStoreSubscription, StoreMap, StoreMapModel, StoreName, StorePath, StoreSubscriptionReplyTokens,
    StoreSubscriptionTarget, SubscriptionView, Subscriptions, TargetView, asks, copy_bytes, held_by, is_subscriber,
    on_service, registered, removed_key, removed_keys, reports_removed, request_involves, store_name_problem, updated,
};
use crate::kernel::numbering::{allocated_number, next_number};
use crate::kernel::tables::{ServiceTable, service_entries};
use crate::text::{chars_of, string_of};

verus! {

/// What the caller has to do to finish a command.
pub enum CommandOutcome {
    /// Nothing: this is the reply.
    Reply(CommandResult),
    /// Install the message's attached files in the caller and reply with the message
    /// (see [`finish_delivery`]).
    Deliver(QueuedInboxMessage),
    /// Nothing can be fetched: hand out a latch on `file`'s inbox that remembers `generation`
    /// (see [`finish_block`]).
    Block { file: FileId, generation: u64 },
}

/// The result of one command: the outcome, and the connection whose inbox waiters have to be
/// woken, if any.
pub struct Step {
    pub outcome: CommandOutcome,
    pub wake: Option<FileId>,
    /// Further connections whose inboxes got a message and whose waiters have to be woken
    /// (a store update reaches every subscriber), in the order the messages were queued.
    pub fanout: Vec<FileId>,
}

/// The mathematical value of the module's state.
pub struct StateModel {
    /// Bound services by name.
    pub services: Map<Seq<char>, Service>,
    /// Inboxes by connection number.
    pub inboxes: Map<u64, InboxModel>,
    /// Where the next reply-token allocation starts.
    pub token_next: u64,
    /// Outstanding reply tokens.
    pub tokens: Map<u64, PendingReply>,
    /// Named and anonymous stores.
    pub stores: StoreMapModel,
    /// Store subscriptions by (connection, subscription id).
    pub subscriptions: Map<(u64, u64), SubscriptionView>,
    /// Where the next store-subscription token allocation starts.
    pub store_token_next: u64,
    /// Subscription requests waiting for their service's answer, by token.
    pub store_tokens: Map<u64, PendingStoreSubscription>,
}

/// What was removed when a connection closed.
pub struct CleanupReport {
    /// The connection's inbox, with the messages nobody fetched.
    pub closed_inbox: Option<MessageInbox>,
    /// The services the connection had bound, with their unfetched calls.
    pub closed_services: Vec<Service>,
    /// The connections told that one of those services went away, one per subscription they
    /// held on its stores, in the order the messages were queued: their waiters have to be
    /// woken.
    pub woken: Vec<FileId>,
}

/// The names of `services`, in order.
pub open spec fn names_of(services: Seq<Service>) -> Seq<Seq<char>> {
    services.map_values(|s: Service| s.name@)
}

/// The identity a call carries: the caller's credentials as seen by the module.
pub open spec fn origin_of(auth: AuthInfo) -> Origin {
    Origin { pid: auth.pid_with_ns.pid as u32, uid: auth.uid, gid: 0, is_trusted: auth.is_trusted }
}

pub open spec fn is_ascii_alphanumeric(c: char) -> bool {
    ('0' <= c && c <= '9') || ('a' <= c && c <= 'z') || ('A' <= c && c <= 'Z')
}

/// The step replies `result` and wakes nobody.
pub open spec fn replies(step: Step, result: Result<CommandReply, TransportError>) -> bool {
    step.outcome == CommandOutcome::Reply(CommandResult(result)) && step.wake is None && step.fanout@.len() == 0
}

/// The step refuses a service name with `message` and wakes nobody.
pub open spec fn refuses_name(step: Step, message: Seq<char>) -> bool {
    &&& step.outcome matches CommandOutcome::Reply(CommandResult(Err(TransportError::InvalidServiceName { message: m })))
    &&& m@ == message
    &&& step.wake is None
    &&& step.fanout@.len() == 0
}

/// `s` is what binding `name` from `file` as `auth` creates.
pub open spec fn is_new_service(s: Service, name: String, auth: AuthInfo, file: FileId) -> bool {
    s.name == name && s.auth_info == auth && s.file_id == file && s.queue().len() == 0
}

/// `s2` is `s` with the same identity and `queue` as its queue.
pub open spec fn same_service_with_queue(s: Service, s2: Service, queue: Seq<QueuedRequest>) -> bool {
    s2.name == s.name && s2.auth_info == s.auth_info && s2.file_id == s.file_id && s2.queue() == queue
}

/// `m` is the reply message a client receives for its call `request_id`.
pub open spec fn is_reply_message(
    m: QueuedInboxMessage,
    request_id: RequestId,
    status: ReplyStatus,
    payload: Vec<u8>,
    files: Vec<FileHandle>,
) -> bool {
    &&& m.fds == files
    &&& m.message matches InboxMessage::FunctionCallReply { request_id: r, status: st, payload: p, fds }
    &&& r == request_id
    &&& st == status
    &&& p == payload
    &&& fds@.len() == 0
}

/// `BindService`: only trusted system daemons (uid below 1000) may bind; the name must have
/// no spaces, at most 30 bytes, only ASCII letters and digits, and must be free.
pub open spec fn bind_step(m: StateModel, m2: StateModel, name: String, auth: AuthInfo, file: FileId, step: Step) -> bool {
    if !(auth.is_trusted && auth.uid < 1000) {
        m2 == m && replies(step, Err(TransportError::Unauthorized))
    } else if name@.contains(' ') {
        m2 == m && refuses_name(step, "Service names cannot contain spaces"@)
    } else if vstd::utf8::encode_utf8(name@).len() > 30 {
        m2 == m && refuses_name(step, "Service name is too long. Expected length between 0 and 30 characters"@)
    } else if !(forall|i: int| 0 <= i < name@.len() ==> is_ascii_alphanumeric(#[trigger] name@[i])) {
        m2 == m && refuses_name(step, "Service names must only contain letters and numbers"@)
    } else if m.services.contains_key(name@) {
        m2 == m && replies(step, Err(TransportError::ServiceNameConflict))
    } else {
        &&& m2 == StateModel { services: m.services.insert(name@, m2.services[name@]), ..m }
        &&& is_new_service(m2.services[name@], name, auth, file)
        &&& replies(step, Ok(CommandReply::ServiceBound))
    }
}

/// `FunctionCall`: the call is queued for the service and the service's inbox is notified.
pub open spec fn call_step(
    m: StateModel,
    m2: StateModel,
    service: String,
    method: String,
    request_id: RequestId,
    payload: Vec<u8>,
    auth: AuthInfo,
    file: FileId,
    resolved: Option<Vec<FileHandle>>,
    step: Step,
) -> bool {
    if !m.services.contains_key(service@) {
        m2 == m && replies(step, Err(TransportError::NoSuchService))
    } else {
        match resolved {
            None => m2 == m && replies(step, Err(TransportError::InvalidFileDescriptor)),
            Some(files) => {
                let svc = m.services[service@];
                let call = QueuedRequest {
                    client_file_id: file,
                    origin: origin_of(auth),
                    method,
                    request_id,
                    payload,
                    fds: files,
                };
                &&& m2 == StateModel {
                    services: m.services.insert(service@, m2.services[service@]),
                    inboxes: notify_model(m.inboxes, svc.file_id),
                    ..m
                }
                &&& same_service_with_queue(svc, m2.services[service@], svc.queue().push(call))
                &&& step.outcome == CommandOutcome::Reply(
                    CommandResult(Ok(CommandReply::FunctionCallAccepted { request_id })),
                )
                &&& step.wake == (if m.inboxes.contains_key(svc.file_id.0) { Some(svc.file_id) } else { None })
                &&& step.fanout@.len() == 0
            },
        }
    }
}

/// `FunctionCallReply`: the token must be outstanding and issued for a call to this very
/// connection; it is used up (even when an attached descriptor is bad), and the reply is
/// queued to the client.
pub open spec fn reply_step(
    m: StateModel,
    m2: StateModel,
    token: ReplyToken,
    status: ReplyStatus,
    payload: Vec<u8>,
    file: FileId,
    resolved: Option<Vec<FileHandle>>,
    step: Step,
) -> bool {
    match m.tokens.get(token.0) {
        Some(p) if p.service_file_id == file => {
            let m1 = StateModel { tokens: m.tokens.remove(token.0), ..m };
            match resolved {
                None => m2 == m1 && replies(step, Err(TransportError::InvalidFileDescriptor)),
                Some(files) => {
                    let queued = m2.inboxes[p.client_file_id.0].messages.last();
                    &&& m2 == StateModel { inboxes: queue_model(m.inboxes, p.client_file_id, queued), ..m1 }
                    &&& is_reply_message(queued, p.request_id, status, payload, files)
                    &&& step.outcome == CommandOutcome::Reply(CommandResult(Ok(CommandReply::FunctionCallReplyAccepted)))
                    &&& step.wake == Some(p.client_file_id)
                    &&& step.fanout@.len() == 0
                },
            }
        },
        _ => m2 == m && replies(step, Err(TransportError::InvalidReplyToken)),
    }
}

/// Nothing to fetch: `file` gets an inbox if it had none, and a latch on its generation.
pub open spec fn block_step(m: StateModel, m2: StateModel, file: FileId, step: Step) -> bool {
    &&& m2 == StateModel { inboxes: ensure_model(m.inboxes, file), ..m }
    &&& step.outcome == CommandOutcome::Block { file, generation: inbox_or_fresh(m.inboxes, file).generation }
    &&& step.wake is None
    &&& step.fanout@.len() == 0
}

/// Fetch through the service `name` that `file` provides: its queued calls become request
/// messages with fresh reply tokens; the first is delivered and the others are queued to
/// `file`'s inbox. With no queued calls this is a [`block_step`].
pub open spec fn flush_step(m: StateModel, m2: StateModel, name: Seq<char>, file: FileId, step: Step) -> bool {
    let svc = m.services[name];
    let q = svc.queue();
    if q.len() == 0 {
        block_step(m, m2, file, step)
    } else {
        let (next, tokens, issued) = issue_tokens(m.token_next, m.tokens, q, svc.file_id);
        exists|msgs: Seq<QueuedInboxMessage>|
            #![trigger msgs.drop_first()]
            {
                &&& msgs.len() == q.len()
                &&& forall|i: int| 0 <= i < msgs.len() ==> is_request_message(#[trigger] msgs[i], svc.name, q[i], issued[i])
                &&& m2 == StateModel {
                    services: m.services.insert(name, m2.services[name]),
                    inboxes: queue_all_model(m.inboxes, file, msgs.drop_first()),
                    token_next: next,
                    tokens,
                    ..m
                }
                &&& same_service_with_queue(svc, m2.services[name], Seq::empty())
                &&& step.outcome == CommandOutcome::Deliver(msgs[0])
                &&& step.wake == (if msgs.len() > 1 { Some(file) } else { None })
                &&& step.fanout@.len() == 0
            }
    }
}

/// `file` provides the service `name`.
pub open spec fn provides(m: StateModel, name: Seq<char>, file: FileId) -> bool {
    m.services.contains_key(name) && m.services[name].file_id == file
}

/// `InboxNextMessage`: the oldest message of `file`'s inbox; failing that, the queued calls of
/// one of the services `file` provides (whichever the service table yields first); failing
/// that, a latch.
pub open spec fn fetch_step(m: StateModel, m2: StateModel, file: FileId, step: Step) -> bool {
    if m.inboxes.contains_key(file.0) && m.inboxes[file.0].messages.len() > 0 {
        let ib = m.inboxes[file.0];
        &&& step.outcome == CommandOutcome::Deliver(ib.messages[0])
        &&& step.wake is None
        &&& step.fanout@.len() == 0
        &&& m2 == StateModel {
            inboxes: m.inboxes.insert(file.0, InboxModel { messages: ib.messages.drop_first(), generation: ib.generation }),
            ..m
        }
    } else if !(exists|name: Seq<char>| provides(m, name, file)) {
        block_step(m, m2, file, step)
    } else {
        exists|name: Seq<char>| provides(m, name, file) && flush_step(m, m2, name, file, step)
    }
}

/// The step refuses a store name with `message` and wakes nobody.
pub open spec fn refuses_store_name(step: Step, message: Seq<char>) -> bool {
    &&& step.outcome matches CommandOutcome::Reply(CommandResult(Err(TransportError::InvalidStoreName { message: m })))
    &&& m@ == message
    &&& step.wake is None
    &&& step.fanout@.len() == 0
}

/// The step confirms with `reply`, wakes `woken` and nobody else.
pub open spec fn confirms(step: Step, reply: CommandReply, woken: FileId) -> bool {
    &&& step.outcome == CommandOutcome::Reply(CommandResult(Ok(reply)))
    &&& step.wake == Some(woken)
    &&& step.fanout@.len() == 0
}

/// `m` tells a subscriber, under its subscription `id`, that the store `store` of `service`
/// now holds `value`.
pub open spec fn is_update_message(m: QueuedInboxMessage, service: Seq<char>, store: Seq<char>, id: SubscriptionId, value: Seq<u8>) -> bool {
    &&& m.fds@.len() == 0
    &&& m.message matches InboxMessage::StoreSubscriptionUpdated { service: s, store: k, subscription_id: i, payload: p }
    &&& s@ == service
    &&& k@ == store
    &&& i == id
    &&& p@ == value
}

/// `m` tells a client that its subscription `id` to the store `store` of `service` stands,
/// with the store's `value` and `timestamp` at that moment.
pub open spec fn is_accepted_message(
    m: QueuedInboxMessage,
    service: Seq<char>,
    store: Seq<char>,
    id: SubscriptionId,
    value: Seq<u8>,
    timestamp: isize,
) -> bool {
    &&& m.fds@.len() == 0
    &&& m.message matches InboxMessage::StoreSubscriptionAccepted {
        service: s,
        store: k,
        subscription_id: i,
        current_value: v,
        last_updated_timestamp: t,
    }
    &&& s@ == service
    &&& k@ == store
    &&& i == id
    &&& v@ == value
    &&& t == timestamp
}

/// `m` tells a client that the service refused its subscription `id` with `message`.
pub open spec fn is_rejected_message(m: QueuedInboxMessage, service: Seq<char>, store: Seq<char>, id: SubscriptionId, message: Seq<char>) -> bool {
    &&& m.fds@.len() == 0
    &&& m.message matches InboxMessage::StoreSubscriptionRejected { service: s, store: k, subscription_id: i, message: t }
    &&& s@ == service
    &&& k@ == store
    &&& i == id
    &&& t@ == message
}

/// `m` asks a service to answer, with `token`, the subscription request `id` of a client
/// with identity `origin`.
pub open spec fn is_subscribe_request(
    m: QueuedInboxMessage,
    service: Seq<char>,
    store: Seq<char>,
    id: SubscriptionId,
    token: u64,
    origin: Origin,
    payload: Seq<u8>,
) -> bool {
    &&& m.fds@.len() == 0
    &&& m.message matches InboxMessage::SubscribeRequest {
        service: s,
        store: k,
        subscription_id: i,
        reply_token: t,
        origin: o,
        payload: p,
    }
    &&& s@ == service
    &&& k@ == store
    &&& i == id
    &&& t.0 == token
    &&& o == origin
    &&& p@ == payload
}

/// The connections of `subs`, in order.
pub open spec fn files_of(subs: Seq<(FileId, SubscriptionId)>) -> Seq<FileId> {
    subs.map_values(|x: (FileId, SubscriptionId)| x.0)
}

/// The checks that creating or updating the store `store` of `service` from `file` makes
/// first, in order: the service exists, `file` bound it, and the store name is valid. `None`
/// when all pass; otherwise what the step does.
pub open spec fn owner_refusal(m: StateModel, service: Seq<char>, store: Seq<char>, file: FileId, step: Step) -> Option<bool> {
    if !m.services.contains_key(service) {
        Some(replies(step, Err(TransportError::NoSuchService)))
    } else if m.services[service].file_id != file {
        Some(replies(step, Err(TransportError::Unauthorized)))
    } else if store_name_problem(store) is Some {
        Some(refuses_store_name(step, store_name_problem(store)->0))
    } else {
        None
    }
}

/// `StoreCreate`: the service must exist and be bound by `file`, the name must be a valid
/// store name that the service does not use yet; then the store is registered with
/// `value`, stamped with the next timestamp.
pub open spec fn store_create_step(m: StateModel, m2: StateModel, service: String, store: String, value: Vec<u8>, public: bool, file: FileId, step: Step) -> bool {
    let k = (service@, store@);
    match owner_refusal(m, service@, store@, file, step) {
        Some(refusal) => m2 == m && refusal,
        None => if m.stores.stores.contains_key(k) {
            m2 == m && replies(step, Err(TransportError::StoreAlreadyExists))
        } else {
            &&& m2 == StateModel { stores: registered(m.stores, k, value@, public), ..m }
            &&& replies(step, Ok(CommandReply::StoreCreateAccepted))
        },
    }
}

/// `StoreUpdate`: the service must exist and be bound by `file`, the store must exist; then
/// it holds `value`, stamped with the next timestamp, and every subscriber gets an update
/// message (the subscribers in the order the subscription table yields them).
pub open spec fn store_update_step(m: StateModel, m2: StateModel, service: String, store: String, value: Vec<u8>, file: FileId, step: Step) -> bool {
    let k = (service@, store@);
    match owner_refusal(m, service@, store@, file, step) {
        Some(refusal) => m2 == m && refusal,
        None => if !m.stores.stores.contains_key(k) {
            m2 == m && replies(step, Err(TransportError::NoSuchStore))
        } else {
            exists|subs: Seq<(FileId, SubscriptionId)>, msgs: Seq<QueuedInboxMessage>|
                #![trigger queue_each(m.inboxes, files_of(subs), msgs)]
                {
                    &&& subs.no_duplicates()
                    &&& forall|x: (FileId, SubscriptionId)| #[trigger] subs.contains(x) <==> is_subscriber(m.subscriptions, TargetView::Named(k), x)
                    &&& msgs.len() == subs.len()
                    &&& forall|j: int| 0 <= j < subs.len() ==> is_update_message(#[trigger] msgs[j], service@, store@, subs[j].1, value@)
                    &&& m2 == StateModel { stores: updated(m.stores, k, value@), inboxes: queue_each(m.inboxes, files_of(subs), msgs), ..m }
                    &&& step.outcome == CommandOutcome::Reply(CommandResult(Ok(CommandReply::StoreUpdateAccepted)))
                    &&& step.wake is None
                    &&& step.fanout@ == files_of(subs)
                }
        },
    }
}

/// `StoreSubscribe`: the service and the store must exist and `file` must not use `id` for
/// another subscription. A public store takes the subscription at once and sends the client
/// the store's current value; for a private one the request goes, with a fresh token, to the
/// service, whose answer decides. Either way the command is confirmed.
pub open spec fn store_subscribe_step(
    m: StateModel,
    m2: StateModel,
    service: String,
    store: String,
    id: SubscriptionId,
    payload: Vec<u8>,
    auth: AuthInfo,
    file: FileId,
    step: Step,
) -> bool {
    let k = (service@, store@);
    if !m.services.contains_key(service@) {
        m2 == m && replies(step, Err(TransportError::NoSuchService))
    } else if store_name_problem(store@) is Some {
        m2 == m && refuses_store_name(step, store_name_problem(store@)->0)
    } else if !m.stores.stores.contains_key(k) {
        m2 == m && replies(step, Err(TransportError::NoSuchStore))
    } else if m.subscriptions.contains_key((file.0, id.0)) {
        m2 == m && replies(step, Err(TransportError::SubscriptionIdConflict))
    } else if m.stores.stores[k].public {
        let s = m.stores.stores[k];
        let queued = m2.inboxes[file.0].messages.last();
        &&& m2 == StateModel {
            subscriptions: m.subscriptions.insert((file.0, id.0), SubscriptionView { target: TargetView::Named(k), file }),
            inboxes: queue_model(m.inboxes, file, queued),
            ..m
        }
        &&& is_accepted_message(queued, service@, store@, id, s.value, s.timestamp)
        &&& confirms(step, CommandReply::StoreSubscriptionAccepted { subscription_id: id }, file)
    } else {
        let owner = m.services[service@].file_id;
        let queued = m2.inboxes[owner.0].messages.last();
        let t = queued.message->SubscribeRequest_reply_token.0;
        let p = m2.store_tokens[t];
        &&& allocated_number(m.store_token_next, m.store_tokens.dom(), t)
        &&& m2 == StateModel {
            inboxes: queue_model(m.inboxes, owner, queued),
            store_token_next: next_number(t),
            store_tokens: m.store_tokens.insert(t, p),
            ..m
        }
        &&& p.client_file_id == file && p.service_file_id == owner && p.subscription_id == id && p.target@ == TargetView::Named(k)
        &&& is_subscribe_request(queued, service@, store@, id, t, origin_of(auth), payload@)
        &&& confirms(step, CommandReply::StoreSubscriptionAccepted { subscription_id: id }, owner)
    }
}

/// `StoreSubscriptionReply`: the token must be outstanding and issued for a request to this
/// very connection; it is used up. A rejection is passed on to the client; an acceptance
/// takes the subscription, if the store is still there and the client has not taken the
/// id meanwhile, and sends the client the store's current value.
pub open spec fn store_reply_step(m: StateModel, m2: StateModel, token: ReplyToken, verdict: StoreSubscriptionServerVerdict, file: FileId, step: Step) -> bool {
    match m.store_tokens.get(token.0) {
        Some(p) if p.service_file_id == file => {
            let m1 = StateModel { store_tokens: m.store_tokens.remove(token.0), ..m };
            let k = p.target@->Named_0;
            let client = p.client_file_id;
            let id = p.subscription_id;
            let queued = m2.inboxes[client.0].messages.last();
            match verdict {
                StoreSubscriptionServerVerdict::Rejected { message } => {
                    &&& m2 == StateModel { inboxes: queue_model(m.inboxes, client, queued), ..m1 }
                    &&& is_rejected_message(queued, k.0, k.1, id, message@)
                    &&& confirms(step, CommandReply::StoreSubscriptionReplyAccepted, client)
                },
                StoreSubscriptionServerVerdict::Accepted => if !m.stores.stores.contains_key(k) {
                    m2 == m1 && replies(step, Err(TransportError::NoSuchStore))
                } else if m.subscriptions.contains_key((client.0, id.0)) {
                    m2 == m1 && replies(step, Err(TransportError::SubscriptionIdConflict))
                } else {
                    let s = m.stores.stores[k];
                    &&& m2 == StateModel {
                        subscriptions: m.subscriptions.insert((client.0, id.0), SubscriptionView { target: TargetView::Named(k), file: client }),
                        inboxes: queue_model(m.inboxes, client, queued),
                        ..m1
                    }
                    &&& is_accepted_message(queued, k.0, k.1, id, s.value, s.timestamp)
                    &&& confirms(step, CommandReply::StoreSubscriptionReplyAccepted, client)
                },
            }
        },
        _ => m2 == m && replies(step, Err(TransportError::InvalidReplyToken)),
    }
}

/// `StoreUnsubscribe`: ends the subscription `id` of `file`, if it holds one, and withdraws
/// the requests `file` made under `id` that no service has answered yet; refused if there was
/// neither.
pub open spec fn store_unsubscribe_step(m: StateModel, m2: StateModel, id: SubscriptionId, file: FileId, step: Step) -> bool {
    let k = (file.0, id.0);
    let held = m.subscriptions.contains_key(k) && m.subscriptions[k].file == file;
    let asked = exists|t: u64| #[trigger] m.store_tokens.contains_key(t) && asks(m.store_tokens[t], file, id);
    if held || asked {
        &&& m2 == StateModel {
            subscriptions: if held { m.subscriptions.remove(k) } else { m.subscriptions },
            store_tokens: m.store_tokens.restrict(m.store_tokens.dom().filter(|t: u64| !asks(m.store_tokens[t], file, id))),
            ..m
        }
        &&& replies(step, Ok(CommandReply::StoreUnsubscribed))
    } else {
        m2 == m && replies(step, Err(TransportError::NoSuchSubscription))
    }
}

/// The subscription `v` is on a named store of one of the services `names`.
pub open spec fn on_services(v: SubscriptionView, names: Set<Seq<char>>) -> bool {
    v.target matches TargetView::Named(p) && names.contains(p.0)
}

/// The service whose named store the subscription `v` is on.
pub open spec fn service_of(v: SubscriptionView) -> Seq<char> {
    v.target->Named_0.0
}

/// `q` tells a subscriber that the service `service` went away with its provider.
pub open spec fn is_service_closed_message(q: QueuedInboxMessage, service: Seq<char>) -> bool {
    &&& q.fds@.len() == 0
    &&& q.message matches InboxMessage::ServiceClosed { service: s, reason: r }
    &&& s@ == service
    &&& r == CloseReason::ServiceExited
}

/// The names of the services that `file` provides in `m`.
pub open spec fn provided_by(m: StateModel, file: FileId) -> Set<Seq<char>> {
    m.services.dom().filter(|n: Seq<char>| m.services[n].file_id == file)
}

/// The holders of the subscriptions `keys` of `subs`, in order.
pub open spec fn holders(subs: Map<(u64, u64), SubscriptionView>, keys: Seq<(u64, u64)>) -> Seq<FileId> {
    keys.map_values(|k: (u64, u64)| subs[k].file)
}

/// `woken` lists, one per subscription of `subs` that `picked` selects, the connection holding
/// it, and `inboxes2` is `inboxes` after each of them is told, in that order, that the service
/// of its store went away.
pub open spec fn notifies_closed(
    subs: Map<(u64, u64), SubscriptionView>,
    picked: Set<(u64, u64)>,
    inboxes: Map<u64, InboxModel>,
    inboxes2: Map<u64, InboxModel>,
    woken: Seq<FileId>,
) -> bool {
    exists|keys: Seq<(u64, u64)>, msgs: Seq<QueuedInboxMessage>|
        #![trigger holders(subs, keys), queue_each(inboxes, woken, msgs)]
        {
            &&& keys.no_duplicates()
            &&& keys.to_set() == picked
            &&& msgs.len() == keys.len()
            &&& forall|j: int| 0 <= j < keys.len() ==> is_service_closed_message(#[trigger] msgs[j], service_of(subs[keys[j]]))
            &&& woken == holders(subs, keys)
            &&& inboxes2 == queue_each(inboxes, woken, msgs)
        }
}

/// What `command` from `file` (opened as `auth`) does, given the files its descriptors
/// resolved to (`None` if one of them was bad).
pub open spec fn command_step(
    m: StateModel,
    m2: StateModel,
    command: Command,
    auth: AuthInfo,
    file: FileId,
    resolved: Option<Vec<FileHandle>>,
    step: Step,
) -> bool {
    match command {
        Command::BindService { name } => bind_step(m, m2, name, auth, file, step),
        Command::FunctionCall { service, method, request_id, payload, fds } =>
            call_step(m, m2, service, method, request_id, payload, auth, file, resolved, step),
        Command::FunctionCallReply { reply_token, status, payload, fds } =>
            reply_step(m, m2, reply_token, status, payload, file, resolved, step),
        Command::InboxNextMessage => fetch_step(m, m2, file, step),
        Command::StoreCreate { service, store, initial_value, public } =>
            store_create_step(m, m2, service, store, initial_value, public, file, step),
        Command::StoreUpdate { service, store, value } => store_update_step(m, m2, service, store, value, file, step),
        Command::StoreSubscribe { service, store, subscription_id, payload } =>
            store_subscribe_step(m, m2, service, store, subscription_id, payload, auth, file, step),
        Command::StoreSubscriptionReply { reply_token, verdict } => store_reply_step(m, m2, reply_token, verdict, file, step),
        Command::StoreUnsubscribe { subscription_id } => store_unsubscribe_step(m, m2, subscription_id, file, step),
    }
}

/// Every service's queued calls can get reply tokens, and a subscription request can get a
/// store-subscription token, without running out of token numbers.
pub open spec fn has_token_room(m: StateModel) -> bool {
    &&& forall|name: Seq<char>|
        #[trigger] m.services.contains_key(name) ==> m.tokens.len() + m.services[name].queue().len() < u64::MAX
    &&& m.store_tokens.len() < u64::MAX
}

/// Every pending subscription request is for a named store.
pub open spec fn requests_are_named(tokens: Map<u64, PendingStoreSubscription>) -> bool {
    forall|t: u64| #[trigger] tokens.contains_key(t) ==> tokens[t].target@ is Named
}

/// The module's state: bound services, inboxes, outstanding reply tokens, stores,
/// subscriptions and unanswered subscription requests.
pub struct State {
    services: ServiceTable,
    inboxes: Inboxes,
    reply_tokens: ReplyTokens,
    stores: StoreMap,
    subscriptions: Subscriptions,
    store_tokens: StoreSubscriptionReplyTokens,
}

impl State {
    pub closed spec fn model(&self) -> StateModel {
        StateModel {
            services: service_entries(self.services),
            inboxes: self.inboxes.model(),
            token_next: self.reply_tokens.next_token(),
            tokens: self.reply_tokens.pending(),
            stores: self.stores.model(),
            subscriptions: self.subscriptions.model(),
            store_token_next: self.store_tokens.next_token(),
            store_tokens: self.store_tokens.pending(),
        }
    }

    pub closed spec fn wf(&self) -> bool {
        &&& self.reply_tokens.wf()
        &&& self.inboxes.wf()
        &&& service_entries(self.services).dom().finite()
        &&& forall|k: Seq<char>| #[trigger] service_entries(self.services).contains_key(k) ==> service_entries(self.services)[k].name@ == k
        &&& self.stores.wf()
        &&& self.subscriptions.wf()
        &&& self.store_tokens.wf()
        &&& requests_are_named(self.store_tokens.pending())
    }

    /// What the invariant says, in terms of the model.
    pub proof fn lemma_wf(&self)
        requires
            self.wf(),
        ensures
            self.model().services.dom().finite(),
            self.model().inboxes.dom().finite(),
            self.model().tokens.dom().finite(),
            !self.model().tokens.contains_key(0),
            self.model().token_next != 0,
            forall|k: Seq<char>| #[trigger] self.model().services.contains_key(k) ==> self.model().services[k].name@ == k,
            self.model().subscriptions.dom().finite(),
            forall|k: (u64, u64)| #[trigger] self.model().subscriptions.contains_key(k) ==> self.model().subscriptions[k].file.0 == k.0,
            self.model().store_tokens.dom().finite(),
            !self.model().store_tokens.contains_key(0),
            self.model().store_token_next != 0,
            requests_are_named(self.model().store_tokens),
            crate::kernel::services::store::stamps_are_older(self.model().stores),
    {
        self.reply_tokens.lemma_wf();
        self.inboxes.lemma_wf();
        self.subscriptions.lemma_wf();
        self.store_tokens.lemma_wf();
        self.stores.lemma_wf();
    }

    pub fn new() -> (s: Self)
        ensures
            s.wf(),
            s.model().services == Map::<Seq<char>, Service>::empty(),
            s.model().inboxes == Map::<u64, InboxModel>::empty(),
            s.model().tokens == Map::<u64, PendingReply>::empty(),
            s.model().token_next == 1,
            s.model().stores.stores == Map::<(Seq<char>, Seq<char>), crate::kernel::services::store::StoreView>::empty(),
            s.model().subscriptions == Map::<(u64, u64), SubscriptionView>::empty(),
            s.model().store_tokens == Map::<u64, PendingStoreSubscription>::empty(),
            s.model().store_token_next == 1,
    {
        State {
            services: ServiceTable::new(),
            inboxes: Inboxes::new(),
            reply_tokens: ReplyTokens::new(),
            stores: StoreMap::new(),
            subscriptions: Subscriptions::new(),
            store_tokens: StoreSubscriptionReplyTokens::new(),
        }
    }

    pub fn inboxes(&self) -> (r: &Inboxes)
        ensures
            r.model() == self.model().inboxes,
    {
        &self.inboxes
    }

    /// Whether [`has_token_room`] holds, so that [`Self::execute_command`] may be called.
    pub fn has_token_room(&self) -> (r: bool)
        requires
            self.wf(),
        ensures
            r == has_token_room(self.model()),
    {
        let outstanding = self.reply_tokens.len();
        let keys = self.services.keys();
        let ghost names = keys@.map_values(|k: String| k@);
        let mut k: usize = 0;
        while k < keys.len()
            invariant
                k <= keys.len(),
                names == keys@.map_values(|k: String| k@),
                names.to_set() == self.model().services.dom(),
                outstanding == self.model().tokens.len(),
                forall|j: int| 0 <= j < k ==> self.model().tokens.len() + self.model().services[#[trigger] names[j]].queue().len() < u64::MAX,
            decreases keys.len() - k,
        {
            proof {
                assert(names[k as int] == keys@[k as int]@);
                assert(names.to_set().contains(names[k as int]));
            }
            let svc = self.services.get(keys[k].as_str()).unwrap();
            if (outstanding as u128) + (svc.request_queue.len() as u128) >= (u64::MAX as u128) {
                proof {
                    assert(names.to_set().contains(names[k as int]));
                }
                return false;
            }
            k = k + 1;
        }
        proof {
            assert forall|name: Seq<char>| #[trigger] self.model().services.contains_key(name) implies self.model().tokens.len()
                + self.model().services[name].queue().len() < u64::MAX by {
                assert(names.to_set().contains(name));
                let j = names.index_of(name);
            }
        }
        (self.store_tokens.len() as u128) < (u64::MAX as u128)
    }
}

/// The identity a call from a connection opened as `auth` carries.
pub fn origin_from(auth: AuthInfo) -> (o: Origin)
    ensures
        o == origin_of(auth),
{
    Origin { pid: auth.pid_with_ns.pid as u32, uid: auth.uid, gid: 0, is_trusted: auth.is_trusted }
}

fn reply(result: Result<CommandReply, TransportError>) -> (step: Step)
    ensures
        replies(step, result),
{
    Step { outcome: CommandOutcome::Reply(CommandResult(result)), wake: None, fanout: Vec::new() }
}

fn refuse_name(message: &str) -> (step: Step)
    ensures
        refuses_name(step, message@),
{
    reply(Err(TransportError::InvalidServiceName { message: string_of(message) }))
}

fn refuse_store(message: String) -> (step: Step)
    ensures
        refuses_store_name(step, message@),
{
    reply(Err(TransportError::InvalidStoreName { message }))
}

impl State {
    /// Runs one command from the connection `file`, opened as `auth_info`.
    ///
    /// `resolved` holds the files that the command's descriptors refer to, or `None` if one of
    /// them is not a valid descriptor of the caller; it is only looked at by commands that
    /// carry descriptors, at the point where they need them.
    pub fn execute_command(
        &mut self,
        command: Command,
        auth_info: AuthInfo,
        file: FileId,
        resolved: Option<Vec<FileHandle>>,
    ) -> (step: Step)
        requires
            old(self).wf(),
            has_token_room(old(self).model()),
        ensures
            final(self).wf(),
            command_step(old(self).model(), final(self).model(), command, auth_info, file, resolved, step),
    {
        match command {
            Command::BindService { name } => self.bind_service(name, auth_info, file),
            Command::FunctionCall { service, method, request_id, payload, fds } =>
                self.function_call(service, method, request_id, payload, auth_info, file, resolved),
            Command::FunctionCallReply { reply_token, status, payload, fds } =>
                self.function_call_reply(reply_token, status, payload, file, resolved),
            Command::InboxNextMessage => self.next_message(file),
            Command::StoreCreate { service, store, initial_value, public } =>
                self.store_create(service, store, initial_value, public, file),
            Command::StoreUpdate { service, store, value } => self.store_update(service, store, value, file),
            Command::StoreSubscribe { service, store, subscription_id, payload } =>
                self.store_subscribe(service, store, subscription_id, payload, auth_info, file),
            Command::StoreSubscriptionReply { reply_token, verdict } =>
                self.store_subscription_reply(reply_token, verdict, file),
            Command::StoreUnsubscribe { subscription_id } => self.store_unsubscribe(subscription_id, file),
        }
    }

    fn bind_service(&mut self, name: String, auth_info: AuthInfo, file: FileId) -> (step: Step)
        requires
            old(self).wf(),
        ensures
            final(self).wf(),
            bind_step(old(self).model(), final(self).model(), name, auth_info, file, step),
    {
        let is_system_daemon = auth_info.is_trusted && auth_info.uid < 1000;
        if !is_system_daemon {
            return reply(Err(TransportError::Unauthorized));
        }
        if crate::text::contains_char(name.as_str(), ' ') {
            return refuse_name("Service names cannot contain spaces");
        }
        if crate::text::byte_len_exceeds(name.as_str(), 30) {
            return refuse_name("Service name is too long. Expected length between 0 and 30 characters");
        }
        if !crate::text::all_ascii_alphanumeric(name.as_str()) {
            return refuse_name("Service names must only contain letters and numbers");
        }
        if self.services.get(name.as_str()).is_some() {
            return reply(Err(TransportError::ServiceNameConflict));
        }
        let key = name.clone();
        self.services.insert(key, Service::new(name, auth_info, file));
        reply(Ok(CommandReply::ServiceBound))
    }

    fn function_call(
        &mut self,
        service: String,
        method: String,
        request_id: RequestId,
        payload: Vec<u8>,
        auth_info: AuthInfo,
        file: FileId,
        resolved: Option<Vec<FileHandle>>,
    ) -> (step: Step)
        requires
            old(self).wf(),
        ensures
            final(self).wf(),
            call_step(old(self).model(), final(self).model(), service, method, request_id, payload, auth_info, file, resolved, step),
    {
        let mut svc = match self.services.remove(service.as_str()) {
            Some(svc) => svc,
            None => {
                assert(service_entries(self.services) =~= service_entries(old(self).services));
                return reply(Err(TransportError::NoSuchService));
            },
        };
        let files = match resolved {
            Some(files) => files,
            None => {
                self.services.insert(service, svc);
                assert(service_entries(self.services) =~= service_entries(old(self).services));
                return reply(Err(TransportError::InvalidFileDescriptor));
            },
        };
        let call = QueuedRequest::new(file, origin_from(auth_info), method, request_id, payload, files);
        svc.queue_call(call);
        let service_file_id = svc.file_id;
        self.services.insert(service, svc);
        let woke = self.inboxes.notify(service_file_id);
        proof {
            assert(service_entries(self.services) =~= service_entries(old(self).services).insert(
                service@,
                service_entries(self.services)[service@],
            ));
        }
        Step {
            outcome: CommandOutcome::Reply(CommandResult(Ok(CommandReply::FunctionCallAccepted { request_id }))),
            wake: if woke { Some(service_file_id) } else { None },
            fanout: Vec::new(),
        }
    }

    fn function_call_reply(
        &mut self,
        reply_token: ReplyToken,
        status: ReplyStatus,
        payload: Vec<u8>,
        file: FileId,
        resolved: Option<Vec<FileHandle>>,
    ) -> (step: Step)
        requires
            old(self).wf(),
        ensures
            final(self).wf(),
            reply_step(old(self).model(), final(self).model(), reply_token, status, payload, file, resolved, step),
    {
        let pending = match self.reply_tokens.consume(reply_token, file) {
            Ok(pending) => pending,
            Err(e) => return reply(Err(e)),
        };
        let files = match resolved {
            Some(files) => files,
            None => return reply(Err(TransportError::InvalidFileDescriptor)),
        };
        let message = InboxMessage::FunctionCallReply { request_id: pending.request_id, status, payload, fds: Vec::new() };
        let queued = QueuedInboxMessage::new(message, files);
        self.inboxes.queue(pending.client_file_id, queued);
        Step {
            outcome: CommandOutcome::Reply(CommandResult(Ok(CommandReply::FunctionCallReplyAccepted))),
            wake: Some(pending.client_file_id),
            fanout: Vec::new(),
        }
    }

    fn would_block(&mut self, file: FileId) -> (step: Step)
        requires
            old(self).wf(),
        ensures
            final(self).wf(),
            block_step(old(self).model(), final(self).model(), file, step),
    {
        let generation = self.inboxes.latch_generation(file);
        Step { outcome: CommandOutcome::Block { file, generation }, wake: None, fanout: Vec::new() }
    }

    fn next_message(&mut self, file: FileId) -> (step: Step)
        requires
            old(self).wf(),
            has_token_room(old(self).model()),
        ensures
            final(self).wf(),
            fetch_step(old(self).model(), final(self).model(), file, step),
    {
        if let Some(message) = self.inboxes.fetch(file) {
            return Step { outcome: CommandOutcome::Deliver(message), wake: None, fanout: Vec::new() };
        }
        let name = match self.find_provider(file) {
            Some(name) => name,
            None => return self.would_block(file),
        };
        let ghost m0 = self.model();
        let mut svc = self.services.remove(name.as_str()).unwrap();
        if svc.request_queue.len() == 0 {
            let key = name.clone();
            self.services.insert(key, svc);
            assert(service_entries(self.services) =~= m0.services);
            return self.would_block(file);
        }
        proof {
            self.reply_tokens.lemma_wf();
        }
        let mut messages = svc.flush_requests_as_inbox_messages(&mut self.reply_tokens);
        let key = name.clone();
        self.services.insert(key, svc);
        proof {
            assert(service_entries(self.services) =~= m0.services.insert(name@, service_entries(self.services)[name@]));
        }
        let ghost all = messages@;
        let first = messages.remove(0);
        let ghost rest = messages@;
        assert(rest =~= all.drop_first());
        let more = messages.len() > 0;
        let ghost inboxes0 = self.inboxes.model();
        let ghost services1 = service_entries(self.services);
        let ghost next1 = self.reply_tokens.next_token();
        let ghost tokens1 = self.reply_tokens.pending();
        while messages.len() > 0
            invariant
                self.wf(),
                service_entries(self.services) == services1,
                self.reply_tokens.next_token() == next1,
                self.reply_tokens.pending() == tokens1,
                self.stores == old(self).stores,
                self.subscriptions == old(self).subscriptions,
                self.store_tokens == old(self).store_tokens,
                queue_all_model(inboxes0, file, rest) == queue_all_model(self.inboxes.model(), file, messages@),
                service_entries(self.services) == m0.services.insert(name@, service_entries(self.services)[name@]),
            decreases messages.len(),
        {
            let ghost before = messages@;
            let m = messages.remove(0);
            self.inboxes.queue(file, m);
            assert(messages@ =~= before.drop_first());
        }
        proof {
            assert(self.inboxes.model() == queue_all_model(inboxes0, file, rest));
            assert(self.model().services == m0.services.insert(name@, self.model().services[name@]));
            let q = m0.services[name@].queue();
            let (next, tokens, issued) = issue_tokens(m0.token_next, m0.tokens, q, m0.services[name@].file_id);
            assert(all.drop_first() == rest);
            assert(all[0] == first);
            assert(all.len() == q.len());
            assert(self.model() == StateModel {
                services: m0.services.insert(name@, self.model().services[name@]),
                inboxes: queue_all_model(m0.inboxes, file, all.drop_first()),
                token_next: next,
                tokens,
                ..m0
            });
            assert(same_service_with_queue(m0.services[name@], self.model().services[name@], Seq::empty()));
        }
        Step { outcome: CommandOutcome::Deliver(first), wake: if more { Some(file) } else { None }, fanout: Vec::new() }
    }

    /// The checks of [`owner_refusal`]: the valid store name, or the step that refuses.
    fn check_owner(&self, service: &String, store: String, file: FileId) -> (r: Result<StoreName, Step>)
        requires
            self.wf(),
        ensures
            match r {
                Ok(name) => name@ == store@ && forall|s: Step| #[trigger] owner_refusal(self.model(), service@, store@, file, s) is None,
                Err(step) => owner_refusal(self.model(), service@, store@, file, step) == Some(true),
            },
    {
        match self.services.get(service.as_str()) {
            None => return Err(reply(Err(TransportError::NoSuchService))),
            Some(svc) => {
                if svc.file_id != file {
                    return Err(reply(Err(TransportError::Unauthorized)));
                }
            },
        }
        match StoreName::check(store) {
            Ok(name) => Ok(name),
            Err(e) => Err(refuse_store(e.message)),
        }
    }

    fn store_create(&mut self, service: String, store: String, initial_value: Vec<u8>, public: bool, file: FileId) -> (step: Step)
        requires
            old(self).wf(),
        ensures
            final(self).wf(),
            store_create_step(old(self).model(), final(self).model(), service, store, initial_value, public, file, step),
    {
        let name = match self.check_owner(&service, store, file) {
            Ok(name) => name,
            Err(step) => return step,
        };
        let path = StorePath::new(service, name);
        match self.stores.try_register(path, initial_value, public) {
            Ok(_) => reply(Ok(CommandReply::StoreCreateAccepted)),
            Err(_) => reply(Err(TransportError::StoreAlreadyExists)),
        }
    }

    fn store_update(&mut self, service: String, store: String, value: Vec<u8>, file: FileId) -> (step: Step)
        requires
            old(self).wf(),
        ensures
            final(self).wf(),
            store_update_step(old(self).model(), final(self).model(), service, store, value, file, step),
    {
        let name = match self.check_owner(&service, store, file) {
            Ok(name) => name,
            Err(step) => return step,
        };
        let path = StorePath::new(service, name);
        if self.stores.get(&path).is_none() {
            return reply(Err(TransportError::NoSuchStore));
        }
        let subscribers = self.subscriptions.subscribers_for_store(&path);
        let ghost m0 = self.model();
        let ghost files = files_of(subscribers@);
        let ghost mut msgs: Seq<QueuedInboxMessage> = Seq::empty();
        let mut fanout: Vec<FileId> = Vec::new();
        let mut i: usize = 0;
        while i < subscribers.len()
            invariant
                self.wf(),
                i <= subscribers.len(),
                files == files_of(subscribers@),
                self.model() == (StateModel { inboxes: self.model().inboxes, ..m0 }),
                self.model().inboxes == queue_each(m0.inboxes, files, msgs),
                msgs.len() == i,
                fanout@ == files.take(i as int),
                forall|j: int| 0 <= j < i ==> is_update_message(#[trigger] msgs[j], path@.0, path@.1, subscribers@[j].1, value@),
            decreases subscribers.len() - i,
        {
            let (target, id) = subscribers[i];
            let message = InboxMessage::StoreSubscriptionUpdated {
                service: string_of(path.service.as_str()),
                store: string_of(path.store.as_str()),
                subscription_id: id,
                payload: copy_bytes(&value),
            };
            let queued = QueuedInboxMessage::without_fds(message);
            let ghost before = msgs;
            proof {
                msgs = msgs.push(queued);
                assert(msgs.drop_last() =~= before);
                assert(files[i as int] == target);
                assert(files.take(i + 1) =~= files.take(i as int).push(target));
            }
            self.inboxes.queue(target, queued);
            fanout.push(target);
            i = i + 1;
        }
        self.stores.update(&path, value);
        proof {
            assert(files.take(subscribers.len() as int) =~= files);
            assert(queue_each(m0.inboxes, files_of(subscribers@), msgs) == self.model().inboxes);
        }
        Step { outcome: CommandOutcome::Reply(CommandResult(Ok(CommandReply::StoreUpdateAccepted))), wake: None, fanout }
    }

    fn store_subscribe(
        &mut self,
        service: String,
        store: String,
        subscription_id: SubscriptionId,
        payload: Vec<u8>,
        auth_info: AuthInfo,
        file: FileId,
    ) -> (step: Step)
        requires
            old(self).wf(),
            old(self).model().store_tokens.len() < u64::MAX,
        ensures
            final(self).wf(),
            store_subscribe_step(old(self).model(), final(self).model(), service, store, subscription_id, payload, auth_info, file, step),
    {
        let owner = match self.services.get(service.as_str()) {
            Some(svc) => svc.file_id,
            None => return reply(Err(TransportError::NoSuchService)),
        };
        let name = match StoreName::check(store) {
            Ok(name) => name,
            Err(e) => return refuse_store(e.message),
        };
        let path = StorePath::new(service, name);
        let (public, snapshot) = match self.stores.get(&path) {
            Some(s) => (s.is_public(), s.snapshot()),
            None => return reply(Err(TransportError::NoSuchStore)),
        };
        if self.subscriptions.check_ownership(subscription_id, file).is_some() {
            return reply(Err(TransportError::SubscriptionIdConflict));
        }
        let message_service = string_of(path.service.as_str());
        let message_store = string_of(path.store.as_str());
        if public {
            let message = InboxMessage::StoreSubscriptionAccepted {
                service: message_service,
                store: message_store,
                subscription_id,
                current_value: snapshot.current_value,
                last_updated_timestamp: snapshot.last_updated_timestamp,
            };
            let _ = self.subscriptions.insert(subscription_id, file, StoreSubscriptionTarget::Named(path));
            self.inboxes.queue(file, QueuedInboxMessage::without_fds(message));
            Step {
                outcome: CommandOutcome::Reply(CommandResult(Ok(CommandReply::StoreSubscriptionAccepted { subscription_id }))),
                wake: Some(file),
                fanout: Vec::new(),
            }
        } else {
            let ghost tokens0 = self.store_tokens.pending();
            let reply_token = self.store_tokens.create(file, owner, subscription_id, StoreSubscriptionTarget::Named(path));
            proof {
                assert forall|t: u64| #[trigger] self.store_tokens.pending().contains_key(t) implies self.store_tokens.pending()[t].target@ is Named by {
                    if t != reply_token.0 {
                        assert(tokens0.contains_key(t));
                    }
                }
            }
            let message = InboxMessage::SubscribeRequest {
                service: message_service,
                store: message_store,
                subscription_id,
                reply_token,
                origin: origin_from(auth_info),
                payload,
            };
            self.inboxes.queue(owner, QueuedInboxMessage::without_fds(message));
            Step {
                outcome: CommandOutcome::Reply(CommandResult(Ok(CommandReply::StoreSubscriptionAccepted { subscription_id }))),
                wake: Some(owner),
                fanout: Vec::new(),
            }
        }
    }

    fn store_subscription_reply(&mut self, reply_token: ReplyToken, verdict: StoreSubscriptionServerVerdict, file: FileId) -> (step: Step)
        requires
            old(self).wf(),
        ensures
            final(self).wf(),
            store_reply_step(old(self).model(), final(self).model(), reply_token, verdict, file, step),
    {
        let ghost tokens0 = self.store_tokens.pending();
        let pending = match self.store_tokens.consume(reply_token, file) {
            Ok(pending) => pending,
            Err(e) => return reply(Err(e)),
        };
        proof {
            assert forall|t: u64| #[trigger] self.store_tokens.pending().contains_key(t) implies self.store_tokens.pending()[t].target@ is Named by {
                assert(tokens0.contains_key(t));
            }
            assert(tokens0.contains_key(reply_token.0));
        }
        let client = pending.client_file_id;
        let id = pending.subscription_id;
        // Requests are only ever made for named stores (`requests_are_named`), so the second
        // arm is never taken.
        let path = match pending.target {
            StoreSubscriptionTarget::Named(path) => path,
            StoreSubscriptionTarget::Anonymous(_) => return reply(Err(TransportError::NoSuchStore)),
        };
        let message = match verdict {
            StoreSubscriptionServerVerdict::Rejected { message } => InboxMessage::StoreSubscriptionRejected {
                service: string_of(path.service.as_str()),
                store: string_of(path.store.as_str()),
                subscription_id: id,
                message,
            },
            StoreSubscriptionServerVerdict::Accepted => {
                let snapshot = match self.stores.get(&path) {
                    Some(s) => s.snapshot(),
                    None => return reply(Err(TransportError::NoSuchStore)),
                };
                if self.subscriptions.check_ownership(id, client).is_some() {
                    return reply(Err(TransportError::SubscriptionIdConflict));
                }
                let message = InboxMessage::StoreSubscriptionAccepted {
                    service: string_of(path.service.as_str()),
                    store: string_of(path.store.as_str()),
                    subscription_id: id,
                    current_value: snapshot.current_value,
                    last_updated_timestamp: snapshot.last_updated_timestamp,
                };
                let _ = self.subscriptions.insert(id, client, StoreSubscriptionTarget::Named(path));
                message
            },
        };
        self.inboxes.queue(client, QueuedInboxMessage::without_fds(message));
        Step {
            outcome: CommandOutcome::Reply(CommandResult(Ok(CommandReply::StoreSubscriptionReplyAccepted))),
            wake: Some(client),
            fanout: Vec::new(),
        }
    }

    fn store_unsubscribe(&mut self, subscription_id: SubscriptionId, file: FileId) -> (step: Step)
        requires
            old(self).wf(),
        ensures
            final(self).wf(),
            store_unsubscribe_step(old(self).model(), final(self).model(), subscription_id, file, step),
    {
        let ghost tokens0 = self.store_tokens.pending();
        let held = self.subscriptions.delete_owned(subscription_id, file).is_ok();
        let asked = self.store_tokens.cancel_request(file, subscription_id);
        proof {
            assert forall|t: u64| #[trigger] self.store_tokens.pending().contains_key(t) implies self.store_tokens.pending()[t].target@ is Named by {
                assert(tokens0.contains_key(t));
            }
            if !asked {
                assert(self.store_tokens.pending() =~= tokens0);
            }
        }
        if held || asked {
            reply(Ok(CommandReply::StoreUnsubscribed))
        } else {
            reply(Err(TransportError::NoSuchSubscription))
        }
    }

    /// The name of a service that `file` provides, if any: the first one the service table
    /// yields.
    fn find_provider(&self, file: FileId) -> (r: Option<String>)
        requires
            self.wf(),
        ensures
            match r {
                Some(name) => provides(self.model(), name@, file),
                None => forall|name: Seq<char>| !provides(self.model(), name, file),
            },
    {
        let keys = self.services.keys();
        let ghost names = keys@.map_values(|k: String| k@);
        let mut k: usize = 0;
        while k < keys.len()
            invariant
                k <= keys.len(),
                names == keys@.map_values(|k: String| k@),
                names.to_set() == self.model().services.dom(),
                forall|j: int| 0 <= j < k ==> !provides(self.model(), #[trigger] names[j], file),
            decreases keys.len() - k,
        {
            proof {
                assert(names[k as int] == keys@[k as int]@);
                assert(names.to_set().contains(names[k as int]));
            }
            let svc = self.services.get(keys[k].as_str()).unwrap();
            if svc.file_id == file {
                return Some(keys[k].clone());
            }
            k = k + 1;
        }
        proof {
            assert forall|name: Seq<char>| !provides(self.model(), name, file) by {
                if self.model().services.contains_key(name) {
                    assert(names.to_set().contains(name));
                    let j = names.index_of(name);
                }
            }
        }
        None
    }
}

impl State {
    /// Forgets the connection `file`: its inbox, the services it bound, every reply token and
    /// every subscription request in which it takes part, as client or as service, and the
    /// store subscriptions it holds. The stores of the services it bound go too, with the
    /// subscriptions on them, and each of those subscriptions' holders is sent `ServiceClosed`.
    /// Hands back the inbox, the services and the connections to wake.
    pub fn cleanup(&mut self, file: FileId) -> (report: CleanupReport)
        requires
            old(self).wf(),
        ensures
            final(self).wf(),
            notifies_closed(
                old(self).model().subscriptions,
                old(self).model().subscriptions.dom().filter(
                    |k: (u64, u64)|
                        !held_by(k, old(self).model().subscriptions[k], file) && on_services(
                            old(self).model().subscriptions[k],
                            provided_by(old(self).model(), file),
                        ),
                ),
                old(self).model().inboxes.remove(file.0),
                final(self).model().inboxes,
                report.woken@,
            ),
            final(self).model().services == old(self).model().services.restrict(
                old(self).model().services.dom().filter(|k: Seq<char>| old(self).model().services[k].file_id != file),
            ),
            !final(self).model().inboxes.contains_key(file.0),
            forall|n: Seq<char>| !provides(final(self).model(), n, file),
            forall|t: u64| #[trigger] final(self).model().tokens.contains_key(t) ==> !involves(final(self).model().tokens[t], file),
            final(self).model().token_next == old(self).model().token_next,
            final(self).model().tokens == old(self).model().tokens.restrict(
                old(self).model().tokens.dom().filter(|t: u64| !involves(old(self).model().tokens[t], file)),
            ),
            final(self).model().stores == (StoreMapModel {
                stores: old(self).model().stores.stores.restrict(
                    old(self).model().stores.stores.dom().filter(
                        |p: (Seq<char>, Seq<char>)| !provided_by(old(self).model(), file).contains(p.0),
                    ),
                ),
                ..old(self).model().stores
            }),
            final(self).model().subscriptions == old(self).model().subscriptions.restrict(
                old(self).model().subscriptions.dom().filter(
                    |k: (u64, u64)|
                        !held_by(k, old(self).model().subscriptions[k], file) && !on_services(
                            old(self).model().subscriptions[k],
                            provided_by(old(self).model(), file),
                        ),
                ),
            ),
            final(self).model().store_token_next == old(self).model().store_token_next,
            final(self).model().store_tokens == old(self).model().store_tokens.restrict(
                old(self).model().store_tokens.dom().filter(|t: u64| !request_involves(old(self).model().store_tokens[t], file)),
            ),
            match report.closed_inbox {
                Some(ib) => old(self).model().inboxes.contains_key(file.0) && ib.model() == old(self).model().inboxes[file.0],
                None => !old(self).model().inboxes.contains_key(file.0),
            },
            names_of(report.closed_services@).no_duplicates(),
            forall|n: Seq<char>|
                names_of(report.closed_services@).contains(n) <==> provides(old(self).model(), n, file),
            forall|i: int|
                0 <= i < report.closed_services@.len() ==> #[trigger] report.closed_services@[i] == old(
                    self,
                ).model().services[report.closed_services@[i].name@],
    {
        let closed_inbox = self.inboxes.close_inbox(file);
        let keys = self.services.keys();
        let ghost names = keys@.map_values(|k: String| k@);
        let ghost original = service_entries(self.services);
        let mut closed: Vec<Service> = Vec::new();
        let mut k: usize = 0;
        while k < keys.len()
            invariant
                k <= keys.len(),
                self.wf(),
                self.reply_tokens == old(self).reply_tokens,
                self.stores == old(self).stores,
                self.subscriptions == old(self).subscriptions,
                self.store_tokens == old(self).store_tokens,
                self.inboxes.model() == old(self).model().inboxes.remove(file.0),
                original == old(self).model().services,
                names == keys@.map_values(|k: String| k@),
                names.no_duplicates(),
                names.to_set() == original.dom(),
                forall|n: Seq<char>| #[trigger] service_entries(self.services).contains_key(n) ==> original.contains_key(n)
                    && service_entries(self.services)[n] == original[n],
                forall|n: Seq<char>|
                    #[trigger] original.contains_key(n) && original[n].file_id != file ==> service_entries(self.services).contains_key(n),
                forall|j: int| 0 <= j < k ==> !(service_entries(self.services).contains_key(#[trigger] names[j]) && original[names[j]].file_id == file),
                forall|j: int| k <= j < names.len() ==> service_entries(self.services).contains_key(#[trigger] names[j]),
                names_of(closed@).no_duplicates(),
                forall|n: Seq<char>|
                    #[trigger] names_of(closed@).contains(n) <==> (names.take(k as int).contains(n)
                        && original.contains_key(n) && original[n].file_id == file),
                forall|i: int| 0 <= i < closed@.len() ==> #[trigger] closed@[i] == original[closed@[i].name@],
            decreases keys.len() - k,
        {
            proof {
                assert(names[k as int] == keys@[k as int]@);
            }
            let owned = match self.services.get(keys[k].as_str()) {
                Some(svc) => svc.file_id == file,
                None => false,
            };
            let ghost n = names[k as int];
            let ghost before = closed@;
            assert(owned == (original[n].file_id == file));
            if owned {
                let svc = self.services.remove(keys[k].as_str()).unwrap();
                closed.push(svc);
                proof {
                    assert forall|j: int| k < j < names.len() implies service_entries(self.services).contains_key(#[trigger] names[j]) by {
                        assert(names[j] != names[k as int]);
                    }
                    assert(names_of(closed@) =~= names_of(before).push(n));
                    assert(!names_of(before).contains(n)) by {
                        if names_of(before).contains(n) {
                            let j = names.take(k as int).index_of(n);
                            assert(names[j] == names[k as int]);
                        }
                    }
                }
            }
            proof {
                assert(names.take(k + 1) =~= names.take(k as int).push(n));
                assert(names.to_set().contains(n));
                let now = names_of(closed@);
                let was = names_of(before);
                if owned {
                    assert(now =~= was.push(n));
                } else {
                    assert(now =~= was);
                }
                assert forall|x: Seq<char>| now.contains(x) <==> (names.take(k + 1).contains(x)
                    && original.contains_key(x) && original[x].file_id == file) by {
                    if x == n {
                        if owned {
                            assert(now[now.len() - 1] == n);
                        } else if was.contains(n) {
                            let j = names.take(k as int).index_of(n);
                            assert(names[j] == names[k as int]);
                        }
                        assert(names.take(k + 1)[k as int] == n);
                    } else {
                        if now.contains(x) {
                            let i = now.index_of(x);
                            if owned {
                                assert(was[i] == x);
                            }
                        }
                        if names.take(k + 1).contains(x) {
                            let i = names.take(k + 1).index_of(x);
                            assert(names.take(k as int)[i] == x);
                        }
                        if was.contains(x) {
                            let i = was.index_of(x);
                            assert(now[i] == x);
                            let j = names.take(k as int).index_of(x);
                            assert(names.take(k + 1)[j] == x);
                        }
                    }
                }
            }
            k = k + 1;
        }
        self.reply_tokens.remove_for_file(file);
        self.subscriptions.cleanup_file(file);
        self.store_tokens.remove_for_file(file);
        proof {
            let st = old(self).model().store_tokens;
            assert forall|t: u64| #[trigger] self.store_tokens.pending().contains_key(t) implies self.store_tokens.pending()[t].target@ is Named by {
                assert(st.contains_key(t));
            }
        }
        proof {
            assert(names.take(keys.len() as int) =~= names);
            assert(service_entries(self.services) =~= original.restrict(original.dom().filter(|x: Seq<char>| original[x].file_id != file))) by {
                assert forall|x: Seq<char>| service_entries(self.services).contains_key(x) implies original[x].file_id != file by {
                    assert(names.to_set().contains(x));
                    let j = names.index_of(x);
                }
            }
            assert forall|x: Seq<char>| #[trigger] original.contains_key(x) implies names.take(keys.len() as int).contains(x) by {
                assert(names.to_set().contains(x));
            }
        }
        let ghost mid = self.model();
        proof {
            self.lemma_wf();
        }
        let woken = self.close_stores(&closed);
        proof {
            let m = old(self).model();
            let closed_set = provided_by(m, file);
            let done = names_of(closed@).to_set();
            assert(done =~= closed_set) by {
                assert forall|n: Seq<char>| done.contains(n) <==> closed_set.contains(n) by {
                    assert(names_of(closed@).contains(n) <==> provides(m, n, file));
                }
            }
            let subs = m.subscriptions;
            assert(mid.subscriptions == subs.restrict(subs.dom().filter(|k: (u64, u64)| !held_by(k, subs[k], file))));
            let picked_mid = mid.subscriptions.dom().filter(|k: (u64, u64)| on_services(mid.subscriptions[k], done));
            let picked = subs.dom().filter(|k: (u64, u64)| !held_by(k, subs[k], file) && on_services(subs[k], closed_set));
            assert(picked_mid =~= picked);
            assert(self.model().subscriptions =~= subs.restrict(
                subs.dom().filter(|k: (u64, u64)| !held_by(k, subs[k], file) && !on_services(subs[k], closed_set)),
            ));
            assert(self.model().stores.stores =~= m.stores.stores.restrict(
                m.stores.stores.dom().filter(|p: (Seq<char>, Seq<char>)| !closed_set.contains(p.0)),
            ));
            let (keys, msgs) = choose|keys: Seq<(u64, u64)>, msgs: Seq<QueuedInboxMessage>|
                #![trigger holders(mid.subscriptions, keys), queue_each(mid.inboxes, woken@, msgs)]
                {
                    &&& keys.no_duplicates()
                    &&& keys.to_set() == picked_mid
                    &&& msgs.len() == keys.len()
                    &&& forall|j: int| 0 <= j < keys.len() ==> is_service_closed_message(#[trigger] msgs[j], service_of(mid.subscriptions[keys[j]]))
                    &&& woken@ == holders(mid.subscriptions, keys)
                    &&& self.model().inboxes == queue_each(mid.inboxes, woken@, msgs)
                };
            assert forall|j: int| 0 <= j < keys.len() implies #[trigger] subs[keys[j]] == mid.subscriptions[keys[j]] && !held_by(keys[j], subs[keys[j]], file) by {
                assert(keys.to_set().contains(keys[j]));
            }
            assert(holders(subs, keys) =~= holders(mid.subscriptions, keys));
            assert forall|j: int| 0 <= j < keys.len() implies is_service_closed_message(#[trigger] msgs[j], service_of(subs[keys[j]])) by {
                assert(subs[keys[j]] == mid.subscriptions[keys[j]]);
            }
            assert forall|j: int| 0 <= j < msgs.len() implies (#[trigger] woken@[j]).0 != file.0 by {
                assert(woken@[j] == subs[keys[j]].file);
                assert(subs[keys[j]] == mid.subscriptions[keys[j]] && !held_by(keys[j], subs[keys[j]], file));
            }
            lemma_queue_each_absent(mid.inboxes, woken@, msgs, file.0);
            assert(mid.inboxes == m.inboxes.remove(file.0));
        }
        CleanupReport { closed_inbox, closed_services: closed, woken }
    }
}

impl State {
    /// Drops the stores of the services `closed` and the subscriptions on them, telling each
    /// subscriber that the service went away; returns the connections told, in order.
    fn close_stores(&mut self, closed: &Vec<Service>) -> (woken: Vec<FileId>)
        requires
            old(self).wf(),
        ensures
            final(self).wf(),
            ({
                let m = old(self).model();
                let done = names_of(closed@).to_set();
                &&& final(self).model() == StateModel {
                    stores: StoreMapModel {
                        stores: m.stores.stores.restrict(m.stores.stores.dom().filter(|p: (Seq<char>, Seq<char>)| !done.contains(p.0))),
                        ..m.stores
                    },
                    subscriptions: m.subscriptions.restrict(
                        m.subscriptions.dom().filter(|k: (u64, u64)| !on_services(m.subscriptions[k], done)),
                    ),
                    inboxes: final(self).model().inboxes,
                    ..m
                }
                &&& notifies_closed(
                    m.subscriptions,
                    m.subscriptions.dom().filter(|k: (u64, u64)| on_services(m.subscriptions[k], done)),
                    m.inboxes,
                    final(self).model().inboxes,
                    woken@,
                )
            }),
    {
        let ghost m = self.model();
        proof {
            self.lemma_wf();
        }
        let ghost names = names_of(closed@);
        let ghost mut keys: Seq<(u64, u64)> = Seq::empty();
        let ghost mut msgs: Seq<QueuedInboxMessage> = Seq::empty();
        let mut woken: Vec<FileId> = Vec::new();
        let mut i: usize = 0;
        proof {
            assert(names.take(0).to_set() =~= Set::<Seq<char>>::empty());
            assert(m.stores.stores.restrict(m.stores.stores.dom().filter(|p: (Seq<char>, Seq<char>)| !names.take(0).to_set().contains(p.0))) =~= m.stores.stores);
            assert(m.subscriptions.restrict(m.subscriptions.dom().filter(|k: (u64, u64)| !on_services(m.subscriptions[k], names.take(0).to_set()))) =~= m.subscriptions);
            assert(m.subscriptions.dom().filter(|k: (u64, u64)| on_services(m.subscriptions[k], names.take(0).to_set())) =~= Set::<(u64, u64)>::empty());
            assert(keys.to_set() =~= Set::<(u64, u64)>::empty());
            assert(holders(m.subscriptions, keys) =~= woken@);
        }
        while i < closed.len()
            invariant
                self.wf(),
                i <= closed.len(),
                names == names_of(closed@),
                m.subscriptions.dom().finite(),
                self.model() == (StateModel {
                    stores: StoreMapModel {
                        stores: m.stores.stores.restrict(
                            m.stores.stores.dom().filter(|p: (Seq<char>, Seq<char>)| !names.take(i as int).to_set().contains(p.0)),
                        ),
                        ..m.stores
                    },
                    subscriptions: m.subscriptions.restrict(
                        m.subscriptions.dom().filter(|k: (u64, u64)| !on_services(m.subscriptions[k], names.take(i as int).to_set())),
                    ),
                    inboxes: self.model().inboxes,
                    ..m
                }),
                keys.no_duplicates(),
                keys.to_set() == m.subscriptions.dom().filter(|k: (u64, u64)| on_services(m.subscriptions[k], names.take(i as int).to_set())),
                msgs.len() == keys.len(),
                forall|j: int| 0 <= j < keys.len() ==> is_service_closed_message(#[trigger] msgs[j], service_of(m.subscriptions[keys[j]])),
                woken@ == holders(m.subscriptions, keys),
                self.model().inboxes == queue_each(m.inboxes, woken@, msgs),
            decreases closed.len() - i,
        {
            let name = &closed[i].name;
            let ghost n = name@;
            let ghost done = names.take(i as int).to_set();
            let ghost done2 = names.take(i + 1).to_set();
            proof {
                assert(names[i as int] == n);
                assert(names.take(i + 1) =~= names.take(i as int).push(n));
                assert forall|x: Seq<char>| done2.contains(x) <==> done.insert(n).contains(x) by {
                    if names.take(i + 1).contains(x) {
                        let y = names.take(i + 1).index_of(x);
                        if y < i {
                            assert(names.take(i as int)[y] == x);
                        }
                    }
                    if names.take(i as int).contains(x) {
                        let y = names.take(i as int).index_of(x);
                        assert(names.take(i + 1)[y] == x);
                    }
                    if x == n {
                        assert(names.take(i + 1)[i as int] == n);
                    }
                }
                assert(done2 =~= done.insert(n));
            }
            let ghost cur = self.model();
            self.stores.remove_service(name.as_str());
            let removed = self.subscriptions.cleanup_service(name.as_str());
            let ghost mi = cur.subscriptions;
            let ghost rk = removed_keys(removed@);
            proof {
                assert(self.model().stores.stores =~= m.stores.stores.restrict(
                    m.stores.stores.dom().filter(|p: (Seq<char>, Seq<char>)| !done2.contains(p.0)),
                ));
                assert(self.model().subscriptions =~= m.subscriptions.restrict(
                    m.subscriptions.dom().filter(|k: (u64, u64)| !on_services(m.subscriptions[k], done2)),
                )) by {
                    assert forall|k: (u64, u64)| #[trigger] m.subscriptions.contains_key(k) implies
                        (on_services(m.subscriptions[k], done2) <==> (on_services(m.subscriptions[k], done) || on_service(m.subscriptions[k], n))) by {}
                }
            }
            let ghost keys0 = keys;
            let ghost msgs0 = msgs;
            let ghost after = self.model();
            let mut j: usize = 0;
            while j < removed.len()
                invariant
                    self.wf(),
                    j <= removed.len(),
                    name@ == n,
                    rk == removed_keys(removed@),
                    reports_removed(mi, mi.dom().filter(|k: (u64, u64)| on_service(mi[k], n)), removed@),
                    mi == m.subscriptions.restrict(m.subscriptions.dom().filter(|k: (u64, u64)| !on_services(m.subscriptions[k], done))),
                    self.model() == (StateModel { inboxes: self.model().inboxes, ..after }),
                    keys == keys0 + rk.take(j as int),
                    msgs.len() == keys.len(),
                    forall|x: int| 0 <= x < keys.len() ==> is_service_closed_message(#[trigger] msgs[x], service_of(m.subscriptions[keys[x]])),
                    woken@ == holders(m.subscriptions, keys),
                    self.model().inboxes == queue_each(m.inboxes, woken@, msgs),
                decreases removed.len() - j,
            {
                let target = removed[j].0;
                let message = InboxMessage::ServiceClosed { service: string_of(name.as_str()), reason: CloseReason::ServiceExited };
                let queued = QueuedInboxMessage::without_fds(message);
                let ghost k = rk[j as int];
                proof {
                    assert(rk[j as int] == removed_key(removed@[j as int]));
                    assert(rk.to_set().contains(k));
                    assert(mi.contains_key(k));
                    assert(mi[k] == m.subscriptions[k]);
                    assert(m.subscriptions[k].file == target);
                    assert(service_of(m.subscriptions[k]) == n);
                    let before_w = woken@;
                    let before_m = msgs;
                    let before_k = keys;
                    keys = keys.push(k);
                    msgs = msgs.push(queued);
                    assert(keys0 + rk.take(j + 1) =~= keys);
                    assert(holders(m.subscriptions, keys) =~= before_w.push(target));
                    lemma_queue_each_prefix(m.inboxes, before_w.push(target), before_w, before_m);
                    assert(msgs.drop_last() =~= before_m);
                    assert forall|x: int| 0 <= x < keys.len() implies is_service_closed_message(#[trigger] msgs[x], service_of(m.subscriptions[keys[x]])) by {
                        if x < keys.len() - 1 {
                            assert(msgs[x] == before_m[x]);
                            assert(keys[x] == before_k[x]);
                        } else {
                            assert(msgs[x] == queued);
                            assert(keys[x] == k);
                        }
                    }
                }
                self.inboxes.queue(target, queued);
                woken.push(target);
                j = j + 1;
            }
            proof {
                assert(rk.take(removed.len() as int) =~= rk);
                let picked = m.subscriptions.dom().filter(|k: (u64, u64)| on_services(m.subscriptions[k], done2));
                assert(keys.to_set() =~= picked) by {
                    assert forall|k: (u64, u64)| keys.to_set().contains(k) <==> picked.contains(k) by {
                        if keys.contains(k) {
                            let x = keys.index_of(k);
                            if x >= keys0.len() {
                                assert(rk[x - keys0.len()] == k);
                                assert(rk.to_set().contains(k));
                            } else {
                                assert(keys0[x] == k);
                                assert(keys0.to_set().contains(k));
                            }
                        }
                        if picked.contains(k) {
                            if on_services(m.subscriptions[k], done) {
                                assert(keys0.to_set().contains(k));
                                let x = keys0.index_of(k);
                                assert(keys[x] == k);
                            } else {
                                assert(mi.contains_key(k));
                                assert(rk.to_set().contains(k));
                                let x = rk.index_of(k);
                                assert(keys[keys0.len() + x] == k);
                            }
                        }
                    }
                }
                assert(keys.no_duplicates()) by {
                    assert forall|a: int, b: int| 0 <= a < b < keys.len() implies keys[a] != keys[b] by {
                        if b >= keys0.len() {
                            assert(keys[b] == rk[b - keys0.len()]);
                            assert(rk.to_set().contains(keys[b]));
                            if a < keys0.len() {
                                assert(keys[a] == keys0[a]);
                                assert(keys0.to_set().contains(keys0[a]));
                            } else {
                                assert(keys[a] == rk[a - keys0.len()]);
                            }
                        } else {
                            assert(keys[a] == keys0[a] && keys[b] == keys0[b]);
                        }
                    }
                }
            }
            i = i + 1;
        }
        proof {
            assert(names.take(closed.len() as int) =~= names);
        }
        woken
    }
}

/// The reply to `InboxNextMessage` once the delivered message's files have been installed as
/// `installed`, or could not be (`None`).
pub fn finish_delivery(message: QueuedInboxMessage, installed: Option<Vec<RawFd>>) -> (r: CommandResult)
    ensures
        match installed {
            Some(fds) => r == CommandResult(Ok(CommandReply::InboxMessagePopped(with_installed_fds(message.message, fds)))),
            None => r == CommandResult(Err(TransportError::ResourceExhausted)),
        },
{
    match installed {
        Some(fds) => CommandResult(Ok(CommandReply::InboxMessagePopped(message.into_user_message(fds)))),
        None => CommandResult(Err(TransportError::ResourceExhausted)),
    }
}

/// The reply to a command that found nothing to fetch, once a latch descriptor was created
/// (`Some(fd)`) or could not be (`None`).
pub fn finish_block(latch_fd: Option<RawFd>) -> (r: CommandResult)
    ensures
        match latch_fd {
            Some(fd) => r == CommandResult(Err(TransportError::WouldBlock { latch_fd: fd })),
            None => r == CommandResult(Err(TransportError::ResourceExhausted)),
        },
{
    match latch_fd {
        Some(fd) => CommandResult(Err(TransportError::WouldBlock { latch_fd: fd })),
        None => CommandResult(Err(TransportError::ResourceExhausted)),
    }
}

} // verus!

verus! {

impl Default for State {
    fn default() -> (s: Self)
        ensures
            s.wf(),
            s.model().services == Map::<Seq<char>, Service>::empty(),
            s.model().inboxes == Map::<u64, InboxModel>::empty(),
            s.model().tokens == Map::<u64, PendingReply>::empty(),
            s.model().token_next == 1,
            s.model().subscriptions == Map::<(u64, u64), SubscriptionView>::empty(),
            s.model().store_tokens == Map::<u64, PendingStoreSubscription>::empty(),
    {
        State::new()
    }
}

} // verus!
