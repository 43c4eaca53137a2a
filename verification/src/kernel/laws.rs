//! What holds of the module across commands: how reply tokens tie a reply to its call, what a
//! refused command leaves behind, how inboxes hand out their messages, and how store
//! subscriptions and updates reach their subscribers.
use vstd::prelude::*;
use crate::protocol::{CommandReply, CommandResult, ReplyStatus, ReplyToken, TransportError};
use crate::kernel::ids::{AuthInfo, FileHandle, FileId};
use crate::kernel::message_inbox::{
    InboxModel, QueuedInboxMessage, inbox_or_fresh, notify_model, queue_all_model, queue_each, queue_model,
};
use crate::kernel::services::store::{TargetView, asks, is_subscriber};
use crate::protocol::{StoreSubscriptionServerVerdict, SubscriptionId};
use crate::protocol::RequestId;
use crate::kernel::services::{QueuedRequest, is_request_message, issue_tokens, lemma_issue_tokens};
use crate::kernel::state::{
    CommandOutcome, StateModel, Step, bind_step, block_step, call_step, fetch_step, files_of, flush_step,
    has_token_room, is_accepted_message, is_reply_message, is_update_message, origin_of, requests_are_named, provides, replies, reply_step, store_reply_step,
    store_subscribe_step, store_unsubscribe_step, store_update_step,
};

verus! {

/// What every state of the module satisfies: finite tables, no token 0, a nonzero allocation
/// cursor, and each service filed under its own name.
pub open spec fn model_valid(m: StateModel) -> bool {
    &&& m.services.dom().finite()
    &&& m.inboxes.dom().finite()
    &&& m.tokens.dom().finite()
    &&& !m.tokens.contains_key(0)
    &&& m.token_next != 0
    &&& forall|k: Seq<char>| #[trigger] m.services.contains_key(k) ==> m.services[k].name@ == k
}

/// The reply tokens handed out when the service `name` fetches its queued calls, in the order
/// of the calls.
pub open spec fn issued_tokens(m: StateModel, name: Seq<char>) -> Seq<u64> {
    issue_tokens(m.token_next, m.tokens, m.services[name].queue(), m.services[name].file_id).2
}

/// A reply reaches the caller: when the service `name` fetches its queued calls, the `i`-th
/// call's request message carries the `i`-th issued token, and when that service replies
/// with it, the reply is queued to the inbox of the connection that made the call, under the
/// call's request id, and that connection is woken; the token is then used up.
pub proof fn law_reply_reaches_caller(
    m: StateModel,
    m1: StateModel,
    name: Seq<char>,
    file: FileId,
    step1: Step,
    i: int,
    m2: StateModel,
    status: ReplyStatus,
    payload: Vec<u8>,
    files: Vec<FileHandle>,
    step2: Step,
)
    requires
        model_valid(m),
        has_token_room(m),
        provides(m, name, file),
        flush_step(m, m1, name, file, step1),
        0 <= i < m.services[name].queue().len(),
        reply_step(m1, m2, ReplyToken(issued_tokens(m, name)[i]), status, payload, file, Some(files), step2),
    ensures
        ({
            let call = m.services[name].queue()[i];
            &&& m2.inboxes.contains_key(call.client_file_id.0)
            &&& is_reply_message(m2.inboxes[call.client_file_id.0].messages.last(), call.request_id, status, payload, files)
            &&& step2.outcome == CommandOutcome::Reply(CommandResult(Ok(CommandReply::FunctionCallReplyAccepted)))
            &&& step2.wake == Some(call.client_file_id)
            &&& !m2.tokens.contains_key(issued_tokens(m, name)[i])
        }),
{
    let svc = m.services[name];
    let q = svc.queue();
    assert(m.services.contains_key(name));
    lemma_issue_tokens(m.token_next, m.tokens, q, svc.file_id);
    let (next, tokens, issued) = issue_tokens(m.token_next, m.tokens, q, svc.file_id);
    let msgs = choose|msgs: Seq<QueuedInboxMessage>|
        #![trigger msgs.drop_first()]
        {
            &&& msgs.len() == q.len()
            &&& forall|j: int| 0 <= j < msgs.len() ==> crate::kernel::services::is_request_message(#[trigger] msgs[j], svc.name, q[j], issued[j])
            &&& m1 == StateModel {
                services: m.services.insert(name, m1.services[name]),
                inboxes: queue_all_model(m.inboxes, file, msgs.drop_first()),
                token_next: next,
                tokens,
                ..m
            }
            &&& crate::kernel::state::same_service_with_queue(svc, m1.services[name], Seq::empty())
            &&& step1.outcome == CommandOutcome::Deliver(msgs[0])
            &&& step1.wake == (if msgs.len() > 1 { Some(file) } else { None })
        };
    assert(m1.tokens == tokens);
    assert(m1.tokens.contains_key(issued[i]));
}

/// A call reaches its service: after a client calls a bound service whose queue and inbox are
/// empty, the next fetch by the connection that provides it (and no other service) delivers
/// the request message for exactly that call, with a reply token.
pub proof fn law_call_reaches_service(
    m: StateModel,
    m1: StateModel,
    service: String,
    method: String,
    request_id: RequestId,
    payload: Vec<u8>,
    auth: AuthInfo,
    client: FileId,
    files: Vec<FileHandle>,
    step1: Step,
    provider: FileId,
    m2: StateModel,
    step2: Step,
)
    requires
        model_valid(m),
        provides(m, service@, provider),
        forall|n: Seq<char>| provides(m, n, provider) ==> n == service@,
        m.services[service@].queue().len() == 0,
        inbox_or_fresh(m.inboxes, provider).messages.len() == 0,
        call_step(m, m1, service, method, request_id, payload, auth, client, Some(files), step1),
        fetch_step(m1, m2, provider, step2),
    ensures
        step2.outcome matches CommandOutcome::Deliver(message) && is_request_message(
            message,
            m.services[service@].name,
            QueuedRequest { client_file_id: client, origin: origin_of(auth), method, request_id, payload, fds: files },
            issued_tokens(m1, service@)[0],
        ),
{
    let svc = m.services[service@];
    let call = QueuedRequest { client_file_id: client, origin: origin_of(auth), method, request_id, payload, fds: files };
    assert(m1.services.contains_key(service@));
    assert(m1.services[service@].queue() =~= seq![call]);
    assert(provides(m1, service@, provider));
    assert forall|n: Seq<char>| provides(m1, n, provider) implies n == service@ by {
        if n != service@ {
            assert(m.services.contains_key(n));
            assert(m1.services[n] == m.services[n]);
            assert(provides(m, n, provider));
        }
    }
    assert(inbox_or_fresh(m1.inboxes, provider).messages.len() == 0);
    let name = choose|name: Seq<char>| provides(m1, name, provider) && flush_step(m1, m2, name, provider, step2);
    assert(name == service@);
    let q = m1.services[name].queue();
    let (next, tokens, issued) = issue_tokens(m1.token_next, m1.tokens, q, m1.services[name].file_id);
    let msgs = choose|msgs: Seq<QueuedInboxMessage>|
        #![trigger msgs.drop_first()]
        {
            &&& msgs.len() == q.len()
            &&& forall|j: int| 0 <= j < msgs.len() ==> is_request_message(#[trigger] msgs[j], m1.services[name].name, q[j], issued[j])
            &&& m2 == StateModel {
                services: m1.services.insert(name, m2.services[name]),
                inboxes: queue_all_model(m1.inboxes, provider, msgs.drop_first()),
                token_next: next,
                tokens,
                ..m1
            }
            &&& crate::kernel::state::same_service_with_queue(m1.services[name], m2.services[name], Seq::empty())
            &&& step2.outcome == CommandOutcome::Deliver(msgs[0])
            &&& step2.wake == (if msgs.len() > 1 { Some(provider) } else { None })
        };
    assert(is_request_message(msgs[0], m1.services[name].name, q[0], issued[0]));
}

/// A reply token works once: after the service it was issued to replied with it, another
/// reply with the same token is refused and changes nothing.
pub proof fn law_reply_token_single_use(
    m: StateModel,
    m1: StateModel,
    m2: StateModel,
    token: ReplyToken,
    file: FileId,
    status: ReplyStatus,
    payload: Vec<u8>,
    resolved: Option<Vec<FileHandle>>,
    step1: Step,
    file2: FileId,
    status2: ReplyStatus,
    payload2: Vec<u8>,
    resolved2: Option<Vec<FileHandle>>,
    step2: Step,
)
    requires
        m.tokens.contains_key(token.0),
        m.tokens[token.0].service_file_id == file,
        reply_step(m, m1, token, status, payload, file, resolved, step1),
        reply_step(m1, m2, token, status2, payload2, file2, resolved2, step2),
    ensures
        !m1.tokens.contains_key(token.0),
        m2 == m1,
        replies(step2, Err(TransportError::InvalidReplyToken)),
{
}

/// Only the service that received a call can answer it: a reply with a token that is not
/// outstanding, or that was issued to another connection, is refused and changes nothing.
pub proof fn law_reply_needs_called_service(
    m: StateModel,
    m1: StateModel,
    token: ReplyToken,
    status: ReplyStatus,
    payload: Vec<u8>,
    file: FileId,
    resolved: Option<Vec<FileHandle>>,
    step: Step,
)
    requires
        !(m.tokens.contains_key(token.0) && m.tokens[token.0].service_file_id == file),
        reply_step(m, m1, token, status, payload, file, resolved, step),
    ensures
        m1 == m,
        replies(step, Err(TransportError::InvalidReplyToken)),
{
}

/// A service name is bound once: after a successful bind, binding the same name again (even
/// from a trusted daemon) is refused as a conflict and changes nothing.
pub proof fn law_bound_name_conflicts(
    m: StateModel,
    m1: StateModel,
    m2: StateModel,
    name: String,
    auth: AuthInfo,
    file: FileId,
    step1: Step,
    name2: String,
    auth2: AuthInfo,
    file2: FileId,
    step2: Step,
)
    requires
        bind_step(m, m1, name, auth, file, step1),
        replies(step1, Ok(CommandReply::ServiceBound)),
        bind_step(m1, m2, name2, auth2, file2, step2),
        name2@ == name@,
        auth2.is_trusted,
        auth2.uid < 1000,
    ensures
        provides(m1, name@, file),
        m2 == m1,
        replies(step2, Err(TransportError::ServiceNameConflict)),
{
}

/// A latch handed out when there was nothing to fetch becomes ready as soon as a message is
/// queued to that inbox, or the inbox is notified of a call.
pub proof fn law_latch_wakes_on_news(m: StateModel, m1: StateModel, file: FileId, step: Step, message: QueuedInboxMessage)
    requires
        block_step(m, m1, file, step),
    ensures
        step.outcome matches CommandOutcome::Block { file: f, generation: g } && {
            &&& f == file
            &&& m1.inboxes.contains_key(file.0)
            &&& m1.inboxes[file.0].generation == g
            &&& queue_model(m1.inboxes, file, message)[file.0].generation != g
            &&& notify_model(m1.inboxes, file)[file.0].generation != g
        },
{
}

/// Queuing `messages` to `file`'s inbox appends them, in order, behind what it held.
pub proof fn lemma_queue_all_appends(m: Map<u64, InboxModel>, file: FileId, messages: Seq<QueuedInboxMessage>)
    ensures
        inbox_or_fresh(queue_all_model(m, file, messages), file).messages == inbox_or_fresh(m, file).messages + messages,
        messages.len() > 0 ==> queue_all_model(m, file, messages).contains_key(file.0),
        forall|k: u64| k != file.0 ==> #[trigger] queue_all_model(m, file, messages).contains_key(k) == m.contains_key(k),
    decreases messages.len(),
{
    if messages.len() == 0 {
        assert(inbox_or_fresh(m, file).messages + messages =~= inbox_or_fresh(m, file).messages);
    } else {
        let m1 = queue_model(m, file, messages[0]);
        lemma_queue_all_appends(m1, file, messages.drop_first());
        assert(inbox_or_fresh(m, file).messages.push(messages[0]) + messages.drop_first() =~= inbox_or_fresh(m, file).messages
            + messages);
    }
}

/// Inboxes are first in, first out: after `messages` are queued to an empty inbox, fetching
/// delivers the first of them and keeps the others, in order.
pub proof fn law_inbox_fifo(m: StateModel, file: FileId, messages: Seq<QueuedInboxMessage>, m2: StateModel, step: Step)
    requires
        inbox_or_fresh(m.inboxes, file).messages.len() == 0,
        messages.len() > 0,
        fetch_step(StateModel { inboxes: queue_all_model(m.inboxes, file, messages), ..m }, m2, file, step),
    ensures
        step.outcome == CommandOutcome::Deliver(messages[0]),
        m2.inboxes[file.0].messages == messages.drop_first(),
{
    lemma_queue_all_appends(m.inboxes, file, messages);
    assert(Seq::<QueuedInboxMessage>::empty() + messages =~= messages);
}


/// The call that `call_step` queues for `method`, `request_id`, `payload` and `files` from
/// `client`, opened as `auth`.
pub open spec fn queued_call(
    method: String,
    request_id: RequestId,
    payload: Vec<u8>,
    auth: AuthInfo,
    client: FileId,
    files: Vec<FileHandle>,
) -> QueuedRequest {
    QueuedRequest { client_file_id: client, origin: origin_of(auth), method, request_id, payload, fds: files }
}

/// Calls come out in the order they were made: two calls to a service with nothing queued
/// and an empty provider inbox are delivered by the provider's next two fetches, first call
/// first, the second queued right behind it, each with its own reply token.
pub proof fn law_calls_fetched_in_order(
    m: StateModel,
    service: String,
    method1: String,
    request1: RequestId,
    payload1: Vec<u8>,
    auth1: AuthInfo,
    client1: FileId,
    files1: Vec<FileHandle>,
    m1: StateModel,
    step1: Step,
    method2: String,
    request2: RequestId,
    payload2: Vec<u8>,
    auth2: AuthInfo,
    client2: FileId,
    files2: Vec<FileHandle>,
    m2: StateModel,
    step2: Step,
    provider: FileId,
    m3: StateModel,
    step3: Step,
    m4: StateModel,
    step4: Step,
)
    requires
        model_valid(m),
        m.tokens.len() + 2 < u64::MAX,
        provides(m, service@, provider),
        forall|n: Seq<char>| provides(m, n, provider) ==> n == service@,
        m.services[service@].queue().len() == 0,
        inbox_or_fresh(m.inboxes, provider).messages.len() == 0,
        call_step(m, m1, service, method1, request1, payload1, auth1, client1, Some(files1), step1),
        call_step(m1, m2, service, method2, request2, payload2, auth2, client2, Some(files2), step2),
        fetch_step(m2, m3, provider, step3),
        fetch_step(m3, m4, provider, step4),
    ensures
        ({
            let issued = issued_tokens(m2, service@);
            let name = m.services[service@].name;
            &&& step3.outcome matches CommandOutcome::Deliver(a) && is_request_message(
                a,
                name,
                queued_call(method1, request1, payload1, auth1, client1, files1),
                issued[0],
            )
            &&& step4.outcome matches CommandOutcome::Deliver(b) && is_request_message(
                b,
                name,
                queued_call(method2, request2, payload2, auth2, client2, files2),
                issued[1],
            )
            &&& issued[0] != issued[1]
        }),
{
    let c1 = queued_call(method1, request1, payload1, auth1, client1, files1);
    let c2 = queued_call(method2, request2, payload2, auth2, client2, files2);
    assert(m2.services.contains_key(service@));
    assert(m2.services[service@].queue() =~= seq![c1, c2]);
    assert(m2.tokens == m.tokens);
    assert(m2.services[service@].file_id == provider);
    assert(m2.services[service@].name == m.services[service@].name);
    assert(provides(m2, service@, provider));
    assert forall|n: Seq<char>| provides(m2, n, provider) implies n == service@ by {
        if n != service@ {
            assert(m1.services[n] == m.services[n]);
            assert(provides(m, n, provider));
        }
    }
    assert(inbox_or_fresh(m2.inboxes, provider).messages.len() == 0);
    let name = choose|name: Seq<char>| provides(m2, name, provider) && flush_step(m2, m3, name, provider, step3);
    assert(name == service@);
    let q = m2.services[name].queue();
    lemma_issue_tokens(m2.token_next, m2.tokens, q, m2.services[name].file_id);
    let (next, tokens, issued) = issue_tokens(m2.token_next, m2.tokens, q, m2.services[name].file_id);
    let msgs = choose|msgs: Seq<QueuedInboxMessage>|
        #![trigger msgs.drop_first()]
        {
            &&& msgs.len() == q.len()
            &&& forall|j: int| 0 <= j < msgs.len() ==> is_request_message(#[trigger] msgs[j], m2.services[name].name, q[j], issued[j])
            &&& m3 == StateModel {
                services: m2.services.insert(name, m3.services[name]),
                inboxes: queue_all_model(m2.inboxes, provider, msgs.drop_first()),
                token_next: next,
                tokens,
                ..m2
            }
            &&& crate::kernel::state::same_service_with_queue(m2.services[name], m3.services[name], Seq::empty())
            &&& step3.outcome == CommandOutcome::Deliver(msgs[0])
            &&& step3.wake == (if msgs.len() > 1 { Some(provider) } else { None })
        };
    assert(is_request_message(msgs[0], m2.services[name].name, q[0], issued[0]));
    assert(is_request_message(msgs[1], m2.services[name].name, q[1], issued[1]));
    lemma_queue_all_appends(m2.inboxes, provider, msgs.drop_first());
    assert(Seq::<QueuedInboxMessage>::empty() + msgs.drop_first() =~= msgs.drop_first());
    assert(m3.inboxes[provider.0].messages[0] == msgs[1]);
    assert(issued[0] != issued[1]) by {
        assert(issued.no_duplicates());
    }
}


/// Queuing each message to its connection leaves every message in its connection's inbox.
pub proof fn lemma_queue_each_delivers(m: Map<u64, InboxModel>, files: Seq<FileId>, messages: Seq<QueuedInboxMessage>, j: int)
    requires
        0 <= j < messages.len(),
    ensures
        queue_each(m, files, messages).contains_key(files[j].0),
        queue_each(m, files, messages)[files[j].0].messages.contains(messages[j]),
    decreases messages.len(),
{
    let n = messages.len() - 1;
    let inner = queue_each(m, files, messages.drop_last());
    let ib = inbox_or_fresh(inner, files[n]);
    if j == n {
        assert(ib.messages.push(messages[n])[ib.messages.len() as int] == messages[j]);
    } else {
        lemma_queue_each_delivers(m, files, messages.drop_last(), j);
        assert(messages.drop_last()[j] == messages[j]);
        let held = inner[files[j].0].messages;
        let k = held.index_of(messages[j]);
        if files[n].0 == files[j].0 {
            assert(ib.messages == held);
            assert(held.push(messages[n])[k] == messages[j]);
        }
    }
}

/// A subscription to a public store takes effect at once: once it is confirmed, the
/// connection is subscribed to the store under its id.
pub proof fn law_public_subscription_takes_effect(
    m: StateModel,
    m2: StateModel,
    service: String,
    store: String,
    id: SubscriptionId,
    payload: Vec<u8>,
    auth: AuthInfo,
    file: FileId,
    step: Step,
)
    requires
        store_subscribe_step(m, m2, service, store, id, payload, auth, file, step),
        m.stores.stores.contains_key((service@, store@)),
        m.stores.stores[(service@, store@)].public,
        step.outcome == CommandOutcome::Reply(CommandResult(Ok(CommandReply::StoreSubscriptionAccepted { subscription_id: id }))),
    ensures
        is_subscriber(m2.subscriptions, TargetView::Named((service@, store@)), (file, id)),
{
}

/// A subscription the service accepts takes effect: once the acceptance is confirmed, the
/// client that asked is subscribed, under the id it asked with, to the store it asked for.
pub proof fn law_accepted_subscription_takes_effect(
    m: StateModel,
    m2: StateModel,
    token: ReplyToken,
    file: FileId,
    step: Step,
)
    requires
        requests_are_named(m.store_tokens),
        m.store_tokens.contains_key(token.0),
        store_reply_step(m, m2, token, StoreSubscriptionServerVerdict::Accepted, file, step),
        step.outcome == CommandOutcome::Reply(CommandResult(Ok(CommandReply::StoreSubscriptionReplyAccepted))),
    ensures
        ({
            let p = m.store_tokens[token.0];
            &&& p.service_file_id == file
            &&& is_subscriber(m2.subscriptions, p.target@, (p.client_file_id, p.subscription_id))
            &&& !m2.store_tokens.contains_key(token.0)
        }),
{
}

/// An unsubscribed connection hears no more: once `StoreUnsubscribe` is confirmed, the
/// connection holds no subscription under that id and has no request under that id waiting
/// for an answer.
pub proof fn law_unsubscribe_ends_subscription(m: StateModel, m2: StateModel, id: SubscriptionId, file: FileId, step: Step, target: TargetView)
    requires
        store_unsubscribe_step(m, m2, id, file, step),
        step.outcome == CommandOutcome::Reply(CommandResult(Ok(CommandReply::StoreUnsubscribed))),
    ensures
        !is_subscriber(m2.subscriptions, target, (file, id)),
        forall|t: u64| #[trigger] m2.store_tokens.contains_key(t) ==> !asks(m2.store_tokens[t], file, id),
{
}

/// A subscriber hears every update: when the owner's update of a store is confirmed, every
/// connection subscribed to it is among those to wake, and finds in its inbox an update
/// message with its subscription id and the new value.
pub proof fn law_subscriber_hears_update(
    m: StateModel,
    m2: StateModel,
    service: String,
    store: String,
    value: Vec<u8>,
    owner: FileId,
    step: Step,
    subscriber: FileId,
    id: SubscriptionId,
)
    requires
        is_subscriber(m.subscriptions, TargetView::Named((service@, store@)), (subscriber, id)),
        store_update_step(m, m2, service, store, value, owner, step),
        step.outcome == CommandOutcome::Reply(CommandResult(Ok(CommandReply::StoreUpdateAccepted))),
    ensures
        step.fanout@.contains(subscriber),
        m2.inboxes.contains_key(subscriber.0),
        exists|j: int|
            0 <= j < m2.inboxes[subscriber.0].messages.len() && is_update_message(
                #[trigger] m2.inboxes[subscriber.0].messages[j],
                service@,
                store@,
                id,
                value@,
            ),
{
    let k = (service@, store@);
    let (subs, msgs) = choose|subs: Seq<(FileId, SubscriptionId)>, msgs: Seq<QueuedInboxMessage>|
        #![trigger queue_each(m.inboxes, files_of(subs), msgs)]
        {
            &&& subs.no_duplicates()
            &&& forall|x: (FileId, SubscriptionId)| #[trigger] subs.contains(x) <==> is_subscriber(m.subscriptions, TargetView::Named(k), x)
            &&& msgs.len() == subs.len()
            &&& forall|j: int| 0 <= j < subs.len() ==> is_update_message(#[trigger] msgs[j], service@, store@, subs[j].1, value@)
            &&& m2 == StateModel { stores: crate::kernel::services::store::updated(m.stores, k, value@), inboxes: queue_each(m.inboxes, files_of(subs), msgs), ..m }
            &&& step.outcome == CommandOutcome::Reply(CommandResult(Ok(CommandReply::StoreUpdateAccepted)))
            &&& step.wake is None
            &&& step.fanout@ == files_of(subs)
        };
    assert(subs.contains((subscriber, id)));
    let j = subs.index_of((subscriber, id));
    assert(files_of(subs)[j] == subscriber);
    assert(step.fanout@[j] == subscriber);
    lemma_queue_each_delivers(m.inboxes, files_of(subs), msgs, j);
    assert(is_update_message(msgs[j], service@, store@, id, value@));
    let held = m2.inboxes[subscriber.0].messages;
    let i = held.index_of(msgs[j]);
    assert(is_update_message(held[i], service@, store@, id, value@));
}


/// A subscription reads back the last update: subscribing to a public store right after its
/// owner updated it sends the subscriber the new value, stamped with that update's timestamp.
pub proof fn law_subscription_reads_last_update(
    m: StateModel,
    m1: StateModel,
    service: String,
    store: String,
    value: Vec<u8>,
    owner: FileId,
    step1: Step,
    m2: StateModel,
    id: SubscriptionId,
    payload: Vec<u8>,
    auth: AuthInfo,
    file: FileId,
    step2: Step,
)
    requires
        store_update_step(m, m1, service, store, value, owner, step1),
        step1.outcome == CommandOutcome::Reply(CommandResult(Ok(CommandReply::StoreUpdateAccepted))),
        m.stores.stores[(service@, store@)].public,
        store_subscribe_step(m1, m2, service, store, id, payload, auth, file, step2),
        step2.outcome == CommandOutcome::Reply(CommandResult(Ok(CommandReply::StoreSubscriptionAccepted { subscription_id: id }))),
    ensures
        is_accepted_message(m2.inboxes[file.0].messages.last(), service@, store@, id, value@, m.stores.next_timestamp),
{
    let k = (service@, store@);
    assert(m.stores.stores.contains_key(k));
    assert(m1.stores == crate::kernel::services::store::updated(m.stores, k, value@)) by {
        let (subs, msgs) = choose|subs: Seq<(FileId, SubscriptionId)>, msgs: Seq<QueuedInboxMessage>|
            #![trigger queue_each(m.inboxes, files_of(subs), msgs)]
            {
                &&& subs.no_duplicates()
                &&& forall|x: (FileId, SubscriptionId)| #[trigger] subs.contains(x) <==> is_subscriber(m.subscriptions, TargetView::Named(k), x)
                &&& msgs.len() == subs.len()
                &&& forall|j: int| 0 <= j < subs.len() ==> is_update_message(#[trigger] msgs[j], service@, store@, subs[j].1, value@)
                &&& m1 == StateModel { stores: crate::kernel::services::store::updated(m.stores, k, value@), inboxes: queue_each(m.inboxes, files_of(subs), msgs), ..m }
                &&& step1.outcome == CommandOutcome::Reply(CommandResult(Ok(CommandReply::StoreUpdateAccepted)))
                &&& step1.wake is None
                &&& step1.fanout@ == files_of(subs)
            };
    }
    assert(m1.stores.stores[k].value == value@);
    assert(m1.stores.stores[k].public);
}

} // verus!
