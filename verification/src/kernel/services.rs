//! Bound services and the function calls queued for them.
use vstd::prelude::*;
use crate::protocol::{InboxMessage, Origin, ReplyToken, RequestId};
use crate::kernel::ids::{AuthInfo, FileHandle, FileId};
use crate::kernel::message_inbox::QueuedInboxMessage;
use crate::kernel::reply_tokens::{PendingReply, ReplyTokens};
use crate::kernel::numbering::{
    allocated_number, law_allocated_is_fresh, lemma_allocated_is_chosen, lemma_free_number_exists, next_number,
};

pub mod store;

verus! {

/// A function call waiting for its service to fetch it.
pub struct QueuedRequest {
    pub client_file_id: FileId,
    pub origin: Origin,
    pub method: String,
    pub request_id: RequestId,
    pub payload: Vec<u8>,
    pub fds: Vec<FileHandle>,
}

impl QueuedRequest {
    pub fn new(
        client_file_id: FileId,
        origin: Origin,
        method: String,
        request_id: RequestId,
        payload: Vec<u8>,
        fds: Vec<FileHandle>,
    ) -> (r: Self)
        ensures
            r == (QueuedRequest { client_file_id, origin, method, request_id, payload, fds }),
    {
        QueuedRequest { client_file_id, origin, method, request_id, payload, fds }
    }
}

/// A service name bound by one connection, with its queue of unfetched calls.
pub struct Service {
    /// The connection that bound the service.
    pub file_id: FileId,
    /// Who bound the service.
    pub auth_info: AuthInfo,
    pub request_queue: std::collections::VecDeque<QueuedRequest>,
    pub name: String,
}

/// The token handed out from `next` when the numbers in `taken` are in use.
pub open spec fn token_from(next: u64, taken: Set<u64>) -> u64 {
    choose|t: u64| allocated_number(next, taken, t)
}

/// Reply tokens issued, one after the other, for each queued call of the service at
/// `service_file_id`: the allocation cursor and table afterwards, and the tokens in order.
pub open spec fn issue_tokens(
    next: u64,
    pending: Map<u64, PendingReply>,
    requests: Seq<QueuedRequest>,
    service_file_id: FileId,
) -> (u64, Map<u64, PendingReply>, Seq<u64>)
    decreases requests.len(),
{
    if requests.len() == 0 {
        (next, pending, Seq::empty())
    } else {
        let t = token_from(next, pending.dom());
        let p = PendingReply {
            client_file_id: requests[0].client_file_id,
            service_file_id,
            request_id: requests[0].request_id,
        };
        let (n2, p2, ts) = issue_tokens(next_number(t), pending.insert(t, p), requests.drop_first(), service_file_id);
        (n2, p2, seq![t] + ts)
    }
}

/// Issuing tokens for `requests` hands out one fresh, nonzero token per call, all distinct,
/// each recording the call's client and request id; the tokens already outstanding stay as
/// they were.
pub proof fn lemma_issue_tokens(next: u64, pending: Map<u64, PendingReply>, requests: Seq<QueuedRequest>, service_file_id: FileId)
    requires
        next != 0,
        pending.dom().finite(),
        pending.len() + requests.len() < u64::MAX,
    ensures
        ({
            let (n2, p2, ts) = issue_tokens(next, pending, requests, service_file_id);
            &&& n2 != 0
            &&& p2.dom().finite()
            &&& p2.len() == pending.len() + requests.len()
            &&& ts.len() == requests.len()
            &&& ts.no_duplicates()
            &&& forall|i: int|
                0 <= i < ts.len() ==> {
                    &&& #[trigger] ts[i] != 0
                    &&& !pending.contains_key(ts[i])
                    &&& p2.contains_key(ts[i])
                    &&& p2[ts[i]] == (PendingReply {
                        client_file_id: requests[i].client_file_id,
                        service_file_id,
                        request_id: requests[i].request_id,
                    })
                }
            &&& forall|k: u64| #[trigger] pending.contains_key(k) ==> p2.contains_key(k) && p2[k] == pending[k]
        }),
    decreases requests.len(),
{
    if requests.len() > 0 {
        lemma_free_number_exists(next, pending.dom());
        let t = token_from(next, pending.dom());
        law_allocated_is_fresh(next, pending.dom(), t);
        let p = PendingReply {
            client_file_id: requests[0].client_file_id,
            service_file_id,
            request_id: requests[0].request_id,
        };
        let pending1 = pending.insert(t, p);
        assert(pending1.dom() =~= pending.dom().insert(t));
        assert(pending1.len() == pending.len() + 1);
        assert(pending1.contains_key(t));
        let rest = requests.drop_first();
        lemma_issue_tokens(next_number(t), pending1, rest, service_file_id);
        let (n1, p1, ts1) = issue_tokens(next_number(t), pending1, rest, service_file_id);
        let ts = seq![t] + ts1;
        assert(issue_tokens(next, pending, requests, service_file_id) == (n1, p1, ts));
        assert forall|i: int| 0 <= i < ts.len() implies {
            &&& #[trigger] ts[i] != 0
            &&& !pending.contains_key(ts[i])
            &&& p1.contains_key(ts[i])
            &&& p1[ts[i]] == (PendingReply {
                client_file_id: requests[i].client_file_id,
                service_file_id,
                request_id: requests[i].request_id,
            })
        } by {
            if i > 0 {
                assert(ts[i] == ts1[i - 1]);
                assert(rest[i - 1] == requests[i]);
                assert(ts1[i - 1] != 0);
            } else {
                assert(ts[0] == t);
                assert(p1[t] == pending1[t]);
            }
        }
        assert forall|k: u64| #[trigger] pending.contains_key(k) implies p1.contains_key(k) && p1[k] == pending[k] by {
            assert(pending1.contains_key(k));
            assert(k != t);
        }
        assert(ts.no_duplicates()) by {
            assert forall|a: int, b: int| 0 <= a < ts.len() && 0 <= b < ts.len() && a != b implies ts[a] != ts[b] by {
                if a > 0 && b > 0 {
                    assert(ts[a] == ts1[a - 1]);
                    assert(ts[b] == ts1[b - 1]);
                } else if a == 0 {
                    assert(ts[b] == ts1[b - 1]);
                    assert(!pending1.contains_key(ts1[b - 1]));
                } else {
                    assert(ts[a] == ts1[a - 1]);
                    assert(!pending1.contains_key(ts1[a - 1]));
                }
            }
        }
    }
}

/// `m` is the request message a service receives for the queued call `q` under `token`.
pub open spec fn is_request_message(m: QueuedInboxMessage, service_name: String, q: QueuedRequest, token: u64) -> bool {
    &&& m.fds == q.fds
    &&& m.message matches InboxMessage::FunctionCallRequest { service, method, request_id, reply_token, origin, payload, fds }
    &&& service == service_name
    &&& method == q.method
    &&& request_id == q.request_id
    &&& reply_token == ReplyToken(token)
    &&& origin == q.origin
    &&& payload == q.payload
    &&& fds@.len() == 0
}

impl Service {
    /// The unfetched calls, oldest first.
    pub open spec fn queue(&self) -> Seq<QueuedRequest> {
        self.request_queue@
    }

    pub fn new(name: String, auth_info: AuthInfo, file_id: FileId) -> (s: Self)
        ensures
            s.name == name,
            s.auth_info == auth_info,
            s.file_id == file_id,
            s.queue() == Seq::<QueuedRequest>::empty(),
    {
        Service { file_id, auth_info, request_queue: std::collections::VecDeque::new(), name }
    }

    pub fn queue_call(&mut self, call: QueuedRequest)
        ensures
            final(self).queue() == old(self).queue().push(call),
            final(self).name == old(self).name,
            final(self).file_id == old(self).file_id,
            final(self).auth_info == old(self).auth_info,
    {
        self.request_queue.push_back(call);
    }

    /// Turns every queued call, oldest first, into the request message the service receives,
    /// issuing one reply token per call. The queue is empty afterwards.
    pub fn flush_requests_as_inbox_messages(&mut self, reply_tokens: &mut ReplyTokens) -> (messages: Vec<QueuedInboxMessage>)
        requires
            old(reply_tokens).wf(),
            old(reply_tokens).pending().len() + old(self).queue().len() < u64::MAX,
        ensures
            final(reply_tokens).wf(),
            final(self).queue() == Seq::<QueuedRequest>::empty(),
            final(self).name == old(self).name,
            final(self).file_id == old(self).file_id,
            final(self).auth_info == old(self).auth_info,
            ({
                let (next, pending, tokens) = issue_tokens(
                    old(reply_tokens).next_token(),
                    old(reply_tokens).pending(),
                    old(self).queue(),
                    old(self).file_id,
                );
                &&& final(reply_tokens).next_token() == next
                &&& final(reply_tokens).pending() == pending
                &&& messages@.len() == old(self).queue().len()
                &&& tokens.len() == old(self).queue().len()
                &&& forall|i: int|
                    0 <= i < messages@.len() ==> is_request_message(
                        #[trigger] messages@[i],
                        old(self).name,
                        old(self).queue()[i],
                        tokens[i],
                    )
            }),
    {
        let ghost q0 = self.request_queue@;
        let ghost n0 = reply_tokens.next_token();
        let ghost p0 = reply_tokens.pending();
        let ghost mut issued: Seq<u64> = Seq::empty();
        let mut messages: Vec<QueuedInboxMessage> = Vec::new();
        proof {
            reply_tokens.lemma_wf();
        }
        while self.request_queue.len() > 0
            invariant
                reply_tokens.wf(),
                self.name == old(self).name,
                self.file_id == old(self).file_id,
                self.auth_info == old(self).auth_info,
                q0 == old(self).queue(),
                n0 == old(reply_tokens).next_token(),
                p0 == old(reply_tokens).pending(),
                messages@.len() == issued.len(),
                issued.len() + self.request_queue@.len() == q0.len(),
                q0 == q0.take(issued.len() as int) + self.request_queue@,
                reply_tokens.pending().len() + self.request_queue@.len() < u64::MAX,
                issue_tokens(n0, p0, q0, self.file_id) == ({
                    let (n, p, ts) = issue_tokens(
                        reply_tokens.next_token(),
                        reply_tokens.pending(),
                        self.request_queue@,
                        self.file_id,
                    );
                    (n, p, issued + ts)
                }),
                forall|i: int|
                    0 <= i < messages@.len() ==> is_request_message(
                        #[trigger] messages@[i],
                        self.name,
                        q0[i],
                        issued[i],
                    ),
            decreases self.request_queue@.len(),
        {
            let ghost before = self.request_queue@;
            let qr = self.request_queue.pop_front().unwrap();
            proof {
                reply_tokens.lemma_wf();
            }
            let ghost tokens_before_next = reply_tokens.next_token();
            let ghost tokens_before = reply_tokens.pending();
            let token = reply_tokens.create(qr.client_file_id, self.file_id, qr.request_id);
            proof {
                lemma_allocated_is_chosen(tokens_before_next, tokens_before.dom(), token.0);
                assert(before.drop_first() =~= self.request_queue@);
                assert(q0[issued.len() as int] == before[0]);
                let (n, p, ts) = issue_tokens(reply_tokens.next_token(), reply_tokens.pending(), self.request_queue@, self.file_id);
                assert(issued + (seq![token.0] + ts) =~= issued.push(token.0) + ts);
                assert(q0.take(issued.len() as int + 1) =~= q0.take(issued.len() as int).push(before[0]));
                assert(q0 =~= q0.take(issued.len() as int + 1) + self.request_queue@);
                assert(reply_tokens.pending().len() == tokens_before.len() + 1);
            }
            let message = InboxMessage::FunctionCallRequest {
                service: self.name.clone(),
                method: qr.method,
                request_id: qr.request_id,
                reply_token: token,
                origin: qr.origin,
                payload: qr.payload,
                fds: Vec::new(),
            };
            messages.push(QueuedInboxMessage::new(message, qr.fds));
            proof {
                issued = issued.push(token.0);
            }
        }
        messages
    }
}

} // verus!
