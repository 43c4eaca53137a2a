//! Reply tokens: the module's record of which client waits for which function-call reply.
use vstd::prelude::*;
use crate::protocol::{ReplyToken, RequestId, TransportError};
use crate::kernel::ids::FileId;
use crate::kernel::tables::{PendingReplyTable, pending_reply_entries};
use crate::kernel::numbering::{allocate_number, allocated_number, next_number};

verus! {

/// A function call that a service has received and not yet answered.
#[derive(Clone, Copy, Debug, PartialEq, Eq, Structural)]
pub struct PendingReply {
    pub client_file_id: FileId,
    pub service_file_id: FileId,
    pub request_id: RequestId,
}

/// The outstanding reply tokens of the module.
pub struct ReplyTokens {
    next: u64,
    pending: PendingReplyTable,
}

impl ReplyTokens {
    /// The token number the next allocation tries first.
    pub closed spec fn next_token(&self) -> u64 {
        self.next
    }

    /// Outstanding tokens and what each one answers.
    pub closed spec fn pending(&self) -> Map<u64, PendingReply> {
        pending_reply_entries(self.pending)
    }

    /// The invariant kept by every operation: 0 is never a token and the table is finite.
    pub closed spec fn wf(&self) -> bool {
        &&& self.next != 0
        &&& pending_reply_entries(self.pending).dom().finite()
        &&& !pending_reply_entries(self.pending).dom().contains(0)
    }

    /// What the invariant says, in terms of the public view.
    pub proof fn lemma_wf(&self)
        requires
            self.wf(),
        ensures
            self.next_token() != 0,
            self.pending().dom().finite(),
            !self.pending().dom().contains(0),
    {
    }

    /// No token is outstanding; the first token handed out is 1.
    pub fn new() -> (r: Self)
        ensures
            r.wf(),
            r.next_token() == 1,
            r.pending() == Map::<u64, PendingReply>::empty(),
    {
        ReplyTokens { next: 1, pending: PendingReplyTable::new() }
    }

    /// The number of outstanding tokens.
    pub fn len(&self) -> (n: usize)
        ensures
            n == self.pending().len(),
    {
        self.pending.len()
    }

    /// Issues a fresh token for a call from `client_file_id` to the service at
    /// `service_file_id`: the first free number from [`Self::next_token`] on.
    pub fn create(&mut self, client_file_id: FileId, service_file_id: FileId, request_id: RequestId) -> (token: ReplyToken)
        requires
            old(self).wf(),
            old(self).pending().len() < u64::MAX,
        ensures
            final(self).wf(),
            token.0 != 0,
            allocated_number(old(self).next_token(), old(self).pending().dom(), token.0),
            final(self).next_token() == next_number(token.0),
            final(self).pending() == old(self).pending().insert(
                token.0,
                PendingReply { client_file_id, service_file_id, request_id },
            ),
    {
        let token = ReplyToken(allocate_number(&mut self.next, &self.pending));
        self.pending.insert(token.0, PendingReply { client_file_id, service_file_id, request_id });
        token
    }

    /// Redeems `token` on behalf of the service at `replying_service_file_id`.
    ///
    /// Succeeds, and retires the token, only when the token is outstanding and was issued for a
    /// call to that same service; otherwise nothing changes.
    pub fn consume(&mut self, token: ReplyToken, replying_service_file_id: FileId) -> (r: Result<PendingReply, TransportError>)
        requires
            old(self).wf(),
        ensures
            final(self).wf(),
            final(self).next_token() == old(self).next_token(),
            match old(self).pending().get(token.0) {
                Some(p) if p.service_file_id == replying_service_file_id => {
                    &&& r == Ok::<PendingReply, TransportError>(p)
                    &&& final(self).pending() == old(self).pending().remove(token.0)
                },
                _ => {
                    &&& r == Err::<PendingReply, TransportError>(TransportError::InvalidReplyToken)
                    &&& final(self).pending() == old(self).pending()
                },
            },
    {
        let pending = match self.pending.get(token.0) {
            Some(p) => p,
            None => return Err(TransportError::InvalidReplyToken),
        };
        if pending.service_file_id != replying_service_file_id {
            return Err(TransportError::InvalidReplyToken);
        }
        self.pending.remove(token.0);
        Ok(pending)
    }

    /// Drops every token in which the connection `file_id` takes part, as client or as service.
    pub fn remove_for_file(&mut self, file_id: FileId)
        requires
            old(self).wf(),
        ensures
            final(self).wf(),
            final(self).next_token() == old(self).next_token(),
            final(self).pending() == old(self).pending().restrict(
                old(self).pending().dom().filter(|t: u64| !involves(old(self).pending()[t], file_id)),
            ),
    {
        let keys = self.pending.keys();
        let ghost original = self.pending();
        let mut i: usize = 0;
        while i < keys.len()
            invariant
                0 <= i <= keys.len(),
                keys@.no_duplicates(),
                keys@.to_set() == original.dom(),
                self.wf(),
                self.next == old(self).next,
                original == old(self).pending(),
                forall|t: u64| #[trigger] self.pending().contains_key(t) ==> original.contains_key(t) && self.pending()[t] == original[t],
                forall|t: u64| #[trigger] original.contains_key(t) && !involves(original[t], file_id) ==> self.pending().contains_key(t),
                forall|j: int| 0 <= j < i ==> !(self.pending().contains_key(#[trigger] keys@[j]) && involves(original[keys@[j]], file_id)),
                forall|j: int| i <= j < keys@.len() ==> (self.pending().contains_key(#[trigger] keys@[j])),
            decreases keys.len() - i,
        {
            let key = keys[i];
            assert(keys@.to_set().contains(key));
            match self.pending.get(key) {
                Some(p) => {
                    if p.client_file_id == file_id || p.service_file_id == file_id {
                        self.pending.remove(key);
                        assert forall|j: int| i < j < keys@.len() implies self.pending().contains_key(#[trigger] keys@[j]) by {
                            assert(keys@[j] != keys@[i as int]);
                        }
                    }
                },
                None => {},
            }
            i = i + 1;
        }
        proof {
            let expected = original.restrict(original.dom().filter(|t: u64| !involves(original[t], file_id)));
            assert forall|t: u64| self.pending().contains_key(t) implies !involves(original[t], file_id) by {
                assert(keys@.to_set().contains(t));
                let j = keys@.index_of(t);
            }
            assert(self.pending() =~= expected);
        }
    }
}

/// Whether the connection `file_id` is the client or the service of a pending call.
pub open spec fn involves(p: PendingReply, file_id: FileId) -> bool {
    p.client_file_id == file_id || p.service_file_id == file_id
}

} // verus!

verus! {

impl Default for ReplyTokens {
    fn default() -> (r: Self)
        ensures
            r.wf(),
            r.next_token() == 1,
            r.pending() == Map::<u64, PendingReply>::empty(),
    {
        ReplyTokens::new()
    }
}

} // verus!
