//! The userspace side of the protocol: how a client numbers its requests and subscriptions,
//! and how it reads the module's answers to each of its commands.
//!
//! Talking to the device (encoding a command, the `ioctl`, reading the result descriptor) is
//! left to the caller; everything that is decided about the answer is here.
use vstd::prelude::*;
use crate::protocol::{CommandReply, CommandResult, InboxMessage, RawFd, RequestId, SubscriptionId, TransportError};

verus! {

/// Why a client operation failed, once the device exchange itself went through.
#[derive(Debug)]
pub enum ClientError {
    /// The module's answer could not be understood.
    Protocol(String),
    /// The module refused the command.
    Transport(TransportError),
    /// Nothing to fetch yet: wait for this latch descriptor to become readable.
    WouldBlock(RawFd),
    /// The module answered with a reply that does not belong to the command.
    UnexpectedReply(CommandReply),
}

/// The outcome of a command as the client sees it: a refusal that hands out a latch becomes
/// [`ClientError::WouldBlock`], every other refusal [`ClientError::Transport`].
pub fn interpret_result(result: CommandResult) -> (r: Result<CommandReply, ClientError>)
    ensures
        match result.0 {
            Ok(reply) => r == Ok::<CommandReply, ClientError>(reply),
            Err(TransportError::WouldBlock { latch_fd }) => r == Err::<CommandReply, ClientError>(ClientError::WouldBlock(latch_fd)),
            Err(error) => r == Err::<CommandReply, ClientError>(ClientError::Transport(error)),
        },
{
    let CommandResult(result) = result;
    match result {
        Ok(reply) => Ok(reply),
        Err(TransportError::WouldBlock { latch_fd }) => Err(ClientError::WouldBlock(latch_fd)),
        Err(error) => Err(ClientError::Transport(error)),
    }
}

/// The answer to `BindService`: [`CommandReply::ServiceBound`].
pub fn check_bind_service(reply: CommandReply) -> (r: Result<(), ClientError>)
    ensures
        if reply is ServiceBound {
            r == Ok::<(), ClientError>(())
        } else {
            r == Err::<(), ClientError>(ClientError::UnexpectedReply(reply))
        },
{
    match reply {
        CommandReply::ServiceBound => Ok(()),
        reply => Err(ClientError::UnexpectedReply(reply)),
    }
}

/// The answer to a function call sent as `request_id`: it must be accepted under that same id.
pub fn check_call(reply: CommandReply, request_id: RequestId) -> (r: Result<RequestId, ClientError>)
    ensures
        if reply == (CommandReply::FunctionCallAccepted { request_id }) {
            r == Ok::<RequestId, ClientError>(request_id)
        } else {
            r == Err::<RequestId, ClientError>(ClientError::UnexpectedReply(reply))
        },
{
    match reply {
        CommandReply::FunctionCallAccepted { request_id: submitted } if submitted.0 == request_id.0 => Ok(submitted),
        reply => Err(ClientError::UnexpectedReply(reply)),
    }
}

/// The answer to a function-call reply: [`CommandReply::FunctionCallReplyAccepted`].
pub fn check_reply(reply: CommandReply) -> (r: Result<(), ClientError>)
    ensures
        if reply is FunctionCallReplyAccepted {
            r == Ok::<(), ClientError>(())
        } else {
            r == Err::<(), ClientError>(ClientError::UnexpectedReply(reply))
        },
{
    match reply {
        CommandReply::FunctionCallReplyAccepted => Ok(()),
        reply => Err(ClientError::UnexpectedReply(reply)),
    }
}

/// The answer to a subscription request sent as `subscription_id`: it must be accepted under
/// that same id.
pub fn check_subscribe(reply: CommandReply, subscription_id: SubscriptionId) -> (r: Result<SubscriptionId, ClientError>)
    ensures
        if reply == (CommandReply::StoreSubscriptionAccepted { subscription_id }) {
            r == Ok::<SubscriptionId, ClientError>(subscription_id)
        } else {
            r == Err::<SubscriptionId, ClientError>(ClientError::UnexpectedReply(reply))
        },
{
    match reply {
        CommandReply::StoreSubscriptionAccepted { subscription_id: submitted } if submitted.0 == subscription_id.0 => Ok(submitted),
        reply => Err(ClientError::UnexpectedReply(reply)),
    }
}

/// The answer to `StoreUnsubscribe`: [`CommandReply::StoreUnsubscribed`].
pub fn check_unsubscribe(reply: CommandReply) -> (r: Result<(), ClientError>)
    ensures
        if reply is StoreUnsubscribed {
            r == Ok::<(), ClientError>(())
        } else {
            r == Err::<(), ClientError>(ClientError::UnexpectedReply(reply))
        },
{
    match reply {
        CommandReply::StoreUnsubscribed => Ok(()),
        reply => Err(ClientError::UnexpectedReply(reply)),
    }
}

/// The answer to `StoreCreate`: [`CommandReply::StoreCreateAccepted`].
pub fn check_create(reply: CommandReply) -> (r: Result<(), ClientError>)
    ensures
        if reply is StoreCreateAccepted {
            r == Ok::<(), ClientError>(())
        } else {
            r == Err::<(), ClientError>(ClientError::UnexpectedReply(reply))
        },
{
    match reply {
        CommandReply::StoreCreateAccepted => Ok(()),
        reply => Err(ClientError::UnexpectedReply(reply)),
    }
}

/// The answer to `StoreUpdate`: [`CommandReply::StoreUpdateAccepted`].
pub fn check_update(reply: CommandReply) -> (r: Result<(), ClientError>)
    ensures
        if reply is StoreUpdateAccepted {
            r == Ok::<(), ClientError>(())
        } else {
            r == Err::<(), ClientError>(ClientError::UnexpectedReply(reply))
        },
{
    match reply {
        CommandReply::StoreUpdateAccepted => Ok(()),
        reply => Err(ClientError::UnexpectedReply(reply)),
    }
}

/// The answer to `StoreSubscriptionReply`: [`CommandReply::StoreSubscriptionReplyAccepted`].
pub fn check_subscription_reply(reply: CommandReply) -> (r: Result<(), ClientError>)
    ensures
        if reply is StoreSubscriptionReplyAccepted {
            r == Ok::<(), ClientError>(())
        } else {
            r == Err::<(), ClientError>(ClientError::UnexpectedReply(reply))
        },
{
    match reply {
        CommandReply::StoreSubscriptionReplyAccepted => Ok(()),
        reply => Err(ClientError::UnexpectedReply(reply)),
    }
}

/// The answer to `InboxNextMessage`: the popped message.
pub fn check_fetch(reply: CommandReply) -> (r: Result<InboxMessage, ClientError>)
    ensures
        match reply {
            CommandReply::InboxMessagePopped(message) => r == Ok::<InboxMessage, ClientError>(message),
            _ => r == Err::<InboxMessage, ClientError>(ClientError::UnexpectedReply(reply)),
        },
{
    match reply {
        CommandReply::InboxMessagePopped(message) => Ok(message),
        reply => Err(ClientError::UnexpectedReply(reply)),
    }
}

/// The number after `n` in a counter that wraps around at the top of `u64`.
pub open spec fn counter_after(n: u64) -> u64 {
    if n == u64::MAX { 0 } else { (n + 1) as u64 }
}

/// The numbers a client gives its requests and its subscriptions: each counter starts at 1
/// and hands out consecutive numbers.
pub struct IdCounters {
    next_request_id: u64,
    next_subscription_id: u64,
}

impl IdCounters {
    /// The request id handed out next.
    pub closed spec fn next_request(&self) -> u64 {
        self.next_request_id
    }

    /// The subscription id handed out next.
    pub closed spec fn next_subscription(&self) -> u64 {
        self.next_subscription_id
    }

    pub fn new() -> (r: Self)
        ensures
            r.next_request() == 1,
            r.next_subscription() == 1,
    {
        IdCounters { next_request_id: 1, next_subscription_id: 1 }
    }

    /// A fresh request id: the counter's value, which then moves on by one.
    pub fn next_request_id(&mut self) -> (id: RequestId)
        ensures
            id.0 == old(self).next_request(),
            final(self).next_request() == counter_after(old(self).next_request()),
            final(self).next_subscription() == old(self).next_subscription(),
    {
        let id = self.next_request_id;
        self.next_request_id = self.next_request_id.wrapping_add(1);
        RequestId(id)
    }

    /// A fresh subscription id: the counter's value, which then moves on by one.
    pub fn next_subscription_id(&mut self) -> (id: SubscriptionId)
        ensures
            id.0 == old(self).next_subscription(),
            final(self).next_subscription() == counter_after(old(self).next_subscription()),
            final(self).next_request() == old(self).next_request(),
    {
        let id = self.next_subscription_id;
        self.next_subscription_id = self.next_subscription_id.wrapping_add(1);
        SubscriptionId(id)
    }
}

} // verus!

verus! {

/// Ids are handed out one after the other: the id after `n` is `n + 1`, until the counter
/// wraps around at the top of `u64`.
pub proof fn law_ids_are_consecutive(n: u64)
    ensures
        n < u64::MAX ==> counter_after(n) == n + 1,
        n == u64::MAX ==> counter_after(n) == 0,
{
}

} // verus!
