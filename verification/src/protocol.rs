//! Wire-level vocabulary shared by userspace clients, services and the motherboard module.
use vstd::prelude::*;

verus! {

/// A userspace file descriptor number.
pub type RawFd = u32;

/// Caller-selected request identifier, unique within one motherboard connection.
#[derive(Clone, Copy, Debug, PartialEq, Eq, Hash, Structural)]
pub struct RequestId(pub u64);

/// Caller-selected subscription identifier, unique within one motherboard connection.
#[derive(Clone, Copy, Debug, PartialEq, Eq, Hash, Structural)]
pub struct SubscriptionId(pub u64);

/// Kernel-issued token that lets a service reply to exactly one pending request.
#[derive(Clone, Copy, Debug, PartialEq, Eq, Hash, Structural)]
pub struct ReplyToken(pub u64);

/// Kernel-issued identifier of an anonymous store.
#[derive(Clone, Copy, Debug, PartialEq, Eq, Hash, Structural)]
pub struct AnonymousStoreId(pub u64);

/// Identity metadata attested by the kernel, never supplied by userspace.
#[derive(Clone, Copy, Debug, PartialEq, Eq, Structural)]
pub struct Origin {
    pub pid: u32,
    pub uid: u32,
    pub gid: u32,
    pub is_trusted: bool,
}

#[derive(Clone, Debug, PartialEq, Eq)]
pub enum StoreSubscriptionServerVerdict {
    Accepted,
    Rejected { message: String },
}

/// Operations submitted by userspace to the motherboard module.
#[derive(Clone, Debug, PartialEq, Eq)]
pub enum Command {
    /// Binds the current open connection as the owner of a service name. (Server side)
    BindService { name: String },
    /// Calls an opaque service method asynchronously. (Client side)
    FunctionCall {
        service: String,
        method: String,
        request_id: RequestId,
        payload: Vec<u8>,
        fds: Vec<RawFd>,
    },
    /// Replies to a service call using a kernel-issued token. (Server side)
    FunctionCallReply {
        reply_token: ReplyToken,
        status: ReplyStatus,
        payload: Vec<u8>,
        fds: Vec<RawFd>,
    },
    /// Requests a store subscription from a service. (Client side)
    StoreSubscribe {
        service: String,
        store: String,
        subscription_id: SubscriptionId,
        payload: Vec<u8>,
    },
    /// Accepts or rejects a pending subscription request. (Server side)
    StoreSubscriptionReply { reply_token: ReplyToken, verdict: StoreSubscriptionServerVerdict },
    /// Creates a new store inside a service with an initial value. (Server side)
    StoreCreate { service: String, store: String, initial_value: Vec<u8>, public: bool },
    /// Updates the value of a store, notifying all listeners about the change. (Server side)
    StoreUpdate { service: String, store: String, value: Vec<u8> },
    /// Cancels a previously requested or accepted subscription. (Client side)
    StoreUnsubscribe { subscription_id: SubscriptionId },
    /// Fetches the next asynchronous message for the current open connection.
    InboxNextMessage,
}

/// Immediate module response to a command.
#[derive(Clone, Debug, PartialEq, Eq)]
pub enum CommandReply {
    /// Response to [`Command::BindService`].
    ServiceBound,
    /// Confirmation of [`Command::FunctionCall`].
    FunctionCallAccepted { request_id: RequestId },
    /// Confirmation of [`Command::FunctionCallReply`].
    FunctionCallReplyAccepted,
    /// Confirmation of [`Command::StoreSubscribe`].
    StoreSubscriptionAccepted { subscription_id: SubscriptionId },
    /// Confirmation of [`Command::StoreSubscriptionReply`].
    StoreSubscriptionReplyAccepted,
    /// Confirmation of [`Command::StoreCreate`].
    StoreCreateAccepted,
    /// Confirmation of [`Command::StoreUpdate`].
    StoreUpdateAccepted,
    /// Confirmation of [`Command::StoreUnsubscribe`].
    StoreUnsubscribed,
    /// Result of [`Command::InboxNextMessage`] while there are messages in the inbox.
    InboxMessagePopped(InboxMessage),
}

/// Messages delivered asynchronously through a connection inbox.
#[derive(Clone, Debug, PartialEq, Eq)]
pub enum InboxMessage {
    /// A function call came from a client.
    FunctionCallRequest {
        service: String,
        method: String,
        request_id: RequestId,
        reply_token: ReplyToken,
        origin: Origin,
        payload: Vec<u8>,
        fds: Vec<RawFd>,
    },
    /// The server responded to a previous function call.
    FunctionCallReply { request_id: RequestId, status: ReplyStatus, payload: Vec<u8>, fds: Vec<RawFd> },
    /// A client is trying to subscribe to a store in this service.
    SubscribeRequest {
        service: String,
        store: String,
        subscription_id: SubscriptionId,
        reply_token: ReplyToken,
        origin: Origin,
        payload: Vec<u8>,
    },
    /// The server accepted the subscription to a store.
    StoreSubscriptionAccepted {
        service: String,
        store: String,
        subscription_id: SubscriptionId,
        current_value: Vec<u8>,
        last_updated_timestamp: isize,
    },
    /// The server rejected the subscription.
    StoreSubscriptionRejected {
        service: String,
        store: String,
        subscription_id: SubscriptionId,
        message: String,
    },
    /// A store you were subscribed to just updated.
    StoreSubscriptionUpdated {
        service: String,
        store: String,
        subscription_id: SubscriptionId,
        payload: Vec<u8>,
    },
    /// Store subscription was terminated by the client or the server.
    StoreSubscriptionClosed {
        service: String,
        store: String,
        subscription_id: SubscriptionId,
        reason: CloseReason,
    },
    /// The server behind the service closed and the service is no longer available.
    ServiceClosed { service: String, reason: CloseReason },
}

/// Service-level status for asynchronous replies.
#[derive(Clone, Debug, PartialEq, Eq)]
pub enum ReplyStatus {
    Success,
    Error { code: String, message: String },
}

#[derive(Clone, Copy, Debug, PartialEq, Eq, Structural)]
pub enum CloseReason {
    Closed,
    ServiceExited,
    Cancelled,
    ProtocolError,
}

/// Reasons a command can be refused by the motherboard module.
#[derive(Clone, Debug, PartialEq, Eq)]
pub enum TransportError {
    Unauthorized,
    ServiceNameConflict,
    InvalidServiceName { message: String },
    NoSuchService,
    NoSuchStore,
    StoreAlreadyExists,
    InvalidStoreName { message: String },
    SubscriptionIdConflict,
    InvalidFileDescriptor,
    ResourceExhausted,
    InvalidReplyToken,
    NoSuchSubscription,
    WouldBlock { latch_fd: RawFd },
    NotImplemented,
}

/// What a [`TransportError`] says, as text.
pub open spec fn transport_error_text(e: TransportError) -> Seq<char> {
    match e {
        TransportError::Unauthorized => "Command is not allowed for the current PID, UID, GID, namespace, or security context"@,
        TransportError::ServiceNameConflict => "Failed to bind service because a service with the same name already exists"@,
        TransportError::InvalidServiceName { .. } => "Service name is invalid"@,
        TransportError::NoSuchService => "Service does not exist"@,
        TransportError::NoSuchStore => "Store does not exist"@,
        TransportError::StoreAlreadyExists => "Store already exists"@,
        TransportError::InvalidStoreName { .. } => "Store name is invalid"@,
        TransportError::SubscriptionIdConflict => "A store subscription with the same id already exists for this connection"@,
        TransportError::InvalidFileDescriptor => "An attached userspace file descriptor number is invalid"@,
        TransportError::ResourceExhausted => "The kernel could not allocate a required transport resource"@,
        TransportError::InvalidReplyToken => "Reply token is invalid, expired, already consumed, or owned by another connection"@,
        TransportError::NoSuchSubscription => "Store Subscription does not exist"@,
        TransportError::WouldBlock { .. } => "The inbox is empty; poll the returned latch fd before fetching again"@,
        TransportError::NotImplemented => "Command is recognized but is not implemented yet"@,
    }
}

impl TransportError {
    /// The error as text.
    pub fn to_text(&self) -> (r: String)
        ensures
            r@ == transport_error_text(*self),
    {
        let text = match self {
            TransportError::Unauthorized => "Command is not allowed for the current PID, UID, GID, namespace, or security context",
            TransportError::ServiceNameConflict => "Failed to bind service because a service with the same name already exists",
            TransportError::InvalidServiceName { .. } => "Service name is invalid",
            TransportError::NoSuchService => "Service does not exist",
            TransportError::NoSuchStore => "Store does not exist",
            TransportError::StoreAlreadyExists => "Store already exists",
            TransportError::InvalidStoreName { .. } => "Store name is invalid",
            TransportError::SubscriptionIdConflict => "A store subscription with the same id already exists for this connection",
            TransportError::InvalidFileDescriptor => "An attached userspace file descriptor number is invalid",
            TransportError::ResourceExhausted => "The kernel could not allocate a required transport resource",
            TransportError::InvalidReplyToken => "Reply token is invalid, expired, already consumed, or owned by another connection",
            TransportError::NoSuchSubscription => "Store Subscription does not exist",
            TransportError::WouldBlock { .. } => "The inbox is empty; poll the returned latch fd before fetching again",
            TransportError::NotImplemented => "Command is recognized but is not implemented yet",
        };
        text.to_owned()
    }
}

/// The outcome of one command, as returned to userspace.
#[derive(Debug, PartialEq, Eq)]
pub struct CommandResult(pub Result<CommandReply, TransportError>);

} // verus!
