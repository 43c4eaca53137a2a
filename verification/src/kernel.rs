//! The motherboard module's bookkeeping: connections, inboxes, services, reply tokens and stores.
pub mod device;
pub mod ids;
pub mod laws;
pub mod message_inbox;
pub mod numbering;
pub mod reply_tokens;
pub mod services;
pub mod tables;
pub mod state;
