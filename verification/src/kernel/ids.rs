//! Identities the module hands around: connections, attached files and callers.
use vstd::prelude::*;

verus! {

/// Identity of one open motherboard connection (one open file description).
///
/// This is not a file descriptor: two descriptors that share an open file share a `FileId`.
#[derive(Clone, Copy, Debug, PartialEq, Eq, Hash, Structural)]
pub struct FileId(pub u64);

/// A file attached to a message, held by the module until it is installed in the receiver.
///
/// The module only carries these; the kernel object behind the handle is owned by the caller
/// of the library, which resolves and installs it.
#[derive(Clone, Copy, Debug, PartialEq, Eq, Hash, Structural)]
pub struct FileHandle(pub u64);

/// A process id together with the pid namespace it lives in.
#[derive(Clone, Copy, Debug, PartialEq, Eq, Hash, Structural)]
pub struct PidWithNs {
    pub namespace: usize,
    pub pid: i32,
}

/// Who opened a connection, as attested by the kernel when the device was opened.
#[derive(Clone, Copy, Debug, PartialEq, Eq, Structural)]
pub struct AuthInfo {
    pub uid: u32,
    pub pid_with_ns: PidWithNs,
    pub is_trusted: bool,
}

} // verus!
