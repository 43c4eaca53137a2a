//! The checks the device makes on an `ioctl` before it reads the command: the request must
//! be the execute request, and the envelope must carry the ABI version the module speaks.
use vstd::prelude::*;

verus! {

/// Why the device turns an `ioctl` away.
#[derive(Clone, Copy, Debug, PartialEq, Eq, Structural)]
pub enum IoctlRefusal {
    /// Not the execute request: answered with `ENOTTY`.
    UnknownCommand,
    /// An envelope of another ABI version: answered with `EINVAL`.
    UnsupportedVersion,
}

impl IoctlRefusal {
    /// The Linux error number the refusal is answered with: `ENOTTY` (25) or `EINVAL` (22).
    pub fn errno(self) -> (e: i32)
        ensures
            e == (match self {
                IoctlRefusal::UnknownCommand => 25i32,
                IoctlRefusal::UnsupportedVersion => 22i32,
            }),
    {
        match self {
            IoctlRefusal::UnknownCommand => 25,
            IoctlRefusal::UnsupportedVersion => 22,
        }
    }
}

/// The request number `cmd` must be `execute`, the one request the device serves.
pub fn check_request(cmd: u32, execute: u32) -> (r: Result<(), IoctlRefusal>)
    ensures
        r == (if cmd == execute { Ok::<(), IoctlRefusal>(()) } else { Err(IoctlRefusal::UnknownCommand) }),
{
    if cmd == execute {
        Ok(())
    } else {
        Err(IoctlRefusal::UnknownCommand)
    }
}

/// The envelope's ABI `version` must be `supported`, the version the module speaks.
pub fn check_abi_version(version: u32, supported: u32) -> (r: Result<(), IoctlRefusal>)
    ensures
        r == (if version == supported { Ok::<(), IoctlRefusal>(()) } else { Err(IoctlRefusal::UnsupportedVersion) }),
{
    if version == supported {
        Ok(())
    } else {
        Err(IoctlRefusal::UnsupportedVersion)
    }
}

} // verus!
