//! Naming a volume's device, and telling apart the ways in which opening it
//! or querying its journal fails.

use vstd::prelude::*;
use vstd::string::StringExecFns;

verus! {

/// The operating system's code for a refused access.
pub const ERROR_ACCESS_DENIED: i32 = 5;

/// The operating system's code with which a volume answers a device control
/// that its file system does not know.
pub const ERROR_INVALID_FUNCTION: i32 = 1;

/// The operating system's code for a request that is not supported.
pub const ERROR_NOT_SUPPORTED: i32 = 50;

/// Why a drive could not be listed.
#[derive(Debug, Clone, Copy, PartialEq, Eq, Structural)]
pub enum VolumeError {
    /// The operating system refused to open the volume.
    AccessDenied,
    /// The file system of the volume keeps no change journal.
    JournalUnsupported,
    /// The device failed with the given code.
    DeviceError(i32),
}

/// The prefix that turns a drive into the path of its device.
pub open spec fn device_prefix() -> Seq<char> {
    seq!['\\', '\\', '.', '\\']
}

/// The path of the device of `drive`, such as `\\.\C:` for `C:`.
pub fn device_path(drive: &str) -> (path: String)
    ensures
        path@ == device_prefix() + drive@,
{
    proof {
        reveal_strlit("\\\\.\\");
        assert("\\\\.\\"@ =~= device_prefix());
    }
    let mut path = String::from_str("\\\\.\\");
    path.append(drive);
    path
}

/// What a failure to open a volume means.
pub fn classify_open_failure(code: i32) -> (error: VolumeError)
    ensures
        error == if code == ERROR_ACCESS_DENIED {
            VolumeError::AccessDenied
        } else {
            VolumeError::DeviceError(code)
        },
{
    if code == ERROR_ACCESS_DENIED {
        VolumeError::AccessDenied
    } else {
        VolumeError::DeviceError(code)
    }
}

/// What a failure to create or query a volume's journal means: a file
/// system that does not know the request keeps no change journal.
pub fn classify_journal_failure(code: i32) -> (error: VolumeError)
    ensures
        error == if code == ERROR_INVALID_FUNCTION || code == ERROR_NOT_SUPPORTED {
            VolumeError::JournalUnsupported
        } else {
            VolumeError::DeviceError(code)
        },
{
    if code == ERROR_INVALID_FUNCTION || code == ERROR_NOT_SUPPORTED {
        VolumeError::JournalUnsupported
    } else {
        VolumeError::DeviceError(code)
    }
}

} // verus!
