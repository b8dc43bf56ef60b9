//! The mount-adapter surface: the trait a platform adapter implements to
//! attach the filesystem to a mountpoint, the per-platform marker types,
//! and the error a mount attempt can surface.

use vstd::prelude::*;
use vstd::string::StringExecFns;

verus! {

/// What a platform mount adapter offers: attaching the filesystem at a
/// mountpoint. Implementations live with the platform glue, outside the
/// verified library.
pub trait FuseAdapter {
    /// Mounts at the given path, or reports why the driver refused.
    fn mount(&self, mountpoint: &str) -> Result<(), String>;
}

/// Marker for the macFUSE-backed adapter.
pub struct MacOSFuseAdapter;

/// Marker for the WinFSP-backed adapter.
pub struct WindowsFuseAdapter;

/// Why a mount attempt or a remote conversation failed.
pub enum FsError {
    /// The mountpoint does not exist.
    MountPointNotFound(String),
    /// The driver refused for lack of permission.
    PermissionDenied(String),
    /// No FUSE driver is installed.
    FuseNotAvailable,
    /// A local I/O error, carried as its message.
    IoError(String),
    /// The configuration cannot be used.
    ConfigError(String),
    /// The remote server answered with a failure.
    RemoteError(String),
    /// Anything else.
    Other(String),
}

impl FsError {
    /// A human-readable description of the failure.
    pub fn message(&self) -> String {
        let mut s: String;
        match self {
            FsError::MountPointNotFound(path) => {
                s = String::from_str("Mount point not found: ");
                s.append(path.as_str());
            },
            FsError::PermissionDenied(msg) => {
                s = String::from_str("Permission denied: ");
                s.append(msg.as_str());
            },
            FsError::FuseNotAvailable => {
                s = String::from_str("FUSE is not available on this system");
            },
            FsError::IoError(msg) => {
                s = String::from_str("I/O error: ");
                s.append(msg.as_str());
            },
            FsError::ConfigError(msg) => {
                s = String::from_str("Configuration error: ");
                s.append(msg.as_str());
            },
            FsError::RemoteError(msg) => {
                s = String::from_str("Remote server error: ");
                s.append(msg.as_str());
            },
            FsError::Other(msg) => {
                s = String::from_str("Error: ");
                s.append(msg.as_str());
            },
        }
        s
    }
}

} // verus!
