//! Error kinds of the escape pipeline.

use vstd::prelude::*;

verus! {

/// Everything that can go wrong before the restorer's point of no return.
/// After that point no structured error exists; the only signal is process
/// death.
#[derive(Debug, Clone, Copy, PartialEq, Eq, Structural)]
pub enum Error {
    /// A wire tag outside the defined set, or a non-canonical length prefix.
    Malformed,
    /// The input ended inside a message.
    Truncated,
    /// Transport disconnect or unexpected end of stream.
    IoError,
    /// The snapshot holds a descriptor type that capture does not support
    /// yet (sockets, anonymous inodes, memfd).
    CaptureUnsupported,
    /// A debugger attach or register read failed.
    RegisterCapture,
    /// A cross-process memory read failed or was partial.
    MemoryRead,
    /// No address-space gap is large enough for the restorer's trampoline.
    NoSafeHole,
    /// A failure inside relocated restore code.
    RestoreFatal,
    /// The launch-pod command exited non-zero.
    LaunchPodFailed,
}

impl Error {
    /// A short description, for logs kept outside the library.
    pub fn describe(&self) -> (r: &'static str)
        ensures
            r@ =~= self.spec_describe(),
    {
        proof {
            reveal_strlit("malformed message");
            reveal_strlit("truncated message");
            reveal_strlit("transport failure");
            reveal_strlit("unsupported descriptor in capture");
            reveal_strlit("register capture failed");
            reveal_strlit("memory read failed");
            reveal_strlit("no safe hole in the target address space");
            reveal_strlit("fatal failure in relocated restore code");
            reveal_strlit("launch pod command failed");
        }
        match self {
            Error::Malformed => "malformed message",
            Error::Truncated => "truncated message",
            Error::IoError => "transport failure",
            Error::CaptureUnsupported => "unsupported descriptor in capture",
            Error::RegisterCapture => "register capture failed",
            Error::MemoryRead => "memory read failed",
            Error::NoSafeHole => "no safe hole in the target address space",
            Error::RestoreFatal => "fatal failure in relocated restore code",
            Error::LaunchPodFailed => "launch pod command failed",
        }
    }

    pub open spec fn spec_describe(&self) -> Seq<char> {
        match self {
            Error::Malformed => "malformed message"@,
            Error::Truncated => "truncated message"@,
            Error::IoError => "transport failure"@,
            Error::CaptureUnsupported => "unsupported descriptor in capture"@,
            Error::RegisterCapture => "register capture failed"@,
            Error::MemoryRead => "memory read failed"@,
            Error::NoSafeHole => "no safe hole in the target address space"@,
            Error::RestoreFatal => "fatal failure in relocated restore code"@,
            Error::LaunchPodFailed => "launch pod command failed"@,
        }
    }
}

} // verus!
