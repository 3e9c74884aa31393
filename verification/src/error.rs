use vstd::prelude::*;

verus! {

/// Every failure the library reports.
///
/// String payloads carry the context: the device, selector or expression
/// that caused the failure.
#[derive(Clone, Debug, PartialEq, Eq)]
pub enum Error {
    /// A device, or one of its brightness attributes, is missing or
    /// unreadable; the payload names the device.
    AttributeUnreadable(String),
    /// Text that should hold an integer does not parse as one; the
    /// payload is the offending text.
    InvalidValue(String),
    /// A malformed or semantically invalid device selector; the payload
    /// is the selector.
    InvalidSelector(String),
    /// Enumeration yielded no backlight when a default device was asked
    /// for.
    NoDeviceFound,
    /// The privileged write could not be established, timed out, or
    /// returned a remote error; the payload is the cause.
    PrivilegedCallFailed(String),
}

} // verus!
