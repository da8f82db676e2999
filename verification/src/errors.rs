//! Error values returned by the registry, the generator and the codec
//! layers. All failures are reported as values; no operation of this
//! library aborts the process.

use vstd::prelude::*;

verus! {

/// Every recoverable failure of the library.
#[derive(Clone, Copy, Debug, PartialEq, Eq, Structural)]
pub enum PikaError {
    /// A prefix is empty, longer than 32 characters, or holds a character
    /// outside ASCII letters and digits.
    InvalidPrefixFormat,
    /// A prefix is registered twice.
    DuplicatePrefix,
    /// An id was generated or deconstructed under a prefix that was never
    /// registered.
    UnknownPrefix,
    /// An id's payload cannot be read back: its base64 is broken (the
    /// codec itself reports that as `None`), the decoded text is not a
    /// decimal snowflake, it has fewer segments than the secure format
    /// requires, or its timestamp does not fit beside this registry's
    /// epoch.
    MalformedPayload,
    /// The clock reported a millisecond before this generator's epoch.
    /// The generator fails explicitly instead of waiting for the clock to
    /// catch up with the epoch.
    ClockRegression,
    /// The time since the epoch no longer fits in the 42-bit timestamp
    /// field of a snowflake.
    TimestampOverflow,
}

} // verus!
