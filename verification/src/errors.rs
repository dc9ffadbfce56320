//! The error model: dispatcher-level errors that become error responses, and
//! framing-level errors that terminate a connection.

use vstd::prelude::*;
use vstd::string::StringExecFns;

verus! {

/// Every failure the library reports.
///
/// `NotFound` and `BackendError` are dispatcher-level: they are turned into
/// error responses. `FrameTooLarge`, `IncompleteFrame` and `CorruptPayload`
/// are framing-level: no well-formed command was recovered, so they are never
/// mapped into a response. `IncompleteFrame` alone is retryable by waiting
/// for more bytes.
#[derive(Clone, Debug, PartialEq)]
pub enum KvError {
    NotFound(String, String),
    BackendError(String),
    FrameTooLarge,
    IncompleteFrame,
    CorruptPayload,
}

/// The mathematical model of a `KvError`.
pub enum KvErrorV {
    NotFound(Seq<char>, Seq<char>),
    BackendError(Seq<char>),
    FrameTooLarge,
    IncompleteFrame,
    CorruptPayload,
}

impl View for KvError {
    type V = KvErrorV;

    open spec fn view(&self) -> KvErrorV {
        match self {
            KvError::NotFound(t, k) => KvErrorV::NotFound(t@, k@),
            KvError::BackendError(m) => KvErrorV::BackendError(m@),
            KvError::FrameTooLarge => KvErrorV::FrameTooLarge,
            KvError::IncompleteFrame => KvErrorV::IncompleteFrame,
            KvError::CorruptPayload => KvErrorV::CorruptPayload,
        }
    }
}

/// The message an error response carries for a key that was not found.
pub open spec fn not_found_message(table: Seq<char>, key: Seq<char>) -> Seq<char> {
    "Not found for table: "@ + table + ", key: "@ + key
}

impl KvErrorV {
    /// The HTTP-style status code of a dispatcher-level error.
    pub open spec fn status(self) -> u32 {
        match self {
            KvErrorV::NotFound(_, _) => 404u32,
            _ => 500u32,
        }
    }

    /// The human-readable message of a dispatcher-level error.
    pub open spec fn message(self) -> Seq<char> {
        match self {
            KvErrorV::NotFound(t, k) => not_found_message(t, k),
            KvErrorV::BackendError(m) => m,
            KvErrorV::FrameTooLarge => "Frame too large"@,
            KvErrorV::IncompleteFrame => "Incomplete frame"@,
            KvErrorV::CorruptPayload => "Corrupt payload"@,
        }
    }
}

impl KvError {
    /// The HTTP-style status code of this error.
    pub fn status(&self) -> (r: u32)
        ensures
            r == self@.status(),
    {
        match self {
            KvError::NotFound(_, _) => 404,
            _ => 500,
        }
    }

    /// The human-readable message of this error.
    pub fn message(&self) -> (r: String)
        ensures
            r@ == self@.message(),
    {
        match self {
            KvError::NotFound(t, k) => {
                let mut m = String::from_str("Not found for table: ");
                m.append(t.as_str());
                m.append(", key: ");
                m.append(k.as_str());
                m
            },
            KvError::BackendError(m) => m.clone(),
            KvError::FrameTooLarge => String::from_str("Frame too large"),
            KvError::IncompleteFrame => String::from_str("Incomplete frame"),
            KvError::CorruptPayload => String::from_str("Corrupt payload"),
        }
    }
}

} // verus!
