//! The unified error taxonomy.
//!
//! Every layer of the pipeline reports failures through these two
//! types. `RawTelegramError` covers wire-level failures: a request
//! that could not be serialized (`Detached`), a response without a
//! body (`EmptyBody`), a failure reported by the remote service
//! (`Telegram`), and response bytes that do not parse as the expected
//! envelope (`Json`). `TelegramError` adds the transport kind on top
//! and is what callers of the dispatcher and the stream see.

use vstd::prelude::*;
use vstd::string::StrSliceExecFns;
use vstd::string::StringExecFns;

verus! {

/// Structured parameters the remote service may attach to a reported
/// failure, for callers that want to decide on backoff or migration.
#[derive(Clone, Copy, Debug, PartialEq, Eq)]
pub struct ResponseParameters {
    pub migrate_to_chat_id: Option<i64>,
    pub retry_after: Option<i64>,
}

/// A wire-level failure: serialization, an empty body, a failure the
/// remote service reported, or a body that does not parse.
#[derive(Clone, Debug, PartialEq)]
pub enum RawTelegramError {
    /// A failure captured earlier in a pipeline and replayed at
    /// serialization time; carries a description of the original cause.
    Detached(String),
    /// The transport returned no body where one was required.
    EmptyBody,
    /// The remote service parsed the request and reported a failure.
    Telegram { description: String, parameters: Option<ResponseParameters> },
    /// The response bytes do not parse as the expected envelope shape.
    Json,
}

/// The error type every layer above the transport reports.
#[derive(Clone, Debug, PartialEq)]
pub enum TelegramError {
    /// A transport failure: connection, TLS, unreachable host.
    Io { description: String },
    /// A wire-level failure, wrapped losslessly.
    Raw { cause: RawTelegramError },
}

impl From<RawTelegramError> for TelegramError {
    fn from(e: RawTelegramError) -> (r: Self) {
        TelegramError::Raw { cause: e }
    }
}

impl vstd::std_specs::convert::FromSpecImpl<RawTelegramError> for TelegramError {
    open spec fn obeys_from_spec() -> bool {
        true
    }

    open spec fn from_spec(e: RawTelegramError) -> Self {
        TelegramError::Raw { cause: e }
    }
}

impl RawTelegramError {
    /// The short description of this failure, as readable text.
    pub open spec fn describe_spec(&self) -> Seq<char> {
        match self {
            RawTelegramError::Detached(s) => "Detached Error: "@ + s@,
            RawTelegramError::EmptyBody => "Empty Body"@,
            RawTelegramError::Telegram { description, .. } => "Telegram Error: "@ + description@,
            RawTelegramError::Json => "Json Error"@,
        }
    }

    /// Render the short description of this failure.
    pub fn description_text(&self) -> (r: String)
        ensures
            r@ == self.describe_spec(),
    {
        match self {
            RawTelegramError::Detached(s) => {
                let mut r = String::from_str("Detached Error: ");
                r.append(s.as_str());
                r
            },
            RawTelegramError::EmptyBody => String::from_str("Empty Body"),
            RawTelegramError::Telegram { description, .. } => {
                let mut r = String::from_str("Telegram Error: ");
                r.append(description.as_str());
                r
            },
            RawTelegramError::Json => String::from_str("Json Error"),
        }
    }
}

/// Relies on `String::from_utf8`: bytes below 128 are valid UTF-8 and
/// decode to one character per byte.
#[verifier::external_body]
pub(crate) fn ascii_to_string(bytes: Vec<u8>) -> (r: String)
    requires
        forall|i: int| 0 <= i < bytes@.len() ==> bytes@[i] < 128,
    ensures
        r@ == bytes@.map_values(|b: u8| b as char),
{
    String::from_utf8(bytes).unwrap_or_default()
}

} // verus!
