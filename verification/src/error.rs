//! The failures of the catalog.

use hdk::prelude::EntryError;
use hdk::prelude::SerializedBytesError;
use hdk::prelude::TimestampError;
use hdk::prelude::WasmError;
use std::convert::Infallible;
use vstd::prelude::*;
use vstd::string::to_string_from_display_ensures;
use vstd::string::StringExecFns;

verus! {

/// `SerializedBytesError` of holochain_serialized_bytes: why a payload could
/// not be encoded or decoded. Carried through as it is.
#[verifier::external_type_specification]
#[verifier::external_body]
pub struct ExSerializedBytesError(SerializedBytesError);

/// `EntryError` of holochain_integrity_types: why an entry could not be
/// made. Carried through as it is.
#[verifier::external_type_specification]
#[verifier::external_body]
pub struct ExEntryError(EntryError);

/// `WasmError` of holochain_wasmer_common: a failure that a collaborator of
/// the host reported. Carried through as it is.
#[verifier::external_type_specification]
#[verifier::external_body]
pub struct ExWasmError(WasmError);

/// `TimestampError` of kitsune_p2p_timestamp. Carried through as it is.
#[verifier::external_type_specification]
#[verifier::external_body]
pub struct ExTimestampError(TimestampError);

/// What can go wrong in the catalog.
#[derive(Debug)]
pub enum HowError {
    /// A payload could not be encoded or decoded.
    Serialization(SerializedBytesError),
    /// A conversion that cannot fail; no value of it exists.
    Infallible(Infallible),
    /// An entry could not be made.
    EntryError(EntryError),
    /// A steward or editor reference is malformed.
    AgentTag,
    /// A collaborator failed; its error is passed on as it came.
    Wasm(WasmError),
    /// A time could not be computed or read.
    Timestamp(TimestampError),
    /// An anchor path that should exist does not.
    MissingPath,
    /// A record that should be there was not found.
    DocumentNotFound,
}

pub type HowResult<T> = Result<T, HowError>;

impl HowError {
    /// The message of the failure. A failure that carries another's error
    /// has that error's own message.
    pub fn message(&self) -> (text: String)
        ensures
            self is AgentTag ==> text@
                == "Failed to convert an agent link tag to an agent pub key"@,
            self is MissingPath ==> text@ == "Tree path does not exist"@,
            self is DocumentNotFound ==> text@ == "Document not found"@,
            self matches HowError::Serialization(error) ==> to_string_from_display_ensures(
                error,
                text,
            ),
            self matches HowError::Infallible(error) ==> to_string_from_display_ensures(
                error,
                text,
            ),
            self matches HowError::EntryError(error) ==> to_string_from_display_ensures(
                error,
                text,
            ),
            self matches HowError::Wasm(error) ==> to_string_from_display_ensures(error, text),
            self matches HowError::Timestamp(error) ==> to_string_from_display_ensures(
                error,
                text,
            ),
    {
        match self {
            HowError::Serialization(error) => error.to_string(),
            HowError::Infallible(error) => error.to_string(),
            HowError::EntryError(error) => error.to_string(),
            HowError::AgentTag => String::from_str(
                "Failed to convert an agent link tag to an agent pub key",
            ),
            HowError::Wasm(error) => error.to_string(),
            HowError::Timestamp(error) => error.to_string(),
            HowError::MissingPath => String::from_str("Tree path does not exist"),
            HowError::DocumentNotFound => String::from_str("Document not found"),
        }
    }
}

} // verus!
