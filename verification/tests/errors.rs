use hdk::prelude::EntryError;
use hdk::prelude::SerializedBytesError;
use hdk::prelude::TimestampError;
use hdk::prelude::WasmError;
use hdk::prelude::WasmErrorInner;
use how_core::HowError;

#[test]
fn the_catalogs_own_failures_have_their_messages() {
    assert_eq!(
        HowError::AgentTag.message(),
        "Failed to convert an agent link tag to an agent pub key"
    );
    assert_eq!(HowError::MissingPath.message(), "Tree path does not exist");
    assert_eq!(HowError::DocumentNotFound.message(), "Document not found");
}

#[test]
fn a_carried_error_keeps_its_message() {
    let inner = SerializedBytesError::Deserialize("bad bytes".into());
    assert_eq!(HowError::Serialization(inner.clone()).message(), inner.to_string());
    let inner = EntryError::EntryTooLarge(5_000_000);
    assert_eq!(HowError::EntryError(inner.clone()).message(), inner.to_string());
    let inner = TimestampError::Overflow;
    assert_eq!(HowError::Timestamp(inner.clone()).message(), inner.to_string());
    let inner = WasmError {
        file: "unit.rs".into(),
        line: 7,
        error: WasmErrorInner::Guest("no such link".into()),
    };
    assert_eq!(HowError::Wasm(inner.clone()).message(), inner.to_string());
}
