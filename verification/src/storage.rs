use vstd::prelude::*;

use crate::models::CURRENT_VERSION;

verus! {

#[verifier::external_type_specification]
#[verifier::external_body]
pub struct ExJsonError(serde_json::Error);

#[verifier::external_type_specification]
#[verifier::external_body]
pub struct ExIoError(std::io::Error);

#[derive(Debug)]
pub enum StorageError {
    /// The configuration file could not be read or written.
    Io(std::io::Error),
    /// The configuration is not valid JSON, or not a valid configuration.
    Parse(serde_json::Error),
    /// The configuration was written by a later version of the schema.
    FutureVersion { found: u32, current: u32 },
}

/// What parsing a JSON text gives for its top-level field named `key`:
/// `None` when serde_json refuses the text (it is not valid JSON, or it nests
/// deeper than serde_json's recursion limit); else `Some` of the field's value
/// when the text is an object holding that field as an unsigned integer that
/// fits in a `u64`, `Some(None)` otherwise. The parse itself is serde_json's
/// and is named, not described.
pub uninterp spec fn spec_json_u64_field(json: Seq<char>, key: Seq<char>) -> Option<Option<u64>>;

/// Parses `json` with `serde_json::from_str` into a `serde_json::Value` and
/// reads its field `key` with `Value::get` and `Value::as_u64`. The error
/// that serde_json reports is carried as it is.
#[verifier::external_body]
fn json_u64_field(json: &str, key: &str) -> (r: Result<Option<u64>, serde_json::Error>)
    ensures
        r is Ok <==> spec_json_u64_field(json@, key@) is Some,
        r matches Ok(v) ==> spec_json_u64_field(json@, key@) == Some(v),
{
    let value: serde_json::Value = serde_json::from_str(json)?;
    Ok(value.get(key).and_then(|v| v.as_u64()))
}

/// The field of a configuration that holds its schema version.
pub open spec fn version_key() -> Seq<char> {
    "version"@
}

/// The schema version that a configuration claims: the field's value cut to
/// 32 bits, or zero when the field is missing or not an unsigned integer.
pub open spec fn claimed_version(field: Option<u64>) -> u32 {
    match field {
        Some(v) => v as u32,
        None => 0,
    }
}

/// The answer to a claimed schema version: that version when it is not later
/// than the current one, else the error that names both.
pub open spec fn version_verdict(found: u32, r: Result<u32, StorageError>) -> bool {
    match r {
        Ok(v) => found <= CURRENT_VERSION && v == found,
        Err(StorageError::FutureVersion { found: f, current: c }) => found > CURRENT_VERSION && f == found && c
            == CURRENT_VERSION,
        Err(_) => false,
    }
}

/// Accepts a schema version up to the current one and refuses a later one,
/// rather than guessing at a schema it does not know.
pub fn check_version(found: u32) -> (r: Result<u32, StorageError>)
    ensures
        version_verdict(found, r),
{
    if found > CURRENT_VERSION {
        Err(StorageError::FutureVersion { found, current: CURRENT_VERSION })
    } else {
        Ok(found)
    }
}

/// The version of a configuration given its "version" field (as the JSON
/// parse reads it), checked against the current schema.
pub fn version_from_field(field: Option<u64>) -> (r: Result<u32, StorageError>)
    ensures
        version_verdict(claimed_version(field), r),
{
    let found: u32 = match field {
        Some(v) => #[verifier::truncate] (v as u32),
        None => 0,
    };
    check_version(found)
}

/// First step of loading a configuration from JSON text: the text must parse
/// as JSON, and the schema version that it claims must not be later than the
/// current one. Gives that version; the caller then deserializes the
/// configuration itself.
pub fn read_config_version(json: &str) -> (r: Result<u32, StorageError>)
    ensures
        spec_json_u64_field(json@, version_key()) is None ==> r matches Err(StorageError::Parse(_)),
        spec_json_u64_field(json@, version_key()) matches Some(field) ==> version_verdict(claimed_version(field), r),
{
    match json_u64_field(json, "version") {
        Err(e) => Err(StorageError::Parse(e)),
        Ok(field) => version_from_field(field),
    }
}

} // verus!
