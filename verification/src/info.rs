//! The format of a synchronized directory.

use vstd::prelude::*;

use crate::error::DecSyncError;

verus! {

/// The supported version of the format.
pub const SUPPORTED_VERSION: i64 = 2;

/// The integer that `serde_json` reads from a field of an object.
pub uninterp spec fn integer_in_field(text: Seq<char>, field: Seq<char>) -> Option<i64>;

/// `serde_json::from_str::<serde_json::Value>`, then `serde_json::Value::get` and
/// `serde_json::Value::as_i64`: the integer in a field of an object; `None` where the text is not
/// JSON, or holds no object with such a field.
///
/// Which integer a field holds is named, not stated.
#[verifier::external_body]
fn integer_field(text: &str, field: &str) -> (r: Option<i64>)
    ensures
        r == integer_in_field(text@, field@),
{
    serde_json::from_str::<serde_json::Value>(text).ok()?.get(field)?.as_i64()
}

/// The file that tells the format of a shared directory.
pub fn info_file(decsync_dir: &str) -> (r: Vec<String>)
    ensures
        r.deep_view() == seq![decsync_dir@, ".decsync-info"@],
{
    let mut r: Vec<String> = Vec::new();
    r.push(decsync_dir.to_owned());
    r.push(".decsync-info".to_owned());
    assert(r.deep_view() =~= seq![decsync_dir@, ".decsync-info"@]);
    r
}

/// Whether a directory of the given version is supported.
///
/// Directories without a readable version are [`DecSyncError::InvalidInfo`]; other versions are
/// rejected, not upgraded.
pub fn check_version(version: Option<i64>) -> (r: Result<(), DecSyncError>)
    ensures
        match version {
            None => r matches Err(DecSyncError::InvalidInfo),
            Some(version) => if version == SUPPORTED_VERSION {
                r is Ok
            } else {
                r matches Err(DecSyncError::UnsupportedVersion { supported, found }) && supported
                    == SUPPORTED_VERSION && found == version
            },
        },
{
    match version {
        None => Err(DecSyncError::InvalidInfo),
        Some(version) => {
            if version == SUPPORTED_VERSION {
                Ok(())
            } else {
                Err(
                    DecSyncError::UnsupportedVersion {
                        supported: SUPPORTED_VERSION,
                        found: version,
                    },
                )
            }
        },
    }
}

/// The directory has the supported format; one without information is new, and has it.
pub open spec fn is_supported(info: Option<Seq<char>>) -> bool {
    info matches Some(text) ==> integer_in_field(text, "version"@) == Some(SUPPORTED_VERSION)
}

/// The directory has not the supported format, and `error` says why: there is no version to be
/// read, or it is another one.
pub open spec fn is_rejected(info: Option<Seq<char>>, error: DecSyncError) -> bool {
    &&& info matches Some(text)
    &&& match integer_in_field(text, "version"@) {
        None => error matches DecSyncError::InvalidInfo,
        Some(version) => version != SUPPORTED_VERSION && (
        error matches DecSyncError::UnsupportedVersion { supported, found } && supported
            == SUPPORTED_VERSION && found == version),
    }
}

/// Whether a directory is supported, given the text of the file that tells its format. A
/// directory without such a file is new, and supported.
pub fn check_info(text: Option<&String>) -> (r: Result<(), DecSyncError>)
    ensures
        match r {
            Ok(_) => is_supported(crate::text::text_view(text)),
            Err(error) => is_rejected(crate::text::text_view(text), error),
        },
{
    match text {
        None => Ok(()),
        Some(text) => check_version(integer_field(text.as_str(), "version")),
    }
}

/// Exactly the directories of version 2 are supported, and those that do not tell a version
/// because they are new.
pub proof fn only_the_second_version_is_supported(info: Option<Seq<char>>)
    ensures
        is_supported(info) <==> match info {
            Some(text) => integer_in_field(text, "version"@) == Some(2i64),
            None => true,
        },
{
}

/// A directory is rejected for one reason: its version cannot be read, or it is the one that the
/// error tells. A supported one is not rejected.
pub proof fn a_rejection_tells_the_version(info: Option<Seq<char>>, error: DecSyncError)
    requires
        is_rejected(info, error),
    ensures
        !is_supported(info),
        info is Some,
        integer_in_field(info.unwrap(), "version"@) is None ==> error is InvalidInfo,
        integer_in_field(info.unwrap(), "version"@) matches Some(version) ==> (error matches
            DecSyncError::UnsupportedVersion { supported, found } && supported == 2 && found
            == version && version != 2),
{
}

} // verus!
