//! Paths in JSON: readable, and lossless as Base64.
use base64::engine::general_purpose::STANDARD;
use base64::Engine;
use vstd::prelude::*;
use vstd::string::StringExecFns;

use crate::path::FilePath;
use crate::text;

verus! {

/// The bytes that a Base64 text stands for, or why it stands for none.
pub uninterp spec fn base64_decoded(letters: Seq<char>) -> Result<Seq<u8>, Seq<char>>;

/// The outcome of decoding a text that stands for the given bytes.
pub open spec fn decoded_to(bytes: Seq<u8>) -> Result<Seq<u8>, Seq<char>> {
    Ok(bytes)
}

/// `Engine::encode` with the standard alphabet and padding: decoding the text
/// gives the bytes back.
#[verifier::external_body]
fn base64_encode(bytes: &[u8]) -> (letters: String)
    ensures
        base64_decoded(letters@) == decoded_to(bytes@),
{
    STANDARD.encode(bytes)
}

/// `Engine::decode` with the standard alphabet and padding: what comes of it
/// depends on the text alone. An error is given in its own words.
#[verifier::external_body]
fn base64_decode(letters: &str) -> (bytes: Result<Vec<u8>, String>)
    ensures
        match bytes {
            Ok(bytes) => base64_decoded(letters@) == decoded_to(bytes@),
            Err(message) => base64_decoded(letters@) matches Err(reason) && reason == message@,
        },
{
    STANDARD.decode(letters).map_err(|error| error.to_string())
}

/// A path as it is stored.
#[derive(Debug)]
pub struct EncodedPath {
    pub display: String,
    pub bytes_base64: String,
}

/// How a path is stored.
pub fn encoded(path: &FilePath) -> (result: EncodedPath)
    ensures
        result.display@ == text::lossy_text(path@),
        base64_decoded(result.bytes_base64@) matches Ok(bytes) && bytes == path@,
{
    EncodedPath {
        display: path.display(),
        bytes_base64: base64_encode(path.as_bytes().as_slice()),
    }
}

/// The path that was stored. Its readable form plays no part.
pub fn decode(stored: &EncodedPath) -> (path: Result<FilePath, String>)
    ensures
        match path {
            Ok(path) => base64_decoded(stored.bytes_base64@) matches Ok(bytes) && bytes == path@,
            Err(message) => {
                &&& base64_decoded(stored.bytes_base64@) is Err
                &&& message@ == "invalid path bytes: "@ + base64_decoded(
                    stored.bytes_base64@,
                )->Err_0
            },
        },
{
    match base64_decode(stored.bytes_base64.as_str()) {
        Ok(bytes) => Ok(FilePath::new(bytes)),
        Err(error) => {
            let mut message = String::new();
            message.append("invalid path bytes: ");
            message.append(error.as_str());
            assert(message@ =~= "invalid path bytes: "@ + error@);
            Err(message)
        },
    }
}

/// Storing a path and reading it back keeps every byte, valid UTF-8 or not.
pub proof fn stored_paths_read_back(
    path: FilePath,
    stored: EncodedPath,
    read: Result<FilePath, String>,
)
    requires
        call_ensures(encoded, (&path,), stored),
        call_ensures(decode, (&stored,), read),
    ensures
        read matches Ok(found) && found@ == path@,
{
}

} // verus!
