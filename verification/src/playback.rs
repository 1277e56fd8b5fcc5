//! Playback payloads.
//!
//! A sandbox-authorized recording is served to clients as a data URI:
//! an audio MIME prefix followed by the file's bytes in base64. The
//! sandbox check itself lives in `crate::sandbox`; reading the file is
//! the host process's part; this module turns the bytes into the payload
//! text.

use vstd::prelude::*;
use vstd::string::StringExecFns;

verus! {

/// The base64 text of `data`: standard alphabet, padded.
pub uninterp spec fn base64_standard_of(data: Seq<u8>) -> Seq<char>;

/// Relies on base64's `Engine::encode` with the `STANDARD` engine: the
/// result is the padded standard-alphabet base64 text of `data`, a
/// function of the bytes alone, four characters for every started group
/// of three bytes. `encode` aborts when that output length cannot be
/// represented, so inputs stay below the bound.
#[verifier::external_body]
fn base64_encode(data: &[u8]) -> (r: String)
    requires
        data@.len() <= (usize::MAX as int - 4) / 4 * 3,
    ensures
        r@ == base64_standard_of(data@),
        r@.len() == 4 * ((data@.len() + 2) / 3),
{
    base64::Engine::encode(&base64::engine::general_purpose::STANDARD, data)
}

/// The MIME prefix every served recording starts with.
pub open spec fn data_url_prefix() -> Seq<char> {
    "data:audio/wav;base64,"@
}

/// The playback payload for `data`: the audio MIME prefix, then the
/// base64 text of the bytes.
pub open spec fn data_url_of(data: Seq<u8>) -> Seq<char> {
    data_url_prefix() + base64_standard_of(data)
}

/// The playback payload of an authorized recording's bytes, suitable for
/// embedding as a data URI. The bound keeps the base64 text's length
/// representable.
pub fn audio_data_url(data: &Vec<u8>) -> (r: String)
    requires
        data@.len() <= (usize::MAX as int - 4) / 4 * 3,
    ensures
        r@ == data_url_of(data@),
{
    let mut s = String::from_str("data:audio/wav;base64,");
    let encoded = base64_encode(data.as_slice());
    s.append(encoded.as_str());
    s
}

} // verus!
