//! Tolerant decoding of the external tool's output bytes. The tool
//! writes a legacy codepage on one platform and UTF-8 elsewhere;
//! decoding never fails, malformed sequences become replacement
//! characters.

use vstd::prelude::*;

verus! {

/// What `String::from_utf8_lossy` returns; the result depends on the
/// bytes alone.
pub uninterp spec fn utf8_lossy_of(bytes: Seq<u8>) -> Seq<char>;

/// Relies on `String::from_utf8_lossy`: UTF-8 decoding with malformed
/// sequences replaced, empty in, empty out.
#[verifier::external_body]
fn decode_utf8_lossy(bytes: &[u8]) -> (r: String)
    ensures
        r@ == utf8_lossy_of(bytes@),
        bytes@.len() == 0 ==> r@.len() == 0,
{
    String::from_utf8_lossy(bytes).into_owned()
}

/// What `encoding_rs`'s GBK decoder returns; the result depends on
/// the bytes alone.
pub uninterp spec fn gbk_decoded_of(bytes: Seq<u8>) -> Seq<char>;

/// Relies on `encoding_rs::Encoding::decode` for the encoding that
/// the label `GBK` names: BOM-sniffing legacy decode with malformed
/// sequences replaced, empty in, empty out.
#[verifier::external_body]
fn decode_gbk(bytes: &[u8]) -> (r: String)
    ensures
        r@ == gbk_decoded_of(bytes@),
        bytes@.len() == 0 ==> r@.len() == 0,
{
    let encoding = encoding_rs::Encoding::for_label(b"GBK").unwrap_or(encoding_rs::UTF_8);
    let (decoded, _encoding_used, _had_errors) = encoding.decode(bytes);
    decoded.into_owned()
}

/// Decodes the tool's output bytes: through the legacy GBK codepage
/// where the platform calls for it, as lossy UTF-8 elsewhere. Never
/// fails; an empty output stays empty.
pub fn decode_7z_output(output_bytes: &[u8], legacy_codepage: bool) -> (r: String)
    ensures
        legacy_codepage ==> r@ == gbk_decoded_of(output_bytes@),
        !legacy_codepage ==> r@ == utf8_lossy_of(output_bytes@),
        output_bytes@.len() == 0 ==> r@.len() == 0,
{
    if legacy_codepage {
        decode_gbk(output_bytes)
    } else {
        decode_utf8_lossy(output_bytes)
    }
}

} // verus!
