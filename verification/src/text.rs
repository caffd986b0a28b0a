//! The text of a label: the three string operations that the codec takes from
//! the standard library. Their contracts are believed, not proved.

use vstd::prelude::*;
use vstd::utf8::{decode_utf8, valid_utf8};

verus! {

/// The text that `String::from_utf8_lossy` makes of bytes that are not well-formed UTF-8.
pub uninterp spec fn utf8_lossy(bytes: Seq<u8>) -> Seq<char>;

/// The text of a run of bytes: what they spell as UTF-8 where they are
/// well-formed, and else what `String::from_utf8_lossy` makes of them.
pub open spec fn bytes_text(bytes: Seq<u8>) -> Seq<char> {
    if valid_utf8(bytes) {
        decode_utf8(bytes)
    } else {
        utf8_lossy(bytes)
    }
}

/// The text that `str::to_lowercase` makes of a text.
pub uninterp spec fn lowercase(text: Seq<char>) -> Seq<char>;

/// `suffix` is the end of `text`.
pub open spec fn is_suffix(suffix: Seq<char>, text: Seq<char>) -> bool {
    &&& suffix.len() <= text.len()
    &&& text.subrange(text.len() - suffix.len(), text.len() as int) == suffix
}

/// Calls `String::from_utf8_lossy` and takes ownership of what it returns.
///
/// Well-formed UTF-8 is decoded as it stands, as the standard library
/// documents. What comes of malformed bytes is a function of the bytes alone
/// and is named, not described.
#[verifier::external_body]
pub(crate) fn bytes_to_text(bytes: &[u8]) -> (text: String)
    ensures
        valid_utf8(bytes@) ==> text@ == decode_utf8(bytes@),
        !valid_utf8(bytes@) ==> text@ == utf8_lossy(bytes@),
{
    String::from_utf8_lossy(bytes).into_owned()
}

/// Calls `str::to_lowercase`.
///
/// The result is a function of the text alone; which letters Unicode folds,
/// and to what, is not described here.
#[verifier::external_body]
pub(crate) fn text_to_lowercase(text: &str) -> (lower: String)
    ensures
        lower@ == lowercase(text@),
{
    text.to_lowercase()
}

/// Calls `str::ends_with` with a string pattern: whether `suffix` is the end of `text`.
#[verifier::external_body]
pub(crate) fn text_ends_with(text: &str, suffix: &str) -> (res: bool)
    ensures
        res == is_suffix(suffix@, text@),
{
    text.ends_with(suffix)
}

} // verus!
