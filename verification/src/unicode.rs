//! What the standard library knows of Unicode and of writing texts, and the library takes
//! from it.

use vstd::prelude::*;
use vstd::utf8::*;

verus! {

/// What `String::from_utf8` says of bytes that are not valid UTF-8.
#[verifier::external_type_specification]
#[verifier::external_body]
pub struct ExFromUtf8Error(std::string::FromUtf8Error);

/// `String::from_utf8` gives the text that the bytes encode in UTF-8, and fails exactly
/// where they are not valid UTF-8.
pub assume_specification[ String::from_utf8 ](vec: Vec<u8>) -> (text: Result<
    String,
    std::string::FromUtf8Error,
>)
    ensures
        text is Ok <==> valid_utf8(vec@),
        text is Ok ==> text->Ok_0@ == decode_utf8(vec@),
;

/// What `String::from_utf8_lossy` makes of bytes.
pub uninterp spec fn lossy_of(bytes: Seq<u8>) -> Seq<char>;

/// `String::from_utf8_lossy` gives the text that the bytes encode in UTF-8 where they are
/// valid UTF-8. Of other bytes the result has a name, and nothing is said of which
/// characters stand for what is not valid.
#[verifier::external_body]
pub(crate) fn from_utf8_lossy(bytes: &[u8]) -> (text: String)
    ensures
        text@ == lossy_of(bytes@),
        valid_utf8(bytes@) ==> text@ == decode_utf8(bytes@),
{
    String::from_utf8_lossy(bytes).into_owned()
}

/// What `str::to_uppercase` makes of a text.
pub uninterp spec fn uppercase_of(text: Seq<char>) -> Seq<char>;

/// `str::to_uppercase` maps a text to upper case by Unicode's tables; the result has a
/// name, and nothing is said of single characters.
#[verifier::external_body]
pub(crate) fn to_uppercase(text: &str) -> (upper: String)
    ensures
        upper@ == uppercase_of(text@),
{
    text.to_uppercase()
}

/// What the `Debug` format of `str` makes of a text.
pub uninterp spec fn quoted_of(text: Seq<char>) -> Seq<char>;

/// The `Debug` format of `str` writes a text between quotation marks, with escapes; the
/// result has a name, and nothing is said of single characters.
#[verifier::external_body]
pub(crate) fn quoted(text: &str) -> (shown: String)
    ensures
        shown@ == quoted_of(text@),
{
    format!("{:?}", text)
}

} // verus!
