//! Functions of the standard library on text that vstd does not specify.

use crate::text::line_feeds;
use vstd::prelude::*;
use vstd::utf8::{decode_utf8, valid_utf8};

verus! {

/// `String::push` appends one character to the end of the string.
pub assume_specification[ String::push ](s: &mut String, c: char)
    ensures
        final(s)@ == old(s)@.push(c),
;

/// The text that `String::from_utf8_lossy` makes of `bytes`.
pub uninterp spec fn utf8_lossy(bytes: Seq<u8>) -> Seq<char>;

/// The number of line feeds among `bytes`.
pub open spec fn newlines(bytes: Seq<u8>) -> nat {
    bytes.filter(|b: u8| b == 10).len()
}

/// `String::from_utf8_lossy` decodes bytes as UTF-8. Bytes that are valid UTF-8
/// are decoded exactly. Where they are not, each maximal invalid piece, which is
/// at least one byte long, becomes one replacement character, so the text never
/// has more characters than there are bytes. A line feed is valid wherever it
/// stands, so none is lost and none is added. Which pieces are replaced is not
/// stated.
#[verifier::external_body]
pub(crate) fn decode_lossy(bytes: &[u8]) -> (r: String)
    ensures
        r@ == utf8_lossy(bytes@),
        valid_utf8(bytes@) ==> r@ == decode_utf8(bytes@),
        r@.len() <= bytes@.len(),
        line_feeds(r@) == newlines(bytes@),
{
    String::from_utf8_lossy(bytes).into_owned()
}

} // verus!
