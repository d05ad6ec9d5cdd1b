//! Search for a regular expression.

use crate::dates::{date_at, is_first_date};
use crate::text::is_white_space;
use vstd::prelude::*;

verus! {

/// The date and time in a line of `ls -la`, such as ` Mar 31 16:18 ` or
/// ` Dec 25  2024 `.
pub const LS_DATE: &'static str =
    r"\s+(Jan|Feb|Mar|Apr|May|Jun|Jul|Aug|Sep|Oct|Nov|Dec)\s+\d{1,2}\s+(?:\d{4}|\d{2}:\d{2})\s+";

/// `regex::Regex`, a compiled regular expression.
#[verifier::external_type_specification]
#[verifier::external_body]
pub struct ExRegex(regex::Regex);

/// A regular expression that is ready for searching.
pub struct Finder {
    pattern: String,
    compiled: Option<regex::Regex>,
}

impl View for Finder {
    type V = Seq<char>;

    /// The text of the regular expression.
    closed spec fn view(&self) -> Seq<char> {
        self.pattern@
    }
}

/// Whether `c`, a character beyond ASCII, is a decimal digit, which `\d` matches.
pub uninterp spec fn is_foreign_digit(c: char) -> bool;

/// `regex::Regex::new` compiles a regular expression. The finder remembers the
/// text that it was made of.
#[verifier::external_body]
pub(crate) fn compile(pattern: &str) -> (r: Finder)
    requires
        pattern@ == LS_DATE@,
    ensures
        r@ == pattern@,
{
    Finder { pattern: pattern.to_string(), compiled: regex::Regex::new(pattern).ok() }
}

/// `regex::Regex::find` finds the first match of the compiled expression. It
/// gives byte offsets that lie on character boundaries; here the characters up to
/// each are counted. Of [`LS_DATE`] it is claimed that what matches is a date,
/// that the match starts no later than any date in the text, and that it is the
/// longest that starts there, since the expression is greedy. Beyond ASCII, a
/// match holds white space and digits only. The digits are those that
/// [`is_foreign_digit`] names; which these are is not stated.
#[verifier::external_body]
pub(crate) fn find(finder: &Finder, text: &str) -> (r: Option<(usize, usize)>)
    requires
        finder@ == LS_DATE@,
    ensures
        match r {
            Some((start, end)) => is_first_date(text@, start as int, end as int) && (forall|k: int|
                start <= k < end && #[trigger] text@[k] >= '\u{80}' ==> is_white_space(text@[k])
                    || is_foreign_digit(text@[k])),
            None => forall|i: int, j: int| !#[trigger] date_at(text@, i, j),
        },
{
    let m = finder.compiled.as_ref()?.find(text)?;
    Some((text[..m.start()].chars().count(), text[..m.end()].chars().count()))
}

} // verus!
