//! The separators of paths, and the prefixes that paths can have on Windows.

use crate::text::{lower, same_text, string_of};
use vstd::prelude::*;

verus! {

/// How the text of a path is read.
#[derive(Debug, Clone, Copy, PartialEq, Eq, Structural)]
pub enum PathStyle {
    /// Slashes part components.
    Unix,
    /// Slashes and backslashes part components, and a path can have a prefix.
    Windows,
    /// Behind the prefix `\\?\` of a Windows path: backslashes part components,
    /// and a single dot is a component like any other.
    Verbatim,
}

/// Whether `c` parts components.
pub open spec fn is_sep(c: char, style: PathStyle) -> bool {
    match style {
        PathStyle::Unix => c == '/',
        PathStyle::Windows => c == '/' || c == '\\',
        PathStyle::Verbatim => c == '\\',
    }
}

/// Whether `c` parts components.
pub fn separates(c: char, style: PathStyle) -> (r: bool)
    ensures
        r == is_sep(c, style),
{
    match style {
        PathStyle::Unix => c == '/',
        PathStyle::Windows => c == '/' || c == '\\',
        PathStyle::Verbatim => c == '\\',
    }
}

/// The number of characters before the first separator of `s`.
pub open spec fn segment_len(s: Seq<char>, style: PathStyle) -> nat
    decreases s.len(),
{
    if s.len() == 0 || is_sep(s[0], style) {
        0
    } else {
        1 + segment_len(s.drop_first(), style)
    }
}

pub proof fn lemma_segment_len(s: Seq<char>, style: PathStyle)
    ensures
        segment_len(s, style) <= s.len(),
        forall|i: int| 0 <= i < segment_len(s, style) ==> !is_sep(#[trigger] s[i], style),
        segment_len(s, style) < s.len() ==> is_sep(s[segment_len(s, style) as int], style),
    decreases s.len(),
{
    if s.len() > 0 && !is_sep(s[0], style) {
        let t = s.drop_first();
        lemma_segment_len(t, style);
        assert forall|i: int| 0 <= i < segment_len(s, style) implies !is_sep(
            #[trigger] s[i],
            style,
        ) by {
            if i > 0 {
                assert(s[i] == t[i - 1]);
            }
        }
    }
}

/// Finds the end of the segment at `from`.
pub fn segment_end(cs: &Vec<char>, from: usize, style: PathStyle) -> (r: usize)
    requires
        from <= cs.len(),
    ensures
        from <= r <= cs.len(),
        r - from == segment_len(cs@.skip(from as int), style),
{
    let mut i: usize = from;
    while i < cs.len() && !separates(cs[i], style)
        invariant
            from <= i <= cs.len(),
            segment_len(cs@.skip(from as int), style) == (i - from) + segment_len(
                cs@.skip(i as int),
                style,
            ),
        decreases cs.len() - i,
    {
        assert(cs@.skip(i as int).drop_first() =~= cs@.skip(i + 1));
        i = i + 1;
    }
    i
}

/// The first segment of `s`.
pub open spec fn segment(s: Seq<char>, style: PathStyle) -> Seq<char> {
    s.take(segment_len(s, style) as int)
}

/// What follows the first segment of `s` and the separator behind it.
pub open spec fn behind_segment(s: Seq<char>, style: PathStyle) -> Seq<char> {
    if segment_len(s, style) < s.len() {
        s.skip(segment_len(s, style) as int + 1)
    } else {
        Seq::empty()
    }
}

/// The prefix of a Windows path.
#[derive(Debug)]
pub enum PathPrefix {
    /// A drive such as `C:`, by its letter in lower case.
    Drive(char),
    /// A server and a share, `\\server\share`.
    Share(String, String),
    /// A device, `\\.\name`.
    Device(String),
    /// A drive behind `\\?\`.
    VerbatimDrive(char),
    /// A server and a share behind `\\?\UNC\`.
    VerbatimShare(String, String),
    /// Any other name behind `\\?\`.
    Verbatim(String),
}

/// What the prefix of a Windows path names.
pub enum PrefixView {
    Drive(char),
    Share(Seq<char>, Seq<char>),
    Device(Seq<char>),
    VerbatimDrive(char),
    VerbatimShare(Seq<char>, Seq<char>),
    Verbatim(Seq<char>),
}

impl View for PathPrefix {
    type V = PrefixView;

    open spec fn view(&self) -> PrefixView {
        match self {
            PathPrefix::Drive(c) => PrefixView::Drive(*c),
            PathPrefix::Share(server, share) => PrefixView::Share(server@, share@),
            PathPrefix::Device(name) => PrefixView::Device(name@),
            PathPrefix::VerbatimDrive(c) => PrefixView::VerbatimDrive(*c),
            PathPrefix::VerbatimShare(server, share) => PrefixView::VerbatimShare(server@, share@),
            PathPrefix::Verbatim(name) => PrefixView::Verbatim(name@),
        }
    }
}

/// Whether `s` begins with a drive.
pub open spec fn leads_with_drive(s: Seq<char>) -> bool {
    s.len() >= 2 && ('a' <= s[0] <= 'z' || 'A' <= s[0] <= 'Z') && s[1] == ':'
}

/// The prefix that `s` gives behind `\\?\`, and its length.
pub open spec fn verbatim_prefix(s: Seq<char>) -> (PrefixView, nat) {
    if s.len() >= 4 && s[0] == 'U' && s[1] == 'N' && s[2] == 'C' && is_sep(
        s[3],
        PathStyle::Windows,
    ) {
        let t = s.skip(4);
        let server = segment(t, PathStyle::Verbatim);
        let share = segment(behind_segment(t, PathStyle::Verbatim), PathStyle::Verbatim);
        let share_len = if share.len() > 0 {
            1 + share.len()
        } else {
            0
        };
        (PrefixView::VerbatimShare(server, share), 4 + server.len() + share_len)
    } else if leads_with_drive(s) && (s.len() == 2 || is_sep(s[2], PathStyle::Windows)) {
        (PrefixView::VerbatimDrive(lower(s[0])), 2)
    } else {
        let name = segment(s, PathStyle::Verbatim);
        (PrefixView::Verbatim(name), name.len())
    }
}

/// The share that `s` names behind two separators, and the length of its name.
pub open spec fn share_prefix(s: Seq<char>) -> Option<(PrefixView, nat)> {
    let server = segment(s, PathStyle::Windows);
    let share = segment(behind_segment(s, PathStyle::Windows), PathStyle::Windows);
    if server.len() > 0 && share.len() > 0 {
        Some((PrefixView::Share(server, share), server.len() + 1 + share.len()))
    } else {
        None
    }
}

/// Whether `s` begins with two separators of Windows.
pub open spec fn leads_with_two_seps(s: Seq<char>) -> bool {
    s.len() >= 2 && is_sep(s[0], PathStyle::Windows) && is_sep(s[1], PathStyle::Windows)
}

/// The prefix of a path, and its length. Only a Windows path can have one.
pub open spec fn path_prefix(s: Seq<char>, style: PathStyle) -> Option<(PrefixView, nat)> {
    if style != PathStyle::Windows {
        None
    } else if !leads_with_two_seps(s) {
        if leads_with_drive(s) {
            Some((PrefixView::Drive(lower(s[0])), 2))
        } else {
            None
        }
    } else if s.len() >= 4 && s[0] == '\\' && s[1] == '\\' && s[2] == '?' && s[3] == '\\' {
        let (prefix, len) = verbatim_prefix(s.skip(4));
        Some((prefix, 4 + len))
    } else if s.len() >= 4 && s[2] == '.' && is_sep(s[3], PathStyle::Windows) {
        let name = segment(s.skip(4), PathStyle::Windows);
        Some((PrefixView::Device(name), 4 + name.len()))
    } else {
        match share_prefix(s.skip(2)) {
            Some((prefix, len)) => Some((prefix, 2 + len)),
            None => None,
        }
    }
}

pub proof fn lemma_path_prefix(s: Seq<char>, style: PathStyle)
    ensures
        path_prefix(s, style) matches Some((_, n)) ==> 0 < n <= s.len(),
{
    if s.len() >= 2 {
        let t = s.skip(2);
        lemma_segment_len(t, PathStyle::Windows);
        lemma_segment_len(behind_segment(t, PathStyle::Windows), PathStyle::Windows);
    }
    if s.len() >= 4 {
        let t = s.skip(4);
        lemma_segment_len(t, PathStyle::Windows);
        lemma_segment_len(t, PathStyle::Verbatim);
        if t.len() >= 4 {
            let u = t.skip(4);
            lemma_segment_len(u, PathStyle::Verbatim);
            lemma_segment_len(behind_segment(u, PathStyle::Verbatim), PathStyle::Verbatim);
        }
    }
}

fn lower_char(c: char) -> (r: char)
    ensures
        r == lower(c),
{
    if 'A' <= c && c <= 'Z' {
        (c as u8 + 32) as char
    } else {
        c
    }
}

fn is_drive_here(cs: &Vec<char>, from: usize) -> (r: bool)
    requires
        from <= cs.len(),
    ensures
        r == leads_with_drive(cs@.skip(from as int)),
{
    cs.len() - from >= 2 && (('a' <= cs[from] && cs[from] <= 'z') || ('A' <= cs[from] && cs[from]
        <= 'Z')) && cs[from + 1] == ':'
}

/// Reads two segments that a separator parts, and says where the first and the
/// second end. Without a separator the second is empty.
fn two_segments(cs: &Vec<char>, from: usize, style: PathStyle) -> (r: (String, String))
    requires
        from <= cs.len(),
    ensures
        r.0@ == segment(cs@.skip(from as int), style),
        r.1@ == segment(behind_segment(cs@.skip(from as int), style), style),
        r.0@.len() <= cs.len() - from,
        r.1@.len() <= cs.len() - from,
{
    let ghost s = cs@.skip(from as int);
    let end = segment_end(cs, from, style);
    let first = string_of(cs, from, end);
    let next = if end < cs.len() {
        end + 1
    } else {
        end
    };
    let second_end = segment_end(cs, next, style);
    let second = string_of(cs, next, second_end);
    proof {
        assert(first@ =~= segment(s, style));
        assert(behind_segment(s, style) =~= cs@.skip(next as int));
        assert(second@ =~= segment(cs@.skip(next as int), style));
    }
    (first, second)
}

fn read_verbatim_prefix(cs: &Vec<char>) -> (r: (PathPrefix, usize))
    requires
        cs.len() >= 4,
    ensures
        (r.0@, r.1 as nat) == verbatim_prefix(cs@.skip(4)),
{
    let ghost s = cs@.skip(4);
    if cs.len() >= 8 && cs[4] == 'U' && cs[5] == 'N' && cs[6] == 'C' && separates(
        cs[7],
        PathStyle::Windows,
    ) {
        assert(s.skip(4) =~= cs@.skip(8));
        let (server, share) = two_segments(cs, 8, PathStyle::Verbatim);
        proof {
            lemma_segment_len(s.skip(4), PathStyle::Verbatim);
            lemma_segment_len(
                behind_segment(s.skip(4), PathStyle::Verbatim),
                PathStyle::Verbatim,
            );
        }
        let server_len = server.as_str().unicode_len();
        let share_len = share.as_str().unicode_len();
        let len = 4 + server_len + if share_len > 0 {
            1 + share_len
        } else {
            0
        };
        (PathPrefix::VerbatimShare(server, share), len)
    } else if is_drive_here(cs, 4) && (cs.len() == 6 || separates(cs[6], PathStyle::Windows)) {
        (PathPrefix::VerbatimDrive(lower_char(cs[4])), 2)
    } else {
        let end = segment_end(cs, 4, PathStyle::Verbatim);
        let name = string_of(cs, 4, end);
        assert(name@ =~= segment(s, PathStyle::Verbatim));
        (PathPrefix::Verbatim(name), end - 4)
    }
}

/// Reads the prefix of a path, and says how long it is.
pub fn read_prefix(cs: &Vec<char>, style: PathStyle) -> (r: Option<(PathPrefix, usize)>)
    ensures
        match r {
            Some((prefix, len)) => path_prefix(cs@, style) == Some((prefix@, len as nat)) && 0
                < len <= cs.len(),
            None => path_prefix(cs@, style) is None,
        },
{
    proof {
        lemma_path_prefix(cs@, style);
        assert(cs@.skip(0) =~= cs@);
    }
    match style {
        PathStyle::Windows => {},
        _ => {
            return None;
        },
    }
    let two_seps = cs.len() >= 2 && separates(cs[0], PathStyle::Windows) && separates(
        cs[1],
        PathStyle::Windows,
    );
    if !two_seps {
        if is_drive_here(cs, 0) {
            return Some((PathPrefix::Drive(lower_char(cs[0])), 2));
        }
        return None;
    }
    if cs.len() >= 4 && cs[0] == '\\' && cs[1] == '\\' && cs[2] == '?' && cs[3] == '\\' {
        let (prefix, len) = read_verbatim_prefix(cs);
        return Some((prefix, 4 + len));
    }
    if cs.len() >= 4 && cs[2] == '.' && separates(cs[3], PathStyle::Windows) {
        let end = segment_end(cs, 4, PathStyle::Windows);
        let name = string_of(cs, 4, end);
        assert(name@ =~= segment(cs@.skip(4), PathStyle::Windows));
        return Some((PathPrefix::Device(name), end));
    }
    let (server, share) = two_segments(cs, 2, PathStyle::Windows);
    let server_len = server.as_str().unicode_len();
    let share_len = share.as_str().unicode_len();
    if server_len > 0 && share_len > 0 {
        Some((PathPrefix::Share(server, share), 2 + server_len + 1 + share_len))
    } else {
        None
    }
}

/// Whether two prefixes name the same.
pub fn same_prefix(a: &PathPrefix, b: &PathPrefix) -> (r: bool)
    ensures
        r == (a@ == b@),
{
    match (a, b) {
        (PathPrefix::Drive(x), PathPrefix::Drive(y)) => *x == *y,
        (PathPrefix::Share(x, u), PathPrefix::Share(y, v)) => same_text(x.as_str(), y.as_str())
            && same_text(u.as_str(), v.as_str()),
        (PathPrefix::Device(x), PathPrefix::Device(y)) => same_text(x.as_str(), y.as_str()),
        (PathPrefix::VerbatimDrive(x), PathPrefix::VerbatimDrive(y)) => *x == *y,
        (PathPrefix::VerbatimShare(x, u), PathPrefix::VerbatimShare(y, v)) => same_text(
            x.as_str(),
            y.as_str(),
        ) && same_text(u.as_str(), v.as_str()),
        (PathPrefix::Verbatim(x), PathPrefix::Verbatim(y)) => same_text(x.as_str(), y.as_str()),
        _ => false,
    }
}

} // verus!
