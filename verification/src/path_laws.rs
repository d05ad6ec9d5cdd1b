//! What the components of paths are.

use crate::paths::{
    after_parts, body, display_path, ends_with_dot, file_name, followed, is_bare_drive,
    is_file_name, is_verbatim, join_path, kept_start, leads_with_dot, leads_with_root, lemma_body,
    lemma_segment_append, next_part, parts, parts_from, parts_text, relative_to, remainder,
    segment_part, trim_tail, unread, PartView, Place, Rest,
};
use crate::prefix::{
    behind_segment, is_sep, leads_with_two_seps, lemma_segment_len, path_prefix, segment,
    segment_len, share_prefix, verbatim_prefix, PathStyle, PrefixView,
};
use crate::text::lower;
use vstd::prelude::*;

verus! {

/// Slashes part components everywhere but behind `\\?\`, backslashes on Windows
/// only, and nothing else does.
pub proof fn slashes_part_components(c: char)
    ensures
        is_sep(c, PathStyle::Unix) <==> c as int == 47,
        is_sep(c, PathStyle::Windows) <==> c as int == 47 || c as int == 92,
        is_sep(c, PathStyle::Verbatim) <==> c as int == 92,
{
}

/// A path is shown with slashes for its backslashes, and else as it is.
pub proof fn backslashes_are_shown_as_slashes(path: Seq<char>, i: int)
    requires
        0 <= i < path.len(),
    ensures
        display_path(path).len() == path.len(),
        display_path(path)[i] as int == if path[i] as int == 92 {
            47
        } else {
            path[i] as int
        },
{
}

/// Only one dot and two dots are no names.
pub proof fn dots_are_no_names(name: Seq<char>)
    ensures
        segment_part(seq!['.']) == PartView::Current,
        segment_part(seq!['.', '.']) == PartView::Parent,
        name != seq!['.'] && name != seq!['.', '.'] ==> segment_part(name) == PartView::Normal(name),
{
    assert(seq!['.'].len() != seq!['.', '.'].len());
}

proof fn lemma_segment_of(name: Seq<char>, rest: Seq<char>, style: PathStyle)
    requires
        forall|k: int| 0 <= k < name.len() ==> !is_sep(#[trigger] name[k], style),
        rest.len() > 0 ==> is_sep(rest[0], style),
    ensures
        segment_len(name + rest, style) == name.len(),
        segment(name + rest, style) == name,
        rest.len() > 0 ==> behind_segment(name + rest, style) == rest.drop_first(),
        rest.len() == 0 ==> behind_segment(name + rest, style).len() == 0,
{
    let s = name + rest;
    let n = segment_len(s, style) as int;
    lemma_segment_len(s, style);
    if n < name.len() {
        assert(s[n] == name[n]);
    }
    if n > name.len() {
        assert(s[name.len() as int] == rest[0]);
    }
    assert(s.take(name.len() as int) =~= name);
    if rest.len() > 0 {
        assert(s.skip(name.len() as int + 1) =~= rest.drop_first());
    }
}

/// A name alone is one component, which it is the name of.
pub proof fn a_name_is_one_component(name: Seq<char>, style: PathStyle)
    requires
        style != PathStyle::Verbatim,
        is_file_name(name, style),
        path_prefix(name, style) is None,
    ensures
        parts(name, style) == seq![PartView::Normal(name)],
        file_name(name, style) == Some(name),
{
    assert(!is_sep(name[0], style));
    if name.len() > 1 {
        assert(!is_sep(name[1], style));
    } else {
        assert(name[0] == '.' ==> name =~= seq!['.']);
    }
    assert(body(name, style) == name);
    assert(name + Seq::<char>::empty() =~= name);
    lemma_segment_of(name, Seq::empty(), style);
    assert(name.take(name.len() as int) =~= name);
    assert(name.skip(name.len() as int) =~= Seq::empty());
    let done = Rest { text: Seq::empty(), place: Place::Inside, style };
    dots_are_no_names(name);
    assert(next_part(unread(name, style)) == Some((PartView::Normal(name), done)));
    assert(next_part(done) is None);
    assert(parts_from(done) =~= Seq::empty());
    assert(parts(name, style) =~= seq![PartView::Normal(name)]);
}

/// The root, the directory at hand and the one above it are one component each,
/// and none of them is a name.
pub proof fn special_paths_are_one_component(style: PathStyle)
    requires
        style != PathStyle::Verbatim,
    ensures
        parts(seq!['/'], style) == seq![PartView::Root],
        parts(seq!['.'], style) == seq![PartView::Current],
        parts(seq!['.', '.'], style) == seq![PartView::Parent],
        parts(Seq::empty(), style).len() == 0,
        file_name(seq!['/'], style) is None,
        file_name(seq!['.'], style) is None,
        file_name(seq!['.', '.'], style) is None,
        file_name(Seq::empty(), style) is None,
{
    let done = Rest { text: Seq::empty(), place: Place::Inside, style };
    assert(next_part(done) is None);
    assert(parts_from(done) =~= Seq::empty());
    assert(seq!['/'].drop_first() =~= Seq::empty());
    assert(seq!['.'].drop_first() =~= Seq::empty());
    assert(next_part(unread(seq!['/'], style)) == Some((PartView::Root, done)));
    assert(parts(seq!['/'], style) =~= seq![PartView::Root]);
    assert(next_part(unread(seq!['.'], style)) == Some((PartView::Current, done)));
    assert(parts(seq!['.'], style) =~= seq![PartView::Current]);
    let up = seq!['.', '.'];
    assert(body(up, style) == up);
    assert(up + Seq::<char>::empty() =~= up);
    lemma_segment_of(up, Seq::empty(), style);
    assert(up.take(2) =~= up);
    assert(up.skip(2) =~= Seq::empty());
    assert(next_part(unread(up, style)) == Some((PartView::Parent, done)));
    assert(parts(up, style) =~= seq![PartView::Parent]);
    assert(next_part(unread(Seq::empty(), style)) is None);
    assert(parts(Seq::empty(), style) =~= Seq::empty());
}

/// Seen from itself a path is empty.
pub proof fn a_path_is_empty_from_itself(path: Seq<char>)
    ensures
        relative_to(path, path, PathStyle::Unix) == Some(Seq::<char>::empty()),
{
    let all = parts(path, PathStyle::Unix);
    assert(all =~= all.subrange(0, all.len() as int));
    lemma_nothing_left(unread(path, PathStyle::Unix));
}

proof fn lemma_nothing_left(rest: Rest)
    requires
        rest.style == PathStyle::Unix,
        rest.place == Place::Start || rest.place == Place::Inside,
    ensures
        after_parts(rest, parts_from(rest).len()) == Seq::<char>::empty(),
    decreases rest.text.len(),
{
    let style = PathStyle::Unix;
    match next_part(rest) {
        Some((_, r)) => {
            lemma_body(rest.text, style);
            lemma_segment_len(body(rest.text, style), style);
            lemma_nothing_left(r);
        },
        None => {
            assert(body(rest.text, style).len() == 0);
            if rest.place == Place::Start && rest.text.len() > 0 {
                assert(body(rest.text, style) == rest.text);
            }
            assert(trim_tail(Seq::empty(), style) =~= Seq::empty());
            assert(body(rest.text, style) =~= Seq::empty());
            assert(rest.place == Place::Start ==> rest.text =~= Seq::empty());
            assert(remainder(rest) =~= Seq::empty());
        },
    }
}

/// A path is seen from another if and only if it begins with all components of
/// that one.
pub proof fn a_path_is_seen_from_its_beginning(
    path: Seq<char>,
    base: Seq<char>,
    style: PathStyle,
)
    ensures
        relative_to(path, base, style) is Some <==> {
            &&& parts(base, style).len() <= parts(path, style).len()
            &&& forall|i: int|
                0 <= i < parts(base, style).len() ==> #[trigger] parts(base, style)[i] == parts(
                    path,
                    style,
                )[i]
        },
{
    let (b, p) = (parts(base, style), parts(path, style));
    if b.len() <= p.len() && forall|i: int| 0 <= i < b.len() ==> #[trigger] b[i] == p[i] {
        assert(b =~= p.subrange(0, b.len() as int));
    }
    if b.is_prefix_of(p) {
        assert forall|i: int| 0 <= i < b.len() implies #[trigger] b[i] == p[i] by {
            assert(b[i] == p.subrange(0, b.len() as int)[i]);
        }
    }
}

/// Paths are joined with a slash, which is not doubled. One that begins with a
/// slash stands alone.
pub proof fn paths_are_joined_with_a_slash(base: Seq<char>, name: Seq<char>)
    ensures
        name.len() > 0 && name[0] == '/' ==> join_path(base, name, PathStyle::Unix) == name,
        !(name.len() > 0 && name[0] == '/') && (base.len() == 0 || base.last() == '/') ==> join_path(
            base,
            name,
            PathStyle::Unix,
        ) == base + name,
        !(name.len() > 0 && name[0] == '/') && base.len() > 0 && base.last() != '/' ==> join_path(
            base,
            name,
            PathStyle::Unix,
        ) == base + seq!['/'] + name,
{
    assert(Seq::<char>::empty() + name =~= name);
}

/// On Windows paths are joined with a backslash, but behind a separator and a
/// bare drive. A path with a prefix stands alone, one that begins with a separator
/// follows the prefix.
pub proof fn paths_are_joined_with_a_backslash(base: Seq<char>, name: Seq<char>)
    requires
        !is_verbatim(base, PathStyle::Windows),
    ensures
        ({
            let joined = join_path(base, name, PathStyle::Windows);
            let sep = |c: char| c == '/' || c == '\\';
            if path_prefix(name, PathStyle::Windows) is Some {
                joined == name
            } else if name.len() > 0 && sep(name[0]) {
                match path_prefix(base, PathStyle::Windows) {
                    Some((_, n)) => joined == base.take(n as int) + name,
                    None => joined == name,
                }
            } else if base.len() == 0 || sep(base.last()) || (base.len() == 2 && path_prefix(
                base,
                PathStyle::Windows,
            ) is Some) {
                joined == base + name
            } else {
                joined == base + seq!['\\'] + name
            }
        }),
{
    assert(Seq::<char>::empty() + name =~= name);
    assert(is_bare_drive(base, PathStyle::Windows) == (base.len() == 2 && path_prefix(
        base,
        PathStyle::Windows,
    ) is Some));
    assert(leads_with_root(name, PathStyle::Windows) == (name.len() > 0 && (name[0] == '/'
        || name[0] == '\\')));
}

/// Whether `c` is a letter of ASCII.
pub open spec fn is_letter(c: char) -> bool {
    65 <= c as int <= 90 || 97 <= c as int <= 122
}

/// A letter and a colon are a drive, in whatever case the letter is written. No
/// other text without two separators at its start has a prefix, and none has one
/// outside Windows.
pub proof fn a_letter_and_a_colon_are_a_drive(c: char, rest: Seq<char>, other: Seq<char>)
    requires
        !(other.len() >= 2 && is_letter(other[0]) && other[1] == ':'),
        !leads_with_two_seps(other),
    ensures
        is_letter(c) ==> path_prefix(seq![c, ':'] + rest, PathStyle::Windows) == Some(
            (PrefixView::Drive(lower(c)), 2nat),
        ),
        path_prefix(other, PathStyle::Windows) is None,
        path_prefix(other, PathStyle::Unix) is None,
        path_prefix(seq![c, ':'] + rest, PathStyle::Unix) is None,
        path_prefix(seq![c, ':'] + rest, PathStyle::Verbatim) is None,
        65 <= c as int <= 90 ==> lower(c) as int == c as int + 32,
        97 <= c as int <= 122 ==> lower(c) == c,
{
    let s = seq![c, ':'] + rest;
    assert(s[0] == c && s[1] == ':');
}

/// Two separators, a server, a separator and a share are a prefix, where the
/// server is neither a dot nor a question mark.
pub proof fn a_server_and_a_share_are_a_prefix(
    a: char,
    b: char,
    c: char,
    server: Seq<char>,
    share: Seq<char>,
    rest: Seq<char>,
)
    requires
        a == '/' || a == '\\',
        b == '/' || b == '\\',
        c == '/' || c == '\\',
        is_file_name(server, PathStyle::Windows),
        is_file_name(share, PathStyle::Windows),
        server != seq!['?'],
        rest.len() > 0 ==> rest[0] == '/' || rest[0] == '\\',
    ensures
        path_prefix(
            seq![a, b] + (server + (seq![c] + (share + rest))),
            PathStyle::Windows,
        ) == Some((PrefixView::Share(server, share), 2 + server.len() + 1 + share.len())),
{
    let w = PathStyle::Windows;
    let tail = seq![c] + (share + rest);
    let t = server + tail;
    let s = seq![a, b] + t;
    assert(tail[0] == c);
    lemma_segment_of(server, tail, w);
    assert(tail.drop_first() =~= share + rest);
    lemma_segment_of(share, rest, w);
    assert(s.skip(2) =~= t);
    assert(s[0] == a && s[1] == b && s[2] == server[0]);
    assert(share_prefix(t) == Some((PrefixView::Share(server, share), server.len() + 1 + share.len())));
    if server.len() == 1 {
        assert(server =~= seq![server[0]]);
        assert(!(server[0] == '?' || server[0] == '.'));
    } else {
        assert(s[3] == server[1]);
        assert(!is_sep(server[1], w));
    }
}

/// Two separators, a dot, a separator and a name are a device, whichever of its
/// two separators Windows is given.
pub proof fn a_dot_names_a_device(a: char, b: char, c: char, name: Seq<char>, rest: Seq<char>)
    requires
        a == '/' || a == '\\',
        b == '/' || b == '\\',
        c == '/' || c == '\\',
        forall|k: int| 0 <= k < name.len() ==> !is_sep(#[trigger] name[k], PathStyle::Windows),
        rest.len() > 0 ==> rest[0] == '/' || rest[0] == '\\',
    ensures
        path_prefix(seq![a, b, '.', c] + (name + rest), PathStyle::Windows) == Some(
            (PrefixView::Device(name), 4 + name.len()),
        ),
{
    let s = seq![a, b, '.', c] + (name + rest);
    assert(s.skip(4) =~= name + rest);
    assert(s[0] == a && s[1] == b && s[2] == '.' && s[3] == c);
    lemma_segment_of(name, rest, PathStyle::Windows);
}

/// Behind `\\?\` a drive is one where a separator or nothing follows it.
pub proof fn a_question_mark_begins_a_verbatim_drive(c: char, rest: Seq<char>)
    requires
        is_letter(c),
        rest.len() > 0 ==> rest[0] == '/' || rest[0] == '\\',
    ensures
        path_prefix(seq!['\\', '\\', '?', '\\'] + (seq![c, ':'] + rest), PathStyle::Windows) == Some(
            (PrefixView::VerbatimDrive(lower(c)), 6nat),
        ),
{
    let t = seq![c, ':'] + rest;
    let s = seq!['\\', '\\', '?', '\\'] + t;
    assert(s.skip(4) =~= t);
    assert(s[0] == '\\' && s[1] == '\\' && s[2] == '?' && s[3] == '\\');
    assert(t[0] == c && t[1] == ':');
    assert(rest.len() > 0 ==> t[2] == rest[0]);
    assert(verbatim_prefix(t) == (PrefixView::VerbatimDrive(lower(c)), 2nat));
}

/// Behind `\\?\UNC\` stand a server and a share.
pub proof fn a_verbatim_share_has_a_server(server: Seq<char>, share: Seq<char>, rest: Seq<char>)
    requires
        forall|k: int| 0 <= k < server.len() ==> #[trigger] server[k] != '\\',
        forall|k: int| 0 <= k < share.len() ==> #[trigger] share[k] != '\\',
        share.len() > 0,
        rest.len() > 0 ==> rest[0] == '\\',
    ensures
        path_prefix(
            seq!['\\', '\\', '?', '\\', 'U', 'N', 'C', '\\'] + (server + (seq!['\\'] + (share
                + rest))),
            PathStyle::Windows,
        ) == Some(
            (PrefixView::VerbatimShare(server, share), 8 + server.len() + 1 + share.len()),
        ),
{
    let v = PathStyle::Verbatim;
    let tail = seq!['\\'] + (share + rest);
    let u = server + tail;
    let s = seq!['\\', '\\', '?', '\\', 'U', 'N', 'C', '\\'] + u;
    let t = s.skip(4);
    assert(t =~= seq!['U', 'N', 'C', '\\'] + u);
    assert(t.skip(4) =~= u);
    assert(s[0] == '\\' && s[1] == '\\' && s[2] == '?' && s[3] == '\\');
    assert(t[0] == 'U' && t[1] == 'N' && t[2] == 'C' && t[3] == '\\');
    assert(tail[0] == '\\');
    lemma_segment_of(server, tail, v);
    assert(tail.drop_first() =~= share + rest);
    lemma_segment_of(share, rest, v);
}

/// What is left of a Unix path behind its start.
spec fn inside(s: Seq<char>) -> Rest {
    Rest { text: s, place: Place::Inside, style: PathStyle::Unix }
}

/// Whether `c` behind `s` is a separator or a single dot.
spec fn is_blank(s: Seq<char>, c: char) -> bool {
    c == '/' || (c == '.' && (s.len() == 0 || s.last() == '/'))
}

proof fn lemma_body_blank(s: Seq<char>, c: char)
    requires
        is_blank(s, c),
    ensures
        ({
            let b = body(s, PathStyle::Unix);
            let longer = body(s.push(c), PathStyle::Unix);
            &&& b.len() == 0 ==> longer.len() == 0
            &&& b.len() > 0 ==> longer == b.push(c) && b.last() == s.last()
        }),
    decreases s.len(),
{
    let u = PathStyle::Unix;
    let t = s.push(c);
    if s.len() == 0 {
        assert(t.drop_first() =~= Seq::empty());
        assert(body(t.drop_first(), u).len() == 0);
    } else {
        assert(t[0] == s[0]);
        assert(t[1] == if s.len() > 1 {
            s[1]
        } else {
            c
        });
        if is_sep(s[0], u) || leads_with_dot(s, u) {
            assert(t.drop_first() =~= s.drop_first().push(c));
            lemma_body_blank(s.drop_first(), c);
        }
    }
}

proof fn lemma_parts_blank(s: Seq<char>, c: char)
    requires
        is_blank(s, c),
    ensures
        parts_from(inside(s.push(c))) == parts_from(inside(s)),
    decreases s.len(),
{
    let u = PathStyle::Unix;
    let b = body(s, u);
    lemma_body_blank(s, c);
    if b.len() > 0 {
        let n = segment_len(b, u) as int;
        let t = seq![c];
        lemma_body(s, u);
        lemma_segment_len(b, u);
        lemma_segment_append(b, t, u);
        assert(b + t =~= b.push(c));
        assert(b.push(c).take(n) =~= b.take(n));
        assert(b.push(c).skip(n) =~= b.skip(n).push(c));
        assert(b.skip(n).len() > 0 ==> b.skip(n).last() == b.last());
        lemma_parts_blank(b.skip(n), c);
        let part = segment_part(b.take(n));
        assert(next_part(inside(s)) == Some((part, inside(b.skip(n)))));
        assert(next_part(inside(s.push(c))) == Some((part, inside(b.skip(n).push(c)))));
    } else {
        assert(next_part(inside(s)) is None);
        assert(next_part(inside(s.push(c))) is None);
    }
}

proof fn lemma_trimmed(s: Seq<char>)
    ensures
        parts_from(inside(trim_tail(s, PathStyle::Unix))) == parts_from(inside(s)),
        trim_tail(s, PathStyle::Unix).len() <= s.len(),
        trim_tail(s, PathStyle::Unix) == s.take(trim_tail(s, PathStyle::Unix).len() as int),
        !ends_with_dot(trim_tail(s, PathStyle::Unix), PathStyle::Unix),
    decreases s.len(),
{
    let u = PathStyle::Unix;
    if s.len() > 0 && (is_sep(s.last(), u) || ends_with_dot(s, u)) {
        let before = s.drop_last();
        lemma_trimmed(before);
        assert(before.len() > 0 ==> before.last() == s[s.len() - 2]);
        assert(before.push(s.last()) =~= s);
        lemma_parts_blank(before, s.last());
        let k = trim_tail(s, u).len() as int;
        assert(before.take(k) =~= s.take(k));
    } else {
        assert(s.take(s.len() as int) =~= s);
    }
}

proof fn lemma_body_settled(s: Seq<char>)
    ensures
        ({
            let b = body(s, PathStyle::Unix);
            &&& body(b, PathStyle::Unix) == b
            &&& b.len() > 0 ==> b[0] != '/' && !leads_with_dot(b, PathStyle::Unix)
        }),
    decreases s.len(),
{
    let u = PathStyle::Unix;
    if s.len() > 0 && (is_sep(s[0], u) || leads_with_dot(s, u)) {
        lemma_body_settled(s.drop_first());
    }
}

/// The text of components that are names is read alike at the start of a path
/// and further on.
proof fn lemma_read_anew(b: Seq<char>)
    requires
        body(b, PathStyle::Unix) == b,
    ensures
        parts(trim_tail(b, PathStyle::Unix), PathStyle::Unix) == parts_from(inside(b)),
{
    let u = PathStyle::Unix;
    let t = trim_tail(b, u);
    lemma_body_settled(b);
    lemma_trimmed(b);
    if t.len() > 0 {
        assert(t[0] == b[0]);
        if t.len() > 1 {
            assert(t[1] == b[1]);
        } else {
            assert(t.last() == t[0]);
        }
        assert(!leads_with_dot(t, u) && !leads_with_root(t, u));
    }
    assert(next_part(unread(t, u)) == next_part(inside(t)));
    assert(parts_from(unread(t, u)) =~= parts_from(inside(t)));
}

proof fn lemma_remainder_parts(rest: Rest)
    requires
        rest.style == PathStyle::Unix,
        rest.place == Place::Start || rest.place == Place::Inside,
    ensures
        parts(remainder(rest), PathStyle::Unix) == parts_from(rest),
{
    let u = PathStyle::Unix;
    let s = rest.text;
    if rest.place == Place::Inside {
        let b = body(s, u);
        lemma_body_settled(s);
        lemma_read_anew(b);
        assert(next_part(inside(b)) == next_part(inside(s)));
        assert(parts_from(inside(b)) =~= parts_from(inside(s)));
    } else if leads_with_root(s, u) || leads_with_dot(s, u) {
        let tail = s.drop_first();
        let kept = trim_tail(tail, u);
        let r = kept_start(s, u);
        lemma_trimmed(tail);
        assert(r == s.take(1) + kept);
        assert(r[0] == s[0]);
        assert(r.drop_first() =~= kept);
        assert(r.len() > 1 ==> r[1] == kept[0] && kept[0] == tail[0] && tail[0] == s[1]);
        assert(next_part(rest).unwrap().1 == inside(tail));
        assert(next_part(unread(r, u)) == Some((next_part(rest).unwrap().0, inside(kept))));
    } else {
        assert(body(s, u) == s);
        lemma_read_anew(s);
        assert(next_part(rest) == next_part(inside(s)));
        assert(parts_from(rest) =~= parts_from(inside(s)));
    }
}

proof fn lemma_parts_behind(rest: Rest, k: nat)
    requires
        rest.style == PathStyle::Unix,
        rest.place == Place::Start || rest.place == Place::Inside,
        k <= parts_from(rest).len(),
    ensures
        parts(after_parts(rest, k), PathStyle::Unix) == parts_from(rest).skip(k as int),
    decreases k,
{
    if k == 0 {
        lemma_remainder_parts(rest);
        assert(parts_from(rest).skip(0) =~= parts_from(rest));
    } else {
        let (first, r) = next_part(rest).unwrap();
        lemma_parts_behind(r, (k - 1) as nat);
        assert(parts_from(rest).skip(k as int) =~= parts_from(r).skip(k - 1));
    }
}

/// A path as seen from another has the components that follow those of the
/// other.
pub proof fn what_is_seen_has_the_other_components(path: Seq<char>, base: Seq<char>)
    ensures
        relative_to(path, base, PathStyle::Unix) matches Some(seen) ==> parts(path, PathStyle::Unix)
            == parts(base, PathStyle::Unix) + parts(seen, PathStyle::Unix),
{
    let (p, b) = (parts(path, PathStyle::Unix), parts(base, PathStyle::Unix));
    if b.is_prefix_of(p) {
        lemma_parts_behind(unread(path, PathStyle::Unix), b.len());
        assert(p =~= p.subrange(0, b.len() as int) + p.skip(b.len() as int));
    }
}

/// Behind `\\?\` a name leads down, two dots lead up again, and a single dot
/// leads nowhere. A root leads back to the prefix.
pub proof fn dots_are_followed(
    prefix: PartView,
    done: Seq<PartView>,
    name: Seq<char>,
    more: Seq<PartView>,
)
    requires
        done.len() > 0,
    ensures
        followed(done, Seq::empty()) == done,
        followed(done, seq![PartView::Normal(name)] + more) == followed(
            done.push(PartView::Normal(name)),
            more,
        ),
        followed(done.push(PartView::Normal(name)), seq![PartView::Parent] + more) == followed(
            done,
            more,
        ),
        !(done.last() is Normal) ==> followed(done, seq![PartView::Parent] + more) == followed(
            done,
            more,
        ),
        followed(done, seq![PartView::Current] + more) == followed(done, more),
        followed(seq![prefix] + done, seq![PartView::Root] + more) == followed(
            seq![prefix, PartView::Root],
            more,
        ),
{
    let normal = PartView::Normal(name);
    assert((seq![normal] + more).drop_first() =~= more);
    assert((seq![PartView::Parent] + more).drop_first() =~= more);
    assert((seq![PartView::Current] + more).drop_first() =~= more);
    assert((seq![PartView::Root] + more).drop_first() =~= more);
    assert(done.push(normal).drop_last() =~= done);
    assert((seq![prefix] + done).take(1).push(PartView::Root) =~= seq![prefix, PartView::Root]);
}

/// Components are written behind the prefix with one backslash before each, the
/// first of which stands for the root.
pub proof fn components_follow_backslashes(
    text: Seq<char>,
    prefix: PartView,
    v: Seq<PartView>,
    name: Seq<char>,
)
    requires
        v.len() > 0,
    ensures
        parts_text(text, seq![prefix]) == text,
        parts_text(text, seq![prefix, PartView::Root]) == text + seq!['\\'],
        parts_text(text, seq![prefix, PartView::Root, PartView::Normal(name)]) == text + seq!['\\']
            + name,
        !(v.last() is Root) ==> parts_text(text, v.push(PartView::Normal(name))) == parts_text(
            text,
            v,
        ) + seq!['\\'] + name,
        !(v.last() is Root) ==> parts_text(text, v.push(PartView::Current)) == parts_text(text, v)
            + seq!['\\', '.'],
        !(v.last() is Root) ==> parts_text(text, v.push(PartView::Parent)) == parts_text(text, v)
            + seq!['\\', '.', '.'],
{
    let normal = PartView::Normal(name);
    let one = seq![prefix];
    let two = seq![prefix, PartView::Root];
    let three = seq![prefix, PartView::Root, normal];
    assert(two.drop_last() =~= one);
    assert(three.drop_last() =~= two);
    assert(parts_text(text, one) == text);
    assert(two.last() == PartView::Root);
    assert(parts_text(text, two) == parts_text(text, two.drop_last()) + seq!['\\'] + Seq::<
        char,
    >::empty());
    assert(parts_text(text, two) =~= text + seq!['\\']);
    assert(v.push(normal).drop_last() =~= v);
    assert(v.push(PartView::Current).drop_last() =~= v);
    assert(v.push(PartView::Parent).drop_last() =~= v);
    assert(parts_text(text, v) + seq!['\\'] + seq!['.'] =~= parts_text(text, v) + seq!['\\', '.']);
    assert(parts_text(text, v) + seq!['\\'] + seq!['.', '.'] =~= parts_text(text, v) + seq![
        '\\',
        '.',
        '.',
    ]);
}

/// Behind `\\?\` paths are joined component by component.
pub proof fn verbatim_paths_are_joined_by_components(base: Seq<char>, name: Seq<char>)
    requires
        is_verbatim(base, PathStyle::Windows),
        name.len() > 0,
        path_prefix(name, PathStyle::Windows) is None,
    ensures
        path_prefix(base, PathStyle::Windows) matches Some((_, n)) && join_path(
            base,
            name,
            PathStyle::Windows,
        ) == parts_text(
            base.take(n as int),
            followed(parts(base, PathStyle::Windows), parts(name, PathStyle::Windows)),
        ),
{
}

/// Behind `\\?\` any other name is a prefix by itself.
pub proof fn a_verbatim_name_is_a_prefix(name: Seq<char>, rest: Seq<char>)
    requires
        forall|k: int| 0 <= k < name.len() ==> #[trigger] name[k] != '\\',
        rest.len() > 0 ==> rest[0] == '\\',
        !(name.len() >= 2 && is_letter(name[0]) && name[1] == ':'),
        !(name.len() >= 3 && name[0] == 'U' && name[1] == 'N' && name[2] == 'C'),
    ensures
        path_prefix(seq!['\\', '\\', '?', '\\'] + (name + rest), PathStyle::Windows) == Some(
            (PrefixView::Verbatim(name), 4 + name.len()),
        ),
{
    let t = name + rest;
    let s = seq!['\\', '\\', '?', '\\'] + t;
    assert(s.skip(4) =~= t);
    assert(s[0] == '\\' && s[1] == '\\' && s[2] == '?' && s[3] == '\\');
    lemma_segment_of(name, rest, PathStyle::Verbatim);
    assert forall|k: int| 0 <= k < 3 && k < t.len() implies t[k] == if k < name.len() {
        name[k]
    } else {
        rest[k - name.len()]
    } by {}
    assert(verbatim_prefix(t) == (PrefixView::Verbatim(name), name.len()));
}

/// Two separators and a server without a share are no prefix.
pub proof fn a_server_alone_is_no_prefix(server: Seq<char>)
    requires
        forall|k: int| 0 <= k < server.len() ==> !is_sep(#[trigger] server[k], PathStyle::Windows),
    ensures
        path_prefix(seq!['\\', '\\'] + server, PathStyle::Windows) is None,
        path_prefix(seq!['/', '/'] + server, PathStyle::Windows) is None,
{
    lemma_segment_of(server, Seq::empty(), PathStyle::Windows);
    assert(server + Seq::<char>::empty() =~= server);
    let (s, t) = (seq!['\\', '\\'] + server, seq!['/', '/'] + server);
    assert(s.skip(2) =~= server && t.skip(2) =~= server);
    assert(s[0] == '\\' && s[1] == '\\' && t[0] == '/' && t[1] == '/');
    if server.len() >= 2 {
        assert(s[3] == server[1] && t[3] == server[1]);
    }
    let rest = behind_segment(server, PathStyle::Windows);
    assert(rest.len() == 0);
}

/// A share and a device have a root even where no separator follows them. A
/// drive has none by itself.
pub proof fn shares_have_a_root(path: Seq<char>)
    ensures
        path_prefix(path, PathStyle::Windows) matches Some((prefix, n)) ==> (n == path.len()
            ==> parts(path, PathStyle::Windows) == if prefix is Share || prefix is Device {
            seq![PartView::Prefix(prefix), PartView::Root]
        } else {
            seq![PartView::Prefix(prefix)]
        }),
{
    match path_prefix(path, PathStyle::Windows) {
        Some((prefix, n)) => {
            if n == path.len() {
                let first = PartView::Prefix(prefix);
                let rest = next_part(unread(path, PathStyle::Windows)).unwrap().1;
                assert(rest.text =~= Seq::empty());
                assert(body(rest.text, rest.style).len() == 0);
                let done = Rest { text: Seq::empty(), place: Place::Inside, style: rest.style };
                assert(body(done.text, done.style).len() == 0);
                assert(next_part(done) is None);
                assert(parts_from(done) =~= Seq::empty());
                if prefix is Share || prefix is Device {
                    assert(next_part(rest) == Some((PartView::Root, done)));
                    assert(parts_from(rest) =~= seq![PartView::Root]);
                    assert(seq![first] + seq![PartView::Root] =~= seq![first, PartView::Root]);
                } else {
                    assert(next_part(rest) is None);
                    assert(parts_from(rest) =~= Seq::empty());
                    assert(seq![first] + Seq::<PartView>::empty() =~= seq![first]);
                }
            }
        },
        None => {},
    }
}

/// Only what follows `\\?\` is read verbatim.
pub proof fn only_question_marks_make_a_path_verbatim(path: Seq<char>, style: PathStyle)
    ensures
        is_verbatim(path, style) <==> style == PathStyle::Windows && path.len() >= 4 && path.take(4)
            == seq!['\\', '\\', '?', '\\'],
{
    let mark = seq!['\\', '\\', '?', '\\'];
    if path.len() >= 4 {
        let t = path.take(4);
        assert(t[0] == path[0] && t[1] == path[1] && t[2] == path[2] && t[3] == path[3]);
        if path[0] == '\\' && path[1] == '\\' && path[2] == '?' && path[3] == '\\' {
            assert(t =~= mark);
        } else {
            assert(t != mark) by {
                assert(mark[0] == '\\' && mark[1] == '\\' && mark[2] == '?' && mark[3] == '\\');
            }
        }
    }
}

/// Whether `part` stands somewhere in `whole`.
pub open spec fn stands_in(part: Seq<char>, whole: Seq<char>) -> bool {
    exists|i: int, j: int| 0 <= i <= j <= whole.len() && part == #[trigger] whole.subrange(i, j)
}

proof fn lemma_stands_behind(part: Seq<char>, s: Seq<char>, n: int)
    requires
        0 <= n <= s.len(),
        stands_in(part, s.skip(n)),
    ensures
        stands_in(part, s),
{
    let t = s.skip(n);
    let (i, j) = choose|i: int, j: int|
        0 <= i <= j <= t.len() && part == #[trigger] t.subrange(i, j);
    assert(s.subrange(n + i, n + j) =~= part);
}

proof fn lemma_body_stands(s: Seq<char>)
    ensures
        ({
            let b = body(s, PathStyle::Unix);
            b.len() <= s.len() && b == s.skip(s.len() - b.len())
        }),
    decreases s.len(),
{
    let u = PathStyle::Unix;
    if s.len() > 0 && (is_sep(s[0], u) || leads_with_dot(s, u)) {
        lemma_body_stands(s.drop_first());
        let b = body(s, u);
        assert(s.skip(s.len() - b.len()) =~= s.drop_first().skip(s.len() - 1 - b.len()));
    } else {
        assert(s.skip(0) =~= s);
    }
}

proof fn lemma_trimmed_end(s: Seq<char>)
    ensures
        ({
            let t = trim_tail(s, PathStyle::Unix);
            t.len() > 0 ==> t.last() != '/'
        }),
    decreases s.len(),
{
    let u = PathStyle::Unix;
    if s.len() > 0 && (is_sep(s.last(), u) || ends_with_dot(s, u)) {
        lemma_trimmed_end(s.drop_last());
    }
}

proof fn lemma_bare_ends(rest: Rest, k: nat)
    requires
        rest.style == PathStyle::Unix,
        rest.place == Place::Start || rest.place == Place::Inside,
        k <= parts_from(rest).len(),
        rest.place == Place::Start ==> k > 0,
    ensures
        ({
            let seen = after_parts(rest, k);
            &&& stands_in(seen, rest.text)
            &&& seen.len() > 0 ==> seen[0] != '/' && seen.last() != '/' && !ends_with_dot(
                seen,
                PathStyle::Unix,
            )
        }),
    decreases k,
{
    let u = PathStyle::Unix;
    let s = rest.text;
    let b = body(s, u);
    lemma_body_stands(s);
    lemma_body_settled(s);
    lemma_body(s, u);
    if k == 0 {
        let t = trim_tail(b, u);
        lemma_trimmed(b);
        lemma_trimmed_end(b);
        assert(t =~= b.subrange(0, t.len() as int));
        assert(stands_in(t, b));
        lemma_stands_behind(t, s, s.len() - b.len());
        assert(t.len() > 0 ==> t[0] == b[0]);
    } else {
        let (_, r) = next_part(rest).unwrap();
        lemma_segment_len(b, u);
        lemma_bare_ends(r, (k - 1) as nat);
        let n = segment_len(b, u) as int;
        if r.text == s.drop_first() && s.len() > 0 {
            assert(s.skip(1) =~= s.drop_first());
            lemma_stands_behind(after_parts(rest, k), s, 1);
        } else {
            assert(r.text == b.skip(n));
            assert(s.skip(s.len() - b.len() + n) =~= b.skip(n));
            lemma_stands_behind(after_parts(rest, k), s, s.len() - b.len() + n);
        }
    }
}

/// What is seen of a path from another stands in that path, and neither begins
/// nor ends with a slash or ends with a single dot behind one, where the other
/// has a component.
pub proof fn what_is_seen_stands_in_the_path(path: Seq<char>, base: Seq<char>)
    requires
        parts(base, PathStyle::Unix).len() > 0,
    ensures
        relative_to(path, base, PathStyle::Unix) matches Some(seen) ==> {
            &&& stands_in(seen, path)
            &&& seen.len() > 0 ==> seen[0] != '/' && seen.last() != '/'
            &&& seen.len() > 1 ==> !(seen.last() == '.' && seen[seen.len() - 2] == '/')
            &&& seen != seq!['.']
        },
{
    let (p, b) = (parts(path, PathStyle::Unix), parts(base, PathStyle::Unix));
    if b.is_prefix_of(p) {
        lemma_bare_ends(unread(path, PathStyle::Unix), b.len());
        assert(seq!['.'].last() == '.');
    }
}

} // verus!
