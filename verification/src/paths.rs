//! Paths as texts that fall into components.

use crate::prefix::{
    is_sep, lemma_path_prefix, lemma_segment_len, path_prefix, read_prefix, same_prefix,
    segment_end, segment_len, separates, PathPrefix, PathStyle, PrefixView,
};
use crate::text::{chars_of, replace_char, replaced_char, same_text, string_of};
use vstd::prelude::*;

verus! {

/// A component of a path.
#[derive(Debug)]
pub enum PathPart {
    /// The prefix of a Windows path.
    Prefix(PathPrefix),
    /// The separator at the start of a path or behind its prefix, or the root
    /// that a prefix implies.
    Root,
    /// A single dot.
    Current,
    /// Two dots.
    Parent,
    /// Any other name.
    Normal(String),
}

/// What a component of a path is.
pub enum PartView {
    Prefix(PrefixView),
    Root,
    Current,
    Parent,
    Normal(Seq<char>),
}

impl View for PathPart {
    type V = PartView;

    open spec fn view(&self) -> PartView {
        match self {
            PathPart::Prefix(prefix) => PartView::Prefix(prefix@),
            PathPart::Root => PartView::Root,
            PathPart::Current => PartView::Current,
            PathPart::Parent => PartView::Parent,
            PathPart::Normal(name) => PartView::Normal(name@),
        }
    }
}

/// How far a path has been read.
#[derive(Debug, Clone, Copy, PartialEq, Eq, Structural)]
pub enum Place {
    /// Nothing has been read.
    Start,
    /// A prefix has been read that implies a root.
    Share,
    /// A prefix has been read that implies none.
    Drive,
    /// The start of the path has been read.
    Inside,
}

/// Where one stands behind a prefix.
pub open spec fn place_behind(prefix: PrefixView) -> Place {
    match prefix {
        PrefixView::Share(_, _) | PrefixView::Device(_) => Place::Share,
        _ => Place::Drive,
    }
}

/// How the text behind a prefix is read.
pub open spec fn style_behind(prefix: PrefixView) -> PathStyle {
    match prefix {
        PrefixView::Drive(_) | PrefixView::Share(_, _) | PrefixView::Device(_) => PathStyle::Windows,
        _ => PathStyle::Verbatim,
    }
}

/// Whether `s` begins with the separator that stands for the root. A slash does
/// so behind every prefix.
pub open spec fn leads_with_root(s: Seq<char>, style: PathStyle) -> bool {
    s.len() > 0 && (is_sep(s[0], style) || (style == PathStyle::Verbatim && s[0] == '/'))
}

/// Whether the first segment of `s` is a single dot that can be left out.
pub open spec fn leads_with_dot(s: Seq<char>, style: PathStyle) -> bool {
    style != PathStyle::Verbatim && s.len() > 0 && s[0] == '.' && (s.len() == 1 || is_sep(
        s[1],
        style,
    ))
}

/// What follows the separators and the single dots at the start of `s`.
pub open spec fn body(s: Seq<char>, style: PathStyle) -> Seq<char>
    decreases s.len(),
{
    if s.len() > 0 && (is_sep(s[0], style) || leads_with_dot(s, style)) {
        body(s.drop_first(), style)
    } else {
        s
    }
}

/// The component that a segment is.
pub open spec fn segment_part(name: Seq<char>) -> PartView {
    if name == seq!['.', '.'] {
        PartView::Parent
    } else if name == seq!['.'] {
        PartView::Current
    } else {
        PartView::Normal(name)
    }
}

/// The first component of `s` that is a segment, and what follows it.
pub open spec fn body_part(s: Seq<char>, style: PathStyle) -> Option<(PartView, Seq<char>)> {
    let b = body(s, style);
    let n = segment_len(b, style) as int;
    if b.len() == 0 {
        None
    } else {
        Some((segment_part(b.take(n)), b.skip(n)))
    }
}

/// What is left of a path that is being read.
pub struct Rest {
    pub text: Seq<char>,
    pub place: Place,
    pub style: PathStyle,
}

/// The component that the rest of a path starts with, and what is left behind
/// it. At the start of a path a separator or a single dot is a component; further
/// on neither is.
pub open spec fn next_part(rest: Rest) -> Option<(PartView, Rest)> {
    let Rest { text: s, place, style } = rest;
    let inside = |t: Seq<char>| Rest { text: t, place: Place::Inside, style };
    if place == Place::Start && path_prefix(s, style) is Some {
        let (prefix, n) = path_prefix(s, style).unwrap();
        Some(
            (
                PartView::Prefix(prefix),
                Rest {
                    text: s.skip(n as int),
                    place: place_behind(prefix),
                    style: style_behind(prefix),
                },
            ),
        )
    } else if place != Place::Inside && leads_with_root(s, style) {
        Some((PartView::Root, inside(s.drop_first())))
    } else if place == Place::Share {
        Some((PartView::Root, inside(s)))
    } else if place == Place::Start && leads_with_dot(s, style) {
        Some((PartView::Current, inside(s.drop_first())))
    } else {
        match body_part(s, style) {
            Some((part, t)) => Some((part, inside(t))),
            None => None,
        }
    }
}

pub proof fn lemma_body(s: Seq<char>, style: PathStyle)
    ensures
        body(s, style).len() <= s.len(),
        body(s, style).len() > 0 ==> segment_len(body(s, style), style) > 0,
    decreases s.len(),
{
    if s.len() > 0 && (is_sep(s[0], style) || leads_with_dot(s, style)) {
        lemma_body(s.drop_first(), style);
    }
}

/// How many components the start of a path can still give without any text.
pub open spec fn implied(place: Place) -> nat {
    if place == Place::Share {
        1
    } else {
        0
    }
}

pub proof fn lemma_next_part_shrinks(rest: Rest)
    ensures
        next_part(rest) matches Some((_, r)) ==> r.text.len() < rest.text.len() || (r.text.len()
            == rest.text.len() && implied(r.place) < implied(rest.place)),
{
    lemma_path_prefix(rest.text, rest.style);
    lemma_body(rest.text, rest.style);
    lemma_segment_len(body(rest.text, rest.style), rest.style);
}

/// The components of the rest of a path.
pub open spec fn parts_from(rest: Rest) -> Seq<PartView>
    decreases rest.text.len(), implied(rest.place),
{
    proof {
        lemma_next_part_shrinks(rest);
    }
    match next_part(rest) {
        Some((part, r)) => seq![part] + parts_from(r),
        None => Seq::empty(),
    }
}

/// A path of which nothing has been read.
pub open spec fn unread(s: Seq<char>, style: PathStyle) -> Rest {
    Rest { text: s, place: Place::Start, style }
}

/// The components of a path. Repeated and trailing separators do not count, nor
/// do single dots but at the start.
pub open spec fn parts(s: Seq<char>, style: PathStyle) -> Seq<PartView> {
    parts_from(unread(s, style))
}

/// Whether the last segment of `s` is a single dot that can be left out.
pub open spec fn ends_with_dot(s: Seq<char>, style: PathStyle) -> bool {
    style != PathStyle::Verbatim && s.len() > 0 && s.last() == '.' && (s.len() == 1 || is_sep(
        s[s.len() - 2],
        style,
    ))
}

/// `s` without the separators and the single dots at its end.
pub open spec fn trim_tail(s: Seq<char>, style: PathStyle) -> Seq<char>
    decreases s.len(),
{
    if s.len() > 0 && (is_sep(s.last(), style) || ends_with_dot(s, style)) {
        trim_tail(s.drop_last(), style)
    } else {
        s
    }
}

/// The text `s` of components without what stands behind them. A separator or a
/// single dot at its start is kept.
pub open spec fn kept_start(s: Seq<char>, style: PathStyle) -> Seq<char> {
    if leads_with_root(s, style) || leads_with_dot(s, style) {
        s.take(1) + trim_tail(s.drop_first(), style)
    } else {
        trim_tail(s, style)
    }
}

/// The text of the components that the rest of a path holds, without what stands
/// before and after them.
pub open spec fn remainder(rest: Rest) -> Seq<char> {
    let Rest { text: s, place, style } = rest;
    if place == Place::Inside {
        trim_tail(body(s, style), style)
    } else if place == Place::Start && path_prefix(s, style) is Some {
        let (prefix, n) = path_prefix(s, style).unwrap();
        s.take(n as int) + kept_start(s.skip(n as int), style_behind(prefix))
    } else {
        kept_start(s, style)
    }
}

/// The text of the components of the rest of a path but for the first `k`.
pub open spec fn after_parts(rest: Rest, k: nat) -> Seq<char>
    decreases k,
{
    if k == 0 {
        remainder(rest)
    } else {
        match next_part(rest) {
            Some((_, r)) => after_parts(r, (k - 1) as nat),
            None => Seq::empty(),
        }
    }
}

/// `path` as seen from `base`, where its components begin with those of `base`.
pub open spec fn relative_to(path: Seq<char>, base: Seq<char>, style: PathStyle) -> Option<
    Seq<char>,
> {
    if parts(base, style).is_prefix_of(parts(path, style)) {
        Some(after_parts(unread(path, style), parts(base, style).len()))
    } else {
        None
    }
}

/// The last component of a path, where it is a name.
pub open spec fn file_name(path: Seq<char>, style: PathStyle) -> Option<Seq<char>> {
    if parts(path, style).len() == 0 {
        None
    } else {
        match parts(path, style).last() {
            PartView::Normal(name) => Some(name),
            _ => None,
        }
    }
}

/// Whether a path is a drive and nothing else.
pub open spec fn is_bare_drive(path: Seq<char>, style: PathStyle) -> bool {
    path.len() == 2 && path_prefix(path, style) is Some
}

/// Whether a path begins with `\\?\`.
pub open spec fn is_verbatim(path: Seq<char>, style: PathStyle) -> bool {
    path_prefix(path, style) matches Some((prefix, _)) && style_behind(prefix)
        == PathStyle::Verbatim
}

/// The components `done` with `more` behind them, where each of these is
/// followed: a root leads back to the prefix, two dots lead up.
pub open spec fn followed(done: Seq<PartView>, more: Seq<PartView>) -> Seq<PartView>
    decreases more.len(),
{
    if more.len() == 0 {
        done
    } else {
        let next = match more[0] {
            PartView::Root => done.take(1).push(PartView::Root),
            PartView::Current => done,
            PartView::Parent => if done.last() is Normal {
                done.drop_last()
            } else {
                done
            },
            part => done.push(part),
        };
        followed(next, more.drop_first())
    }
}

/// The text of a component behind a prefix.
pub open spec fn part_text(part: PartView) -> Seq<char> {
    match part {
        PartView::Current => seq!['.'],
        PartView::Parent => seq!['.', '.'],
        PartView::Normal(name) => name,
        _ => Seq::empty(),
    }
}

/// The text of components behind `prefix`, with a backslash between them. The
/// first of them is the prefix itself.
pub open spec fn parts_text(prefix: Seq<char>, v: Seq<PartView>) -> Seq<char>
    decreases v.len(),
{
    if v.len() <= 1 {
        prefix
    } else {
        let before = parts_text(prefix, v.drop_last());
        if v.len() > 2 && v[v.len() - 2] is Root {
            before + part_text(v.last())
        } else {
            before + seq!['\\'] + part_text(v.last())
        }
    }
}

/// The path `name` as seen from `base`. One that has a prefix stands alone, one
/// that begins with a separator follows the prefix of `base`. Behind `\\?\` dots
/// are followed. Behind a bare drive no separator is needed.
pub open spec fn join_path(base: Seq<char>, name: Seq<char>, style: PathStyle) -> Seq<char> {
    let base_prefix = match path_prefix(base, style) {
        Some((_, n)) => base.take(n as int),
        None => Seq::empty(),
    };
    if path_prefix(name, style) is Some {
        name
    } else if is_verbatim(base, style) && name.len() > 0 {
        parts_text(base_prefix, followed(parts(base, style), parts(name, style)))
    } else if leads_with_root(name, style) {
        base_prefix + name
    } else if base.len() == 0 || is_sep(base.last(), style) || is_bare_drive(base, style) {
        base + name
    } else if style == PathStyle::Unix {
        base + seq!['/'] + name
    } else {
        base + seq!['\\'] + name
    }
}

/// A path as it is shown: with slashes for backslashes.
pub open spec fn display_path(path: Seq<char>) -> Seq<char> {
    replace_char(path, '\\', '/')
}

/// Writes a path as it is shown.
pub fn normalize_display_path(path: &str) -> (r: String)
    ensures
        r@ == display_path(path@),
{
    replaced_char(path, '\\', '/')
}

/// The components of a row of path parts.
pub open spec fn part_views(v: Seq<PathPart>) -> Seq<PartView> {
    Seq::new(v.len(), |i: int| v[i]@)
}

/// Where the rest of a path that is being read starts, and how it goes on.
#[derive(Clone, Copy)]
struct Cursor {
    pos: usize,
    place: Place,
    style: PathStyle,
}

impl Cursor {
    spec fn rest(self, cs: Seq<char>) -> Rest {
        Rest { text: cs.skip(self.pos as int), place: self.place, style: self.style }
    }
}

/// Where one stands behind a prefix, and how the text there is read.
fn behind(prefix: &PathPrefix) -> (r: (Place, PathStyle))
    ensures
        r.0 == place_behind(prefix@),
        r.1 == style_behind(prefix@),
{
    match prefix {
        PathPrefix::Drive(_) => (Place::Drive, PathStyle::Windows),
        PathPrefix::Share(_, _) => (Place::Share, PathStyle::Windows),
        PathPrefix::Device(_) => (Place::Share, PathStyle::Windows),
        _ => (Place::Drive, PathStyle::Verbatim),
    }
}

fn dot_here(cs: &Vec<char>, at: usize, style: PathStyle) -> (r: bool)
    requires
        at <= cs.len(),
    ensures
        r == leads_with_dot(cs@.skip(at as int), style),
{
    match style {
        PathStyle::Verbatim => false,
        _ => at < cs.len() && cs[at] == '.' && (at + 1 == cs.len() || separates(cs[at + 1], style)),
    }
}

fn root_here(cs: &Vec<char>, at: usize, style: PathStyle) -> (r: bool)
    requires
        at <= cs.len(),
    ensures
        r == leads_with_root(cs@.skip(at as int), style),
{
    at < cs.len() && (separates(cs[at], style) || (style == PathStyle::Verbatim && cs[at] == '/'))
}

fn skip_to_body(cs: &Vec<char>, from: usize, style: PathStyle) -> (r: usize)
    requires
        from <= cs.len(),
    ensures
        from <= r <= cs.len(),
        cs@.skip(r as int) == body(cs@.skip(from as int), style),
{
    let mut i: usize = from;
    while i < cs.len() && (separates(cs[i], style) || dot_here(cs, i, style))
        invariant
            from <= i <= cs.len(),
            body(cs@.skip(from as int), style) == body(cs@.skip(i as int), style),
        decreases cs.len() - i,
    {
        assert(cs@.skip(i as int).drop_first() =~= cs@.skip(i + 1));
        i = i + 1;
    }
    i
}

fn name_part(name: String) -> (r: PathPart)
    ensures
        r@ == segment_part(name@),
{
    proof {
        reveal_strlit(".");
        reveal_strlit("..");
        assert("."@ =~= seq!['.']);
        assert(".."@ =~= seq!['.', '.']);
    }
    if same_text(name.as_str(), "..") {
        PathPart::Parent
    } else if same_text(name.as_str(), ".") {
        PathPart::Current
    } else {
        PathPart::Normal(name)
    }
}

/// Reads the component at the cursor, and says how the path goes on.
fn read_part(cs: &Vec<char>, at: Cursor) -> (r: Option<(PathPart, Cursor)>)
    requires
        at.pos <= cs.len(),
        at.place == Place::Start ==> at.pos == 0,
    ensures
        match r {
            Some((part, next)) => next.pos <= cs.len() && next.place != Place::Start && next_part(
                at.rest(cs@),
            ) == Some((part@, next.rest(cs@))),
            None => next_part(at.rest(cs@)) is None,
        },
{
    let ghost s = cs@.skip(at.pos as int);
    let style = at.style;
    if at.place == Place::Start {
        assert(s =~= cs@);
        match read_prefix(cs, style) {
            Some((prefix, len)) => {
                let (place, style) = behind(&prefix);
                return Some((PathPart::Prefix(prefix), Cursor { pos: len, place, style }));
            },
            None => {},
        }
    }
    if at.pos < cs.len() {
        assert(s.drop_first() =~= cs@.skip(at.pos + 1));
    }
    if at.place != Place::Inside && root_here(cs, at.pos, style) {
        return Some((PathPart::Root, Cursor { pos: at.pos + 1, place: Place::Inside, style }));
    }
    if at.place == Place::Share {
        return Some((PathPart::Root, Cursor { pos: at.pos, place: Place::Inside, style }));
    }
    if at.place == Place::Start && dot_here(cs, at.pos, style) {
        return Some((PathPart::Current, Cursor { pos: at.pos + 1, place: Place::Inside, style }));
    }
    let start = skip_to_body(cs, at.pos, style);
    if start == cs.len() {
        return None;
    }
    let end = segment_end(cs, start, style);
    let name = string_of(cs, start, end);
    proof {
        let b = body(s, style);
        let n = segment_len(b, style) as int;
        assert(b.take(n) =~= name@);
        assert(b.skip(n) =~= cs@.skip(end as int));
    }
    Some((name_part(name), Cursor { pos: end, place: Place::Inside, style }))
}

/// Reads all components, and says how the path goes on before and behind each of
/// them.
fn scan(cs: &Vec<char>, style: PathStyle) -> (r: (Vec<PathPart>, Vec<Cursor>))
    ensures
        part_views(r.0@) == parts(cs@, style),
        r.1@.len() == r.0@.len() + 1,
        forall|k: int|
            0 <= k < r.1@.len() ==> (#[trigger] r.1@[k]).pos <= cs.len() && (r.1@[k].place
                == Place::Start ==> r.1@[k].pos == 0),
        forall|k: int|
            0 <= k < r.1@.len() ==> after_parts(unread(cs@, style), k as nat) == remainder(
                (#[trigger] r.1@[k]).rest(cs@),
            ),
{
    let ghost all = unread(cs@, style);
    let mut found: Vec<PathPart> = Vec::new();
    let mut cursors: Vec<Cursor> = Vec::new();
    let mut at = Cursor { pos: 0, place: Place::Start, style };
    cursors.push(at);
    proof {
        assert(cs@.skip(0) =~= cs@);
        assert(part_views(found@) + parts_from(all) =~= parts_from(all));
    }
    loop
        invariant
            all == unread(cs@, style),
            at.pos <= cs.len(),
            at.place == Place::Start ==> at.pos == 0,
            cursors@.len() == found@.len() + 1,
            parts_from(all) == part_views(found@) + parts_from(at.rest(cs@)),
            forall|k: int|
                0 <= k < cursors@.len() ==> (#[trigger] cursors@[k]).pos <= cs.len() && (
                cursors@[k].place == Place::Start ==> cursors@[k].pos == 0),
            forall|k: int|
                0 <= k < cursors@.len() ==> after_parts(all, k as nat) == remainder(
                    (#[trigger] cursors@[k]).rest(cs@),
                ),
            forall|m: nat| #[trigger]
                after_parts(all, found@.len() + m) == after_parts(at.rest(cs@), m),
        ensures
            part_views(found@) == parts_from(all),
            cursors@.len() == found@.len() + 1,
            forall|k: int|
                0 <= k < cursors@.len() ==> (#[trigger] cursors@[k]).pos <= cs.len() && (
                cursors@[k].place == Place::Start ==> cursors@[k].pos == 0),
            forall|k: int|
                0 <= k < cursors@.len() ==> after_parts(all, k as nat) == remainder(
                    (#[trigger] cursors@[k]).rest(cs@),
                ),
        decreases cs.len() - at.pos, implied(at.place),
    {
        let ghost here = at.rest(cs@);
        let ghost before = found@;
        proof {
            lemma_next_part_shrinks(here);
        }
        match read_part(cs, at) {
            Some((part, next)) => {
                proof {
                    let rest = next.rest(cs@);
                    assert(part_views(before.push(part)) =~= part_views(before).push(part@));
                    assert(part_views(before) + (seq![part@] + parts_from(rest)) =~= part_views(
                        before.push(part),
                    ) + parts_from(rest));
                    assert forall|m: nat| #[trigger]
                        after_parts(all, before.len() + 1 + m) == after_parts(rest, m) by {
                        assert(after_parts(all, before.len() + (m + 1)) == after_parts(
                            here,
                            m + 1,
                        ));
                    }
                    assert(after_parts(all, before.len() + 1 + 0) == remainder(rest));
                }
                found.push(part);
                cursors.push(next);
                at = next;
            },
            None => {
                assert(parts_from(here) =~= Seq::empty());
                assert(part_views(found@) + Seq::<PartView>::empty() =~= part_views(found@));
                break;
            },
        }
    }
    (found, cursors)
}

/// Splits a path into its components.
pub fn path_parts(path: &str, style: PathStyle) -> (r: Vec<PathPart>)
    ensures
        part_views(r@) == parts(path@, style),
{
    let cs = chars_of(path);
    let (found, _cursors) = scan(&cs, style);
    found
}

fn same_part(a: &PathPart, b: &PathPart) -> (r: bool)
    ensures
        r == (a@ == b@),
{
    match (a, b) {
        (PathPart::Prefix(x), PathPart::Prefix(y)) => same_prefix(x, y),
        (PathPart::Root, PathPart::Root) => true,
        (PathPart::Current, PathPart::Current) => true,
        (PathPart::Parent, PathPart::Parent) => true,
        (PathPart::Normal(x), PathPart::Normal(y)) => same_text(x.as_str(), y.as_str()),
        _ => false,
    }
}

/// The end of the text from `low` on without the separators and the single dots
/// at its end.
fn tail_start(cs: &Vec<char>, low: usize, style: PathStyle) -> (r: usize)
    requires
        low <= cs.len(),
    ensures
        low <= r <= cs.len(),
        cs@.subrange(low as int, r as int) == trim_tail(cs@.skip(low as int), style),
{
    let mut to = cs.len();
    assert(cs@.subrange(low as int, to as int) =~= cs@.skip(low as int));
    while to > low && (separates(cs[to - 1], style) || (style != PathStyle::Verbatim && cs[to - 1]
        == '.' && (to - 1 == low || separates(cs[to - 2], style))))
        invariant
            low <= to <= cs.len(),
            trim_tail(cs@.skip(low as int), style) == trim_tail(
                cs@.subrange(low as int, to as int),
                style,
            ),
        decreases to - low,
    {
        assert(cs@.subrange(low as int, to as int).drop_last() =~= cs@.subrange(
            low as int,
            to - 1,
        ));
        to = to - 1;
    }
    to
}

/// The end of the text from `from` on that is kept, and where it is kept whatever
/// stands there.
fn kept_end(cs: &Vec<char>, from: usize, style: PathStyle) -> (r: usize)
    requires
        from <= cs.len(),
    ensures
        from <= r <= cs.len(),
        cs@.subrange(from as int, r as int) == kept_start(cs@.skip(from as int), style),
{
    let ghost s = cs@.skip(from as int);
    if root_here(cs, from, style) || dot_here(cs, from, style) {
        assert(s.drop_first() =~= cs@.skip(from + 1));
        let to = tail_start(cs, from + 1, style);
        assert(cs@.subrange(from as int, to as int) =~= s.take(1) + cs@.subrange(
            from + 1,
            to as int,
        ));
        to
    } else {
        tail_start(cs, from, style)
    }
}

fn write_remainder(cs: &Vec<char>, at: Cursor) -> (r: String)
    requires
        at.pos <= cs.len(),
        at.place == Place::Start ==> at.pos == 0,
    ensures
        r@ == remainder(at.rest(cs@)),
{
    let ghost s = cs@.skip(at.pos as int);
    if at.place == Place::Inside {
        let start = skip_to_body(cs, at.pos, at.style);
        let to = tail_start(cs, start, at.style);
        return string_of(cs, start, to);
    }
    if at.place == Place::Start {
        assert(s =~= cs@);
        match read_prefix(cs, at.style) {
            Some((prefix, len)) => {
                let to = kept_end(cs, len, behind(&prefix).1);
                let r = string_of(cs, 0, to);
                assert(r@ =~= cs@.take(len as int) + cs@.subrange(len as int, to as int));
                return r;
            },
            None => {},
        }
    }
    let to = kept_end(cs, at.pos, at.style);
    string_of(cs, at.pos, to)
}

/// Names `path` as seen from `base`, where it lies there.
pub fn relative_path(path: &str, base: &str, style: PathStyle) -> (r: Option<String>)
    ensures
        match r {
            Some(t) => relative_to(path@, base@, style) == Some(t@),
            None => relative_to(path@, base@, style) is None,
        },
{
    let cs = chars_of(path);
    let (found, cursors) = scan(&cs, style);
    let prefix = path_parts(base, style);
    proof {
        assert(part_views(found@).len() == found@.len());
        assert(part_views(prefix@).len() == prefix@.len());
    }
    if prefix.len() > found.len() {
        return None;
    }
    let mut i: usize = 0;
    while i < prefix.len()
        invariant
            i <= prefix.len() <= found.len(),
            part_views(found@) == parts(path@, style),
            part_views(prefix@) == parts(base@, style),
            forall|j: int| 0 <= j < i ==> #[trigger] found@[j]@ == prefix@[j]@,
        decreases prefix.len() - i,
    {
        if !same_part(&found[i], &prefix[i]) {
            assert(part_views(found@).subrange(0, prefix@.len() as int)[i as int]
                != part_views(prefix@)[i as int]);
            return None;
        }
        i = i + 1;
    }
    assert(parts(base@, style) =~= parts(path@, style).subrange(0, prefix@.len() as int));
    Some(write_remainder(&cs, cursors[prefix.len()]))
}

/// Finds the last component of a path, where it is a name.
pub fn path_file_name(path: &str, style: PathStyle) -> (r: Option<String>)
    ensures
        match r {
            Some(t) => file_name(path@, style) == Some(t@),
            None => file_name(path@, style) is None,
        },
{
    let mut found = path_parts(path, style);
    proof {
        assert(part_views(found@).len() == found@.len());
        if found@.len() > 0 {
            assert(parts(path@, style).last() == found@.last()@);
        }
    }
    match found.pop() {
        Some(PathPart::Normal(name)) => Some(name),
        _ => None,
    }
}

/// Whether a path names the directory at hand.
pub fn is_current_dir(path: &str, style: PathStyle) -> (r: bool)
    ensures
        r == (parts(path@, style) == seq![PartView::Current]),
{
    let found = path_parts(path, style);
    proof {
        assert(part_views(found@).len() == found@.len());
    }
    if found.len() != 1 {
        return false;
    }
    assert(parts(path@, style)[0] == found@[0]@);
    match &found[0] {
        PathPart::Current => {
            assert(parts(path@, style) =~= seq![PartView::Current]);
            true
        },
        _ => false,
    }
}

fn follow(mut done: Vec<PathPart>, more: Vec<PathPart>) -> (r: Vec<PathPart>)
    requires
        done.len() > 0,
        done@[0]@ is Prefix,
    ensures
        part_views(r@) == followed(part_views(done@), part_views(more@)),
        r.len() > 0,
        r@[0]@ is Prefix,
{
    let ghost all = followed(part_views(done@), part_views(more@));
    let mut left = more;
    while left.len() > 0
        invariant
            done.len() > 0,
            done@[0]@ is Prefix,
            followed(part_views(done@), part_views(left@)) == all,
        decreases left.len(),
    {
        let ghost v = part_views(done@);
        let ghost ahead = part_views(left@);
        let part = left.remove(0);
        assert(part_views(left@) =~= ahead.drop_first());
        match part {
            PathPart::Root => {
                while done.len() > 1
                    invariant
                        done.len() > 0,
                        part_views(done@).take(1) == v.take(1),
                        done@[0]@ == v[0],
                    decreases done.len(),
                {
                    let ghost longer = done@;
                    let _ = done.pop();
                    assert(part_views(done@).take(1) =~= part_views(longer).take(1));
                }
                assert(part_views(done@) =~= v.take(1));
                let ghost one = done@;
                done.push(PathPart::Root);
                assert(part_views(done@) =~= part_views(one).push(PartView::Root));
            },
            PathPart::Current => {},
            PathPart::Parent => {
                assert(v.last() == done@.last()@);
                if matches!(done[done.len() - 1], PathPart::Normal(_)) {
                    let ghost longer = done@;
                    let _ = done.pop();
                    assert(part_views(done@) =~= part_views(longer).drop_last());
                }
            },
            other => {
                let ghost shorter = done@;
                done.push(other);
                assert(part_views(done@) =~= part_views(shorter).push(other@));
            },
        }
    }
    done
}

fn write_parts(prefix: String, v: &Vec<PathPart>) -> (r: String)
    requires
        v.len() > 0,
    ensures
        r@ == parts_text(prefix@, part_views(v@)),
{
    let ghost all = part_views(v@);
    let ghost head = prefix@;
    let mut out = prefix;
    let mut i: usize = 1;
    while i < v.len()
        invariant
            1 <= i <= v.len(),
            all == part_views(v@),
            out@ == parts_text(head, all.take(i as int)),
        decreases v.len() - i,
    {
        proof {
            assert(all.take(i + 1).drop_last() =~= all.take(i as int));
            assert(all.take(i + 1).last() == v@[i as int]@);
        }
        if !(i > 1 && matches!(v[i - 1], PathPart::Root)) {
            out.push('\\');
        }
        let ghost before = out@;
        match &v[i] {
            PathPart::Current => out.push('.'),
            PathPart::Parent => {
                out.push('.');
                out.push('.');
            },
            PathPart::Normal(name) => out.append(name.as_str()),
            _ => {},
        }
        assert(out@ =~= before + part_text(v@[i as int]@));
        assert(out@ =~= parts_text(head, all.take(i + 1)));
        i = i + 1;
    }
    assert(all.take(all.len() as int) =~= all);
    out
}

/// Names the path `name` as seen from `base`.
#[verifier::rlimit(30)]
pub fn joined_path(base: &str, name: &str, style: PathStyle) -> (r: String)
    ensures
        r@ == join_path(base@, name@, style),
{
    let b = chars_of(base);
    let n = chars_of(name);
    if read_prefix(&n, style).is_some() {
        return name.to_owned();
    }
    let mut prefix_len: usize = 0;
    let mut verbatim = false;
    match read_prefix(&b, style) {
        Some((prefix, len)) => {
            prefix_len = len;
            verbatim = behind(&prefix).1 == PathStyle::Verbatim;
        },
        None => {},
    }
    let base_prefix = string_of(&b, 0, prefix_len);
    assert(base_prefix@ =~= b@.take(prefix_len as int));
    if verbatim && n.len() > 0 {
        let found = path_parts(base, style);
        proof {
            let (first, rest) = next_part(unread(base@, style)).unwrap();
            assert(parts(base@, style) == seq![first] + parts_from(rest));
            assert(part_views(found@).len() == found@.len());
            assert(part_views(found@)[0] == first);
        }
        let all = follow(found, path_parts(name, style));
        return write_parts(base_prefix, &all);
    }
    assert(n@.skip(0) =~= n@);
    if root_here(&n, 0, style) {
        let mut out = base_prefix;
        out.append(name);
        return out;
    }
    let mut out = base.to_owned();
    let bare_drive = b.len() == 2 && prefix_len > 0;
    if b.len() > 0 && !separates(b[b.len() - 1], style) && !bare_drive {
        if style == PathStyle::Unix {
            out.push('/');
        } else {
            out.push('\\');
        }
    }
    out.append(name);
    assert(out@ =~= join_path(base@, name@, style));
    out
}

/// A shown path holds no backslash, and stays as it is when it is shown again.
pub proof fn shown_path_is_settled(path: Seq<char>)
    ensures
        !display_path(path).contains('\\'),
        display_path(display_path(path)) == display_path(path),
        display_path(path).len() == path.len(),
{
    assert(display_path(display_path(path)) =~= display_path(path));
}

/// Whether `name` can name a file in a directory.
pub open spec fn is_file_name(name: Seq<char>, style: PathStyle) -> bool {
    &&& name.len() > 0
    &&& forall|k: int| 0 <= k < name.len() ==> !is_sep(#[trigger] name[k], style)
    &&& name != seq!['.']
    &&& name != seq!['.', '.']
}

/// Whether a file in the directory `base` is seen as such: the name does not
/// become a part of the prefix, and `base` does not end in or right behind a
/// prefix that names no directory by itself.
pub open spec fn holds_files(base: Seq<char>, name: Seq<char>, style: PathStyle) -> bool {
    &&& style != PathStyle::Verbatim
    &&& base.len() > 0
    &&& path_prefix(name, style) is None
    &&& path_prefix(join_path(base, name, style), style) == path_prefix(base, style)
    &&& path_prefix(base, style) matches Some((prefix, n)) ==> style_behind(prefix)
        != PathStyle::Verbatim && (place_behind(prefix) == Place::Drive ==> !leads_with_dot(
        base.skip(n as int),
        style,
    ))
}

/// Whether `t` is `name` as it follows the text `u` of a directory.
spec fn follows(u: Seq<char>, t: Seq<char>, name: Seq<char>, style: PathStyle) -> bool {
    ||| t.len() == name.len() + 1 && is_sep(t[0], style) && t.drop_first() == name
    ||| t == name && (u.len() == 0 || is_sep(u.last(), style))
}

proof fn lemma_body_of_name(name: Seq<char>, t: Seq<char>, style: PathStyle)
    requires
        style != PathStyle::Verbatim,
        is_file_name(name, style),
        follows(Seq::empty(), t, name, style),
    ensures
        body(t, style) == name,
        body(name, style) == name,
        segment_len(name, style) == name.len(),
        trim_tail(name, style) == name,
        segment_part(name) == PartView::Normal(name),
        !leads_with_dot(name, style),
{
    assert(!is_sep(name[0], style) && !is_sep(name[name.len() - 1], style));
    if name.len() > 1 {
        assert(!is_sep(name[1], style) && !is_sep(name[name.len() - 2], style));
    } else {
        assert(name[0] == '.' ==> name =~= seq!['.']);
    }
    lemma_segment_len(name, style);
    if segment_len(name, style) < name.len() {
        assert(!is_sep(name[segment_len(name, style) as int], style));
    }
    assert(body(name, style) == name);
}

proof fn lemma_body_append(u: Seq<char>, t: Seq<char>, name: Seq<char>, style: PathStyle)
    requires
        style != PathStyle::Verbatim,
        is_file_name(name, style),
        follows(u, t, name, style),
    ensures
        body(u, style).len() == 0 ==> body(u + t, style) == name,
        body(u, style).len() > 0 ==> body(u + t, style) == body(u, style) + t && (body(
            u,
            style,
        ).last() == u.last()),
        u.len() > 0 ==> leads_with_dot(u + t, style) == leads_with_dot(u, style),
    decreases u.len(),
{
    let s = u + t;
    if u.len() == 0 {
        assert(s =~= t);
        lemma_body_of_name(name, t, style);
    } else {
        assert(s[0] == u[0]);
        assert(leads_with_dot(s, style) == leads_with_dot(u, style)) by {
            if u.len() > 1 {
                assert(s[1] == u[1]);
            } else {
                assert(t[0] == s[1]);
            }
        }
        if is_sep(u[0], style) || leads_with_dot(u, style) {
            assert(s.drop_first() =~= u.drop_first() + t);
            lemma_body_append(u.drop_first(), t, name, style);
        }
    }
}

pub proof fn lemma_segment_append(b: Seq<char>, t: Seq<char>, style: PathStyle)
    requires
        t.len() > 0,
        is_sep(t[0], style) || (b.len() > 0 && is_sep(b.last(), style)),
    ensures
        segment_len(b + t, style) == segment_len(b, style),
    decreases b.len(),
{
    let s = b + t;
    if b.len() == 0 {
        assert(s =~= t);
    } else {
        assert(s[0] == b[0]);
        if !is_sep(b[0], style) {
            assert(s.drop_first() =~= b.drop_first() + t);
            lemma_segment_append(b.drop_first(), t, style);
        }
    }
}

/// Whether a file that follows what is left of a path is read behind it.
spec fn takes_file(rest: Rest, t: Seq<char>, name: Seq<char>) -> bool {
    &&& rest.style != PathStyle::Verbatim
    &&& is_file_name(name, rest.style)
    &&& follows(rest.text, t, name, rest.style)
    &&& rest.place == Place::Start ==> rest.text.len() > 0 && path_prefix(
        rest.text,
        rest.style,
    ) is None && path_prefix(rest.text + t, rest.style) is None
    &&& rest.place == Place::Drive ==> !leads_with_dot(rest.text, rest.style) && (
    rest.text.len() == 0 ==> t == name)
}

/// Where no component is left, the file is the next one.
proof fn lemma_only_part(rest: Rest, t: Seq<char>, name: Seq<char>)
    requires
        takes_file(rest, t, name),
        next_part(rest) is None,
    ensures
        parts_from((Rest { text: rest.text + t, ..rest })) == seq![PartView::Normal(name)],
        remainder((Rest { text: rest.text + t, ..rest })) == name,
{
    let Rest { text: u, place, style } = rest;
    let longer = Rest { text: u + t, place, style };
    let done = Rest { text: Seq::empty(), place: Place::Inside, style };
    let end = PartView::Normal(name);
    lemma_body_append(u, t, name, style);
    lemma_body_of_name(name, name, style);
    assert(u.len() == 0 ==> u + t =~= t);
    assert(body(u, style).len() == 0);
    assert(place == Place::Inside || u.len() == 0) by {
        if u.len() > 0 {
            assert(is_sep(u[0], style) || leads_with_dot(u, style));
        }
    }
    assert(place != Place::Share && place != Place::Start);
    assert(name.take(name.len() as int) =~= name);
    assert(name.skip(name.len() as int) =~= Seq::empty());
    assert(next_part(longer) == Some((end, done)));
    assert(next_part(done) is None);
    assert(parts_from(done) =~= Seq::empty());
    assert(parts_from(longer) =~= seq![end]);
}

/// A file behind what is left of a path does not change its next component.
#[verifier::rlimit(30)]
proof fn lemma_next_part_append(rest: Rest, t: Seq<char>, name: Seq<char>)
    requires
        takes_file(rest, t, name),
        next_part(rest) is Some,
        rest.place == Place::Share ==> rest.text.len() > 0,
    ensures
        ({
            let (first, r) = next_part(rest).unwrap();
            &&& next_part((Rest { text: rest.text + t, ..rest })) == Some(
                (first, Rest { text: r.text + t, ..r }),
            )
            &&& takes_file(r, t, name)
        }),
{
    let Rest { text: u, place, style } = rest;
    let s = u + t;
    let longer = Rest { text: s, place, style };
    let (first, r) = next_part(rest).unwrap();
    lemma_body_append(u, t, name, style);
    if u.len() == 0 {
        assert(body(u, style).len() == 0);
        assert(false);
    }
    assert(s[0] == u[0]);
    assert(place == Place::Start ==> path_prefix(u, style) is None && path_prefix(s, style) is None);
    if place != Place::Inside && leads_with_root(u, style) {
        assert(r.text == u.drop_first());
        assert(s.drop_first() =~= r.text + t);
        assert(r.text.len() > 0 ==> r.text.last() == u.last());
        assert(next_part(longer) == Some((first, Rest { text: r.text + t, ..r })));
    } else if place == Place::Share {
        assert(r.text == u);
        assert(next_part(longer) == Some((first, Rest { text: r.text + t, ..r })));
    } else if place == Place::Start && leads_with_dot(u, style) {
        assert(r.text == u.drop_first());
        assert(s.drop_first() =~= r.text + t);
        assert(r.text.len() > 0 ==> r.text.last() == u.last());
        assert(next_part(longer) == Some((first, Rest { text: r.text + t, ..r })));
    } else {
        lemma_body_part_append(u, t, name, style);
        assert(next_part(longer) == Some((first, Rest { text: r.text + t, ..r })));
    }
    assert(r.place == Place::Inside && r.style == style);
    assert(follows(r.text, t, name, style));
}

/// A file behind a text does not change its first segment.
proof fn lemma_body_part_append(u: Seq<char>, t: Seq<char>, name: Seq<char>, style: PathStyle)
    requires
        style != PathStyle::Verbatim,
        is_file_name(name, style),
        follows(u, t, name, style),
        body_part(u, style) is Some,
    ensures
        ({
            let (first, rest) = body_part(u, style).unwrap();
            &&& body_part(u + t, style) == Some((first, rest + t))
            &&& follows(rest, t, name, style)
        }),
{
    let b = body(u, style);
    let n = segment_len(b, style) as int;
    lemma_body_append(u, t, name, style);
    lemma_body(u, style);
    lemma_segment_len(b, style);
    lemma_segment_append(b, t, style);
    assert((b + t).take(n) =~= b.take(n));
    assert((b + t).skip(n) =~= b.skip(n) + t);
    assert(b.skip(n).len() > 0 ==> b.skip(n).last() == b.last());
}

/// A file that follows what is left of a path adds one component to it.
proof fn lemma_parts_append(rest: Rest, t: Seq<char>, name: Seq<char>)
    requires
        takes_file(rest, t, name),
    ensures
        parts_from((Rest { text: rest.text + t, ..rest })) == parts_from(rest).push(
            PartView::Normal(name),
        ),
        after_parts((Rest { text: rest.text + t, ..rest }), parts_from(rest).len()) == name,
    decreases
            rest.text.len(),
            if rest.place == Place::Inside {
                0int
            } else {
                1int
            },
{
    let longer = Rest { text: rest.text + t, ..rest };
    let end = PartView::Normal(name);
    if next_part(rest) is None {
        lemma_only_part(rest, t, name);
        assert(parts_from(rest) =~= Seq::empty());
        assert(Seq::empty().push(end) =~= seq![end]);
    } else {
        let (first, r) = next_part(rest).unwrap();
        lemma_next_part_shrinks(rest);
        let u = if rest.place == Place::Share && rest.text.len() == 0 && t != name {
            // The separator before the file stands for the root.
            assert(t.drop_first() =~= r.text + name);
            name
        } else {
            t
        };
        if rest.place == Place::Share && rest.text.len() == 0 {
            assert(rest.text + t =~= t);
            assert(r.text + u =~= u);
            assert(!is_sep(name[0], rest.style));
        } else {
            lemma_next_part_append(rest, t, name);
        }
        assert(next_part(longer) == Some((first, Rest { text: r.text + u, ..r })));
        lemma_parts_append(r, u, name);
        assert(seq![first] + parts_from(r).push(end) =~= (seq![first] + parts_from(r)).push(end));
    }
}

/// The text that a file adds to the path of its directory.
spec fn added(base: Seq<char>, name: Seq<char>, style: PathStyle) -> Seq<char> {
    if base.len() == 0 || is_sep(base.last(), style) || is_bare_drive(base, style) {
        name
    } else if style == PathStyle::Unix {
        seq!['/'] + name
    } else {
        seq!['\\'] + name
    }
}

proof fn lemma_joined(base: Seq<char>, name: Seq<char>, style: PathStyle)
    requires
        is_file_name(name, style),
        holds_files(base, name, style),
    ensures
        join_path(base, name, style) == base + added(base, name, style),
{
    assert(!is_sep(name[0], style));
    assert(base + seq!['/'] + name =~= base + (seq!['/'] + name));
    assert(base + seq!['\\'] + name =~= base + (seq!['\\'] + name));
}

proof fn lemma_added_follows(base: Seq<char>, name: Seq<char>, style: PathStyle, n: int)
    requires
        style != PathStyle::Verbatim,
        0 <= n <= base.len(),
        n == 0 || n == 2 || !is_bare_drive(base, style),
        is_bare_drive(base, style) ==> n == 2,
    ensures
        follows(base.skip(n), added(base, name, style), name, style),
{
    let u = base.skip(n);
    let t = added(base, name, style);
    if t == name {
        assert(u.len() > 0 ==> u.last() == base.last());
    } else {
        assert(t.drop_first() =~= name);
    }
}

/// A drive is two characters long.
proof fn lemma_drive_len(path: Seq<char>, style: PathStyle)
    ensures
        path_prefix(path, style) matches Some((prefix, n)) ==> (style_behind(prefix)
            != PathStyle::Verbatim && place_behind(prefix) == Place::Drive ==> n == 2) && (
        is_bare_drive(path, style) ==> n == 2),
{
    lemma_path_prefix(path, style);
}

#[verifier::rlimit(30)]
proof fn lemma_parts_joined(base: Seq<char>, name: Seq<char>, style: PathStyle)
    requires
        is_file_name(name, style),
        holds_files(base, name, style),
    ensures
        parts(join_path(base, name, style), style) == parts(base, style).push(
            PartView::Normal(name),
        ),
        after_parts(unread(join_path(base, name, style), style), parts(base, style).len()) == name,
{
    let t = added(base, name, style);
    let path = base + t;
    let end = PartView::Normal(name);
    lemma_joined(base, name, style);
    lemma_path_prefix(base, style);
    lemma_drive_len(base, style);
    match path_prefix(base, style) {
        Some((prefix, n)) => {
            let rest = next_part(unread(base, style)).unwrap().1;
            let first = PartView::Prefix(prefix);
            let longer = Rest { text: rest.text + t, ..rest };
            assert(path.skip(n as int) =~= rest.text + t);
            assert(next_part(unread(path, style)) == Some((first, longer)));
            lemma_added_follows(base, name, style, n as int);
            lemma_parts_append(rest, t, name);
            assert(seq![first] + parts_from(rest).push(end) =~= (seq![first] + parts_from(
                rest,
            )).push(end));
        },
        None => {
            lemma_added_follows(base, name, style, 0);
            assert(base.skip(0) =~= base);
            lemma_parts_append(unread(base, style), t, name);
        },
    }
}

/// A file in a directory has its name as its last component, and is found
/// under it from there.
pub proof fn joined_path_leads_back(base: Seq<char>, name: Seq<char>, style: PathStyle)
    requires
        is_file_name(name, style),
        holds_files(base, name, style),
    ensures
        parts(join_path(base, name, style), style) == parts(base, style).push(
            PartView::Normal(name),
        ),
        file_name(join_path(base, name, style), style) == Some(name),
        relative_to(join_path(base, name, style), base, style) == Some(name),
{
    lemma_parts_joined(base, name, style);
    let all = parts(join_path(base, name, style), style);
    assert(all.subrange(0, parts(base, style).len() as int) =~= parts(base, style));
}

} // verus!
