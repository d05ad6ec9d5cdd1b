//! Listings that are made without an `ls` to run.

use crate::listing::{entries_text, render_listing, summary_text};
use crate::ls::{is_noise, is_noise_dir, visible, visible_output, LsRequest};
use crate::paths::{
    display_path, file_name, holds_files, is_current_dir, is_file_name, join_path,
    joined_path_leads_back, normalize_display_path, parts, path_file_name, relative_path, relative_to,
    PartView,
};
use crate::prefix::PathStyle;
use crate::sort::{by_name, row_views, sorted_by_name, sorting_orders_and_keeps};
use crate::text::{starts_with, strings_from, views};
use vstd::prelude::*;

verus! {

/// A file that is listed.
#[derive(Debug)]
pub struct LsEntry {
    pub name: String,
    pub is_dir: bool,
    pub size: u64,
}

/// A file that was found.
#[derive(Debug)]
pub struct FoundEntry {
    pub path: String,
    pub is_dir: bool,
    pub size: u64,
    /// Whether the file system marks it as hidden.
    pub hidden: bool,
}

/// What came of reading one file in a directory.
#[derive(Debug)]
pub enum ChildRead {
    /// The file was found.
    Found(FoundEntry),
    /// The directory could not be read, or not further.
    Unlisted,
    /// The file has this path, but its metadata could not be read.
    NoMetadata(String),
}

/// What came of reading a path that was asked for.
#[derive(Debug)]
pub enum TargetRead {
    /// Its metadata could not be read.
    NoMetadata,
    /// It is no directory.
    File {
        size: u64,
        /// Whether the file system marks it as hidden.
        hidden: bool,
    },
    /// It is a directory, with these files in it.
    Directory(Vec<ChildRead>),
}

/// The name under which a file in the directory `root` is listed.
pub open spec fn entry_name(
    root: Seq<char>,
    path: Seq<char>,
    recursive: bool,
    multiple_targets: bool,
    style: PathStyle,
) -> Seq<char> {
    if recursive {
        let relative = match relative_to(path, root, style) {
            Some(p) => p,
            None => path,
        };
        if !multiple_targets || parts(root, style) == seq![PartView::Current] {
            display_path(relative)
        } else if relative.len() == 0 {
            display_path(root)
        } else {
            display_path(root) + "/"@ + display_path(relative)
        }
    } else if multiple_targets {
        display_path(path)
    } else {
        match file_name(path, style) {
            Some(name) => display_path(name),
            None => display_path(path),
        }
    }
}

/// Names a file in the directory `root`: by its last component, or by its path
/// below `root` where subdirectories are listed. Where there are several
/// targets, `root` is named too.
pub fn display_entry_name(
    root: &str,
    path: &str,
    recursive: bool,
    multiple_targets: bool,
    style: PathStyle,
) -> (r: String)
    ensures
        r@ == entry_name(root@, path@, recursive, multiple_targets, style),
{
    if recursive {
        let relative = match relative_path(path, root, style) {
            Some(p) => p,
            None => path.to_owned(),
        };
        let below = normalize_display_path(relative.as_str());
        if !multiple_targets || is_current_dir(root, style) {
            return below;
        }
        let mut name = normalize_display_path(root);
        if !below.as_str().is_empty() {
            name.append("/");
            name.append(below.as_str());
        }
        name
    } else if multiple_targets {
        normalize_display_path(path)
    } else {
        match path_file_name(path, style) {
            Some(name) => normalize_display_path(name.as_str()),
            None => normalize_display_path(path),
        }
    }
}

/// Whether a file of this name is hidden.
pub open spec fn is_hidden(file_name: Seq<char>, hidden: bool) -> bool {
    (file_name.len() > 0 && file_name[0] == '.') || hidden
}

/// Whether a file of this name is hidden, where `hidden` is what the file system
/// says of it.
pub fn is_hidden_entry(file_name: &str, hidden: bool) -> (r: bool)
    ensures
        r == is_hidden(file_name@, hidden),
{
    proof {
        reveal_strlit(".");
        if file_name@.len() > 0 && file_name@[0] == '.' {
            assert("."@ =~= file_name@.subrange(0, 1));
        }
        if "."@.is_prefix_of(file_name@) {
            assert(file_name@[0] == "."@[0]);
        }
    }
    starts_with(file_name, ".") || hidden
}

/// Whether a file is left out of the listing.
pub open spec fn is_skipped(
    name: Seq<char>,
    is_dir: bool,
    hidden: bool,
    show_all: bool,
    style: PathStyle,
) -> bool {
    let last = match file_name(name, style) {
        Some(f) => f,
        None => Seq::empty(),
    };
    !show_all && ((is_dir && is_noise(last)) || is_hidden(last, hidden))
}

/// Whether a file is left out of the listing: one that is hidden, or a
/// directory of noise, unless all files are asked for.
pub fn should_skip_entry(
    name: &str,
    is_dir: bool,
    hidden: bool,
    show_all: bool,
    style: PathStyle,
) -> (r: bool)
    ensures
        r == is_skipped(name@, is_dir, hidden, show_all, style),
{
    if show_all {
        return false;
    }
    let last = match path_file_name(name, style) {
        Some(f) => f,
        None => String::new(),
    };
    (is_dir && is_noise_dir(last.as_str())) || is_hidden_entry(last.as_str(), hidden)
}

/// The names, kinds and sizes of entries.
pub open spec fn entry_views(v: Seq<LsEntry>) -> Seq<(Seq<char>, bool, u64)> {
    Seq::new(v.len(), |i: int| (v[i].name@, v[i].is_dir, v[i].size))
}

/// What went wrong with reading one file in the directory `root`.
pub open spec fn child_error(root: Seq<char>, child: ChildRead, recursive: bool) -> Option<
    Seq<char>,
> {
    match child {
        ChildRead::Found(_) => None,
        ChildRead::Unlisted => Some(
            if recursive {
                "failed to walk "@ + root
            } else {
                "failed to read "@ + root
            },
        ),
        ChildRead::NoMetadata(path) => Some("failed to read metadata for "@ + path@),
    }
}

/// How many files were read before the first that could not be.
pub open spec fn found_len(children: Seq<ChildRead>) -> nat
    decreases children.len(),
{
    if children.len() == 0 || !(children[0] is Found) {
        0
    } else {
        1 + found_len(children.drop_first())
    }
}

/// What went wrong first with reading the directory `root`.
pub open spec fn children_error(
    root: Seq<char>,
    children: Seq<ChildRead>,
    recursive: bool,
) -> Option<Seq<char>> {
    if found_len(children) < children.len() {
        child_error(root, children[found_len(children) as int], recursive)
    } else {
        None
    }
}

/// The entries for what was found in the directory `root`.
pub open spec fn kept_children(
    root: Seq<char>,
    children: Seq<ChildRead>,
    recursive: bool,
    show_all: bool,
    multiple_targets: bool,
    style: PathStyle,
) -> Seq<(Seq<char>, bool, u64)>
    decreases children.len(),
{
    if children.len() == 0 {
        Seq::empty()
    } else {
        let before = kept_children(
            root,
            children.drop_last(),
            recursive,
            show_all,
            multiple_targets,
            style,
        );
        match children.last() {
            ChildRead::Found(e) => {
                let name = entry_name(root, e.path@, recursive, multiple_targets, style);
                if is_skipped(name, e.is_dir, e.hidden, show_all, style) {
                    before
                } else {
                    before.push((name, e.is_dir, e.size))
                }
            },
            _ => before,
        }
    }
}

fn message(what: &str, path: &str) -> (r: String)
    ensures
        r@ == what@ + path@,
{
    let mut out = what.to_owned();
    out.append(path);
    out
}

/// Appends entries for what was found in the directory `root`, up to the first
/// file that could not be read.
pub fn collect_dir_entries(
    root: &str,
    children: &Vec<ChildRead>,
    request: &LsRequest,
    multiple_targets: bool,
    style: PathStyle,
    entries: &mut Vec<LsEntry>,
) -> (r: Result<(), String>)
    ensures
        match r {
            Ok(()) => children_error(root@, children@, request.recursive) is None,
            Err(e) => children_error(root@, children@, request.recursive) == Some(e@),
        },
        entry_views(final(entries)@) == entry_views(old(entries)@) + kept_children(
            root@,
            children@.take(found_len(children@) as int),
            request.recursive,
            request.show_all,
            multiple_targets,
            style,
        ),
{
    let ghost start = entry_views(entries@);
    let mut i: usize = 0;
    proof {
        assert(children@.take(0) =~= Seq::empty());
        assert(children@.skip(0) =~= children@);
        assert(start + Seq::<(Seq<char>, bool, u64)>::empty() =~= start);
    }
    while i < children.len()
        invariant
            i <= children.len(),
            found_len(children@) == i + found_len(children@.skip(i as int)),
            start == entry_views(old(entries)@),
            entry_views(entries@) == start + kept_children(
                root@,
                children@.take(i as int),
                request.recursive,
                request.show_all,
                multiple_targets,
                style,
            ),
        decreases children.len() - i,
    {
        let ghost before = entries@;
        let ghost kept = kept_children(
            root@,
            children@.take(i as int),
            request.recursive,
            request.show_all,
            multiple_targets,
            style,
        );
        proof {
            assert(children@.take(i + 1).drop_last() =~= children@.take(i as int));
            assert(children@.take(i + 1).last() == children@[i as int]);
            assert(children@.skip(i as int)[0] == children@[i as int]);
            assert(children@.skip(i as int).drop_first() =~= children@.skip(i + 1));
        }
        match &children[i] {
            ChildRead::Found(e) => {
                let name = display_entry_name(
                    root,
                    e.path.as_str(),
                    request.recursive,
                    multiple_targets,
                    style,
                );
                if !should_skip_entry(name.as_str(), e.is_dir, e.hidden, request.show_all, style) {
                    let entry = LsEntry { name, is_dir: e.is_dir, size: e.size };
                    entries.push(entry);
                    proof {
                        let v = (name@, e.is_dir, e.size);
                        assert(entry_views(entries@) =~= entry_views(before).push(v));
                        assert((start + kept).push(v) =~= start + kept.push(v));
                    }
                }
            },
            ChildRead::Unlisted => {
                let what = if request.recursive {
                    "failed to walk "
                } else {
                    "failed to read "
                };
                return Err(message(what, root));
            },
            ChildRead::NoMetadata(path) => {
                return Err(message("failed to read metadata for ", path.as_str()));
            },
        }
        i = i + 1;
    }
    assert(children@.take(children@.len() as int) =~= children@);
    Ok(())
}

/// The rows of the directories, or of the other files.
pub open spec fn rows_of(v: Seq<(Seq<char>, bool, u64)>, dirs: bool) -> Seq<(Seq<char>, u64)>
    decreases v.len(),
{
    if v.len() == 0 {
        Seq::empty()
    } else if v.last().1 == dirs {
        rows_of(v.drop_last(), dirs).push((v.last().0, v.last().2))
    } else {
        rows_of(v.drop_last(), dirs)
    }
}

fn select_rows(entries: &[LsEntry], dirs: bool) -> (r: Vec<(String, u64)>)
    ensures
        row_views(r@) == rows_of(entry_views(entries@), dirs),
{
    let ghost all = entry_views(entries@);
    let mut out: Vec<(String, u64)> = Vec::new();
    let mut i: usize = 0;
    assert(all.take(0) =~= Seq::empty());
    assert(row_views(out@) =~= Seq::empty());
    while i < entries.len()
        invariant
            i <= entries.len(),
            all == entry_views(entries@),
            row_views(out@) == rows_of(all.take(i as int), dirs),
        decreases entries.len() - i,
    {
        let ghost before = out@;
        let e = &entries[i];
        proof {
            assert(all.take(i + 1).drop_last() =~= all.take(i as int));
            assert(all.take(i + 1).last() == (e.name@, e.is_dir, e.size));
        }
        if e.is_dir == dirs {
            out.push((e.name.clone(), e.size));
            assert(row_views(out@) =~= row_views(before).push((e.name@, e.size)));
        }
        i = i + 1;
    }
    assert(all.take(all.len() as int) =~= all);
    out
}

/// The directories among entries, in the order of their names.
pub open spec fn sorted_dirs(v: Seq<(Seq<char>, bool, u64)>) -> Seq<(Seq<char>, u64)> {
    by_name(rows_of(v, true))
}

/// The other files among entries, in the order of their names.
pub open spec fn sorted_files(v: Seq<(Seq<char>, bool, u64)>) -> Seq<(Seq<char>, u64)> {
    by_name(rows_of(v, false))
}

/// Lists entries in the order of their names: directories first, then files
/// with their sizes. The summary comes apart.
pub fn format_compact_entries(entries: &[LsEntry]) -> (r: (String, String))
    ensures
        r.0@ == entries_text(sorted_dirs(entry_views(entries@)), sorted_files(entry_views(entries@))),
        r.1@ == summary_text(sorted_dirs(entry_views(entries@)), sorted_files(entry_views(entries@))),
{
    let dirs = sorted_by_name(select_rows(entries, true));
    let files = sorted_by_name(select_rows(entries, false));
    render_listing(&dirs, &files)
}

/// The paths that a request lists.
pub open spec fn target_paths(paths: Seq<Seq<char>>) -> Seq<Seq<char>> {
    if paths.len() == 0 {
        seq!["."@]
    } else {
        paths
    }
}

/// The paths that a request lists: the directory at hand where it names none.
pub fn ls_targets(request: &LsRequest) -> (r: Vec<String>)
    ensures
        views(r@) == target_paths(views(request.paths@)),
{
    assert(views(request.paths@).len() == request.paths@.len());
    if request.paths.len() == 0 {
        let mut out: Vec<String> = Vec::new();
        out.push(".".to_owned());
        assert(views(out@) =~= seq!["."@]);
        out
    } else {
        let out = strings_from(request.paths.as_slice(), 0);
        assert(views(request.paths@).skip(0) =~= views(request.paths@));
        out
    }
}

/// What went wrong first with reading the target `path`.
pub open spec fn target_error(path: Seq<char>, read: TargetRead, recursive: bool) -> Option<
    Seq<char>,
> {
    match read {
        TargetRead::NoMetadata => Some("failed to read metadata for "@ + path),
        TargetRead::File { .. } => None,
        TargetRead::Directory(children) => children_error(path, children@, recursive),
    }
}

/// What went wrong first with reading the targets `paths`, in their order.
pub open spec fn first_error(
    paths: Seq<Seq<char>>,
    reads: Seq<TargetRead>,
    recursive: bool,
) -> Option<Seq<char>>
    decreases reads.len(),
{
    if reads.len() == 0 {
        None
    } else {
        match first_error(paths, reads.drop_last(), recursive) {
            Some(e) => Some(e),
            None => target_error(paths[reads.len() - 1], reads.last(), recursive),
        }
    }
}

/// The entries for the target `path`.
pub open spec fn target_entries(
    path: Seq<char>,
    read: TargetRead,
    recursive: bool,
    show_all: bool,
    multiple_targets: bool,
    style: PathStyle,
) -> Seq<(Seq<char>, bool, u64)> {
    match read {
        TargetRead::NoMetadata => Seq::empty(),
        TargetRead::File { size, hidden } => if is_skipped(
            display_path(path),
            false,
            hidden,
            show_all,
            style,
        ) {
            Seq::empty()
        } else {
            seq![(display_path(path), false, size)]
        },
        TargetRead::Directory(children) => kept_children(
            path,
            children@,
            recursive,
            show_all,
            multiple_targets,
            style,
        ),
    }
}

/// The entries for all targets, in their order.
pub open spec fn all_entries(
    paths: Seq<Seq<char>>,
    reads: Seq<TargetRead>,
    recursive: bool,
    show_all: bool,
    multiple_targets: bool,
    style: PathStyle,
) -> Seq<(Seq<char>, bool, u64)>
    decreases reads.len(),
{
    if reads.len() == 0 {
        Seq::empty()
    } else {
        all_entries(paths, reads.drop_last(), recursive, show_all, multiple_targets, style)
            + target_entries(
            paths[reads.len() - 1],
            reads.last(),
            recursive,
            show_all,
            multiple_targets,
            style,
        )
    }
}

/// The listing for a request, given what came of reading its targets: the whole
/// of it, or what went wrong first.
pub open spec fn ls_result(
    request: LsRequest,
    reads: Seq<TargetRead>,
    style: PathStyle,
    is_tty: bool,
) -> Result<Seq<char>, Seq<char>> {
    let paths = target_paths(views(request.paths@));
    match first_error(paths, reads, request.recursive) {
        Some(e) => Err(e),
        None => {
            let entries = all_entries(
                paths,
                reads,
                request.recursive,
                request.show_all,
                paths.len() > 1,
                style,
            );
            Ok(
                visible(
                    entries_text(sorted_dirs(entries), sorted_files(entries)),
                    summary_text(sorted_dirs(entries), sorted_files(entries)),
                    is_tty,
                ),
            )
        },
    }
}

fn collect_target(
    path: &str,
    read: &TargetRead,
    request: &LsRequest,
    multiple_targets: bool,
    style: PathStyle,
    entries: &mut Vec<LsEntry>,
) -> (r: Result<(), String>)
    ensures
        match r {
            Ok(()) => target_error(path@, *read, request.recursive) is None && entry_views(
                final(entries)@,
            ) == entry_views(old(entries)@) + target_entries(
                path@,
                *read,
                request.recursive,
                request.show_all,
                multiple_targets,
                style,
            ),
            Err(e) => target_error(path@, *read, request.recursive) == Some(e@),
        },
{
    let ghost before = entry_views(entries@);
    assert(before + Seq::<(Seq<char>, bool, u64)>::empty() =~= before);
    match read {
        TargetRead::NoMetadata => Err(message("failed to read metadata for ", path)),
        TargetRead::File { size, hidden } => {
            let name = normalize_display_path(path);
            if !should_skip_entry(name.as_str(), false, *hidden, request.show_all, style) {
                entries.push(LsEntry { name, is_dir: false, size: *size });
                assert(entry_views(entries@) =~= before + seq![(name@, false, *size)]);
            }
            Ok(())
        },
        TargetRead::Directory(children) => {
            proof {
                lemma_found_len(children@, path@, request.recursive);
            }
            collect_dir_entries(path, children, request, multiple_targets, style, entries)
        },
    }
}

proof fn lemma_found_len(children: Seq<ChildRead>, root: Seq<char>, recursive: bool)
    ensures
        found_len(children) <= children.len(),
        children_error(root, children, recursive) is None ==> children.take(
            found_len(children) as int,
        ) == children,
{
    lemma_found_prefix(children);
    if found_len(children) == children.len() {
        assert(children.take(children.len() as int) =~= children);
    }
}

proof fn lemma_found_prefix(children: Seq<ChildRead>)
    ensures
        found_len(children) <= children.len(),
        found_len(children) < children.len() ==> !(children[found_len(children) as int] is Found),
    decreases children.len(),
{
    if children.len() > 0 && children[0] is Found {
        lemma_found_prefix(children.drop_first());
    }
}

/// Lists the targets of a request, given what came of reading them in their
/// order. Where one of them could not be read, there is no listing, and those
/// behind it need not be read. Paths are read in the given style. The summary is
/// shown on a terminal only.
pub fn render_windows_ls(
    request: &LsRequest,
    reads: &Vec<TargetRead>,
    style: PathStyle,
    is_tty: bool,
) -> (r: Result<String, String>)
    requires
        reads.len() <= target_paths(views(request.paths@)).len(),
        reads.len() < target_paths(views(request.paths@)).len() ==> first_error(
            target_paths(views(request.paths@)),
            reads@,
            request.recursive,
        ) is Some,
    ensures
        match r {
            Ok(t) => ls_result(*request, reads@, style, is_tty) == Ok::<Seq<char>, Seq<char>>(t@),
            Err(e) => ls_result(*request, reads@, style, is_tty) == Err::<Seq<char>, Seq<char>>(e@),
        },
{
    let targets = ls_targets(request);
    let ghost paths = views(targets@);
    let multiple_targets = targets.len() > 1;
    let mut entries: Vec<LsEntry> = Vec::new();
    let mut i: usize = 0;
    proof {
        assert(paths.len() == targets@.len());
        assert(reads@.take(0) =~= Seq::empty());
        assert(entry_views(entries@) =~= Seq::empty());
    }
    while i < reads.len()
        invariant
            i <= reads.len() <= targets.len(),
            paths == views(targets@),
            paths == target_paths(views(request.paths@)),
            first_error(paths, reads@.take(i as int), request.recursive) is None,
            entry_views(entries@) == all_entries(
                paths,
                reads@.take(i as int),
                request.recursive,
                request.show_all,
                multiple_targets,
                style,
            ),
        decreases reads.len() - i,
    {
        proof {
            assert(reads@.take(i + 1).drop_last() =~= reads@.take(i as int));
            assert(reads@.take(i + 1).last() == reads@[i as int]);
            assert(paths[i as int] == targets@[i as int]@);
        }
        match collect_target(
            targets[i].as_str(),
            &reads[i],
            request,
            multiple_targets,
            style,
            &mut entries,
        ) {
            Ok(()) => {},
            Err(e) => {
                proof {
                    lemma_first_error(paths, reads@, request.recursive, i + 1);
                }
                return Err(e);
            },
        }
        i = i + 1;
    }
    assert(reads@.take(reads@.len() as int) =~= reads@);
    let (listing, summary) = format_compact_entries(entries.as_slice());
    Ok(visible_output(listing, summary.as_str(), is_tty))
}

/// What went wrong first stays first, whatever is read behind it.
proof fn lemma_first_error(
    paths: Seq<Seq<char>>,
    reads: Seq<TargetRead>,
    recursive: bool,
    n: int,
)
    requires
        0 <= n <= reads.len(),
        first_error(paths, reads.take(n), recursive) is Some,
    ensures
        first_error(paths, reads, recursive) == first_error(paths, reads.take(n), recursive),
    decreases reads.len() - n,
{
    if n < reads.len() {
        assert(reads.take(n + 1).drop_last() =~= reads.take(n));
        lemma_first_error(paths, reads, recursive, n + 1);
    } else {
        assert(reads.take(n) =~= reads);
    }
}

proof fn lemma_no_error(paths: Seq<Seq<char>>, reads: Seq<TargetRead>, recursive: bool)
    requires
        forall|k: int|
            0 <= k < reads.len() ==> target_error(paths[k], #[trigger] reads[k], recursive) is None,
    ensures
        first_error(paths, reads, recursive) is None,
    decreases reads.len(),
{
    if reads.len() > 0 {
        let front = reads.drop_last();
        assert forall|k: int| 0 <= k < front.len() implies target_error(
            paths[k],
            #[trigger] front[k],
            recursive,
        ) is None by {
            assert(front[k] == reads[k]);
        }
        lemma_no_error(paths, front, recursive);
        assert(target_error(paths[reads.len() - 1], reads[reads.len() - 1], recursive) is None);
    }
}

/// The first target that could not be read decides: there is no listing, but the
/// word of what went wrong with it.
pub proof fn failed_read_gives_no_listing(
    request: LsRequest,
    reads: Seq<TargetRead>,
    style: PathStyle,
    is_tty: bool,
    k: int,
)
    requires
        0 <= k < reads.len(),
        target_error(target_paths(views(request.paths@))[k], reads[k], request.recursive) is Some,
        forall|j: int|
            0 <= j < k ==> target_error(
                target_paths(views(request.paths@))[j],
                #[trigger] reads[j],
                request.recursive,
            ) is None,
    ensures
        ls_result(request, reads, style, is_tty) == Err::<Seq<char>, Seq<char>>(
            target_error(
                target_paths(views(request.paths@))[k],
                reads[k],
                request.recursive,
            ).unwrap(),
        ),
{
    let paths = target_paths(views(request.paths@));
    let front = reads.take(k);
    assert forall|j: int| 0 <= j < front.len() implies target_error(
        paths[j],
        #[trigger] front[j],
        request.recursive,
    ) is None by {
        assert(front[j] == reads[j]);
    }
    lemma_no_error(paths, front, request.recursive);
    assert(reads.take(k + 1).drop_last() =~= front);
    lemma_first_error(paths, reads, request.recursive, k + 1);
}

/// Where the metadata of a target cannot be read, the message names that target.
pub proof fn unread_target_is_named(
    request: LsRequest,
    reads: Seq<TargetRead>,
    style: PathStyle,
    is_tty: bool,
    k: int,
)
    requires
        0 <= k < reads.len(),
        reads[k] is NoMetadata,
        forall|j: int|
            0 <= j < k ==> target_error(
                target_paths(views(request.paths@))[j],
                #[trigger] reads[j],
                request.recursive,
            ) is None,
    ensures
        ls_result(request, reads, style, is_tty) == Err::<Seq<char>, Seq<char>>(
            "failed to read metadata for "@ + target_paths(views(request.paths@))[k],
        ),
{
    failed_read_gives_no_listing(request, reads, style, is_tty, k);
}

/// Where all targets could be read, there is a listing.
pub proof fn readable_targets_are_listed(
    request: LsRequest,
    reads: Seq<TargetRead>,
    style: PathStyle,
    is_tty: bool,
)
    requires
        forall|k: int|
            0 <= k < reads.len() ==> target_error(
                target_paths(views(request.paths@))[k],
                #[trigger] reads[k],
                request.recursive,
            ) is None,
    ensures
        ls_result(request, reads, style, is_tty) is Ok,
{
    lemma_no_error(target_paths(views(request.paths@)), reads, request.recursive);
}

/// A request that names no path lists what one for the directory at hand lists.
pub proof fn no_path_means_the_directory_at_hand(
    a: LsRequest,
    b: LsRequest,
    reads: Seq<TargetRead>,
    multiple_targets: bool,
    style: PathStyle,
    is_tty: bool,
)
    requires
        a.show_all == b.show_all,
        a.recursive == b.recursive,
        views(a.paths@).len() == 0,
        views(b.paths@) == seq!["."@],
    ensures
        target_paths(views(a.paths@)) == target_paths(views(b.paths@)),
        all_entries(
            target_paths(views(a.paths@)),
            reads,
            a.recursive,
            a.show_all,
            multiple_targets,
            style,
        ) == all_entries(
            target_paths(views(b.paths@)),
            reads,
            b.recursive,
            b.show_all,
            multiple_targets,
            style,
        ),
        ls_result(a, reads, style, is_tty) == ls_result(b, reads, style, is_tty),
{
}

/// A file in a single directory is listed under its own name, with and without
/// subdirectories.
pub proof fn file_is_listed_by_its_name(
    root: Seq<char>,
    name: Seq<char>,
    recursive: bool,
    style: PathStyle,
)
    requires
        is_file_name(name, style),
        holds_files(root, name, style),
    ensures
        entry_name(root, join_path(root, name, style), recursive, false, style) == display_path(
            name,
        ),
{
    joined_path_leads_back(root, name, style);
}

/// Where all files are asked for, none is left out.
pub proof fn show_all_skips_nothing(name: Seq<char>, is_dir: bool, hidden: bool, style: PathStyle)
    ensures
        !is_skipped(name, is_dir, hidden, true, style),
{
}

/// Every entry is listed, as a directory or as a file.
pub proof fn every_entry_is_listed(v: Seq<(Seq<char>, bool, u64)>)
    ensures
        sorted_dirs(v).len() + sorted_files(v).len() == v.len(),
    decreases v.len(),
{
    sorting_orders_and_keeps(rows_of(v, true));
    sorting_orders_and_keeps(rows_of(v, false));
    if v.len() > 0 {
        every_entry_is_listed(v.drop_last());
        sorting_orders_and_keeps(rows_of(v.drop_last(), true));
        sorting_orders_and_keeps(rows_of(v.drop_last(), false));
    }
}

} // verus!
