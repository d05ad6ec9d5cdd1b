//! What a listing that is made without an `ls` holds.

use crate::listing::{entries_text, summary_text};
use crate::ls::{visible, LsRequest};
use crate::native_ls::{
    all_entries, children_error, entry_name, first_error, found_len, is_hidden,
    is_skipped, kept_children, ls_result, rows_of, sorted_dirs, sorted_files, target_entries,
    target_error, target_paths, ChildRead, FoundEntry, TargetRead,
};
use crate::paths::{display_path, file_name, parts, relative_to, PartView};
use crate::prefix::PathStyle;
use crate::sort::{in_order, sorting_orders_and_keeps};
use crate::text::views;
use vstd::prelude::*;

verus! {

/// Where one directory is listed without those in it, a file is named by its last
/// component, or by its path where that is no name. Where several paths are
/// asked for, it is named by its path.
pub proof fn names_without_subdirectories(root: Seq<char>, path: Seq<char>, style: PathStyle)
    ensures
        entry_name(root, path, false, true, style) == display_path(path),
        file_name(path, style) matches Some(name) ==> entry_name(root, path, false, false, style)
            == display_path(name),
        file_name(path, style) is None ==> entry_name(root, path, false, false, style)
            == display_path(path),
{
}

/// Where subdirectories are listed, a file is named by its path from the target
/// on. Where several paths are asked for, that of the target precedes it, but for
/// the directory at hand.
pub proof fn names_with_subdirectories(
    root: Seq<char>,
    path: Seq<char>,
    below: Seq<char>,
    style: PathStyle,
)
    requires
        relative_to(path, root, style) == Some(below),
    ensures
        entry_name(root, path, true, false, style) == display_path(below),
        parts(root, style) == seq![PartView::Current] ==> entry_name(root, path, true, true, style)
            == display_path(below),
        parts(root, style) != seq![PartView::Current] && below.len() > 0 ==> entry_name(
            root,
            path,
            true,
            true,
            style,
        ) == display_path(root) + "/"@ + display_path(below),
        parts(root, style) != seq![PartView::Current] && below.len() == 0 ==> entry_name(
            root,
            path,
            true,
            true,
            style,
        ) == display_path(root),
{
}

/// A path that does not lie below the target is named in full.
pub proof fn other_paths_are_named_in_full(root: Seq<char>, path: Seq<char>, style: PathStyle)
    requires
        relative_to(path, root, style) is None,
    ensures
        entry_name(root, path, true, false, style) == display_path(path),
{
}

/// A file is hidden where the file system says so or its name begins with a dot,
/// and in no other case.
pub proof fn dots_hide_files(c: char, rest: Seq<char>, hidden: bool)
    ensures
        is_hidden(seq![c] + rest, hidden) <==> hidden || c == '.',
        is_hidden(Seq::empty(), hidden) <==> hidden,
{
    assert((seq![c] + rest)[0] == c);
}

/// Where not all is shown, files are left out that are hidden or whose last
/// component begins with a dot, and directories of noise. Nothing else is, and
/// nothing where all is shown.
pub proof fn what_a_listing_leaves_out(
    name: Seq<char>,
    last: Seq<char>,
    is_dir: bool,
    hidden: bool,
    style: PathStyle,
)
    requires
        file_name(name, style) == Some(last) || (file_name(name, style) is None && last.len() == 0),
    ensures
        !is_skipped(name, is_dir, hidden, true, style),
        is_skipped(name, is_dir, hidden, false, style) <==> {
            ||| hidden
            ||| last.len() > 0 && last[0] == '.'
            ||| is_dir && (last == "node_modules"@ || last == ".git"@ || last == "target"@)
        },
{
    reveal_strlit("node_modules");
    reveal_strlit(".git");
    reveal_strlit("target");
    if last.len() == 0 {
        assert(last =~= Seq::empty());
    }
}

/// A file that was found and is not left out adds one entry: its name, whether it
/// is a directory, and its size. One that is left out adds none. It does not
/// matter whether subdirectories are listed.
pub proof fn each_found_file_has_its_entry(
    root: Seq<char>,
    children: Seq<ChildRead>,
    e: FoundEntry,
    recursive: bool,
    show_all: bool,
    multiple_targets: bool,
    style: PathStyle,
)
    ensures
        kept_children(
            root,
            Seq::empty(),
            recursive,
            show_all,
            multiple_targets,
            style,
        ).len() == 0,
        ({
            let before = kept_children(
                root,
                children,
                recursive,
                show_all,
                multiple_targets,
                style,
            );
            let after = kept_children(
                root,
                children.push(ChildRead::Found(e)),
                recursive,
                show_all,
                multiple_targets,
                style,
            );
            let name = entry_name(root, e.path@, recursive, multiple_targets, style);
            if is_skipped(name, e.is_dir, e.hidden, show_all, style) {
                after == before
            } else {
                after == before.push((name, e.is_dir, e.size))
            }
        }),
{
    assert(children.push(ChildRead::Found(e)).drop_last() =~= children);
}

/// Where all is shown, each file that was found has its entry, in the order in
/// which they were found.
pub proof fn all_found_files_are_shown(
    root: Seq<char>,
    children: Seq<ChildRead>,
    recursive: bool,
    multiple_targets: bool,
    style: PathStyle,
)
    requires
        forall|i: int| 0 <= i < children.len() ==> #[trigger] children[i] is Found,
    ensures
        ({
            let kept = kept_children(root, children, recursive, true, multiple_targets, style);
            &&& kept.len() == children.len()
            &&& forall|i: int|
                0 <= i < children.len() ==> #[trigger] kept[i] == ({
                    let e = children[i]->Found_0;
                    (
                        entry_name(root, e.path@, recursive, multiple_targets, style),
                        e.is_dir,
                        e.size,
                    )
                })
        }),
    decreases children.len(),
{
    if children.len() > 0 {
        let front = children.drop_last();
        assert forall|i: int| 0 <= i < front.len() implies #[trigger] front[i] is Found by {
            assert(front[i] == children[i]);
        }
        all_found_files_are_shown(root, front, recursive, multiple_targets, style);
        assert(children[children.len() - 1] is Found);
    }
}

/// How many of the files that were found are not left out.
pub open spec fn shown_count(
    root: Seq<char>,
    children: Seq<ChildRead>,
    recursive: bool,
    show_all: bool,
    multiple_targets: bool,
    style: PathStyle,
) -> nat {
    children.filter(
        |c: ChildRead|
            c matches ChildRead::Found(e) && !is_skipped(
                entry_name(root, e.path@, recursive, multiple_targets, style),
                e.is_dir,
                e.hidden,
                show_all,
                style,
            ),
    ).len()
}

/// There are as many entries as files that were found and are not left out.
pub proof fn no_entry_is_lost_or_added(
    root: Seq<char>,
    children: Seq<ChildRead>,
    recursive: bool,
    show_all: bool,
    multiple_targets: bool,
    style: PathStyle,
)
    ensures
        kept_children(root, children, recursive, show_all, multiple_targets, style).len()
            == shown_count(root, children, recursive, show_all, multiple_targets, style),
    decreases children.len(),
{
    let shown = |c: ChildRead|
        c matches ChildRead::Found(e) && !is_skipped(
            entry_name(root, e.path@, recursive, multiple_targets, style),
            e.is_dir,
            e.hidden,
            show_all,
            style,
        );
    if children.len() == 0 {
        reveal(Seq::filter);
    } else {
        let front = children.drop_last();
        no_entry_is_lost_or_added(root, front, recursive, show_all, multiple_targets, style);
        front.lemma_filter_push(children.last(), shown);
        assert(front.push(children.last()) =~= children);
    }
}

/// The first file in a directory that could not be read decides what is said.
pub proof fn the_first_unread_file_decides(
    root: Seq<char>,
    read: Seq<ChildRead>,
    unread: ChildRead,
    rest: Seq<ChildRead>,
    recursive: bool,
)
    requires
        forall|i: int| 0 <= i < read.len() ==> #[trigger] read[i] is Found,
        !(unread is Found),
    ensures
        found_len(read.push(unread) + rest) == read.len(),
        found_len(read) == read.len(),
        children_error(root, read, recursive) is None,
        unread matches ChildRead::NoMetadata(path) ==> children_error(
            root,
            read.push(unread) + rest,
            recursive,
        ) == Some("failed to read metadata for "@ + path@),
        unread is Unlisted ==> children_error(root, read.push(unread) + rest, true) == Some(
            "failed to walk "@ + root,
        ),
        unread is Unlisted ==> children_error(root, read.push(unread) + rest, false) == Some(
            "failed to read "@ + root,
        ),
{
    lemma_found_front(read, read.push(unread) + rest);
    assert((read.push(unread) + rest)[read.len() as int] == unread);
    lemma_found_front(read, read);
}

proof fn lemma_found_front(read: Seq<ChildRead>, all: Seq<ChildRead>)
    requires
        forall|i: int| 0 <= i < read.len() ==> #[trigger] read[i] is Found,
        read.len() <= all.len(),
        forall|i: int| 0 <= i < read.len() ==> #[trigger] all[i] == read[i],
        all.len() > read.len() ==> !(all[read.len() as int] is Found),
    ensures
        found_len(all) == read.len(),
    decreases read.len(),
{
    if read.len() > 0 {
        let (r, a) = (read.drop_first(), all.drop_first());
        assert(all[0] == read[0]);
        assert forall|i: int| 0 <= i < r.len() implies #[trigger] r[i] is Found by {
            assert(r[i] == read[i + 1]);
        }
        assert forall|i: int| 0 <= i < r.len() implies #[trigger] a[i] == r[i] by {
            assert(all[i + 1] == read[i + 1]);
        }
        lemma_found_front(r, a);
    }
}

/// Directories and other files are told apart by what was found, and nothing
/// else.
pub proof fn entries_are_told_apart(
    v: Seq<(Seq<char>, bool, u64)>,
    name: Seq<char>,
    is_dir: bool,
    size: u64,
)
    ensures
        rows_of(Seq::empty(), true).len() == 0,
        rows_of(Seq::empty(), false).len() == 0,
        rows_of(v.push((name, is_dir, size)), is_dir) == rows_of(v, is_dir).push((name, size)),
        rows_of(v.push((name, is_dir, size)), !is_dir) == rows_of(v, !is_dir),
{
    assert(v.push((name, is_dir, size)).drop_last() =~= v);
}

/// Directories and other files are listed in the order of their names, and none
/// of them is lost or added.
pub proof fn entries_are_listed_in_order(v: Seq<(Seq<char>, bool, u64)>)
    ensures
        in_order(sorted_dirs(v)),
        in_order(sorted_files(v)),
        sorted_dirs(v).to_multiset() == rows_of(v, true).to_multiset(),
        sorted_files(v).to_multiset() == rows_of(v, false).to_multiset(),
{
    sorting_orders_and_keeps(rows_of(v, true));
    sorting_orders_and_keeps(rows_of(v, false));
}

/// A target that is no directory has its path for its name, unless it is left
/// out. One whose metadata could not be read has no entry, but is named.
pub proof fn a_file_target_is_listed_by_its_path(
    path: Seq<char>,
    size: u64,
    hidden: bool,
    recursive: bool,
    show_all: bool,
    multiple_targets: bool,
    style: PathStyle,
)
    ensures
        target_error(path, TargetRead::File { size, hidden }, recursive) is None,
        target_error(path, TargetRead::NoMetadata, recursive) == Some(
            "failed to read metadata for "@ + path,
        ),
        target_entries(
            path,
            TargetRead::File { size, hidden },
            recursive,
            show_all,
            multiple_targets,
            style,
        ) == if is_skipped(display_path(path), false, hidden, show_all, style) {
            Seq::<(Seq<char>, bool, u64)>::empty()
        } else {
            seq![(display_path(path), false, size)]
        },
{
}

/// A directory is listed by what was found in it.
pub proof fn a_directory_target_is_listed_by_its_files(
    path: Seq<char>,
    children: Vec<ChildRead>,
    recursive: bool,
    show_all: bool,
    multiple_targets: bool,
    style: PathStyle,
)
    ensures
        target_error(path, TargetRead::Directory(children), recursive) == children_error(
            path,
            children@,
            recursive,
        ),
        target_entries(
            path,
            TargetRead::Directory(children),
            recursive,
            show_all,
            multiple_targets,
            style,
        ) == kept_children(path, children@, recursive, show_all, multiple_targets, style),
{
}

/// A further target adds its entries behind those of the targets before it.
pub proof fn targets_add_up(
    paths: Seq<Seq<char>>,
    reads: Seq<TargetRead>,
    read: TargetRead,
    recursive: bool,
    show_all: bool,
    multiple_targets: bool,
    style: PathStyle,
)
    requires
        reads.len() < paths.len(),
    ensures
        all_entries(
            paths,
            Seq::empty(),
            recursive,
            show_all,
            multiple_targets,
            style,
        ).len() == 0,
        all_entries(paths, reads.push(read), recursive, show_all, multiple_targets, style)
            == all_entries(paths, reads, recursive, show_all, multiple_targets, style)
            + target_entries(
            paths[reads.len() as int],
            read,
            recursive,
            show_all,
            multiple_targets,
            style,
        ),
{
    assert(reads.push(read).drop_last() =~= reads);
}

/// The listing is that of all entries, of which each is named with its target
/// where there are two targets or more.
pub proof fn two_targets_are_several(
    request: LsRequest,
    reads: Seq<TargetRead>,
    style: PathStyle,
    is_tty: bool,
)
    requires
        first_error(target_paths(views(request.paths@)), reads, request.recursive) is None,
    ensures
        ({
            let paths = target_paths(views(request.paths@));
            let several = request.paths@.len() >= 2;
            let entries = all_entries(
                paths,
                reads,
                request.recursive,
                request.show_all,
                several,
                style,
            );
            let (dirs, files) = (sorted_dirs(entries), sorted_files(entries));
            ls_result(request, reads, style, is_tty) == Ok::<Seq<char>, Seq<char>>(
                visible(entries_text(dirs, files), summary_text(dirs, files), is_tty),
            )
        }),
{
    assert(views(request.paths@).len() == request.paths@.len());
}

/// A request lists its paths, or the directory at hand where it has none.
pub proof fn the_paths_are_the_targets(path: Seq<char>, paths: Seq<Seq<char>>)
    ensures
        target_paths(seq![path] + paths) == seq![path] + paths,
        target_paths(Seq::empty()) == seq!["."@],
{
}

/// The first target that cannot be read decides on the error, and without one
/// there is none.
pub proof fn the_first_unread_target_decides(
    paths: Seq<Seq<char>>,
    reads: Seq<TargetRead>,
    recursive: bool,
    k: int,
)
    requires
        0 <= k <= reads.len() <= paths.len(),
        forall|i: int|
            0 <= i < k ==> target_error(paths[i], #[trigger] reads[i], recursive) is None,
        k < reads.len() ==> target_error(paths[k], reads[k], recursive) is Some,
    ensures
        first_error(paths, reads, recursive) == if k < reads.len() {
            target_error(paths[k], reads[k], recursive)
        } else {
            None
        },
    decreases reads.len(),
{
    if reads.len() > 0 {
        let before = reads.drop_last();
        if k < reads.len() {
            if k < before.len() {
                the_first_unread_target_decides(paths, before, recursive, k);
            } else {
                the_first_unread_target_decides(paths, before, recursive, k);
                assert(reads.last() == reads[k]);
            }
        } else {
            the_first_unread_target_decides(paths, before, recursive, k - 1);
            assert(reads.last() == reads[k - 1]);
        }
    }
}

} // verus!
