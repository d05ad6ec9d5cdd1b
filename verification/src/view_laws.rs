//! What is said of rows is said of each item of them, in its place.

use crate::hook_check::opt_view;
use crate::listing::tally_views;
use crate::ls::{all_fields, fields_view};
use crate::native_ls::{entry_views, LsEntry};
use crate::paths::{part_views, PathPart};
use crate::sort::row_views;
use crate::text::{str_views, views};
use crate::wc_cmd::file_bytes;
use vstd::prelude::*;

verus! {

/// One more text is the last one seen.
pub proof fn texts_are_seen_in_their_places(v: Seq<String>, x: String, w: Seq<&str>, y: &str)
    ensures
        views(Seq::empty()).len() == 0,
        views(v.push(x)) == views(v).push(x@),
        str_views(Seq::empty()).len() == 0,
        str_views(w.push(y)) == str_views(w).push(y@),
{
    assert(views(v.push(x)) =~= views(v).push(x@));
    assert(str_views(w.push(y)) =~= str_views(w).push(y@));
}

/// One more row, count, entry or file is the last one seen, with all that it
/// holds.
pub proof fn rows_are_seen_in_their_places(
    rows: Seq<(String, u64)>,
    row: (String, u64),
    counts: Seq<(String, usize)>,
    count: (String, usize),
    entries: Seq<LsEntry>,
    entry: LsEntry,
    fields: Seq<(char, u64, String)>,
    field: (char, u64, String),
)
    ensures
        row_views(Seq::empty()).len() == 0,
        row_views(rows.push(row)) == row_views(rows).push((row.0@, row.1)),
        tally_views(Seq::empty()).len() == 0,
        tally_views(counts.push(count)) == tally_views(counts).push((count.0@, count.1 as nat)),
        entry_views(Seq::empty()).len() == 0,
        entry_views(entries.push(entry)) == entry_views(entries).push(
            (entry.name@, entry.is_dir, entry.size),
        ),
        all_fields(Seq::empty()).len() == 0,
        all_fields(fields.push(field)) == all_fields(fields).push((field.0, field.1, field.2@)),
{
    assert(row_views(rows.push(row)) =~= row_views(rows).push((row.0@, row.1)));
    assert(tally_views(counts.push(count)) =~= tally_views(counts).push(
        (count.0@, count.1 as nat),
    ));
    assert(entry_views(entries.push(entry)) =~= entry_views(entries).push(
        (entry.name@, entry.is_dir, entry.size),
    ));
    assert(all_fields(fields.push(field)) =~= all_fields(fields).push(
        (field.0, field.1, field.2@),
    ));
}

/// One more component is the last one seen, and one more file the last one read.
pub proof fn parts_are_seen_in_their_places(
    parts: Seq<PathPart>,
    part: PathPart,
    contents: Seq<Option<Vec<u8>>>,
    content: Vec<u8>,
)
    ensures
        part_views(Seq::empty()).len() == 0,
        part_views(parts.push(part)) == part_views(parts).push(part@),
        file_bytes(Seq::empty()).len() == 0,
        file_bytes(contents.push(Some(content))) == file_bytes(contents).push(content@),
        file_bytes(contents.push(None)) == file_bytes(contents).push(Seq::empty()),
{
    assert(part_views(parts.push(part)) =~= part_views(parts).push(part@));
    assert(file_bytes(contents.push(Some(content))) =~= file_bytes(contents).push(content@));
    assert(file_bytes(contents.push(None)) =~= file_bytes(contents).push(Seq::empty()));
}

/// What is there is seen, and where nothing is there nothing is.
pub proof fn what_is_there_is_seen(text: String, kind: char, size: u64)
    ensures
        opt_view(Some(text)) == Some(text@),
        opt_view(None) is None,
        fields_view(Some((kind, size, text))) == Some((kind, size, text@)),
        fields_view(None) is None,
{
}

} // verus!
