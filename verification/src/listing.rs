//! Compact listings of directories and files, with a summary.

use crate::number::{decimal, decimal_holds_digits, is_digit, push_decimal};
use crate::size::{human_size, rounded, significant, size_text, tenths_text};
use crate::sort::row_views;
use crate::text::{
    at_most, chars_of, find_last, join, joined, last_index, lemma_line_feeds_append,
    lemma_no_line_feeds, line_feeds, same_text, string_of, views,
};
use vstd::prelude::*;

verus! {

/// The extension of a file name, its dot included.
pub open spec fn extension(name: Seq<char>) -> Seq<char> {
    match last_index(name, '.') {
        Some(i) => name.skip(i),
        None => "no ext"@,
    }
}

/// Finds the extension of a file name.
pub fn extension_of(name: &str) -> (r: String)
    ensures
        r@ == extension(name@),
{
    let cs = chars_of(name);
    assert(cs@.take(cs.len() as int) =~= cs@);
    match find_last(&cs, cs.len(), '.') {
        Some(i) => {
            let r = string_of(&cs, i, cs.len());
            assert(r@ =~= name@.skip(i as int));
            r
        },
        None => "no ext".to_owned(),
    }
}

/// The extensions of the named rows.
pub open spec fn extensions(files: Seq<(Seq<char>, u64)>) -> Seq<Seq<char>> {
    Seq::new(files.len(), |i: int| extension(files[i].0))
}

/// The texts and numbers of a tally.
pub open spec fn tally_views(t: Seq<(String, usize)>) -> Seq<(Seq<char>, nat)> {
    Seq::new(t.len(), |i: int| (t[i].0@, t[i].1 as nat))
}

/// A tally in which `key` counts once more.
pub open spec fn bump(t: Seq<(Seq<char>, nat)>, key: Seq<char>) -> Seq<(Seq<char>, nat)>
    decreases t.len(),
{
    if t.len() == 0 {
        seq![(key, 1)]
    } else if t[0].0 == key {
        t.update(0, (key, t[0].1 + 1))
    } else {
        seq![t[0]] + bump(t.drop_first(), key)
    }
}

/// How often each of `keys` occurs, in the order in which they first occur.
pub open spec fn tally(keys: Seq<Seq<char>>) -> Seq<(Seq<char>, nat)>
    decreases keys.len(),
{
    if keys.len() == 0 {
        Seq::empty()
    } else {
        bump(tally(keys.drop_last()), keys.last())
    }
}

/// A ranking with `x` behind the last that counts as often or more.
pub open spec fn insert_count(t: Seq<(Seq<char>, nat)>, x: (Seq<char>, nat)) -> Seq<
    (Seq<char>, nat),
>
    decreases t.len(),
{
    if t.len() == 0 || t.last().1 >= x.1 {
        t.push(x)
    } else {
        insert_count(t.drop_last(), x).push(t.last())
    }
}

/// A tally with the most frequent first; among equals, the order is kept.
pub open spec fn by_count(t: Seq<(Seq<char>, nat)>) -> Seq<(Seq<char>, nat)>
    decreases t.len(),
{
    if t.len() == 0 {
        t
    } else {
        insert_count(by_count(t.drop_last()), t.last())
    }
}

fn count_key(t: &mut Vec<(String, usize)>, key: String, limit: usize)
    requires
        forall|i: int| 0 <= i < old(t)@.len() ==> (#[trigger] old(t)@[i]).1 < limit,
        0 < limit,
    ensures
        tally_views(final(t)@) == bump(tally_views(old(t)@), key@),
        forall|i: int| 0 <= i < final(t)@.len() ==> (#[trigger] final(t)@[i]).1 <= limit,
{
    let ghost before = tally_views(t@);
    let mut i: usize = 0;
    proof {
        assert(before.skip(0) =~= before);
        assert(before.take(0) + bump(before, key@) =~= bump(before, key@));
    }
    while i < t.len()
        invariant
            i <= t.len(),
            t@ == old(t)@,
            before == tally_views(t@),
            forall|j: int| 0 <= j < t@.len() ==> (#[trigger] t@[j]).1 < limit,
            bump(before, key@) == before.take(i as int) + bump(before.skip(i as int), key@),
        decreases t.len() - i,
    {
        let ghost rest = before.skip(i as int);
        assert(rest[0] == (t@[i as int].0@, t@[i as int].1 as nat));
        if same_text(t[i].0.as_str(), key.as_str()) {
            let n = t[i].1;
            t.set(i, (key, n + 1));
            proof {
                assert(tally_views(t@) =~= before.update(i as int, (key@, (n + 1) as nat)));
                assert(before.take(i as int) + rest.update(0, (key@, (n + 1) as nat))
                    =~= tally_views(t@));
            }
            return;
        }
        proof {
            assert(rest.drop_first() =~= before.skip(i + 1));
            assert(before.take(i as int) + (seq![rest[0]] + bump(before.skip(i + 1), key@))
                =~= before.take(i + 1) + bump(before.skip(i + 1), key@));
        }
        i = i + 1;
    }
    proof {
        assert(bump(before.skip(i as int), key@) =~= seq![(key@, 1nat)]);
        assert(before.take(i as int) =~= before);
    }
    t.push((key, 1));
    assert(tally_views(t@) =~= before + seq![(key@, 1nat)]);
}

/// Counts the extensions of files.
pub fn count_extensions(files: &Vec<(String, u64)>) -> (r: Vec<(String, usize)>)
    ensures
        tally_views(r@) == tally(extensions(row_views(files@))),
{
    let ghost keys = extensions(row_views(files@));
    let mut t: Vec<(String, usize)> = Vec::new();
    let mut i: usize = 0;
    assert(keys.take(0) =~= Seq::empty());
    assert(tally_views(t@) =~= Seq::empty());
    while i < files.len()
        invariant
            i <= files.len(),
            keys == extensions(row_views(files@)),
            forall|j: int| 0 <= j < t@.len() ==> (#[trigger] t@[j]).1 <= i,
            tally_views(t@) == tally(keys.take(i as int)),
        decreases files.len() - i,
    {
        let key = extension_of(files[i].0.as_str());
        proof {
            assert(keys.take(i + 1).drop_last() =~= keys.take(i as int));
            assert(keys.take(i + 1).last() == key@);
        }
        i = i + 1;
        count_key(&mut t, key, i);
    }
    assert(keys.take(keys.len() as int) =~= keys);
    t
}

/// Puts a tally in the order of its counts, the most frequent first.
pub fn ranked(t: Vec<(String, usize)>) -> (r: Vec<(String, usize)>)
    ensures
        tally_views(r@) == by_count(tally_views(t@)),
{
    let ghost all = tally_views(t@);
    let mut rest = t;
    let mut reversed: Vec<(String, usize)> = Vec::new();
    while rest.len() > 0
        invariant
            all == tally_views(rest@) + tally_views(reversed@).reverse(),
        decreases rest.len(),
    {
        let ghost a = tally_views(rest@);
        let ghost b = tally_views(reversed@);
        match rest.pop() {
            Some(x) => {
                reversed.push(x);
                proof {
                    assert(tally_views(rest@) =~= a.drop_last());
                    assert(tally_views(reversed@) =~= b.push(a.last()));
                    assert(a + b.reverse() =~= a.drop_last() + b.push(a.last()).reverse());
                }
            },
            None => {},
        }
    }
    let mut out: Vec<(String, usize)> = Vec::new();
    proof {
        assert(all =~= tally_views(reversed@).reverse());
        assert(all.take(0) =~= Seq::empty());
        assert(tally_views(out@) =~= Seq::empty());
    }
    while reversed.len() > 0
        invariant
            reversed.len() <= all.len(),
            all.skip(all.len() - reversed.len()) == tally_views(reversed@).reverse(),
            tally_views(out@) == by_count(all.take(all.len() - reversed.len())),
        decreases reversed.len(),
    {
        let ghost done = all.len() - reversed.len();
        let ghost left = tally_views(reversed@);
        match reversed.pop() {
            Some(x) => {
                proof {
                    assert(all.skip(done)[0] == left.last());
                    assert(left.last() == (x.0@, x.1 as nat));
                    assert(tally_views(reversed@) =~= left.drop_last());
                    assert(all.skip(done + 1) =~= tally_views(reversed@).reverse()) by {
                        assert(all.skip(done + 1) =~= all.skip(done).drop_first());
                    }
                    assert(all.take(done + 1).drop_last() =~= all.take(done));
                    assert(all.take(done + 1).last() == all.skip(done)[0]);
                }
                insert_ranked(&mut out, x);
            },
            None => {},
        }
    }
    assert(all.take(all.len() as int) =~= all);
    out
}

fn insert_ranked(t: &mut Vec<(String, usize)>, x: (String, usize))
    ensures
        tally_views(final(t)@) == insert_count(tally_views(old(t)@), (x.0@, x.1 as nat)),
{
    let ghost v = tally_views(t@);
    let ghost vx = (x.0@, x.1 as nat);
    let mut p: usize = t.len();
    proof {
        assert(v.take(v.len() as int) =~= v);
        assert(insert_count(v, vx) + v.skip(v.len() as int) =~= insert_count(v, vx));
    }
    while p > 0 && t[p - 1].1 < x.1
        invariant
            p <= t.len(),
            t@ == old(t)@,
            v == tally_views(t@),
            vx == (x.0@, x.1 as nat),
            insert_count(v, vx) == insert_count(v.take(p as int), vx) + v.skip(p as int),
        decreases p,
    {
        proof {
            let here = v.take(p as int);
            let q = p - 1;
            assert(here.drop_last() =~= v.take(q));
            assert(here.last() == v[q]);
            assert(insert_count(v.take(q), vx).push(v[q]) + v.skip(p as int) =~= insert_count(
                v.take(q),
                vx,
            ) + v.skip(q));
        }
        p = p - 1;
    }
    proof {
        assert(v.take(p as int).push(vx) + v.skip(p as int) =~= v.insert(p as int, vx));
    }
    t.insert(p, x);
    assert(tally_views(t@) =~= v.insert(p as int, vx));
}

/// One line for each directory.
pub open spec fn dir_lines(dirs: Seq<(Seq<char>, u64)>) -> Seq<char>
    decreases dirs.len(),
{
    if dirs.len() == 0 {
        Seq::empty()
    } else {
        dir_lines(dirs.drop_last()) + (dirs.last().0 + "/\n"@)
    }
}

/// One line for each file, with its size.
pub open spec fn file_lines(files: Seq<(Seq<char>, u64)>) -> Seq<char>
    decreases files.len(),
{
    if files.len() == 0 {
        Seq::empty()
    } else {
        file_lines(files.drop_last()) + (files.last().0 + "  "@ + size_text(files.last().1 as nat)
            + "\n"@)
    }
}

/// The listing: the directories, then the files.
pub open spec fn entries_text(
    dirs: Seq<(Seq<char>, u64)>,
    files: Seq<(Seq<char>, u64)>,
) -> Seq<char> {
    if dirs.len() == 0 && files.len() == 0 {
        "(empty)\n"@
    } else {
        dir_lines(dirs) + file_lines(files)
    }
}

/// How often an extension occurs.
pub open spec fn count_text(x: (Seq<char>, nat)) -> Seq<char> {
    decimal(x.1) + " "@ + x.0
}

/// The most frequent extensions, five at most, and how many more there are.
pub open spec fn ranking_text(t: Seq<(Seq<char>, nat)>) -> Seq<char> {
    let shown = at_most(t, 5);
    let list = join(Seq::new(shown.len(), |i: int| count_text(shown[i])), ", "@);
    if t.len() > 5 {
        list + ", +"@ + decimal((t.len() - 5) as nat) + " more"@
    } else {
        list
    }
}

/// The summary: how many files and directories there are, and of which
/// extensions the files are.
pub open spec fn summary_text(
    dirs: Seq<(Seq<char>, u64)>,
    files: Seq<(Seq<char>, u64)>,
) -> Seq<char> {
    let head = "\nSummary: "@ + decimal(files.len()) + " files, "@ + decimal(dirs.len()) + " dirs"@;
    if dirs.len() == 0 && files.len() == 0 {
        Seq::empty()
    } else if files.len() == 0 {
        head + "\n"@
    } else {
        head + " ("@ + ranking_text(by_count(tally(extensions(files)))) + ")"@ + "\n"@
    }
}

fn push_dir_lines(out: &mut String, dirs: &Vec<(String, u64)>)
    ensures
        final(out)@ == old(out)@ + dir_lines(row_views(dirs@)),
{
    let ghost rows = row_views(dirs@);
    let mut i: usize = 0;
    assert(rows.take(0) =~= Seq::empty());
    assert(old(out)@ + dir_lines(rows.take(0)) =~= old(out)@);
    while i < dirs.len()
        invariant
            i <= dirs.len(),
            rows == row_views(dirs@),
            out@ == old(out)@ + dir_lines(rows.take(i as int)),
        decreases dirs.len() - i,
    {
        out.append(dirs[i].0.as_str());
        out.append("/\n");
        proof {
            let next = rows.take(i + 1);
            assert(next.drop_last() =~= rows.take(i as int));
            assert(next.last() == rows[i as int]);
            assert(out@ =~= old(out)@ + dir_lines(next));
        }
        i = i + 1;
    }
    assert(rows.take(rows.len() as int) =~= rows);
}

fn push_file_lines(out: &mut String, files: &Vec<(String, u64)>)
    ensures
        final(out)@ == old(out)@ + file_lines(row_views(files@)),
{
    let ghost rows = row_views(files@);
    let mut i: usize = 0;
    assert(rows.take(0) =~= Seq::empty());
    assert(old(out)@ + file_lines(rows.take(0)) =~= old(out)@);
    while i < files.len()
        invariant
            i <= files.len(),
            rows == row_views(files@),
            out@ == old(out)@ + file_lines(rows.take(i as int)),
        decreases files.len() - i,
    {
        let size = human_size(files[i].1);
        out.append(files[i].0.as_str());
        out.append("  ");
        out.append(size.as_str());
        out.append("\n");
        proof {
            let next = rows.take(i + 1);
            assert(next.drop_last() =~= rows.take(i as int));
            assert(next.last() == rows[i as int]);
            assert(out@ =~= old(out)@ + file_lines(next));
        }
        i = i + 1;
    }
    assert(rows.take(rows.len() as int) =~= rows);
}

fn push_ranking(out: &mut String, t: &Vec<(String, usize)>)
    ensures
        final(out)@ == old(out)@ + ranking_text(tally_views(t@)),
{
    let ghost all = tally_views(t@);
    let ghost shown = at_most(all, 5);
    let ghost texts = Seq::new(shown.len(), |i: int| count_text(shown[i]));
    let mut list: Vec<String> = Vec::new();
    let mut i: usize = 0;
    while i < t.len() && i < 5
        invariant
            i <= t.len(),
            i <= 5,
            all == tally_views(t@),
            shown == at_most(all, 5),
            texts == Seq::new(shown.len(), |i: int| count_text(shown[i])),
            views(list@) == texts.take(i as int),
        decreases 5 - i,
    {
        let ghost before = list@;
        let mut part = String::new();
        push_decimal(&mut part, t[i].1 as u64);
        part.append(" ");
        part.append(t[i].0.as_str());
        proof {
            assert(shown[i as int] == all[i as int]);
            assert(part@ =~= count_text(all[i as int]));
            assert(texts.take(i + 1) =~= texts.take(i as int).push(part@));
        }
        list.push(part);
        assert(views(list@) =~= views(before).push(part@));
        i = i + 1;
    }
    assert(texts.take(texts.len() as int) =~= texts);
    let text = joined(list.as_slice(), ", ");
    out.append(text.as_str());
    if t.len() > 5 {
        out.append(", +");
        push_decimal(out, (t.len() - 5) as u64);
        out.append(" more");
    }
    assert(out@ =~= old(out)@ + ranking_text(all));
}

/// Lists directories and files, and sums them up. Without any the summary is
/// empty.
pub fn render_listing(dirs: &Vec<(String, u64)>, files: &Vec<(String, u64)>) -> (r: (
    String,
    String,
))
    ensures
        r.0@ == entries_text(row_views(dirs@), row_views(files@)),
        r.1@ == summary_text(row_views(dirs@), row_views(files@)),
{
    if dirs.len() == 0 && files.len() == 0 {
        return ("(empty)\n".to_owned(), String::new());
    }
    let mut entries = String::new();
    push_dir_lines(&mut entries, dirs);
    push_file_lines(&mut entries, files);
    assert(entries@ =~= entries_text(row_views(dirs@), row_views(files@)));
    let mut summary = "\nSummary: ".to_owned();
    push_decimal(&mut summary, files.len() as u64);
    summary.append(" files, ");
    push_decimal(&mut summary, dirs.len() as u64);
    summary.append(" dirs");
    if files.len() > 0 {
        let counted = count_extensions(files);
        let order = ranked(counted);
        summary.append(" (");
        push_ranking(&mut summary, &order);
        summary.append(")");
    }
    summary.append("\n");
    (entries, summary)
}

/// How often `key` occurs among `keys`.
pub open spec fn occurrences(keys: Seq<Seq<char>>, key: Seq<char>) -> nat
    decreases keys.len(),
{
    if keys.len() == 0 {
        0
    } else if keys.last() == key {
        occurrences(keys.drop_last(), key) + 1
    } else {
        occurrences(keys.drop_last(), key)
    }
}

/// The count of `key` in a tally.
pub open spec fn count_in(t: Seq<(Seq<char>, nat)>, key: Seq<char>) -> nat
    decreases t.len(),
{
    if t.len() == 0 {
        0
    } else if t[0].0 == key {
        t[0].1
    } else {
        count_in(t.drop_first(), key)
    }
}

/// The sum of the counts of a tally.
pub open spec fn total_count(t: Seq<(Seq<char>, nat)>) -> nat
    decreases t.len(),
{
    if t.len() == 0 {
        0
    } else {
        t[0].1 + total_count(t.drop_first())
    }
}

proof fn lemma_bump(t: Seq<(Seq<char>, nat)>, key: Seq<char>, other: Seq<char>)
    ensures
        count_in(bump(t, key), other) == count_in(t, other) + if other == key {
            1nat
        } else {
            0nat
        },
        total_count(bump(t, key)) == total_count(t) + 1,
    decreases t.len(),
{
    let b = bump(t, key);
    if t.len() == 0 {
        assert(b.drop_first() =~= Seq::empty());
        assert(count_in(Seq::empty(), other) == 0);
        assert(total_count(Seq::empty()) == 0);
    } else if t[0].0 == key {
        assert(b.drop_first() =~= t.drop_first());
    } else {
        assert(b.drop_first() =~= bump(t.drop_first(), key));
        lemma_bump(t.drop_first(), key, other);
    }
}

/// A tally counts each key as often as it occurs, and all keys in all.
pub proof fn tally_counts_all(keys: Seq<Seq<char>>, key: Seq<char>)
    ensures
        count_in(tally(keys), key) == occurrences(keys, key),
        total_count(tally(keys)) == keys.len(),
    decreases keys.len(),
{
    if keys.len() > 0 {
        tally_counts_all(keys.drop_last(), key);
        lemma_bump(tally(keys.drop_last()), keys.last(), key);
    }
}

/// Whether each key stands in a tally once at most.
pub open spec fn keys_differ(t: Seq<(Seq<char>, nat)>) -> bool {
    forall|i: int, j: int|
        0 <= i < j < t.len() ==> (#[trigger] t[i]).0 != (#[trigger] t[j]).0
}

proof fn lemma_bump_keys(t: Seq<(Seq<char>, nat)>, key: Seq<char>)
    requires
        keys_differ(t),
    ensures
        keys_differ(bump(t, key)),
        forall|i: int|
            0 <= i < bump(t, key).len() ==> (#[trigger] bump(t, key)[i]).0 == key || exists|j: int|
                0 <= j < t.len() && (#[trigger] t[j]).0 == bump(t, key)[i].0,
    decreases t.len(),
{
    let b = bump(t, key);
    if t.len() == 0 {
    } else if t[0].0 == key {
        assert forall|i: int| 0 <= i < b.len() implies (#[trigger] b[i]).0 == key || exists|j: int|
            0 <= j < t.len() && (#[trigger] t[j]).0 == b[i].0 by {
            assert(t[i].0 == b[i].0);
        }
        assert forall|i: int, j: int| 0 <= i < j < b.len() implies (#[trigger] b[i]).0 != (
        #[trigger] b[j]).0 by {
            assert(t[i].0 != t[j].0);
        }
    } else {
        let rest = t.drop_first();
        let c = bump(rest, key);
        assert forall|i: int, j: int| 0 <= i < j < rest.len() implies (#[trigger] rest[i]).0 != (
        #[trigger] rest[j]).0 by {
            assert(t[i + 1].0 != t[j + 1].0);
        }
        lemma_bump_keys(rest, key);
        assert forall|i: int| 0 <= i < b.len() implies (#[trigger] b[i]).0 == key || exists|j: int|
            0 <= j < t.len() && (#[trigger] t[j]).0 == b[i].0 by {
            if i == 0 {
                assert(t[0].0 == b[0].0);
            } else {
                assert(b[i] == c[i - 1]);
                if c[i - 1].0 != key {
                    let j = choose|j: int|
                        0 <= j < rest.len() && (#[trigger] rest[j]).0 == c[i - 1].0;
                    assert(t[j + 1].0 == b[i].0);
                }
            }
        }
        assert forall|i: int, j: int| 0 <= i < j < b.len() implies (#[trigger] b[i]).0 != (
        #[trigger] b[j]).0 by {
            assert(b[j] == c[j - 1]);
            if i > 0 {
                assert(b[i] == c[i - 1]);
            } else if c[j - 1].0 != key {
                let k = choose|k: int| 0 <= k < rest.len() && (#[trigger] rest[k]).0 == c[j - 1].0;
                assert(t[0].0 != t[k + 1].0);
            }
        }
    }
}

/// No key stands in a tally twice.
pub proof fn tally_keys_differ(keys: Seq<Seq<char>>)
    ensures
        keys_differ(tally(keys)),
    decreases keys.len(),
{
    if keys.len() > 0 {
        tally_keys_differ(keys.drop_last());
        lemma_bump_keys(tally(keys.drop_last()), keys.last());
    }
}

/// Whether no count is larger than one before it.
pub open spec fn counts_fall(t: Seq<(Seq<char>, nat)>) -> bool {
    forall|i: int, j: int|
        0 <= i <= j < t.len() ==> (#[trigger] t[i]).1 >= (#[trigger] t[j]).1
}

proof fn lemma_insert_count(t: Seq<(Seq<char>, nat)>, x: (Seq<char>, nat))
    requires
        counts_fall(t),
    ensures
        counts_fall(insert_count(t, x)),
        insert_count(t, x).to_multiset() == t.to_multiset().insert(x),
        forall|i: int|
            0 <= i < insert_count(t, x).len() ==> #[trigger] insert_count(t, x)[i] == x || t.contains(
                insert_count(t, x)[i],
            ),
    decreases t.len(),
{
    broadcast use vstd::seq_lib::group_to_multiset_ensures;

    let r = insert_count(t, x);
    if t.len() == 0 || t.last().1 >= x.1 {
        assert forall|i: int, j: int| 0 <= i <= j < r.len() implies (#[trigger] r[i]).1 >= (
        #[trigger] r[j]).1 by {
            if j == t.len() && i < j {
                assert(t[i].1 >= t[t.len() - 1].1);
            }
        }
    } else {
        let front = t.drop_last();
        let last = t.last();
        lemma_insert_count(front, x);
        let q = insert_count(front, x);
        assert forall|i: int, j: int| 0 <= i <= j < r.len() implies (#[trigger] r[i]).1 >= (
        #[trigger] r[j]).1 by {
            if i < q.len() {
                assert(r[i] == q[i]);
                if q[i] != x {
                    let k = choose|k: int| 0 <= k < front.len() && front[k] == q[i];
                    assert(t[k] == q[i]);
                    assert(t[k].1 >= t[t.len() - 1].1);
                }
            }
            if j < q.len() {
                assert(r[j] == q[j]);
            }
        }
        assert forall|i: int| 0 <= i < r.len() implies #[trigger] r[i] == x || t.contains(r[i]) by {
            if i < q.len() {
                assert(r[i] == q[i]);
                if q[i] != x {
                    let k = choose|k: int| 0 <= k < front.len() && front[k] == q[i];
                    assert(t[k] == q[i]);
                }
            } else {
                assert(t[t.len() - 1] == r[i]);
            }
        }
        assert(t =~= front.push(last));
        assert(r.to_multiset() =~= t.to_multiset().insert(x));
    }
}

/// Ranking puts the most frequent first, and neither adds nor drops anything.
pub proof fn ranking_orders_and_keeps(t: Seq<(Seq<char>, nat)>)
    ensures
        counts_fall(by_count(t)),
        by_count(t).to_multiset() == t.to_multiset(),
    decreases t.len(),
{
    broadcast use vstd::seq_lib::group_to_multiset_ensures;

    if t.len() > 0 {
        ranking_orders_and_keeps(t.drop_last());
        lemma_insert_count(by_count(t.drop_last()), t.last());
        assert(t =~= t.drop_last().push(t.last()));
    }
}

/// Whether no name holds a line feed.
pub open spec fn names_are_lines(rows: Seq<(Seq<char>, u64)>) -> bool {
    forall|i: int| 0 <= i < rows.len() ==> !(#[trigger] rows[i]).0.contains('\n')
}

proof fn lemma_decimal_line_feeds(n: nat)
    ensures
        line_feeds(decimal(n)) == 0,
{
    decimal_holds_digits(n);
    assert forall|i: int| 0 <= i < decimal(n).len() implies decimal(n)[i] != '\n' by {
        assert(is_digit(decimal(n)[i]));
    }
    lemma_no_line_feeds(decimal(n));
}

proof fn lemma_literal_line_feeds()
    ensures
        line_feeds("/\n"@) == 1,
        line_feeds("\n"@) == 1,
        line_feeds("  "@) == 0,
        line_feeds("."@) == 0,
        line_feeds("M"@) == 0,
        line_feeds("K"@) == 0,
        line_feeds("B"@) == 0,
        line_feeds("(empty)\n"@) == 1,
{
    reveal_strlit("/\n");
    reveal_strlit("\n");
    reveal_strlit("  ");
    reveal_strlit(".");
    reveal_strlit("M");
    reveal_strlit("K");
    reveal_strlit("B");
    reveal_strlit("(empty)\n");
    lemma_no_line_feeds("  "@);
    lemma_no_line_feeds("."@);
    lemma_no_line_feeds("M"@);
    lemma_no_line_feeds("K"@);
    lemma_no_line_feeds("B"@);
    assert("/\n"@.drop_last() =~= seq!['/']);
    lemma_no_line_feeds(seq!['/']);
    assert("\n"@.drop_last() =~= Seq::empty());
    assert(line_feeds(Seq::empty()) == 0);
    let empty = "(empty)\n"@;
    assert forall|i: int| 0 <= i < empty.len() - 1 implies empty.drop_last()[i] != '\n' by {}
    lemma_no_line_feeds(empty.drop_last());
}

proof fn lemma_size_line_feeds(bytes: nat)
    ensures
        line_feeds(size_text(bytes)) == 0,
{
    lemma_literal_line_feeds();
    if bytes >= 1024 {
        let t = if bytes >= 1_048_576 {
            rounded(10 * significant(bytes), 1_048_576)
        } else {
            rounded(10 * bytes, 1024)
        };
        let unit = if bytes >= 1_048_576 {
            "M"@
        } else {
            "K"@
        };
        lemma_decimal_line_feeds(t / 10);
        lemma_decimal_line_feeds(t % 10);
        lemma_line_feeds_append(decimal(t / 10), "."@);
        lemma_line_feeds_append(decimal(t / 10) + "."@, decimal(t % 10));
        lemma_line_feeds_append(tenths_text(t), unit);
    } else {
        lemma_decimal_line_feeds(bytes);
        lemma_line_feeds_append(decimal(bytes), "B"@);
    }
}

proof fn lemma_dir_line_feeds(dirs: Seq<(Seq<char>, u64)>)
    requires
        names_are_lines(dirs),
    ensures
        line_feeds(dir_lines(dirs)) == dirs.len(),
    decreases dirs.len(),
{
    if dirs.len() > 0 {
        let name = dirs.last().0;
        assert forall|i: int| 0 <= i < dirs.len() - 1 implies !(
        #[trigger] dirs.drop_last()[i]).0.contains('\n') by {
            assert(!dirs[i].0.contains('\n'));
        }
        lemma_dir_line_feeds(dirs.drop_last());
        lemma_literal_line_feeds();
        assert(!dirs[dirs.len() - 1].0.contains('\n'));
        lemma_no_line_feeds(name);
        lemma_line_feeds_append(name, "/\n"@);
        lemma_line_feeds_append(dir_lines(dirs.drop_last()), name + "/\n"@);
    }
}

proof fn lemma_file_line_feeds(files: Seq<(Seq<char>, u64)>)
    requires
        names_are_lines(files),
    ensures
        line_feeds(file_lines(files)) == files.len(),
    decreases files.len(),
{
    if files.len() > 0 {
        let name = files.last().0;
        let size = size_text(files.last().1 as nat);
        assert forall|i: int| 0 <= i < files.len() - 1 implies !(
        #[trigger] files.drop_last()[i]).0.contains('\n') by {
            assert(!files[i].0.contains('\n'));
        }
        lemma_file_line_feeds(files.drop_last());
        lemma_literal_line_feeds();
        assert(!files[files.len() - 1].0.contains('\n'));
        lemma_no_line_feeds(name);
        lemma_size_line_feeds(files.last().1 as nat);
        lemma_line_feeds_append(name, "  "@);
        lemma_line_feeds_append(name + "  "@, size);
        lemma_line_feeds_append(name + "  "@ + size, "\n"@);
        lemma_line_feeds_append(
            file_lines(files.drop_last()),
            name + "  "@ + size + "\n"@,
        );
    }
}

/// A listing has one line for each directory and file, or one line that says
/// that there are none.
pub proof fn one_line_per_entry(dirs: Seq<(Seq<char>, u64)>, files: Seq<(Seq<char>, u64)>)
    requires
        names_are_lines(dirs),
        names_are_lines(files),
    ensures
        line_feeds(entries_text(dirs, files)) == if dirs.len() + files.len() == 0 {
            1
        } else {
            dirs.len() + files.len()
        },
{
    lemma_dir_line_feeds(dirs);
    lemma_file_line_feeds(files);
    lemma_line_feeds_append(dir_lines(dirs), file_lines(files));
    lemma_literal_line_feeds();
}

proof fn lemma_listing_ends(dirs: Seq<(Seq<char>, u64)>, files: Seq<(Seq<char>, u64)>)
    ensures
        dirs.len() > 0 ==> dir_lines(dirs).len() > 0 && dir_lines(dirs).last() == '\n',
        files.len() > 0 ==> file_lines(files).len() > 0 && file_lines(files).last() == '\n',
{
    reveal_strlit("/\n");
    reveal_strlit("\n");
}

/// A listing ends with a line feed, so that its lines can be counted by them.
pub proof fn listing_ends_with_line_feed(
    dirs: Seq<(Seq<char>, u64)>,
    files: Seq<(Seq<char>, u64)>,
)
    ensures
        entries_text(dirs, files).len() > 0,
        entries_text(dirs, files).last() == '\n',
{
    reveal_strlit("(empty)\n");
    lemma_listing_ends(dirs, files);
}

} // verus!
