//! What a listing and its summary show.

use crate::listing::{
    bump, by_count, count_in, count_text, dir_lines, entries_text, extension, extensions,
    file_lines, keys_differ, occurrences, ranking_orders_and_keeps, ranking_text, summary_text,
    tally, tally_counts_all, tally_keys_differ,
};
use crate::number::decimal;
use crate::size::{rounded, rounding_is_nearest, significant, size_text, spacing};
use crate::text::at_most;
use crate::text_laws::{joining_adds_a_separator, last_index_is_last};
use vstd::prelude::*;

verus! {

/// The extension is what stands behind the last dot of a name, with that dot.
pub proof fn the_last_dot_begins_the_extension(stem: Seq<char>, ext: Seq<char>)
    requires
        !ext.contains('.'),
    ensures
        extension(stem.push('.') + ext) == seq!['.'] + ext,
        extension(ext) == "no ext"@,
{
    last_index_is_last(stem, '.', ext);
    assert((stem.push('.') + ext).skip(stem.len() as int) =~= seq!['.'] + ext);
}

/// Each file has the extension of its name.
pub proof fn each_file_has_its_extension(files: Seq<(Seq<char>, u64)>, i: int)
    requires
        0 <= i < files.len(),
    ensures
        extensions(files).len() == files.len(),
        extensions(files)[i] == extension(files[i].0),
{
}

proof fn lemma_occurrences(keys: Seq<Seq<char>>, key: Seq<char>)
    ensures
        occurrences(keys, key) == keys.to_multiset().count(key),
    decreases keys.len(),
{
    broadcast use vstd::seq_lib::group_to_multiset_ensures;

    if keys.len() > 0 {
        lemma_occurrences(keys.drop_last(), key);
        assert(keys =~= keys.drop_last().push(keys.last()));
    }
}

proof fn lemma_count_in(t: Seq<(Seq<char>, nat)>, i: int)
    requires
        keys_differ(t),
        0 <= i < t.len(),
    ensures
        count_in(t, t[i].0) == t[i].1,
    decreases t.len(),
{
    if i > 0 {
        let rest = t.drop_first();
        assert forall|a: int, b: int| 0 <= a < b < rest.len() implies (#[trigger] rest[a]).0 != (
        #[trigger] rest[b]).0 by {
            assert(t[a + 1].0 != t[b + 1].0);
        }
        assert(t[0].0 != t[i].0);
        lemma_count_in(rest, i - 1);
    }
}

proof fn lemma_counted(t: Seq<(Seq<char>, nat)>, key: Seq<char>)
    requires
        count_in(t, key) > 0,
    ensures
        exists|i: int| 0 <= i < t.len() && (#[trigger] t[i]).0 == key,
    decreases t.len(),
{
    if t.len() > 0 && t[0].0 != key {
        lemma_counted(t.drop_first(), key);
        let i = choose|i: int|
            0 <= i < t.drop_first().len() && (#[trigger] t.drop_first()[i]).0 == key;
        assert(t[i + 1].0 == key);
    } else if t.len() > 0 {
        assert(t[0].0 == key);
    }
}

proof fn lemma_bump_positive(t: Seq<(Seq<char>, nat)>, key: Seq<char>)
    requires
        forall|i: int| 0 <= i < t.len() ==> (#[trigger] t[i]).1 > 0,
    ensures
        forall|i: int| 0 <= i < bump(t, key).len() ==> (#[trigger] bump(t, key)[i]).1 > 0,
    decreases t.len(),
{
    if t.len() > 0 && t[0].0 != key {
        let rest = t.drop_first();
        assert forall|i: int| 0 <= i < rest.len() implies (#[trigger] rest[i]).1 > 0 by {
            assert(rest[i] == t[i + 1]);
        }
        lemma_bump_positive(rest, key);
        let b = bump(t, key);
        assert forall|i: int| 0 <= i < b.len() implies (#[trigger] b[i]).1 > 0 by {
            if i > 0 {
                assert(b[i] == bump(rest, key)[i - 1]);
            } else {
                assert(t[0].1 > 0);
            }
        }
    }
}

proof fn lemma_tally_positive(keys: Seq<Seq<char>>)
    ensures
        forall|i: int| 0 <= i < tally(keys).len() ==> (#[trigger] tally(keys)[i]).1 > 0,
    decreases keys.len(),
{
    if keys.len() > 0 {
        lemma_tally_positive(keys.drop_last());
        lemma_bump_positive(tally(keys.drop_last()), keys.last());
    }
}

/// A tally holds each key that occurs, once, with the number of its occurrences,
/// and no other key.
pub proof fn a_tally_counts_what_occurs(keys: Seq<Seq<char>>)
    ensures
        forall|i: int|
            0 <= i < tally(keys).len() ==> (#[trigger] tally(keys)[i]).1 > 0 && tally(keys)[i].1
                == keys.to_multiset().count(tally(keys)[i].0),
        forall|k: int|
            0 <= k < keys.len() ==> exists|i: int|
                0 <= i < tally(keys).len() && (#[trigger] tally(keys)[i]).0 == #[trigger] keys[k],
        forall|i: int, j: int|
            0 <= i < j < tally(keys).len() ==> (#[trigger] tally(keys)[i]).0 != (
            #[trigger] tally(keys)[j]).0,
{
    broadcast use vstd::seq_lib::group_to_multiset_ensures;

    let t = tally(keys);
    tally_keys_differ(keys);
    lemma_tally_positive(keys);
    assert forall|i: int| 0 <= i < t.len() implies (#[trigger] t[i]).1
        == keys.to_multiset().count(t[i].0) by {
        lemma_count_in(t, i);
        tally_counts_all(keys, t[i].0);
        lemma_occurrences(keys, t[i].0);
    }
    assert forall|k: int| 0 <= k < keys.len() implies exists|i: int|
        0 <= i < t.len() && (#[trigger] t[i]).0 == #[trigger] keys[k] by {
        tally_counts_all(keys, keys[k]);
        lemma_occurrences(keys, keys[k]);
        assert(keys.contains(keys[k]));
        lemma_counted(t, keys[k]);
    }
}

/// A directory is shown by its name and a slash, on a line of its own behind
/// those before it. Without directories and files one line says so.
pub proof fn a_directory_is_one_line(dirs: Seq<(Seq<char>, u64)>, name: Seq<char>, size: u64)
    ensures
        entries_text(Seq::empty(), Seq::empty()) == "(empty)\n"@,
        entries_text(dirs.push((name, size)), Seq::empty()) == if dirs.len() == 0 {
            name + "/\n"@
        } else {
            entries_text(dirs, Seq::empty()) + (name + "/\n"@)
        },
{
    let all = dirs.push((name, size));
    assert(all.drop_last() =~= dirs);
    assert(file_lines(Seq::empty()) =~= Seq::empty());
    assert(dir_lines(all) + Seq::<char>::empty() =~= dir_lines(all));
    assert(dir_lines(dirs) + Seq::<char>::empty() =~= dir_lines(dirs));
    if dirs.len() == 0 {
        assert(dir_lines(all) =~= name + "/\n"@);
    }
}

/// A file is shown by its name, two spaces and its size, on a line of its own
/// behind those before it and behind all directories.
pub proof fn a_file_is_one_line(
    dirs: Seq<(Seq<char>, u64)>,
    files: Seq<(Seq<char>, u64)>,
    name: Seq<char>,
    size: u64,
)
    ensures
        entries_text(dirs, files.push((name, size))) == if dirs.len() == 0 && files.len() == 0 {
            name + "  "@ + size_text(size as nat) + "\n"@
        } else {
            entries_text(dirs, files) + (name + "  "@ + size_text(size as nat) + "\n"@)
        },
{
    let all = files.push((name, size));
    let line = name + "  "@ + size_text(size as nat) + "\n"@;
    assert(all.drop_last() =~= files);
    assert(dir_lines(dirs) + (file_lines(files) + line) =~= dir_lines(dirs) + file_lines(files)
        + line);
    if dirs.len() == 0 && files.len() == 0 {
        assert(dir_lines(dirs) + file_lines(all) =~= line);
    }
}

/// Up to five extensions are shown, each with its count before it. How many more
/// there are is said behind the fifth.
pub proof fn five_extensions_are_shown(t: Seq<(Seq<char>, nat)>, ext: Seq<char>, n: nat)
    ensures
        ranking_text(Seq::empty()) == Seq::<char>::empty(),
        t.len() == 0 ==> ranking_text(t.push((ext, n))) == decimal(n) + " "@ + ext,
        1 <= t.len() < 5 ==> ranking_text(t.push((ext, n))) == ranking_text(t) + ", "@ + (decimal(n)
            + " "@ + ext),
        t.len() >= 5 ==> ranking_text(t.push((ext, n))) == ranking_text(t.take(5)) + ", +"@
            + decimal((t.len() - 4) as nat) + " more"@,
{
    let all = t.push((ext, n));
    let one = |x: (Seq<char>, nat)| decimal(x.1) + " "@ + x.0;
    if t.len() < 5 {
        let texts = Seq::new(t.len(), |i: int| count_text(t[i]));
        joining_adds_a_separator(texts, one((ext, n)), ", "@);
        assert(Seq::new(all.len(), |i: int| count_text(all[i])) =~= texts.push(
            one((ext, n)),
        ));
        assert(at_most(all, 5) =~= all);
        assert(at_most(t, 5) =~= t);
        assert(texts.len() == 0 ==> texts =~= Seq::empty());
    } else {
        assert(at_most(all, 5) =~= t.take(5));
        assert(at_most(t.take(5), 5) =~= t.take(5));
    }
    joining_adds_a_separator(Seq::empty(), ext, ", "@);
    assert(Seq::new(0, |i: int| count_text(Seq::<(Seq<char>, nat)>::empty()[i]))
        =~= Seq::<Seq<char>>::empty());
    assert(at_most(Seq::<(Seq<char>, nat)>::empty(), 5) =~= Seq::empty());
}

/// The summary says how many files and directories there are, and ranks the
/// extensions of the files. There is none where there is nothing to sum up.
pub proof fn the_summary_counts_files_and_directories(
    dirs: Seq<(Seq<char>, u64)>,
    files: Seq<(Seq<char>, u64)>,
)
    ensures
        summary_text(dirs, files).len() == 0 <==> dirs.len() == 0 && files.len() == 0,
        dirs.len() > 0 && files.len() == 0 ==> summary_text(dirs, files) == "\nSummary: "@ + decimal(
            0,
        ) + " files, "@ + decimal(dirs.len()) + " dirs"@ + "\n"@,
        files.len() > 0 ==> summary_text(dirs, files) == "\nSummary: "@ + decimal(files.len())
            + " files, "@ + decimal(dirs.len()) + " dirs"@ + " ("@ + ranking_text(
            by_count(tally(extensions(files))),
        ) + ")"@ + "\n"@,
{
    reveal_strlit("\n");
}

/// Of two numbers that are as near, the even one is taken.
pub proof fn halves_go_to_the_even_number(n: nat, d: nat)
    requires
        d > 0,
    ensures
        2 * n == 2 * (rounded(n, d) * d) + d || 2 * n + d == 2 * (rounded(n, d) * d) ==> rounded(
            n,
            d,
        ) % 2 == 0,
{
    let (q, r) = (n / d, n % d);
    assert(q * d + r == n && r < d) by (nonlinear_arith)
        requires
            d > 0,
            q == n / d,
            r == n % d,
    ;
    assert((q + 1) * d == q * d + d) by (nonlinear_arith);
}

/// A size below one kibibyte is shown as it is.
pub proof fn small_sizes_are_shown_in_bytes(bytes: nat)
    requires
        bytes < 1024,
    ensures
        size_text(bytes) == decimal(bytes) + "B"@,
{
}

/// A size from one kibibyte to one mebibyte is shown in kibibytes, to the nearest
/// tenth, and where two are as near, to the even one.
pub proof fn middle_sizes_are_shown_in_kibibytes(bytes: nat) -> (t: nat)
    requires
        1024 <= bytes < 1024 * 1024,
    ensures
        size_text(bytes) == decimal(t / 10) + "."@ + decimal(t % 10) + "K"@,
        2048 * t <= 20 * bytes + 1024,
        20 * bytes <= 2048 * t + 1024,
        2048 * t == 20 * bytes + 1024 || 2048 * t + 1024 == 20 * bytes ==> t % 2 == 0,
{
    rounding_is_nearest(10 * bytes, 1024);
    halves_go_to_the_even_number(10 * bytes, 1024);
    rounded(10 * bytes, 1024)
}

/// A larger size is shown in mebibytes, in the same way, once it has been brought
/// to 53 significant bits.
pub proof fn large_sizes_are_shown_in_mebibytes(bytes: nat) -> (t: nat)
    requires
        bytes >= 1024 * 1024,
    ensures
        size_text(bytes) == decimal(t / 10) + "."@ + decimal(t % 10) + "M"@,
        2_097_152 * t <= 20 * significant(bytes) + 1_048_576,
        20 * significant(bytes) <= 2_097_152 * t + 1_048_576,
        2_097_152 * t == 20 * significant(bytes) + 1_048_576 || 2_097_152 * t + 1_048_576
            == 20 * significant(bytes) ==> t % 2 == 0,
{
    lemma_nearest_tenth(significant(bytes));
    rounded(10 * significant(bytes), 1_048_576)
}

proof fn lemma_nearest_tenth(n: nat)
    ensures
        ({
            let t = rounded(10 * n, 1_048_576);
            &&& 2_097_152 * t <= 20 * n + 1_048_576
            &&& 20 * n <= 2_097_152 * t + 1_048_576
            &&& 2_097_152 * t == 20 * n + 1_048_576 || 2_097_152 * t + 1_048_576 == 20 * n ==> t % 2
                == 0
        }),
{
    rounding_is_nearest(10 * n, 1_048_576);
    halves_go_to_the_even_number(10 * n, 1_048_576);
}

/// Bringing a number to 53 significant bits leaves the smaller ones as they are,
/// and takes of the others the nearest multiple of a power of two, of which there
/// are between half of `2^53` and `2^53` in the number.
pub proof fn significant_bits_are_kept(n: nat)
    ensures
        n < 0x20_0000_0000_0000 ==> significant(n) == n,
        n >= 0x20_0000_0000_0000 ==> 0x10_0000_0000_0000 * spacing(n, 1) <= n
            < 0x20_0000_0000_0000 * spacing(n, 1),
        2 * significant(n) <= 2 * n + spacing(n, 1),
        2 * n <= 2 * significant(n) + spacing(n, 1),
        significant(n) % spacing(n, 1) == 0,
{
    lemma_spacing(n, 1);
    let u = spacing(n, 1);
    rounding_is_nearest(n, u);
    assert((rounded(n, u) * u) % u == 0) by (nonlinear_arith)
        requires
            u > 0,
    ;
    if n < 0x20_0000_0000_0000 {
        assert(u == 1);
        assert(rounded(n, 1) == n);
    }
}

proof fn lemma_spacing(n: nat, u: nat)
    requires
        u > 0,
        n < 0x20_0000_0000_0000 * u || 0x20_0000_0000_0000 * u <= n,
    ensures
        spacing(n, u) >= u,
        n < 0x20_0000_0000_0000 * spacing(n, u),
        0x20_0000_0000_0000 * u <= n ==> 0x10_0000_0000_0000 * spacing(n, u) <= n,
    decreases n + 1 - u,
{
    if 0x20_0000_0000_0000 * u <= n {
        lemma_spacing(n, 2 * u);
    }
}

/// What is ranked first occurs at least as often as what follows it, and all is
/// ranked.
pub proof fn the_most_frequent_comes_first(t: Seq<(Seq<char>, nat)>, i: int, j: int)
    requires
        0 <= i < j < t.len(),
    ensures
        by_count(t).len() == t.len(),
        by_count(t)[i].1 >= by_count(t)[j].1,
        by_count(t).to_multiset() == t.to_multiset(),
{
    broadcast use vstd::seq_lib::group_to_multiset_ensures;

    ranking_orders_and_keeps(t);
    assert(by_count(t).to_multiset().len() == by_count(t).len());
    assert(t.to_multiset().len() == t.len());
}

} // verus!
