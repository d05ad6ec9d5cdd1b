//! The date in a line of `ls -la`, such as ` Mar 31 16:18 ` or ` Dec 25  2024 `.

use crate::number::is_digit;
use crate::pattern::is_foreign_digit;
use crate::text::is_white_space;
use vstd::prelude::*;

verus! {

/// Whether `c` is a decimal digit of any script.
pub open spec fn is_decimal(c: char) -> bool {
    ||| is_digit(c)
    ||| c >= '\u{80}' && !is_white_space(c) && is_foreign_digit(c)
}

/// Whether `s` is the short name of a month.
pub open spec fn is_month(s: Seq<char>) -> bool {
    s == "Jan"@ || s == "Feb"@ || s == "Mar"@ || s == "Apr"@ || s == "May"@ || s == "Jun"@ || s
        == "Jul"@ || s == "Aug"@ || s == "Sep"@ || s == "Oct"@ || s == "Nov"@ || s == "Dec"@
}

/// Whether white space stands at the characters `from..to`, and nothing else.
pub open spec fn is_gap(text: Seq<char>, from: int, to: int) -> bool {
    from < to && forall|k: int| from <= k < to ==> is_white_space(#[trigger] text[k])
}

/// Whether decimal digits stand at the characters `from..to`, and nothing else.
pub open spec fn is_number(text: Seq<char>, from: int, to: int) -> bool {
    forall|k: int| from <= k < to ==> is_decimal(#[trigger] text[k])
}

/// Whether a year of four digits or a time of day stands at `from..to`.
pub open spec fn is_year_or_time(text: Seq<char>, from: int, to: int) -> bool {
    ||| to == from + 4 && is_number(text, from, to)
    ||| to == from + 5 && is_number(text, from, from + 2) && text[from + 2] == ':' && is_number(
        text,
        from + 3,
        to,
    )
}

/// Where the parts of a date stand.
pub struct DateParts {
    /// Where the month starts.
    pub month: int,
    /// Where the day starts.
    pub day: int,
    /// Where the day ends.
    pub day_end: int,
    /// Where the year or the time starts.
    pub clock: int,
    /// Where the year or the time ends.
    pub clock_end: int,
}

/// Whether a date with these parts stands at the characters `start..end`: a
/// month, a day of one or two digits, and a year or a time, with white space
/// around each of them.
pub open spec fn is_date(text: Seq<char>, start: int, p: DateParts, end: int) -> bool {
    &&& 0 <= start
    &&& end <= text.len()
    &&& is_gap(text, start, p.month)
    &&& is_month(text.subrange(p.month, p.month + 3))
    &&& is_gap(text, p.month + 3, p.day)
    &&& p.day < p.day_end <= p.day + 2
    &&& is_number(text, p.day, p.day_end)
    &&& is_gap(text, p.day_end, p.clock)
    &&& is_year_or_time(text, p.clock, p.clock_end)
    &&& is_gap(text, p.clock_end, end)
}

/// Whether a date stands at the characters `start..end`.
pub open spec fn date_at(text: Seq<char>, start: int, end: int) -> bool {
    exists|p: DateParts| #[trigger] is_date(text, start, p, end)
}

/// Whether the first date stands at the characters `start..end`: none starts
/// before it, and none that starts with it is longer.
pub open spec fn is_first_date(text: Seq<char>, start: int, end: int) -> bool {
    &&& date_at(text, start, end)
    &&& forall|i: int, j: int| #[trigger] date_at(text, i, j) ==> start <= i
    &&& forall|j: int| #[trigger] date_at(text, start, j) ==> j <= end
}

/// Where the first date stands.
pub open spec fn first_date(text: Seq<char>) -> Option<(int, int)> {
    if exists|i: int, j: int| is_first_date(text, i, j) {
        Some(choose|i: int, j: int| is_first_date(text, i, j))
    } else {
        None
    }
}

/// There is one first date at most.
pub proof fn first_date_is_one(text: Seq<char>, start: int, end: int)
    requires
        is_first_date(text, start, end),
    ensures
        first_date(text) == Some((start, end)),
{
    let (i, j) = first_date(text).unwrap();
    assert(is_first_date(text, i, j));
    assert(date_at(text, i, j) && date_at(text, start, end));
}

/// Where a date stands in a text, there is a first one.
pub proof fn some_date_is_first(text: Seq<char>, start: int, end: int)
    requires
        date_at(text, start, end),
    ensures
        first_date(text) is Some,
    decreases start, text.len() - end,
{
    let p = choose|p: DateParts| #[trigger] is_date(text, start, p, end);
    if exists|i: int, j: int| #[trigger] date_at(text, i, j) && i < start {
        let (i, j) = choose|i: int, j: int| #[trigger] date_at(text, i, j) && i < start;
        let q = choose|q: DateParts| #[trigger] is_date(text, i, q, j);
        some_date_is_first(text, i, j);
    } else if exists|j: int| #[trigger] date_at(text, start, j) && end < j {
        let j = choose|j: int| #[trigger] date_at(text, start, j) && end < j;
        let q = choose|q: DateParts| #[trigger] is_date(text, start, q, j);
        some_date_is_first(text, start, j);
    } else {
        assert(is_first_date(text, start, end));
    }
}

proof fn lemma_month(s: Seq<char>)
    requires
        is_month(s),
    ensures
        s.len() == 3,
        forall|k: int| 0 <= k < 3 ==> 'A' <= #[trigger] s[k] <= 'z',
{
    reveal_strlit("Jan");
    reveal_strlit("Feb");
    reveal_strlit("Mar");
    reveal_strlit("Apr");
    reveal_strlit("May");
    reveal_strlit("Jun");
    reveal_strlit("Jul");
    reveal_strlit("Aug");
    reveal_strlit("Sep");
    reveal_strlit("Oct");
    reveal_strlit("Nov");
    reveal_strlit("Dec");
}

proof fn lemma_month_letters(text: Seq<char>, start: int, p: DateParts, end: int)
    requires
        is_date(text, start, p, end),
    ensures
        start < p.month,
        p.month + 3 < p.day,
        p.day_end < p.clock,
        p.clock < p.clock_end < end,
        forall|k: int| p.month <= k < p.month + 3 ==> 'A' <= #[trigger] text[k] <= 'z',
{
    let m = text.subrange(p.month, p.month + 3);
    lemma_month(m);
    assert forall|k: int| p.month <= k < p.month + 3 implies 'A' <= #[trigger] text[k] <= 'z' by {
        assert(text[k] == m[k - p.month]);
    }
}

/// Two dates that start together differ at most in how much of the white space
/// behind them they take.
proof fn lemma_same_start(
    text: Seq<char>,
    start: int,
    p: DateParts,
    end: int,
    q: DateParts,
    to: int,
)
    requires
        is_date(text, start, p, end),
        is_date(text, start, q, to),
        end < to,
    ensures
        is_white_space(text[end]),
{
    lemma_month_letters(text, start, p, end);
    lemma_month_letters(text, start, q, to);
    assert(p.month == q.month) by {
        assert('A' <= text[p.month] <= 'z' && 'A' <= text[q.month] <= 'z');
    }
    assert(p.day == q.day) by {
        assert(is_decimal(text[p.day]) && is_decimal(text[q.day]));
    }
    assert(p.day_end == q.day_end) by {
        assert(is_white_space(text[p.day_end]) && is_white_space(text[q.day_end]));
        if p.day_end < q.day_end {
            assert(is_decimal(text[p.day_end]));
        }
        if q.day_end < p.day_end {
            assert(is_decimal(text[q.day_end]));
        }
    }
    assert(p.clock == q.clock) by {
        assert(is_decimal(text[p.clock]) && is_decimal(text[q.clock]));
    }
    assert(p.clock_end == q.clock_end) by {
        let c = text[p.clock + 2];
        assert(p.clock_end == p.clock + 4 ==> is_decimal(c));
        assert(q.clock_end == q.clock + 4 ==> is_decimal(c));
    }
}

/// A date takes all the white space that follows it.
pub proof fn first_date_is_greedy(text: Seq<char>, start: int, end: int)
    requires
        is_first_date(text, start, end),
        end < text.len(),
    ensures
        !is_white_space(text[end]),
{
    if is_white_space(text[end]) {
        let p = choose|p: DateParts| #[trigger] is_date(text, start, p, end);
        assert(is_date(text, start, p, end + 1));
        assert(date_at(text, start, end + 1));
    }
}

/// A date stays one where more text stands behind it.
proof fn lemma_date_in_front(text: Seq<char>, more: Seq<char>, start: int, p: DateParts, end: int)
    requires
        0 <= start,
        end <= text.len(),
    ensures
        is_date(text + more, start, p, end) <==> is_date(text, start, p, end),
{
    let all = text + more;
    if is_date(all, start, p, end) {
        lemma_month_letters(all, start, p, end);
        assert(text.subrange(p.month, p.month + 3) =~= all.subrange(p.month, p.month + 3));
        assert forall|k: int| start <= k < end implies #[trigger] text[k] == all[k] by {}
    }
    if is_date(text, start, p, end) {
        lemma_month_letters(text, start, p, end);
        assert(text.subrange(p.month, p.month + 3) =~= all.subrange(p.month, p.month + 3));
        assert forall|k: int| start <= k < end implies #[trigger] all[k] == text[k] by {}
    }
}

/// Text that is appended behind the first date and what follows it does not
/// change where that date stands.
pub proof fn first_date_stays(text: Seq<char>, more: Seq<char>, start: int, end: int)
    requires
        is_first_date(text, start, end),
        end < text.len(),
    ensures
        is_first_date(text + more, start, end),
{
    let all = text + more;
    let p = choose|p: DateParts| #[trigger] is_date(text, start, p, end);
    lemma_date_in_front(text, more, start, p, end);
    lemma_month_letters(text, start, p, end);
    first_date_is_greedy(text, start, end);
    assert(all[end] == text[end]);
    assert forall|j: int| #[trigger] date_at(all, start, j) implies j <= end by {
        let q = choose|q: DateParts| #[trigger] is_date(all, start, q, j);
        if end < j {
            lemma_same_start(all, start, p, end, q, j);
        }
    }
    assert forall|i: int, j: int| #[trigger] date_at(all, i, j) implies start <= i by {
        let q = choose|q: DateParts| #[trigger] is_date(all, i, q, j);
        lemma_month_letters(all, i, q, j);
        if i < start {
            if j <= text.len() {
                lemma_date_in_front(text, more, i, q, j);
                assert(date_at(text, i, j));
            } else {
                // Letters stand in the month only, so both dates have one month.
                assert(p.month == q.month) by {
                    assert('A' <= all[p.month] <= 'z');
                    assert(is_white_space(all[p.month - 1]));
                    lemma_letters_in_month(all, i, q, j, p.month);
                    if q.month < p.month {
                        assert('A' <= all[p.month - 1] <= 'z');
                    }
                }
                assert(is_gap(text, i, p.month)) by {
                    assert forall|k: int| i <= k < p.month implies is_white_space(
                        #[trigger] text[k],
                    ) by {
                        assert(all[k] == text[k]);
                    }
                }
                assert(is_date(text, i, p, end));
                assert(date_at(text, i, end));
            }
        }
    }
}

proof fn lemma_letters_in_month(text: Seq<char>, start: int, p: DateParts, end: int, k: int)
    requires
        is_date(text, start, p, end),
        start <= k < end,
        'A' <= text[k] <= 'z',
    ensures
        p.month <= k < p.month + 3,
{
    lemma_month_letters(text, start, p, end);
    assert(!is_white_space(text[k]) && !is_decimal(text[k]) && text[k] != ':');
    if k < p.month {
        assert(is_white_space(text[k]));
    } else if k >= p.month + 3 {
        assert(k < p.day ==> is_white_space(text[k]));
        assert(p.day <= k < p.day_end ==> is_decimal(text[k]));
        assert(p.day_end <= k < p.clock ==> is_white_space(text[k]));
        assert(p.clock_end <= k ==> is_white_space(text[k]));
        assert(p.clock <= k < p.clock_end ==> is_decimal(text[k]) || text[k] == ':');
    }
}

/// A date stays one where text stands around it.
pub proof fn date_within(before: Seq<char>, date: Seq<char>, after: Seq<char>)
    requires
        date_at(date, 0, date.len() as int),
    ensures
        date_at(before + date + after, before.len() as int, (before.len() + date.len()) as int),
{
    let n = before.len() as int;
    let all = before + date + after;
    let p = choose|p: DateParts| #[trigger] is_date(date, 0, p, date.len() as int);
    let q = DateParts {
        month: p.month + n,
        day: p.day + n,
        day_end: p.day_end + n,
        clock: p.clock + n,
        clock_end: p.clock_end + n,
    };
    lemma_month_letters(date, 0, p, date.len() as int);
    assert(all.subrange(q.month, q.month + 3) =~= date.subrange(p.month, p.month + 3));
    assert forall|k: int| n <= k < n + date.len() implies #[trigger] all[k] == date[k - n] by {}
    assert(is_date(all, n, q, n + date.len()));
}

/// Where no date starts in `before`, and white space does not begin `after`, the
/// date between them is the first one.
pub proof fn first_date_between(before: Seq<char>, date: Seq<char>, after: Seq<char>)
    requires
        date_at(date, 0, date.len() as int),
        after.len() > 0 ==> !is_white_space(after[0]),
        forall|i: int, j: int|
            0 <= i < before.len() ==> !#[trigger] date_at(before + date + after, i, j),
    ensures
        is_first_date(
            before + date + after,
            before.len() as int,
            (before.len() + date.len()) as int,
        ),
{
    let all = before + date + after;
    let (start, end) = (before.len() as int, (before.len() + date.len()) as int);
    date_within(before, date, after);
    let p = choose|p: DateParts| #[trigger] is_date(all, start, p, end);
    assert forall|j: int| #[trigger] date_at(all, start, j) implies j <= end by {
        let q = choose|q: DateParts| #[trigger] is_date(all, start, q, j);
        if end < j {
            lemma_same_start(all, start, p, end, q, j);
            assert(all[end] == after[0]);
        }
    }
    assert forall|i: int, j: int| #[trigger] date_at(all, i, j) implies start <= i by {
        let q = choose|q: DateParts| #[trigger] is_date(all, i, q, j);
        assert(0 <= i);
    }
}

} // verus!
