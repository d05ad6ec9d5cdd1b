//! Named rows in the order of their names.

use crate::text::chars_of;
use vstd::prelude::*;

verus! {

/// Whether `a` comes before `b` in the order of their characters, or equals it.
pub open spec fn text_le(a: Seq<char>, b: Seq<char>) -> bool
    decreases a.len(),
{
    if a.len() == 0 {
        true
    } else if b.len() == 0 {
        false
    } else if a[0] != b[0] {
        a[0] < b[0]
    } else {
        text_le(a.drop_first(), b.drop_first())
    }
}

/// Any two texts are ordered.
pub proof fn text_order_is_total(a: Seq<char>, b: Seq<char>)
    ensures
        text_le(a, b) || text_le(b, a),
    decreases a.len(),
{
    if a.len() > 0 && b.len() > 0 {
        text_order_is_total(a.drop_first(), b.drop_first());
    }
}

/// The order of texts is transitive.
pub proof fn text_order_is_transitive(a: Seq<char>, b: Seq<char>, c: Seq<char>)
    requires
        text_le(a, b),
        text_le(b, c),
    ensures
        text_le(a, c),
    decreases a.len(),
{
    if a.len() > 0 && b.len() > 0 && c.len() > 0 && a[0] == b[0] && b[0] == c[0] {
        text_order_is_transitive(a.drop_first(), b.drop_first(), c.drop_first());
    }
}

/// Texts that are ordered both ways are equal.
pub proof fn text_order_is_antisymmetric(a: Seq<char>, b: Seq<char>)
    requires
        text_le(a, b),
        text_le(b, a),
    ensures
        a == b,
    decreases a.len(),
{
    if a.len() > 0 && b.len() > 0 {
        let (x, y) = (a.drop_first(), b.drop_first());
        assert(a[0] == b[0]);
        text_order_is_antisymmetric(x, y);
        assert(a.len() == x.len() + 1 && b.len() == y.len() + 1);
        assert forall|i: int| 0 <= i < a.len() implies a[i] == b[i] by {
            if i > 0 {
                assert(a[i] == x[i - 1] && b[i] == y[i - 1]);
            }
        }
    }
    assert(a =~= b);
}

/// Whether `a` comes before `b` in the order of their characters, or equals it.
pub fn text_at_most(a: &str, b: &str) -> (r: bool)
    ensures
        r == text_le(a@, b@),
{
    let x = chars_of(a);
    let y = chars_of(b);
    let mut i: usize = 0;
    proof {
        assert(x@.skip(0) =~= x@);
        assert(y@.skip(0) =~= y@);
    }
    while i < x.len() && i < y.len()
        invariant
            i <= x.len(),
            i <= y.len(),
            text_le(a@, b@) == text_le(x@.skip(i as int), y@.skip(i as int)),
        decreases x.len() - i,
    {
        if x[i] != y[i] {
            return x[i] < y[i];
        }
        proof {
            assert(x@.skip(i as int).drop_first() =~= x@.skip(i + 1));
            assert(y@.skip(i as int).drop_first() =~= y@.skip(i + 1));
        }
        i = i + 1;
    }
    i == x.len()
}

/// The names and numbers of rows.
pub open spec fn row_views(rows: Seq<(String, u64)>) -> Seq<(Seq<char>, u64)> {
    Seq::new(rows.len(), |i: int| (rows[i].0@, rows[i].1))
}

/// `rows` with `x` behind the last of them whose name does not come after its
/// own.
pub open spec fn insert_row(rows: Seq<(Seq<char>, u64)>, x: (Seq<char>, u64)) -> Seq<
    (Seq<char>, u64),
>
    decreases rows.len(),
{
    if rows.len() == 0 || text_le(rows.last().0, x.0) {
        rows.push(x)
    } else {
        insert_row(rows.drop_last(), x).push(rows.last())
    }
}

/// `rows` in the order of their names; rows of one name stay in their order.
pub open spec fn by_name(rows: Seq<(Seq<char>, u64)>) -> Seq<(Seq<char>, u64)>
    decreases rows.len(),
{
    if rows.len() == 0 {
        rows
    } else {
        insert_row(by_name(rows.drop_last()), rows.last())
    }
}

/// Two rows of rows in one, in the order of their names.
spec fn merge(x: Seq<(Seq<char>, u64)>, y: Seq<(Seq<char>, u64)>) -> Seq<(Seq<char>, u64)>
    decreases x.len() + y.len(),
{
    if y.len() == 0 {
        x
    } else if x.len() == 0 {
        y
    } else if text_le(x.last().0, y.last().0) {
        merge(x, y.drop_last()).push(y.last())
    } else {
        merge(x.drop_last(), y).push(x.last())
    }
}

proof fn lemma_merge_insert(
    x: Seq<(Seq<char>, u64)>,
    y: Seq<(Seq<char>, u64)>,
    z: (Seq<char>, u64),
)
    ensures
        merge(x, insert_row(y, z)) == insert_row(merge(x, y), z),
    decreases x.len() + y.len(),
{
    if x.len() == 0 {
        assert(y.len() == 0 ==> merge(x, y) =~= y);
    } else if y.len() == 0 {
        assert(y.push(z).drop_last() =~= y);
        if !text_le(x.last().0, z.0) {
            lemma_merge_insert(x.drop_last(), y, z);
        }
    } else {
        let a = x.last();
        let b = y.last();
        if text_le(b.0, z.0) {
            assert(y.push(z).drop_last() =~= y);
            if text_le(a.0, z.0) {
                let m = merge(x, y);
                assert(m.last() == a || m.last() == b);
            } else {
                if text_le(a.0, b.0) {
                    text_order_is_transitive(a.0, b.0, z.0);
                }
                lemma_merge_insert(x.drop_last(), y, z);
                let m = merge(x.drop_last(), y);
                assert(m.push(a).drop_last() =~= m);
            }
        } else {
            let inner = insert_row(y.drop_last(), z);
            assert(inner.push(b).drop_last() =~= inner);
            if text_le(a.0, b.0) {
                lemma_merge_insert(x, y.drop_last(), z);
                let m = merge(x, y.drop_last());
                assert(m.push(b).drop_last() =~= m);
            } else {
                if text_le(a.0, z.0) {
                    text_order_is_total(b.0, z.0);
                    text_order_is_total(a.0, b.0);
                    text_order_is_transitive(a.0, z.0, b.0);
                }
                lemma_merge_insert(x.drop_last(), y, z);
                let m = merge(x.drop_last(), y);
                assert(m.push(a).drop_last() =~= m);
            }
        }
    }
}

proof fn lemma_merge_sorts(a: Seq<(Seq<char>, u64)>, b: Seq<(Seq<char>, u64)>)
    ensures
        by_name(a + b) == merge(by_name(a), by_name(b)),
    decreases b.len(),
{
    if b.len() == 0 {
        assert(a + b =~= a);
    } else {
        let c = b.drop_last();
        lemma_merge_sorts(a, c);
        assert((a + b).drop_last() =~= a + c);
        lemma_merge_insert(by_name(a), by_name(c), b.last());
    }
}

fn merged(x: Vec<(String, u64)>, y: Vec<(String, u64)>) -> (r: Vec<(String, u64)>)
    ensures
        row_views(r@) == merge(row_views(x@), row_views(y@)),
{
    let ghost whole = merge(row_views(x@), row_views(y@));
    let mut x = x;
    let mut y = y;
    let mut back: Vec<(String, u64)> = Vec::new();
    assert(merge(row_views(x@), row_views(y@)) + row_views(back@).reverse() =~= whole);
    while x.len() > 0 || y.len() > 0
        invariant
            whole == merge(row_views(x@), row_views(y@)) + row_views(back@).reverse(),
        decreases x.len() + y.len(),
    {
        let ghost vx = row_views(x@);
        let ghost vy = row_views(y@);
        let ghost done = back@;
        let from_y = x.len() == 0 || (y.len() > 0 && text_at_most(
            x[x.len() - 1].0.as_str(),
            y[y.len() - 1].0.as_str(),
        ));
        let next = if from_y {
            y.pop()
        } else {
            x.pop()
        };
        proof {
            if vx.len() == 0 && vy.len() > 0 {
                assert(merge(vx, vy) =~= vy.drop_last().push(vy.last()));
                assert(merge(vx, vy.drop_last()) =~= vy.drop_last());
            }
            if vy.len() == 0 && vx.len() > 0 {
                assert(merge(vx, vy) =~= vx.drop_last().push(vx.last()));
                assert(merge(vx.drop_last(), vy) =~= vx.drop_last());
            }
            assert(row_views(x@) =~= if from_y {
                vx
            } else {
                vx.drop_last()
            });
            assert(row_views(y@) =~= if from_y {
                vy.drop_last()
            } else {
                vy
            });
        }
        match next {
            Some(row) => {
                back.push(row);
                proof {
                    let v = (row.0@, row.1);
                    let m = merge(row_views(x@), row_views(y@));
                    assert(v == if from_y {
                        vy.last()
                    } else {
                        vx.last()
                    });
                    assert(merge(vx, vy) == m.push(v));
                    assert(row_views(back@) =~= row_views(done).push(v));
                    assert(m.push(v) + row_views(done).reverse() =~= m + row_views(
                        back@,
                    ).reverse());
                }
            },
            None => {},
        }
    }
    let mut out: Vec<(String, u64)> = Vec::new();
    assert(merge(row_views(x@), row_views(y@)) =~= Seq::empty());
    assert(whole =~= row_views(out@) + row_views(back@).reverse());
    while back.len() > 0
        invariant
            whole == row_views(out@) + row_views(back@).reverse(),
        decreases back.len(),
    {
        let ghost vb = row_views(back@);
        let ghost vo = row_views(out@);
        match back.pop() {
            Some(row) => {
                out.push(row);
                proof {
                    let v = (row.0@, row.1);
                    assert(v == vb.last());
                    assert(row_views(back@) =~= vb.drop_last());
                    assert(row_views(out@) =~= vo.push(v));
                    assert(vo.push(v) + vb.drop_last().reverse() =~= vo + vb.reverse());
                }
            },
            None => {},
        }
    }
    assert(row_views(out@) + row_views(back@).reverse() =~= row_views(out@));
    out
}

/// Puts rows in the order of their names; rows of one name stay in their order.
pub fn sorted_by_name(rows: Vec<(String, u64)>) -> (r: Vec<(String, u64)>)
    ensures
        row_views(r@) == by_name(row_views(rows@)),
    decreases rows.len(),
{
    let ghost all = row_views(rows@);
    if rows.len() <= 1 {
        proof {
            if all.len() == 1 {
                assert(by_name(all.drop_last()) =~= Seq::empty());
                assert(by_name(all) =~= all);
            }
        }
        return rows;
    }
    let mut front = rows;
    let half = front.len() / 2;
    let back = front.split_off(half);
    proof {
        let a = row_views(front@);
        let b = row_views(back@);
        assert(all =~= a + b);
        lemma_merge_sorts(a, b);
    }
    let x = sorted_by_name(front);
    let y = sorted_by_name(back);
    merged(x, y)
}

/// Whether the names of rows stand in order.
pub open spec fn in_order(rows: Seq<(Seq<char>, u64)>) -> bool {
    forall|i: int, j: int|
        0 <= i <= j < rows.len() ==> text_le((#[trigger] rows[i]).0, (#[trigger] rows[j]).0)
}

proof fn lemma_insert_row(rows: Seq<(Seq<char>, u64)>, x: (Seq<char>, u64))
    requires
        in_order(rows),
    ensures
        in_order(insert_row(rows, x)),
        insert_row(rows, x).to_multiset() == rows.to_multiset().insert(x),
        insert_row(rows, x).len() == rows.len() + 1,
        forall|b: Seq<char>|
            #![trigger text_le(x.0, b)]
            text_le(x.0, b) && (forall|i: int|
                0 <= i < rows.len() ==> text_le((#[trigger] rows[i]).0, b)) ==> forall|i: int|
                0 <= i < insert_row(rows, x).len() ==> text_le(
                    (#[trigger] insert_row(rows, x)[i]).0,
                    b,
                ),
    decreases rows.len(),
{
    broadcast use vstd::seq_lib::group_to_multiset_ensures;

    text_order_is_total(x.0, x.0);
    let r = insert_row(rows, x);
    if rows.len() == 0 || text_le(rows.last().0, x.0) {
        assert forall|i: int, j: int| 0 <= i <= j < r.len() implies text_le(
            (#[trigger] r[i]).0,
            (#[trigger] r[j]).0,
        ) by {
            if j == rows.len() && i < j {
                assert(text_le(rows[i].0, rows.last().0));
                text_order_is_transitive(rows[i].0, rows.last().0, x.0);
            }
        }
    } else {
        let front = rows.drop_last();
        let last = rows.last();
        lemma_insert_row(front, x);
        text_order_is_total(x.0, last.0);
        text_order_is_total(last.0, last.0);
        let q = insert_row(front, x);
        assert(forall|i: int| 0 <= i < front.len() ==> text_le((#[trigger] front[i]).0, last.0)) by {
            assert forall|i: int| 0 <= i < front.len() implies text_le(
                (#[trigger] front[i]).0,
                last.0,
            ) by {
                assert(front[i] == rows[i]);
                assert(rows[rows.len() - 1] == last);
            }
        }
        assert(text_le(x.0, last.0));
        assert forall|i: int, j: int| 0 <= i <= j < r.len() implies text_le(
            (#[trigger] r[i]).0,
            (#[trigger] r[j]).0,
        ) by {
            if i < q.len() {
                assert(r[i] == q[i]);
            }
            if j < q.len() {
                assert(r[j] == q[j]);
            }
        }
        assert(rows =~= front.push(last));
        assert(r.to_multiset() =~= q.to_multiset().insert(last));
        assert(rows.to_multiset() =~= front.to_multiset().insert(last));
        assert(r.to_multiset() =~= rows.to_multiset().insert(x));
        assert forall|b: Seq<char>|
            #![trigger text_le(x.0, b)]
            text_le(x.0, b) && (forall|i: int|
                0 <= i < rows.len() ==> text_le((#[trigger] rows[i]).0, b)) implies forall|i: int|
            0 <= i < r.len() ==> text_le((#[trigger] r[i]).0, b) by {
            assert forall|i: int| 0 <= i < front.len() implies text_le(
                (#[trigger] front[i]).0,
                b,
            ) by {
                assert(front[i] == rows[i]);
            }
            assert(text_le(rows[rows.len() - 1].0, b));
            assert forall|i: int| 0 <= i < r.len() implies text_le((#[trigger] r[i]).0, b) by {
                if i < q.len() {
                    assert(r[i] == q[i]);
                }
            }
        }
    }
}

/// Sorting puts the names in order, and neither adds nor drops a row.
pub proof fn sorting_orders_and_keeps(rows: Seq<(Seq<char>, u64)>)
    ensures
        in_order(by_name(rows)),
        by_name(rows).to_multiset() == rows.to_multiset(),
        by_name(rows).len() == rows.len(),
    decreases rows.len(),
{
    broadcast use vstd::seq_lib::group_to_multiset_ensures;

    if rows.len() > 0 {
        sorting_orders_and_keeps(rows.drop_last());
        lemma_insert_row(by_name(rows.drop_last()), rows.last());
        assert(rows =~= rows.drop_last().push(rows.last()));
    }
}

/// Whether a row has the name `name`.
pub open spec fn has_name(name: Seq<char>) -> spec_fn((Seq<char>, u64)) -> bool {
    |row: (Seq<char>, u64)| row.0 == name
}

/// The rows of one name, in their order.
pub open spec fn rows_named(rows: Seq<(Seq<char>, u64)>, name: Seq<char>) -> Seq<(Seq<char>, u64)> {
    rows.filter(has_name(name))
}

proof fn lemma_insert_row_stable(
    rows: Seq<(Seq<char>, u64)>,
    x: (Seq<char>, u64),
    name: Seq<char>,
)
    ensures
        rows_named(insert_row(rows, x), name) == rows_named(rows.push(x), name),
    decreases rows.len(),
{
    let named = has_name(name);
    rows.lemma_filter_push(x, named);
    if rows.len() > 0 && !text_le(rows.last().0, x.0) {
        let front = rows.drop_last();
        let last = rows.last();
        text_order_is_total(last.0, last.0);
        lemma_insert_row_stable(front, x, name);
        front.lemma_filter_push(x, named);
        front.lemma_filter_push(last, named);
        insert_row(front, x).lemma_filter_push(last, named);
        assert(rows =~= front.push(last));
    }
}

/// Rows of one name stay in the order in which they came.
pub proof fn sorting_is_stable(rows: Seq<(Seq<char>, u64)>, name: Seq<char>)
    ensures
        rows_named(by_name(rows), name) == rows_named(rows, name),
    decreases rows.len(),
{
    if rows.len() > 0 {
        let named = has_name(name);
        let front = rows.drop_last();
        sorting_is_stable(front, name);
        lemma_insert_row_stable(by_name(front), rows.last(), name);
        by_name(front).lemma_filter_push(rows.last(), named);
        front.lemma_filter_push(rows.last(), named);
        assert(rows =~= front.push(rows.last()));
    }
}

} // verus!
