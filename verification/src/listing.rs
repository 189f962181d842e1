//! The list that the user interface shows: each item with whether it is done,
//! in the order of the items' names.
use vstd::prelude::*;
use vstd::utf8::{encode_utf8, encode_utf8_decode_utf8};

verus! {

/// The boolean that a text spells: "true" or "false", and nothing else.
pub open spec fn text_bool(t: Seq<char>) -> Option<bool> {
    if t == "true"@ {
        Some(true)
    } else if t == "false"@ {
        Some(false)
    } else {
        None
    }
}

/// The boolean that a text spells, as `str::parse::<bool>` reads it: "true"
/// and "false", and no other text.
fn parse_bool(text: &String) -> (r: Option<bool>)
    ensures
        r == text_bool(text@),
{
    let t = "true".to_owned();
    let f = "false".to_owned();
    if *text == t {
        Some(true)
    } else if *text == f {
        Some(false)
    } else {
        None
    }
}

/// Lexicographic order of byte strings: the first differing byte decides, and
/// a proper prefix comes first.
pub open spec fn bytes_lt(a: Seq<u8>, b: Seq<u8>) -> bool
    decreases a.len(),
{
    if b.len() == 0 {
        false
    } else if a.len() == 0 {
        true
    } else if a[0] != b[0] {
        a[0] < b[0]
    } else {
        bytes_lt(a.drop_first(), b.drop_first())
    }
}

/// The order of names, as `String` orders them: by their UTF-8 bytes.
pub open spec fn name_lt(a: Seq<char>, b: Seq<char>) -> bool {
    bytes_lt(encode_utf8(a), encode_utf8(b))
}

proof fn lemma_bytes_lt_transitive(a: Seq<u8>, b: Seq<u8>, c: Seq<u8>)
    requires
        bytes_lt(a, b),
        bytes_lt(b, c),
    ensures
        bytes_lt(a, c),
    decreases a.len(),
{
    if a.len() > 0 && a[0] == b[0] && b[0] == c[0] {
        lemma_bytes_lt_transitive(a.drop_first(), b.drop_first(), c.drop_first());
    }
}

proof fn lemma_bytes_lt_total(a: Seq<u8>, b: Seq<u8>)
    requires
        a != b,
    ensures
        bytes_lt(a, b) || bytes_lt(b, a),
    decreases a.len(),
{
    if a.len() > 0 && b.len() > 0 && a[0] == b[0] {
        if a.drop_first() == b.drop_first() {
            assert(a =~= seq![a[0]] + a.drop_first());
            assert(b =~= seq![b[0]] + b.drop_first());
        }
        lemma_bytes_lt_total(a.drop_first(), b.drop_first());
    } else if a.len() == 0 && b.len() == 0 {
        assert(a =~= b);
    }
}

/// Two different names are ordered one way or the other.
proof fn lemma_name_lt_total(a: Seq<char>, b: Seq<char>)
    requires
        a != b,
    ensures
        name_lt(a, b) || name_lt(b, a),
{
    encode_utf8_decode_utf8(a);
    encode_utf8_decode_utf8(b);
    lemma_bytes_lt_total(encode_utf8(a), encode_utf8(b));
}

/// Whether the byte string `a` comes before `b`.
fn bytes_less(a: &[u8], b: &[u8]) -> (r: bool)
    ensures
        r == bytes_lt(a@, b@),
{
    let mut i: usize = 0;
    assert(a@.skip(0) =~= a@);
    assert(b@.skip(0) =~= b@);
    while i < a.len() && i < b.len()
        invariant
            i <= a@.len(),
            i <= b@.len(),
            bytes_lt(a@, b@) == bytes_lt(a@.skip(i as int), b@.skip(i as int)),
        decreases a@.len() - i,
    {
        assert(a@.skip(i as int)[0] == a@[i as int]);
        assert(b@.skip(i as int)[0] == b@[i as int]);
        if a[i] != b[i] {
            return a[i] < b[i];
        }
        assert(a@.skip(i as int).drop_first() =~= a@.skip(i + 1));
        assert(b@.skip(i as int).drop_first() =~= b@.skip(i + 1));
        i = i + 1;
    }
    i < b.len()
}

/// Whether the name `a` comes before the name `b`.
fn name_less(a: &String, b: &String) -> (r: bool)
    ensures
        r == name_lt(a@, b@),
{
    bytes_less(a.as_str().as_bytes(), b.as_str().as_bytes())
}

/// `row` shows `item`: the same name, and the boolean that the item's text
/// spells.
pub open spec fn is_row_of(row: (String, bool), item: (String, String)) -> bool {
    row.0@ == item.0@ && text_bool(item.1@) == Some(row.1)
}

/// The names of `rows` come in strictly increasing order.
pub open spec fn rows_sorted(rows: Seq<(String, bool)>) -> bool {
    forall|i: int, j: int| 0 <= i < j < rows.len() ==> name_lt(#[trigger] rows[i].0@, #[trigger] rows[j].0@)
}

/// Inserting at `p` a row whose name comes after the names before `p` and
/// before the names from `p` on keeps the rows sorted.
proof fn lemma_insert_sorted(rows: Seq<(String, bool)>, x: (String, bool), p: int)
    requires
        0 <= p <= rows.len(),
        rows_sorted(rows),
        forall|q: int| 0 <= q < p ==> name_lt(#[trigger] rows[q].0@, x.0@),
        p < rows.len() ==> name_lt(x.0@, rows[p].0@),
    ensures
        rows_sorted(rows.insert(p, x)),
{
    let s = rows.insert(p, x);
    assert forall|i: int, j: int| 0 <= i < j < s.len() implies name_lt(#[trigger] s[i].0@, #[trigger] s[j].0@) by {
        if j < p {
            assert(s[i] == rows[i] && s[j] == rows[j]);
        } else if j == p {
            assert(s[i] == rows[i] && s[j] == x);
        } else if i < p {
            assert(s[i] == rows[i] && s[j] == rows[j - 1]);
        } else if i == p {
            assert(s[i] == x && s[j] == rows[j - 1]);
            if j - 1 > p {
                assert(name_lt(rows[p].0@, rows[j - 1].0@));
                lemma_bytes_lt_transitive(
                    encode_utf8(x.0@),
                    encode_utf8(rows[p].0@),
                    encode_utf8(rows[j - 1].0@),
                );
            }
        } else {
            assert(s[i] == rows[i - 1] && s[j] == rows[j - 1]);
        }
    }
}

/// `row` shows one of the first `k` items.
pub open spec fn shows_one_of(row: (String, bool), items: Seq<(String, String)>, k: int) -> bool {
    exists|j: int| 0 <= j < k && #[trigger] is_row_of(row, items[j])
}

/// `item` is shown by one of `rows`.
pub open spec fn shown_in(item: (String, String), rows: Seq<(String, bool)>) -> bool {
    exists|i: int| 0 <= i < rows.len() && #[trigger] is_row_of(rows[i], item)
}

/// Each of `rows` shows one of the first `k` items.
pub open spec fn rows_from(rows: Seq<(String, bool)>, items: Seq<(String, String)>, k: int) -> bool {
    forall|i: int| 0 <= i < rows.len() ==> #[trigger] shows_one_of(rows[i], items, k)
}

/// Each of the first `k` items is shown by one of `rows`.
pub open spec fn rows_cover(rows: Seq<(String, bool)>, items: Seq<(String, String)>, k: int) -> bool {
    forall|j: int| 0 <= j < k ==> #[trigger] shown_in(items[j], rows)
}

/// `rows` are the rows of `items`: one row for each item, with the item's name
/// and the boolean that its text spells, in increasing order of name.
pub open spec fn rows_of(items: Seq<(String, String)>, rows: Seq<(String, bool)>) -> bool {
    &&& rows.len() == items.len()
    &&& rows_sorted(rows)
    &&& forall|i: int| 0 <= i < rows.len() ==> #[trigger] shows_one_of(rows[i], items, items.len() as int)
    &&& forall|j: int| 0 <= j < items.len() ==> #[trigger] shown_in(items[j], rows)
}

/// The names of `items` differ from one another.
pub open spec fn names_distinct(items: Seq<(String, String)>) -> bool {
    forall|i: int, j: int| 0 <= i < j < items.len() ==> (#[trigger] items[i]).0@ != (#[trigger] items[j]).0@
}

/// A row of the first `k` items has a name other than that of item `k`.
proof fn lemma_other_name(rows: Seq<(String, bool)>, items: Seq<(String, String)>, k: int, q: int)
    requires
        names_distinct(items),
        0 <= k < items.len(),
        0 <= q < rows.len(),
        rows_from(rows, items, k),
    ensures
        rows[q].0@ != items[k].0@,
{
    assert(shows_one_of(rows[q], items, k));
    let j = choose|j: int| 0 <= j < k && #[trigger] is_row_of(rows[q], items[j]);
    assert(items[j].0@ != items[k].0@);
}

/// Inserting the row of item `k` keeps every row showing one of the items up
/// to `k`, and every item up to `k` shown.
proof fn lemma_insert_row(rows: Seq<(String, bool)>, items: Seq<(String, String)>, k: int, x: (String, bool), p: int)
    requires
        0 <= p <= rows.len(),
        0 <= k < items.len(),
        is_row_of(x, items[k]),
        rows_from(rows, items, k),
        rows_cover(rows, items, k),
    ensures
        rows_from(rows.insert(p, x), items, k + 1),
        rows_cover(rows.insert(p, x), items, k + 1),
{
    let s = rows.insert(p, x);
    assert forall|i: int| 0 <= i < s.len() implies #[trigger] shows_one_of(s[i], items, k + 1) by {
        if i == p {
            assert(s[i] == x);
            assert(is_row_of(s[i], items[k]));
        } else {
            let i0 = if i < p { i } else { i - 1 };
            assert(s[i] == rows[i0]);
            assert(shows_one_of(rows[i0], items, k));
            let j = choose|j: int| 0 <= j < k && #[trigger] is_row_of(rows[i0], items[j]);
            assert(is_row_of(s[i], items[j]));
        }
    }
    assert forall|j: int| 0 <= j < k + 1 implies #[trigger] shown_in(items[j], s) by {
        if j == k {
            assert(s[p] == x);
            assert(is_row_of(s[p], items[j]));
        } else {
            assert(shown_in(items[j], rows));
            let i = choose|i: int| 0 <= i < rows.len() && #[trigger] is_row_of(rows[i], items[j]);
            let i1 = if i < p { i } else { i + 1 };
            assert(s[i1] == rows[i]);
            assert(is_row_of(s[i1], items[j]));
        }
    }
}

/// The rows of the list: each item with the boolean that its text spells, in
/// increasing order of name. The names must differ (they are the keys of a
/// map), and every text must spell a boolean.
pub fn grocery_rows(items: &Vec<(String, String)>) -> (rows: Vec<(String, bool)>)
    requires
        names_distinct(items@),
        forall|i: int| 0 <= i < items@.len() ==> (#[trigger] text_bool(items@[i].1@)) is Some,
    ensures
        rows_of(items@, rows@),
{
    let mut rows: Vec<(String, bool)> = Vec::new();
    let n = items.len();
    let mut k: usize = 0;
    while k < n
        invariant
            n == items@.len(),
            k <= n,
            names_distinct(items@),
            forall|i: int| 0 <= i < items@.len() ==> (#[trigger] text_bool(items@[i].1@)) is Some,
            rows@.len() == k,
            rows_sorted(rows@),
            rows_from(rows@, items@, k as int),
            rows_cover(rows@, items@, k as int),
        decreases n - k,
    {
        let name = items[k].0.clone();
        assert(text_bool(items@[k as int].1@) is Some);
        let done = parse_bool(&items[k].1).unwrap();
        let x = (name, done);
        assert(is_row_of(x, items@[k as int]));
        let mut p: usize = 0;
        while p < rows.len()
            invariant
                p <= rows@.len(),
                rows@.len() == k,
                k < items@.len(),
                names_distinct(items@),
                rows_from(rows@, items@, k as int),
                x.0@ == items@[k as int].0@,
                forall|q: int| 0 <= q < p ==> name_lt(#[trigger] rows@[q].0@, x.0@),
            ensures
                p <= rows@.len(),
                forall|q: int| 0 <= q < p ==> name_lt(#[trigger] rows@[q].0@, x.0@),
                p < rows@.len() ==> name_lt(x.0@, rows@[p as int].0@),
            decreases rows@.len() - p,
        {
            if name_less(&x.0, &rows[p].0) {
                break;
            }
            proof {
                lemma_other_name(rows@, items@, k as int, p as int);
                lemma_name_lt_total(rows@[p as int].0@, x.0@);
            }
            p = p + 1;
        }
        let ghost old_rows = rows@;
        proof {
            lemma_insert_sorted(old_rows, x, p as int);
            lemma_insert_row(old_rows, items@, k as int, x, p as int);
        }
        rows.insert(p, x);
        assert(rows@ == old_rows.insert(p as int, x));
        k = k + 1;
    }
    rows
}

/// The number of rows that are not done.
pub open spec fn remaining(rows: Seq<(String, bool)>) -> nat
    decreases rows.len(),
{
    if rows.len() == 0 {
        0
    } else {
        remaining(rows.drop_last()) + if rows.last().1 {
            0nat
        } else {
            1nat
        }
    }
}

/// How many of the rows are not done.
pub fn remaining_count(rows: &Vec<(String, bool)>) -> (n: usize)
    ensures
        n == remaining(rows@),
{
    let mut n: usize = 0;
    let len = rows.len();
    for i in 0..len
        invariant
            len == rows@.len(),
            n == remaining(rows@.take(i as int)),
            n <= i,
    {
        proof {
            assert(rows@.take(i + 1).drop_last() =~= rows@.take(i as int));
        }
        if !rows[i].1 {
            n = n + 1;
        }
    }
    proof {
        assert(rows@.take(len as int) =~= rows@);
    }
    n
}


/// A name comes first where it is a proper prefix of the other, or where it
/// has the smaller byte at the first place where the two differ: the
/// lexicographic order of byte strings, which is `String`'s order.
pub proof fn law_bytes_lt_is_lexicographic(a: Seq<u8>, b: Seq<u8>)
    ensures
        bytes_lt(a, b) <==> ((a.len() < b.len() && a == b.subrange(0, a.len() as int)) || exists|i: int|
            0 <= i < a.len() && i < b.len() && a.subrange(0, i) == b.subrange(0, i) && #[trigger] a[i] < b[i]),
    decreases a.len(),
{
    let first_diff = exists|i: int|
        0 <= i < a.len() && i < b.len() && a.subrange(0, i) == b.subrange(0, i) && #[trigger] a[i] < b[i];
    let prefix = a.len() < b.len() && a == b.subrange(0, a.len() as int);
    if b.len() == 0 {
    } else if a.len() == 0 {
        assert(a =~= b.subrange(0, 0));
    } else if a[0] != b[0] {
        if a[0] < b[0] {
            assert(a.subrange(0, 0) =~= b.subrange(0, 0));
            assert(0 < a.len() && 0 < b.len() && a.subrange(0, 0) == b.subrange(0, 0) && a[0] < b[0]);
        }
        if prefix {
            assert(a[0] == b.subrange(0, a.len() as int)[0]);
        }
        if first_diff {
            let i = choose|i: int|
                0 <= i < a.len() && i < b.len() && a.subrange(0, i) == b.subrange(0, i) && #[trigger] a[i] < b[i];
            if i > 0 {
                assert(a.subrange(0, i)[0] == b.subrange(0, i)[0]);
            }
        }
    } else {
        let a1 = a.drop_first();
        let b1 = b.drop_first();
        law_bytes_lt_is_lexicographic(a1, b1);
        let prefix1 = a1.len() < b1.len() && a1 == b1.subrange(0, a1.len() as int);
        let first_diff1 = exists|i: int|
            0 <= i < a1.len() && i < b1.len() && a1.subrange(0, i) == b1.subrange(0, i) && #[trigger] a1[i] < b1[i];
        if prefix {
            assert forall|j: int| 0 <= j < a1.len() implies #[trigger] a1[j] == b1.subrange(0, a1.len() as int)[j] by {
                assert(a[j + 1] == b.subrange(0, a.len() as int)[j + 1]);
            }
            assert(a1 =~= b1.subrange(0, a1.len() as int));
        }
        if prefix1 {
            assert forall|j: int| 0 <= j < a.len() implies #[trigger] a[j] == b.subrange(0, a.len() as int)[j] by {
                if j > 0 {
                    assert(a1[j - 1] == b1.subrange(0, a1.len() as int)[j - 1]);
                }
            }
            assert(a =~= b.subrange(0, a.len() as int));
        }
        if first_diff {
            let i = choose|i: int|
                0 <= i < a.len() && i < b.len() && a.subrange(0, i) == b.subrange(0, i) && #[trigger] a[i] < b[i];
            assert(i > 0);
            assert forall|j: int| 0 <= j < i - 1 implies #[trigger] a1.subrange(0, i - 1)[j] == b1.subrange(0, i - 1)[j] by {
                assert(a.subrange(0, i)[j + 1] == b.subrange(0, i)[j + 1]);
            }
            assert(a1.subrange(0, i - 1) =~= b1.subrange(0, i - 1));
            assert(a1[i - 1] == a[i] && b1[i - 1] == b[i]);
            assert(first_diff1);
        }
        if first_diff1 {
            let i = choose|i: int|
                0 <= i < a1.len() && i < b1.len() && a1.subrange(0, i) == b1.subrange(0, i) && #[trigger] a1[i] < b1[i];
            assert forall|j: int| 0 <= j < i + 1 implies #[trigger] a.subrange(0, i + 1)[j] == b.subrange(0, i + 1)[j] by {
                if j > 0 {
                    assert(a1.subrange(0, i)[j - 1] == b1.subrange(0, i)[j - 1]);
                }
            }
            assert(a.subrange(0, i + 1) =~= b.subrange(0, i + 1));
            assert(a[i + 1] == a1[i] && b[i + 1] == b1[i]);
            assert(first_diff);
        }
    }
}

/// A common prefix does not change the order of two names.
pub proof fn law_bytes_lt_common_prefix(p: Seq<u8>, x: Seq<u8>, y: Seq<u8>)
    ensures
        bytes_lt(p + x, p + y) == bytes_lt(x, y),
    decreases p.len(),
{
    if p.len() > 0 {
        law_bytes_lt_common_prefix(p.drop_first(), x, y);
        assert((p + x).drop_first() =~= p.drop_first() + x);
        assert((p + y).drop_first() =~= p.drop_first() + y);
        assert((p + x)[0] == p[0] && (p + y)[0] == p[0]);
    } else {
        assert(p + x =~= x);
        assert(p + y =~= y);
    }
}

/// Appending a row adds one to the count exactly when the row is not done.
pub proof fn law_remaining_push(rows: Seq<(String, bool)>, x: (String, bool))
    ensures
        remaining(rows.push(x)) == remaining(rows) + if x.1 {
            0nat
        } else {
            1nat
        },
{
    assert(rows.push(x).drop_last() =~= rows);
}

/// The count is the number of rows that are not done.
pub proof fn law_remaining_counts_not_done(rows: Seq<(String, bool)>)
    ensures
        remaining(rows) == rows.filter(|r: (String, bool)| !r.1).len(),
    decreases rows.len(),
{
    reveal(Seq::filter);
    if rows.len() > 0 {
        law_remaining_counts_not_done(rows.drop_last());
    }
}

} // verus!
