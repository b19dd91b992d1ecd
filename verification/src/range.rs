//! The `Range` and `Content-Range` header fields.

use vstd::prelude::*;
use vstd::slice::slice_subrange;
use vstd::string::*;

use crate::text;
use crate::text::{chars_of, find_first, find_last, parse_i64_chars, push_integer, trim};

verus! {

/// Whether `s` begins with `prefix`.
pub open spec fn starts_with(s: Seq<char>, prefix: Seq<char>) -> bool {
    prefix.len() <= s.len() && s.take(prefix.len() as int) == prefix
}

/// The bounds that one range `START-[END]` asks for: the end is -1 where none is given
/// or where it is not a number, and the whole is `(0, -1)` where the start is not a
/// number from zero up.
pub open spec fn range_bounds(first: Seq<char>) -> (int, int) {
    let dash = text::first_position(first, '-');
    if dash >= first.len() {
        (0, -1)
    } else {
        match text::i64_value(text::trimmed(first.take(dash))) {
            Some(start) if start >= 0 => match text::i64_value(
                text::trimmed(first.skip(dash + 1)),
            ) {
                Some(end) => (start as int, end as int),
                None => (start as int, -1),
            },
            _ => (0, -1),
        }
    }
}

/// What the value of a `Range` field asks for: `bytes=START-[END]`, of which only the
/// first of several ranges counts. Anything else asks for the whole, `(0, -1)`.
pub open spec fn requested_range(value: Seq<char>) -> (int, int) {
    let v = text::trimmed(value);
    if starts_with(v, "bytes="@) {
        let rest = v.skip("bytes="@.len() as int);
        range_bounds(
            text::trimmed(rest.take(text::first_position(rest, ','))),
        )
    } else {
        (0, -1)
    }
}

/// The total length that the value of a `Content-Range` field states: the number
/// behind its last slash.
pub open spec fn stated_total(value: Seq<char>) -> Option<i64> {
    let slash = text::last_position(value, '/');
    if slash < 0 {
        None
    } else {
        text::i64_value(text::trimmed(value.skip(slash + 1)))
    }
}

/// The value of a `Range` field that asks for the bytes from `start` to `end`.
pub open spec fn range_text(start: int, end: int) -> Seq<char> {
    "bytes="@ + text::decimal(start) + "-"@ + text::decimal(end)
}

/// The value of a `Content-Range` field for the bytes from `start` to `end` of `total`.
pub open spec fn content_range_text(start: int, end: int, total: int) -> Seq<char> {
    "bytes "@ + text::decimal(start) + "-"@ + text::decimal(end) + "/"@
        + text::decimal(total)
}

/// Whether the first characters of `s` are `bytes=`.
fn has_bytes_unit(s: &[char]) -> (result: bool)
    ensures
        result == starts_with(s@, "bytes="@),
        "bytes="@.len() == 6,
{
    proof {
        reveal_strlit("bytes=");
    }
    let result = s.len() >= 6 && s[0] == 'b' && s[1] == 'y' && s[2] == 't' && s[3] == 'e' && s[4]
        == 's' && s[5] == '=';
    proof {
        if result {
            assert(s@.take(6) =~= "bytes="@);
        } else if s@.len() >= 6 && s@.take(6) == "bytes="@ {
            assert(s@[0] == s@.take(6)[0]);
            assert(s@[1] == s@.take(6)[1]);
            assert(s@[2] == s@.take(6)[2]);
            assert(s@[3] == s@.take(6)[3]);
            assert(s@[4] == s@.take(6)[4]);
            assert(s@[5] == s@.take(6)[5]);
        }
    }
    result
}

/// The bounds that one range `START-[END]` asks for.
fn parse_bounds(first: &[char]) -> (result: (i64, i64))
    ensures
        (result.0 as int, result.1 as int) == range_bounds(first@),
{
    let dash: usize = find_first(first, '-');
    if dash == first.len() {
        return (0, -1);
    }
    assert(first@.subrange(0, dash as int) =~= first@.take(dash as int));
    assert(first@.subrange(dash + 1, first@.len() as int) =~= first@.skip(dash + 1));
    match parse_i64_chars(trim(slice_subrange(first, 0, dash))) {
        Some(start) => if start < 0 {
            (0, -1)
        } else {
            match parse_i64_chars(trim(slice_subrange(first, dash + 1, first.len()))) {
                Some(end) => (start, end),
                None => (start, -1),
            }
        },
        None => (0, -1),
    }
}

/// Reads the value of a `Range: bytes=START-[END]` field into `(start, end)`, where
/// an `end` of -1 stands for an open range.
///
/// The suffix form `bytes=-500` is not supported: like every other value that cannot
/// be read, it asks for the whole. Of several ranges only the first counts.
pub fn parse_range(value: &str) -> (result: (i64, i64))
    ensures
        (result.0 as int, result.1 as int) == requested_range(value@),
        result.0 >= 0,
{
    let chars = chars_of(value);
    let v = trim(chars.as_slice());
    if !has_bytes_unit(v) {
        return (0, -1);
    }
    assert(v@.subrange(6, v@.len() as int) =~= v@.skip(6));
    let rest = slice_subrange(v, 6, v.len());
    let comma: usize = find_first(rest, ',');
    assert(rest@.subrange(0, comma as int) =~= rest@.take(comma as int));
    parse_bounds(trim(slice_subrange(rest, 0, comma)))
}

/// Reads the total length out of the value of a `Content-Range: bytes 0-99/12345`
/// field.
pub fn parse_total(value: &str) -> (result: Option<i64>)
    ensures
        result == stated_total(value@),
{
    let chars = chars_of(value);
    let s = chars.as_slice();
    let n: usize = s.len();
    match find_last(s, '/') {
        Some(slash) => {
            assert(s@.subrange(slash + 1, s@.len() as int) =~= s@.skip(slash + 1));
            parse_i64_chars(trim(slice_subrange(s, slash + 1, n)))
        },
        None => None,
    }
}

/// The value of a `Range` field that asks for the bytes from `start` to `end`.
pub fn range_value(start: i64, end: i64) -> (result: String)
    ensures
        result@ == range_text(start as int, end as int),
{
    let mut out = String::new();
    out.append("bytes=");
    push_integer(&mut out, start);
    out.append("-");
    push_integer(&mut out, end);
    assert(out@ =~= range_text(start as int, end as int));
    out
}

/// The value of a `Content-Range` field for the bytes from `start` to `end` of `total`.
pub fn content_range_value(start: i64, end: i64, total: i64) -> (result: String)
    ensures
        result@ == content_range_text(start as int, end as int, total as int),
{
    let mut out = String::new();
    out.append("bytes ");
    push_integer(&mut out, start);
    out.append("-");
    push_integer(&mut out, end);
    out.append("/");
    push_integer(&mut out, total);
    assert(out@ =~= content_range_text(start as int, end as int, total as int));
    out
}

/// Whether `c` does not occur in `s`.
pub open spec fn lacks(s: Seq<char>, c: char) -> bool {
    forall|i: int| 0 <= i < s.len() ==> #[trigger] s[i] != c
}

/// Trimming does not bring a character in.
proof fn lemma_trimmed_lacks(s: Seq<char>, c: char)
    requires
        lacks(s, c),
    ensures
        lacks(text::trimmed_start(s), c),
        lacks(text::trimmed_end(s), c),
    decreases s.len(),
{
    if s.len() > 0 {
        assert(lacks(s.drop_first(), c)) by {
            assert forall|i: int| 0 <= i < s.drop_first().len() implies #[trigger] s.drop_first()[i]
                != c by {
                assert(s[i + 1] != c);
            }
        }
        assert(lacks(s.drop_last(), c)) by {
            assert forall|i: int| 0 <= i < s.drop_last().len() implies #[trigger] s.drop_last()[i]
                != c by {
                assert(s[i] != c);
            }
        }
        lemma_trimmed_lacks(s.drop_first(), c);
        lemma_trimmed_lacks(s.drop_last(), c);
    }
}

/// What a value with the unit `bytes` asks for, whatever is behind the unit.
proof fn lemma_bytes_unit(tail: Seq<char>)
    ensures
        ({
            let rest = text::trimmed_end(tail);
            requested_range("bytes="@ + tail) == range_bounds(
                text::trimmed(rest.take(text::first_position(rest, ','))),
            )
        }),
{
    reveal_strlit("bytes=");
    let value = "bytes="@ + tail;
    let rest = text::trimmed_end(tail);
    assert(value.first() == 'b');
    assert(text::trimmed_start(value) == value);
    text::lemma_trimmed_end_keeps("bytes="@, tail);
    let v = "bytes="@ + rest;
    assert(text::trimmed(value) == v);
    assert(v.take(6) =~= "bytes="@);
    assert(v.skip(6) =~= rest);
}

/// What a value with the unit `bytes` and a single range asks for.
proof fn lemma_single_range(first: Seq<char>)
    requires
        lacks(first, ','),
    ensures
        requested_range("bytes="@ + first) == range_bounds(text::trimmed(first)),
{
    lemma_bytes_unit(first);
    lemma_trimmed_lacks(first, ',');
    let rest = text::trimmed_end(first);
    text::lemma_first_position_absent(rest, ',');
    assert(rest.take(rest.len() as int) =~= rest);
    text::lemma_trimmed_after_end(first);
}

/// A range is a start and an end with a dash between them, white space around both left
/// aside. The start has to be a number from zero up, or the value asks for everything,
/// from 0 on. The end is open, which is written -1, unless it is a number.
pub proof fn law_range_has_start_and_end(start: Seq<char>, end: Seq<char>)
    requires
        lacks(start, '-'),
        lacks(start, ','),
        lacks(end, ','),
    ensures
        requested_range("bytes="@ + start + "-"@ + end) == match text::i64_value(
            text::trimmed(start),
        ) {
            Some(s) if s >= 0 => match text::i64_value(text::trimmed(end)) {
                Some(e) => (s as int, e as int),
                None => (s as int, -1int),
            },
            _ => (0int, -1int),
        },
{
    reveal_strlit("-");
    assert("-"@ =~= seq!['-']);
    let first = start + "-"@ + end;
    assert("bytes="@ + start + "-"@ + end =~= "bytes="@ + first);
    assert(lacks(first, ',')) by {
        assert forall|i: int| 0 <= i < first.len() implies #[trigger] first[i] != ',' by {
            if i < start.len() {
                assert(first[i] == start[i]);
            } else if i > start.len() {
                assert(first[i] == end[i - start.len() - 1]);
            }
        }
    }
    lemma_single_range(first);
    let a = text::trimmed_start(start);
    let b = text::trimmed_end(end);
    assert(first =~= start + (seq!['-'] + end));
    text::lemma_trimmed_start_keeps(start, seq!['-'] + end);
    assert(a + (seq!['-'] + end) =~= (a + seq!['-']) + end);
    text::lemma_trimmed_end_keeps(a + seq!['-'], end);
    let t = a + seq!['-'] + b;
    assert(text::trimmed(first) == t);
    lemma_trimmed_lacks(start, '-');
    text::lemma_first_position_between(a, '-', b);
    assert(t.take(a.len() as int) =~= a);
    assert(t.skip(a.len() as int + 1) =~= b);
    text::lemma_trimmed_start_twice(start);
    assert(text::trimmed(a) == text::trimmed(start));
    text::lemma_trimmed_after_end(end);
}

/// A range that gives a start and no end is open: it reaches from that start to the end
/// of the file.
pub proof fn law_open_range_reads_back(start: i64)
    requires
        start >= 0,
    ensures
        requested_range("bytes="@ + text::decimal(start as int) + "-"@) == (start as int, -1int),
{
    let s = text::decimal(start as int);
    let none = Seq::<char>::empty();
    text::lemma_decimal_chars(start as int);
    text::law_decimal_reads_back(start);
    text::lemma_trimmed_unchanged(s);
    assert("bytes="@ + s + "-"@ + none =~= "bytes="@ + s + "-"@);
    lemma_decimal_lacks(start as int);
    law_range_has_start_and_end(s, none);
    assert(text::trimmed(none) == none);
}

/// Decimal notation has no comma, and no dash from zero up.
proof fn lemma_decimal_lacks(n: int)
    ensures
        lacks(text::decimal(n), ','),
        n >= 0 ==> lacks(text::decimal(n), '-'),
{
    text::lemma_decimal_chars(n);
}

/// A range without a start, such as the suffix form, asks for everything.
pub proof fn law_suffix_range_asks_for_everything(end: Seq<char>)
    requires
        lacks(end, ','),
    ensures
        requested_range("bytes=-"@ + end) == (0int, -1int),
{
    let none = Seq::<char>::empty();
    reveal_strlit("bytes=-");
    reveal_strlit("bytes=");
    reveal_strlit("-");
    assert("bytes="@ + none + "-"@ + end =~= "bytes=-"@ + end);
    law_range_has_start_and_end(none, end);
    assert(text::trimmed(none) == none);
}

/// Of several ranges only the first counts.
pub proof fn law_first_range_counts(first: Seq<char>, more: Seq<char>)
    requires
        lacks(first, ','),
    ensures
        requested_range("bytes="@ + first + ","@ + more) == requested_range("bytes="@ + first),
{
    reveal_strlit(",");
    assert(","@ =~= seq![',']);
    let tail = first + seq![','] + more;
    assert("bytes="@ + first + ","@ + more =~= "bytes="@ + tail);
    lemma_bytes_unit(tail);
    lemma_single_range(first);
    text::lemma_trimmed_end_keeps(first + seq![','], more);
    let rest = first + seq![','] + text::trimmed_end(more);
    assert(text::trimmed_end(tail) == rest);
    text::lemma_first_position_between(first, ',', text::trimmed_end(more));
    assert(rest.take(first.len() as int) =~= first);
}

/// White space around the value of a field does not count.
pub proof fn law_blanks_around_a_range(a: Seq<char>, value: Seq<char>, b: Seq<char>)
    requires
        text::is_blank(a),
        text::is_blank(b),
    ensures
        requested_range(a + value + b) == requested_range(value),
{
    text::lemma_trimmed_around(a, value, b);
}

/// A value without the unit `bytes`, and one without a dash in its first range, ask for
/// everything.
pub proof fn law_other_values_ask_for_everything(value: Seq<char>, first: Seq<char>)
    requires
        value.len() > 0 ==> !text::white_space(value.first()),
        value.len() < 6 || value.take(6) != "bytes="@,
        lacks(first, '-'),
        lacks(first, ','),
    ensures
        requested_range(value) == (0int, -1int),
        requested_range("bytes="@ + first) == (0int, -1int),
{
    reveal_strlit("bytes=");
    lemma_trimmed_end_is_prefix(value);
    let v = text::trimmed(value);
    if starts_with(v, "bytes="@) {
        assert(v.take(6) =~= value.take(6));
    }
    lemma_single_range(first);
    lemma_trimmed_lacks(first, '-');
    lemma_trimmed_lacks(text::trimmed_start(first), '-');
    text::lemma_first_position_absent(text::trimmed(first), '-');
}

/// Trimming the end leaves a prefix.
proof fn lemma_trimmed_end_is_prefix(s: Seq<char>)
    ensures
        text::trimmed_end(s).len() <= s.len(),
        text::trimmed_end(s) == s.take(text::trimmed_end(s).len() as int),
    decreases s.len(),
{
    if s.len() > 0 && text::white_space(s.last()) {
        lemma_trimmed_end_is_prefix(s.drop_last());
        let n = text::trimmed_end(s).len() as int;
        assert(s.drop_last().take(n) =~= s.take(n));
    } else {
        assert(s.take(s.len() as int) =~= s);
    }
}

/// The total is the number behind the last slash, white space left aside. Without a
/// slash there is none.
pub proof fn law_total_is_behind_the_last_slash(head: Seq<char>, total: Seq<char>)
    requires
        lacks(total, '/'),
    ensures
        stated_total(head + "/"@ + total) == text::i64_value(text::trimmed(total)),
        stated_total(total) is None,
{
    reveal_strlit("/");
    assert("/"@ =~= seq!['/']);
    let value = head + seq!['/'] + total;
    text::lemma_last_position_between(head, '/', total);
    assert(value.skip(head.len() as int + 1) =~= total);
    lemma_last_position_absent(total);
}

/// There is no last slash where there is no slash.
proof fn lemma_last_position_absent(s: Seq<char>)
    requires
        lacks(s, '/'),
    ensures
        text::last_position(s, '/') == -1,
    decreases s.len(),
{
    if s.len() > 0 {
        assert(s[s.len() - 1] != '/');
        assert(lacks(s.drop_last(), '/')) by {
            assert forall|i: int| 0 <= i < s.drop_last().len() implies #[trigger] s.drop_last()[i]
                != '/' by {
                assert(s[i] != '/');
            }
        }
        lemma_last_position_absent(s.drop_last());
    }
}

/// A `Range` value that this library writes is read back as the bounds that were
/// written, whatever the end.
pub proof fn law_range_reads_back(start: i64, end: i64)
    requires
        start >= 0,
    ensures
        range_text(start as int, end as int) == "bytes="@ + text::decimal(start as int) + "-"@
            + text::decimal(end as int),
        requested_range(range_text(start as int, end as int)) == (start as int, end as int),
{
    let s = text::decimal(start as int);
    let e = text::decimal(end as int);
    let value = range_text(start as int, end as int);
    let rest = s + "-"@ + e;
    reveal_strlit("bytes=");
    reveal_strlit("-");
    text::lemma_decimal_chars(start as int);
    text::lemma_decimal_chars(end as int);
    text::law_decimal_reads_back(start);
    text::law_decimal_reads_back(end);
    assert("-"@ =~= seq!['-']);
    assert(value.len() == 6 + rest.len());
    assert(value[0] == 'b');
    assert(value.last() == e.last());
    text::lemma_trimmed_unchanged(value);
    assert(value.take(6) =~= "bytes="@);
    assert(value.skip(6) =~= rest);
    assert forall|i: int| 0 <= i < rest.len() implies #[trigger] rest[i] != ',' by {
        if i < s.len() {
            assert(rest[i] == s[i]);
        } else if i > s.len() {
            assert(rest[i] == e[i - s.len() - 1]);
        }
    }
    text::lemma_first_position_absent(rest, ',');
    assert(rest.take(rest.len() as int) =~= rest);
    assert(rest.first() == s.first());
    assert(rest.last() == e.last());
    text::lemma_trimmed_unchanged(rest);
    text::lemma_first_position_between(s, '-', e);
    assert(rest.take(s.len() as int) =~= s);
    assert(rest.skip(s.len() as int + 1) =~= e);
    text::lemma_trimmed_unchanged(s);
    text::lemma_trimmed_unchanged(e);
}

/// A `Content-Range` value that this library writes states the total that was written.
pub proof fn law_total_reads_back(start: i64, end: i64, total: i64)
    ensures
        content_range_text(start as int, end as int, total as int) == "bytes "@ + text::decimal(
            start as int,
        ) + "-"@ + text::decimal(end as int) + "/"@ + text::decimal(total as int),
        stated_total(content_range_text(start as int, end as int, total as int)) == Some(total),
{
    let head = "bytes "@ + text::decimal(start as int) + "-"@ + text::decimal(end as int);
    let t = text::decimal(total as int);
    let value = content_range_text(start as int, end as int, total as int);
    reveal_strlit("/");
    assert("/"@ =~= seq!['/']);
    text::lemma_decimal_chars(total as int);
    text::law_decimal_reads_back(total);
    text::lemma_last_position_between(head, '/', t);
    assert(value =~= head + seq!['/'] + t);
    assert(value.skip(head.len() as int + 1) =~= t);
    text::lemma_trimmed_unchanged(t);
}

} // verus!
