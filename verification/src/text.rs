//! Text handling: white space, splitting, and decimal integers.

use vstd::prelude::*;
use vstd::slice::slice_subrange;
use vstd::string::*;

verus! {

/// Whether `c` has the Unicode property `White_Space`.
pub open spec fn white_space(c: char) -> bool {
    let n = c as u32;
    ||| 0x09 <= n <= 0x0d
    ||| n == 0x20
    ||| n == 0x85
    ||| n == 0xa0
    ||| n == 0x1680
    ||| 0x2000 <= n <= 0x200a
    ||| n == 0x2028
    ||| n == 0x2029
    ||| n == 0x202f
    ||| n == 0x205f
    ||| n == 0x3000
}

/// `s` without its leading white space.
pub open spec fn trimmed_start(s: Seq<char>) -> Seq<char>
    decreases s.len(),
{
    if s.len() > 0 && white_space(s.first()) {
        trimmed_start(s.drop_first())
    } else {
        s
    }
}

/// `s` without its trailing white space.
pub open spec fn trimmed_end(s: Seq<char>) -> Seq<char>
    decreases s.len(),
{
    if s.len() > 0 && white_space(s.last()) {
        trimmed_end(s.drop_last())
    } else {
        s
    }
}

/// `s` without the white space at both ends.
pub open spec fn trimmed(s: Seq<char>) -> Seq<char> {
    trimmed_end(trimmed_start(s))
}

/// The position of the first `c` in `s`, or the length of `s` if there is none.
pub open spec fn first_position(s: Seq<char>, c: char) -> int
    decreases s.len(),
{
    if s.len() == 0 || s.first() == c {
        0
    } else {
        1 + first_position(s.drop_first(), c)
    }
}

/// The position of the last `c` in `s`, or -1 if there is none.
pub open spec fn last_position(s: Seq<char>, c: char) -> int
    decreases s.len(),
{
    if s.len() == 0 {
        -1
    } else if s.last() == c {
        s.len() - 1
    } else {
        last_position(s.drop_last(), c)
    }
}

/// Whether `c` is an ASCII decimal digit.
pub open spec fn is_digit(c: char) -> bool {
    '0' <= c <= '9'
}

/// The value of the ASCII decimal digit `c`.
pub open spec fn digit_value(c: char) -> int {
    c as int - '0' as int
}

/// Whether `s` is one or more ASCII decimal digits.
pub open spec fn is_digits(s: Seq<char>) -> bool {
    s.len() > 0 && forall|i: int| 0 <= i < s.len() ==> is_digit(#[trigger] s[i])
}

/// The number that the decimal digits `s` denote.
pub open spec fn digits_value(s: Seq<char>) -> int
    decreases s.len(),
{
    if s.len() == 0 {
        0
    } else {
        digits_value(s.drop_last()) * 10 + digit_value(s.last())
    }
}

/// The integer that `s` denotes: decimal digits after at most one sign, of which
/// `-` is allowed only where `signed` holds.
pub open spec fn integer_value(s: Seq<char>, signed: bool) -> Option<int> {
    if signed && s.len() > 0 && s[0] == '-' {
        if is_digits(s.skip(1)) {
            Some(-digits_value(s.skip(1)))
        } else {
            None
        }
    } else {
        let digits = if s.len() > 0 && s[0] == '+' {
            s.skip(1)
        } else {
            s
        };
        if is_digits(digits) {
            Some(digits_value(digits))
        } else {
            None
        }
    }
}

/// The `i64` that `s` denotes, if it denotes one.
pub open spec fn i64_value(s: Seq<char>) -> Option<i64> {
    match integer_value(s, true) {
        Some(v) => if i64::MIN <= v <= i64::MAX {
            Some(v as i64)
        } else {
            None
        },
        None => None,
    }
}

/// The `usize` that `s` denotes, if it denotes one.
pub open spec fn usize_value(s: Seq<char>) -> Option<usize> {
    match integer_value(s, false) {
        Some(v) => if v <= usize::MAX {
            Some(v as usize)
        } else {
            None
        },
        None => None,
    }
}

/// The `u16` that `s` denotes, if it denotes one.
pub open spec fn u16_value(s: Seq<char>) -> Option<u16> {
    match integer_value(s, false) {
        Some(v) => if v <= u16::MAX {
            Some(v as u16)
        } else {
            None
        },
        None => None,
    }
}

/// The ASCII digit for `d`, where `d` is below ten.
pub open spec fn digit_char(d: int) -> char {
    (d + '0' as int) as char
}

/// The decimal digits of `n`, without leading zeros.
pub open spec fn natural_text(n: nat) -> Seq<char>
    decreases n,
{
    if n < 10 {
        seq![digit_char(n as int)]
    } else {
        natural_text(n / 10).push(digit_char((n % 10) as int))
    }
}

/// The decimal notation of `n`.
pub open spec fn decimal(n: int) -> Seq<char> {
    if n < 0 {
        seq!['-'] + natural_text((-n) as nat)
    } else {
        natural_text(n as nat)
    }
}

/// Every prefix of a digit string denotes at most what the whole string denotes.
proof fn lemma_digits_value_monotonic(s: Seq<char>, k: int)
    requires
        0 <= k <= s.len(),
        forall|i: int| 0 <= i < s.len() ==> is_digit(#[trigger] s[i]),
    ensures
        0 <= digits_value(s.take(k)) <= digits_value(s),
    decreases s.len(),
{
    if s.len() == 0 {
        assert(s.take(k) =~= s);
    } else if k == s.len() {
        assert(s.take(k) =~= s);
        lemma_digits_value_monotonic(s.drop_last(), s.len() - 1);
        assert(s.drop_last().take(s.len() - 1) =~= s.drop_last());
        assert(is_digit(s[s.len() - 1]));
    } else {
        lemma_digits_value_monotonic(s.drop_last(), k);
        assert(s.drop_last().take(k) =~= s.take(k));
        assert(is_digit(s[s.len() - 1]));
    }
}

/// The decimal digits of `n` are digits that denote `n`.
pub proof fn lemma_natural_text(n: nat)
    ensures
        is_digits(natural_text(n)),
        digits_value(natural_text(n)) == n,
    decreases n,
{
    if n < 10 {
        let s = natural_text(n);
        assert(s.drop_last() =~= Seq::<char>::empty());
        assert(digits_value(s.drop_last()) == 0);
    } else {
        lemma_natural_text(n / 10);
        let s = natural_text(n);
        assert(s.drop_last() =~= natural_text(n / 10));
        assert forall|i: int| 0 <= i < s.len() implies is_digit(#[trigger] s[i]) by {
            if i < s.len() - 1 {
                assert(s[i] == natural_text(n / 10)[i]);
            }
        }
    }
}

/// Reading back the decimal notation of an `i64` gives that `i64`.
pub proof fn law_decimal_reads_back(n: i64)
    ensures
        i64_value(decimal(n as int)) == Some(n),
{
    if n < 0 {
        lemma_natural_text((-n) as nat);
        assert(decimal(n as int).skip(1) =~= natural_text((-n) as nat));
    } else {
        lemma_natural_text(n as nat);
        assert(is_digit(natural_text(n as nat)[0]));
    }
}

/// A decimal notation is not empty; its last character is a digit, its first one a
/// digit or, below zero, a minus sign, and all others are digits.
pub proof fn lemma_decimal_chars(n: int)
    ensures
        decimal(n).len() > 0,
        is_digit(decimal(n).last()),
        n >= 0 ==> is_digit(decimal(n).first()),
        n < 0 ==> decimal(n).first() == '-',
        forall|i: int| 0 <= i < decimal(n).len() ==> is_digit(#[trigger] decimal(n)[i]) || (n < 0 && i == 0),
{
    if n < 0 {
        lemma_natural_text((-n) as nat);
        let t = natural_text((-n) as nat);
        assert forall|i: int| 0 <= i < decimal(n).len() implies is_digit(#[trigger] decimal(n)[i])
            || (n < 0 && i == 0) by {
            if i > 0 {
                assert(decimal(n)[i] == t[i - 1]);
            }
        }
        assert(is_digit(t[t.len() - 1]));
    } else {
        lemma_natural_text(n as nat);
    }
}

/// Text that begins and ends with something else than white space has nothing to trim.
pub proof fn lemma_trimmed_unchanged(s: Seq<char>)
    requires
        s.len() > 0,
        !white_space(s.first()),
        !white_space(s.last()),
    ensures
        trimmed(s) == s,
{
}

/// The first position of a character that does not occur is the length.
pub proof fn lemma_first_position_absent(s: Seq<char>, c: char)
    requires
        forall|i: int| 0 <= i < s.len() ==> #[trigger] s[i] != c,
    ensures
        first_position(s, c) == s.len(),
    decreases s.len(),
{
    if s.len() > 0 {
        assert(s[0] != c);
        assert forall|i: int| 0 <= i < s.drop_first().len() implies #[trigger] s.drop_first()[i]
            != c by {
            assert(s[i + 1] != c);
        }
        lemma_first_position_absent(s.drop_first(), c);
    }
}

/// The first position of a character is where the text before it, free of it, ends.
pub proof fn lemma_first_position_between(a: Seq<char>, c: char, b: Seq<char>)
    requires
        forall|i: int| 0 <= i < a.len() ==> #[trigger] a[i] != c,
    ensures
        first_position(a + seq![c] + b, c) == a.len(),
    decreases a.len(),
{
    let s = a + seq![c] + b;
    if a.len() > 0 {
        assert(a[0] != c);
        assert forall|i: int| 0 <= i < a.drop_first().len() implies #[trigger] a.drop_first()[i]
            != c by {
            assert(a[i + 1] != c);
        }
        lemma_first_position_between(a.drop_first(), c, b);
        assert(s.drop_first() =~= a.drop_first() + seq![c] + b);
    }
}

/// The last position of a character is right before the text behind it, free of it.
pub proof fn lemma_last_position_between(a: Seq<char>, c: char, b: Seq<char>)
    requires
        forall|i: int| 0 <= i < b.len() ==> #[trigger] b[i] != c,
    ensures
        last_position(a + seq![c] + b, c) == a.len(),
    decreases b.len(),
{
    let s = a + seq![c] + b;
    if b.len() > 0 {
        assert(b[b.len() - 1] != c);
        assert forall|i: int| 0 <= i < b.drop_last().len() implies #[trigger] b.drop_last()[i]
            != c by {
            assert(b[i] != c);
        }
        lemma_last_position_between(a, c, b.drop_last());
        assert(s.drop_last() =~= a + seq![c] + b.drop_last());
    }
}

/// Whether `s` is nothing but white space.
pub open spec fn is_blank(s: Seq<char>) -> bool {
    forall|i: int| 0 <= i < s.len() ==> white_space(#[trigger] s[i])
}

/// Leading white space does not count.
pub proof fn lemma_trimmed_start_skips(a: Seq<char>, s: Seq<char>)
    requires
        is_blank(a),
    ensures
        trimmed_start(a + s) == trimmed_start(s),
    decreases a.len(),
{
    if a.len() == 0 {
        assert(a + s =~= s);
    } else {
        assert(white_space(a[0]));
        assert((a + s).drop_first() =~= a.drop_first() + s);
        assert forall|i: int| 0 <= i < a.drop_first().len() implies white_space(
            #[trigger] a.drop_first()[i],
        ) by {
            assert(white_space(a[i + 1]));
        }
        lemma_trimmed_start_skips(a.drop_first(), s);
    }
}

/// Trailing white space does not count.
pub proof fn lemma_trimmed_end_skips(s: Seq<char>, b: Seq<char>)
    requires
        is_blank(b),
    ensures
        trimmed_end(s + b) == trimmed_end(s),
    decreases b.len(),
{
    if b.len() == 0 {
        assert(s + b =~= s);
    } else {
        assert(white_space(b[b.len() - 1]));
        assert((s + b).drop_last() =~= s + b.drop_last());
        assert forall|i: int| 0 <= i < b.drop_last().len() implies white_space(
            #[trigger] b.drop_last()[i],
        ) by {
            assert(white_space(b[i]));
        }
        lemma_trimmed_end_skips(s, b.drop_last());
    }
}

/// What starts with something else than white space keeps that from being trimmed.
pub proof fn lemma_trimmed_start_keeps(s: Seq<char>, x: Seq<char>)
    requires
        x.len() > 0,
        !white_space(x.first()),
    ensures
        trimmed_start(s + x) == trimmed_start(s) + x,
    decreases s.len(),
{
    if s.len() == 0 {
        assert(s + x =~= x);
        assert(trimmed_start(s) + x =~= x);
    } else {
        assert((s + x).first() == s.first());
        assert((s + x).drop_first() =~= s.drop_first() + x);
        lemma_trimmed_start_keeps(s.drop_first(), x);
    }
}

/// What ends with something else than white space keeps that from being trimmed.
pub proof fn lemma_trimmed_end_keeps(x: Seq<char>, s: Seq<char>)
    requires
        x.len() > 0,
        !white_space(x.last()),
    ensures
        trimmed_end(x + s) == x + trimmed_end(s),
    decreases s.len(),
{
    if s.len() == 0 {
        assert(x + s =~= x);
        assert(x + trimmed_end(s) =~= x);
    } else {
        assert((x + s).last() == s.last());
        assert((x + s).drop_last() =~= x + s.drop_last());
        lemma_trimmed_end_keeps(x, s.drop_last());
    }
}

/// Trimming the start twice is trimming it once.
pub proof fn lemma_trimmed_start_twice(s: Seq<char>)
    ensures
        trimmed_start(trimmed_start(s)) == trimmed_start(s),
    decreases s.len(),
{
    if s.len() > 0 && white_space(s.first()) {
        lemma_trimmed_start_twice(s.drop_first());
    }
}

/// A last character that is white space does not count.
proof fn lemma_trimmed_drops_last(s: Seq<char>)
    requires
        s.len() > 0,
        white_space(s.last()),
    ensures
        trimmed(s) == trimmed(s.drop_last()),
    decreases s.len(),
{
    if white_space(s.first()) {
        if s.len() == 1 {
            assert(s.drop_first() =~= s.drop_last());
            assert(trimmed_start(s.drop_last()) == s.drop_last());
        } else {
            lemma_trimmed_drops_last(s.drop_first());
            assert(s.drop_last().first() == s.first());
            assert(s.drop_first().drop_last() =~= s.drop_last().drop_first());
        }
    } else {
        assert(s.len() > 1);
        assert(s.drop_last().first() == s.first());
    }
}

/// Trimming the end before trimming makes no difference.
pub proof fn lemma_trimmed_after_end(s: Seq<char>)
    ensures
        trimmed(trimmed_end(s)) == trimmed(s),
    decreases s.len(),
{
    if s.len() > 0 && white_space(s.last()) {
        lemma_trimmed_drops_last(s);
        lemma_trimmed_after_end(s.drop_last());
    }
}

/// White space around a text does not count, and nothing else is lost: what is left of
/// `a + s + b` is `s`, where `a` and `b` are white space and `s` does not begin or end
/// with any.
pub proof fn law_trimming(a: Seq<char>, s: Seq<char>, b: Seq<char>)
    requires
        is_blank(a),
        is_blank(b),
        s.len() > 0 ==> !white_space(s.first()) && !white_space(s.last()),
    ensures
        trimmed(a + s + b) == s,
{
    lemma_trimmed_around(a, s, b);
    if s.len() > 0 {
        lemma_trimmed_unchanged(s);
    }
}

/// White space around a text does not count.
pub proof fn lemma_trimmed_around(a: Seq<char>, s: Seq<char>, b: Seq<char>)
    requires
        is_blank(a),
        is_blank(b),
    ensures
        trimmed(a + s + b) == trimmed(s),
    decreases b.len(),
{
    if b.len() == 0 {
        assert(a + s + b =~= a + s);
        lemma_trimmed_start_skips(a, s);
    } else {
        let t = a + s + b;
        assert(white_space(b[b.len() - 1]));
        assert(t.last() == b.last());
        assert(t.drop_last() =~= a + s + b.drop_last());
        assert forall|i: int| 0 <= i < b.drop_last().len() implies white_space(
            #[trigger] b.drop_last()[i],
        ) by {
            assert(white_space(b[i]));
        }
        lemma_trimmed_drops_last(t);
        lemma_trimmed_around(a, s, b.drop_last());
    }
}

/// White space among the ASCII characters is the blank and the control characters from
/// the tab to the carriage return, and there are some characters beyond ASCII.
pub proof fn law_white_space(c: char)
    ensures
        c <= '\u{7f}' ==> (white_space(c) <==> c == ' ' || '\t' <= c <= '\r'),
        c > '\u{7f}' ==> (white_space(c) <==> c == '\u{85}' || c == '\u{a0}' || c == '\u{1680}'
            || '\u{2000}' <= c <= '\u{200a}' || c == '\u{2028}' || c == '\u{2029}' || c
            == '\u{202f}' || c == '\u{205f}' || c == '\u{3000}'),
{
}

/// A single digit denotes itself, with or without a sign.
pub proof fn law_one_digit(c: char)
    requires
        '0' <= c <= '9',
    ensures
        i64_value(seq![c]) == Some((c as int - 48) as i64),
        i64_value(seq!['+', c]) == Some((c as int - 48) as i64),
        i64_value(seq!['-', c]) == Some((48 - c as int) as i64),
{
    let s = seq![c];
    assert(s.drop_last() =~= Seq::<char>::empty());
    assert(digits_value(s.drop_last()) == 0);
    assert(digits_value(s) == digit_value(c));
    assert(is_digit(s[0]));
    assert(seq!['+', c].skip(1) =~= s);
    assert(seq!['-', c].skip(1) =~= s);
}

/// The digits of `s.push(c)` behind the sign.
proof fn lemma_digits_push(s: Seq<char>, c: char)
    ensures
        digits_value(s.push(c)) == digits_value(s) * 10 + digit_value(c),
        s.len() > 0 ==> (is_digits(s.push(c)) <==> is_digits(s) && is_digit(c)),
{
    let t = s.push(c);
    assert(t.drop_last() =~= s);
    if s.len() > 0 {
        if is_digits(s) && is_digit(c) {
            assert forall|i: int| 0 <= i < t.len() implies is_digit(#[trigger] t[i]) by {
                if i < s.len() {
                    assert(t[i] == s[i]);
                }
            }
        }
        if is_digits(t) {
            assert forall|i: int| 0 <= i < s.len() implies is_digit(#[trigger] s[i]) by {
                assert(t[i] == s[i]);
            }
            assert(is_digit(t[s.len() as int]));
        }
    }
}

/// Whether `s` is no more than a sign, or nothing.
pub open spec fn has_no_digits(s: Seq<char>) -> bool {
    s.len() == 0 || s == seq!['+'] || s == seq!['-']
}

/// A further digit makes a number ten times as large and adds the digit, away from zero.
/// A number that is out of range stays so, and one that is in range is one as long as
/// it stays in range.
pub proof fn law_further_digit(s: Seq<char>, c: char)
    requires
        !has_no_digits(s),
        '0' <= c <= '9',
    ensures
        match i64_value(s) {
            Some(v) => {
                let d = c as int - 48;
                let w = if s[0] == '-' {
                    10 * v - d
                } else {
                    10 * v + d
                };
                i64_value(s.push(c)) == if -0x8000_0000_0000_0000 <= w <= 0x7fff_ffff_ffff_ffff {
                    Some(w as i64)
                } else {
                    None::<i64>
                }
            },
            None => i64_value(s.push(c)) is None,
        },
{
    let t = s.push(c);
    assert(t[0] == s[0]);
    let signed = s[0] == '-' || s[0] == '+';
    let digits = if signed {
        s.skip(1)
    } else {
        s
    };
    if signed {
        assert(t.skip(1) =~= digits.push(c));
        if digits.len() == 0 {
            assert(s =~= seq![s[0]]);
        }
    }
    lemma_digits_push(digits, c);
    if is_digits(digits) {
        lemma_digits_value_monotonic(digits, 0);
    }
}

/// As for signed numbers, a further digit makes an unsigned number ten times as large and
/// adds the digit, as long as it stays in range.
pub proof fn law_further_digit_unsigned(s: Seq<char>, c: char)
    requires
        !has_no_digits(s),
        s[0] != '-',
        '0' <= c <= '9',
    ensures
        match usize_value(s) {
            Some(v) => {
                let w = 10 * v + (c as int - 48);
                usize_value(s.push(c)) == if w <= usize::MAX {
                    Some(w as usize)
                } else {
                    None::<usize>
                }
            },
            None => usize_value(s.push(c)) is None,
        },
{
    let t = s.push(c);
    assert(t[0] == s[0]);
    let digits = if s[0] == '+' {
        s.skip(1)
    } else {
        s
    };
    if s[0] == '+' {
        assert(t.skip(1) =~= digits.push(c));
        if digits.len() == 0 {
            assert(s =~= seq![s[0]]);
        }
    }
    lemma_digits_push(digits, c);
    if is_digits(digits) {
        lemma_digits_value_monotonic(digits, 0);
    }
}

/// A number is one or more digits, behind at most one sign. Nothing else is a number.
pub proof fn law_number_grammar(s: Seq<char>)
    requires
        i64_value(s) is Some,
    ensures
        !has_no_digits(s),
        '0' <= s[0] <= '9' || s[0] == '+' || s[0] == '-',
        forall|i: int| 1 <= i < s.len() ==> '0' <= #[trigger] s[i] <= '9',
{
    let signed = s[0] == '-' || s[0] == '+';
    if signed {
        assert(is_digits(s.skip(1)));
        assert forall|i: int| 1 <= i < s.len() implies '0' <= #[trigger] s[i] <= '9' by {
            assert(is_digit(s.skip(1)[i - 1]));
        }
    } else {
        assert forall|i: int| 0 <= i < s.len() implies '0' <= #[trigger] s[i] <= '9' by {
            assert(is_digit(s[i]));
        }
    }
}

/// Reading a text as a number without a sign agrees with reading it as a signed one, but
/// for the range, and but for a minus sign, which is refused even before zero.
pub proof fn law_unsigned_numbers(s: Seq<char>)
    ensures
        s.len() > 0 && s[0] == '-' ==> u16_value(s) is None && usize_value(s) is None,
        s.len() == 0 || s[0] != '-' ==> {
            &&& u16_value(s) matches Some(v) ==> i64_value(s) == Some(v as i64)
            &&& i64_value(s) matches Some(v) ==> if v <= 65535 {
                u16_value(s) == Some(v as u16)
            } else {
                u16_value(s) is None
            }
            &&& i64_value(s) matches Some(v) ==> if v <= usize::MAX {
                usize_value(s) == Some(v as usize)
            } else {
                usize_value(s) is None
            }
            &&& usize_value(s) matches Some(v) ==> if v <= i64::MAX {
                i64_value(s) == Some(v as i64)
            } else {
                i64_value(s) is None
            }
        },
{
    if s.len() > 0 && s[0] == '-' {
        if is_digits(s) {
            assert(is_digit(s[0]));
        }
    } else {
        let digits = if s.len() > 0 && s[0] == '+' {
            s.skip(1)
        } else {
            s
        };
        if is_digits(digits) {
            lemma_digits_value_monotonic(digits, 0);
        }
    }
}

/// Decimal notation has no plus sign and no needless zeros, and a minus sign only below
/// zero.
pub proof fn law_decimal_is_shortest(n: int)
    ensures
        decimal(n).len() > 0,
        n < 0 ==> decimal(n)[0] == '-' && decimal(n).len() > 1 && decimal(n)[1] != '0',
        n == 0 ==> decimal(n) == seq!['0'],
        n > 0 ==> '1' <= decimal(n)[0] <= '9',
        forall|i: int| 1 <= i < decimal(n).len() ==> '0' <= #[trigger] decimal(n)[i] <= '9',
{
    lemma_decimal_chars(n);
    if n < 0 {
        lemma_first_digit((-n) as nat);
        lemma_natural_text((-n) as nat);
    } else if n > 0 {
        lemma_first_digit(n as nat);
    }
    assert forall|i: int| 1 <= i < decimal(n).len() implies '0' <= #[trigger] decimal(n)[i]
        <= '9' by {
        assert(is_digit(decimal(n)[i]));
    }
}

/// The first digit of a number above zero is not zero.
proof fn lemma_first_digit(n: nat)
    requires
        n > 0,
    ensures
        natural_text(n).len() > 0,
        '1' <= natural_text(n)[0] <= '9',
    decreases n,
{
    if n >= 10 {
        lemma_first_digit(n / 10);
    }
}

/// Whether `c` has the Unicode property `White_Space`.
pub fn is_white_space(c: char) -> (result: bool)
    ensures
        result == white_space(c),
{
    let n: u32 = c as u32;
    (0x09 <= n && n <= 0x0d) || n == 0x20 || n == 0x85 || n == 0xa0 || n == 0x1680 || (0x2000 <= n
        && n <= 0x200a) || n == 0x2028 || n == 0x2029 || n == 0x202f || n == 0x205f || n == 0x3000
}

/// The characters of `s`.
pub(crate) fn chars_of(s: &str) -> (result: Vec<char>)
    ensures
        result@ == s@,
{
    let mut out: Vec<char> = Vec::new();
    for c in it: s.chars()
        invariant
            it.seq() == s@,
            out@ == s@.take(it.index()),
    {
        out.push(c);
    }
    assert(s@.take(s@.len() as int) =~= s@);
    out
}

/// `s` without the white space at both ends.
pub(crate) fn trim(s: &[char]) -> (result: &[char])
    ensures
        result@ == trimmed(s@),
{
    let mut lo: usize = 0;
    let n: usize = s.len();
    assert(s@.skip(0) =~= s@);
    while lo < n && is_white_space(s[lo])
        invariant
            lo <= n,
            n == s@.len(),
            trimmed_start(s@) == trimmed_start(s@.skip(lo as int)),
        decreases n - lo,
    {
        assert(s@.skip(lo as int).drop_first() =~= s@.skip(lo + 1));
        lo = lo + 1;
    }
    assert(trimmed_start(s@) == s@.skip(lo as int));
    let ghost rest = s@.skip(lo as int);
    let mut hi: usize = n;
    assert(rest.take(hi - lo) =~= rest);
    while hi > lo && is_white_space(s[hi - 1])
        invariant
            lo <= hi <= n,
            n == s@.len(),
            rest == s@.skip(lo as int),
            trimmed_end(rest) == trimmed_end(rest.take(hi - lo)),
        decreases hi,
    {
        assert(rest.take(hi - lo).drop_last() =~= rest.take(hi - lo - 1));
        hi = hi - 1;
    }
    assert(s@.subrange(lo as int, hi as int) =~= rest.take(hi - lo));
    slice_subrange(s, lo, hi)
}

/// The position of the first `c` in `s`, or the length of `s` if there is none.
pub(crate) fn find_first(s: &[char], c: char) -> (result: usize)
    ensures
        result == first_position(s@, c),
        result <= s@.len(),
        result < s@.len() ==> s@[result as int] == c,
{
    let mut i: usize = 0;
    let n: usize = s.len();
    assert(s@.skip(0) =~= s@);
    while i < n && s[i] != c
        invariant
            i <= n,
            n == s@.len(),
            first_position(s@, c) == i + first_position(s@.skip(i as int), c),
        decreases n - i,
    {
        assert(s@.skip(i as int).drop_first() =~= s@.skip(i + 1));
        i = i + 1;
    }
    i
}

/// The position of the last `c` in `s`, if there is one.
pub(crate) fn find_last(s: &[char], c: char) -> (result: Option<usize>)
    ensures
        match result {
            Some(i) => i == last_position(s@, c) && i < s@.len(),
            None => last_position(s@, c) == -1,
        },
{
    let mut i: usize = s.len();
    assert(s@.take(i as int) =~= s@);
    while i > 0
        invariant
            i <= s@.len(),
            last_position(s@, c) == last_position(s@.take(i as int), c),
        decreases i,
    {
        assert(s@.take(i as int).drop_last() =~= s@.take(i - 1));
        if s[i - 1] == c {
            return Some(i - 1);
        }
        i = i - 1;
    }
    None
}

/// The number that the digits `s` denote, if they are digits and it is at most `max`.
fn parse_magnitude(s: &[char], max: u64) -> (result: Option<u64>)
    ensures
        match result {
            Some(v) => is_digits(s@) && digits_value(s@) == v && v <= max,
            None => !is_digits(s@) || digits_value(s@) > max,
        },
{
    let n: usize = s.len();
    if n == 0 {
        return None;
    }
    let mut value: u64 = 0;
    let mut i: usize = 0;
    while i < n
        invariant
            i <= n,
            n == s@.len(),
            value == digits_value(s@.take(i as int)),
            value <= max,
            forall|j: int| 0 <= j < i ==> is_digit(#[trigger] s@[j]),
        decreases n - i,
    {
        let c = s[i];
        if c < '0' || '9' < c {
            assert(!is_digit(s@[i as int]));
            return None;
        }
        let d: u64 = c as u64 - '0' as u64;
        assert(s@.take(i + 1).drop_last() =~= s@.take(i as int));
        let next: u128 = value as u128 * 10 + d as u128;
        if next > max as u128 {
            proof {
                if is_digits(s@) {
                    lemma_digits_value_monotonic(s@, i + 1);
                }
            }
            return None;
        }
        value = next as u64;
        i = i + 1;
    }
    assert(s@.take(n as int) =~= s@);
    Some(value)
}

/// The part of `s` behind its first character.
fn behind_first(s: &[char]) -> (result: &[char])
    requires
        s@.len() > 0,
    ensures
        result@ == s@.skip(1),
{
    assert(s@.subrange(1, s@.len() as int) =~= s@.skip(1));
    slice_subrange(s, 1, s.len())
}

/// The number up to `max` that `s` denotes without a minus sign.
fn parse_unsigned(s: &[char], max: u64) -> (result: Option<u64>)
    ensures
        match (result, integer_value(s@, false)) {
            (Some(v), Some(w)) => v == w && v <= max,
            (None, Some(w)) => w > max,
            (None, None) => true,
            (Some(_), None) => false,
        },
{
    if s.len() > 0 && s[0] == '+' {
        parse_magnitude(behind_first(s), max)
    } else {
        parse_magnitude(s, max)
    }
}

/// The `i64` that the characters `s` denote, if they denote one.
pub(crate) fn parse_i64_chars(s: &[char]) -> (result: Option<i64>)
    ensures
        result == i64_value(s@),
{
    if s.len() > 0 && s[0] == '-' {
        match parse_magnitude(behind_first(s), 0x8000_0000_0000_0000) {
            Some(v) => if v == 0x8000_0000_0000_0000 {
                Some(i64::MIN)
            } else {
                Some(-(v as i64))
            },
            None => None,
        }
    } else {
        match parse_unsigned(s, 0x7fff_ffff_ffff_ffff) {
            Some(v) => Some(v as i64),
            None => None,
        }
    }
}

/// The `i64` that `s` denotes: digits after at most one sign, within range.
pub fn parse_i64(s: &str) -> (result: Option<i64>)
    ensures
        result == i64_value(s@),
{
    parse_i64_chars(chars_of(s).as_slice())
}

/// The `usize` that `s` denotes: digits after at most one plus sign, within range.
pub fn parse_usize(s: &str) -> (result: Option<usize>)
    ensures
        result == usize_value(s@),
{
    match parse_unsigned(chars_of(s).as_slice(), usize::MAX as u64) {
        Some(v) => Some(v as usize),
        None => None,
    }
}

/// The `u16` that `s` denotes: digits after at most one plus sign, within range.
pub fn parse_u16(s: &str) -> (result: Option<u16>)
    ensures
        result == u16_value(s@),
{
    match parse_unsigned(chars_of(s).as_slice(), u16::MAX as u64) {
        Some(v) => Some(v as u16),
        None => None,
    }
}

/// The text of one decimal digit.
fn digit_text(d: u64) -> (result: &'static str)
    requires
        d < 10,
    ensures
        result@ == seq![digit_char(d as int)],
{
    proof {
        reveal_strlit("0");
        reveal_strlit("1");
        reveal_strlit("2");
        reveal_strlit("3");
        reveal_strlit("4");
        reveal_strlit("5");
        reveal_strlit("6");
        reveal_strlit("7");
        reveal_strlit("8");
        reveal_strlit("9");
    }
    match d {
        0 => "0",
        1 => "1",
        2 => "2",
        3 => "3",
        4 => "4",
        5 => "5",
        6 => "6",
        7 => "7",
        8 => "8",
        _ => "9",
    }
}

/// Appends the decimal digits of `n` to `out`.
pub(crate) fn push_natural(out: &mut String, n: u64)
    ensures
        final(out)@ == old(out)@ + natural_text(n as nat),
    decreases n,
{
    if n >= 10 {
        push_natural(out, n / 10);
    }
    out.append(digit_text(n % 10));
    assert(out@ =~= old(out)@ + natural_text(n as nat));
}

/// Appends the decimal notation of `n` to `out`.
pub(crate) fn push_integer(out: &mut String, n: i64)
    ensures
        final(out)@ == old(out)@ + decimal(n as int),
{
    if n < 0 {
        proof {
            reveal_strlit("-");
        }
        out.append("-");
        let magnitude: u64 = if n == i64::MIN {
            0x8000_0000_0000_0000
        } else {
            (-n) as u64
        };
        push_natural(out, magnitude);
        assert("-"@ =~= seq!['-']);
    } else {
        push_natural(out, n as u64);
    }
    assert(out@ =~= old(out)@ + decimal(n as int));
}

/// The decimal notation of `n`.
pub fn to_decimal(n: i64) -> (result: String)
    ensures
        result@ == decimal(n as int),
{
    let mut out = String::new();
    push_integer(&mut out, n);
    assert(out@ =~= decimal(n as int));
    out
}

} // verus!
