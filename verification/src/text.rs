//! Numbers as text, in both directions, and the labels made of them.
use vstd::prelude::*;
use vstd::string::{StrSliceExecFns, StringExecFns};

verus! {

/// The character of a decimal digit.
pub open spec fn digit_char(d: int) -> char {
    ('0' as int + d) as char
}

/// A number in decimal digits, without leading zeros.
pub open spec fn decimal(n: int) -> Seq<char>
    decreases n,
{
    if n < 10 {
        seq![digit_char(n)]
    } else {
        decimal(n / 10).push(digit_char(n % 10))
    }
}

/// A number in decimal digits, with a minus sign where it is negative.
pub open spec fn signed_decimal(n: int) -> Seq<char> {
    if n < 0 {
        seq!['-'] + decimal(-n)
    } else {
        decimal(n)
    }
}

/// A number in decimal digits, at least two of them.
pub open spec fn two_digits(n: int) -> Seq<char> {
    if n < 10 {
        seq!['0'] + decimal(n)
    } else {
        decimal(n)
    }
}

/// Appends one decimal digit.
fn push_digit(s: &mut String, d: u64)
    requires
        d < 10,
    ensures
        final(s)@ == old(s)@.push(digit_char(d as int)),
{
    let ghost before = s@;
    let digit: &str = match d {
        0 => "0",
        1 => "1",
        2 => "2",
        3 => "3",
        4 => "4",
        5 => "5",
        6 => "6",
        7 => "7",
        8 => "8",
        _ => "9",
    };
    s.append(digit);
    proof {
        reveal_strlit("0");
        reveal_strlit("1");
        reveal_strlit("2");
        reveal_strlit("3");
        reveal_strlit("4");
        reveal_strlit("5");
        reveal_strlit("6");
        reveal_strlit("7");
        reveal_strlit("8");
        reveal_strlit("9");
        assert(digit@ =~= seq![digit_char(d as int)]);
        assert(s@ =~= before.push(digit_char(d as int)));
    }
}

/// Appends a number in decimal digits.
pub fn push_decimal(s: &mut String, n: u64)
    ensures
        final(s)@ == old(s)@ + decimal(n as int),
    decreases n,
{
    let ghost before = s@;
    if n >= 10 {
        push_decimal(s, n / 10);
    }
    push_digit(s, n % 10);
    assert(s@ =~= before + decimal(n as int));
}

/// Appends a number in decimal digits, with a minus sign where it is negative.
pub fn push_signed(s: &mut String, n: i64)
    ensures
        final(s)@ == old(s)@ + signed_decimal(n as int),
{
    let ghost before = s@;
    if n < 0 {
        s.append("-");
        let magnitude: u64 = (-(n + 1)) as u64 + 1;
        push_decimal(s, magnitude);
        proof {
            reveal_strlit("-");
            assert("-"@ =~= seq!['-']);
            assert(s@ =~= before + signed_decimal(n as int));
        }
    } else {
        push_decimal(s, n as u64);
    }
}

/// Appends a number in decimal digits, at least two of them.
pub fn push_two_digits(s: &mut String, n: u64)
    ensures
        final(s)@ == old(s)@ + two_digits(n as int),
{
    let ghost before = s@;
    if n < 10 {
        s.append("0");
        push_decimal(s, n);
        proof {
            reveal_strlit("0");
            assert("0"@ =~= seq!['0']);
            assert(s@ =~= before + two_digits(n as int));
        }
    } else {
        push_decimal(s, n);
    }
}

/// A length rounded to the nearest million or thousand, with its unit, from a thousand on.
pub open spec fn rounded_length(n: int) -> Seq<char> {
    if n >= 1_000_000 {
        decimal((n + 500_000) / 1_000_000).push('M')
    } else if n >= 1_000 {
        decimal((n + 500) / 1_000).push('k')
    } else {
        decimal(n)
    }
}

/// Appends a length rounded to the nearest million or thousand.
fn push_rounded_length(s: &mut String, n: u64)
    requires
        n <= 0x7FFF_FFFF_FFFF_FFFF,
    ensures
        final(s)@ == old(s)@ + rounded_length(n as int),
{
    let ghost before = s@;
    proof {
        reveal_strlit("M");
        reveal_strlit("k");
    }
    if n >= 1_000_000 {
        push_decimal(s, (n + 500_000) / 1_000_000);
        s.append("M");
    } else if n >= 1_000 {
        push_decimal(s, (n + 500) / 1_000);
        s.append("k");
    } else {
        push_decimal(s, n);
    }
    assert(s@ =~= before + rounded_length(n as int));
}

/// The label of the square that shell `l` bounds: `side x side`, where the side is `2l + 1`.
pub open spec fn area_label(l: int) -> Seq<char> {
    rounded_length(2 * l + 1) + seq![' ', 'x', ' '] + rounded_length(2 * l + 1)
}

/// The label of the square that shell `l` of the spiral bounds.
pub fn area_label_from_l(l: i64) -> (label: String)
    requires
        0 <= l <= 0x3FFF_FFFF_FFFF_FFFF,
    ensures
        label@ == area_label(l as int),
{
    let side: u64 = (2 * l + 1) as u64;
    let mut label: String = String::new();
    push_rounded_length(&mut label, side);
    label.append(" x ");
    push_rounded_length(&mut label, side);
    proof {
        reveal_strlit(" x ");
        assert(" x "@ =~= seq![' ', 'x', ' ']);
        assert(label@ =~= area_label(l as int));
    }
    label
}

/// A duration as `hh:mm:ss`, or as `mm:ss` below an hour.
pub open spec fn duration_label(total: int) -> Seq<char> {
    let h = total / 3600;
    let m = (total % 3600) / 60;
    let s = total % 60;
    if h > 0 {
        two_digits(h) + seq![':'] + two_digits(m) + seq![':'] + two_digits(s)
    } else {
        two_digits(m) + seq![':'] + two_digits(s)
    }
}

/// Formats a duration given in milliseconds, rounded to the nearest second.
pub fn format_duration(millis: u64) -> (label: String)
    ensures
        label@ == duration_label((millis + 500) / 1000),
{
    let total: u64 = if millis % 1000 >= 500 {
        millis / 1000 + 1
    } else {
        millis / 1000
    };
    let h: u64 = total / 3600;
    let m: u64 = (total % 3600) / 60;
    let s: u64 = total % 60;
    let mut label: String = String::new();
    proof {
        reveal_strlit(":");
        assert(":"@ =~= seq![':']);
    }
    if h > 0 {
        push_two_digits(&mut label, h);
        label.append(":");
    }
    push_two_digits(&mut label, m);
    label.append(":");
    push_two_digits(&mut label, s);
    assert(label@ =~= duration_label(total as int));
    label
}

/// How many coordinates there are, in words.
pub open spec fn coord_count_label(n: int) -> Seq<char> {
    if n == 1 {
        "1 coordinate"@
    } else {
        decimal(n) + " coordinates"@
    }
}

/// Says how many coordinates there are.
pub fn fmt_coord_count(n: usize) -> (label: String)
    ensures
        label@ == coord_count_label(n as int),
{
    if n == 1 {
        String::from_str("1 coordinate")
    } else {
        let mut label: String = String::new();
        push_decimal(&mut label, n as u64);
        label.append(" coordinates");
        assert(label@ =~= coord_count_label(n as int));
        label
    }
}

/// The character is a decimal digit.
pub open spec fn is_digit(c: char) -> bool {
    '0' as int <= c as int <= '9' as int
}

/// All characters are decimal digits.
pub open spec fn all_digits(s: Seq<char>) -> bool {
    forall|i: int| 0 <= i < s.len() ==> is_digit(#[trigger] s[i])
}

/// The number that a sequence of decimal digits stands for.
pub open spec fn digits_value(s: Seq<char>) -> int
    decreases s.len(),
{
    if s.len() == 0 {
        0
    } else {
        10 * digits_value(s.drop_last()) + (s.last() as int - '0' as int)
    }
}

/// The number that a text stands for: an optional sign and then at least one decimal digit, and
/// nothing else. There is none where the text has another form, or where the number lies outside
/// the range from `lo` to `hi`. A minus sign is part of the form only where the range holds
/// negative numbers.
pub open spec fn parsed(s: Seq<char>, lo: int, hi: int) -> Option<int> {
    let negative = lo < 0 && s.len() > 0 && s[0] == '-';
    let body = if negative || (s.len() > 0 && s[0] == '+') {
        s.drop_first()
    } else {
        s
    };
    let value = if negative {
        -digits_value(body)
    } else {
        digits_value(body)
    };
    if body.len() > 0 && all_digits(body) && lo <= value <= hi {
        Some(value)
    } else {
        None
    }
}

proof fn lemma_digits_grow(s: Seq<char>, n: int)
    requires
        0 <= n <= s.len(),
        all_digits(s),
    ensures
        0 <= digits_value(s.take(n)) <= digits_value(s),
    decreases s.len(),
{
    if n < s.len() {
        assert(s.drop_last().take(n) =~= s.take(n));
        assert(is_digit(s.last()));
        assert(all_digits(s.drop_last()));
        lemma_digits_grow(s.drop_last(), n);
    } else {
        assert(s.take(n) =~= s);
        if s.len() > 0 {
            assert(is_digit(s.last()));
            assert(all_digits(s.drop_last()));
            lemma_digits_grow(s.drop_last(), s.drop_last().len() as int);
            assert(s.drop_last().take(s.drop_last().len() as int) =~= s.drop_last());
        }
    }
}

/// What digits stand for is never negative.
proof fn lemma_digits_nonnegative(s: Seq<char>)
    requires
        all_digits(s),
    ensures
        0 <= digits_value(s),
{
    lemma_digits_grow(s, s.len() as int);
    assert(s.take(s.len() as int) =~= s);
}

/// The number that the digits of `s` from index `from` on stand for, if there are any, all of them
/// are digits and the number is at most `limit`.
fn parse_magnitude(s: &str, from: usize, limit: u64) -> (r: Option<u64>)
    requires
        from <= s@.len(),
    ensures
        ({
            let body = s@.skip(from as int);
            let well_formed = body.len() > 0 && all_digits(body) && digits_value(body) <= limit;
            match r {
                Some(v) => well_formed && v == digits_value(body),
                None => !well_formed,
            }
        }),
{
    let n: usize = s.unicode_len();
    let ghost body = s@.skip(from as int);
    if from == n {
        return None;
    }
    let mut value: u64 = 0;
    let mut i: usize = from;
    assert(body.take(0) =~= Seq::empty());
    while i < n
        invariant
            n == s@.len(),
            from <= i <= n,
            body == s@.skip(from as int),
            forall|m: int| 0 <= m < i - from ==> is_digit(#[trigger] body[m]),
            value == digits_value(body.take(i - from)),
            value <= limit,
        decreases n - i,
    {
        let code: u32 = s.get_char(i) as u32;
        assert(body[i - from] == s@[i as int]);
        if code < 48 || code > 57 {
            assert(!is_digit(body[i - from]));
            return None;
        }
        let d: u64 = (code - 48) as u64;
        proof {
            assert(body.take(i - from + 1).drop_last() =~= body.take(i - from));
            assert(digits_value(body.take(i - from + 1)) == 10 * value + d);
        }
        if value > limit / 10 || 10 * (value as u128) + d as u128 > limit as u128 {
            proof {
                if all_digits(body) {
                    lemma_digits_grow(body, i - from + 1);
                }
            }
            return None;
        }
        value = 10 * value + d;
        i = i + 1;
    }
    assert(body.take(n - from) =~= body);
    Some(value)
}

/// Reads a number between `lo` and `hi`, where `lo` is negative.
fn parse_signed(s: &str, lo: i64, hi: i64) -> (r: Option<i64>)
    requires
        lo < 0,
        0 <= hi,
    ensures
        match r {
            Some(v) => parsed(s@, lo as int, hi as int) == Some(v as int),
            None => parsed(s@, lo as int, hi as int) is None,
        },
{
    let n: usize = s.unicode_len();
    if n == 0 {
        return None;
    }
    let first: char = s.get_char(0);
    assert(s@.skip(1) =~= s@.drop_first());
    assert(s@.skip(0) =~= s@);
    if first == '-' {
        let limit: u64 = (-(lo + 1)) as u64 + 1;
        proof {
            if all_digits(s@.skip(1)) {
                lemma_digits_nonnegative(s@.skip(1));
            }
        }
        match parse_magnitude(s, 1, limit) {
            Some(0) => Some(0),
            Some(m) => Some(-((m - 1) as i64) - 1),
            None => None,
        }
    } else {
        let from: usize = if first == '+' {
            1
        } else {
            0
        };
        proof {
            if all_digits(s@.skip(from as int)) {
                lemma_digits_nonnegative(s@.skip(from as int));
            }
        }
        match parse_magnitude(s, from, hi as u64) {
            Some(m) => Some(m as i64),
            None => None,
        }
    }
}

/// Reads a 64-bit integer.
pub fn parse_i64(s: &str) -> (r: Option<i64>)
    ensures
        match r {
            Some(v) => parsed(s@, i64::MIN as int, i64::MAX as int) == Some(v as int),
            None => parsed(s@, i64::MIN as int, i64::MAX as int) is None,
        },
{
    parse_signed(s, i64::MIN, i64::MAX)
}

/// Reads a 32-bit integer.
pub fn parse_i32(s: &str) -> (r: Option<i32>)
    ensures
        match r {
            Some(v) => parsed(s@, i32::MIN as int, i32::MAX as int) == Some(v as int),
            None => parsed(s@, i32::MIN as int, i32::MAX as int) is None,
        },
{
    match parse_signed(s, i32::MIN as i64, i32::MAX as i64) {
        Some(v) => Some(v as i32),
        None => None,
    }
}

/// Reads a size. A minus sign is not part of its form.
pub fn parse_usize(s: &str) -> (r: Option<usize>)
    ensures
        match r {
            Some(v) => parsed(s@, 0, usize::MAX as int) == Some(v as int),
            None => parsed(s@, 0, usize::MAX as int) is None,
        },
{
    let n: usize = s.unicode_len();
    if n == 0 {
        return None;
    }
    let first: char = s.get_char(0);
    assert(s@.skip(1) =~= s@.drop_first());
    assert(s@.skip(0) =~= s@);
    let from: usize = if first == '+' {
        1
    } else {
        0
    };
    proof {
        if all_digits(s@.skip(from as int)) {
            lemma_digits_nonnegative(s@.skip(from as int));
        }
    }
    match parse_magnitude(s, from, usize::MAX as u64) {
        Some(m) => Some(m as usize),
        None => None,
    }
}

/// The digits of a number are the characters from `0` to `9`, in the order of their values.
pub proof fn law_digits_are_in_order(d: int, c: char)
    ensures
        0 <= d < 10 ==> digit_char(d) as int == 48 + d,
        is_digit(c) <==> 48 <= c as int <= 57,
{
}

/// A further digit makes a number ten times as large and adds its own value. No digits stand for
/// zero.
pub proof fn law_digits_are_decimal_places(s: Seq<char>, c: char)
    ensures
        digits_value(Seq::empty()) == 0,
        digits_value(s.push(c)) == 10 * digits_value(s) + c as int - 48,
{
    assert(s.push(c).drop_last() =~= s);
}

/// A number can be read back from its digits, of which the first is not zero unless it is the only
/// one.
pub proof fn law_decimal_can_be_read_back(n: int)
    requires
        0 <= n,
    ensures
        decimal(n).len() > 0,
        forall|i: int| 0 <= i < decimal(n).len() ==> 48 <= #[trigger] decimal(n)[i] as int <= 57,
        digits_value(decimal(n)) == n,
        all_digits(decimal(n)),
        decimal(n)[0] == '0' <==> n == 0,
        n < 10 ==> decimal(n).len() == 1,
    decreases n,
{
    reveal_with_fuel(digits_value, 2);
    if n < 10 {
        assert(seq![digit_char(n)].drop_last() =~= Seq::empty());
    } else {
        law_decimal_can_be_read_back(n / 10);
        let before = decimal(n / 10);
        assert(decimal(n).drop_last() =~= before);
        assert(decimal(n)[0] == before[0]);
        assert forall|i: int| 0 <= i < decimal(n).len() implies 48 <= #[trigger] decimal(n)[i] as int
            <= 57 by {
            if i < before.len() {
                assert(decimal(n)[i] == before[i]);
            }
        }
    }
}

/// Two different numbers have different texts.
pub proof fn law_texts_of_numbers_differ(a: int, b: int)
    requires
        signed_decimal(a) == signed_decimal(b),
    ensures
        a == b,
{
    let x = if a < 0 {
        -a
    } else {
        a
    };
    let y = if b < 0 {
        -b
    } else {
        b
    };
    law_decimal_can_be_read_back(x);
    law_decimal_can_be_read_back(y);
    let s = signed_decimal(a);
    if a < 0 {
        assert(s[0] == '-');
        assert(s.skip(1) =~= decimal(x));
        if b >= 0 {
            assert(decimal(y)[0] as int >= 48);
        }
    }
    if b < 0 {
        assert(s[0] == '-');
        assert(s.skip(1) =~= decimal(y));
        if a >= 0 {
            assert(decimal(x)[0] as int >= 48);
        }
    }
}

/// Whatever number is written as text, the same number is read from it, as long as it is in the
/// range. Out of the range nothing is read.
pub proof fn law_written_numbers_are_read(n: int, lo: int, hi: int)
    requires
        lo <= 0 <= hi,
        lo < 0 || 0 <= n,
    ensures
        lo <= n <= hi ==> parsed(signed_decimal(n), lo, hi) == Some(n),
        !(lo <= n <= hi) ==> parsed(signed_decimal(n), lo, hi) is None,
{
    let s = signed_decimal(n);
    if n < 0 {
        law_decimal_can_be_read_back(-n);
        assert(s.drop_first() =~= decimal(-n));
    } else {
        law_decimal_can_be_read_back(n);
        assert(s[0] as int >= 48);
    }
}

/// What is read from a text: the number that its digits stand for, with an optional plus sign and,
/// where the range goes below zero, with an optional minus sign, if the number is in the range.
pub proof fn law_texts_that_are_numbers(s: Seq<char>, lo: int, hi: int)
    requires
        lo <= 0 <= hi,
        s.len() > 0,
        forall|i: int| 0 <= i < s.len() ==> 48 <= #[trigger] s[i] as int <= 57,
    ensures
        parsed(s, lo, hi) == if digits_value(s) <= hi {
            Some(digits_value(s))
        } else {
            None
        },
        parsed(seq!['+'] + s, lo, hi) == parsed(s, lo, hi),
        lo < 0 ==> parsed(seq!['-'] + s, lo, hi) == if digits_value(s) <= -lo {
            Some(-digits_value(s))
        } else {
            None
        },
        lo == 0 ==> parsed(seq!['-'] + s, lo, hi) is None,
{
    assert(48 <= s[0] as int <= 57);
    assert((seq!['+'] + s).drop_first() =~= s);
    assert((seq!['-'] + s).drop_first() =~= s);
    assert((seq!['-'] + s)[0] == '-' && (seq!['+'] + s)[0] == '+');
    assert(all_digits(s));
    lemma_digits_nonnegative(s);
    if lo == 0 {
        let t = seq!['-'] + s;
        assert(!is_digit(t[0]));
    }
}

/// Nothing is read from a text that is empty, that consists of a sign alone, or that holds any
/// character but a digit after its first one, or one but a digit and a sign as its first.
pub proof fn law_texts_that_are_no_numbers(s: Seq<char>, lo: int, hi: int, i: int)
    requires
        s.len() == 0 || (s.len() == 1 && !(48 <= s[0] as int <= 57)) || (0 < i < s.len() && !(48
            <= s[i] as int <= 57)) || (s.len() > 0 && s[0] != '+' && s[0] != '-' && !(48
            <= s[0] as int <= 57)),
    ensures
        parsed(s, lo, hi) is None,
{
    if s.len() > 0 {
        let body = s.drop_first();
        if 0 < i < s.len() && !(48 <= s[i] as int <= 57) {
            assert(body[i - 1] == s[i]);
            assert(!is_digit(body[i - 1]) && !is_digit(s[i]));
        }
        if !(48 <= s[0] as int <= 57) {
            assert(!is_digit(s[0]));
        }
    }
}

/// A range in which less numbers lie reads less, and reads the same where it reads at all.
pub proof fn law_range_only_limits(s: Seq<char>, lo: int, hi: int, low: int, high: int)
    requires
        low <= lo < 0 || (lo == 0 && low == 0),
        0 <= hi <= high,
    ensures
        parsed(s, lo, hi) is Some ==> parsed(s, low, high) == parsed(s, lo, hi),
        parsed(s, low, high) matches Some(v) ==> (lo <= v <= hi ==> parsed(s, lo, hi) == Some(v)),
        parsed(s, lo, hi) matches Some(v) ==> lo <= v <= hi,
{
}

/// Texts of at least two digits: a number below ten gets a zero in front, and no other is changed.
pub proof fn law_two_digits_can_be_read_back(n: int)
    requires
        0 <= n,
    ensures
        n < 100 ==> two_digits(n).len() == 2,
        n >= 10 ==> two_digits(n) == decimal(n),
        all_digits(two_digits(n)),
        digits_value(two_digits(n)) == n,
{
    law_decimal_can_be_read_back(n);
    if n < 10 {
        let s = two_digits(n);
        assert(s =~= seq!['0', digit_char(n)]);
        reveal_with_fuel(digits_value, 3);
        assert(s.drop_last() =~= seq!['0']);
        assert(seq!['0'].drop_last() =~= Seq::empty());
    } else {
        law_decimal_can_be_read_back(n / 10);
    }
}

/// A duration is shown as hours, where there are any, minutes and seconds that add up to it.
pub proof fn law_duration_adds_up(total: int)
    requires
        0 <= total,
    ensures
        exists|h: int, m: int, s: int|
            {
                &&& 0 <= h
                &&& 0 <= m < 60
                &&& 0 <= s < 60
                &&& total == 3600 * h + 60 * m + s
                &&& duration_label(total) == #[trigger] clock_text(h, m, s)
            },
{
    let h = total / 3600;
    let m = (total % 3600) / 60;
    let s = total % 60;
    let rest = total % 3600;
    assert(total == 3600 * h + rest && 0 <= rest < 3600);
    assert(rest == 60 * m + rest % 60 && 0 <= m < 60);
    assert(rest % 60 == s);
    assert(total == 3600 * h + 60 * m + s);
    assert(0 <= h && (h == 0 <==> !(h > 0)));
    assert(duration_label(total) =~= clock_text(h, m, s));
}

/// Hours, minutes and seconds in two digits each, with colons between; the hours only where there
/// are any.
pub open spec fn clock_text(h: int, m: int, s: int) -> Seq<char> {
    let minutes = two_digits(m) + seq![':'] + two_digits(s);
    if h == 0 {
        minutes
    } else {
        two_digits(h) + seq![':'] + minutes
    }
}

/// A length is shown as it is below a thousand, and otherwise in the nearest thousands or, from a
/// million on, millions.
pub proof fn law_length_is_rounded(n: int)
    requires
        0 <= n,
    ensures
        n < 1000 ==> rounded_length(n) == decimal(n),
        1000 <= n < 1_000_000 ==> exists|v: int|
            -500 < 1000 * v - n <= 500 && rounded_length(n) == (#[trigger] decimal(v)).push('k'),
        1_000_000 <= n ==> exists|v: int|
            -500_000 < 1_000_000 * v - n <= 500_000 && rounded_length(n) == (#[trigger] decimal(
                v,
            )).push('M'),
{
    if 1_000_000 <= n {
        let v = (n + 500_000) / 1_000_000;
        assert(rounded_length(n) == decimal(v).push('M'));
    } else if 1000 <= n {
        let v = (n + 500) / 1000;
        assert(rounded_length(n) == decimal(v).push('k'));
    }
}

/// The area that is shown is a square: the same length twice, an odd number that counts the
/// positions from one side of the shell to the other.
pub proof fn law_area_is_a_square(l: int)
    ensures
        exists|side: int|
            side == l + 1 + l && area_label(l) == (#[trigger] rounded_length(side)) + seq![
                ' ',
                'x',
                ' ',
            ] + rounded_length(side),
{
    let side = 2 * l + 1;
    assert(area_label(l) == rounded_length(side) + seq![' ', 'x', ' '] + rounded_length(side));
}

/// How many coordinates there are is shown as a number and a word, which is plural unless there is
/// exactly one.
pub proof fn law_count_can_be_read_back(n: int)
    requires
        0 <= n,
    ensures
        n == 1 <==> coord_count_label(n).last() == 'e',
        n != 1 <==> coord_count_label(n).last() == 's',
        coord_count_label(n).take(decimal(n).len() as int) == decimal(n),
        n != 1 ==> coord_count_label(n).skip(decimal(n).len() as int) == " coordinates"@,
        n == 1 ==> coord_count_label(n).skip(1) == " coordinate"@,
{
    reveal_strlit("1 coordinate");
    reveal_strlit(" coordinates");
    reveal_strlit(" coordinate");
    if n == 1 {
        assert(decimal(1) =~= seq!['1']);
        assert("1 coordinate"@.take(1) =~= decimal(1));
        assert("1 coordinate"@.skip(1) =~= " coordinate"@);
    } else {
        let t = coord_count_label(n);
        assert(t.take(decimal(n).len() as int) =~= decimal(n));
        assert(t.skip(decimal(n).len() as int) =~= " coordinates"@);
    }
}

} // verus!
