//! Clock-time text: writing minutes since midnight as `HH:MM`, and reading
//! the hour and minute out of a stored timestamp without a calendar.

use vstd::prelude::*;
use vstd::string::*;

verus! {

/// Division that rounds toward zero, as the machine divides.
pub open spec fn trunc_div(a: int, b: int) -> int {
    if a >= 0 {
        a / b
    } else {
        -((-a) / b)
    }
}

/// The remainder that goes with `trunc_div`; it has the sign of `a`.
pub open spec fn trunc_rem(a: int, b: int) -> int {
    a - b * trunc_div(a, b)
}

/// The character of a decimal digit.
pub open spec fn digit_char(d: int) -> char {
    if d == 0 {
        '0'
    } else if d == 1 {
        '1'
    } else if d == 2 {
        '2'
    } else if d == 3 {
        '3'
    } else if d == 4 {
        '4'
    } else if d == 5 {
        '5'
    } else if d == 6 {
        '6'
    } else if d == 7 {
        '7'
    } else if d == 8 {
        '8'
    } else {
        '9'
    }
}

/// A number between -99 and 99 written in at least two columns, padded
/// with a zero on the left; a minus sign takes a column.
pub open spec fn pad2(n: int) -> Seq<char> {
    if n <= -10 {
        seq!['-', digit_char((-n) / 10), digit_char((-n) % 10)]
    } else if n < 0 {
        seq!['-', digit_char(-n)]
    } else {
        seq![digit_char(n / 10), digit_char(n % 10)]
    }
}

/// The hour of `minutes` since midnight, wrapped at 24, a colon, and the
/// minute, each in two columns.
pub open spec fn minutes_to_time_spec(minutes: int) -> Seq<char> {
    pad2(trunc_rem(trunc_div(minutes, 60), 24)) + seq![':'] + pad2(trunc_rem(minutes, 60))
}

/// The text of a decimal digit.
pub fn digit_text(d: i64) -> (s: &'static str)
    requires
        0 <= d <= 9,
    ensures
        s@ == seq![digit_char(d as int)],
{
    proof {
        reveal_strlit("0");
        reveal_strlit("1");
        reveal_strlit("2");
        reveal_strlit("3");
        reveal_strlit("4");
        reveal_strlit("5");
        reveal_strlit("6");
        reveal_strlit("7");
        reveal_strlit("8");
        reveal_strlit("9");
    }
    let s = if d == 0 {
        "0"
    } else if d == 1 {
        "1"
    } else if d == 2 {
        "2"
    } else if d == 3 {
        "3"
    } else if d == 4 {
        "4"
    } else if d == 5 {
        "5"
    } else if d == 6 {
        "6"
    } else if d == 7 {
        "7"
    } else if d == 8 {
        "8"
    } else {
        "9"
    };
    assert(s@ =~= seq![digit_char(d as int)]);
    s
}

fn push_pad2(out: &mut String, n: i64)
    requires
        -99 <= n <= 99,
    ensures
        final(out)@ == old(out)@ + pad2(n as int),
{
    proof {
        reveal_strlit("-");
    }
    if n <= -10 {
        let m: i64 = -n;
        out.append("-");
        out.append(digit_text(m / 10));
        out.append(digit_text(m % 10));
        assert(out@ =~= old(out)@ + pad2(n as int));
    } else if n < 0 {
        out.append("-");
        out.append(digit_text(-n));
        assert(out@ =~= old(out)@ + pad2(n as int));
    } else {
        out.append(digit_text(n / 10));
        out.append(digit_text(n % 10));
        assert(out@ =~= old(out)@ + pad2(n as int));
    }
}

/// Writes minutes since midnight as `HH:MM`. Hours wrap at 24, so 1500
/// gives `01:00`.
pub fn minutes_to_time(minutes: i64) -> (text: String)
    ensures
        text@ == minutes_to_time_spec(minutes as int),
{
    let hours: i64 = (minutes / 60) % 24;
    let mins: i64 = minutes % 60;
    let mut out = String::new();
    push_pad2(&mut out, hours);
    proof {
        reveal_strlit(":");
    }
    out.append(":");
    push_pad2(&mut out, mins);
    assert(out@ =~= minutes_to_time_spec(minutes as int));
    out
}

/// The index of the first `c` in `s` at or after `from`, or the length of
/// `s` when there is none.
pub open spec fn find_char(s: Seq<char>, c: char, from: int) -> int
    decreases s.len() - from,
{
    if from < 0 || from >= s.len() {
        s.len() as int
    } else if s[from] == c {
        from
    } else {
        find_char(s, c, from + 1)
    }
}

/// The part of a timestamp after its first `T`, up to the next `T`.
pub open spec fn time_part(s: Seq<char>) -> Option<Seq<char>> {
    let t1 = find_char(s, 'T', 0);
    if t1 >= s.len() {
        None
    } else {
        Some(s.subrange(t1 + 1, find_char(s, 'T', t1 + 1)))
    }
}

/// The first two fields of a colon-separated text, when it has two.
pub open spec fn hour_minute_fields(tp: Seq<char>) -> Option<(Seq<char>, Seq<char>)> {
    let c1 = find_char(tp, ':', 0);
    if c1 >= tp.len() {
        None
    } else {
        Some((tp.subrange(0, c1), tp.subrange(c1 + 1, find_char(tp, ':', c1 + 1))))
    }
}

/// The hour and minute fields of a timestamp, as text.
pub open spec fn timestamp_fields(s: Seq<char>) -> Option<(Seq<char>, Seq<char>)> {
    match time_part(s) {
        Some(tp) => hour_minute_fields(tp),
        None => None,
    }
}

/// The value of a decimal digit character, if it is one.
pub open spec fn digit_of(c: char) -> Option<int> {
    if c == '0' {
        Some(0)
    } else if c == '1' {
        Some(1)
    } else if c == '2' {
        Some(2)
    } else if c == '3' {
        Some(3)
    } else if c == '4' {
        Some(4)
    } else if c == '5' {
        Some(5)
    } else if c == '6' {
        Some(6)
    } else if c == '7' {
        Some(7)
    } else if c == '8' {
        Some(8)
    } else if c == '9' {
        Some(9)
    } else {
        None
    }
}

/// Whether every character of `s` is a decimal digit.
pub open spec fn all_digits(s: Seq<char>) -> bool {
    forall|i: int| 0 <= i < s.len() ==> (#[trigger] digit_of(s[i])) is Some
}

/// The number a run of decimal digits denotes.
pub open spec fn decimal_value(s: Seq<char>) -> int
    decreases s.len(),
{
    if s.len() == 0 {
        0
    } else {
        decimal_value(s.drop_last()) * 10 + match digit_of(s.last()) {
            Some(d) => d,
            None => 0,
        }
    }
}

/// The 64-bit signed integer a text denotes: an optional sign, then one or
/// more decimal digits, with the value in range.
pub open spec fn parse_i64_spec(s: Seq<char>) -> Option<i64> {
    if s.len() == 0 {
        None
    } else {
        let negative = s[0] == '-';
        let body = if s[0] == '-' || s[0] == '+' {
            s.drop_first()
        } else {
            s
        };
        let v = if negative {
            -decimal_value(body)
        } else {
            decimal_value(body)
        };
        if body.len() > 0 && all_digits(body) && i64::MIN <= v <= i64::MAX {
            Some(v as i64)
        } else {
            None
        }
    }
}

/// A field's number, or zero when it does not denote one.
pub open spec fn field_value(s: Seq<char>) -> int {
    match parse_i64_spec(s) {
        Some(v) => v as int,
        None => 0,
    }
}

/// Minutes since midnight read from the hour and minute fields of a
/// timestamp; zero when the timestamp has no such fields. The sum wraps
/// at 64 bits.
pub open spec fn parse_iso_time_spec(s: Seq<char>) -> i64 {
    match timestamp_fields(s) {
        Some((h, m)) => (field_value(h) * 60 + field_value(m)) as i64,
        None => 0,
    }
}

/// The hour field, a colon and the minute field of a timestamp, or
/// `00:00` when the timestamp has no such fields.
pub open spec fn extract_time_spec(s: Seq<char>) -> Seq<char> {
    match timestamp_fields(s) {
        Some((h, m)) => h + seq![':'] + m,
        None => "00:00"@,
    }
}

fn digit_value(c: char) -> (d: Option<i64>)
    ensures
        match d {
            Some(v) => digit_of(c) == Some(v as int) && 0 <= v <= 9,
            None => digit_of(c) is None,
        },
{
    if c == '0' {
        Some(0)
    } else if c == '1' {
        Some(1)
    } else if c == '2' {
        Some(2)
    } else if c == '3' {
        Some(3)
    } else if c == '4' {
        Some(4)
    } else if c == '5' {
        Some(5)
    } else if c == '6' {
        Some(6)
    } else if c == '7' {
        Some(7)
    } else if c == '8' {
        Some(8)
    } else if c == '9' {
        Some(9)
    } else {
        None
    }
}

/// The characters of a text, in order.
pub fn chars_of(text: &str) -> (chars: Vec<char>)
    ensures
        chars@ == text@,
{
    let n = text.unicode_len();
    let mut chars: Vec<char> = Vec::new();
    let mut i: usize = 0;
    while i < n
        invariant
            n == text@.len(),
            i <= n,
            chars@ == text@.take(i as int),
        decreases n - i,
    {
        chars.push(text.get_char(i));
        i = i + 1;
        assert(chars@ =~= text@.take(i as int));
    }
    assert(text@.take(n as int) =~= text@);
    chars
}

fn find_in(chars: &Vec<char>, c: char, from: usize) -> (at: usize)
    requires
        from <= chars.len(),
    ensures
        at == find_char(chars@, c, from as int),
        from <= at <= chars.len(),
{
    let mut i: usize = from;
    while i < chars.len()
        invariant
            from <= i <= chars.len(),
            find_char(chars@, c, from as int) == find_char(chars@, c, i as int),
        decreases chars.len() - i,
    {
        if chars[i] == c {
            return i;
        }
        i = i + 1;
    }
    i
}

proof fn lemma_decimal_value_step(s: Seq<char>, i: int)
    requires
        0 <= i < s.len(),
    ensures
        decimal_value(s.take(i + 1)) == decimal_value(s.take(i)) * 10 + match digit_of(s[i]) {
            Some(d) => d,
            None => 0,
        },
{
    assert(s.take(i + 1).drop_last() =~= s.take(i));
}

proof fn lemma_decimal_value_grows(s: Seq<char>, i: int)
    requires
        0 <= i <= s.len(),
    ensures
        0 <= decimal_value(s.take(i)) <= decimal_value(s),
    decreases s.len() - i,
{
    lemma_decimal_value_nonneg(s.take(i));
    if i < s.len() {
        lemma_decimal_value_step(s, i);
        lemma_decimal_value_grows(s, i + 1);
    } else {
        assert(s.take(i) =~= s);
    }
}

proof fn lemma_decimal_value_nonneg(s: Seq<char>)
    ensures
        0 <= decimal_value(s),
    decreases s.len(),
{
    if s.len() > 0 {
        lemma_decimal_value_nonneg(s.drop_last());
    }
}

/// Reads a 64-bit signed integer from the characters `chars[from..to]`.
fn parse_i64_field(chars: &Vec<char>, from: usize, to: usize) -> (r: Option<i64>)
    requires
        from <= to <= chars.len(),
    ensures
        r == parse_i64_spec(chars@.subrange(from as int, to as int)),
{
    let ghost s = chars@.subrange(from as int, to as int);
    if from == to {
        return None;
    }
    let negative = chars[from] == '-';
    let start: usize = if chars[from] == '-' || chars[from] == '+' {
        from + 1
    } else {
        from
    };
    let ghost body = chars@.subrange(start as int, to as int);
    assert(body =~= if s[0] == '-' || s[0] == '+' {
        s.drop_first()
    } else {
        s
    });
    if start == to {
        return None;
    }
    // 2^63, the largest magnitude a 64-bit signed integer can have
    let limit: i128 = 9_223_372_036_854_775_808;
    let mut acc: i128 = 0;
    let mut i: usize = start;
    while i < to
        invariant
            from <= start <= i <= to <= chars.len(),
            s == chars@.subrange(from as int, to as int),
            negative == (s[0] == '-'),
            body == chars@.subrange(start as int, to as int),
            body == if s[0] == '-' || s[0] == '+' {
                s.drop_first()
            } else {
                s
            },
            limit == 9_223_372_036_854_775_808,
            0 <= acc <= limit,
            acc == decimal_value(body.take(i - start)),
            forall|j: int| 0 <= j < i - start ==> (#[trigger] digit_of(body[j])) is Some,
        decreases to - i,
    {
        match digit_value(chars[i]) {
            Some(d) => {
                proof {
                    lemma_decimal_value_step(body, i - start);
                    lemma_decimal_value_grows(body, i - start + 1);
                }
                let next: i128 = acc * 10 + (d as i128);
                if next > limit {
                    return None;
                }
                acc = next;
            },
            None => {
                assert(digit_of(body[i - start]) is None);
                return None;
            },
        }
        i = i + 1;
    }
    assert(body.take(to - start) =~= body);
    if negative {
        Some((-acc) as i64)
    } else if acc == limit {
        None
    } else {
        Some(acc as i64)
    }
}

fn field_or_zero(chars: &Vec<char>, from: usize, to: usize) -> (v: i64)
    requires
        from <= to <= chars.len(),
    ensures
        v == field_value(chars@.subrange(from as int, to as int)),
{
    match parse_i64_field(chars, from, to) {
        Some(v) => v,
        None => 0,
    }
}

/// Where the hour and minute fields of a timestamp lie: the hour at
/// `[a, b)` and the minute at `[b + 1, c)`.
fn locate_fields(chars: &Vec<char>) -> (r: Option<(usize, usize, usize)>)
    ensures
        match r {
            Some((a, b, c)) => a <= b < c <= chars.len() && timestamp_fields(chars@) == Some(
                (chars@.subrange(a as int, b as int), chars@.subrange(b + 1, c as int)),
            ),
            None => timestamp_fields(chars@) is None,
        },
{
    let n = chars.len();
    let t1 = find_in(chars, 'T', 0);
    if t1 >= n {
        return None;
    }
    let a = t1 + 1;
    let t2 = find_in(chars, 'T', a);
    let ghost tp = chars@.subrange(a as int, t2 as int);
    let b = find_in(chars, ':', a);
    proof {
        lemma_find_in_window(chars@, ':', a as int, t2 as int, a as int);
    }
    if b >= t2 {
        return None;
    }
    let c0 = find_in(chars, ':', b + 1);
    proof {
        lemma_find_in_window(chars@, ':', a as int, t2 as int, b + 1);
    }
    let c = if c0 < t2 {
        c0
    } else {
        t2
    };
    assert(tp.subrange(0, b - a) =~= chars@.subrange(a as int, b as int));
    assert(tp.subrange(b - a + 1, c - a) =~= chars@.subrange(b + 1, c as int));
    Some((a, b, c))
}

/// Searching a window `s[lo..hi]` from `from` finds what searching `s`
/// finds, capped at the window's end.
proof fn lemma_find_in_window(s: Seq<char>, c: char, lo: int, hi: int, from: int)
    requires
        0 <= lo <= from <= hi <= s.len(),
    ensures
        find_char(s.subrange(lo, hi), c, from - lo) == if find_char(s, c, from) < hi {
            find_char(s, c, from) - lo
        } else {
            hi - lo
        },
    decreases hi - from,
{
    let w = s.subrange(lo, hi);
    if from < hi {
        assert(w[from - lo] == s[from]);
        if s[from] != c {
            lemma_find_in_window(s, c, lo, hi, from + 1);
        }
    } else {
        lemma_find_at_least(s, c, from);
    }
}

proof fn lemma_find_at_least(s: Seq<char>, c: char, from: int)
    requires
        0 <= from <= s.len(),
    ensures
        from <= find_char(s, c, from) <= s.len(),
    decreases s.len() - from,
{
    if from < s.len() && s[from] != c {
        lemma_find_at_least(s, c, from + 1);
    }
}

/// Reads the minutes since midnight out of a `YYYY-MM-DDTHH:MM:SS`
/// timestamp by its hour and minute fields alone. A field that is no
/// number counts as zero, and a text without the fields gives zero.
pub fn parse_iso_time(iso: &str) -> (minutes: i64)
    ensures
        minutes == parse_iso_time_spec(iso@),
{
    let chars = chars_of(iso);
    match locate_fields(&chars) {
        Some((a, b, c)) => {
            let hours = field_or_zero(&chars, a, b);
            let mins = field_or_zero(&chars, b + 1, c);
            let wide: i128 = (hours as i128) * 60 + (mins as i128);
            #[verifier::truncate]
            (wide as i64)
        },
        None => 0,
    }
}

/// Cuts the `HH:MM` part out of a `YYYY-MM-DDTHH:MM:SS` timestamp, or
/// gives `00:00` when the text has no hour and minute fields.
pub fn extract_time(iso: &str) -> (text: String)
    ensures
        text@ == extract_time_spec(iso@),
{
    let chars = chars_of(iso);
    match locate_fields(&chars) {
        Some((a, b, c)) => {
            let mut out = String::from_str(iso.substring_char(a, b));
            proof {
                reveal_strlit(":");
            }
            out.append(":");
            out.append(iso.substring_char(b + 1, c));
            assert(out@ =~= extract_time_spec(iso@));
            out
        },
        None => String::from_str("00:00"),
    }
}

} // verus!
