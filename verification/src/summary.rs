//! The summary of finished work that a retrospective is written from:
//! one entry per block, with its title, its whole minutes and the two
//! memos.

use vstd::prelude::*;
use vstd::string::*;
use crate::clock::timestamp_seconds;
use crate::clock::timestamp_seconds_spec;
use crate::daytime::digit_char;
use crate::daytime::digit_text;
use crate::daytime::trunc_div;

verus! {

/// The decimal digits of a number that is not negative.
pub open spec fn decimal_digits(n: nat) -> Seq<char>
    decreases n,
{
    if n < 10 {
        seq![digit_char(n as int)]
    } else {
        decimal_digits(n / 10).push(digit_char((n % 10) as int))
    }
}

/// A number written in decimal, with a minus sign when negative.
pub open spec fn decimal_text_spec(n: int) -> Seq<char> {
    if n < 0 {
        seq!['-'] + decimal_digits((-n) as nat)
    } else {
        decimal_digits(n as nat)
    }
}

/// The digits at the places `0..k` of a list of digits, least place
/// first, written greatest place first.
pub open spec fn digits_written(places: Seq<i64>, k: int) -> Seq<char>
    decreases k,
{
    if k <= 0 || k > places.len() {
        Seq::<char>::empty()
    } else {
        seq![digit_char(places[k - 1] as int)] + digits_written(places, k - 1)
    }
}

proof fn lemma_decimal_digits_step(n: nat, rest: Seq<char>)
    requires
        n >= 10,
    ensures
        decimal_digits(n) + rest == decimal_digits(n / 10) + (seq![digit_char((n % 10) as int)]
            + rest),
{
    assert(decimal_digits(n / 10).push(digit_char((n % 10) as int)) + rest =~= decimal_digits(
        n / 10,
    ) + (seq![digit_char((n % 10) as int)] + rest));
}

/// Writes a number in decimal.
pub fn decimal_text(n: i64) -> (text: String)
    ensures
        text@ == decimal_text_spec(n as int),
{
    let mut out = String::new();
    let mut magnitude: u64 = if n < 0 {
        proof {
            reveal_strlit("-");
        }
        out.append("-");
        if n == i64::MIN {
            9_223_372_036_854_775_808u64
        } else {
            (-n) as u64
        }
    } else {
        n as u64
    };
    let ghost whole = magnitude as nat;
    let ghost sign = out@;
    assert(decimal_text_spec(n as int) == sign + decimal_digits(whole)) by {
        if n >= 0 {
            assert(sign + decimal_digits(whole) =~= decimal_digits(whole));
        }
    }
    // the places of the number, least first
    let mut places: Vec<i64> = Vec::new();
    while magnitude >= 10
        invariant
            forall|j: int| 0 <= j < places.len() ==> 0 <= #[trigger] places[j] <= 9,
            decimal_digits(whole) == decimal_digits(magnitude as nat) + digits_written(
                places@,
                places.len() as int,
            ),
        decreases magnitude,
    {
        let ghost before = places@;
        let ghost m = magnitude as nat;
        places.push((magnitude % 10) as i64);
        proof {
            lemma_decimal_digits_step(m, digits_written(before, before.len() as int));
            lemma_digits_written_push(before, (m % 10) as i64);
        }
        magnitude = magnitude / 10;
    }
    out.append(digit_text(magnitude as i64));
    let mut k: usize = places.len();
    assert(out@ + digits_written(places@, k as int) =~= sign + decimal_digits(whole));
    while k > 0
        invariant
            k <= places.len(),
            forall|j: int| 0 <= j < places.len() ==> 0 <= #[trigger] places[j] <= 9,
            out@ + digits_written(places@, k as int) == sign + decimal_digits(whole),
        decreases k,
    {
        let ghost before = out@;
        out.append(digit_text(places[k - 1]));
        k = k - 1;
        assert(out@ + digits_written(places@, k as int) =~= before + digits_written(
            places@,
            k + 1,
        ));
    }
    assert(out@ + digits_written(places@, 0) =~= out@);
    out
}

proof fn lemma_digits_written_push(places: Seq<i64>, d: i64)
    ensures
        digits_written(places.push(d), places.len() as int + 1) == seq![digit_char(d as int)]
            + digits_written(places, places.len() as int),
{
    lemma_digits_written_prefix(places, d, places.len() as int);
}

proof fn lemma_digits_written_prefix(places: Seq<i64>, d: i64, k: int)
    requires
        0 <= k <= places.len(),
    ensures
        digits_written(places.push(d), k) == digits_written(places, k),
    decreases k,
{
    if k > 0 {
        lemma_digits_written_prefix(places, d, k - 1);
    }
}

/// The whole minutes from the second one timestamp shows to the second
/// another shows, rounded toward zero.
pub open spec fn elapsed_minutes_spec(start: Seq<char>, end: Seq<char>) -> int {
    trunc_div(timestamp_seconds_spec(end) - timestamp_seconds_spec(start), 60)
}

/// Counts the whole minutes between two timestamps.
pub fn elapsed_minutes(start: &str, end: &str) -> (minutes: i64)
    ensures
        minutes == elapsed_minutes_spec(start@, end@),
{
    let s = timestamp_seconds(start);
    let e = timestamp_seconds(end);
    (e - s) / 60
}

/// A memo as the summary shows it: its text, or `N/A` when there is
/// none.
pub open spec fn memo_or_na(memo: Option<String>) -> Seq<char> {
    match memo {
        Some(text) => text@,
        None => "N/A"@,
    }
}

/// The entry of one block: its title, its whole minutes, the planning
/// memo of its task and its review memo.
pub open spec fn summary_entry(
    row: (String, Option<String>, Option<String>, String, String),
) -> Seq<char> {
    "### Task: "@ + row.0@ + "\n- **Duration**: "@ + decimal_text_spec(
        elapsed_minutes_spec(row.3@, row.4@),
    ) + " mins\n- **Planning**: "@ + memo_or_na(row.1) + "\n- **Review/Outcome**: "@ + memo_or_na(
        row.2,
    ) + "\n\n"@
}

/// The entries of the first `n` blocks, one after the other.
pub open spec fn summary_spec(
    rows: Seq<(String, Option<String>, Option<String>, String, String)>,
    n: int,
) -> Seq<char>
    decreases n,
{
    if n <= 0 || n > rows.len() {
        Seq::<char>::empty()
    } else {
        summary_spec(rows, n - 1) + summary_entry(rows[n - 1])
    }
}

fn append_memo(out: &mut String, memo: &Option<String>)
    ensures
        final(out)@ == old(out)@ + memo_or_na(*memo),
{
    match memo {
        Some(text) => out.append(text.as_str()),
        None => out.append("N/A"),
    }
}

/// Writes the summary of finished blocks. Each block is given by its
/// title, the planning memo of its task, its review memo, and its start
/// and end as `YYYY-MM-DDTHH:MM:SS`; a timestamp that cannot be read
/// counts as the start of 1970-01-01.
pub fn build_task_summary(blocks: Vec<(String, Option<String>, Option<String>, String, String)>) -> (text:
    String)
    ensures
        text@ == summary_spec(blocks@, blocks@.len() as int),
{
    let mut out = String::new();
    let mut i: usize = 0;
    while i < blocks.len()
        invariant
            i <= blocks.len(),
            out@ == summary_spec(blocks@, i as int),
        decreases blocks.len() - i,
    {
        let ghost before = out@;
        let row = &blocks[i];
        let minutes = elapsed_minutes(row.3.as_str(), row.4.as_str());
        out.append("### Task: ");
        out.append(row.0.as_str());
        out.append("\n- **Duration**: ");
        let number = decimal_text(minutes);
        out.append(number.as_str());
        out.append(" mins\n- **Planning**: ");
        append_memo(&mut out, &row.1);
        out.append("\n- **Review/Outcome**: ");
        append_memo(&mut out, &row.2);
        out.append("\n\n");
        assert(out@ =~= before + summary_entry(blocks@[i as int]));
        i = i + 1;
    }
    out
}

} // verus!
