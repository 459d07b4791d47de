//! How far a run has come, in words.

use crate::cli::ProgressMode;
use crate::text::{
    begins, behind, decimal, digit, digits, fill, law_a_beginning_and_the_rest_are_the_text,
    law_spelled_numbers_read_back, lines, lines_from, parse_number, row, shortfall, spelled_number,
    strip_beginning, texts,
};
use vstd::prelude::*;

verus! {

/// Bytes of a frame of two channels of 24 bits.
pub const WAV_STEREO_I24_BYTES_PER_FRAME: u64 = 6;

/// The time that a line of a progress report gives, in microseconds.
pub open spec fn line_time(line: Seq<char>) -> Option<u64> {
    match behind(line, "out_time_us="@) {
        None => None,
        Some(value) => spelled_number(value),
    }
}

/// The last time among the first lines of a progress report.
pub open spec fn last_time(list: Seq<Seq<char>>, count: nat) -> Option<u64>
    decreases count,
{
    if count == 0 {
        None
    } else if line_time(list[count - 1]) is Some {
        line_time(list[count - 1])
    } else {
        last_time(list, (count - 1) as nat)
    }
}

fn time_of_line(line: &str) -> (r: Option<u64>)
    ensures
        r == line_time(line@),
{
    match strip_beginning(line, "out_time_us=") {
        None => None,
        Some(value) => parse_number(value.as_str()),
    }
}

/// The time that a progress report has reached, in microseconds: that of its
/// last line that gives one.
pub fn completed_microseconds(report: &str) -> (r: Option<u64>)
    ensures
        r == last_time(lines_from(report@, 0), lines_from(report@, 0).len()),
{
    let list = lines(report);
    let ghost wanted = lines_from(report@, 0);
    let mut i: usize = list.len();
    while i > 0
        invariant
            i <= list@.len(),
            texts(list@) == wanted,
            wanted == lines_from(report@, 0),
            last_time(wanted, wanted.len()) == last_time(wanted, i as nat),
        decreases i,
    {
        i = i - 1;
        assert(wanted[i as int] == list@[i as int]@);
        let time: Option<u64> = time_of_line(list[i].as_str());
        if time.is_some() {
            return time;
        }
    }
    None
}

/// The whole seconds of a number of frames, and the frames that are left.
pub fn frame_duration(frames: u64, sample_rate: u32) -> (r: (u64, u32))
    requires
        sample_rate > 0,
    ensures
        r.0 * sample_rate + r.1 == frames,
        r.1 < sample_rate,
{
    let rate: u64 = sample_rate as u64;
    let whole: u64 = frames / rate;
    let rest: u64 = frames % rate;
    assert(whole * rate + rest == frames && rest < rate) by (nonlinear_arith)
        requires
            whole == frames / rate,
            rest == frames % rate,
            rate > 0,
    ;
    (whole, rest as u32)
}

/// The whole frames in a file of rendered samples.
pub fn frames_in(bytes: u64) -> (r: u64)
    ensures
        r == bytes / WAV_STEREO_I24_BYTES_PER_FRAME,
{
    bytes / WAV_STEREO_I24_BYTES_PER_FRAME
}

/// A number of at least two digits.
pub open spec fn two_digits(n: nat) -> Seq<char> {
    row('0', shortfall(digits(n), 2)) + digits(n)
}

/// A duration as hours, minutes and seconds.
pub open spec fn clock(seconds: nat) -> Seq<char> {
    let tail = two_digits(seconds % 3600 / 60) + ":"@ + two_digits(seconds % 60);
    if seconds / 3600 == 0 {
        tail
    } else {
        digits(seconds / 3600) + ":"@ + tail
    }
}

fn two_digit_text(n: u64) -> (r: String)
    ensures
        r@ == two_digits(n as nat),
{
    fill(decimal(n).as_str(), 2, '0', true)
}

/// A duration as hours, minutes and seconds.
pub fn format_duration(seconds: u64) -> (r: String)
    ensures
        r@ == clock(seconds as nat),
{
    let hours: u64 = seconds / 3600;
    let mut text = String::new();
    if hours != 0 {
        text.append(decimal(hours).as_str());
        text.append(":");
    }
    let ghost head = text@;
    text.append(two_digit_text(seconds % 3600 / 60).as_str());
    text.append(":");
    text.append(two_digit_text(seconds % 60).as_str());
    assert(text@ =~= head + (two_digits((seconds as nat) % 3600 / 60) + ":"@ + two_digits(
        (seconds as nat) % 60,
    )));
    text
}

/// Whether a run reports its progress: only in words, and only where the total
/// duration is known.
pub fn reports(mode: ProgressMode, total_known: bool) -> (r: bool)
    ensures
        r == (total_known && mode is Text),
{
    total_known && matches!(mode, ProgressMode::Text)
}

/// A line that gives a time in microseconds is read as that time, and a line that does
/// not begin as such a line gives none.
pub proof fn law_progress_lines_give_their_time(micros: nat, line: Seq<char>)
    ensures
        micros <= u64::MAX ==> line_time("out_time_us="@ + digits(micros)) == Some(micros as u64),
        !begins(line, "out_time_us="@) ==> line_time(line) is None,
{
    law_a_beginning_and_the_rest_are_the_text(digits(micros), "out_time_us="@);
    law_spelled_numbers_read_back(micros);
}

/// The time that a report has reached is that of its last line that gives one: lines
/// without a time change nothing, and a line with one takes the place of all before it.
pub proof fn law_the_last_time_counts(list: Seq<Seq<char>>, i: int)
    requires
        0 <= i < list.len(),
        line_time(list[i]) is Some,
        forall|k: int| i < k < list.len() ==> line_time(#[trigger] list[k]) is None,
    ensures
        last_time(list, list.len()) == line_time(list[i]),
{
    lemma_last_time(list, i, list.len());
}

proof fn lemma_last_time(list: Seq<Seq<char>>, i: int, count: nat)
    requires
        0 <= i < count <= list.len(),
        line_time(list[i]) is Some,
        forall|k: int| i < k < list.len() ==> line_time(#[trigger] list[k]) is None,
    ensures
        last_time(list, count) == line_time(list[i]),
    decreases count,
{
    if i < count - 1 {
        assert(line_time(list[count - 1]) is None);
        lemma_last_time(list, i, (count - 1) as nat);
    }
}

/// A report none of whose lines gives a time has reached none.
pub proof fn law_a_report_without_times_has_none(list: Seq<Seq<char>>, count: nat)
    requires
        count <= list.len(),
        forall|k: int| 0 <= k < list.len() ==> line_time(#[trigger] list[k]) is None,
    ensures
        last_time(list, count) is None,
    decreases count,
{
    if count > 0 {
        assert(line_time(list[count - 1]) is None);
        law_a_report_without_times_has_none(list, (count - 1) as nat);
    }
}

/// A frame of rendered samples is two channels of twenty-four bits.
pub proof fn law_a_frame_is_two_samples_of_three_bytes()
    ensures
        8 * WAV_STEREO_I24_BYTES_PER_FRAME == 2 * 24,
{
}

/// Numbers below a hundred are spelled in two digits, tens and ones.
pub proof fn law_two_digits_are_tens_and_ones(tens: nat, ones: nat)
    requires
        tens < 10,
        ones < 10,
    ensures
        two_digits(10 * tens + ones) == seq![digit(tens), digit(ones)],
{
    let n = 10 * tens + ones;
    if tens == 0 {
        assert(digits(n) =~= seq![digit(ones)]);
        assert(row('0', 1) =~= seq![digit(0)]);
        assert(two_digits(n) =~= seq![digit(0), digit(ones)]);
    } else {
        assert(n / 10 == tens && n % 10 == ones);
        assert(digits(tens) =~= seq![digit(tens)]);
        assert(digits(n) =~= seq![digit(tens), digit(ones)]);
        assert(row('0', 0) =~= seq![]);
        assert(two_digits(n) =~= digits(n));
    }
}

/// A duration is spelled as its hours, minutes and seconds, the hours only where there
/// are any.
pub proof fn law_durations_are_spelled_as_on_a_clock(hours: nat, minutes: nat, seconds: nat)
    requires
        minutes < 60,
        seconds < 60,
    ensures
        ({
            let whole = clock(3600 * hours + 60 * minutes + seconds);
            let tail = two_digits(minutes) + ":"@ + two_digits(seconds);
            &&& hours == 0 ==> whole == tail
            &&& hours > 0 ==> whole == digits(hours) + ":"@ + tail
        }),
{
    let all = 3600 * hours + 60 * minutes + seconds;
    assert(all / 3600 == hours);
    assert(all % 3600 == 60 * minutes + seconds);
    assert(all % 3600 / 60 == minutes);
    assert(all % 60 == seconds);
}

} // verus!
