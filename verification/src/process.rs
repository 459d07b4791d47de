//! What is made of the output of other programs.

use crate::cancel::Cancellation;
use crate::error::{AppError, Reason};
use crate::text::{
    all_blank, characters, gathered, is_blank, join, joined, lines, lines_from, text_pair, texts,
    trim, trimmed,
};
use vstd::prelude::*;

verus! {

/// What runs other programs until it is told to stop.
#[derive(Debug)]
pub struct ProcessRunner {
    pub cancellation: Cancellation,
}

impl ProcessRunner {
    pub fn new(cancellation: Cancellation) -> (r: Self)
        ensures
            r.cancellation == cancellation,
    {
        ProcessRunner { cancellation }
    }

    /// Fails once the run is told to stop.
    pub fn check_cancelled(&self) -> (r: Result<(), AppError>)
        ensures
            r is Err ==> r->Err_0 is Cancelled,
    {
        self.cancellation.check()
    }
}

/// The bytes that a character takes.
pub open spec fn char_bytes(c: char) -> nat {
    let code = c as int;
    if code < 0x80 {
        1
    } else if code < 0x800 {
        2
    } else if code < 0x10000 {
        3
    } else {
        4
    }
}

/// The bytes that the first characters of a text take.
pub open spec fn bytes_to(s: Seq<char>, count: nat) -> nat
    decreases count,
{
    if count == 0 {
        0
    } else {
        bytes_to(s, (count - 1) as nat) + char_bytes(s[count - 1])
    }
}

/// How many whole characters from a place on stay within a number of bytes.
pub open spec fn whole_within(s: Seq<char>, limit: nat, count: nat) -> nat
    decreases s.len() - count,
{
    if count >= s.len() || bytes_to(s, count + 1) > limit {
        count
    } else {
        whole_within(s, limit, count + 1)
    }
}

/// A message cut short where it is longer than 500 bytes. There is none where
/// the cut would split a character.
pub open spec fn shortened(s: Seq<char>) -> Option<Seq<char>> {
    if bytes_to(s, s.len()) <= 500 {
        Some(s)
    } else {
        let count = whole_within(s, 500, 0);
        if bytes_to(s, count) == 500 {
            Some(s.take(count as int) + "…"@)
        } else {
            None
        }
    }
}

fn size_of_char(c: char) -> (r: u64)
    ensures
        r == char_bytes(c),
{
    let code: u32 = c as u32;
    if code < 0x80 {
        1
    } else if code < 0x800 {
        2
    } else if code < 0x10000 {
        3
    } else {
        4
    }
}

proof fn lemma_bytes_grow(s: Seq<char>, low: nat, high: nat)
    requires
        low <= high,
    ensures
        bytes_to(s, low) <= bytes_to(s, high),
    decreases high,
{
    if low < high {
        lemma_bytes_grow(s, low, (high - 1) as nat);
    }
}

/// A message without white space at its ends, cut short where it is long.
pub fn concise(message: &str) -> (r: Option<String>)
    ensures
        match shortened(trimmed(message@)) {
            None => r is None,
            Some(text) => r is Some && r->0@ == text,
        },
{
    let text = trim(message);
    let list = characters(text.as_str());
    let ghost s = text@;
    let mut count: usize = 0;
    let mut used: u64 = 0;
    let mut whole: bool = false;
    while count < list.len() && !whole
        invariant
            list@ == s,
            count <= list@.len(),
            used == bytes_to(s, count as nat),
            used <= 500,
            whole_within(s, 500, 0) == whole_within(s, 500, count as nat),
            whole ==> count < list@.len() && bytes_to(s, (count + 1) as nat) > 500,
        decreases list@.len() - count, if whole { 0int } else { 1int },
    {
        let grown: u64 = used + size_of_char(list[count]);
        if grown > 500 {
            whole = true;
        } else {
            used = grown;
            count = count + 1;
        }
    }
    if !whole {
        return Some(text);
    }
    proof {
        lemma_bytes_grow(s, (count + 1) as nat, s.len());
    }
    if used != 500 {
        return None;
    }
    let part = vstd::slice::slice_subrange(list.as_slice(), 0, count);
    assert(part@ =~= s.take(count as int));
    Some(text_pair(gathered(part).as_str(), "…"))
}

/// The first line from a place on that holds more than white space, without white
/// space at its ends; nothing where there is none.
pub open spec fn first_solid_line(list: Seq<Seq<char>>, start: nat) -> Seq<char>
    decreases list.len() - start,
{
    if start >= list.len() {
        seq![]
    } else if trimmed(list[start as int]).len() > 0 {
        trimmed(list[start as int])
    } else {
        first_solid_line(list, start + 1)
    }
}

/// The first line of a version report that is not empty, without white space at
/// its ends.
pub open spec fn version_text(report: Seq<char>) -> Seq<char> {
    first_solid_line(lines_from(report, 0), 0)
}

/// The version that a program reports, which must not be empty.
pub fn version_line(program: &str, report: &str) -> (r: Result<String, AppError>)
    ensures
        version_text(report@).len() > 0 ==> r is Ok && r->Ok_0@ == version_text(report@),
        version_text(report@).len() == 0 ==> r is Err && r->Err_0 is Dependency
            && r->Err_0.text() == program@ + " -version returned no version information"@,
{
    let list = lines(report);
    let ghost wanted = lines_from(report@, 0);
    assert(wanted.len() == list@.len());
    let mut i: usize = 0;
    while i < list.len()
        invariant
            i <= list@.len(),
            wanted == lines_from(report@, 0),
            wanted == texts(list@),
            version_text(report@) == first_solid_line(wanted, i as nat),
        decreases list@.len() - i,
    {
        let version = trim(list[i].as_str());
        assert(wanted[i as int] == list@[i as int]@);
        if characters(version.as_str()).len() > 0 {
            return Ok(version);
        }
        i = i + 1;
    }
    Err(
        AppError::Dependency(
            Reason::Note(text_pair(program, " -version returned no version information")),
        ),
    )
}

/// The lines among the first that hold more than white space.
pub open spec fn solid_lines(list: Seq<Seq<char>>, count: nat) -> Seq<Seq<char>>
    decreases count,
{
    if count == 0 {
        seq![]
    } else {
        let before = solid_lines(list, (count - 1) as nat);
        if all_blank(list[count - 1]) {
            before
        } else {
            before.push(list[count - 1])
        }
    }
}

/// The last lines of an error output, without blank ones.
pub open spec fn last_lines(message: Seq<char>) -> Seq<char> {
    let list = lines_from(message, 0);
    let solid = solid_lines(list, list.len());
    let start = if solid.len() > 8 { solid.len() - 8 } else { 0 };
    if solid.len() == 0 {
        "no error output"@
    } else {
        joined(solid.skip(start), "\n"@)
    }
}

/// The last eight lines of an error output, without blank ones.
pub fn concise_ffmpeg_error(message: &str) -> (r: String)
    ensures
        r@ == last_lines(message@),
{
    let list = lines(message);
    let ghost wanted = lines_from(message@, 0);
    let mut solid: Vec<String> = Vec::new();
    let mut i: usize = 0;
    while i < list.len()
        invariant
            i <= list@.len(),
            texts(list@) == wanted,
            texts(solid@) =~= solid_lines(wanted, i as nat),
        decreases list@.len() - i,
    {
        assert(wanted[i as int] == list@[i as int]@);
        if !is_blank(list[i].as_str()) {
            let ghost known = solid@;
            let line = list[i].clone();
            solid.push(line);
            assert(texts(solid@) =~= texts(known).push(line@));
        }
        i = i + 1;
    }
    if solid.len() == 0 {
        return String::from_str("no error output");
    }
    let start: usize = if solid.len() > 8 {
        solid.len() - 8
    } else {
        0
    };
    let ghost all = texts(solid@);
    let mut tail: Vec<String> = Vec::new();
    let mut k: usize = start;
    while k < solid.len()
        invariant
            start <= k <= solid@.len(),
            all == texts(solid@),
            texts(tail@) =~= all.subrange(start as int, k as int),
        decreases solid@.len() - k,
    {
        let ghost known = tail@;
        let line = solid[k].clone();
        tail.push(line);
        assert(texts(tail@) =~= texts(known).push(line@));
        k = k + 1;
    }
    assert(texts(tail@) =~= all.skip(start as int));
    join(&tail, "\n")
}

/// What a muxing pipeline has come to. The states are given in words.
pub fn pipeline_outcome(
    media_succeeded: bool,
    preservation_succeeded: bool,
    media_status: &str,
    preservation_status: &str,
    media_errors: &str,
    preservation_errors: &str,
) -> (r: Result<(), AppError>)
    ensures
        media_succeeded && preservation_succeeded ==> r is Ok,
        !(media_succeeded && preservation_succeeded) ==> r is Err && r->Err_0 is Mux
            && r->Err_0.text() == "ffmpeg mux pipeline failed (media stage "@ + media_status@
            + ", preservation stage "@ + preservation_status@ + "): media: "@ + last_lines(
            media_errors@,
        ) + "; preservation: "@ + last_lines(preservation_errors@),
{
    if media_succeeded && preservation_succeeded {
        return Ok(());
    }
    let mut message = text_pair("ffmpeg mux pipeline failed (media stage ", media_status);
    message.append(", preservation stage ");
    message.append(preservation_status);
    message.append("): media: ");
    message.append(concise_ffmpeg_error(media_errors).as_str());
    message.append("; preservation: ");
    message.append(concise_ffmpeg_error(preservation_errors).as_str());
    Err(AppError::Mux(Reason::Note(message)))
}

proof fn lemma_encoded_end(s: Seq<char>, c: char)
    ensures
        vstd::utf8::encode_utf8(s.push(c)) == vstd::utf8::encode_utf8(s)
            + vstd::utf8::encode_scalar(c as u32),
    decreases s.len(),
{
    let whole = s.push(c);
    if s.len() == 0 {
        assert(whole.drop_first() =~= s);
        assert(vstd::utf8::encode_utf8(whole) =~= vstd::utf8::encode_utf8(s)
            + vstd::utf8::encode_scalar(c as u32));
    } else {
        assert(whole.drop_first() =~= s.drop_first().push(c));
        lemma_encoded_end(s.drop_first(), c);
        assert(vstd::utf8::encode_utf8(whole) =~= vstd::utf8::encode_utf8(s)
            + vstd::utf8::encode_scalar(c as u32));
    }
}

proof fn lemma_encoded_size(c: char)
    ensures
        vstd::utf8::encode_scalar(c as u32).len() == char_bytes(c),
{
    let code = c as u32;
    assert(code as int == c as int);
    assert(code <= 0x10ffff && !(0xd800 <= code <= 0xdfff));
}

/// The first characters of a text take as many bytes as their encoding in UTF-8 has.
pub proof fn law_bytes_are_counted_as_encoded(s: Seq<char>, count: nat)
    requires
        count <= s.len(),
    ensures
        bytes_to(s, count) == vstd::utf8::encode_utf8(s.take(count as int)).len(),
    decreases count,
{
    if count > 0 {
        let less = (count - 1) as nat;
        law_bytes_are_counted_as_encoded(s, less);
        assert(s.take(count as int) =~= s.take(less as int).push(s[count - 1]));
        lemma_encoded_end(s.take(less as int), s[count - 1]);
        lemma_encoded_size(s[count - 1]);
    } else {
        assert(s.take(0) =~= seq![]);
    }
}

proof fn lemma_whole_within(s: Seq<char>, limit: nat, count: nat)
    requires
        count <= s.len(),
        bytes_to(s, count) <= limit,
    ensures
        ({
            let end = whole_within(s, limit, count);
            &&& count <= end <= s.len()
            &&& bytes_to(s, end) <= limit
            &&& end < s.len() ==> bytes_to(s, end + 1) > limit
        }),
    decreases s.len() - count,
{
    if count < s.len() && bytes_to(s, count + 1) <= limit {
        lemma_whole_within(s, limit, count + 1);
    }
}

/// A message of up to five hundred bytes stays as it is. A longer one is cut behind its
/// first five hundred bytes, where a character ends there, and is followed by an ellipsis;
/// where none ends there, there is no message.
pub proof fn law_long_messages_are_cut(s: Seq<char>, k: nat)
    requires
        k <= s.len(),
    ensures
        vstd::utf8::encode_utf8(s).len() <= 500 ==> shortened(s) == Some(s),
        k < s.len() && vstd::utf8::encode_utf8(s.take(k as int)).len() == 500 ==> shortened(s)
            == Some(s.take(k as int) + "…"@),
        shortened(s) is None ==> vstd::utf8::encode_utf8(s.take(k as int)).len() != 500,
{
    law_bytes_are_counted_as_encoded(s, s.len());
    law_bytes_are_counted_as_encoded(s, k);
    assert(s.take(s.len() as int) =~= s);
    lemma_whole_within(s, 500, 0);
    let end = whole_within(s, 500, 0);
    if bytes_to(s, k) == 500 {
        if k < s.len() {
            lemma_bytes_grow(s, k + 1, s.len());
        }
        if end < k {
            lemma_bytes_grow(s, end + 1, k);
        }
        if k < end {
            lemma_bytes_grow(s, k + 1, end);
        }
    }
}

/// The version is the first line that holds more than white space, trimmed; it is empty
/// exactly where there is no such line.
pub proof fn law_the_version_is_the_first_line_that_says_something(
    list: Seq<Seq<char>>,
    start: nat,
)
    ensures
        ({
            let found = first_solid_line(list, start);
            ||| found.len() == 0 && forall|i: int|
                start <= i < list.len() ==> trimmed(#[trigger] list[i]).len() == 0
            ||| found.len() > 0 && exists|i: int|
                {
                    &&& start <= i < list.len()
                    &&& found == trimmed(#[trigger] list[i])
                    &&& forall|j: int| start <= j < i ==> trimmed(#[trigger] list[j]).len() == 0
                }
        }),
    decreases list.len() - start,
{
    if start < list.len() && trimmed(list[start as int]).len() == 0 {
        law_the_version_is_the_first_line_that_says_something(list, start + 1);
        let found = first_solid_line(list, start);
        if found.len() == 0 {
            assert forall|i: int| start <= i < list.len() implies trimmed(#[trigger] list[i]).len()
                == 0 by {
                if i > start {
                    assert(start + 1 <= i);
                }
            }
        } else {
            let i = choose|i: int|
                {
                    &&& start + 1 <= i < list.len()
                    &&& found == trimmed(#[trigger] list[i])
                    &&& forall|j: int|
                        start + 1 <= j < i ==> trimmed(#[trigger] list[j]).len() == 0
                };
            assert forall|j: int| start <= j < i implies trimmed(#[trigger] list[j]).len() == 0 by {
                if j > start {
                    assert(start + 1 <= j);
                }
            }
            assert(found == trimmed(list[i]));
        }
    }
}

/// Of the lines of an error output those are kept, in their order, that hold more than
/// white space.
pub proof fn law_blank_lines_are_left_out(list: Seq<Seq<char>>, count: nat)
    requires
        count <= list.len(),
    ensures
        solid_lines(list, count) == list.take(count as int).filter(
            |line: Seq<char>| !all_blank(line),
        ),
    decreases count,
{
    reveal(Seq::filter);
    if count > 0 {
        let part = list.take(count as int);
        law_blank_lines_are_left_out(list, (count - 1) as nat);
        assert(part.drop_last() =~= list.take(count - 1));
        assert(part.last() == list[count - 1]);
    }
}

/// What is shown of an error output is its last lines that are not blank, joined again:
/// all of them where there are up to eight, and otherwise the last eight.
pub proof fn law_the_last_lines_are_shown(message: Seq<char>)
    ensures
        ({
            let list = lines_from(message, 0);
            let said = list.filter(|line: Seq<char>| !all_blank(line));
            ||| said.len() == 0 && last_lines(message) == "no error output"@
            ||| said.len() > 0 && exists|front: Seq<Seq<char>>, back: Seq<Seq<char>>|
                {
                    &&& said == #[trigger] (front + back)
                    &&& last_lines(message) == joined(back, "\n"@)
                    &&& back.len() == 8 || (back.len() < 8 && front.len() == 0)
                }
        }),
{
    let list = lines_from(message, 0);
    let said = list.filter(|line: Seq<char>| !all_blank(line));
    law_blank_lines_are_left_out(list, list.len());
    assert(list.take(list.len() as int) =~= list);
    if said.len() > 0 {
        let start = if said.len() > 8 {
            said.len() - 8
        } else {
            0
        };
        assert(said =~= said.take(start) + said.skip(start));
        assert(last_lines(message) == joined(said.skip(start), "\n"@));
    }
}

} // verus!
