//! The check of a finished container: everything of the source is still there,
//! and the appended tracks are what they should be.

use crate::cli::OutputCodec;
use crate::dictionary::{keyed, named, Dictionary, Entry};
use crate::error::{AppError, Reason};
use crate::media::{
    chapter_views, stream_views, tag, tag_texts, ChapterManifest, ChapterView, ContainerManifest,
    ContainerView, StreamManifest, StreamView, Tags,
};
use crate::mux::{
    appended_views, audio_count, count_audio, format_timestamp, timestamp, AppendedTrack,
    AppendedView,
};
use crate::text::{
    around, contains, decimal, digits, equals_ignoring_case, has_part, lowercase, lowered,
    same_letters, same_text, text_around, text_pair,
};
use vstd::prelude::*;

verus! {

/// The outcome of a check in words: nothing, or what is wrong.
pub open spec fn says(r: Result<(), AppError>, fault: Option<Seq<char>>) -> bool {
    match fault {
        None => r is Ok,
        Some(text) => r is Err && r->Err_0 is Mux && r->Err_0.text() == text,
    }
}

fn fault(message: String) -> (r: AppError)
    ensures
        r is Mux,
        r.text() == message@,
{
    AppError::Mux(Reason::Note(message))
}

/// Whether a name is one of a list without regard to case.
pub open spec fn listed(name: Seq<char>, list: Seq<Seq<char>>) -> bool {
    exists|i: int| 0 <= i < list.len() && same_letters(name, #[trigger] list[i])
}

/// Whether a tag of the source is missing or changed in a way that is not
/// allowed. A `DURATION` and the tags that the muxer writes may change, some
/// tags may go missing, and so may a language that says nothing.
pub open spec fn tag_lost(
    expected: (Seq<char>, Seq<char>),
    actual: Seq<(Seq<char>, Seq<char>)>,
    generated: Seq<Seq<char>>,
    omittable: Seq<Seq<char>>,
) -> bool {
    let found = named(actual, expected.0, 0);
    &&& !same_letters(expected.0, "DURATION"@)
    &&& !listed(expected.0, generated)
    &&& !(found is None && listed(expected.0, omittable))
    &&& !(found is None && same_letters(expected.0, "language"@) && same_letters(
        expected.1,
        "und"@,
    ))
    &&& found != Some(expected.1)
}

/// The first fault of the tags, from a place on.
pub open spec fn tags_fault(
    expected: Seq<(Seq<char>, Seq<char>)>,
    actual: Seq<(Seq<char>, Seq<char>)>,
    description: Seq<char>,
    generated: Seq<Seq<char>>,
    omittable: Seq<Seq<char>>,
    start: nat,
) -> Option<Seq<char>>
    decreases expected.len() - start,
{
    if start >= expected.len() {
        None
    } else if tag_lost(expected[start as int], actual, generated, omittable) {
        Some(description + " field '"@ + expected[start as int].0 + "' changed or is missing"@)
    } else {
        tags_fault(expected, actual, description, generated, omittable, start + 1)
    }
}

/// The texts of a list of words.
pub open spec fn word_texts(list: Seq<&str>) -> Seq<Seq<char>> {
    list.map_values(|word: &str| word@)
}

fn is_listed(name: &str, list: &[&str]) -> (r: bool)
    ensures
        r == listed(name@, word_texts(list@)),
{
    let ghost wanted = word_texts(list@);
    let mut i: usize = 0;
    while i < list.len()
        invariant
            i <= list@.len(),
            wanted == word_texts(list@),
            forall|k: int| 0 <= k < i ==> !same_letters(name@, #[trigger] wanted[k]),
        decreases list@.len() - i,
    {
        assert(wanted[i as int] == list@[i as int]@);
        if equals_ignoring_case(name, list[i]) {
            assert(same_letters(name@, wanted[i as int]));
            return true;
        }
        i = i + 1;
    }
    false
}

fn is_tag_lost(
    key: &str,
    value: &str,
    actual: &Tags,
    generated: &[&str],
    omittable: &[&str],
) -> (r: bool)
    ensures
        r == tag_lost(
            (key@, value@),
            tag_texts(*actual),
            word_texts(generated@),
            word_texts(omittable@),
        ),
{
    if equals_ignoring_case(key, "DURATION") || is_listed(key, generated) {
        return false;
    }
    match tag(actual, key) {
        None => {
            !is_listed(key, omittable) && !(equals_ignoring_case(key, "language")
                && equals_ignoring_case(value, "und"))
        },
        Some(found) => !same_text(found, value),
    }
}

/// Checks that the tags of the source are still there.
pub fn verify_tags(
    expected: &Tags,
    actual: &Tags,
    description: &str,
    generated: &[&str],
    omittable: &[&str],
) -> (r: Result<(), AppError>)
    ensures
        says(
            r,
            tags_fault(
                tag_texts(*expected),
                tag_texts(*actual),
                description@,
                word_texts(generated@),
                word_texts(omittable@),
                0,
            ),
        ),
{
    let ghost wanted = tag_texts(*expected);
    let ghost have = tag_texts(*actual);
    let ghost made = word_texts(generated@);
    let ghost free = word_texts(omittable@);
    let mut i: usize = 0;
    while i < expected.entries.len()
        invariant
            i <= expected.entries@.len(),
            wanted == tag_texts(*expected),
            have == tag_texts(*actual),
            made == word_texts(generated@),
            free == word_texts(omittable@),
            tags_fault(wanted, have, description@, made, free, 0) == tags_fault(
                wanted,
                have,
                description@,
                made,
                free,
                i as nat,
            ),
        decreases expected.entries@.len() - i,
    {
        let entry: &Entry<String> = &expected.entries[i];
        assert(wanted[i as int] == (entry.key@, entry.value@));
        if is_tag_lost(entry.key.as_str(), entry.value.as_str(), actual, generated, omittable) {
            let mut message = text_pair(description, " field '");
            message.append(entry.key.as_str());
            message.append("' changed or is missing");
            return Err(fault(message));
        }
        i = i + 1;
    }
    Ok(())
}

/// Whether two times, where there are two, are further apart than a millisecond.
/// A time that only one side has is always too far.
pub open spec fn apart(first: Option<i64>, second: Option<i64>) -> bool {
    match (first, second) {
        (None, None) => false,
        (Some(a), Some(b)) => a - b > 1_000_000 || b - a > 1_000_000,
        _ => true,
    }
}

fn are_apart(first: Option<i64>, second: Option<i64>) -> (r: bool)
    ensures
        r == apart(first, second),
{
    match (first, second) {
        (None, None) => false,
        (Some(a), Some(b)) => {
            let difference: i128 = a as i128 - b as i128;
            difference > 1_000_000 || difference < -1_000_000
        },
        _ => true,
    }
}

/// The first fault of the chapters, from a place on.
pub open spec fn chapters_fault_from(
    source: Seq<ChapterView>,
    output: Seq<ChapterView>,
    start: nat,
) -> Option<Seq<char>>
    decreases source.len() - start,
{
    if start >= source.len() {
        None
    } else {
        let expected = source[start as int];
        let actual = output[start as int];
        let tags = tags_fault(
            expected.tags,
            actual.tags,
            around("chapter "@, start, " metadata"@),
            seq![],
            seq![],
            0,
        );
        if apart(expected.start_time, actual.start_time) || apart(
            expected.end_time,
            actual.end_time,
        ) {
            Some(around("chapter "@, start, " timing changed"@))
        } else if tags is Some {
            tags
        } else {
            chapters_fault_from(source, output, start + 1)
        }
    }
}

/// What is wrong with the chapters, if anything.
pub open spec fn chapters_fault(source: Seq<ChapterView>, output: Seq<ChapterView>) -> Option<
    Seq<char>,
> {
    if source.len() != output.len() {
        Some(
            "chapter preservation failed: expected "@ + digits(source.len()) + ", found "@
                + digits(output.len()),
        )
    } else {
        chapters_fault_from(source, output, 0)
    }
}

fn verify_chapter(expected: &ChapterManifest, actual: &ChapterManifest, position: usize) -> (r:
    Result<(), AppError>)
    ensures
        says(
            r,
            if apart(expected.start_time, actual.start_time) || apart(
                expected.end_time,
                actual.end_time,
            ) {
                Some(around("chapter "@, position as nat, " timing changed"@))
            } else {
                tags_fault(
                    expected@.tags,
                    actual@.tags,
                    around("chapter "@, position as nat, " metadata"@),
                    seq![],
                    seq![],
                    0,
                )
            },
        ),
{
    if are_apart(expected.start_time, actual.start_time) || are_apart(
        expected.end_time,
        actual.end_time,
    ) {
        return Err(fault(text_around("chapter ", position as u64, " timing changed")));
    }
    let description = text_around("chapter ", position as u64, " metadata");
    let none: [&str; 0] = [];
    assert(word_texts(none@) =~= seq![]);
    verify_tags(&expected.tags, &actual.tags, description.as_str(), &none, &none)
}

fn verify_chapters(source: &[ChapterManifest], output: &[ChapterManifest]) -> (r: Result<
    (),
    AppError,
>)
    ensures
        says(r, chapters_fault(chapter_views(source@), chapter_views(output@))),
{
    let ghost wanted = chapter_views(source@);
    let ghost have = chapter_views(output@);
    if source.len() != output.len() {
        let mut message = text_around(
            "chapter preservation failed: expected ",
            source.len() as u64,
            ", found ",
        );
        message.append(decimal(output.len() as u64).as_str());
        return Err(fault(message));
    }
    let mut i: usize = 0;
    while i < source.len()
        invariant
            i <= source@.len(),
            source@.len() == output@.len(),
            wanted == chapter_views(source@),
            have == chapter_views(output@),
            chapters_fault(wanted, have) == chapters_fault_from(wanted, have, i as nat),
        decreases source@.len() - i,
    {
        assert(wanted[i as int] == source@[i as int]@);
        assert(have[i as int] == output@[i as int]@);
        verify_chapter(&source[i], &output[i], i)?;
        i = i + 1;
    }
    Ok(())
}

/// How many of the first streams have a type, given in small letters.
pub open spec fn type_count(streams: Seq<StreamView>, kind: Seq<char>, count: nat) -> nat
    decreases count,
{
    if count == 0 {
        0
    } else {
        type_count(streams, kind, (count - 1) as nat) + if lowered(streams[count - 1].codec_type)
            == kind {
            1nat
        } else {
            0nat
        }
    }
}

/// The place of the stream of a type that has a given number of others of that
/// type before it, from a place on.
pub open spec fn nth_of_type(streams: Seq<StreamView>, kind: Seq<char>, ordinal: nat, start: nat) -> Option<
    nat,
>
    decreases streams.len() - start,
{
    if start >= streams.len() {
        None
    } else if !same_letters(streams[start as int].codec_type, kind) {
        nth_of_type(streams, kind, ordinal, start + 1)
    } else if ordinal == 0 {
        Some(start)
    } else {
        nth_of_type(streams, kind, (ordinal - 1) as nat, start + 1)
    }
}

/// The place in the output at which a stream of the source is looked for: the
/// same number of its type.
pub open spec fn output_place(source: Seq<StreamView>, output: Seq<StreamView>, index: nat) -> Option<
    nat,
> {
    let kind = lowered(source[index as int].codec_type);
    nth_of_type(output, kind, type_count(source, kind, index), 0)
}

/// The first stream of the source that has no place in the output, in words.
pub open spec fn missing_fault(
    source: Seq<StreamView>,
    output: Seq<StreamView>,
    start: nat,
) -> Option<Seq<char>>
    decreases source.len() - start,
{
    if start >= source.len() {
        None
    } else if output_place(source, output, start) is None {
        let stream = source[start as int];
        Some(
            "original "@ + stream.codec_type + " stream "@ + digits(
                type_count(source, lowered(stream.codec_type), start),
            ) + " is missing from the partial output"@,
        )
    } else {
        missing_fault(source, output, start + 1)
    }
}

/// A stream that is found has the type that was looked for, and stands at or
/// behind the place where the search began.
pub proof fn lemma_nth_of_type(streams: Seq<StreamView>, kind: Seq<char>, ordinal: nat, start: nat)
    requires
        nth_of_type(streams, kind, ordinal, start) is Some,
    ensures
        start <= nth_of_type(streams, kind, ordinal, start)->0 < streams.len(),
        same_letters(
            streams[nth_of_type(streams, kind, ordinal, start)->0 as int].codec_type,
            kind,
        ),
    decreases streams.len() - start,
{
    if same_letters(streams[start as int].codec_type, kind) {
        if ordinal > 0 {
            lemma_nth_of_type(streams, kind, (ordinal - 1) as nat, start + 1);
        }
    } else {
        lemma_nth_of_type(streams, kind, ordinal, start + 1);
    }
}

proof fn lemma_later_of_type(
    streams: Seq<StreamView>,
    kind: Seq<char>,
    low: nat,
    high: nat,
    start: nat,
)
    requires
        low < high,
        nth_of_type(streams, kind, low, start) is Some,
        nth_of_type(streams, kind, high, start) is Some,
    ensures
        nth_of_type(streams, kind, low, start)->0 < nth_of_type(streams, kind, high, start)->0,
    decreases streams.len() - start,
{
    if same_letters(streams[start as int].codec_type, kind) {
        if low > 0 {
            lemma_later_of_type(
                streams,
                kind,
                (low - 1) as nat,
                (high - 1) as nat,
                start + 1,
            );
        } else {
            lemma_nth_of_type(streams, kind, (high - 1) as nat, start + 1);
        }
    } else {
        lemma_later_of_type(streams, kind, low, high, start + 1);
    }
}

proof fn lemma_type_count_grows(streams: Seq<StreamView>, kind: Seq<char>, low: nat, high: nat)
    requires
        low <= high,
    ensures
        type_count(streams, kind, low) <= type_count(streams, kind, high),
    decreases high,
{
    if low < high {
        lemma_type_count_grows(streams, kind, low, (high - 1) as nat);
    }
}

/// No two streams of the source are found at the same place of the output.
pub proof fn law_no_output_stream_stands_for_two(
    source: Seq<StreamView>,
    output: Seq<StreamView>,
    first: nat,
    second: nat,
)
    requires
        first < second < source.len(),
        output_place(source, output, first) is Some,
        output_place(source, output, second) is Some,
    ensures
        output_place(source, output, first) != output_place(source, output, second),
{
    let one = lowered(source[first as int].codec_type);
    let two = lowered(source[second as int].codec_type);
    if one == two {
        lemma_type_count_grows(source, one, first + 1, second);
        lemma_later_of_type(
            output,
            one,
            type_count(source, one, first),
            type_count(source, one, second),
            0,
        );
    } else {
        lemma_nth_of_type(output, one, type_count(source, one, first), 0);
        lemma_nth_of_type(output, two, type_count(source, two, second), 0);
        assert(lowered(one) =~= one);
        assert(lowered(two) =~= two);
    }
}

fn find_nth_of_type(streams: &[StreamManifest], kind: &str, ordinal: usize) -> (r: Option<usize>)
    ensures
        match nth_of_type(stream_views(streams@), kind@, ordinal as nat, 0) {
            None => r is None,
            Some(place) => r == Some(place as usize) && place < streams@.len(),
        },
{
    let ghost views = stream_views(streams@);
    let mut left: usize = ordinal;
    let mut i: usize = 0;
    while i < streams.len()
        invariant
            i <= streams@.len(),
            views == stream_views(streams@),
            nth_of_type(views, kind@, ordinal as nat, 0) == nth_of_type(
                views,
                kind@,
                left as nat,
                i as nat,
            ),
        decreases streams@.len() - i,
    {
        assert(views[i as int] == streams@[i as int]@);
        if equals_ignoring_case(streams[i].codec_type.as_str(), kind) {
            if left == 0 {
                return Some(i);
            }
            left = left - 1;
        }
        i = i + 1;
    }
    None
}

fn count_type(streams: &[StreamManifest], kind: &str, count: usize) -> (r: usize)
    requires
        count <= streams@.len(),
    ensures
        r == type_count(stream_views(streams@), kind@, count as nat),
        r <= count,
{
    let ghost views = stream_views(streams@);
    let mut found: usize = 0;
    let mut i: usize = 0;
    while i < count
        invariant
            i <= count <= streams@.len(),
            views == stream_views(streams@),
            found == type_count(views, kind@, i as nat),
            found <= i,
        decreases count - i,
    {
        assert(views[i as int] == streams@[i as int]@);
        if same_text(lowercase(streams[i].codec_type.as_str()).as_str(), kind) {
            found = found + 1;
        }
        i = i + 1;
    }
    found
}

/// The places of the output at which the streams of the source stand.
pub open spec fn places(source: Seq<StreamView>, output: Seq<StreamView>) -> Seq<usize> {
    Seq::new(source.len(), |i: int| output_place(source, output, i as nat)->0 as usize)
}

/// Finds each stream of the source in the output, by its number among the
/// streams of its type.
pub fn original_output_positions(source: &[StreamManifest], output: &[StreamManifest]) -> (r:
    Result<Vec<usize>, AppError>)
    ensures
        match missing_fault(stream_views(source@), stream_views(output@), 0) {
            Some(text) => r is Err && r->Err_0 is Mux && r->Err_0.text() == text,
            None => r is Ok && r->Ok_0@ == places(stream_views(source@), stream_views(output@))
                && forall|i: int|
                0 <= i < source@.len() ==> (#[trigger] r->Ok_0@[i]) < output@.len(),
        },
{
    let ghost views = stream_views(source@);
    let ghost outputs = stream_views(output@);
    let mut list: Vec<usize> = Vec::new();
    let mut i: usize = 0;
    while i < source.len()
        invariant
            i <= source@.len(),
            views == stream_views(source@),
            outputs == stream_views(output@),
            missing_fault(views, outputs, 0) == missing_fault(views, outputs, i as nat),
            list@.len() == i,
            forall|k: int|
                0 <= k < i ==> (#[trigger] list@[k]) == places(views, outputs)[k] && list@[k]
                    < output@.len(),
        decreases source@.len() - i,
    {
        assert(views[i as int] == source@[i as int]@);
        let kind = lowercase(source[i].codec_type.as_str());
        let ordinal: usize = count_type(source, kind.as_str(), i);
        match find_nth_of_type(output, kind.as_str(), ordinal) {
            None => {
                let mut message = text_pair("original ", source[i].codec_type.as_str());
                message.append(" stream ");
                message.append(decimal(ordinal as u64).as_str());
                message.append(" is missing from the partial output");
                return Err(fault(message));
            },
            Some(place) => list.push(place),
        }
        i = i + 1;
    }
    assert(list@ =~= places(views, outputs));
    Ok(list)
}

/// The first flag of the source that has changed, from a place on, in words.
pub open spec fn flags_fault(
    expected: Seq<(Seq<char>, i32)>,
    actual: Seq<(Seq<char>, i32)>,
    position: nat,
    start: nat,
) -> Option<Seq<char>>
    decreases expected.len() - start,
{
    if start >= expected.len() {
        None
    } else if flag_value(actual, expected[start as int].0) != expected[start as int].1 {
        Some(
            "original stream "@ + digits(position) + " disposition '"@ + expected[start as int].0
                + "' changed"@,
        )
    } else {
        flags_fault(expected, actual, position, start + 1)
    }
}

/// A flag, which is zero where it is absent.
pub open spec fn flag_value(flags: Seq<(Seq<char>, i32)>, name: Seq<char>) -> i32 {
    match keyed(flags, name, 0) {
        None => 0,
        Some(value) => value,
    }
}

/// What is wrong with a stream of the source in the output, if anything.
pub open spec fn stream_fault(source: StreamView, output: StreamView, position: nat) -> Option<
    Seq<char>,
> {
    let tags = tags_fault(
        source.tags,
        output.tags,
        around("stream "@, position, " metadata"@),
        seq![],
        seq!["creation_time"@],
        0,
    );
    if !same_letters(source.codec_type, output.codec_type) || !same_letters(
        source.codec_name,
        output.codec_name,
    ) {
        Some(
            "original stream "@ + digits(position) + " changed from "@ + source.codec_type + "/"@
                + source.codec_name + " to "@ + output.codec_type + "/"@ + output.codec_name,
        )
    } else if tags is Some {
        tags
    } else {
        flags_fault(source.disposition, output.disposition, position, 0)
    }
}

fn flag_of(flags: &Dictionary<i32>, name: &str) -> (r: i32)
    ensures
        r == flag_value(flags@, name@),
{
    match flags.get(name) {
        None => 0,
        Some(value) => *value,
    }
}

fn verify_flags(expected: &Dictionary<i32>, actual: &Dictionary<i32>, position: usize) -> (r:
    Result<(), AppError>)
    ensures
        says(r, flags_fault(expected@, actual@, position as nat, 0)),
{
    let ghost wanted = expected@;
    let ghost have = actual@;
    let mut i: usize = 0;
    while i < expected.entries.len()
        invariant
            i <= expected.entries@.len(),
            wanted == expected@,
            have == actual@,
            flags_fault(wanted, have, position as nat, 0) == flags_fault(
                wanted,
                have,
                position as nat,
                i as nat,
            ),
        decreases expected.entries@.len() - i,
    {
        let entry: &Entry<i32> = &expected.entries[i];
        assert(wanted[i as int] == (entry.key@, entry.value));
        if flag_of(actual, entry.key.as_str()) != entry.value {
            let mut message = text_around("original stream ", position as u64, " disposition '");
            message.append(entry.key.as_str());
            message.append("' changed");
            return Err(fault(message));
        }
        i = i + 1;
    }
    Ok(())
}

fn verify_original_stream(source: &StreamManifest, output: &StreamManifest, position: usize) -> (r:
    Result<(), AppError>)
    ensures
        says(r, stream_fault(source@, output@, position as nat)),
{
    if !equals_ignoring_case(source.codec_type.as_str(), output.codec_type.as_str())
        || !equals_ignoring_case(source.codec_name.as_str(), output.codec_name.as_str()) {
        let mut message = text_around("original stream ", position as u64, " changed from ");
        message.append(source.codec_type.as_str());
        message.append("/");
        message.append(source.codec_name.as_str());
        message.append(" to ");
        message.append(output.codec_type.as_str());
        message.append("/");
        message.append(output.codec_name.as_str());
        return Err(fault(message));
    }
    let description = text_around("stream ", position as u64, " metadata");
    let none: [&str; 0] = [];
    let omittable: [&str; 1] = ["creation_time"];
    assert(word_texts(none@) =~= seq![]);
    assert(word_texts(omittable@) =~= seq!["creation_time"@]);
    verify_tags(&source.tags, &output.tags, description.as_str(), &none, &omittable)?;
    verify_flags(&source.disposition, &output.disposition, position)
}

/// The first fault of the streams of the source, from a place on.
pub open spec fn streams_fault(
    source: Seq<StreamView>,
    output: Seq<StreamView>,
    start: nat,
) -> Option<Seq<char>>
    decreases source.len() - start,
{
    if start >= source.len() {
        None
    } else {
        let found = stream_fault(
            source[start as int],
            output[places(source, output)[start as int] as int],
            start,
        );
        if found is Some {
            found
        } else {
            streams_fault(source, output, start + 1)
        }
    }
}

/// What of the source is not preserved, if anything.
pub open spec fn preservation_fault(
    source: ContainerView,
    output: ContainerView,
    appended: nat,
) -> Option<Seq<char>> {
    let missing = missing_fault(source.streams, output.streams, 0);
    let streams = streams_fault(source.streams, output.streams, 0);
    let chapters = chapters_fault(source.chapters, output.chapters);
    if !contains(lowered(output.format.format_name), "matroska"@) {
        Some("partial output format is '"@ + output.format.format_name + "', not Matroska"@)
    } else if output.streams.len() != source.streams.len() + appended {
        Some(
            "stream preservation failed: expected "@ + digits(source.streams.len() + appended)
                + ", found "@ + digits(output.streams.len()),
        )
    } else if missing is Some {
        missing
    } else if streams is Some {
        streams
    } else if chapters is Some {
        chapters
    } else {
        tags_fault(
            source.format.tags,
            output.format.tags,
            "global metadata"@,
            seq!["ENCODER"@],
            seq![],
            0,
        )
    }
}

fn verify_streams(source: &[StreamManifest], output: &[StreamManifest], list: &[usize]) -> (r:
    Result<(), AppError>)
    requires
        list@ == places(stream_views(source@), stream_views(output@)),
        forall|i: int| 0 <= i < source@.len() ==> (#[trigger] list@[i]) < output@.len(),
    ensures
        says(r, streams_fault(stream_views(source@), stream_views(output@), 0)),
{
    let ghost views = stream_views(source@);
    let ghost outputs = stream_views(output@);
    let mut i: usize = 0;
    while i < source.len()
        invariant
            i <= source@.len(),
            views == stream_views(source@),
            outputs == stream_views(output@),
            list@ == places(views, outputs),
            forall|k: int| 0 <= k < source@.len() ==> (#[trigger] list@[k]) < output@.len(),
            streams_fault(views, outputs, 0) == streams_fault(views, outputs, i as nat),
        decreases source@.len() - i,
    {
        let place: usize = list[i];
        assert(views[i as int] == source@[i as int]@);
        assert(outputs[place as int] == output@[place as int]@);
        verify_original_stream(&source[i], &output[place], i)?;
        i = i + 1;
    }
    Ok(())
}

fn verify_source_preservation(
    source: &ContainerManifest,
    output: &ContainerManifest,
    appended: usize,
) -> (r: Result<Vec<usize>, AppError>)
    requires
        source.streams@.len() + appended <= usize::MAX,
    ensures
        match preservation_fault(source@, output@, appended as nat) {
            Some(text) => r is Err && r->Err_0 is Mux && r->Err_0.text() == text,
            None => r is Ok && r->Ok_0@ == places(source@.streams, output@.streams) && forall|
                i: int,
            |
                0 <= i < source.streams@.len() ==> (#[trigger] r->Ok_0@[i])
                    < output.streams@.len(),
        },
{
    if !has_part(lowercase(output.format.format_name.as_str()).as_str(), "matroska") {
        let mut message = text_pair(
            "partial output format is '",
            output.format.format_name.as_str(),
        );
        message.append("', not Matroska");
        return Err(fault(message));
    }
    let expected: usize = source.streams.len() + appended;
    if output.streams.len() != expected {
        let mut message = text_around(
            "stream preservation failed: expected ",
            expected as u64,
            ", found ",
        );
        message.append(decimal(output.streams.len() as u64).as_str());
        return Err(fault(message));
    }
    let list = original_output_positions(source.streams.as_slice(), output.streams.as_slice())?;
    verify_streams(source.streams.as_slice(), output.streams.as_slice(), list.as_slice())?;
    verify_chapters(source.chapters.as_slice(), output.chapters.as_slice())?;
    let none: [&str; 0] = [];
    let generated: [&str; 1] = ["ENCODER"];
    assert(word_texts(none@) =~= seq![]);
    assert(word_texts(generated@) =~= seq!["ENCODER"@]);
    verify_tags(&source.format.tags, &output.format.tags, "global metadata", &generated, &none)?;
    Ok(list)
}

/// Whether a stream has the codec, the depth and the shape of an appended track.
pub open spec fn right_form(stream: StreamView, expected: AppendedView) -> bool {
    &&& match expected.codec {
        OutputCodec::Flac => {
            &&& same_letters(stream.codec_name, "flac"@)
            &&& stream.bits_per_raw_sample == Some(24u32)
            &&& padding_of(stream) == 0
        },
        OutputCodec::Aac => {
            &&& same_letters(stream.codec_name, "aac"@)
            &&& stream.profile is Some
            &&& same_letters(stream.profile->0, "LC"@)
        },
    }
    &&& stream.channels == Some(2u16)
    &&& stream.channel_layout is Some
    &&& same_letters(stream.channel_layout->0, "stereo"@)
    &&& stream.sample_rate == Some(expected.sample_rate)
}

/// The samples that the encoder put in front.
pub open spec fn padding_of(stream: StreamView) -> u32 {
    match stream.initial_padding {
        None => 0,
        Some(padding) => padding,
    }
}

/// Whether an appended track speaks another language than the selected stream.
pub open spec fn wrong_language(appended: StreamView, selected: StreamView) -> bool {
    match selected.tag("language"@) {
        None => false,
        Some(language) => match appended.tag("language"@) {
            None => !same_letters(language, "und"@),
            Some(actual) => !same_letters(actual, language),
        },
    }
}

/// The larger of two numbers.
pub open spec fn larger(a: int, b: int) -> int {
    if a < b {
        b
    } else {
        a
    }
}

/// One sample or one millisecond, whichever is longer, in units of a nanosecond
/// divided by the sample rate.
pub open spec fn timestamp_tolerance(rate: int) -> int {
    larger(1_000_000_000, 1_000_000 * rate)
}

/// How far a duration may be off, in the same units. AAC may carry a priming
/// frame and a tail that is filled up to a whole frame.
pub open spec fn duration_tolerance(codec: OutputCodec, rate: int) -> int {
    match codec {
        OutputCodec::Aac => larger(
            2_048_000_000_000 + 6_000_000 * rate,
            timestamp_tolerance(rate),
        ),
        OutputCodec::Flac => larger(2_000_000 * rate, timestamp_tolerance(rate)),
    }
}

/// Whether a track starts too early or too late. Both times are in nanoseconds;
/// the padding counts samples.
pub open spec fn start_differs(actual: int, padding: int, rate: int, wanted: int) -> bool {
    let difference = (actual - wanted) * rate + padding * 1_000_000_000;
    difference > timestamp_tolerance(rate) || -difference > timestamp_tolerance(rate)
}

/// Whether a track is too long or too short.
pub open spec fn duration_differs(
    duration: int,
    padding: int,
    rate: int,
    frames: int,
    codec: OutputCodec,
) -> bool {
    let difference = duration * rate - padding * 1_000_000_000 - frames * 1_000_000_000;
    difference > duration_tolerance(codec, rate) || -difference > duration_tolerance(codec, rate)
}

/// A number of samples in nanoseconds, rounded down.
pub open spec fn sample_time(samples: int, rate: int) -> int {
    samples * 1_000_000_000 / rate
}

/// The duration of an appended track: what is reported, or else what its tag
/// leaves behind the start.
pub open spec fn track_duration(stream: StreamView) -> Option<int> {
    match stream.duration {
        Some(duration) => Some(duration as int),
        None => match (stream.tagged_end, stream.start_time) {
            (Some(end), Some(start)) => Some(end - start),
            _ => None,
        },
    }
}

/// What is wrong with the timing of an appended track, if anything.
pub open spec fn timing_fault(appended: StreamView, expected: AppendedView, wanted: int) -> Option<
    Seq<char>,
> {
    let padding = padding_of(appended) as int;
    let rate = expected.sample_rate as int;
    match appended.start_time {
        None => Some("ffprobe did not report appended start time"@),
        Some(actual) => if start_differs(actual as int, padding, rate, wanted) {
            Some(
                "appended '"@ + expected.title + "' presentation starts at "@ + timestamp(
                    actual + sample_time(padding, rate),
                ) + "s; selected stream starts at "@ + timestamp(wanted) + "s"@,
            )
        } else {
            match track_duration(appended) {
                None => Some(
                    "ffprobe reported neither appended duration nor DURATION tag"@,
                ),
                Some(duration) => if duration_differs(
                    duration,
                    padding,
                    rate,
                    expected.frames as int,
                    expected.codec,
                ) {
                    Some(
                        "appended '"@ + expected.title + "' duration is "@ + timestamp(
                            duration - sample_time(padding, rate),
                        ) + "s; expected "@ + timestamp(sample_time(expected.frames as int, rate))
                            + "s"@,
                    )
                } else {
                    None
                },
            }
        },
    }
}

/// What is wrong with an appended track, if anything.
pub open spec fn appended_fault(
    appended: StreamView,
    expected: AppendedView,
    selected: StreamView,
    wanted: int,
) -> Option<Seq<char>> {
    if !right_form(appended, expected) {
        Some(
            "appended '"@ + expected.title
                + "' stream is not valid 24-bit FLAC or AAC-LC compatibility audio at the expected sample rate"@,
        )
    } else if appended.tag("title"@) != Some(expected.title) {
        Some("appended binaural title '"@ + expected.title + "' is missing"@)
    } else if wrong_language(appended, selected) {
        Some(
            "appended '"@ + expected.title + "' language does not match the selected source"@,
        )
    } else if flag_value(appended.disposition, "default"@) != 0 {
        Some("appended '"@ + expected.title + "' stream is marked default"@)
    } else {
        timing_fault(appended, expected, wanted)
    }
}

fn is_word(text: &Option<String>, word: &str) -> (r: bool)
    ensures
        r == (text is Some && same_letters(text->0@, word@)),
{
    match text {
        None => false,
        Some(text) => equals_ignoring_case(text.as_str(), word),
    }
}

fn padding_samples(stream: &StreamManifest) -> (r: u32)
    ensures
        r == padding_of(stream@),
{
    match stream.initial_padding {
        None => 0,
        Some(padding) => padding,
    }
}

fn has_right_form(stream: &StreamManifest, expected: &AppendedTrack) -> (r: bool)
    ensures
        r == right_form(stream@, expected@),
{
    let codec: bool = match expected.codec {
        OutputCodec::Flac => equals_ignoring_case(stream.codec_name.as_str(), "flac")
            && match stream.bits_per_raw_sample {
            Some(bits) => bits == 24,
            None => false,
        } && padding_samples(stream) == 0,
        OutputCodec::Aac => equals_ignoring_case(stream.codec_name.as_str(), "aac") && is_word(
            &stream.profile,
            "LC",
        ),
    };
    let channels: bool = match stream.channels {
        Some(channels) => channels == 2,
        None => false,
    };
    let rate: bool = match stream.sample_rate {
        Some(rate) => rate == expected.sample_rate,
        None => false,
    };
    codec && channels && is_word(&stream.channel_layout, "stereo") && rate
}

fn has_wrong_language(appended: &StreamManifest, selected: &StreamManifest) -> (r: bool)
    ensures
        r == wrong_language(appended@, selected@),
{
    match selected.tag("language") {
        None => false,
        Some(language) => match appended.tag("language") {
            None => !equals_ignoring_case(language, "und"),
            Some(actual) => !equals_ignoring_case(actual, language),
        },
    }
}

fn larger_of(a: i128, b: i128) -> (r: i128)
    ensures
        r == larger(a as int, b as int),
{
    if a < b {
        b
    } else {
        a
    }
}

proof fn lemma_scaled(value: int, rate: int)
    requires
        -0x2_0000_0000_0000_0000 <= value <= 0x2_0000_0000_0000_0000,
        0 <= rate <= 0xffff_ffff,
    ensures
        -0x2_0000_0000_0000_0000_0000_0000 <= value * rate
            <= 0x2_0000_0000_0000_0000_0000_0000,
{
    assert(value * rate <= 0x2_0000_0000_0000_0000 * 0xffff_ffff) by (nonlinear_arith)
        requires
            value <= 0x2_0000_0000_0000_0000,
            0 <= rate <= 0xffff_ffff,
    ;
    assert(value * rate >= -0x2_0000_0000_0000_0000 * 0xffff_ffff) by (nonlinear_arith)
        requires
            value >= -0x2_0000_0000_0000_0000,
            0 <= rate <= 0xffff_ffff,
    ;
}

fn does_start_differ(actual: i64, padding: u32, rate: u32, wanted: i64) -> (r: bool)
    ensures
        r == start_differs(actual as int, padding as int, rate as int, wanted as int),
{
    proof {
        lemma_scaled(actual - wanted, rate as int);
    }
    let difference: i128 = (actual as i128 - wanted as i128) * rate as i128 + padding as i128
        * 1_000_000_000;
    let tolerance: i128 = larger_of(1_000_000_000, 1_000_000 * rate as i128);
    difference > tolerance || -difference > tolerance
}

fn does_duration_differ(
    duration: i128,
    padding: u32,
    rate: u32,
    frames: u64,
    codec: OutputCodec,
) -> (r: bool)
    requires
        -0x2_0000_0000_0000_0000 <= duration <= 0x2_0000_0000_0000_0000,
    ensures
        r == duration_differs(
            duration as int,
            padding as int,
            rate as int,
            frames as int,
            codec,
        ),
{
    proof {
        lemma_scaled(duration as int, rate as int);
    }
    let difference: i128 = duration * rate as i128 - padding as i128 * 1_000_000_000
        - frames as i128 * 1_000_000_000;
    let stamp: i128 = larger_of(1_000_000_000, 1_000_000 * rate as i128);
    let tolerance: i128 = match codec {
        OutputCodec::Aac => larger_of(2_048_000_000_000 + 6_000_000 * rate as i128, stamp),
        OutputCodec::Flac => larger_of(2_000_000 * rate as i128, stamp),
    };
    difference > tolerance || -difference > tolerance
}

fn time_of_samples(samples: u64, rate: u32) -> (r: i128)
    requires
        rate > 0,
    ensures
        r == sample_time(samples as int, rate as int),
        0 <= r <= samples * 1_000_000_000,
{
    let scaled: u128 = samples as u128 * 1_000_000_000;
    let time: u128 = scaled / rate as u128;
    assert(0 <= time <= scaled) by (nonlinear_arith)
        requires
            time == scaled / (rate as u128),
            rate > 0,
    ;
    time as i128
}

fn duration_of(stream: &StreamManifest) -> (r: Option<i128>)
    ensures
        match track_duration(stream@) {
            None => r is None,
            Some(duration) => r is Some && r->0 == duration,
        },
        r is Some ==> -0x1_0000_0000_0000_0000 <= r->0 <= 0x1_0000_0000_0000_0000,
{
    match stream.duration {
        Some(duration) => Some(duration as i128),
        None => match (stream.tagged_end, stream.start_time) {
            (Some(end), Some(start)) => Some(end as i128 - start as i128),
            _ => None,
        },
    }
}

fn verify_duration(appended: &StreamManifest, expected: &AppendedTrack, duration: i128) -> (r:
    Result<(), AppError>)
    requires
        expected.sample_rate > 0,
        -0x1_0000_0000_0000_0000 <= duration <= 0x1_0000_0000_0000_0000,
    ensures
        says(
            r,
            if duration_differs(
                duration as int,
                padding_of(appended@) as int,
                expected.sample_rate as int,
                expected.frames as int,
                expected.codec,
            ) {
                Some(
                    "appended '"@ + expected.title@ + "' duration is "@ + timestamp(
                        duration - sample_time(
                            padding_of(appended@) as int,
                            expected.sample_rate as int,
                        ),
                    ) + "s; expected "@ + timestamp(
                        sample_time(expected.frames as int, expected.sample_rate as int),
                    ) + "s"@,
                )
            } else {
                None
            },
        ),
{
    let padding: u32 = padding_samples(appended);
    let rate: u32 = expected.sample_rate;
    if does_duration_differ(duration, padding, rate, expected.frames, expected.codec) {
        let mut message = text_pair("appended '", expected.title.as_str());
        message.append("' duration is ");
        message.append(
            format_timestamp(duration - time_of_samples(padding as u64, rate)).as_str(),
        );
        message.append("s; expected ");
        message.append(format_timestamp(time_of_samples(expected.frames, rate)).as_str());
        message.append("s");
        return Err(fault(message));
    }
    Ok(())
}

fn verify_timing(appended: &StreamManifest, expected: &AppendedTrack, wanted: i64) -> (r: Result<
    (),
    AppError,
>)
    requires
        expected.sample_rate > 0,
    ensures
        says(r, timing_fault(appended@, expected@, wanted as int)),
{
    let padding: u32 = padding_samples(appended);
    let rate: u32 = expected.sample_rate;
    let actual: i64 = match appended.start_time {
        None => return Err(
            fault(String::from_str("ffprobe did not report appended start time")),
        ),
        Some(actual) => actual,
    };
    if does_start_differ(actual, padding, rate, wanted) {
        let mut message = text_pair("appended '", expected.title.as_str());
        message.append("' presentation starts at ");
        message.append(
            format_timestamp(actual as i128 + time_of_samples(padding as u64, rate)).as_str(),
        );
        message.append("s; selected stream starts at ");
        message.append(format_timestamp(wanted as i128).as_str());
        message.append("s");
        return Err(fault(message));
    }
    match duration_of(appended) {
        None => Err(
            fault(
                String::from_str("ffprobe reported neither appended duration nor DURATION tag"),
            ),
        ),
        Some(duration) => verify_duration(appended, expected, duration),
    }
}

/// Checks one appended track: its form, its title, its language, that it is no
/// default, and its timing. `synchronized_start` is when the selected stream
/// starts in the output.
pub fn verify_appended_track(
    appended: &StreamManifest,
    expected: &AppendedTrack,
    selected_source: &StreamManifest,
    synchronized_start: i64,
) -> (r: Result<(), AppError>)
    requires
        appended.sample_rate == Some(expected.sample_rate) ==> expected.sample_rate > 0,
    ensures
        says(
            r,
            appended_fault(
                appended@,
                expected@,
                selected_source@,
                synchronized_start as int,
            ),
        ),
{
    let title: &str = expected.title.as_str();
    if !has_right_form(appended, expected) {
        let mut message = text_pair("appended '", title);
        message.append(
            "' stream is not valid 24-bit FLAC or AAC-LC compatibility audio at the expected sample rate",
        );
        return Err(fault(message));
    }
    let titled: bool = match appended.tag("title") {
        None => false,
        Some(actual) => same_text(actual, title),
    };
    if !titled {
        let mut message = text_pair("appended binaural title '", title);
        message.append("' is missing");
        return Err(fault(message));
    }
    if has_wrong_language(appended, selected_source) {
        let mut message = text_pair("appended '", title);
        message.append("' language does not match the selected source");
        return Err(fault(message));
    }
    if flag_of(&appended.disposition, "default") != 0 {
        let mut message = text_pair("appended '", title);
        message.append("' stream is marked default");
        return Err(fault(message));
    }
    verify_timing(appended, expected, synchronized_start)
}

/// The place of the stream with an index, from a place on.
pub open spec fn place_of_index(streams: Seq<StreamView>, index: usize, start: nat) -> Option<nat>
    decreases streams.len() - start,
{
    if start >= streams.len() {
        None
    } else if streams[start as int].index == index {
        Some(start)
    } else {
        place_of_index(streams, index, start + 1)
    }
}

/// The place of the audio stream with a given number of others before it, from
/// a place on.
pub open spec fn nth_audio(streams: Seq<StreamView>, ordinal: nat, start: nat) -> Option<nat>
    decreases streams.len() - start,
{
    if start >= streams.len() {
        None
    } else if !streams[start as int].audio() {
        nth_audio(streams, ordinal, start + 1)
    } else if ordinal == 0 {
        Some(start)
    } else {
        nth_audio(streams, (ordinal - 1) as nat, start + 1)
    }
}

/// The first fault of the appended tracks, from a place on.
pub open spec fn tracks_fault(
    output: Seq<StreamView>,
    tracks: Seq<AppendedView>,
    selected: StreamView,
    first: nat,
    wanted: int,
    start: nat,
) -> Option<Seq<char>>
    decreases tracks.len() - start,
{
    if start >= tracks.len() {
        None
    } else {
        match nth_audio(output, first + start, 0) {
            None => Some("partial output has no appended audio stream "@ + digits(start)),
            Some(place) => {
                let found = appended_fault(
                    output[place as int],
                    tracks[start as int],
                    selected,
                    wanted,
                );
                if found is Some {
                    found
                } else {
                    tracks_fault(output, tracks, selected, first, wanted, start + 1)
                }
            },
        }
    }
}

/// When the selected stream starts in the output, or else when it was expected
/// to.
pub open spec fn synchronized_start(
    source: Seq<StreamView>,
    output: Seq<StreamView>,
    place: nat,
    expected: i64,
) -> i64 {
    match output[places(source, output)[place as int] as int].start_time {
        None => expected,
        Some(start) => start,
    }
}

/// What is wrong with a finished container, if anything.
pub open spec fn output_fault(
    source: ContainerView,
    output: ContainerView,
    selected: StreamView,
    tracks: Seq<AppendedView>,
    expected: i64,
) -> Option<Seq<char>> {
    let lost = preservation_fault(source, output, tracks.len());
    if tracks.len() == 0 {
        Some("no appended tracks were supplied for verification"@)
    } else if lost is Some {
        lost
    } else {
        match place_of_index(source.streams, selected.index, 0) {
            None => Some("selected source stream is absent from manifest"@),
            Some(place) => tracks_fault(
                output.streams,
                tracks,
                selected,
                audio_count(source.streams, source.streams.len()),
                synchronized_start(source.streams, output.streams, place, expected) as int,
                0,
            ),
        }
    }
}

fn find_index(streams: &[StreamManifest], index: usize) -> (r: Option<usize>)
    ensures
        match place_of_index(stream_views(streams@), index, 0) {
            None => r is None,
            Some(place) => r == Some(place as usize) && place < streams@.len(),
        },
{
    let ghost views = stream_views(streams@);
    let mut i: usize = 0;
    while i < streams.len()
        invariant
            i <= streams@.len(),
            views == stream_views(streams@),
            place_of_index(views, index, 0) == place_of_index(views, index, i as nat),
        decreases streams@.len() - i,
    {
        assert(views[i as int] == streams@[i as int]@);
        if streams[i].index == index {
            return Some(i);
        }
        i = i + 1;
    }
    None
}

fn find_nth_audio(streams: &[StreamManifest], ordinal: usize) -> (r: Option<usize>)
    ensures
        match nth_audio(stream_views(streams@), ordinal as nat, 0) {
            None => r is None,
            Some(place) => r == Some(place as usize) && place < streams@.len(),
        },
{
    let ghost views = stream_views(streams@);
    let mut left: usize = ordinal;
    let mut i: usize = 0;
    while i < streams.len()
        invariant
            i <= streams@.len(),
            views == stream_views(streams@),
            nth_audio(views, ordinal as nat, 0) == nth_audio(views, left as nat, i as nat),
        decreases streams@.len() - i,
    {
        assert(views[i as int] == streams@[i as int]@);
        if same_text(streams[i].codec_type.as_str(), "audio") {
            if left == 0 {
                return Some(i);
            }
            left = left - 1;
        }
        i = i + 1;
    }
    None
}

/// Whether every track that could be checked has a sample rate.
pub open spec fn rates_are_usable(output: Seq<StreamManifest>, tracks: Seq<AppendedTrack>) -> bool {
    forall|i: int, j: int|
        0 <= i < tracks.len() && 0 <= j < output.len() && (#[trigger] output[j]).sample_rate
            == Some((#[trigger] tracks[i]).sample_rate) ==> tracks[i].sample_rate > 0
}

fn verify_tracks(
    output: &[StreamManifest],
    tracks: &[AppendedTrack],
    selected: &StreamManifest,
    first: usize,
    wanted: i64,
) -> (r: Result<(), AppError>)
    requires
        first + tracks@.len() <= usize::MAX,
        rates_are_usable(output@, tracks@),
    ensures
        says(
            r,
            tracks_fault(
                stream_views(output@),
                appended_views(tracks@),
                selected@,
                first as nat,
                wanted as int,
                0,
            ),
        ),
{
    let ghost outputs = stream_views(output@);
    let ghost views = appended_views(tracks@);
    let mut i: usize = 0;
    while i < tracks.len()
        invariant
            i <= tracks@.len(),
            first + tracks@.len() <= usize::MAX,
            rates_are_usable(output@, tracks@),
            outputs == stream_views(output@),
            views == appended_views(tracks@),
            tracks_fault(outputs, views, selected@, first as nat, wanted as int, 0)
                == tracks_fault(
                outputs,
                views,
                selected@,
                first as nat,
                wanted as int,
                i as nat,
            ),
        decreases tracks@.len() - i,
    {
        assert(views[i as int] == tracks@[i as int]@);
        let place: usize = match find_nth_audio(output, first + i) {
            None => return Err(
                fault(
                    text_pair(
                        "partial output has no appended audio stream ",
                        decimal(i as u64).as_str(),
                    ),
                ),
            ),
            Some(place) => place,
        };
        assert(outputs[place as int] == output@[place as int]@);
        verify_appended_track(&output[place], &tracks[i], selected, wanted)?;
        i = i + 1;
    }
    Ok(())
}

/// Checks a finished container: that the source is preserved, and that the
/// appended tracks have the right form, tags, flags and timing.
pub fn verify_output(
    source: &ContainerManifest,
    output: &ContainerManifest,
    selected_source: &StreamManifest,
    appended_tracks: &[AppendedTrack],
    expected_start: i64,
) -> (r: Result<(), AppError>)
    requires
        source.streams@.len() + appended_tracks@.len() <= usize::MAX,
        rates_are_usable(output.streams@, appended_tracks@),
    ensures
        says(
            r,
            output_fault(
                source@,
                output@,
                selected_source@,
                appended_views(appended_tracks@),
                expected_start,
            ),
        ),
{
    if appended_tracks.len() == 0 {
        return Err(fault(String::from_str("no appended tracks were supplied for verification")));
    }
    let list = verify_source_preservation(source, output, appended_tracks.len())?;
    let first: usize = count_audio(source.streams.as_slice());
    let place: usize = match find_index(source.streams.as_slice(), selected_source.index) {
        None => return Err(
            fault(String::from_str("selected source stream is absent from manifest")),
        ),
        Some(place) => place,
    };
    let found: usize = list[place];
    assert(output@.streams[found as int] == output.streams@[found as int]@);
    let wanted: i64 = match output.streams[found].start_time {
        None => expected_start,
        Some(start) => start,
    };
    verify_tracks(
        output.streams.as_slice(),
        appended_tracks,
        selected_source,
        first,
        wanted,
    )
}

proof fn lemma_streams_checked(source: Seq<StreamView>, output: Seq<StreamView>, start: nat, index: nat)
    requires
        streams_fault(source, output, start) is None,
        start <= index < source.len(),
    ensures
        stream_fault(
            source[index as int],
            output[places(source, output)[index as int] as int],
            index,
        ) is None,
    decreases index - start,
{
    if start < index {
        lemma_streams_checked(source, output, start + 1, index);
    }
}

proof fn lemma_none_missing(source: Seq<StreamView>, output: Seq<StreamView>, start: nat, index: nat)
    requires
        missing_fault(source, output, start) is None,
        start <= index < source.len(),
    ensures
        output_place(source, output, index) is Some,
    decreases index - start,
{
    if start < index {
        lemma_none_missing(source, output, start + 1, index);
    }
}

proof fn lemma_tags_checked(
    expected: Seq<(Seq<char>, Seq<char>)>,
    actual: Seq<(Seq<char>, Seq<char>)>,
    description: Seq<char>,
    generated: Seq<Seq<char>>,
    omittable: Seq<Seq<char>>,
    start: nat,
    index: nat,
)
    requires
        tags_fault(expected, actual, description, generated, omittable, start) is None,
        start <= index < expected.len(),
    ensures
        !tag_lost(expected[index as int], actual, generated, omittable),
    decreases index - start,
{
    if start < index {
        lemma_tags_checked(
            expected,
            actual,
            description,
            generated,
            omittable,
            start + 1,
            index,
        );
    }
}

/// A container that passes holds every stream of the source: each is found at
/// the place of its type, with its codec.
pub proof fn law_accepted_output_keeps_every_stream(
    source: ContainerView,
    output: ContainerView,
    selected: StreamView,
    tracks: Seq<AppendedView>,
    expected: i64,
    index: nat,
)
    requires
        output_fault(source, output, selected, tracks, expected) is None,
        index < source.streams.len(),
        output.streams.len() <= usize::MAX,
    ensures
        output_place(source.streams, output.streams, index) is Some,
        ({
            let place = output_place(source.streams, output.streams, index)->0;
            let kept = output.streams[place as int];
            &&& place < output.streams.len()
            &&& same_letters(source.streams[index as int].codec_type, kept.codec_type)
            &&& same_letters(source.streams[index as int].codec_name, kept.codec_name)
        }),
{
    lemma_none_missing(source.streams, output.streams, 0, index);
    lemma_streams_checked(source.streams, output.streams, 0, index);
    let kind = lowered(source.streams[index as int].codec_type);
    lemma_nth_of_type(output.streams, kind, type_count(source.streams, kind, index), 0);
}

/// A container that passes holds every tag of every stream of the source, but
/// for those that may change or go missing.
pub proof fn law_accepted_output_keeps_every_tag(
    source: ContainerView,
    output: ContainerView,
    selected: StreamView,
    tracks: Seq<AppendedView>,
    expected: i64,
    index: nat,
    tag: nat,
)
    requires
        output_fault(source, output, selected, tracks, expected) is None,
        index < source.streams.len(),
        tag < source.streams[index as int].tags.len(),
        output.streams.len() <= usize::MAX,
    ensures
        !tag_lost(
            source.streams[index as int].tags[tag as int],
            output.streams[output_place(source.streams, output.streams, index)->0 as int].tags,
            seq![],
            seq!["creation_time"@],
        ),
{
    law_accepted_output_keeps_every_stream(source, output, selected, tracks, expected, index);
    lemma_streams_checked(source.streams, output.streams, 0, index);
    let place = output_place(source.streams, output.streams, index)->0;
    lemma_tags_checked(
        source.streams[index as int].tags,
        output.streams[place as int].tags,
        around("stream "@, index, " metadata"@),
        seq![],
        seq!["creation_time"@],
        0,
        tag,
    );
}

/// A tag counts as kept exactly where the output has its value under its name, where
/// it is a `DURATION` or one that the muxer writes, or where it is absent and may be:
/// because it is listed, or because it is a language that says nothing.
pub proof fn law_tags_are_kept_but_for_those_that_may_change(
    expected: (Seq<char>, Seq<char>),
    actual: Seq<(Seq<char>, Seq<char>)>,
    generated: Seq<Seq<char>>,
    omittable: Seq<Seq<char>>,
)
    ensures
        ({
            let (name, value) = expected;
            let found = named(actual, name, 0);
            let excused = same_letters(name, "DURATION"@) || exists|i: int|
                0 <= i < generated.len() && same_letters(name, #[trigger] generated[i]);
            let may_be_absent = (same_letters(name, "language"@) && same_letters(value, "und"@))
                || exists|i: int|
                0 <= i < omittable.len() && same_letters(name, #[trigger] omittable[i]);
            !tag_lost(expected, actual, generated, omittable) <==> found == Some(value) || excused
                || (found is None && may_be_absent)
        }),
{
}

proof fn lemma_tags_all(
    expected: Seq<(Seq<char>, Seq<char>)>,
    actual: Seq<(Seq<char>, Seq<char>)>,
    description: Seq<char>,
    generated: Seq<Seq<char>>,
    omittable: Seq<Seq<char>>,
    start: nat,
)
    requires
        forall|i: int|
            start <= i < expected.len() ==> !tag_lost(
                #[trigger] expected[i],
                actual,
                generated,
                omittable,
            ),
    ensures
        tags_fault(expected, actual, description, generated, omittable, start) is None,
    decreases expected.len() - start,
{
    if start < expected.len() {
        lemma_tags_all(expected, actual, description, generated, omittable, start + 1);
    }
}

proof fn lemma_flags_all(
    expected: Seq<(Seq<char>, i32)>,
    actual: Seq<(Seq<char>, i32)>,
    position: nat,
    start: nat,
)
    ensures
        flags_fault(expected, actual, position, start) is None <==> (forall|i: int|
            start <= i < expected.len() ==> flag_value(actual, (#[trigger] expected[i]).0)
                == expected[i].1),
    decreases expected.len() - start,
{
    if start < expected.len() {
        lemma_flags_all(expected, actual, position, start + 1);
        assert(expected[start as int].0 == expected[start as int].0);
        if flags_fault(expected, actual, position, start) is None {
            assert forall|i: int| start <= i < expected.len() implies flag_value(
                actual,
                (#[trigger] expected[i]).0,
            ) == expected[i].1 by {
                if i > start {
                    assert(start + 1 <= i);
                }
            }
        }
    }
}

/// Two times agree exactly where both are absent, or both are there and no more than a
/// millisecond lies between them; which of the two is named first makes no difference.
pub proof fn law_times_agree_within_a_millisecond(a: i64, b: i64)
    ensures
        apart(Some(a), Some(b)) == !(-1_000_000 <= a - b <= 1_000_000),
        apart(Some(a), Some(b)) == apart(Some(b), Some(a)),
        apart(Some(a), None) && apart(None, Some(a)),
        !apart(None, None),
{
}

proof fn lemma_chapter_checked(
    source: Seq<ChapterView>,
    output: Seq<ChapterView>,
    start: nat,
    index: nat,
)
    requires
        chapters_fault_from(source, output, start) is None,
        start <= index < source.len(),
    ensures
        !apart(source[index as int].start_time, output[index as int].start_time),
        !apart(source[index as int].end_time, output[index as int].end_time),
        tags_fault(
            source[index as int].tags,
            output[index as int].tags,
            around("chapter "@, index, " metadata"@),
            seq![],
            seq![],
            0,
        ) is None,
    decreases index - start,
{
    if start < index {
        lemma_chapter_checked(source, output, start + 1, index);
    }
}

/// A container that passes is Matroska, has as many streams as the source and the
/// appended tracks together, and as many chapters as the source.
pub proof fn law_accepted_output_adds_only_the_tracks(
    source: ContainerView,
    output: ContainerView,
    selected: StreamView,
    tracks: Seq<AppendedView>,
    expected: i64,
)
    requires
        output_fault(source, output, selected, tracks, expected) is None,
    ensures
        tracks.len() > 0,
        contains(lowered(output.format.format_name), "matroska"@),
        output.streams.len() - source.streams.len() == tracks.len(),
        output.chapters.len() == source.chapters.len(),
{
}

/// A container that passes has every chapter of the source in its place: its start and
/// its end within a millisecond, and all its tags but a `DURATION` and a language that
/// says nothing.
pub proof fn law_accepted_output_keeps_every_chapter(
    source: ContainerView,
    output: ContainerView,
    selected: StreamView,
    tracks: Seq<AppendedView>,
    expected: i64,
    index: nat,
)
    requires
        output_fault(source, output, selected, tracks, expected) is None,
        index < source.chapters.len(),
    ensures
        ({
            let was = source.chapters[index as int];
            let is = output.chapters[index as int];
            &&& was.start_time is Some <==> is.start_time is Some
            &&& was.start_time is Some ==> -1_000_000 <= was.start_time->0 - is.start_time->0
                <= 1_000_000
            &&& was.end_time is Some <==> is.end_time is Some
            &&& was.end_time is Some ==> -1_000_000 <= was.end_time->0 - is.end_time->0
                <= 1_000_000
            &&& forall|i: int|
                #![trigger was.tags[i]]
                0 <= i < was.tags.len() && !same_letters(was.tags[i].0, "DURATION"@)
                    && !same_letters(was.tags[i].0, "language"@) ==> named(
                    is.tags,
                    was.tags[i].0,
                    0,
                ) == Some(was.tags[i].1)
        }),
{
    lemma_chapter_checked(source.chapters, output.chapters, 0, index);
    let was = source.chapters[index as int];
    let is = output.chapters[index as int];
    assert forall|i: int|
        #![trigger was.tags[i]]
        0 <= i < was.tags.len() && !same_letters(was.tags[i].0, "DURATION"@) && !same_letters(
            was.tags[i].0,
            "language"@,
        ) implies named(is.tags, was.tags[i].0, 0) == Some(was.tags[i].1) by {
        lemma_tags_checked(
            was.tags,
            is.tags,
            around("chapter "@, index, " metadata"@),
            seq![],
            seq![],
            0,
            i as nat,
        );
    }
}

/// A container that passes has every tag of the source's own, but for its encoder, a
/// `DURATION` and a language that says nothing.
pub proof fn law_accepted_output_keeps_the_global_tags(
    source: ContainerView,
    output: ContainerView,
    selected: StreamView,
    tracks: Seq<AppendedView>,
    expected: i64,
    i: int,
)
    requires
        output_fault(source, output, selected, tracks, expected) is None,
        0 <= i < source.format.tags.len(),
        !same_letters(source.format.tags[i].0, "DURATION"@),
        !same_letters(source.format.tags[i].0, "ENCODER"@),
        !same_letters(source.format.tags[i].0, "language"@),
    ensures
        named(output.format.tags, source.format.tags[i].0, 0) == Some(source.format.tags[i].1),
{
    lemma_tags_checked(
        source.format.tags,
        output.format.tags,
        "global metadata"@,
        seq!["ENCODER"@],
        seq![],
        0,
        i as nat,
    );
}

/// A container that passes has every flag of every stream of the source as it was; a
/// flag that the output does not name is one that is not set.
pub proof fn law_accepted_output_keeps_every_flag(
    source: ContainerView,
    output: ContainerView,
    selected: StreamView,
    tracks: Seq<AppendedView>,
    expected: i64,
    index: nat,
    flag: int,
)
    requires
        output_fault(source, output, selected, tracks, expected) is None,
        index < source.streams.len(),
        0 <= flag < source.streams[index as int].disposition.len(),
        output.streams.len() <= usize::MAX,
    ensures
        ({
            let place = output_place(source.streams, output.streams, index)->0;
            let (name, value) = source.streams[index as int].disposition[flag];
            let found = keyed(output.streams[place as int].disposition, name, 0);
            found == Some(value) || (found is None && value == 0)
        }),
{
    law_accepted_output_keeps_every_stream(source, output, selected, tracks, expected, index);
    lemma_streams_checked(source.streams, output.streams, 0, index);
    let place = output_place(source.streams, output.streams, index)->0;
    let flags = source.streams[index as int].disposition;
    lemma_flags_all(flags, output.streams[place as int].disposition, index, 0);
    assert(flags[flag].0 == flags[flag].0);
}

/// The place at which a stream of the source is looked for holds a stream of its type,
/// with as many of that type before it as the source has before the stream.
pub proof fn law_streams_keep_their_number_of_their_type(
    source: Seq<StreamView>,
    output: Seq<StreamView>,
    index: nat,
)
    requires
        index < source.len(),
        output_place(source, output, index) is Some,
    ensures
        ({
            let place = output_place(source, output, index)->0;
            let kind = lowered(source[index as int].codec_type);
            &&& place < output.len()
            &&& lowered(output[place as int].codec_type) == kind
            &&& type_count(output, kind, place) == type_count(source, kind, index)
        }),
{
    let kind = lowered(source[index as int].codec_type);
    assert(lowered(kind) =~= kind);
    lemma_place_of_type(output, kind, type_count(source, kind, index), 0);
}

proof fn lemma_place_of_type(streams: Seq<StreamView>, kind: Seq<char>, ordinal: nat, start: nat)
    requires
        nth_of_type(streams, kind, ordinal, start) is Some,
        lowered(kind) == kind,
    ensures
        ({
            let place = nth_of_type(streams, kind, ordinal, start)->0;
            &&& start <= place < streams.len()
            &&& lowered(streams[place as int].codec_type) == kind
            &&& type_count(streams, kind, place) == type_count(streams, kind, start) + ordinal
        }),
    decreases streams.len() - start,
{
    if !same_letters(streams[start as int].codec_type, kind) {
        lemma_place_of_type(streams, kind, ordinal, start + 1);
    } else if ordinal > 0 {
        lemma_place_of_type(streams, kind, (ordinal - 1) as nat, start + 1);
    }
}

/// The stream found for an index is the first that has it; none is found exactly where
/// no stream has it.
pub proof fn law_streams_are_found_by_their_index(streams: Seq<StreamView>, index: usize, start: nat)
    ensures
        match place_of_index(streams, index, start) {
            None => forall|i: int|
                start <= i < streams.len() ==> (#[trigger] streams[i]).index != index,
            Some(place) => {
                &&& start <= place < streams.len()
                &&& streams[place as int].index == index
                &&& forall|i: int| start <= i < place ==> (#[trigger] streams[i]).index != index
            },
        },
    decreases streams.len() - start,
{
    if start < streams.len() && streams[start as int].index != index {
        law_streams_are_found_by_their_index(streams, index, start + 1);
        match place_of_index(streams, index, start) {
            None => {
                assert forall|i: int| start <= i < streams.len() implies (
                #[trigger] streams[i]).index != index by {
                    if i > start {
                        assert(start + 1 <= i);
                    }
                }
            },
            Some(place) => {
                assert forall|i: int| start <= i < place implies (#[trigger] streams[i]).index
                    != index by {
                    if i > start {
                        assert(start + 1 <= i);
                    }
                }
            },
        }
    }
}

/// The audio stream with a number has that many audio streams before it; none is found
/// exactly where there are not so many.
pub proof fn law_audio_streams_are_counted(streams: Seq<StreamView>, ordinal: nat)
    ensures
        match nth_audio(streams, ordinal, 0) {
            None => audio_count(streams, streams.len()) <= ordinal,
            Some(place) => {
                &&& place < streams.len()
                &&& streams[place as int].codec_type == "audio"@
                &&& audio_count(streams, place) == ordinal
            },
        },
{
    lemma_audio_counted(streams, ordinal, 0);
}

proof fn lemma_audio_counted(streams: Seq<StreamView>, ordinal: nat, start: nat)
    requires
        start <= streams.len(),
    ensures
        match nth_audio(streams, ordinal, start) {
            None => audio_count(streams, streams.len()) <= audio_count(streams, start) + ordinal,
            Some(place) => {
                &&& start <= place < streams.len()
                &&& streams[place as int].audio()
                &&& audio_count(streams, place) == audio_count(streams, start) + ordinal
            },
        },
    decreases streams.len() - start,
{
    if start < streams.len() {
        if !streams[start as int].audio() {
            lemma_audio_counted(streams, ordinal, start + 1);
        } else if ordinal > 0 {
            lemma_audio_counted(streams, (ordinal - 1) as nat, start + 1);
        } else {
            lemma_audio_counted(streams, 0, start + 1);
        }
    }
}

/// Whether a difference is no larger than a bound, either way.
pub open spec fn within(difference: int, bound: int) -> bool {
    -bound <= difference <= bound
}

/// An appended track passes exactly where it is stereo at the ordered rate, in FLAC of
/// twenty-four bits without samples in front or in AAC-LC; where it has its title, the
/// language of the selected stream and no default flag; where the sound behind the
/// padding starts with the selected stream, to a sample or a millisecond; and where it
/// lasts as long as its frames, to a sample or two milliseconds, or in AAC to two
/// frames and six milliseconds.
pub proof fn law_accepted_tracks_are_as_ordered(
    appended: StreamView,
    expected: AppendedView,
    selected: StreamView,
    wanted: int,
)
    ensures
        ({
            let rate = expected.sample_rate as int;
            let padding = match appended.initial_padding {
                Some(samples) => samples as int,
                None => 0,
            };
            let spoken = appended.tag("language"@);
            let coded = match expected.codec {
                OutputCodec::Flac => same_letters(appended.codec_name, "flac"@)
                    && appended.bits_per_raw_sample == Some(24u32) && padding == 0,
                OutputCodec::Aac => same_letters(appended.codec_name, "aac"@) && (
                appended.profile matches Some(profile) && same_letters(profile, "LC"@)),
            };
            let shaped = appended.channels == Some(2u16) && (
            appended.channel_layout matches Some(layout) && same_letters(layout, "stereo"@))
                && appended.sample_rate == Some(expected.sample_rate);
            let in_language = match selected.tag("language"@) {
                None => true,
                Some(language) => (spoken matches Some(heard) && same_letters(heard, language)) || (
                spoken is None && same_letters(language, "und"@)),
            };
            let plain = match keyed(appended.disposition, "default"@, 0) {
                None => true,
                Some(flag) => flag == 0,
            };
            let length = match appended.duration {
                Some(duration) => Some(duration as int),
                None => match appended.tagged_end {
                    Some(end) => Some(end - appended.start_time->0),
                    None => None,
                },
            };
            let late = (appended.start_time->0 - wanted) * rate + 1_000_000_000 * padding;
            let long = length->0 * rate - 1_000_000_000 * (padding + expected.frames);
            let in_time = appended.start_time is Some && (within(late, 1_000_000_000) || within(
                late,
                1_000_000 * rate,
            ));
            let whole = length is Some && match expected.codec {
                OutputCodec::Flac => within(long, 1_000_000_000) || within(long, 2_000_000 * rate),
                OutputCodec::Aac => within(long, 1_000_000_000 * 2048 + 6_000_000 * rate),
            };
            appended_fault(appended, expected, selected, wanted) is None <==> coded && shaped
                && appended.tag("title"@) == Some(expected.title) && in_language && plain
                && in_time && whole
        }),
{
}

/// A container that passes has every appended track behind the audio of the source, in
/// their order, each as ordered and starting with the selected stream where that stands
/// in the output.
pub proof fn law_accepted_output_has_every_track(
    source: ContainerView,
    output: ContainerView,
    selected: StreamView,
    tracks: Seq<AppendedView>,
    expected: i64,
    k: nat,
)
    requires
        output_fault(source, output, selected, tracks, expected) is None,
        k < tracks.len(),
        output.streams.len() <= usize::MAX,
    ensures
        exists|chosen: nat, place: nat|
            {
                &&& chosen < source.streams.len()
                &&& source.streams[chosen as int].index == selected.index
                &&& place < output.streams.len()
                &&& output.streams[place as int].codec_type == "audio"@
                &&& audio_count(output.streams, place) == k + audio_count(
                    source.streams,
                    source.streams.len(),
                )
                &&& #[trigger] appended_fault(
                    output.streams[place as int],
                    tracks[k as int],
                    selected,
                    start_in_output(source.streams, output.streams, chosen, expected),
                ) is None
            },
{
    law_streams_are_found_by_their_index(source.streams, selected.index, 0);
    let chosen = place_of_index(source.streams, selected.index, 0)->0;
    let first = audio_count(source.streams, source.streams.len());
    let wanted = synchronized_start(source.streams, output.streams, chosen, expected) as int;
    lemma_track_checked(output.streams, tracks, selected, first, wanted, 0, k);
    law_audio_streams_are_counted(output.streams, first + k);
    let place = nth_audio(output.streams, first + k, 0)->0;
    law_accepted_output_keeps_every_stream(source, output, selected, tracks, expected, chosen);
    assert(start_in_output(source.streams, output.streams, chosen, expected) == wanted);
    assert(appended_fault(
        output.streams[place as int],
        tracks[k as int],
        selected,
        start_in_output(source.streams, output.streams, chosen, expected),
    ) is None);
}

/// When a stream of the source starts in the output: what the output says of the stream
/// that stands for it, or else what was expected.
pub open spec fn start_in_output(
    source: Seq<StreamView>,
    output: Seq<StreamView>,
    index: nat,
    expected: i64,
) -> int {
    match output[output_place(source, output, index)->0 as int].start_time {
        Some(start) => start as int,
        None => expected as int,
    }
}

proof fn lemma_track_checked(
    output: Seq<StreamView>,
    tracks: Seq<AppendedView>,
    selected: StreamView,
    first: nat,
    wanted: int,
    start: nat,
    k: nat,
)
    requires
        tracks_fault(output, tracks, selected, first, wanted, start) is None,
        start <= k < tracks.len(),
    ensures
        nth_audio(output, first + k, 0) is Some,
        appended_fault(
            output[nth_audio(output, first + k, 0)->0 as int],
            tracks[k as int],
            selected,
            wanted,
        ) is None,
    decreases k - start,
{
    if start < k {
        lemma_track_checked(output, tracks, selected, first, wanted, start + 1, k);
    }
}

/// Whether a stream of the output has the type, the codec, the tags and the flags of a
/// stream of the source.
pub open spec fn stream_kept(source: StreamView, output: StreamView) -> bool {
    &&& same_letters(source.codec_type, output.codec_type)
    &&& same_letters(source.codec_name, output.codec_name)
    &&& forall|i: int|
        0 <= i < source.tags.len() ==> !tag_lost(
            #[trigger] source.tags[i],
            output.tags,
            seq![],
            seq!["creation_time"@],
        )
    &&& forall|i: int|
        0 <= i < source.disposition.len() ==> flag_value(
            output.disposition,
            (#[trigger] source.disposition[i]).0,
        ) == source.disposition[i].1
}

/// Whether a chapter of the output has the times and the tags of one of the source.
pub open spec fn chapter_kept(source: ChapterView, output: ChapterView) -> bool {
    &&& !apart(source.start_time, output.start_time)
    &&& !apart(source.end_time, output.end_time)
    &&& forall|i: int|
        0 <= i < source.tags.len() ==> !tag_lost(
            #[trigger] source.tags[i],
            output.tags,
            seq![],
            seq![],
        )
}

/// Nothing is said to be lost of a source of which everything is kept: a Matroska
/// container with the appended tracks and no other streams besides, in which every
/// stream, every chapter and every tag of the container is kept.
pub proof fn law_what_is_kept_is_not_refused(
    source: ContainerView,
    output: ContainerView,
    appended: nat,
)
    requires
        contains(lowered(output.format.format_name), "matroska"@),
        output.streams.len() == source.streams.len() + appended,
        output.streams.len() <= usize::MAX,
        forall|i: nat|
            i < source.streams.len() ==> (#[trigger] output_place(
                source.streams,
                output.streams,
                i,
            ) matches Some(place) && stream_kept(
                source.streams[i as int],
                output.streams[place as int],
            )),
        source.chapters.len() == output.chapters.len(),
        forall|i: int|
            0 <= i < source.chapters.len() ==> chapter_kept(
                #[trigger] source.chapters[i],
                output.chapters[i],
            ),
        forall|i: int|
            0 <= i < source.format.tags.len() ==> !tag_lost(
                #[trigger] source.format.tags[i],
                output.format.tags,
                seq!["ENCODER"@],
                seq![],
            ),
    ensures
        preservation_fault(source, output, appended) is None,
{
    lemma_streams_all(source.streams, output.streams, 0);
    lemma_chapters_all(source.chapters, output.chapters, 0);
    lemma_tags_all(
        source.format.tags,
        output.format.tags,
        "global metadata"@,
        seq!["ENCODER"@],
        seq![],
        0,
    );
}

proof fn lemma_streams_all(source: Seq<StreamView>, output: Seq<StreamView>, start: nat)
    requires
        output.len() <= usize::MAX,
        forall|i: nat|
            start <= i < source.len() ==> (#[trigger] output_place(source, output, i) matches Some(
                place,
            ) && stream_kept(source[i as int], output[place as int])),
    ensures
        missing_fault(source, output, start) is None,
        streams_fault(source, output, start) is None,
    decreases source.len() - start,
{
    if start < source.len() {
        lemma_streams_all(source, output, start + 1);
        let place = output_place(source, output, start)->0;
        let kind = lowered(source[start as int].codec_type);
        lemma_nth_of_type(output, kind, type_count(source, kind, start), 0);
        let was = source[start as int];
        let is = output[place as int];
        assert(stream_kept(was, is));
        lemma_tags_all(
            was.tags,
            is.tags,
            around("stream "@, start, " metadata"@),
            seq![],
            seq!["creation_time"@],
            0,
        );
        lemma_flags_all(was.disposition, is.disposition, start, 0);
    }
}

proof fn lemma_chapters_all(source: Seq<ChapterView>, output: Seq<ChapterView>, start: nat)
    requires
        source.len() == output.len(),
        forall|i: int|
            start <= i < source.len() ==> chapter_kept(#[trigger] source[i], output[i]),
    ensures
        chapters_fault_from(source, output, start) is None,
    decreases source.len() - start,
{
    if start < source.len() {
        lemma_chapters_all(source, output, start + 1);
        assert(chapter_kept(source[start as int], output[start as int]));
        lemma_tags_all(
            source[start as int].tags,
            output[start as int].tags,
            around("chapter "@, start, " metadata"@),
            seq![],
            seq![],
            0,
        );
    }
}

/// A container of which nothing is lost passes where the selected stream is in the
/// source and every appended track stands in its place and is as ordered.
pub proof fn law_what_is_ordered_is_not_refused(
    source: ContainerView,
    output: ContainerView,
    selected: StreamView,
    tracks: Seq<AppendedView>,
    expected: i64,
    chosen: nat,
)
    requires
        tracks.len() > 0,
        preservation_fault(source, output, tracks.len()) is None,
        output.streams.len() <= usize::MAX,
        chosen < source.streams.len(),
        source.streams[chosen as int].index == selected.index,
        forall|i: int|
            0 <= i < chosen ==> (#[trigger] source.streams[i]).index != selected.index,
        forall|k: nat|
            k < tracks.len() ==> (#[trigger] nth_audio(
                output.streams,
                audio_count(source.streams, source.streams.len()) + k,
                0,
            ) matches Some(place) && appended_fault(
                output.streams[place as int],
                tracks[k as int],
                selected,
                start_in_output(source.streams, output.streams, chosen, expected),
            ) is None),
    ensures
        output_fault(source, output, selected, tracks, expected) is None,
{
    law_streams_are_found_by_their_index(source.streams, selected.index, 0);
    let found = place_of_index(source.streams, selected.index, 0)->0;
    assert(found == chosen) by {
        if found < chosen {
            assert(source.streams[found as int].index == selected.index);
        }
        if chosen < found {
            assert(source.streams[chosen as int].index == selected.index);
        }
    }
    let first = audio_count(source.streams, source.streams.len());
    let wanted = synchronized_start(source.streams, output.streams, chosen, expected) as int;
    lemma_none_missing(source.streams, output.streams, 0, chosen);
    let kind = lowered(source.streams[chosen as int].codec_type);
    lemma_nth_of_type(output.streams, kind, type_count(source.streams, kind, chosen), 0);
    lemma_tracks_all(output.streams, tracks, selected, first, wanted, 0);
}

proof fn lemma_tracks_all(
    output: Seq<StreamView>,
    tracks: Seq<AppendedView>,
    selected: StreamView,
    first: nat,
    wanted: int,
    start: nat,
)
    requires
        forall|k: nat|
            start <= k < tracks.len() ==> (#[trigger] nth_audio(output, first + k, 0) matches Some(
                place,
            ) && appended_fault(output[place as int], tracks[k as int], selected, wanted) is None),
    ensures
        tracks_fault(output, tracks, selected, first, wanted, start) is None,
    decreases tracks.len() - start,
{
    if start < tracks.len() {
        lemma_tracks_all(output, tracks, selected, first, wanted, start + 1);
        assert(nth_audio(output, first + start, 0) is Some);
    }
}

} // verus!
