//! What a container holds: streams, chapters and metadata.
//!
//! Times are whole nanoseconds.

use crate::dictionary::{named, Dictionary, Entry};
use crate::text::{copy_optional, optional_text, pieces, split, texts};
use vstd::prelude::*;

verus! {

/// Metadata: text values by name.
pub type Tags = Dictionary<String>;

/// The texts of metadata, in the order of the names.
pub open spec fn tag_texts(tags: Tags) -> Seq<(Seq<char>, Seq<char>)> {
    tags.entries@.map_values(|e: Entry<String>| (e.key@, e.value@))
}

/// One stream of a container.
#[derive(Clone, Debug, PartialEq, Eq)]
pub struct StreamManifest {
    pub index: usize,
    pub codec_type: String,
    pub codec_name: String,
    pub profile: Option<String>,
    pub channels: Option<u16>,
    pub sample_rate: Option<u32>,
    pub bits_per_raw_sample: Option<u32>,
    /// Samples of encoder delay.
    pub initial_padding: Option<u32>,
    pub start_time: Option<i64>,
    pub duration: Option<i64>,
    /// The end time that the `DURATION` tag spells, where it spells one.
    pub tagged_end: Option<i64>,
    pub channel_layout: Option<String>,
    pub tags: Tags,
    pub disposition: Dictionary<i32>,
}

/// What a stream manifest says.
pub struct StreamView {
    pub index: usize,
    pub codec_type: Seq<char>,
    pub codec_name: Seq<char>,
    pub profile: Option<Seq<char>>,
    pub channels: Option<u16>,
    pub sample_rate: Option<u32>,
    pub bits_per_raw_sample: Option<u32>,
    pub initial_padding: Option<u32>,
    pub start_time: Option<i64>,
    pub duration: Option<i64>,
    pub tagged_end: Option<i64>,
    pub channel_layout: Option<Seq<char>>,
    pub tags: Seq<(Seq<char>, Seq<char>)>,
    pub disposition: Seq<(Seq<char>, i32)>,
}

impl View for StreamManifest {
    type V = StreamView;

    open spec fn view(&self) -> StreamView {
        StreamView {
            index: self.index,
            codec_type: self.codec_type@,
            codec_name: self.codec_name@,
            profile: optional_text(self.profile),
            channels: self.channels,
            sample_rate: self.sample_rate,
            bits_per_raw_sample: self.bits_per_raw_sample,
            initial_padding: self.initial_padding,
            start_time: self.start_time,
            duration: self.duration,
            tagged_end: self.tagged_end,
            channel_layout: optional_text(self.channel_layout),
            tags: tag_texts(self.tags),
            disposition: self.disposition@,
        }
    }
}

impl StreamView {
    /// The value of the first tag that matches a name without regard to case.
    pub open spec fn tag(self, name: Seq<char>) -> Option<Seq<char>> {
        named(self.tags, name, 0)
    }

    pub open spec fn audio(self) -> bool {
        self.codec_type == "audio"@
    }
}

/// The value of the first tag that matches a name without regard to case.
pub fn tag<'a>(tags: &'a Tags, name: &str) -> (r: Option<&'a str>)
    ensures
        match named(tag_texts(*tags), name@, 0) {
            None => r is None,
            Some(value) => r is Some && r->0@ == value,
        },
{
    proof {
        lemma_named_texts(*tags, name@, 0);
    }
    match tags.find(name) {
        None => None,
        Some(value) => Some(value.as_str()),
    }
}

proof fn lemma_named_texts(tags: Tags, name: Seq<char>, start: nat)
    ensures
        named(tag_texts(tags), name, start) == (match named(tags@, name, start) {
            None => None,
            Some(value) => Some(value@),
        }),
    decreases tags@.len() - start,
{
    if start < tags@.len() {
        assert(tag_texts(tags)[start as int].0 == tags@[start as int].0);
        lemma_named_texts(tags, name, start + 1);
    }
}

impl StreamManifest {
    /// The value of the first tag that matches a name without regard to case.
    pub fn tag(&self, name: &str) -> (r: Option<&str>)
        ensures
            match self@.tag(name@) {
                None => r is None,
                Some(value) => r is Some && r->0@ == value,
            },
    {
        tag(&self.tags, name)
    }

    /// Copies the manifest of a stream.
    pub fn copied(&self) -> (r: Self)
        ensures
            r@ == self@,
            self.tags.wf() ==> r.tags.wf(),
            self.disposition.wf() ==> r.disposition.wf(),
    {
        StreamManifest {
            index: self.index,
            codec_type: self.codec_type.clone(),
            codec_name: self.codec_name.clone(),
            profile: copy_optional(&self.profile),
            channels: self.channels,
            sample_rate: self.sample_rate,
            bits_per_raw_sample: self.bits_per_raw_sample,
            initial_padding: self.initial_padding,
            start_time: self.start_time,
            duration: self.duration,
            tagged_end: self.tagged_end,
            channel_layout: copy_optional(&self.channel_layout),
            tags: copy_tags(&self.tags),
            disposition: copy_dispositions(&self.disposition),
        }
    }
}

/// Copies metadata.
pub fn copy_tags(tags: &Tags) -> (r: Tags)
    ensures
        tag_texts(r) == tag_texts(*tags),
        tags.wf() ==> r.wf(),
{
    let mut entries: Vec<Entry<String>> = Vec::new();
    let mut i: usize = 0;
    while i < tags.entries.len()
        invariant
            i <= tags.entries@.len(),
            entries@.len() == i,
            forall|k: int|
                0 <= k < i ==> (#[trigger] entries@[k]).key@ == tags.entries@[k].key@
                    && entries@[k].value@ == tags.entries@[k].value@,
        decreases tags.entries@.len() - i,
    {
        let entry: &Entry<String> = &tags.entries[i];
        entries.push(Entry { key: entry.key.clone(), value: entry.value.clone() });
        i = i + 1;
    }
    let r = Dictionary { entries };
    assert(tag_texts(r) =~= tag_texts(*tags));
    assert(tags.wf() ==> r.wf()) by {
        assert forall|k: int| 0 <= k < r@.len() implies (#[trigger] r@[k]).0 == tags@[k].0 by {
        }
    }
    r
}

fn copy_dispositions(flags: &Dictionary<i32>) -> (r: Dictionary<i32>)
    ensures
        r@ == flags@,
{
    let mut entries: Vec<Entry<i32>> = Vec::new();
    let mut i: usize = 0;
    while i < flags.entries.len()
        invariant
            i <= flags.entries@.len(),
            entries@.len() == i,
            forall|k: int|
                0 <= k < i ==> (#[trigger] entries@[k]).key@ == flags.entries@[k].key@
                    && entries@[k].value == flags.entries@[k].value,
        decreases flags.entries@.len() - i,
    {
        let entry: &Entry<i32> = &flags.entries[i];
        entries.push(Entry { key: entry.key.clone(), value: entry.value });
        i = i + 1;
    }
    let r = Dictionary { entries };
    assert(r@ =~= flags@);
    r
}

/// One chapter of a container.
#[derive(Clone, Debug, PartialEq, Eq)]
pub struct ChapterManifest {
    pub start_time: Option<i64>,
    pub end_time: Option<i64>,
    pub tags: Tags,
}

/// What a chapter manifest says.
pub struct ChapterView {
    pub start_time: Option<i64>,
    pub end_time: Option<i64>,
    pub tags: Seq<(Seq<char>, Seq<char>)>,
}

impl View for ChapterManifest {
    type V = ChapterView;

    open spec fn view(&self) -> ChapterView {
        ChapterView {
            start_time: self.start_time,
            end_time: self.end_time,
            tags: tag_texts(self.tags),
        }
    }
}

impl ChapterManifest {
    fn copied(&self) -> (r: Self)
        ensures
            r@ == self@,
    {
        ChapterManifest {
            start_time: self.start_time,
            end_time: self.end_time,
            tags: copy_tags(&self.tags),
        }
    }
}

/// The container itself.
#[derive(Clone, Debug, PartialEq, Eq)]
pub struct FormatManifest {
    pub format_name: String,
    pub start_time: Option<i64>,
    pub duration: Option<i64>,
    pub tags: Tags,
}

/// What a format manifest says.
pub struct FormatView {
    pub format_name: Seq<char>,
    pub start_time: Option<i64>,
    pub duration: Option<i64>,
    pub tags: Seq<(Seq<char>, Seq<char>)>,
}

impl View for FormatManifest {
    type V = FormatView;

    open spec fn view(&self) -> FormatView {
        FormatView {
            format_name: self.format_name@,
            start_time: self.start_time,
            duration: self.duration,
            tags: tag_texts(self.tags),
        }
    }
}

/// A whole container.
#[derive(Clone, Debug, PartialEq, Eq)]
pub struct ContainerManifest {
    pub streams: Vec<StreamManifest>,
    pub chapters: Vec<ChapterManifest>,
    pub format: FormatManifest,
}

/// The views of a list of streams.
pub open spec fn stream_views(streams: Seq<StreamManifest>) -> Seq<StreamView> {
    streams.map_values(|s: StreamManifest| s@)
}

/// The views of a list of chapters.
pub open spec fn chapter_views(chapters: Seq<ChapterManifest>) -> Seq<ChapterView> {
    chapters.map_values(|c: ChapterManifest| c@)
}

/// What a container manifest says.
pub struct ContainerView {
    pub streams: Seq<StreamView>,
    pub chapters: Seq<ChapterView>,
    pub format: FormatView,
}

impl View for ContainerManifest {
    type V = ContainerView;

    open spec fn view(&self) -> ContainerView {
        ContainerView {
            streams: stream_views(self.streams@),
            chapters: chapter_views(self.chapters@),
            format: self.format@,
        }
    }
}

impl ContainerManifest {
    /// Copies everything but the streams.
    pub fn with_streams(&self, streams: Vec<StreamManifest>) -> (r: Self)
        ensures
            r.streams == streams,
            r@ == (ContainerView { streams: stream_views(streams@), ..self@ }),
    {
        let mut chapters: Vec<ChapterManifest> = Vec::new();
        let mut i: usize = 0;
        while i < self.chapters.len()
            invariant
                i <= self.chapters@.len(),
                chapter_views(chapters@) =~= chapter_views(self.chapters@.take(i as int)),
            decreases self.chapters@.len() - i,
        {
            let ghost before = chapters@;
            let chapter = self.chapters[i].copied();
            chapters.push(chapter);
            assert(chapter_views(chapters@) =~= chapter_views(before).push(chapter@));
            assert(chapter_views(self.chapters@.take(i + 1)) =~= chapter_views(
                self.chapters@.take(i as int),
            ).push(self.chapters@[i as int]@));
            i = i + 1;
        }
        assert(self.chapters@.take(i as int) =~= self.chapters@);
        ContainerManifest {
            streams,
            chapters,
            format: FormatManifest {
                format_name: self.format.format_name.clone(),
                start_time: self.format.start_time,
                duration: self.format.duration,
                tags: copy_tags(&self.format.tags),
            },
        }
    }
}

/// The hours, minutes and seconds of a duration tag, where it holds these three
/// and nothing else.
pub fn duration_parts(value: &str) -> (r: Option<Vec<String>>)
    ensures
        pieces(value@, ':').len() == 3 ==> r is Some && texts(r->0@) == pieces(value@, ':'),
        pieces(value@, ':').len() != 3 ==> r is None,
{
    let parts = split(value, ':');
    assert(texts(parts@).len() == parts@.len());
    if parts.len() == 3 {
        Some(parts)
    } else {
        None
    }
}

} // verus!
