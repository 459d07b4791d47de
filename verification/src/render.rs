//! The layout of decoded channels and the samples that carry them.
//!
//! Samples stand as the bit patterns of IEEE 754 singles.

use crate::error::{AppError, Reason};
use crate::mux::{
    argument_views, push_place, push_words, words, Argument, ArgumentView,
};
use crate::speaker::{copy_speakers, Speaker};
use crate::text::{decimal, digits, same_text, text_around, text_pair};
use vstd::prelude::*;

verus! {

/// The speakers of a layout that has a name.
pub open spec fn named_layout(name: Seq<char>) -> Option<Seq<Speaker>> {
    if name == "mono"@ {
        Some(seq![Speaker::FrontCenter])
    } else if name == "stereo"@ {
        Some(seq![Speaker::FrontLeft, Speaker::FrontRight])
    } else if name == "2.1"@ {
        Some(seq![Speaker::FrontLeft, Speaker::FrontRight, Speaker::Lfe])
    } else if name == "3.0"@ {
        Some(seq![Speaker::FrontLeft, Speaker::FrontRight, Speaker::FrontCenter])
    } else if name == "3.0(back)"@ {
        Some(seq![Speaker::FrontLeft, Speaker::FrontRight, Speaker::RearCenter])
    } else if name == "4.0"@ {
        Some(
            seq![
                Speaker::FrontLeft,
                Speaker::FrontRight,
                Speaker::FrontCenter,
                Speaker::RearCenter,
            ],
        )
    } else if name == "quad"@ {
        Some(
            seq![
                Speaker::FrontLeft,
                Speaker::FrontRight,
                Speaker::RearLeft,
                Speaker::RearRight,
            ],
        )
    } else if name == "quad(side)"@ {
        Some(
            seq![
                Speaker::FrontLeft,
                Speaker::FrontRight,
                Speaker::SideLeft,
                Speaker::SideRight,
            ],
        )
    } else if name == "5.0"@ {
        Some(
            seq![
                Speaker::FrontLeft,
                Speaker::FrontRight,
                Speaker::FrontCenter,
                Speaker::RearLeft,
                Speaker::RearRight,
            ],
        )
    } else if name == "5.0(side)"@ {
        Some(
            seq![
                Speaker::FrontLeft,
                Speaker::FrontRight,
                Speaker::FrontCenter,
                Speaker::SideLeft,
                Speaker::SideRight,
            ],
        )
    } else if name == "5.1"@ {
        Some(
            seq![
                Speaker::FrontLeft,
                Speaker::FrontRight,
                Speaker::FrontCenter,
                Speaker::Lfe,
                Speaker::RearLeft,
                Speaker::RearRight,
            ],
        )
    } else if name == "5.1(side)"@ {
        Some(
            seq![
                Speaker::FrontLeft,
                Speaker::FrontRight,
                Speaker::FrontCenter,
                Speaker::Lfe,
                Speaker::SideLeft,
                Speaker::SideRight,
            ],
        )
    } else if name == "6.1"@ {
        Some(
            seq![
                Speaker::FrontLeft,
                Speaker::FrontRight,
                Speaker::FrontCenter,
                Speaker::Lfe,
                Speaker::RearCenter,
                Speaker::SideLeft,
                Speaker::SideRight,
            ],
        )
    } else if name == "7.1"@ {
        Some(
            seq![
                Speaker::FrontLeft,
                Speaker::FrontRight,
                Speaker::FrontCenter,
                Speaker::Lfe,
                Speaker::RearLeft,
                Speaker::RearRight,
                Speaker::SideLeft,
                Speaker::SideRight,
            ],
        )
    } else {
        None
    }
}

fn find_named_layout(name: &str) -> (r: Option<Vec<Speaker>>)
    ensures
        match named_layout(name@) {
            None => r is None,
            Some(speakers) => r is Some && r->0@ == speakers,
        },
{
    if same_text(name, "mono") {
        let list: [Speaker; 1] = [Speaker::FrontCenter];
        return Some(copy_speakers(&list));
    }
    if same_text(name, "stereo") {
        let list: [Speaker; 2] = [Speaker::FrontLeft, Speaker::FrontRight];
        return Some(copy_speakers(&list));
    }
    if same_text(name, "2.1") {
        let list: [Speaker; 3] = [Speaker::FrontLeft, Speaker::FrontRight, Speaker::Lfe];
        return Some(copy_speakers(&list));
    }
    if same_text(name, "3.0") {
        let list: [Speaker; 3] = [Speaker::FrontLeft, Speaker::FrontRight, Speaker::FrontCenter];
        return Some(copy_speakers(&list));
    }
    if same_text(name, "3.0(back)") {
        let list: [Speaker; 3] = [Speaker::FrontLeft, Speaker::FrontRight, Speaker::RearCenter];
        return Some(copy_speakers(&list));
    }
    if same_text(name, "4.0") {
        let list: [Speaker; 4] = [
            Speaker::FrontLeft,
            Speaker::FrontRight,
            Speaker::FrontCenter,
            Speaker::RearCenter,
        ];
        return Some(copy_speakers(&list));
    }
    if same_text(name, "quad") {
        let list: [Speaker; 4] = [Speaker::FrontLeft, Speaker::FrontRight, Speaker::RearLeft, Speaker::RearRight];
        return Some(copy_speakers(&list));
    }
    if same_text(name, "quad(side)") {
        let list: [Speaker; 4] = [Speaker::FrontLeft, Speaker::FrontRight, Speaker::SideLeft, Speaker::SideRight];
        return Some(copy_speakers(&list));
    }
    if same_text(name, "5.0") {
        let list: [Speaker; 5] = [
            Speaker::FrontLeft,
            Speaker::FrontRight,
            Speaker::FrontCenter,
            Speaker::RearLeft,
            Speaker::RearRight,
        ];
        return Some(copy_speakers(&list));
    }
    if same_text(name, "5.0(side)") {
        let list: [Speaker; 5] = [
            Speaker::FrontLeft,
            Speaker::FrontRight,
            Speaker::FrontCenter,
            Speaker::SideLeft,
            Speaker::SideRight,
        ];
        return Some(copy_speakers(&list));
    }
    if same_text(name, "5.1") {
        let list: [Speaker; 6] = [
            Speaker::FrontLeft,
            Speaker::FrontRight,
            Speaker::FrontCenter,
            Speaker::Lfe,
            Speaker::RearLeft,
            Speaker::RearRight,
        ];
        return Some(copy_speakers(&list));
    }
    if same_text(name, "5.1(side)") {
        let list: [Speaker; 6] = [
            Speaker::FrontLeft,
            Speaker::FrontRight,
            Speaker::FrontCenter,
            Speaker::Lfe,
            Speaker::SideLeft,
            Speaker::SideRight,
        ];
        return Some(copy_speakers(&list));
    }
    if same_text(name, "6.1") {
        let list: [Speaker; 7] = [
            Speaker::FrontLeft,
            Speaker::FrontRight,
            Speaker::FrontCenter,
            Speaker::Lfe,
            Speaker::RearCenter,
            Speaker::SideLeft,
            Speaker::SideRight,
        ];
        return Some(copy_speakers(&list));
    }
    if same_text(name, "7.1") {
        let list: [Speaker; 8] = [
            Speaker::FrontLeft,
            Speaker::FrontRight,
            Speaker::FrontCenter,
            Speaker::Lfe,
            Speaker::RearLeft,
            Speaker::RearRight,
            Speaker::SideLeft,
            Speaker::SideRight,
        ];
        return Some(copy_speakers(&list));
    }
    None
}

/// The usual speakers of a number of channels.
pub open spec fn default_layout(channels: nat) -> Option<Seq<Speaker>> {
    if channels == 0 {
        Some(seq![])
    } else if channels == 1 {
        Some(seq![Speaker::FrontCenter])
    } else if channels == 2 {
        Some(seq![Speaker::FrontLeft, Speaker::FrontRight])
    } else if channels == 3 {
        Some(seq![Speaker::FrontLeft, Speaker::FrontRight, Speaker::FrontCenter])
    } else if channels == 4 {
        Some(
            seq![
                Speaker::FrontLeft,
                Speaker::FrontRight,
                Speaker::SideLeft,
                Speaker::SideRight,
            ],
        )
    } else if channels == 5 {
        Some(
            seq![
                Speaker::FrontLeft,
                Speaker::FrontRight,
                Speaker::FrontCenter,
                Speaker::SideLeft,
                Speaker::SideRight,
            ],
        )
    } else if channels == 6 {
        Some(
            seq![
                Speaker::FrontLeft,
                Speaker::FrontRight,
                Speaker::FrontCenter,
                Speaker::Lfe,
                Speaker::SideLeft,
                Speaker::SideRight,
            ],
        )
    } else if channels == 7 {
        Some(
            seq![
                Speaker::FrontLeft,
                Speaker::FrontRight,
                Speaker::FrontCenter,
                Speaker::RearLeft,
                Speaker::RearRight,
                Speaker::SideLeft,
                Speaker::SideRight,
            ],
        )
    } else if channels == 8 {
        Some(
            seq![
                Speaker::FrontLeft,
                Speaker::FrontRight,
                Speaker::FrontCenter,
                Speaker::Lfe,
                Speaker::RearLeft,
                Speaker::RearRight,
                Speaker::SideLeft,
                Speaker::SideRight,
            ],
        )
    } else if channels == 9 {
        Some(
            seq![
                Speaker::FrontLeft,
                Speaker::FrontRight,
                Speaker::FrontCenter,
                Speaker::RearLeft,
                Speaker::RearRight,
                Speaker::SideLeft,
                Speaker::SideRight,
                Speaker::TopFrontLeft,
                Speaker::TopFrontRight,
            ],
        )
    } else if channels == 10 {
        Some(
            seq![
                Speaker::FrontLeft,
                Speaker::FrontRight,
                Speaker::FrontCenter,
                Speaker::Lfe,
                Speaker::RearLeft,
                Speaker::RearRight,
                Speaker::SideLeft,
                Speaker::SideRight,
                Speaker::TopFrontLeft,
                Speaker::TopFrontRight,
            ],
        )
    } else if channels == 11 {
        Some(
            seq![
                Speaker::FrontLeft,
                Speaker::FrontRight,
                Speaker::FrontCenter,
                Speaker::RearLeft,
                Speaker::RearRight,
                Speaker::SideLeft,
                Speaker::SideRight,
                Speaker::TopFrontLeft,
                Speaker::TopFrontRight,
                Speaker::TopRearLeft,
                Speaker::TopRearRight,
            ],
        )
    } else if channels == 12 {
        Some(
            seq![
                Speaker::FrontLeft,
                Speaker::FrontRight,
                Speaker::FrontCenter,
                Speaker::Lfe,
                Speaker::RearLeft,
                Speaker::RearRight,
                Speaker::SideLeft,
                Speaker::SideRight,
                Speaker::TopFrontLeft,
                Speaker::TopFrontRight,
                Speaker::TopRearLeft,
                Speaker::TopRearRight,
            ],
        )
    } else if channels == 13 {
        Some(
            seq![
                Speaker::FrontLeft,
                Speaker::FrontRight,
                Speaker::FrontCenter,
                Speaker::RearLeft,
                Speaker::RearRight,
                Speaker::SideLeft,
                Speaker::SideRight,
                Speaker::TopFrontLeft,
                Speaker::TopFrontCenter,
                Speaker::TopFrontRight,
                Speaker::TopRearLeft,
                Speaker::TopRearCenter,
                Speaker::TopRearRight,
            ],
        )
    } else if channels == 14 {
        Some(
            seq![
                Speaker::FrontLeft,
                Speaker::FrontRight,
                Speaker::FrontCenter,
                Speaker::Lfe,
                Speaker::RearLeft,
                Speaker::RearRight,
                Speaker::SideLeft,
                Speaker::SideRight,
                Speaker::TopFrontLeft,
                Speaker::TopFrontCenter,
                Speaker::TopFrontRight,
                Speaker::TopRearLeft,
                Speaker::TopRearCenter,
                Speaker::TopRearRight,
            ],
        )
    } else if channels == 15 {
        Some(
            seq![
                Speaker::FrontLeft,
                Speaker::FrontRight,
                Speaker::FrontCenter,
                Speaker::RearLeft,
                Speaker::RearRight,
                Speaker::SideLeft,
                Speaker::SideRight,
                Speaker::WideLeft,
                Speaker::WideRight,
                Speaker::TopFrontLeft,
                Speaker::TopFrontCenter,
                Speaker::TopFrontRight,
                Speaker::TopRearLeft,
                Speaker::TopRearCenter,
                Speaker::TopRearRight,
            ],
        )
    } else if channels == 16 {
        Some(
            seq![
                Speaker::FrontLeft,
                Speaker::FrontRight,
                Speaker::FrontCenter,
                Speaker::Lfe,
                Speaker::RearLeft,
                Speaker::RearRight,
                Speaker::SideLeft,
                Speaker::SideRight,
                Speaker::WideLeft,
                Speaker::WideRight,
                Speaker::TopFrontLeft,
                Speaker::TopFrontCenter,
                Speaker::TopFrontRight,
                Speaker::TopRearLeft,
                Speaker::TopRearCenter,
                Speaker::TopRearRight,
            ],
        )
    } else {
        None
    }
}

/// The usual speakers of a number of channels.
pub fn default_source_layout(channels: usize) -> (r: Option<Vec<Speaker>>)
    ensures
        match default_layout(channels as nat) {
            None => r is None,
            Some(speakers) => r is Some && r->0@ == speakers,
        },
{
    match channels {
        0 => {
            let list: [Speaker; 0] = [];
            Some(copy_speakers(&list))
        },
        1 => {
            let list: [Speaker; 1] = [Speaker::FrontCenter];
            Some(copy_speakers(&list))
        },
        2 => {
            let list: [Speaker; 2] = [Speaker::FrontLeft, Speaker::FrontRight];
            Some(copy_speakers(&list))
        },
        3 => {
            let list: [Speaker; 3] = [Speaker::FrontLeft, Speaker::FrontRight, Speaker::FrontCenter];
            Some(copy_speakers(&list))
        },
        4 => {
            let list: [Speaker; 4] = [
                Speaker::FrontLeft,
                Speaker::FrontRight,
                Speaker::SideLeft,
                Speaker::SideRight,
            ];
            Some(copy_speakers(&list))
        },
        5 => {
            let list: [Speaker; 5] = [
                Speaker::FrontLeft,
                Speaker::FrontRight,
                Speaker::FrontCenter,
                Speaker::SideLeft,
                Speaker::SideRight,
            ];
            Some(copy_speakers(&list))
        },
        6 => {
            let list: [Speaker; 6] = [
                Speaker::FrontLeft,
                Speaker::FrontRight,
                Speaker::FrontCenter,
                Speaker::Lfe,
                Speaker::SideLeft,
                Speaker::SideRight,
            ];
            Some(copy_speakers(&list))
        },
        7 => {
            let list: [Speaker; 7] = [
                Speaker::FrontLeft,
                Speaker::FrontRight,
                Speaker::FrontCenter,
                Speaker::RearLeft,
                Speaker::RearRight,
                Speaker::SideLeft,
                Speaker::SideRight,
            ];
            Some(copy_speakers(&list))
        },
        8 => {
            let list: [Speaker; 8] = [
                Speaker::FrontLeft,
                Speaker::FrontRight,
                Speaker::FrontCenter,
                Speaker::Lfe,
                Speaker::RearLeft,
                Speaker::RearRight,
                Speaker::SideLeft,
                Speaker::SideRight,
            ];
            Some(copy_speakers(&list))
        },
        9 => {
            let list: [Speaker; 9] = [
                Speaker::FrontLeft,
                Speaker::FrontRight,
                Speaker::FrontCenter,
                Speaker::RearLeft,
                Speaker::RearRight,
                Speaker::SideLeft,
                Speaker::SideRight,
                Speaker::TopFrontLeft,
                Speaker::TopFrontRight,
            ];
            Some(copy_speakers(&list))
        },
        10 => {
            let list: [Speaker; 10] = [
                Speaker::FrontLeft,
                Speaker::FrontRight,
                Speaker::FrontCenter,
                Speaker::Lfe,
                Speaker::RearLeft,
                Speaker::RearRight,
                Speaker::SideLeft,
                Speaker::SideRight,
                Speaker::TopFrontLeft,
                Speaker::TopFrontRight,
            ];
            Some(copy_speakers(&list))
        },
        11 => {
            let list: [Speaker; 11] = [
                Speaker::FrontLeft,
                Speaker::FrontRight,
                Speaker::FrontCenter,
                Speaker::RearLeft,
                Speaker::RearRight,
                Speaker::SideLeft,
                Speaker::SideRight,
                Speaker::TopFrontLeft,
                Speaker::TopFrontRight,
                Speaker::TopRearLeft,
                Speaker::TopRearRight,
            ];
            Some(copy_speakers(&list))
        },
        12 => {
            let list: [Speaker; 12] = [
                Speaker::FrontLeft,
                Speaker::FrontRight,
                Speaker::FrontCenter,
                Speaker::Lfe,
                Speaker::RearLeft,
                Speaker::RearRight,
                Speaker::SideLeft,
                Speaker::SideRight,
                Speaker::TopFrontLeft,
                Speaker::TopFrontRight,
                Speaker::TopRearLeft,
                Speaker::TopRearRight,
            ];
            Some(copy_speakers(&list))
        },
        13 => {
            let list: [Speaker; 13] = [
                Speaker::FrontLeft,
                Speaker::FrontRight,
                Speaker::FrontCenter,
                Speaker::RearLeft,
                Speaker::RearRight,
                Speaker::SideLeft,
                Speaker::SideRight,
                Speaker::TopFrontLeft,
                Speaker::TopFrontCenter,
                Speaker::TopFrontRight,
                Speaker::TopRearLeft,
                Speaker::TopRearCenter,
                Speaker::TopRearRight,
            ];
            Some(copy_speakers(&list))
        },
        14 => {
            let list: [Speaker; 14] = [
                Speaker::FrontLeft,
                Speaker::FrontRight,
                Speaker::FrontCenter,
                Speaker::Lfe,
                Speaker::RearLeft,
                Speaker::RearRight,
                Speaker::SideLeft,
                Speaker::SideRight,
                Speaker::TopFrontLeft,
                Speaker::TopFrontCenter,
                Speaker::TopFrontRight,
                Speaker::TopRearLeft,
                Speaker::TopRearCenter,
                Speaker::TopRearRight,
            ];
            Some(copy_speakers(&list))
        },
        15 => {
            let list: [Speaker; 15] = [
                Speaker::FrontLeft,
                Speaker::FrontRight,
                Speaker::FrontCenter,
                Speaker::RearLeft,
                Speaker::RearRight,
                Speaker::SideLeft,
                Speaker::SideRight,
                Speaker::WideLeft,
                Speaker::WideRight,
                Speaker::TopFrontLeft,
                Speaker::TopFrontCenter,
                Speaker::TopFrontRight,
                Speaker::TopRearLeft,
                Speaker::TopRearCenter,
                Speaker::TopRearRight,
            ];
            Some(copy_speakers(&list))
        },
        16 => {
            let list: [Speaker; 16] = [
                Speaker::FrontLeft,
                Speaker::FrontRight,
                Speaker::FrontCenter,
                Speaker::Lfe,
                Speaker::RearLeft,
                Speaker::RearRight,
                Speaker::SideLeft,
                Speaker::SideRight,
                Speaker::WideLeft,
                Speaker::WideRight,
                Speaker::TopFrontLeft,
                Speaker::TopFrontCenter,
                Speaker::TopFrontRight,
                Speaker::TopRearLeft,
                Speaker::TopRearCenter,
                Speaker::TopRearRight,
            ];
            Some(copy_speakers(&list))
        },
        _ => None,
    }
}

/// The speakers of decoded channels, or what is wrong with them.
pub open spec fn layout_of(layout: Option<Seq<char>>, channels: nat) -> Result<
    Seq<Speaker>,
    Seq<char>,
> {
    let name = match layout {
        None => ""@,
        Some(name) => name,
    };
    let shown = match layout {
        None => "unknown"@,
        Some(name) => name,
    };
    let known = match named_layout(name) {
        None => default_layout(channels),
        Some(speakers) => Some(speakers),
    };
    match known {
        None => Err(
            "unsupported "@ + digits(channels) + "-channel layout '"@ + shown + "'"@,
        ),
        Some(speakers) => if speakers.len() != channels {
            Err(
                "layout '"@ + shown + "' describes "@ + digits(speakers.len())
                    + " channels, but ffprobe reported "@ + digits(channels),
            )
        } else {
            Ok(speakers)
        },
    }
}

/// The speakers of decoded channels: those of the named layout, or else those
/// usual for the number of channels.
pub fn source_layout(layout: Option<&str>, channels: usize) -> (r: Result<Vec<Speaker>, AppError>)
    ensures
        match layout_of(
            (match layout {
                None => None,
                Some(name) => Some(name@),
            }),
            channels as nat,
        ) {
            Err(text) => r is Err && r->Err_0 is UnsupportedInput && r->Err_0.text() == text,
            Ok(speakers) => r is Ok && r->Ok_0@ == speakers,
        },
{
    let name: &str = match layout {
        None => "",
        Some(name) => name,
    };
    let shown: &str = match layout {
        None => "unknown",
        Some(name) => name,
    };
    let known: Option<Vec<Speaker>> = match find_named_layout(name) {
        None => default_source_layout(channels),
        Some(speakers) => Some(speakers),
    };
    match known {
        None => {
            let mut message = text_around("unsupported ", channels as u64, "-channel layout '");
            message.append(shown);
            message.append("'");
            Err(AppError::UnsupportedInput(Reason::Note(message)))
        },
        Some(speakers) => {
            if speakers.len() != channels {
                let mut message = text_pair("layout '", shown);
                message.append("' describes ");
                message.append(decimal(speakers.len() as u64).as_str());
                message.append(" channels, but ffprobe reported ");
                message.append(decimal(channels as u64).as_str());
                return Err(AppError::UnsupportedInput(Reason::Note(message)));
            }
            Ok(speakers)
        },
    }
}

/// The words that every call of the decoder begins with.
pub open spec fn decoder_lead() -> Seq<Seq<char>> {
    seq!["-nostdin"@, "-hide_banner"@, "-loglevel"@, "error"@, "-i"@]
}

/// The words that choose one audio stream.
pub open spec fn stream_choice(index: nat) -> Seq<Seq<char>> {
    seq!["-map"@, "0:"@ + digits(index), "-vn"@, "-sn"@, "-dn"@]
}

fn push_choice(list: &mut Vec<Argument>, index: usize)
    ensures
        argument_views(final(list)@) == argument_views(old(list)@) + (words(decoder_lead()) + seq![
            ArgumentView::Source,
        ] + words(stream_choice(index as nat))),
{
    let ghost before = argument_views(list@);
    let lead: [&str; 5] = ["-nostdin", "-hide_banner", "-loglevel", "error", "-i"];
    assert(lead@.map_values(|part: &str| part@) =~= decoder_lead());
    push_words(list, &lead);
    push_place(list, Argument::Source);
    let place = text_pair("0:", decimal(index as u64).as_str());
    let choice: [&str; 5] = ["-map", place.as_str(), "-vn", "-sn", "-dn"];
    assert(choice@.map_values(|part: &str| part@) =~= stream_choice(index as nat));
    push_words(list, &choice);
    assert(argument_views(list@) =~= before + (words(decoder_lead()) + seq![ArgumentView::Source]
        + words(stream_choice(index as nat))));
}

/// The arguments that decode a stream to raw samples.
pub fn decode_arguments(stream_index: usize, sample_rate: u32) -> (r: Vec<Argument>)
    ensures
        argument_views(r@) == words(decoder_lead()) + seq![ArgumentView::Source] + words(
            stream_choice(stream_index as nat),
        ) + words(
            seq![
                "-ar"@,
                digits(sample_rate as nat),
                "-c:a"@,
                "pcm_f32le"@,
                "-f"@,
                "f32le"@,
                "-y"@,
            ],
        ) + seq![ArgumentView::Destination],
{
    let mut list: Vec<Argument> = Vec::new();
    assert(argument_views(list@) =~= seq![]);
    push_choice(&mut list, stream_index);
    let rate = decimal(sample_rate as u64);
    let form: [&str; 7] = ["-ar", rate.as_str(), "-c:a", "pcm_f32le", "-f", "f32le", "-y"];
    assert(form@.map_values(|part: &str| part@) =~= seq![
        "-ar"@,
        digits(sample_rate as nat),
        "-c:a"@,
        "pcm_f32le"@,
        "-f"@,
        "f32le"@,
        "-y"@,
    ]);
    push_words(&mut list, &form);
    push_place(&mut list, Argument::Destination);
    list
}

/// The arguments that copy a stream into a file of its own.
pub fn demux_arguments(stream_index: usize, format: &str) -> (r: Vec<Argument>)
    ensures
        argument_views(r@) == words(decoder_lead()) + seq![ArgumentView::Source] + words(
            stream_choice(stream_index as nat),
        ) + words(seq!["-c:a"@, "copy"@, "-f"@, format@, "-y"@]) + seq![
            ArgumentView::Destination,
        ],
{
    let mut list: Vec<Argument> = Vec::new();
    assert(argument_views(list@) =~= seq![]);
    push_choice(&mut list, stream_index);
    let form: [&str; 5] = ["-c:a", "copy", "-f", format, "-y"];
    assert(form@.map_values(|part: &str| part@) =~= seq![
        "-c:a"@,
        "copy"@,
        "-f"@,
        format@,
        "-y"@,
    ]);
    push_words(&mut list, &form);
    push_place(&mut list, Argument::Destination);
    list
}

/// The arguments that copy a TrueHD stream to the standard output.
pub fn truehd_arguments(stream_index: usize) -> (r: Vec<Argument>)
    ensures
        argument_views(r@) == words(decoder_lead()) + seq![ArgumentView::Source] + words(
            stream_choice(stream_index as nat),
        ) + words(seq!["-c:a"@, "copy"@, "-f"@, "truehd"@, "pipe:1"@]),
{
    let mut list: Vec<Argument> = Vec::new();
    assert(argument_views(list@) =~= seq![]);
    push_choice(&mut list, stream_index);
    let form: [&str; 5] = ["-c:a", "copy", "-f", "truehd", "pipe:1"];
    assert(form@.map_values(|part: &str| part@) =~= seq![
        "-c:a"@,
        "copy"@,
        "-f"@,
        "truehd"@,
        "pipe:1"@,
    ]);
    push_words(&mut list, &form);
    list
}

/// The sample that four bytes hold, low byte first.
pub open spec fn word_at(bytes: Seq<u8>, place: int) -> u32 {
    (bytes[place] + 256 * bytes[place + 1] + 65_536 * bytes[place + 2] + 16_777_216 * bytes[place
        + 3]) as u32
}

/// The samples that bytes hold.
pub open spec fn sample_words(bytes: Seq<u8>) -> Seq<u32> {
    Seq::new(bytes.len() / 4, |i: int| word_at(bytes, 4 * i))
}

/// Whether a sample is neither infinite nor no number at all.
pub open spec fn finite_sample(bits: u32) -> bool {
    bits as int % 0x8000_0000 < 0x7f80_0000
}

/// Cuts bytes into samples. Bytes behind the last whole sample are left out.
pub fn pcm_words(bytes: &[u8]) -> (r: Vec<u32>)
    ensures
        r@ == sample_words(bytes@),
{
    let count: usize = bytes.len() / 4;
    let mut list: Vec<u32> = Vec::new();
    let mut i: usize = 0;
    while i < count
        invariant
            i <= count,
            count == bytes@.len() / 4,
            bytes@.len() <= usize::MAX,
            list@ =~= sample_words(bytes@).take(i as int),
        decreases count - i,
    {
        let place: usize = 4 * i;
        let word: u32 = bytes[place] as u32 + 256 * bytes[place + 1] as u32 + 65_536 * bytes[place
            + 2] as u32 + 16_777_216 * bytes[place + 3] as u32;
        list.push(word);
        i = i + 1;
    }
    assert(sample_words(bytes@).take(i as int) =~= sample_words(bytes@));
    list
}

/// Whether all samples are finite.
pub fn all_finite(samples: &[u32]) -> (r: bool)
    ensures
        r == (forall|i: int| 0 <= i < samples@.len() ==> finite_sample(#[trigger] samples@[i])),
{
    let mut i: usize = 0;
    while i < samples.len()
        invariant
            i <= samples@.len(),
            forall|k: int| 0 <= k < i ==> finite_sample(#[trigger] samples@[k]),
        decreases samples@.len() - i,
    {
        let size: u32 = samples[i] % 0x8000_0000;
        if size >= 0x7f80_0000 {
            assert(!finite_sample(samples@[i as int]));
            return false;
        }
        i = i + 1;
    }
    true
}

/// The samples of one channel.
pub open spec fn channel_samples(samples: Seq<u32>, channels: nat, channel: nat) -> Seq<u32> {
    Seq::new(samples.len() / channels, |frame: int| samples[frame * channels + channel])
}

/// The samples channel by channel.
pub open spec fn planar(samples: Seq<u32>, channels: nat) -> Seq<Seq<u32>> {
    Seq::new(channels, |channel: int| channel_samples(samples, channels, channel as nat))
}

/// The contents of a list of channels.
pub open spec fn channel_views(list: Seq<Vec<u32>>) -> Seq<Seq<u32>> {
    list.map_values(|channel: Vec<u32>| channel@)
}

fn take_channel(samples: &[u32], channels: usize, channel: usize) -> (r: Vec<u32>)
    requires
        channel < channels,
    ensures
        r@ == channel_samples(samples@, channels as nat, channel as nat),
{
    let frames: usize = samples.len() / channels;
    let mut list: Vec<u32> = Vec::new();
    let mut frame: usize = 0;
    while frame < frames
        invariant
            frame <= frames,
            channel < channels,
            samples@.len() <= usize::MAX,
            frames == samples@.len() / channels as nat,
            list@ =~= channel_samples(samples@, channels as nat, channel as nat).take(frame as int),
        decreases frames - frame,
    {
        assert(frame * channels + channel < samples@.len()) by (nonlinear_arith)
            requires
                frame < frames,
                channel < channels,
                frames == samples@.len() / channels as nat,
        ;
        assert(frame * channels >= 0) by (nonlinear_arith);
        list.push(samples[frame * channels + channel]);
        frame = frame + 1;
    }
    assert(channel_samples(samples@, channels as nat, channel as nat).take(frame as int)
        =~= channel_samples(samples@, channels as nat, channel as nat));
    list
}

/// Takes interleaved samples apart. Samples behind the last whole frame are left
/// out.
pub fn deinterleave(samples: &[u32], channels: usize) -> (r: Vec<Vec<u32>>)
    requires
        channels > 0,
    ensures
        channel_views(r@) == planar(samples@, channels as nat),
{
    let mut list: Vec<Vec<u32>> = Vec::new();
    let mut channel: usize = 0;
    while channel < channels
        invariant
            channel <= channels,
            channel_views(list@) =~= planar(samples@, channels as nat).take(channel as int),
        decreases channels - channel,
    {
        let ghost known = list@;
        let taken = take_channel(samples, channels, channel);
        list.push(taken);
        assert(channel_views(list@) =~= channel_views(known).push(taken@));
        channel = channel + 1;
    }
    assert(planar(samples@, channels as nat).take(channel as int) =~= planar(
        samples@,
        channels as nat,
    ));
    list
}

/// The bytes of one frame of samples.
pub fn frame_bytes(channels: usize) -> (r: Result<usize, AppError>)
    ensures
        4 * channels <= usize::MAX ==> r == Ok::<usize, AppError>((4 * channels) as usize),
        4 * channels > usize::MAX ==> r is Err && r->Err_0 is Render && r->Err_0.text()
            == "decoded frame size overflowed"@,
{
    match channels.checked_mul(4) {
        None => Err(
            AppError::Render(Reason::Note(String::from_str("decoded frame size overflowed"))),
        ),
        Some(bytes) => Ok(bytes),
    }
}

/// Refuses decoded bytes that do not make whole frames.
pub fn check_whole_frames(bytes_read: usize, frame_bytes: usize) -> (r: Result<(), AppError>)
    requires
        frame_bytes > 0,
    ensures
        bytes_read % frame_bytes == 0 ==> r is Ok,
        bytes_read % frame_bytes != 0 ==> r is Err && r->Err_0 is Render && r->Err_0.text()
            == "decoded PCM ended with "@ + digits((bytes_read % frame_bytes) as nat)
            + " incomplete bytes"@,
{
    let rest: usize = bytes_read % frame_bytes;
    if rest != 0 {
        return Err(
            AppError::Render(
                Reason::Note(
                    text_around("decoded PCM ended with ", rest as u64, " incomplete bytes"),
                ),
            ),
        );
    }
    Ok(())
}

/// The number of channels of a stream that is rendered by its channels.
pub fn channel_count(channels: Option<u16>) -> (r: Result<usize, AppError>)
    ensures
        channels is None ==> r is Err && r->Err_0 is UnsupportedInput && r->Err_0.text()
            == "selected stream does not report a channel count"@,
        channels == Some(0u16) ==> r is Err && r->Err_0 is UnsupportedInput && r->Err_0.text()
            == "selected stream reports zero channels"@,
        channels is Some && channels->0 > 0 ==> r == Ok::<usize, AppError>(channels->0 as usize),
{
    match channels {
        None => Err(
            AppError::UnsupportedInput(
                Reason::Note(
                    String::from_str("selected stream does not report a channel count"),
                ),
            ),
        ),
        Some(count) => if count == 0 {
            Err(
                AppError::UnsupportedInput(
                    Reason::Note(String::from_str("selected stream reports zero channels")),
                ),
            )
        } else {
            Ok(count as usize)
        },
    }
}

/// Every layout has as many speakers as there are channels, none of them twice, and
/// more than sixteen channels have none.
pub proof fn law_layouts_list_every_speaker_once(layout: Option<Seq<char>>, channels: nat)
    ensures
        layout_of(layout, channels) matches Ok(speakers) ==> speakers.len() == channels
            && speakers.no_duplicates(),
        channels > 16 ==> layout_of(layout, channels) is Err,
{
    if let Some(name) = layout {
        if let Some(speakers) = named_layout(name) {
            assert(speakers.no_duplicates());
            assert(speakers.len() <= 8);
        }
    } else if let Some(speakers) = named_layout(""@) {
        assert(speakers.no_duplicates());
        assert(speakers.len() <= 8);
    }
    if let Some(speakers) = default_layout(channels) {
        assert(speakers.no_duplicates());
    }
}

/// A layout with an unknown name has the speakers of one without a name.
pub proof fn law_unknown_layouts_go_by_their_channels(name: Seq<char>, channels: nat)
    requires
        named_layout(name) is None,
    ensures
        layout_of(Some(name), channels) is Ok <==> layout_of(None, channels) is Ok,
        layout_of(Some(name), channels) is Ok ==> layout_of(Some(name), channels) == layout_of(
            None,
            channels,
        ),
        layout_of(None, channels) is Ok <==> default_layout(channels) is Some,
{
    lemma_no_empty_name();
    if let Some(speakers) = default_layout(channels) {
        assert(speakers.len() == channels);
    }
}

/// No layout has an empty name.
proof fn lemma_no_empty_name()
    ensures
        named_layout(""@) is None,
{
    reveal_strlit("");
    reveal_strlit("mono");
    reveal_strlit("stereo");
    reveal_strlit("2.1");
    reveal_strlit("3.0");
    reveal_strlit("3.0(back)");
    reveal_strlit("4.0");
    reveal_strlit("quad");
    reveal_strlit("quad(side)");
    reveal_strlit("5.0");
    reveal_strlit("5.0(side)");
    reveal_strlit("5.1");
    reveal_strlit("5.1(side)");
    reveal_strlit("6.1");
    reveal_strlit("7.1");
    assert(""@.len() == 0);
    assert("mono"@.len() == 4);
    assert("stereo"@.len() == 6);
    assert("2.1"@.len() == 3);
    assert("3.0"@.len() == 3);
    assert("3.0(back)"@.len() == 9);
    assert("4.0"@.len() == 3);
    assert("quad"@.len() == 4);
    assert("quad(side)"@.len() == 10);
    assert("5.0"@.len() == 3);
    assert("5.0(side)"@.len() == 9);
    assert("5.1"@.len() == 3);
    assert("5.1(side)"@.len() == 9);
    assert("6.1"@.len() == 3);
    assert("7.1"@.len() == 3);
}

/// The place of a speaker in the native order of channels.
pub open spec fn channel_rank(speaker: Speaker) -> int {
    match speaker {
        Speaker::FrontLeft => 0,
        Speaker::FrontRight => 1,
        Speaker::FrontCenter => 2,
        Speaker::Lfe => 3,
        Speaker::RearLeft => 4,
        Speaker::RearRight => 5,
        Speaker::RearCenter => 6,
        Speaker::SideLeft => 7,
        Speaker::SideRight => 8,
        Speaker::WideLeft => 9,
        Speaker::WideRight => 10,
        Speaker::TopFrontLeft => 11,
        Speaker::TopFrontCenter => 12,
        Speaker::TopFrontRight => 13,
        Speaker::TopSideLeft => 14,
        Speaker::TopSideRight => 15,
        Speaker::TopRearLeft => 16,
        Speaker::TopRearCenter => 17,
        Speaker::TopRearRight => 18,
    }
}

/// Whether a list of speakers stands in the native order of channels.
pub open spec fn in_channel_order(speakers: Seq<Speaker>) -> bool {
    forall|i: int, j: int|
        0 <= i < j < speakers.len() ==> channel_rank(#[trigger] speakers[i]) < channel_rank(
            #[trigger] speakers[j],
        )
}

/// The decoder delivers channels in their native order, whatever the layout: the
/// speakers of every layout stand in it.
pub proof fn law_layouts_stand_in_channel_order(layout: Option<Seq<char>>, channels: nat)
    ensures
        layout_of(layout, channels) matches Ok(speakers) ==> in_channel_order(speakers),
{
    let name = match layout {
        None => ""@,
        Some(name) => name,
    };
    if let Some(speakers) = named_layout(name) {
        assert(in_channel_order(speakers));
    }
    if let Some(speakers) = default_layout(channels) {
        assert(in_channel_order(speakers));
    }
}

/// The names of layouts differ from one another.
proof fn lemma_names_differ()
    ensures
        "stereo"@ != "mono"@,
        "2.1"@ != "mono"@,
        "2.1"@ != "stereo"@,
        "3.0"@ != "mono"@,
        "3.0"@ != "stereo"@,
        "3.0"@ != "2.1"@,
        "3.0(back)"@ != "mono"@,
        "3.0(back)"@ != "stereo"@,
        "3.0(back)"@ != "2.1"@,
        "3.0(back)"@ != "3.0"@,
        "4.0"@ != "mono"@,
        "4.0"@ != "stereo"@,
        "4.0"@ != "2.1"@,
        "4.0"@ != "3.0"@,
        "4.0"@ != "3.0(back)"@,
        "quad"@ != "mono"@,
        "quad"@ != "stereo"@,
        "quad"@ != "2.1"@,
        "quad"@ != "3.0"@,
        "quad"@ != "3.0(back)"@,
        "quad"@ != "4.0"@,
        "quad(side)"@ != "mono"@,
        "quad(side)"@ != "stereo"@,
        "quad(side)"@ != "2.1"@,
        "quad(side)"@ != "3.0"@,
        "quad(side)"@ != "3.0(back)"@,
        "quad(side)"@ != "4.0"@,
        "quad(side)"@ != "quad"@,
        "5.0"@ != "mono"@,
        "5.0"@ != "stereo"@,
        "5.0"@ != "2.1"@,
        "5.0"@ != "3.0"@,
        "5.0"@ != "3.0(back)"@,
        "5.0"@ != "4.0"@,
        "5.0"@ != "quad"@,
        "5.0"@ != "quad(side)"@,
        "5.0(side)"@ != "mono"@,
        "5.0(side)"@ != "stereo"@,
        "5.0(side)"@ != "2.1"@,
        "5.0(side)"@ != "3.0"@,
        "5.0(side)"@ != "3.0(back)"@,
        "5.0(side)"@ != "4.0"@,
        "5.0(side)"@ != "quad"@,
        "5.0(side)"@ != "quad(side)"@,
        "5.0(side)"@ != "5.0"@,
        "5.1"@ != "mono"@,
        "5.1"@ != "stereo"@,
        "5.1"@ != "2.1"@,
        "5.1"@ != "3.0"@,
        "5.1"@ != "3.0(back)"@,
        "5.1"@ != "4.0"@,
        "5.1"@ != "quad"@,
        "5.1"@ != "quad(side)"@,
        "5.1"@ != "5.0"@,
        "5.1"@ != "5.0(side)"@,
        "5.1(side)"@ != "mono"@,
        "5.1(side)"@ != "stereo"@,
        "5.1(side)"@ != "2.1"@,
        "5.1(side)"@ != "3.0"@,
        "5.1(side)"@ != "3.0(back)"@,
        "5.1(side)"@ != "4.0"@,
        "5.1(side)"@ != "quad"@,
        "5.1(side)"@ != "quad(side)"@,
        "5.1(side)"@ != "5.0"@,
        "5.1(side)"@ != "5.0(side)"@,
        "5.1(side)"@ != "5.1"@,
        "6.1"@ != "mono"@,
        "6.1"@ != "stereo"@,
        "6.1"@ != "2.1"@,
        "6.1"@ != "3.0"@,
        "6.1"@ != "3.0(back)"@,
        "6.1"@ != "4.0"@,
        "6.1"@ != "quad"@,
        "6.1"@ != "quad(side)"@,
        "6.1"@ != "5.0"@,
        "6.1"@ != "5.0(side)"@,
        "6.1"@ != "5.1"@,
        "6.1"@ != "5.1(side)"@,
        "7.1"@ != "mono"@,
        "7.1"@ != "stereo"@,
        "7.1"@ != "2.1"@,
        "7.1"@ != "3.0"@,
        "7.1"@ != "3.0(back)"@,
        "7.1"@ != "4.0"@,
        "7.1"@ != "quad"@,
        "7.1"@ != "quad(side)"@,
        "7.1"@ != "5.0"@,
        "7.1"@ != "5.0(side)"@,
        "7.1"@ != "5.1"@,
        "7.1"@ != "5.1(side)"@,
        "7.1"@ != "6.1"@,
{
    reveal_strlit("mono");
    assert("mono"@.len() == 4);
    assert("mono"@[0] == 'm');
    assert("mono"@[1] == 'o');
    assert("mono"@[2] == 'n');
    assert("mono"@[3] == 'o');
    reveal_strlit("stereo");
    assert("stereo"@.len() == 6);
    assert("stereo"@[0] == 's');
    assert("stereo"@[1] == 't');
    assert("stereo"@[2] == 'e');
    assert("stereo"@[3] == 'r');
    assert("stereo"@[4] == 'e');
    assert("stereo"@[5] == 'o');
    reveal_strlit("2.1");
    assert("2.1"@.len() == 3);
    assert("2.1"@[0] == '2');
    assert("2.1"@[1] == '.');
    assert("2.1"@[2] == '1');
    reveal_strlit("3.0");
    assert("3.0"@.len() == 3);
    assert("3.0"@[0] == '3');
    assert("3.0"@[1] == '.');
    assert("3.0"@[2] == '0');
    reveal_strlit("3.0(back)");
    assert("3.0(back)"@.len() == 9);
    assert("3.0(back)"@[0] == '3');
    assert("3.0(back)"@[1] == '.');
    assert("3.0(back)"@[2] == '0');
    assert("3.0(back)"@[3] == '(');
    assert("3.0(back)"@[4] == 'b');
    assert("3.0(back)"@[5] == 'a');
    assert("3.0(back)"@[6] == 'c');
    assert("3.0(back)"@[7] == 'k');
    assert("3.0(back)"@[8] == ')');
    reveal_strlit("4.0");
    assert("4.0"@.len() == 3);
    assert("4.0"@[0] == '4');
    assert("4.0"@[1] == '.');
    assert("4.0"@[2] == '0');
    reveal_strlit("quad");
    assert("quad"@.len() == 4);
    assert("quad"@[0] == 'q');
    assert("quad"@[1] == 'u');
    assert("quad"@[2] == 'a');
    assert("quad"@[3] == 'd');
    reveal_strlit("quad(side)");
    assert("quad(side)"@.len() == 10);
    assert("quad(side)"@[0] == 'q');
    assert("quad(side)"@[1] == 'u');
    assert("quad(side)"@[2] == 'a');
    assert("quad(side)"@[3] == 'd');
    assert("quad(side)"@[4] == '(');
    assert("quad(side)"@[5] == 's');
    assert("quad(side)"@[6] == 'i');
    assert("quad(side)"@[7] == 'd');
    assert("quad(side)"@[8] == 'e');
    assert("quad(side)"@[9] == ')');
    reveal_strlit("5.0");
    assert("5.0"@.len() == 3);
    assert("5.0"@[0] == '5');
    assert("5.0"@[1] == '.');
    assert("5.0"@[2] == '0');
    reveal_strlit("5.0(side)");
    assert("5.0(side)"@.len() == 9);
    assert("5.0(side)"@[0] == '5');
    assert("5.0(side)"@[1] == '.');
    assert("5.0(side)"@[2] == '0');
    assert("5.0(side)"@[3] == '(');
    assert("5.0(side)"@[4] == 's');
    assert("5.0(side)"@[5] == 'i');
    assert("5.0(side)"@[6] == 'd');
    assert("5.0(side)"@[7] == 'e');
    assert("5.0(side)"@[8] == ')');
    reveal_strlit("5.1");
    assert("5.1"@.len() == 3);
    assert("5.1"@[0] == '5');
    assert("5.1"@[1] == '.');
    assert("5.1"@[2] == '1');
    reveal_strlit("5.1(side)");
    assert("5.1(side)"@.len() == 9);
    assert("5.1(side)"@[0] == '5');
    assert("5.1(side)"@[1] == '.');
    assert("5.1(side)"@[2] == '1');
    assert("5.1(side)"@[3] == '(');
    assert("5.1(side)"@[4] == 's');
    assert("5.1(side)"@[5] == 'i');
    assert("5.1(side)"@[6] == 'd');
    assert("5.1(side)"@[7] == 'e');
    assert("5.1(side)"@[8] == ')');
    reveal_strlit("6.1");
    assert("6.1"@.len() == 3);
    assert("6.1"@[0] == '6');
    assert("6.1"@[1] == '.');
    assert("6.1"@[2] == '1');
    reveal_strlit("7.1");
    assert("7.1"@.len() == 3);
    assert("7.1"@[0] == '7');
    assert("7.1"@[1] == '.');
    assert("7.1"@[2] == '1');
}

/// A named layout has the speakers that its name stands for. All but mono have a
/// front pair; the figure behind the point tells of the low-frequency channel; the
/// surrounds stand behind unless the name puts them at the sides, and with seven
/// channels around the listener there are both.
pub proof fn law_named_layouts_have_the_speakers_of_their_name(name: Seq<char>)
    ensures
        named_layout(name) is Some <==> (name == "mono"@ || name == "stereo"@ || name == "2.1"@ || name == "3.0"@ || name == "3.0(back)"@ || name == "4.0"@ || name == "quad"@ || name == "quad(side)"@ || name == "5.0"@ || name == "5.0(side)"@ || name == "5.1"@ || name == "5.1(side)"@ || name == "6.1"@ || name == "7.1"@),
        named_layout(name) matches Some(speakers) ==> {
            &&& speakers.contains(Speaker::FrontLeft) <==> name != "mono"@
            &&& speakers.contains(Speaker::FrontRight) <==> name != "mono"@
            &&& speakers.contains(Speaker::FrontCenter) <==> (name == "mono"@ || name == "3.0"@ || name == "4.0"@ || name == "5.0"@ || name == "5.0(side)"@ || name == "5.1"@ || name == "5.1(side)"@ || name == "6.1"@ || name == "7.1"@)
            &&& speakers.contains(Speaker::Lfe) <==> (name == "2.1"@ || name == "5.1"@ || name == "5.1(side)"@ || name == "6.1"@ || name == "7.1"@)
            &&& speakers.contains(Speaker::RearLeft) <==> (name == "quad"@ || name == "5.0"@ || name == "5.1"@ || name == "7.1"@)
            &&& speakers.contains(Speaker::RearRight) <==> (name == "quad"@ || name == "5.0"@ || name == "5.1"@ || name == "7.1"@)
            &&& speakers.contains(Speaker::RearCenter) <==> (name == "3.0(back)"@ || name == "4.0"@ || name == "6.1"@)
            &&& speakers.contains(Speaker::SideLeft) <==> (name == "quad(side)"@ || name == "5.0(side)"@ || name == "5.1(side)"@ || name == "6.1"@ || name == "7.1"@)
            &&& speakers.contains(Speaker::SideRight) <==> (name == "quad(side)"@ || name == "5.0(side)"@ || name == "5.1(side)"@ || name == "6.1"@ || name == "7.1"@)
            &&& forall|i: int| 0 <= i < speakers.len() ==> channel_rank(#[trigger] speakers[i]) <= 8
            &&& in_channel_order(speakers)
        },
{
    lemma_names_differ();
    if let Some(speakers) = named_layout(name) {
        if name == "mono"@ {
            assert(speakers[0] == Speaker::FrontCenter);
        } else if name == "stereo"@ {
            assert(speakers[0] == Speaker::FrontLeft);
            assert(speakers[1] == Speaker::FrontRight);
        } else if name == "2.1"@ {
            assert(speakers[0] == Speaker::FrontLeft);
            assert(speakers[1] == Speaker::FrontRight);
            assert(speakers[2] == Speaker::Lfe);
        } else if name == "3.0"@ {
            assert(speakers[0] == Speaker::FrontLeft);
            assert(speakers[1] == Speaker::FrontRight);
            assert(speakers[2] == Speaker::FrontCenter);
        } else if name == "3.0(back)"@ {
            assert(speakers[0] == Speaker::FrontLeft);
            assert(speakers[1] == Speaker::FrontRight);
            assert(speakers[2] == Speaker::RearCenter);
        } else if name == "4.0"@ {
            assert(speakers[0] == Speaker::FrontLeft);
            assert(speakers[1] == Speaker::FrontRight);
            assert(speakers[2] == Speaker::FrontCenter);
            assert(speakers[3] == Speaker::RearCenter);
        } else if name == "quad"@ {
            assert(speakers[0] == Speaker::FrontLeft);
            assert(speakers[1] == Speaker::FrontRight);
            assert(speakers[2] == Speaker::RearLeft);
            assert(speakers[3] == Speaker::RearRight);
        } else if name == "quad(side)"@ {
            assert(speakers[0] == Speaker::FrontLeft);
            assert(speakers[1] == Speaker::FrontRight);
            assert(speakers[2] == Speaker::SideLeft);
            assert(speakers[3] == Speaker::SideRight);
        } else if name == "5.0"@ {
            assert(speakers[0] == Speaker::FrontLeft);
            assert(speakers[1] == Speaker::FrontRight);
            assert(speakers[2] == Speaker::FrontCenter);
            assert(speakers[3] == Speaker::RearLeft);
            assert(speakers[4] == Speaker::RearRight);
        } else if name == "5.0(side)"@ {
            assert(speakers[0] == Speaker::FrontLeft);
            assert(speakers[1] == Speaker::FrontRight);
            assert(speakers[2] == Speaker::FrontCenter);
            assert(speakers[3] == Speaker::SideLeft);
            assert(speakers[4] == Speaker::SideRight);
        } else if name == "5.1"@ {
            assert(speakers[0] == Speaker::FrontLeft);
            assert(speakers[1] == Speaker::FrontRight);
            assert(speakers[2] == Speaker::FrontCenter);
            assert(speakers[3] == Speaker::Lfe);
            assert(speakers[4] == Speaker::RearLeft);
            assert(speakers[5] == Speaker::RearRight);
        } else if name == "5.1(side)"@ {
            assert(speakers[0] == Speaker::FrontLeft);
            assert(speakers[1] == Speaker::FrontRight);
            assert(speakers[2] == Speaker::FrontCenter);
            assert(speakers[3] == Speaker::Lfe);
            assert(speakers[4] == Speaker::SideLeft);
            assert(speakers[5] == Speaker::SideRight);
        } else if name == "6.1"@ {
            assert(speakers[0] == Speaker::FrontLeft);
            assert(speakers[1] == Speaker::FrontRight);
            assert(speakers[2] == Speaker::FrontCenter);
            assert(speakers[3] == Speaker::Lfe);
            assert(speakers[4] == Speaker::RearCenter);
            assert(speakers[5] == Speaker::SideLeft);
            assert(speakers[6] == Speaker::SideRight);
        } else if name == "7.1"@ {
            assert(speakers[0] == Speaker::FrontLeft);
            assert(speakers[1] == Speaker::FrontRight);
            assert(speakers[2] == Speaker::FrontCenter);
            assert(speakers[3] == Speaker::Lfe);
            assert(speakers[4] == Speaker::RearLeft);
            assert(speakers[5] == Speaker::RearRight);
            assert(speakers[6] == Speaker::SideLeft);
            assert(speakers[7] == Speaker::SideRight);
        }
    }
}

/// A layout without a name grows by pairs: a front pair, sides, the rear, the front
/// and the rear overhead, the middles overhead, and the wides. The centre comes with
/// three channels and with five, and from six on an even number has a low-frequency
/// channel.
pub proof fn law_unnamed_layouts_grow_by_pairs(channels: nat)
    ensures
        default_layout(channels) is Some <==> channels <= 16,
        default_layout(channels) matches Some(speakers) ==> {
            &&& speakers.contains(Speaker::FrontLeft) <==> channels >= 2
            &&& speakers.contains(Speaker::FrontRight) <==> channels >= 2
            &&& speakers.contains(Speaker::FrontCenter) <==> (channels == 1 || channels == 3 || channels >= 5)
            &&& speakers.contains(Speaker::Lfe) <==> channels >= 6 && channels % 2 == 0
            &&& speakers.contains(Speaker::SideLeft) <==> channels >= 4
            &&& speakers.contains(Speaker::SideRight) <==> channels >= 4
            &&& speakers.contains(Speaker::RearLeft) <==> channels >= 7
            &&& speakers.contains(Speaker::RearRight) <==> channels >= 7
            &&& speakers.contains(Speaker::TopFrontLeft) <==> channels >= 9
            &&& speakers.contains(Speaker::TopFrontRight) <==> channels >= 9
            &&& speakers.contains(Speaker::TopRearLeft) <==> channels >= 11
            &&& speakers.contains(Speaker::TopRearRight) <==> channels >= 11
            &&& speakers.contains(Speaker::TopFrontCenter) <==> channels >= 13
            &&& speakers.contains(Speaker::TopRearCenter) <==> channels >= 13
            &&& speakers.contains(Speaker::WideLeft) <==> channels >= 15
            &&& speakers.contains(Speaker::WideRight) <==> channels >= 15
            &&& speakers.len() == channels
            &&& in_channel_order(speakers)
        },
{
    if let Some(speakers) = default_layout(channels) {
        if channels == 0 {
        } else if channels == 1 {
            assert(speakers[0] == Speaker::FrontCenter);
        } else if channels == 2 {
            assert(speakers[0] == Speaker::FrontLeft);
            assert(speakers[1] == Speaker::FrontRight);
        } else if channels == 3 {
            assert(speakers[0] == Speaker::FrontLeft);
            assert(speakers[1] == Speaker::FrontRight);
            assert(speakers[2] == Speaker::FrontCenter);
        } else if channels == 4 {
            assert(speakers[0] == Speaker::FrontLeft);
            assert(speakers[1] == Speaker::FrontRight);
            assert(speakers[2] == Speaker::SideLeft);
            assert(speakers[3] == Speaker::SideRight);
        } else if channels == 5 {
            assert(speakers[0] == Speaker::FrontLeft);
            assert(speakers[1] == Speaker::FrontRight);
            assert(speakers[2] == Speaker::FrontCenter);
            assert(speakers[3] == Speaker::SideLeft);
            assert(speakers[4] == Speaker::SideRight);
        } else if channels == 6 {
            assert(speakers[0] == Speaker::FrontLeft);
            assert(speakers[1] == Speaker::FrontRight);
            assert(speakers[2] == Speaker::FrontCenter);
            assert(speakers[3] == Speaker::Lfe);
            assert(speakers[4] == Speaker::SideLeft);
            assert(speakers[5] == Speaker::SideRight);
        } else if channels == 7 {
            assert(speakers[0] == Speaker::FrontLeft);
            assert(speakers[1] == Speaker::FrontRight);
            assert(speakers[2] == Speaker::FrontCenter);
            assert(speakers[3] == Speaker::RearLeft);
            assert(speakers[4] == Speaker::RearRight);
            assert(speakers[5] == Speaker::SideLeft);
            assert(speakers[6] == Speaker::SideRight);
        } else if channels == 8 {
            assert(speakers[0] == Speaker::FrontLeft);
            assert(speakers[1] == Speaker::FrontRight);
            assert(speakers[2] == Speaker::FrontCenter);
            assert(speakers[3] == Speaker::Lfe);
            assert(speakers[4] == Speaker::RearLeft);
            assert(speakers[5] == Speaker::RearRight);
            assert(speakers[6] == Speaker::SideLeft);
            assert(speakers[7] == Speaker::SideRight);
        } else if channels == 9 {
            assert(speakers[0] == Speaker::FrontLeft);
            assert(speakers[1] == Speaker::FrontRight);
            assert(speakers[2] == Speaker::FrontCenter);
            assert(speakers[3] == Speaker::RearLeft);
            assert(speakers[4] == Speaker::RearRight);
            assert(speakers[5] == Speaker::SideLeft);
            assert(speakers[6] == Speaker::SideRight);
            assert(speakers[7] == Speaker::TopFrontLeft);
            assert(speakers[8] == Speaker::TopFrontRight);
        } else if channels == 10 {
            assert(speakers[0] == Speaker::FrontLeft);
            assert(speakers[1] == Speaker::FrontRight);
            assert(speakers[2] == Speaker::FrontCenter);
            assert(speakers[3] == Speaker::Lfe);
            assert(speakers[4] == Speaker::RearLeft);
            assert(speakers[5] == Speaker::RearRight);
            assert(speakers[6] == Speaker::SideLeft);
            assert(speakers[7] == Speaker::SideRight);
            assert(speakers[8] == Speaker::TopFrontLeft);
            assert(speakers[9] == Speaker::TopFrontRight);
        } else if channels == 11 {
            assert(speakers[0] == Speaker::FrontLeft);
            assert(speakers[1] == Speaker::FrontRight);
            assert(speakers[2] == Speaker::FrontCenter);
            assert(speakers[3] == Speaker::RearLeft);
            assert(speakers[4] == Speaker::RearRight);
            assert(speakers[5] == Speaker::SideLeft);
            assert(speakers[6] == Speaker::SideRight);
            assert(speakers[7] == Speaker::TopFrontLeft);
            assert(speakers[8] == Speaker::TopFrontRight);
            assert(speakers[9] == Speaker::TopRearLeft);
            assert(speakers[10] == Speaker::TopRearRight);
        } else if channels == 12 {
            assert(speakers[0] == Speaker::FrontLeft);
            assert(speakers[1] == Speaker::FrontRight);
            assert(speakers[2] == Speaker::FrontCenter);
            assert(speakers[3] == Speaker::Lfe);
            assert(speakers[4] == Speaker::RearLeft);
            assert(speakers[5] == Speaker::RearRight);
            assert(speakers[6] == Speaker::SideLeft);
            assert(speakers[7] == Speaker::SideRight);
            assert(speakers[8] == Speaker::TopFrontLeft);
            assert(speakers[9] == Speaker::TopFrontRight);
            assert(speakers[10] == Speaker::TopRearLeft);
            assert(speakers[11] == Speaker::TopRearRight);
        } else if channels == 13 {
            assert(speakers[0] == Speaker::FrontLeft);
            assert(speakers[1] == Speaker::FrontRight);
            assert(speakers[2] == Speaker::FrontCenter);
            assert(speakers[3] == Speaker::RearLeft);
            assert(speakers[4] == Speaker::RearRight);
            assert(speakers[5] == Speaker::SideLeft);
            assert(speakers[6] == Speaker::SideRight);
            assert(speakers[7] == Speaker::TopFrontLeft);
            assert(speakers[8] == Speaker::TopFrontCenter);
            assert(speakers[9] == Speaker::TopFrontRight);
            assert(speakers[10] == Speaker::TopRearLeft);
            assert(speakers[11] == Speaker::TopRearCenter);
            assert(speakers[12] == Speaker::TopRearRight);
        } else if channels == 14 {
            assert(speakers[0] == Speaker::FrontLeft);
            assert(speakers[1] == Speaker::FrontRight);
            assert(speakers[2] == Speaker::FrontCenter);
            assert(speakers[3] == Speaker::Lfe);
            assert(speakers[4] == Speaker::RearLeft);
            assert(speakers[5] == Speaker::RearRight);
            assert(speakers[6] == Speaker::SideLeft);
            assert(speakers[7] == Speaker::SideRight);
            assert(speakers[8] == Speaker::TopFrontLeft);
            assert(speakers[9] == Speaker::TopFrontCenter);
            assert(speakers[10] == Speaker::TopFrontRight);
            assert(speakers[11] == Speaker::TopRearLeft);
            assert(speakers[12] == Speaker::TopRearCenter);
            assert(speakers[13] == Speaker::TopRearRight);
        } else if channels == 15 {
            assert(speakers[0] == Speaker::FrontLeft);
            assert(speakers[1] == Speaker::FrontRight);
            assert(speakers[2] == Speaker::FrontCenter);
            assert(speakers[3] == Speaker::RearLeft);
            assert(speakers[4] == Speaker::RearRight);
            assert(speakers[5] == Speaker::SideLeft);
            assert(speakers[6] == Speaker::SideRight);
            assert(speakers[7] == Speaker::WideLeft);
            assert(speakers[8] == Speaker::WideRight);
            assert(speakers[9] == Speaker::TopFrontLeft);
            assert(speakers[10] == Speaker::TopFrontCenter);
            assert(speakers[11] == Speaker::TopFrontRight);
            assert(speakers[12] == Speaker::TopRearLeft);
            assert(speakers[13] == Speaker::TopRearCenter);
            assert(speakers[14] == Speaker::TopRearRight);
        } else if channels == 16 {
            assert(speakers[0] == Speaker::FrontLeft);
            assert(speakers[1] == Speaker::FrontRight);
            assert(speakers[2] == Speaker::FrontCenter);
            assert(speakers[3] == Speaker::Lfe);
            assert(speakers[4] == Speaker::RearLeft);
            assert(speakers[5] == Speaker::RearRight);
            assert(speakers[6] == Speaker::SideLeft);
            assert(speakers[7] == Speaker::SideRight);
            assert(speakers[8] == Speaker::WideLeft);
            assert(speakers[9] == Speaker::WideRight);
            assert(speakers[10] == Speaker::TopFrontLeft);
            assert(speakers[11] == Speaker::TopFrontCenter);
            assert(speakers[12] == Speaker::TopFrontRight);
            assert(speakers[13] == Speaker::TopRearLeft);
            assert(speakers[14] == Speaker::TopRearCenter);
            assert(speakers[15] == Speaker::TopRearRight);
        }
    }
}

/// A sample holds its four bytes, the lowest first, and every whole sample is cut
/// out: nothing but the rest behind the last is left.
pub proof fn law_samples_hold_their_bytes(bytes: Seq<u8>, i: int)
    requires
        0 <= i < bytes.len() / 4,
    ensures
        sample_words(bytes).len() * 4 <= bytes.len() < sample_words(bytes).len() * 4 + 4,
        sample_words(bytes)[i] % 256 == bytes[4 * i],
        sample_words(bytes)[i] / 256 % 256 == bytes[4 * i + 1],
        sample_words(bytes)[i] / 65_536 % 256 == bytes[4 * i + 2],
        sample_words(bytes)[i] / 16_777_216 == bytes[4 * i + 3],
{
}

/// Taking samples apart keeps each: that of a frame and channel stands in its channel
/// at its frame.
pub proof fn law_channels_keep_their_samples(samples: Seq<u32>, channels: nat, frame: nat, channel: nat)
    requires
        channel < channels,
        (frame + 1) * channels <= samples.len(),
    ensures
        planar(samples, channels).len() == channels,
        frame < planar(samples, channels)[channel as int].len(),
        planar(samples, channels)[channel as int][frame as int] == samples[(frame * channels
            + channel) as int],
{
    assert(frame < samples.len() / channels) by (nonlinear_arith)
        requires
            channels > 0,
            (frame + 1) * channels <= samples.len(),
    ;
}

/// A sample is finite exactly where its exponent is not all ones, whatever its sign.
pub proof fn law_a_sign_changes_no_finiteness(bits: u32)
    requires
        bits < 0x8000_0000,
    ensures
        finite_sample(bits) <==> bits / 0x80_0000 < 255,
        finite_sample((bits + 0x8000_0000) as u32) <==> finite_sample(bits),
{
}

/// The decoder is told to ask nothing, to read the source, and to take one audio
/// stream of it and no other kind.
pub proof fn law_the_decoder_takes_one_stream(index: nat)
    ensures
        decoder_lead().first() == "-nostdin"@,
        decoder_lead().last() == "-i"@,
        decoder_lead()[2] == "-loglevel"@ && decoder_lead()[3] == "error"@,
        stream_choice(index)[0] == "-map"@,
        stream_choice(index)[1] == "0:"@ + digits(index),
        stream_choice(index).contains("-vn"@) && stream_choice(index).contains("-sn"@)
            && stream_choice(index).contains("-dn"@),
        decoder_lead().len() == 5 && stream_choice(index).len() == 5,
{
    assert(stream_choice(index)[2] == "-vn"@);
    assert(stream_choice(index)[3] == "-sn"@);
    assert(stream_choice(index)[4] == "-dn"@);
}

} // verus!
