//! The speakers of the reference layouts.

use vstd::prelude::*;

verus! {

#[derive(Clone, Copy, Debug, PartialEq, Eq, Hash, Structural)]
pub enum Speaker {
    FrontLeft,
    FrontRight,
    FrontCenter,
    Lfe,
    RearLeft,
    RearRight,
    RearCenter,
    SideLeft,
    SideRight,
    WideLeft,
    WideRight,
    TopFrontLeft,
    TopFrontCenter,
    TopFrontRight,
    TopSideLeft,
    TopSideRight,
    TopRearLeft,
    TopRearCenter,
    TopRearRight,
}

impl Speaker {
    /// The speaker with side and rear surrounds exchanged.
    pub open spec fn swapped(self) -> Speaker {
        match self {
            Speaker::RearLeft => Speaker::SideLeft,
            Speaker::RearRight => Speaker::SideRight,
            Speaker::SideLeft => Speaker::RearLeft,
            Speaker::SideRight => Speaker::RearRight,
            _ => self,
        }
    }

    /// Exchanges side and rear surrounds.
    pub fn surround_swapped(self) -> (r: Self)
        ensures
            r == self.swapped(),
    {
        match self {
            Speaker::RearLeft => Speaker::SideLeft,
            Speaker::RearRight => Speaker::SideRight,
            Speaker::SideLeft => Speaker::RearLeft,
            Speaker::SideRight => Speaker::RearRight,
            other => other,
        }
    }

    /// A speaker above the listener.
    pub open spec fn overhead(self) -> bool {
        match self {
            Speaker::TopFrontLeft => true,
            Speaker::TopFrontCenter => true,
            Speaker::TopFrontRight => true,
            Speaker::TopSideLeft => true,
            Speaker::TopSideRight => true,
            Speaker::TopRearLeft => true,
            Speaker::TopRearCenter => true,
            Speaker::TopRearRight => true,
            _ => false,
        }
    }

    /// Whether the speaker hangs above the listener.
    pub fn is_height(self) -> (r: bool)
        ensures
            r == self.overhead(),
    {
        match self {
            Speaker::TopFrontLeft => true,
            Speaker::TopFrontCenter => true,
            Speaker::TopFrontRight => true,
            Speaker::TopSideLeft => true,
            Speaker::TopSideRight => true,
            Speaker::TopRearLeft => true,
            Speaker::TopRearCenter => true,
            Speaker::TopRearRight => true,
            _ => false,
        }
    }

    /// The name of the speaker.
    pub open spec fn label(self) -> Seq<char> {
        match self {
            Speaker::FrontLeft => "FrontLeft"@,
            Speaker::FrontRight => "FrontRight"@,
            Speaker::FrontCenter => "FrontCenter"@,
            Speaker::Lfe => "Lfe"@,
            Speaker::RearLeft => "RearLeft"@,
            Speaker::RearRight => "RearRight"@,
            Speaker::RearCenter => "RearCenter"@,
            Speaker::SideLeft => "SideLeft"@,
            Speaker::SideRight => "SideRight"@,
            Speaker::WideLeft => "WideLeft"@,
            Speaker::WideRight => "WideRight"@,
            Speaker::TopFrontLeft => "TopFrontLeft"@,
            Speaker::TopFrontCenter => "TopFrontCenter"@,
            Speaker::TopFrontRight => "TopFrontRight"@,
            Speaker::TopSideLeft => "TopSideLeft"@,
            Speaker::TopSideRight => "TopSideRight"@,
            Speaker::TopRearLeft => "TopRearLeft"@,
            Speaker::TopRearCenter => "TopRearCenter"@,
            Speaker::TopRearRight => "TopRearRight"@,
        }
    }

    /// The name of the speaker.
    pub fn name(self) -> (r: &'static str)
        ensures
            r@ == self.label(),
    {
        match self {
            Speaker::FrontLeft => "FrontLeft",
            Speaker::FrontRight => "FrontRight",
            Speaker::FrontCenter => "FrontCenter",
            Speaker::Lfe => "Lfe",
            Speaker::RearLeft => "RearLeft",
            Speaker::RearRight => "RearRight",
            Speaker::RearCenter => "RearCenter",
            Speaker::SideLeft => "SideLeft",
            Speaker::SideRight => "SideRight",
            Speaker::WideLeft => "WideLeft",
            Speaker::WideRight => "WideRight",
            Speaker::TopFrontLeft => "TopFrontLeft",
            Speaker::TopFrontCenter => "TopFrontCenter",
            Speaker::TopFrontRight => "TopFrontRight",
            Speaker::TopSideLeft => "TopSideLeft",
            Speaker::TopSideRight => "TopSideRight",
            Speaker::TopRearLeft => "TopRearLeft",
            Speaker::TopRearCenter => "TopRearCenter",
            Speaker::TopRearRight => "TopRearRight",
        }
    }
}

/// Exchanging the surrounds twice changes nothing.
pub proof fn law_surround_swap_is_an_involution(speaker: Speaker)
    ensures
        speaker.swapped().swapped() == speaker,
{
}

/// Whether a list of speakers holds one.
pub fn holds(speakers: &[Speaker], wanted: Speaker) -> (r: bool)
    ensures
        r == speakers@.contains(wanted),
{
    let mut i: usize = 0;
    while i < speakers.len()
        invariant
            i <= speakers@.len(),
            forall|k: int| 0 <= k < i ==> speakers@[k] != wanted,
        decreases speakers@.len() - i,
    {
        if speakers[i] == wanted {
            assert(speakers@[i as int] == wanted);
            return true;
        }
        i = i + 1;
    }
    false
}

/// Copies a list of speakers.
pub fn copy_speakers(list: &[Speaker]) -> (r: Vec<Speaker>)
    ensures
        r@ == list@,
{
    let mut copy: Vec<Speaker> = Vec::new();
    let mut i: usize = 0;
    while i < list.len()
        invariant
            i <= list@.len(),
            copy@ =~= list@.take(i as int),
        decreases list@.len() - i,
    {
        copy.push(list[i]);
        i = i + 1;
    }
    assert(list@.take(i as int) =~= list@);
    copy
}

/// The first place of a speaker, from a place on.
pub open spec fn speaker_place(speakers: Seq<Speaker>, wanted: Speaker, start: nat) -> Option<nat>
    decreases speakers.len() - start,
{
    if start >= speakers.len() {
        None
    } else if speakers[start as int] == wanted {
        Some(start)
    } else {
        speaker_place(speakers, wanted, start + 1)
    }
}

/// Finds a speaker.
pub fn find_speaker(speakers: &[Speaker], wanted: Speaker) -> (r: Option<usize>)
    ensures
        match speaker_place(speakers@, wanted, 0) {
            None => r is None,
            Some(place) => r is Some && r->0 == place && r->0 < speakers@.len(),
        },
{
    let mut i: usize = 0;
    while i < speakers.len()
        invariant
            i <= speakers@.len(),
            speaker_place(speakers@, wanted, 0) == speaker_place(speakers@, wanted, i as nat),
        decreases speakers@.len() - i,
    {
        if speakers[i] == wanted {
            return Some(i);
        }
        i = i + 1;
    }
    None
}

/// A speaker that is found stands at its place.
pub proof fn lemma_place_in_range(speakers: Seq<Speaker>, wanted: Speaker, start: nat)
    ensures
        speaker_place(speakers, wanted, start) matches Some(place) ==> start <= place
            < speakers.len() && speakers[place as int] == wanted,
    decreases speakers.len() - start,
{
    if start < speakers.len() {
        lemma_place_in_range(speakers, wanted, start + 1);
    }
}

/// A speaker of a list is found.
pub proof fn lemma_listed_has_place(speakers: Seq<Speaker>, wanted: Speaker, start: nat)
    requires
        exists|i: int| start <= i < speakers.len() && speakers[i] == wanted,
    ensures
        speaker_place(speakers, wanted, start) is Some,
    decreases speakers.len() - start,
{
    if start < speakers.len() && speakers[start as int] != wanted {
        lemma_listed_has_place(speakers, wanted, start + 1);
    }
}

impl Speaker {
    /// The speaker on the other hand of the listener.
    pub open spec fn mirrored(self) -> Speaker {
        match self {
            Speaker::FrontLeft => Speaker::FrontRight,
            Speaker::FrontRight => Speaker::FrontLeft,
            Speaker::RearLeft => Speaker::RearRight,
            Speaker::RearRight => Speaker::RearLeft,
            Speaker::SideLeft => Speaker::SideRight,
            Speaker::SideRight => Speaker::SideLeft,
            Speaker::WideLeft => Speaker::WideRight,
            Speaker::WideRight => Speaker::WideLeft,
            Speaker::TopFrontLeft => Speaker::TopFrontRight,
            Speaker::TopFrontRight => Speaker::TopFrontLeft,
            Speaker::TopSideLeft => Speaker::TopSideRight,
            Speaker::TopSideRight => Speaker::TopSideLeft,
            Speaker::TopRearLeft => Speaker::TopRearRight,
            Speaker::TopRearRight => Speaker::TopRearLeft,
            _ => self,
        }
    }
}

/// Exchanging the surrounds keeps their hand, moves each between side and rear, and
/// leaves every other speaker where it is.
pub proof fn law_swapped_surrounds_keep_their_hand(speaker: Speaker)
    ensures
        speaker.mirrored().swapped() == speaker.swapped().mirrored(),
        speaker.swapped() != speaker <==> speaker is SideLeft || speaker is SideRight
            || speaker is RearLeft || speaker is RearRight,
        speaker is SideLeft ==> speaker.swapped() is RearLeft,
        speaker is SideRight ==> speaker.swapped() is RearRight,
{
}

/// What hangs above the listener does so on both hands; the front, the sides, the
/// rear, the wides and the low-frequency channel do not.
pub proof fn law_overhead_speakers_come_in_rows(speaker: Speaker)
    ensures
        speaker.overhead() == speaker.mirrored().overhead(),
        !speaker.overhead() <==> speaker is FrontLeft || speaker is FrontRight
            || speaker is FrontCenter || speaker is Lfe || speaker is RearLeft
            || speaker is RearRight || speaker is RearCenter || speaker is SideLeft
            || speaker is SideRight || speaker is WideLeft || speaker is WideRight,
        speaker.overhead() ==> speaker.swapped() == speaker,
{
}

/// The first place of a speaker is one where it stands, and no earlier one is; it is
/// found wherever it stands.
pub proof fn law_speakers_are_found_first(speakers: Seq<Speaker>, wanted: Speaker, place: int)
    requires
        0 <= place < speakers.len(),
        speakers[place] == wanted,
    ensures
        speaker_place(speakers, wanted, 0) matches Some(first) && first <= place
            && speakers[first as int] == wanted && forall|i: int|
            0 <= i < first ==> speakers[i] != wanted,
{
    lemma_listed_has_place(speakers, wanted, 0);
    lemma_place_in_range(speakers, wanted, 0);
    lemma_first_place(speakers, wanted, 0);
}

proof fn lemma_first_place(speakers: Seq<Speaker>, wanted: Speaker, start: nat)
    ensures
        speaker_place(speakers, wanted, start) matches Some(first) ==> forall|i: int|
            start <= i < first ==> speakers[i] != wanted,
    decreases speakers.len() - start,
{
    if start < speakers.len() && speakers[start as int] != wanted {
        lemma_first_place(speakers, wanted, start + 1);
    }
}

} // verus!
