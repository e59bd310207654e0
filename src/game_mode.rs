use vstd::prelude::*;

verus! {

/// The key layout of a map.
#[derive(Clone, Copy, Debug, PartialEq, Eq, Structural)]
pub enum GameMode {
    Keys4,
    Keys7,
}

impl GameMode {
    /// Number of playable lanes, without a scratch lane.
    pub open spec fn key_count_spec(self) -> nat {
        match self {
            GameMode::Keys4 => 4,
            GameMode::Keys7 => 7,
        }
    }

    pub fn key_count(self) -> (r: u8)
        ensures
            r as nat == self.key_count_spec(),
    {
        match self {
            GameMode::Keys4 => 4,
            GameMode::Keys7 => 7,
        }
    }
}

/// Beats per measure of a timing section.
#[derive(Clone, Copy, Debug, PartialEq, Eq, Structural)]
pub enum TimeSignature {
    Quadruple,
    Triple,
}

impl TimeSignature {
    pub open spec fn beats_spec(self) -> nat {
        match self {
            TimeSignature::Quadruple => 4,
            TimeSignature::Triple => 3,
        }
    }

    /// The signature written as its number of beats, if it is one of the two known ones.
    pub fn from_beats(beats: u8) -> (r: Option<TimeSignature>)
        ensures
            r.is_some() <==> (beats == 3 || beats == 4),
            r.is_some() ==> r.unwrap().beats_spec() == beats as nat,
    {
        if beats == 4 {
            Some(TimeSignature::Quadruple)
        } else if beats == 3 {
            Some(TimeSignature::Triple)
        } else {
            None
        }
    }

    pub fn beats(self) -> (r: u8)
        ensures
            r as nat == self.beats_spec(),
    {
        match self {
            TimeSignature::Quadruple => 4,
            TimeSignature::Triple => 3,
        }
    }
}

impl Default for TimeSignature {
    fn default() -> (r: TimeSignature)
        ensures
            r == TimeSignature::Quadruple,
    {
        TimeSignature::Quadruple
    }
}

} // verus!
