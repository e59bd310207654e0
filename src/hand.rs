use vstd::prelude::*;
use crate::game_mode::GameMode;

verus! {

/// The hand that plays a lane.
#[derive(Clone, Copy, Debug, PartialEq, Eq, Structural)]
pub enum Hand {
    Left,
    Right,
    Ambiguous,
}

/// The kind of transition from one strain event to the next one on the same hand.
#[derive(Clone, Copy, Debug, PartialEq, Eq, Structural)]
pub enum FingerAction {
    NoAction,
    SimpleJack,
    TechnicalJack,
    Roll,
    Bracket,
}

/// How a long note overlaps the next event on its hand.
#[derive(Clone, Copy, Debug, PartialEq, Eq, Structural)]
pub enum LnLayerType {
    NoLayer,
    InsideRelease,
    OutsideRelease,
    InsideTap,
}

/// Finger bits: a finger state is the bitwise union of these.
pub const FINGER_NONE: u8 = 0;
pub const FINGER_INDEX: u8 = 1;
pub const FINGER_MIDDLE: u8 = 2;
pub const FINGER_RING: u8 = 4;
pub const FINGER_PINKIE: u8 = 8;
pub const FINGER_THUMB: u8 = 16;

pub open spec fn hand_of_lane(mode: GameMode, lane: int) -> Hand {
    match mode {
        GameMode::Keys4 => if lane <= 2 { Hand::Left } else { Hand::Right },
        GameMode::Keys7 => if lane <= 3 {
            Hand::Left
        } else if lane == 4 {
            Hand::Ambiguous
        } else {
            Hand::Right
        },
    }
}

pub open spec fn finger_of_lane(mode: GameMode, lane: int) -> u8 {
    match mode {
        GameMode::Keys4 => if lane == 1 || lane == 4 { FINGER_MIDDLE } else { FINGER_INDEX },
        GameMode::Keys7 => if lane == 1 || lane == 7 {
            FINGER_RING
        } else if lane == 2 || lane == 6 {
            FINGER_MIDDLE
        } else if lane == 3 || lane == 5 {
            FINGER_INDEX
        } else {
            FINGER_THUMB
        },
    }
}

/// The hand assigned to a 1-based lane of the mode.
pub fn lane_to_hand(mode: GameMode, lane: i32) -> (r: Hand)
    requires
        1 <= lane <= mode.key_count_spec(),
    ensures
        r == hand_of_lane(mode, lane as int),
{
    match mode {
        GameMode::Keys4 => if lane <= 2 { Hand::Left } else { Hand::Right },
        GameMode::Keys7 => if lane <= 3 {
            Hand::Left
        } else if lane == 4 {
            Hand::Ambiguous
        } else {
            Hand::Right
        },
    }
}

/// The finger bit assigned to a 1-based lane of the mode.
pub fn lane_to_finger(mode: GameMode, lane: i32) -> (r: u8)
    requires
        1 <= lane <= mode.key_count_spec(),
    ensures
        r == finger_of_lane(mode, lane as int),
{
    match mode {
        GameMode::Keys4 => if lane == 1 || lane == 4 { FINGER_MIDDLE } else { FINGER_INDEX },
        GameMode::Keys7 => if lane == 1 || lane == 7 {
            FINGER_RING
        } else if lane == 2 || lane == 6 {
            FINGER_MIDDLE
        } else if lane == 3 || lane == 5 {
            FINGER_INDEX
        } else {
            FINGER_THUMB
        },
    }
}

} // verus!
