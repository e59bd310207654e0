use vstd::prelude::*;

verus! {

/// A note of an osu! map as its file writes it.
#[derive(Clone, Debug)]
pub struct OsuHitObject {
    pub x: i32,
    pub y: i32,
    pub start_time: i32,
    pub type_: u32,
    pub hit_sound: u32,
    pub end_time: i32,
    pub additions: String,
    pub key1: bool,
    pub key2: bool,
    pub key3: bool,
    pub key4: bool,
    pub key5: bool,
    pub key6: bool,
    pub key7: bool,
    pub volume: i32,
    pub key_sound: i32,
}

/// A storyboard sample of an osu! map.
#[derive(Clone, Copy, Debug, PartialEq, Eq, Structural)]
pub struct OsuSampleInfo {
    pub start_time: i32,
    pub layer: i32,
    pub volume: i32,
    pub sample: i32,
}

/// The 1-based lane of an osu! note at column position `x` of 512, in a map of
/// `key_count` lanes; with a scratch lane the first column becomes the last lane.
pub open spec fn osu_lane(x: int, key_count: int, has_scratch_key: bool) -> int {
    let column = if x <= 0 {
        0
    } else if x * key_count / 512 > key_count - 1 {
        key_count - 1
    } else {
        x * key_count / 512
    };
    let lane = column + 1;
    if has_scratch_key {
        if lane == 1 {
            key_count
        } else {
            lane - 1
        }
    } else {
        lane
    }
}

pub fn osu_key_lane(x: i32, key_count: i32, has_scratch_key: bool) -> (r: i32)
    requires
        1 <= key_count <= 18,
    ensures
        r as int == osu_lane(x as int, key_count as int, has_scratch_key),
        1 <= r <= key_count,
{
    let column: i64 = if x <= 0 {
        0
    } else {
        assert(0 <= (x as int) * (key_count as int) <= 0x8000_0000 * 18) by (nonlinear_arith)
            requires
                0 < x <= 0x8000_0000,
                1 <= key_count <= 18,
        ;
        let c = (x as i64) * (key_count as i64) / 512;
        if c > key_count as i64 - 1 {
            key_count as i64 - 1
        } else {
            c
        }
    };
    let lane = (column + 1) as i32;
    if has_scratch_key {
        if lane == 1 {
            key_count
        } else {
            lane - 1
        }
    } else {
        lane
    }
}

} // verus!
