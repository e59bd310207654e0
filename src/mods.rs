use vstd::prelude::*;

verus! {

// Modifier bits of a play.
pub const NO_SLIDER_VELOCITY: i64 = 1;
pub const SPEED_05X: i64 = 2;
pub const SPEED_06X: i64 = 4;
pub const SPEED_07X: i64 = 8;
pub const SPEED_08X: i64 = 16;
pub const SPEED_09X: i64 = 32;
pub const SPEED_11X: i64 = 64;
pub const SPEED_12X: i64 = 128;
pub const SPEED_13X: i64 = 256;
pub const SPEED_14X: i64 = 512;
pub const SPEED_15X: i64 = 1024;
pub const SPEED_16X: i64 = 2048;
pub const SPEED_17X: i64 = 4096;
pub const SPEED_18X: i64 = 8192;
pub const SPEED_19X: i64 = 16384;
pub const SPEED_20X: i64 = 32768;
pub const STRICT: i64 = 65536;
pub const CHILL: i64 = 131072;
pub const NO_PAUSE: i64 = 262144;
pub const AUTOPLAY: i64 = 524288;
pub const PAUSED: i64 = 1048576;
pub const NO_FAIL: i64 = 2097152;
pub const NO_LONG_NOTES: i64 = 4194304;
pub const RANDOMIZE: i64 = 8388608;
pub const SPEED_055X: i64 = 16777216;
pub const SPEED_065X: i64 = 33554432;
pub const SPEED_075X: i64 = 67108864;
pub const SPEED_085X: i64 = 134217728;
pub const SPEED_095X: i64 = 268435456;
pub const INVERSE: i64 = 536870912;
pub const FULL_LN: i64 = 1073741824;
pub const MIRROR: i64 = 1i64 << 31u64;
pub const COOP: i64 = 1i64 << 32u64;
pub const SPEED_105X: i64 = 1i64 << 33u64;
pub const SPEED_115X: i64 = 1i64 << 34u64;
pub const SPEED_125X: i64 = 1i64 << 35u64;
pub const SPEED_135X: i64 = 1i64 << 36u64;
pub const SPEED_145X: i64 = 1i64 << 37u64;
pub const SPEED_155X: i64 = 1i64 << 38u64;
pub const SPEED_165X: i64 = 1i64 << 39u64;
pub const SPEED_175X: i64 = 1i64 << 40u64;
pub const SPEED_185X: i64 = 1i64 << 41u64;
pub const SPEED_195X: i64 = 1i64 << 42u64;
pub const HEALTH_ADJUST: i64 = 1i64 << 43u64;
pub const NO_MISS: i64 = 1i64 << 44u64;

/// A set of play modifiers, one bit each.
#[derive(Clone, Copy, Debug, PartialEq, Eq, Structural)]
pub struct ModIdentifier {
    pub bits: i64,
}

pub open spec fn has_flag(bits: i64, flag: i64) -> bool {
    bits & flag == flag
}

/// Playback rate, in hundredths, that a set of modifiers selects: the first speed
/// modifier present in the table order wins, and none means normal speed.
pub open spec fn rate_of_mods(bits: i64) -> u32 {
    if has_flag(bits, SPEED_05X) {
        50
    } else if has_flag(bits, SPEED_055X) {
        55
    } else if has_flag(bits, SPEED_06X) {
        60
    } else if has_flag(bits, SPEED_065X) {
        65
    } else if has_flag(bits, SPEED_07X) {
        70
    } else if has_flag(bits, SPEED_075X) {
        75
    } else if has_flag(bits, SPEED_08X) {
        80
    } else if has_flag(bits, SPEED_085X) {
        85
    } else if has_flag(bits, SPEED_09X) {
        90
    } else if has_flag(bits, SPEED_095X) {
        95
    } else if has_flag(bits, SPEED_105X) {
        105
    } else if has_flag(bits, SPEED_11X) {
        110
    } else if has_flag(bits, SPEED_115X) {
        115
    } else if has_flag(bits, SPEED_12X) {
        120
    } else if has_flag(bits, SPEED_125X) {
        125
    } else if has_flag(bits, SPEED_13X) {
        130
    } else if has_flag(bits, SPEED_135X) {
        135
    } else if has_flag(bits, SPEED_14X) {
        140
    } else if has_flag(bits, SPEED_145X) {
        145
    } else if has_flag(bits, SPEED_15X) {
        150
    } else if has_flag(bits, SPEED_155X) {
        155
    } else if has_flag(bits, SPEED_16X) {
        160
    } else if has_flag(bits, SPEED_165X) {
        165
    } else if has_flag(bits, SPEED_17X) {
        170
    } else if has_flag(bits, SPEED_175X) {
        175
    } else if has_flag(bits, SPEED_18X) {
        180
    } else if has_flag(bits, SPEED_185X) {
        185
    } else if has_flag(bits, SPEED_19X) {
        190
    } else if has_flag(bits, SPEED_195X) {
        195
    } else if has_flag(bits, SPEED_20X) {
        200
    } else {
        100
    }
}

impl ModIdentifier {
    /// No modifier at all.
    pub fn empty() -> (r: ModIdentifier)
        ensures
            r.bits == 0,
    {
        ModIdentifier { bits: 0 }
    }

    pub fn from_bits(bits: i64) -> (r: ModIdentifier)
        ensures
            r.bits == bits,
    {
        ModIdentifier { bits }
    }

    /// Whether every bit of `flag` is set.
    pub fn contains(self, flag: i64) -> (r: bool)
        ensures
            r == has_flag(self.bits, flag),
    {
        self.bits & flag == flag
    }

    /// The modifiers of `self` together with `flag`.
    pub fn with(self, flag: i64) -> (r: ModIdentifier)
        ensures
            r.bits == self.bits | flag,
    {
        ModIdentifier { bits: self.bits | flag }
    }

    /// The playback rate, in hundredths (100 is normal speed), that the modifiers select.
    pub fn get_rate_from_mods(mods: ModIdentifier) -> (r: u32)
        ensures
            r == rate_of_mods(mods.bits),
            50 <= r <= 200,
    {
        if mods.contains(SPEED_05X) {
            50
        } else if mods.contains(SPEED_055X) {
            55
        } else if mods.contains(SPEED_06X) {
            60
        } else if mods.contains(SPEED_065X) {
            65
        } else if mods.contains(SPEED_07X) {
            70
        } else if mods.contains(SPEED_075X) {
            75
        } else if mods.contains(SPEED_08X) {
            80
        } else if mods.contains(SPEED_085X) {
            85
        } else if mods.contains(SPEED_09X) {
            90
        } else if mods.contains(SPEED_095X) {
            95
        } else if mods.contains(SPEED_105X) {
            105
        } else if mods.contains(SPEED_11X) {
            110
        } else if mods.contains(SPEED_115X) {
            115
        } else if mods.contains(SPEED_12X) {
            120
        } else if mods.contains(SPEED_125X) {
            125
        } else if mods.contains(SPEED_13X) {
            130
        } else if mods.contains(SPEED_135X) {
            135
        } else if mods.contains(SPEED_14X) {
            140
        } else if mods.contains(SPEED_145X) {
            145
        } else if mods.contains(SPEED_15X) {
            150
        } else if mods.contains(SPEED_155X) {
            155
        } else if mods.contains(SPEED_16X) {
            160
        } else if mods.contains(SPEED_165X) {
            165
        } else if mods.contains(SPEED_17X) {
            170
        } else if mods.contains(SPEED_175X) {
            175
        } else if mods.contains(SPEED_18X) {
            180
        } else if mods.contains(SPEED_185X) {
            185
        } else if mods.contains(SPEED_19X) {
            190
        } else if mods.contains(SPEED_195X) {
            195
        } else if mods.contains(SPEED_20X) {
            200
        } else {
            100
        }
    }
}

} // verus!
