use vstd::prelude::*;
use crate::map::{sort_times, times_sorted, HitObjectInfo};
use vstd::seq_lib::to_multiset_contains;
use crate::binary_helper::BinaryHelper;

verus! {

/// Keys held in a frame of a replay, one bit per lane from bit 0.
#[derive(Clone, Copy, Debug, PartialEq, Eq, Structural)]
pub struct ReplayKeyPressState {
    pub bits: i16,
}

pub const REPLAY_KEY_COUNT: usize = 9;

pub open spec fn key_held(bits: i16, k: int) -> bool {
    (bits as int / pow2(k)) % 2 == 1
}

pub open spec fn pow2(k: int) -> int
    decreases k,
{
    if k <= 0 {
        1
    } else {
        2 * pow2(k - 1)
    }
}

/// The 0-based lanes below `n` whose key is held, lowest first.
pub open spec fn held_lanes(bits: i16, n: int) -> Seq<i32>
    decreases n,
{
    if n <= 0 {
        Seq::empty()
    } else if key_held(bits, n - 1) {
        held_lanes(bits, n - 1).push((n - 1) as i32)
    } else {
        held_lanes(bits, n - 1)
    }
}

fn bit_set(bits: i16, k: usize) -> (r: bool)
    requires
        k < 9,
        bits >= 0,
    ensures
        r == key_held(bits, k as int),
{
    let mut v: i16 = bits;
    let mut i: usize = 0;
    while i < k
        invariant
            i <= k < 9,
            bits >= 0,
            0 <= v,
            v as int == bits as int / pow2(i as int),
        decreases k - i,
    {
        assert(bits as int / pow2(i as int) / 2 == bits as int / pow2(i as int + 1)) by {
            assert(pow2(i as int + 1) == 2 * pow2(i as int));
            lemma_pow2_pos(i as int);
            vstd::arithmetic::div_mod::lemma_div_denominator(bits as int, pow2(i as int), 2);
        }
        v = v / 2;
        i = i + 1;
    }
    v % 2 == 1
}

proof fn lemma_pow2_pos(k: int)
    ensures
        pow2(k) > 0,
    decreases k,
{
    if k > 0 {
        lemma_pow2_pos(k - 1);
    }
}

impl ReplayKeyPressState {
    /// The 0-based lanes whose key is held, lowest first.
    pub fn to_lanes(&self) -> (r: Vec<i32>)
        requires
            self.bits >= 0,
        ensures
            r@ == held_lanes(self.bits, REPLAY_KEY_COUNT as int),
    {
        let mut lanes: Vec<i32> = Vec::new();
        let mut k: usize = 0;
        while k < REPLAY_KEY_COUNT
            invariant
                k <= REPLAY_KEY_COUNT,
                self.bits >= 0,
                lanes@ == held_lanes(self.bits, k as int),
            decreases REPLAY_KEY_COUNT - k,
        {
            if bit_set(self.bits, k) {
                lanes.push(k as i32);
            }
            k = k + 1;
        }
        lanes
    }
}

/// The keys held from `time` on.
#[derive(Clone, Copy, Debug, PartialEq, Eq, Structural)]
pub struct ReplayFrame {
    pub time: i32,
    pub keys: ReplayKeyPressState,
}

#[derive(Clone, Copy, Debug, PartialEq, Eq, Structural)]
pub enum ReplayAutoplayFrameType {
    Press,
    Release,
}

/// One press or release that a perfect play makes.
#[derive(Clone, Copy, Debug, PartialEq, Eq, Structural)]
pub struct ReplayAutoplayFrame {
    pub type_: ReplayAutoplayFrameType,
    pub time: i32,
    pub keys: ReplayKeyPressState,
    pub hit_object: HitObjectInfo,
}

/// Keys held in an event of an osu! replay, one bit per lane from bit 0.
#[derive(Clone, Copy, Debug, PartialEq, Eq, Structural)]
pub struct KeyPressState {
    pub bits: u32,
}

/// One event of an osu! replay: the time since the last event and the keys held.
#[derive(Clone, Copy, Debug, PartialEq, Eq, Structural)]
pub struct ReplayEvent {
    pub time_delta: i64,
    pub keys: KeyPressState,
}

/// The header and events of an osu! replay.
#[derive(Clone, Debug)]
pub struct OsuReplay {
    pub mode: u8,
    pub version: u32,
    pub map_md5: String,
    pub username: String,
    pub replay_md5: String,
    pub count_300: u16,
    pub count_100: u16,
    pub count_50: u16,
    pub count_geki: u16,
    pub count_katu: u16,
    pub count_miss: u16,
    pub score: u32,
    pub max_combo: u16,
    pub perfect: u8,
    pub mods: u32,
    pub life_bar: String,
    pub time_stamp: u64,
    pub replay_data: Vec<ReplayEvent>,
    pub replay_id: u64,
    pub rng_seed: u32,
}

/// The key state of a 1-based lane, for lanes 1 to 9.
pub fn key_lane_to_press_state(lane: i32) -> (r: Option<ReplayKeyPressState>)
    ensures
        r.is_some() <==> 1 <= lane <= 9,
        r.is_some() ==> r.unwrap().bits as int == pow2(lane - 1),
{
    if lane < 1 || lane > 9 {
        return None;
    }
    proof {
        reveal_with_fuel(pow2, 10);
    }
    let bits: i16 = if lane == 1 {
        1
    } else if lane == 2 {
        2
    } else if lane == 3 {
        4
    } else if lane == 4 {
        8
    } else if lane == 5 {
        16
    } else if lane == 6 {
        32
    } else if lane == 7 {
        64
    } else if lane == 8 {
        128
    } else {
        256
    };
    Some(ReplayKeyPressState { bits })
}

/// When a perfect play lets go of a note: just before a long note ends, or 30 ms after
/// a tap.
pub open spec fn release_time(h: HitObjectInfo) -> int {
    if h.end_time > 0 {
        h.end_time - 1
    } else {
        h.start_time + 30
    }
}

/// The presses and releases of a perfect play, a press and a release per note in the
/// order of the notes.
pub open spec fn autoplay_frames(s: Seq<HitObjectInfo>) -> Seq<ReplayAutoplayFrame>
    decreases s.len(),
{
    if s.len() == 0 {
        Seq::empty()
    } else {
        let h = s.last();
        let keys = ReplayKeyPressState { bits: pow2(h.lane - 1) as i16 };
        autoplay_frames(s.drop_last()).push(
            ReplayAutoplayFrame { type_: ReplayAutoplayFrameType::Press, time: h.start_time, keys, hit_object: h },
        ).push(
            ReplayAutoplayFrame {
                type_: ReplayAutoplayFrameType::Release,
                time: release_time(h) as i32,
                keys,
                hit_object: h,
            },
        )
    }
}

pub open spec fn apply_frame(state: i16, f: ReplayAutoplayFrame) -> i16 {
    match f.type_ {
        ReplayAutoplayFrameType::Press => state | f.keys.bits,
        ReplayAutoplayFrameType::Release => state & !f.keys.bits,
    }
}

/// The key state after the first `n` frames at time `t`, in their order, from `state`.
pub open spec fn apply_at_time(state: i16, fs: Seq<ReplayAutoplayFrame>, t: i32, n: int) -> i16
    decreases n,
{
    if n <= 0 {
        state
    } else {
        let before = apply_at_time(state, fs, t, n - 1);
        if fs[n - 1].time == t {
            apply_frame(before, fs[n - 1])
        } else {
            before
        }
    }
}

/// The key state after the first `k` of the sorted distinct times.
pub open spec fn state_through(fs: Seq<ReplayAutoplayFrame>, times: Seq<i32>, k: int) -> i16
    decreases k,
{
    if k <= 0 {
        0
    } else {
        apply_at_time(state_through(fs, times, k - 1), fs, times[k - 1], fs.len() as int)
    }
}

pub open spec fn strictly_increasing(t: Seq<i32>) -> bool {
    forall|i: int, j: int| 0 <= i < j < t.len() ==> t[i] < t[j]
}

pub open spec fn notes_fit_replay(s: Seq<HitObjectInfo>) -> bool {
    forall|i: int|
        0 <= i < s.len() ==> 1 <= (#[trigger] s[i]).lane <= 9 && s[i].start_time <= i32::MAX - 30
}

fn apply_at_time_exec(state: i16, fs: &Vec<ReplayAutoplayFrame>, t: i32) -> (r: i16)
    ensures
        r == apply_at_time(state, fs@, t, fs@.len() as int),
{
    let mut cur = state;
    let mut j: usize = 0;
    while j < fs.len()
        invariant
            j <= fs@.len(),
            cur == apply_at_time(state, fs@, t, j as int),
        decreases fs@.len() - j,
    {
        let f = fs[j];
        if f.time == t {
            cur = match f.type_ {
                ReplayAutoplayFrameType::Press => cur | f.keys.bits,
                ReplayAutoplayFrameType::Release => cur & !f.keys.bits,
            };
        }
        j = j + 1;
    }
    cur
}

/// The frames of a perfect play: a first frame with no key held, then one frame at each
/// distinct press or release time, ascending, holding the keys as the presses and
/// releases up to that time leave them.
pub fn generate_perfect_replay_keys(hit_objects: &Vec<HitObjectInfo>) -> (r: Vec<ReplayFrame>)
    requires
        notes_fit_replay(hit_objects@),
    ensures
        r@.len() >= 1,
        r@[0] == (ReplayFrame { time: -10000i32, keys: ReplayKeyPressState { bits: 0i16 } }),
        exists|times: Seq<i32>|
            strictly_increasing(times) && (forall|x: i32|
                times.contains(x) <==> exists|i: int|
                    0 <= i < autoplay_frames(hit_objects@).len() && autoplay_frames(hit_objects@)[i].time
                        == x) && r@.len() == times.len() + 1 && forall|k: int|
                0 <= k < times.len() ==> #[trigger] r@[k + 1] == (ReplayFrame {
                    time: times[k],
                    keys: ReplayKeyPressState {
                        bits: state_through(autoplay_frames(hit_objects@), times, k + 1),
                    },
                }),
{
    let ghost s = hit_objects@;
    let mut frames: Vec<ReplayAutoplayFrame> = Vec::new();
    let mut all_times: Vec<i32> = Vec::new();
    let mut i: usize = 0;
    while i < hit_objects.len()
        invariant
            i <= s.len(),
            s == hit_objects@,
            notes_fit_replay(s),
            frames@ == autoplay_frames(s.take(i as int)),
            all_times@.len() == frames@.len(),
            forall|j: int| 0 <= j < frames@.len() ==> #[trigger] all_times@[j] == frames@[j].time,
        decreases s.len() - i,
    {
        let h = hit_objects[i];
        assert(s.take(i as int + 1).drop_last() =~= s.take(i as int));
        assert(1 <= s[i as int].lane <= 9);
        let keys = match key_lane_to_press_state(h.lane) {
            Some(k) => k,
            None => ReplayKeyPressState { bits: 0 },
        };
        let release = if h.end_time > 0 {
            h.end_time - 1
        } else {
            h.start_time + 30
        };
        frames.push(ReplayAutoplayFrame { type_: ReplayAutoplayFrameType::Press, time: h.start_time, keys, hit_object: h });
        all_times.push(h.start_time);
        frames.push(ReplayAutoplayFrame { type_: ReplayAutoplayFrameType::Release, time: release, keys, hit_object: h });
        all_times.push(release);
        i = i + 1;
    }
    assert(s.take(i as int) =~= s);
    let ghost fs = frames@;
    let sorted = sort_times(&all_times);
    let mut times: Vec<i32> = Vec::new();
    let mut k: usize = 0;
    while k < sorted.len()
        invariant
            k <= sorted@.len(),
            times_sorted(sorted@),
            strictly_increasing(times@),
            times@.len() <= k,
            times@.len() > 0 ==> times@.last() == sorted@[k - 1],
            k > 0 ==> times@.len() > 0,
            forall|x: i32| times@.contains(x) <==> exists|j: int| 0 <= j < k && sorted@[j] == x,
        decreases sorted@.len() - k,
    {
        let x = sorted[k];
        let ghost before = times@;
        if times.len() == 0 || times[times.len() - 1] != x {
            times.push(x);
            proof {
                assert forall|y: i32| times@.contains(y) <==> exists|j: int| 0 <= j < k + 1 && sorted@[j] == y by {
                    if times@.contains(y) {
                        let m = choose|m: int| 0 <= m < times@.len() && times@[m] == y;
                        if m < before.len() {
                            assert(before.contains(y));
                        }
                    }
                    if exists|j: int| 0 <= j < k + 1 && sorted@[j] == y {
                        let j = choose|j: int| 0 <= j < k + 1 && sorted@[j] == y;
                        if j < k {
                            assert(before.contains(y));
                            let m = choose|m: int| 0 <= m < before.len() && before[m] == y;
                            assert(times@[m] == y);
                        } else {
                            assert(times@[times@.len() - 1] == y);
                        }
                    }
                }
                if before.len() > 0 {
                    assert(sorted@[k - 1] <= sorted@[k as int]);
                }
            }
        } else {
            proof {
                assert forall|y: i32| times@.contains(y) <==> exists|j: int| 0 <= j < k + 1 && sorted@[j] == y by {
                    if exists|j: int| 0 <= j < k + 1 && sorted@[j] == y {
                        let j = choose|j: int| 0 <= j < k + 1 && sorted@[j] == y;
                        if j == k {
                            assert(times@[times@.len() - 1] == y);
                        }
                    }
                }
            }
        }
        k = k + 1;
    }
    proof {
        assert forall|x: i32| times@.contains(x) <==> exists|i: int| 0 <= i < fs.len() && fs[i].time == x by {
            to_multiset_contains(sorted@, x);
            to_multiset_contains(all_times@, x);
            if times@.contains(x) {
                let j = choose|j: int| 0 <= j < sorted@.len() && sorted@[j] == x;
                assert(sorted@.contains(x));
                assert(all_times@.contains(x));
                let i = choose|i: int| 0 <= i < all_times@.len() && all_times@[i] == x;
                assert(fs[i].time == x);
            }
            if exists|i: int| 0 <= i < fs.len() && fs[i].time == x {
                let i = choose|i: int| 0 <= i < fs.len() && fs[i].time == x;
                assert(all_times@[i] == x);
                assert(all_times@.contains(x));
                assert(sorted@.contains(x));
                let j = choose|j: int| 0 <= j < sorted@.len() && sorted@[j] == x;
            }
        }
    }
    let mut out: Vec<ReplayFrame> = Vec::new();
    out.push(ReplayFrame { time: -10000, keys: ReplayKeyPressState { bits: 0 } });
    let mut state: i16 = 0;
    let mut m: usize = 0;
    while m < times.len()
        invariant
            m <= times@.len(),
            fs == frames@,
            out@.len() == m + 1,
            out@[0] == (ReplayFrame { time: -10000i32, keys: ReplayKeyPressState { bits: 0i16 } }),
            state == state_through(fs, times@, m as int),
            forall|q: int| 0 <= q < m ==> #[trigger] out@[q + 1] == (ReplayFrame {
                time: times@[q],
                keys: ReplayKeyPressState { bits: state_through(fs, times@, q + 1) },
            }),
        decreases times@.len() - m,
    {
        state = apply_at_time_exec(state, &frames, times[m]);
        out.push(ReplayFrame { time: times[m], keys: ReplayKeyPressState { bits: state } });
        m = m + 1;
    }
    out
}

/// What LZMA-compressed bytes `b` decompress to.
pub uninterp spec fn lzma_decoded(b: Seq<u8>) -> Seq<u8>;

/// Relies on lzma_rs's `lzma_decompress`: the decompressed bytes of a valid LZMA stream,
/// nothing for an invalid one.
#[verifier::external_body]
fn lzma_decompress_bytes(b: &Vec<u8>) -> (r: Option<Vec<u8>>)
    ensures
        r.is_some() ==> r.unwrap()@ == lzma_decoded(b@),
{
    let mut input: &[u8] = b.as_slice();
    let mut out: Vec<u8> = Vec::new();
    match lzma_rs::lzma_decompress(&mut input, &mut out) {
        Ok(()) => Some(out),
        Err(_) => None,
    }
}

/// The numbers of a semantic version and whether it carries a pre-release tag.
pub uninterp spec fn semver_parts(s: Seq<char>) -> Option<(u64, u64, u64, bool)>;

/// Relies on semver's `Version::parse`: major, minor and patch of a valid version and
/// whether its pre-release part is non-empty; nothing for an invalid one.
#[verifier::external_body]
fn parse_version(s: &String) -> (r: Option<(u64, u64, u64, bool)>)
    ensures
        r == semver_parts(s@),
{
    match semver::Version::parse(s) {
        Ok(v) => Some((v.major, v.minor, v.patch, !v.pre.is_empty())),
        Err(_) => None,
    }
}

/// Semantic-version order against a release `major.minor.patch`: higher numbers win, and
/// with equal numbers a pre-release comes before the release.
pub open spec fn version_at_least_spec(p: (u64, u64, u64, bool), major: u64, minor: u64, patch: u64) -> bool {
    p.0 > major || (p.0 == major && (p.1 > minor || (p.1 == minor && (p.2 > patch || (p.2 == patch
        && !p.3)))))
}

/// Whether `version` is at least the release `major.minor.patch`; nothing when it is not
/// a semantic version.
pub fn version_at_least(version: &String, major: u64, minor: u64, patch: u64) -> (r: Option<bool>)
    ensures
        r == match semver_parts(version@) {
            Some(p) => Some(version_at_least_spec(p, major, minor, patch)),
            None => None::<bool>,
        },
{
    match parse_version(version) {
        Some(p) => Some(p.0 > major || (p.0 == major && (p.1 > minor || (p.1 == minor && (p.2
            > patch || (p.2 == patch && !p.3)))))),
        None => None,
    }
}

/// Modifier bits of a replay written with 32-bit mods: -1 means none, and the sign bit
/// is the mirror modifier.
pub open spec fn legacy_mods_spec(m: i32) -> i64 {
    if m == -1 {
        0
    } else if m < 0 {
        (m + 0x1_0000_0000) as i64
    } else {
        m as i64
    }
}

pub fn legacy_mods(m: i32) -> (r: i64)
    ensures
        r == legacy_mods_spec(m),
        m < -1 ==> r >= 0x8000_0000,
{
    if m == -1 {
        0
    } else if m < 0 {
        m as i64 + 0x1_0000_0000
    } else {
        m as i64
    }
}

/// The next `length` bytes, decompressed. Nothing when fewer are left, with the cursor
/// unmoved, or when they are not an LZMA stream.
pub fn read_compressed_block(br: &mut BinaryHelper, length: usize) -> (r: Option<Vec<u8>>)
    ensures
        final(br).data == old(br).data,
        r.is_some() ==> old(br).pos + length <= old(br).data@.len() && r.unwrap()@ == lzma_decoded(
            old(br).data@.subrange(old(br).pos as int, old(br).pos + length),
        ),
{
    match br.read_bytes(length) {
        Ok(bytes) => lzma_decompress_bytes(&bytes),
        Err(_) => None,
    }
}

/// The rest of a replay, decompressed: the frame text. Nothing when the bytes are not an
/// LZMA stream or the cursor is past the end.
pub fn read_compressed_frames(br: &mut BinaryHelper) -> (r: Option<Vec<u8>>)
    ensures
        final(br).data == old(br).data,
        old(br).pos <= old(br).length && old(br).length == old(br).data@.len() ==> (r.is_some()
            ==> r.unwrap()@ == lzma_decoded(old(br).data@.subrange(old(br).pos as int, old(br).length as int))),
        !(old(br).pos <= old(br).length) ==> r.is_none(),
{
    if br.pos > br.length {
        return None;
    }
    let length = br.remaining_length();
    match br.read_bytes(length) {
        Ok(bytes) => lzma_decompress_bytes(&bytes),
        Err(_) => None,
    }
}

} // verus!
