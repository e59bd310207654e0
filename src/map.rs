use vstd::prelude::*;
use vstd::seq_lib::*;
use crate::mods::{has_flag, ModIdentifier, FULL_LN, INVERSE, MIRROR, NO_LONG_NOTES};
use crate::game_mode::GameMode;

verus! {

/// One note of a map: a tap when `end_time` is 0, a long note when it is later than
/// `start_time`. Times are in milliseconds, lanes are 1-based.
#[derive(Clone, Copy, Debug, PartialEq, Eq, Structural)]
pub struct HitObjectInfo {
    pub start_time: i32,
    pub lane: i32,
    pub end_time: i32,
}

impl HitObjectInfo {
    pub open spec fn is_long_note_spec(self) -> bool {
        self.end_time > 0
    }

    pub fn is_long_note(&self) -> (r: bool)
        ensures
            r == self.is_long_note_spec(),
    {
        self.end_time > 0
    }
}

/// The order in which a map's notes are kept: by start time, then lane, then end time.
pub open spec fn hit_object_le(a: HitObjectInfo, b: HitObjectInfo) -> bool {
    a.start_time < b.start_time || (a.start_time == b.start_time && (a.lane < b.lane || (
    a.lane == b.lane && a.end_time <= b.end_time)))
}

pub open spec fn is_sorted(s: Seq<HitObjectInfo>) -> bool {
    forall|i: int, j: int| 0 <= i < j < s.len() ==> hit_object_le(#[trigger] s[i], #[trigger] s[j])
}

/// Notes as a map may hold them: not before time zero, and a long note ends after it starts.
pub open spec fn valid_notes(s: Seq<HitObjectInfo>) -> bool {
    forall|i: int|
        0 <= i < s.len() ==> 0 <= (#[trigger] s[i]).start_time && (s[i].end_time == 0
            || s[i].end_time > s[i].start_time)
}

pub proof fn lemma_sorted_by_start(s: Seq<HitObjectInfo>)
    requires
        is_sorted(s),
    ensures
        is_sorted_by_start(s),
{
    assert forall|i: int, j: int| 0 <= i < j < s.len() implies (#[trigger] s[i]).start_time
        <= (#[trigger] s[j]).start_time by {
        assert(hit_object_le(s[i], s[j]));
    }
}

pub open spec fn is_sorted_by_start(s: Seq<HitObjectInfo>) -> bool {
    forall|i: int, j: int|
        0 <= i < j < s.len() ==> (#[trigger] s[i]).start_time <= (#[trigger] s[j]).start_time
}

fn hit_object_lt(a: &HitObjectInfo, b: &HitObjectInfo) -> (r: bool)
    ensures
        r == !hit_object_le(*b, *a),
{
    a.start_time < b.start_time || (a.start_time == b.start_time && (a.lane < b.lane || (a.lane
        == b.lane && a.end_time < b.end_time)))
}

/// The notes in the library's order: sorted, and the same notes as given.
pub fn sort_hit_objects(v: &Vec<HitObjectInfo>) -> (r: Vec<HitObjectInfo>)
    ensures
        is_sorted(r@),
        r@.to_multiset() == v@.to_multiset(),
{
    broadcast use group_to_multiset_ensures;

    let mut r: Vec<HitObjectInfo> = Vec::new();
    let mut i: usize = 0;
    while i < v.len()
        invariant
            i <= v.len(),
            is_sorted(r@),
            r@.to_multiset() == v@.take(i as int).to_multiset(),
        decreases v.len() - i,
    {
        let x = v[i];
        let mut p: usize = 0;
        while p < r.len() && !hit_object_lt(&x, &r[p])
            invariant
                p <= r.len(),
                forall|k: int| 0 <= k < p ==> hit_object_le(#[trigger] r@[k], x),
            decreases r.len() - p,
        {
            p = p + 1;
        }
        let ghost old_r = r@;
        r.insert(p, x);
        assert(is_sorted(r@)) by {
            assert forall|a: int, b: int| 0 <= a < b < r@.len() implies hit_object_le(
                #[trigger] r@[a],
                #[trigger] r@[b],
            ) by {
                if a < p as int && b == p as int {
                } else if a == p as int {
                    assert(hit_object_le(x, old_r[b - 1]));
                } else if a < p as int {
                    assert(hit_object_le(old_r[a], old_r[b - 1]));
                } else {
                    assert(hit_object_le(old_r[a - 1], old_r[b - 1]));
                }
            }
        }
        assert(v@.take(i as int + 1) =~= v@.take(i as int).push(x));
        proof {
            to_multiset_insert(old_r, p as int, x);
            to_multiset_build(v@.take(i as int), x);
        }
        i = i + 1;
    }
    assert(v@.take(v.len() as int) =~= v@);
    r
}

/// Two sorted sequences that hold the same notes are the same sequence: the order of
/// the notes that a caller hands in does not reach anything computed after sorting.
pub proof fn lemma_sorted_unique(a: Seq<HitObjectInfo>, b: Seq<HitObjectInfo>)
    requires
        is_sorted(a),
        is_sorted(b),
        a.to_multiset() == b.to_multiset(),
    ensures
        a == b,
    decreases a.len(),
{
    broadcast use group_to_multiset_ensures;

    assert(a.to_multiset().len() == a.len());
    assert(b.to_multiset().len() == b.len());
    assert(a.len() == b.len());
    if a.len() == 0 {
        assert(a =~= b);
    } else {
        assert(b.to_multiset().count(a[0]) > 0);
        assert(b.contains(a[0]));
        let k = choose|k: int| 0 <= k < b.len() && b[k] == a[0];
        assert(hit_object_le(b[0], a[0])) by {
            if k > 0 {
                assert(hit_object_le(b[0], b[k]));
            }
        }
        assert(a.to_multiset().count(b[0]) > 0);
        assert(a.contains(b[0]));
        let m = choose|m: int| 0 <= m < a.len() && a[m] == b[0];
        assert(hit_object_le(a[0], b[0])) by {
            if m > 0 {
                assert(hit_object_le(a[0], a[m]));
            }
        }
        assert(a[0] == b[0]);
        assert(a.remove(0) =~= a.drop_first());
        assert(b.remove(0) =~= b.drop_first());
        assert(a.remove(0).to_multiset() == a.to_multiset().remove(a[0]));
        assert(b.remove(0).to_multiset() == b.to_multiset().remove(b[0]));
        lemma_sorted_unique(a.drop_first(), b.drop_first());
        assert forall|i: int| 0 <= i < a.len() implies a[i] == b[i] by {
            if i > 0 {
                assert(a[i] == a.drop_first()[i - 1]);
                assert(b[i] == b.drop_first()[i - 1]);
            }
        }
        assert(a =~= b);
    }
}

/// A custom sound file of a map.
#[derive(Clone, Debug)]
pub struct CustomAudioSampleInfo {
    pub path: String,
    pub unaffected_by_rate: bool,
}

/// An editor layer of a map.
#[derive(Clone, Debug)]
pub struct EditorLayerInfo {
    pub name: String,
    pub hidden: bool,
    pub color_rgb: String,
}

/// The library's view of a map: its key layout and its notes.
#[derive(Clone, Debug)]
pub struct QuaverMap {
    pub mode: GameMode,
    pub has_scratch_key: bool,
    pub hit_objects: Vec<HitObjectInfo>,
}

pub open spec fn key_count_of(mode: GameMode, has_scratch_key: bool, include_scratch: bool) -> int {
    mode.key_count_spec() + if has_scratch_key && include_scratch {
        1int
    } else {
        0int
    }
}

pub open spec fn lanes_in_range(s: Seq<HitObjectInfo>, key_count: int) -> bool {
    forall|i: int| 0 <= i < s.len() ==> 1 <= #[trigger] s[i].lane <= key_count
}

pub open spec fn mirror_lane(lane: i32, key_count: int) -> i32 {
    (key_count - lane + 1) as i32
}

pub open spec fn mirrored(s: Seq<HitObjectInfo>, key_count: int) -> Seq<HitObjectInfo> {
    s.map_values(
        |h: HitObjectInfo| HitObjectInfo { lane: mirror_lane(h.lane, key_count), ..h },
    )
}

/// Mirroring the lanes twice gives back every note as it was.
pub proof fn lemma_mirror_involution(s: Seq<HitObjectInfo>, key_count: int)
    requires
        lanes_in_range(s, key_count),
        0 <= key_count <= 100,
    ensures
        mirrored(mirrored(s, key_count), key_count) == s,
{
    assert(mirrored(mirrored(s, key_count), key_count) =~= s);
}

pub open spec fn without_long_notes(s: Seq<HitObjectInfo>) -> Seq<HitObjectInfo> {
    s.map_values(|h: HitObjectInfo| HitObjectInfo { end_time: 0, ..h })
}

/// The time at which the last note starts or ends.
pub open spec fn map_length(s: Seq<HitObjectInfo>) -> int
    decreases s.len(),
{
    if s.len() == 0 {
        0
    } else {
        let last = s.last();
        let here: int = if last.start_time >= last.end_time {
            last.start_time as int
        } else {
            last.end_time as int
        };
        let rest = map_length(s.drop_last());
        if s.len() == 1 || here > rest {
            here
        } else {
            rest
        }
    }
}

/// Judgements that a map awards: one per tap, two per long note.
pub open spec fn judgement_count(s: Seq<HitObjectInfo>) -> int
    decreases s.len(),
{
    if s.len() == 0 {
        0
    } else {
        judgement_count(s.drop_last()) + if s.last().is_long_note_spec() {
            2int
        } else {
            1int
        }
    }
}

pub proof fn lemma_judgement_count_bounds(s: Seq<HitObjectInfo>)
    ensures
        s.len() <= judgement_count(s) <= 2 * s.len(),
    decreases s.len(),
{
    if s.len() > 0 {
        lemma_judgement_count_bounds(s.drop_last());
    }
}

impl QuaverMap {
    pub open spec fn key_count_spec(&self, include_scratch: bool) -> int {
        key_count_of(self.mode, self.has_scratch_key, include_scratch)
    }

    /// Number of lanes, with the scratch lane unless `include_scratch` is `Some(false)`.
    pub fn get_key_count(&self, include_scratch: Option<bool>) -> (r: i32)
        ensures
            r as int == self.key_count_spec(
                match include_scratch {
                    Some(b) => b,
                    None => true,
                },
            ),
    {
        let mut count: i32 = match self.mode {
            GameMode::Keys4 => 4,
            GameMode::Keys7 => 7,
        };
        let with_scratch = match include_scratch {
            Some(b) => b,
            None => true,
        };
        if self.has_scratch_key && with_scratch {
            count = count + 1;
        }
        count
    }

    /// Puts the notes in the library's order.
    pub fn sort(&mut self)
        ensures
            is_sorted(final(self).hit_objects@),
            final(self).hit_objects@.to_multiset() == old(self).hit_objects@.to_multiset(),
            final(self).mode == old(self).mode,
            final(self).has_scratch_key == old(self).has_scratch_key,
    {
        self.hit_objects = sort_hit_objects(&self.hit_objects);
    }

    /// The time at which the last note starts or ends, 0 for a map without notes.
    pub fn length(&self) -> (r: i32)
        ensures
            r as int == map_length(self.hit_objects@),
    {
        let mut best: i32 = 0;
        let mut i: usize = 0;
        while i < self.hit_objects.len()
            invariant
                i <= self.hit_objects.len(),
                best as int == map_length(self.hit_objects@.take(i as int)),
            decreases self.hit_objects.len() - i,
        {
            let h = self.hit_objects[i];
            let here = if h.start_time >= h.end_time {
                h.start_time
            } else {
                h.end_time
            };
            assert(self.hit_objects@.take(i as int + 1).drop_last() =~= self.hit_objects@.take(
                i as int,
            ));
            if i == 0 || here > best {
                best = here;
            }
            i = i + 1;
        }
        assert(self.hit_objects@.take(i as int) =~= self.hit_objects@);
        best
    }

    /// Judgements the map awards: one per tap note and two per long note.
    pub fn get_total_judgement_count(&self) -> (r: i64)
        requires
            self.hit_objects.len() <= u32::MAX,
        ensures
            r as int == judgement_count(self.hit_objects@),
    {
        let mut total: i64 = 0;
        let mut i: usize = 0;
        while i < self.hit_objects.len()
            invariant
                i <= self.hit_objects.len(),
                self.hit_objects.len() <= u32::MAX,
                total as int == judgement_count(self.hit_objects@.take(i as int)),
            decreases self.hit_objects.len() - i,
        {
            proof {
                lemma_judgement_count_bounds(self.hit_objects@.take(i as int));
            }
            assert(self.hit_objects@.take(i as int + 1).drop_last() =~= self.hit_objects@.take(
                i as int,
            ));
            if self.hit_objects[i].end_time > 0 {
                total = total + 2;
            } else {
                total = total + 1;
            }
            i = i + 1;
        }
        assert(self.hit_objects@.take(i as int) =~= self.hit_objects@);
        total
    }

    /// Mirrors every note across the lanes: lane `l` becomes `key_count - l + 1`.
    pub fn mirror_hit_objects(&mut self)
        requires
            lanes_in_range(old(self).hit_objects@, old(self).key_count_spec(true)),
        ensures
            final(self).hit_objects@ == mirrored(
                old(self).hit_objects@,
                old(self).key_count_spec(true),
            ),
            final(self).mode == old(self).mode,
            final(self).has_scratch_key == old(self).has_scratch_key,
    {
        let key_count = self.get_key_count(None);
        let ghost kc = self.key_count_spec(true);
        let ghost orig = self.hit_objects@;
        let mut i: usize = 0;
        while i < self.hit_objects.len()
            invariant
                i <= self.hit_objects.len(),
                self.hit_objects.len() == orig.len(),
                self.mode == old(self).mode,
                self.has_scratch_key == old(self).has_scratch_key,
                key_count as int == kc,
                lanes_in_range(orig, kc),
                forall|k: int| 0 <= k < i ==> #[trigger] self.hit_objects@[k] == mirrored(orig, kc)[k],
                forall|k: int| i <= k < orig.len() ==> #[trigger] self.hit_objects@[k] == orig[k],
            decreases self.hit_objects.len() - i,
        {
            let mut h = self.hit_objects[i];
            assert(1 <= orig[i as int].lane <= kc);
            h.lane = key_count - h.lane + 1;
            self.hit_objects.set(i, h);
            i = i + 1;
        }
        assert(self.hit_objects@ =~= mirrored(orig, kc));
    }

    /// Turns every long note into a tap note.
    pub fn replace_long_notes_with_regular_notes(&mut self)
        ensures
            final(self).hit_objects@ == without_long_notes(old(self).hit_objects@),
            final(self).mode == old(self).mode,
            final(self).has_scratch_key == old(self).has_scratch_key,
    {
        let ghost orig = self.hit_objects@;
        let mut i: usize = 0;
        while i < self.hit_objects.len()
            invariant
                i <= self.hit_objects.len(),
                self.hit_objects.len() == orig.len(),
                self.mode == old(self).mode,
                self.has_scratch_key == old(self).has_scratch_key,
                forall|k: int| 0 <= k < i ==> #[trigger] self.hit_objects@[k] == without_long_notes(orig)[k],
                forall|k: int| i <= k < orig.len() ==> #[trigger] self.hit_objects@[k] == orig[k],
            decreases self.hit_objects.len() - i,
        {
            let mut h = self.hit_objects[i];
            h.end_time = 0;
            self.hit_objects.set(i, h);
            i = i + 1;
        }
        assert(self.hit_objects@ =~= without_long_notes(orig));
    }
}

} // verus!

verus! {

/// A timing section as the inverse modifier reads it: where it starts, and a sixteenth
/// of a beat of its tempo, in whole milliseconds.
#[derive(Clone, Copy, Debug, PartialEq, Eq, Structural)]
pub struct TimingGap {
    pub start_time: i32,
    pub sixteenth_ms: i32,
}

pub const MINIMAL_LN_LENGTH: i32 = 36;

pub const MINIMAL_GAP_LENGTH: i32 = 36;

/// Index of the last section among the first `n` that starts at or before `t`, or -1.
pub open spec fn last_at_or_before(tps: Seq<TimingGap>, t: int, n: int) -> int
    decreases n,
{
    if n <= 0 {
        -1
    } else if tps[n - 1].start_time <= t {
        n - 1
    } else {
        last_at_or_before(tps, t, n - 1)
    }
}

/// Index of the last section among the first `n` that starts before `t`, or -1.
pub open spec fn last_before(tps: Seq<TimingGap>, t: int, n: int) -> int
    decreases n,
{
    if n <= 0 {
        -1
    } else if tps[n - 1].start_time < t {
        n - 1
    } else {
        last_before(tps, t, n - 1)
    }
}

/// The gap left before a note at `t`: a sixteenth of the beat of the section it falls in,
/// or of the section before when a section starts right on the note, and at least the
/// minimal gap.
pub open spec fn gap_at(tps: Seq<TimingGap>, t: int) -> int {
    let i = last_at_or_before(tps, t, tps.len() as int);
    let tp = if i < 0 {
        tps[0]
    } else {
        tps[i]
    };
    let sixteenth = if tp.start_time == t {
        let p = last_before(tps, tp.start_time as int, tps.len() as int);
        if p < 0 {
            tps[0].sixteenth_ms
        } else {
            tps[p].sixteenth_ms
        }
    } else {
        tp.sixteenth_ms
    };
    if sixteenth > MINIMAL_GAP_LENGTH {
        sixteenth as int
    } else {
        MINIMAL_GAP_LENGTH as int
    }
}

pub open spec fn gaps_valid(tps: Seq<TimingGap>) -> bool {
    &&& tps.len() > 0
    &&& forall|i: int| 0 <= i < tps.len() ==> 0 <= #[trigger] tps[i].sixteenth_ms <= 1_000_000
}

fn last_at_or_before_exec(tps: &Vec<TimingGap>, t: i32, strict: bool) -> (r: Option<usize>)
    ensures
        ({
            let spec_r = if strict {
                last_before(tps@, t as int, tps@.len() as int)
            } else {
                last_at_or_before(tps@, t as int, tps@.len() as int)
            };
            match r {
                Some(k) => spec_r == k as int && k < tps@.len(),
                None => spec_r == -1,
            }
        }),
{
    let mut n: usize = tps.len();
    while n > 0
        invariant
            n <= tps@.len(),
            strict ==> last_before(tps@, t as int, tps@.len() as int) == last_before(tps@, t as int, n as int),
            !strict ==> last_at_or_before(tps@, t as int, tps@.len() as int) == last_at_or_before(tps@, t as int, n as int),
        decreases n,
    {
        let s = tps[n - 1].start_time;
        if (strict && s < t) || (!strict && s <= t) {
            return Some(n - 1);
        }
        n = n - 1;
    }
    None
}

pub fn time_gap_at(tps: &Vec<TimingGap>, t: i32) -> (r: i32)
    requires
        gaps_valid(tps@),
    ensures
        r as int == gap_at(tps@, t as int),
{
    let tp = match last_at_or_before_exec(tps, t, false) {
        Some(i) => tps[i],
        None => tps[0],
    };
    let sixteenth = if tp.start_time == t {
        match last_at_or_before_exec(tps, tp.start_time, true) {
            Some(p) => tps[p].sixteenth_ms,
            None => tps[0].sixteenth_ms,
        }
    } else {
        tp.sixteenth_ms
    };
    if sixteenth > MINIMAL_GAP_LENGTH {
        sixteenth
    } else {
        MINIMAL_GAP_LENGTH
    }
}

/// Index of the first note at or after `from` in `lane`, or the length when none is.
pub open spec fn first_in_lane_from(s: Seq<HitObjectInfo>, lane: i32, from: int) -> int
    decreases s.len() - from,
{
    if from >= s.len() {
        s.len() as int
    } else if s[from].lane == lane {
        from
    } else {
        first_in_lane_from(s, lane, from + 1)
    }
}

pub open spec fn has_earlier_in_lane(s: Seq<HitObjectInfo>, i: int) -> bool {
    exists|j: int| 0 <= j < i && s[j].lane == s[i].lane
}

/// What the inverse modifier makes of note `i`: the gaps between notes of a lane become
/// the holds. `None` drops the note.
pub open spec fn inverse_note(s: Seq<HitObjectInfo>, tps: Seq<TimingGap>, i: int) -> Option<HitObjectInfo> {
    let cur = s[i];
    let n = first_in_lane_from(s, cur.lane, i + 1);
    let has_next = n < s.len();
    let has_second = has_next && first_in_lane_from(s, cur.lane, n + 1) < s.len();
    if !has_next && !has_earlier_in_lane(s, i) {
        Some(cur)
    } else if cur.is_long_note_spec() {
        if has_next {
            let next = s[n];
            let end = if (!has_second) != next.is_long_note_spec() {
                next.start_time as int
            } else {
                next.start_time - gap_at(tps, next.start_time as int)
            };
            if end - cur.end_time < MINIMAL_LN_LENGTH {
                None
            } else {
                Some(HitObjectInfo { start_time: cur.end_time, lane: cur.lane, end_time: end as i32 })
            }
        } else {
            Some(cur)
        }
    } else if !has_next {
        None
    } else {
        let next = s[n];
        let end = if (!has_second) == (next.end_time == 0) {
            next.start_time as int
        } else {
            next.start_time - gap_at(tps, next.start_time as int)
        };
        if end - cur.start_time < MINIMAL_LN_LENGTH {
            None
        } else {
            Some(HitObjectInfo { start_time: cur.start_time, lane: cur.lane, end_time: end as i32 })
        }
    }
}

/// The notes that the inverse modifier keeps, from the first `n`.
pub open spec fn inverse_kept(s: Seq<HitObjectInfo>, tps: Seq<TimingGap>, n: int) -> Seq<HitObjectInfo>
    decreases n,
{
    if n <= 0 {
        Seq::empty()
    } else {
        match inverse_note(s, tps, n - 1) {
            Some(h) => inverse_kept(s, tps, n - 1).push(h),
            None => inverse_kept(s, tps, n - 1),
        }
    }
}

fn first_in_lane_exec(s: &Vec<HitObjectInfo>, lane: i32, from: usize) -> (r: usize)
    requires
        from <= s@.len(),
    ensures
        r as int == first_in_lane_from(s@, lane, from as int),
        from <= r <= s@.len(),
{
    let mut j: usize = from;
    while j < s.len()
        invariant
            from <= j <= s@.len(),
            first_in_lane_from(s@, lane, from as int) == first_in_lane_from(s@, lane, j as int),
        decreases s@.len() - j,
    {
        if s[j].lane == lane {
            return j;
        }
        j = j + 1;
    }
    j
}

fn has_earlier_exec(s: &Vec<HitObjectInfo>, i: usize) -> (r: bool)
    requires
        i < s@.len(),
    ensures
        r == has_earlier_in_lane(s@, i as int),
{
    let mut j: usize = 0;
    while j < i
        invariant
            j <= i < s@.len(),
            forall|k: int| 0 <= k < j ==> s@[k].lane != s@[i as int].lane,
        decreases i - j,
    {
        if s[j].lane == s[i].lane {
            return true;
        }
        j = j + 1;
    }
    false
}

fn inverse_note_exec(s: &Vec<HitObjectInfo>, tps: &Vec<TimingGap>, i: usize) -> (r: Option<HitObjectInfo>)
    requires
        i < s@.len(),
        valid_notes(s@),
        gaps_valid(tps@),
    ensures
        r == inverse_note(s@, tps@, i as int),
{
    let len = s.len();
    let cur = s[i];
    let n = first_in_lane_exec(s, cur.lane, i + 1);
    let has_next = n < s.len();
    let has_second = has_next && first_in_lane_exec(s, cur.lane, n + 1) < s.len();
    if !has_next && !has_earlier_exec(s, i) {
        return Some(cur);
    }
    if cur.end_time > 0 {
        if has_next {
            let next = s[n];
            let end: i64 = if (!has_second) != (next.end_time > 0) {
                next.start_time as i64
            } else {
                next.start_time as i64 - time_gap_at(tps, next.start_time) as i64
            };
            if end - (cur.end_time as i64) < MINIMAL_LN_LENGTH as i64 {
                None
            } else {
                Some(HitObjectInfo { start_time: cur.end_time, lane: cur.lane, end_time: end as i32 })
            }
        } else {
            Some(cur)
        }
    } else if !has_next {
        None
    } else {
        let next = s[n];
        let end: i64 = if (!has_second) == (next.end_time == 0) {
            next.start_time as i64
        } else {
            next.start_time as i64 - time_gap_at(tps, next.start_time) as i64
        };
        if end - (cur.start_time as i64) < MINIMAL_LN_LENGTH as i64 {
            None
        } else {
            Some(HitObjectInfo { start_time: cur.start_time, lane: cur.lane, end_time: end as i32 })
        }
    }
}

impl QuaverMap {
    /// The inverse modifier: each note becomes a hold over the gap to the next note of its
    /// lane, ending a sixteenth of a beat before it (right on it where the lane's pattern
    /// asks for that). A hold shorter than the minimal length is dropped, as is a tap that
    /// closes its lane; a note alone in its lane stays as it is. The notes come out sorted.
    pub fn apply_inverse(&mut self, tps: &Vec<TimingGap>)
        requires
            valid_notes(old(self).hit_objects@),
            gaps_valid(tps@),
        ensures
            is_sorted(final(self).hit_objects@),
            final(self).hit_objects@.to_multiset() == inverse_kept(
                old(self).hit_objects@,
                tps@,
                old(self).hit_objects@.len() as int,
            ).to_multiset(),
            final(self).mode == old(self).mode,
            final(self).has_scratch_key == old(self).has_scratch_key,
    {
        let ghost s = self.hit_objects@;
        let mut kept: Vec<HitObjectInfo> = Vec::new();
        let mut i: usize = 0;
        while i < self.hit_objects.len()
            invariant
                i <= s.len(),
                s == self.hit_objects@,
                valid_notes(s),
                gaps_valid(tps@),
                kept@ == inverse_kept(s, tps@, i as int),
            decreases s.len() - i,
        {
            match inverse_note_exec(&self.hit_objects, tps, i) {
                Some(h) => kept.push(h),
                None => {},
            }
            i = i + 1;
        }
        self.hit_objects = sort_hit_objects(&kept);
    }
}

} // verus!

verus! {

/// Sorting keeps the notes, so it keeps what holds of every note.
pub proof fn lemma_sorted_notes_valid(orig: Seq<HitObjectInfo>, sorted: Seq<HitObjectInfo>, kc: int)
    requires
        sorted.to_multiset() == orig.to_multiset(),
        lanes_in_range(orig, kc),
        valid_notes(orig),
    ensures
        lanes_in_range(sorted, kc),
        valid_notes(sorted),
        sorted.len() == orig.len(),
{
    assert forall|i: int| 0 <= i < sorted.len() implies orig.contains(#[trigger] sorted[i]) by {
        to_multiset_contains(sorted, sorted[i]);
        to_multiset_contains(orig, sorted[i]);
    }
    assert forall|i: int| 0 <= i < sorted.len() implies 1 <= #[trigger] sorted[i].lane <= kc && 0
        <= sorted[i].start_time && (sorted[i].end_time == 0 || sorted[i].end_time
        > sorted[i].start_time) by {
        assert(orig.contains(sorted[i]));
        let j = choose|j: int| 0 <= j < orig.len() && orig[j] == sorted[i];
        assert(1 <= orig[j].lane <= kc);
    }
    to_multiset_len(sorted);
    to_multiset_len(orig);
}

/// The notes `fin` come from `start` through the modifier steps, `s2` being the notes
/// after the inverse step and `s3` those after the full long-note step.
pub open spec fn mod_steps(
    start: Seq<HitObjectInfo>,
    s2: Seq<HitObjectInfo>,
    s3: Seq<HitObjectInfo>,
    fin: Seq<HitObjectInfo>,
    mods: ModIdentifier,
    tps: Seq<TimingGap>,
    kc: int,
) -> bool {
    let s1 = if has_flag(mods.bits, NO_LONG_NOTES) {
        without_long_notes(start)
    } else {
        start
    };
    &&& if has_flag(mods.bits, INVERSE) {
        inverted(s1, s2, tps)
    } else {
        s2 == s1
    }
    &&& if has_flag(mods.bits, FULL_LN) {
        inverted(without_long_notes(s2), s3, tps)
    } else {
        s3 == s2
    }
    &&& fin == if has_flag(mods.bits, MIRROR) {
        mirrored(s3, kc)
    } else {
        s3
    }
}

/// `y` is what the inverse modifier makes of `x`: its kept notes, sorted.
pub open spec fn inverted(x: Seq<HitObjectInfo>, y: Seq<HitObjectInfo>, tps: Seq<TimingGap>) -> bool {
    is_sorted(y) && y.to_multiset() == inverse_kept(x, tps, x.len() as int).to_multiset()
}

proof fn lemma_inverse_kept_has(s: Seq<HitObjectInfo>, tps: Seq<TimingGap>, n: int, i: int)
    requires
        0 <= i < n,
        inverse_note(s, tps, i).is_some(),
    ensures
        inverse_kept(s, tps, n).contains(inverse_note(s, tps, i).unwrap()),
    decreases n,
{
    if i < n - 1 {
        lemma_inverse_kept_has(s, tps, n - 1, i);
        let prev = inverse_kept(s, tps, n - 1);
        let k = choose|k: int| 0 <= k < prev.len() && prev[k] == inverse_note(s, tps, i).unwrap();
        match inverse_note(s, tps, n - 1) {
            Some(h) => {
                assert(inverse_kept(s, tps, n)[k] == prev[k]);
            },
            None => {},
        }
    } else {
        let kept = inverse_kept(s, tps, n);
        assert(kept[kept.len() - 1] == inverse_note(s, tps, i).unwrap());
    }
}

/// A tap followed in its lane by another tap and then a further note becomes a hold from
/// its start to a sixteenth of a beat (at least the minimal gap) before the next tap, and
/// the inverse modifier's result holds it, when that hold is long enough.
pub proof fn lemma_inverse_tap_becomes_hold(
    s: Seq<HitObjectInfo>,
    tps: Seq<TimingGap>,
    i: int,
    fin: Seq<HitObjectInfo>,
)
    requires
        0 <= i < s.len(),
        s[i].end_time == 0,
        first_in_lane_from(s, s[i].lane, i + 1) < s.len(),
        s[first_in_lane_from(s, s[i].lane, i + 1)].end_time == 0,
        first_in_lane_from(s, s[i].lane, first_in_lane_from(s, s[i].lane, i + 1) + 1) < s.len(),
        s[first_in_lane_from(s, s[i].lane, i + 1)].start_time - gap_at(
            tps,
            s[first_in_lane_from(s, s[i].lane, i + 1)].start_time as int,
        ) - s[i].start_time >= MINIMAL_LN_LENGTH,
        inverted(s, fin, tps),
    ensures
        fin.contains(
            HitObjectInfo {
                start_time: s[i].start_time,
                lane: s[i].lane,
                end_time: (s[first_in_lane_from(s, s[i].lane, i + 1)].start_time - gap_at(
                    tps,
                    s[first_in_lane_from(s, s[i].lane, i + 1)].start_time as int,
                )) as i32,
            },
        ),
{
    broadcast use vstd::seq_lib::group_to_multiset_ensures;

    let h = inverse_note(s, tps, i).unwrap();
    lemma_inverse_kept_has(s, tps, s.len() as int, i);
    let kept = inverse_kept(s, tps, s.len() as int);
    assert(kept.to_multiset().count(h) > 0);
    assert(fin.to_multiset().count(h) > 0);
}

/// A tap whose hold up to the next note of its lane would be shorter than the minimal
/// length is dropped by the inverse modifier.
pub proof fn lemma_inverse_drops_short_hold(s: Seq<HitObjectInfo>, tps: Seq<TimingGap>, i: int)
    requires
        0 <= i < s.len(),
        s[i].end_time == 0,
        first_in_lane_from(s, s[i].lane, i + 1) < s.len(),
        ({
            let n = first_in_lane_from(s, s[i].lane, i + 1);
            let has_second = first_in_lane_from(s, s[i].lane, n + 1) < s.len();
            let end = if (!has_second) == (s[n].end_time == 0) {
                s[n].start_time as int
            } else {
                s[n].start_time - gap_at(tps, s[n].start_time as int)
            };
            end - s[i].start_time < MINIMAL_LN_LENGTH
        }),
    ensures
        inverse_note(s, tps, i).is_none(),
{
}

proof fn lemma_inverse_kept_valid(s: Seq<HitObjectInfo>, tps: Seq<TimingGap>, n: int, kc: int)
    requires
        0 <= n <= s.len(),
        valid_notes(s),
        lanes_in_range(s, kc),
    ensures
        valid_notes(inverse_kept(s, tps, n)),
        lanes_in_range(inverse_kept(s, tps, n), kc),
    decreases n,
{
    if n > 0 {
        lemma_inverse_kept_valid(s, tps, n - 1, kc);
        assert(0 <= s[n - 1].start_time);
        assert(1 <= s[n - 1].lane <= kc);
    }
}

impl QuaverMap {
    /// Applies play modifiers in order: no long notes, inverse, full long notes (no long
    /// notes, then inverse), mirror. The contract names the notes after each step.
    pub fn apply_mods(&mut self, mods: ModIdentifier, tps: &Vec<TimingGap>)
        requires
            valid_notes(old(self).hit_objects@),
            lanes_in_range(old(self).hit_objects@, old(self).key_count_spec(true)),
            has_flag(mods.bits, INVERSE) || has_flag(mods.bits, FULL_LN) ==> gaps_valid(tps@),
        ensures
            final(self).mode == old(self).mode,
            final(self).has_scratch_key == old(self).has_scratch_key,
            valid_notes(final(self).hit_objects@),
            lanes_in_range(final(self).hit_objects@, old(self).key_count_spec(true)),
            exists|s2: Seq<HitObjectInfo>, s3: Seq<HitObjectInfo>|
                #[trigger] mod_steps(
                    old(self).hit_objects@,
                    s2,
                    s3,
                    final(self).hit_objects@,
                    mods,
                    tps@,
                    old(self).key_count_spec(true),
                ),
    {
        let ghost kc = self.key_count_spec(true);
        if mods.contains(NO_LONG_NOTES) {
            self.replace_long_notes_with_regular_notes();
        }
        let ghost s1 = self.hit_objects@;
        if mods.contains(INVERSE) {
            let ghost before = self.hit_objects@;
            self.apply_inverse(tps);
            proof {
                lemma_inverse_kept_valid(before, tps@, before.len() as int, kc);
                lemma_sorted_notes_valid(inverse_kept(before, tps@, before.len() as int), self.hit_objects@, kc);
            }
        }
        let ghost s2 = self.hit_objects@;
        if mods.contains(FULL_LN) {
            self.replace_long_notes_with_regular_notes();
            let ghost before = self.hit_objects@;
            self.apply_inverse(tps);
            proof {
                lemma_inverse_kept_valid(before, tps@, before.len() as int, kc);
                lemma_sorted_notes_valid(inverse_kept(before, tps@, before.len() as int), self.hit_objects@, kc);
            }
        }
        let ghost s3 = self.hit_objects@;
        if mods.contains(MIRROR) {
            self.mirror_hit_objects();
        }
        assert(s1 == if has_flag(mods.bits, NO_LONG_NOTES) {
            without_long_notes(old(self).hit_objects@)
        } else {
            old(self).hit_objects@
        });
        assert(if has_flag(mods.bits, INVERSE) {
            inverted(s1, s2, tps@)
        } else {
            s2 == s1
        });
        assert(if has_flag(mods.bits, FULL_LN) {
            inverted(without_long_notes(s2), s3, tps@)
        } else {
            s3 == s2
        });
        assert(self.hit_objects@ == if has_flag(mods.bits, MIRROR) {
            mirrored(s3, kc)
        } else {
            s3
        });
        assert(mod_steps(old(self).hit_objects@, s2, s3, self.hit_objects@, mods, tps@, kc));
    }
}

} // verus!

verus! {

/// Whether the inverse modifier can read the timing sections.
pub fn gaps_valid_exec(tps: &Vec<TimingGap>) -> (r: bool)
    ensures
        r == gaps_valid(tps@),
{
    if tps.len() == 0 {
        return false;
    }
    let mut i: usize = 0;
    while i < tps.len()
        invariant
            i <= tps@.len(),
            forall|k: int| 0 <= k < i ==> 0 <= #[trigger] tps@[k].sixteenth_ms <= 1_000_000,
        decreases tps@.len() - i,
    {
        if tps[i].sixteenth_ms < 0 || tps[i].sixteenth_ms > 1_000_000 {
            return false;
        }
        i = i + 1;
    }
    true
}

impl QuaverMap {
    /// Whether every note lies in a lane of the map, starts at or after zero, and is a
    /// tap or a long note that ends after it starts.
    pub fn is_valid(&self) -> (r: bool)
        ensures
            r == (valid_notes(self.hit_objects@) && lanes_in_range(
                self.hit_objects@,
                self.key_count_spec(true),
            )),
    {
        let key_count = self.get_key_count(None);
        let mut i: usize = 0;
        while i < self.hit_objects.len()
            invariant
                i <= self.hit_objects@.len(),
                key_count as int == self.key_count_spec(true),
                forall|k: int|
                    0 <= k < i ==> 1 <= #[trigger] self.hit_objects@[k].lane <= key_count && 0
                        <= self.hit_objects@[k].start_time && (self.hit_objects@[k].end_time == 0
                        || self.hit_objects@[k].end_time > self.hit_objects@[k].start_time),
            decreases self.hit_objects@.len() - i,
        {
            let h = self.hit_objects[i];
            if h.lane < 1 || h.lane > key_count || h.start_time < 0 || !(h.end_time == 0
                || h.end_time > h.start_time) {
                return false;
            }
            i = i + 1;
        }
        assert forall|k: int| 0 <= k < self.hit_objects@.len() implies 1 <= #[trigger] self.hit_objects@[k].lane <= self.key_count_spec(true) by {}
        assert forall|k: int| 0 <= k < self.hit_objects@.len() implies 0 <= (#[trigger] self.hit_objects@[k]).start_time && (self.hit_objects@[k].end_time == 0
            || self.hit_objects@[k].end_time > self.hit_objects@[k].start_time) by {
            assert(1 <= self.hit_objects@[k].lane);
        }
        true
    }
}

} // verus!

verus! {

/// The times at which a map asks for a key action: each note's start, and each long
/// note's end.
pub open spec fn actions_of(s: Seq<HitObjectInfo>) -> Seq<i32>
    decreases s.len(),
{
    if s.len() == 0 {
        Seq::empty()
    } else {
        let h = s.last();
        let with_start = actions_of(s.drop_last()).push(h.start_time);
        if h.end_time > 0 {
            with_start.push(h.end_time)
        } else {
            with_start
        }
    }
}

pub open spec fn times_sorted(a: Seq<i32>) -> bool {
    forall|i: int, j: int| 0 <= i < j < a.len() ==> a[i] <= a[j]
}

/// Playing time of sorted action times: the gaps between them, breaks of a second or
/// more left out.
pub open spec fn drain_length(a: Seq<i32>) -> int
    decreases a.len(),
{
    if a.len() <= 1 {
        0
    } else {
        let d = a.last() - a[a.len() - 2];
        drain_length(a.drop_last()) + if d >= 1000 {
            0
        } else {
            d
        }
    }
}

/// Two sorted sequences of the same times are the same sequence.
pub proof fn lemma_times_sorted_unique(a: Seq<i32>, b: Seq<i32>)
    requires
        times_sorted(a),
        times_sorted(b),
        a.to_multiset() == b.to_multiset(),
    ensures
        a == b,
    decreases a.len(),
{
    broadcast use group_to_multiset_ensures;

    assert(a.to_multiset().len() == a.len());
    assert(b.to_multiset().len() == b.len());
    if a.len() == 0 {
        assert(a =~= b);
    } else {
        assert(b.to_multiset().count(a[0]) > 0);
        assert(b.contains(a[0]));
        let k = choose|k: int| 0 <= k < b.len() && b[k] == a[0];
        assert(b[0] <= b[k]);
        assert(a.to_multiset().count(b[0]) > 0);
        assert(a.contains(b[0]));
        let m = choose|m: int| 0 <= m < a.len() && a[m] == b[0];
        assert(a[0] <= a[m]);
        assert(a.remove(0) =~= a.drop_first());
        assert(b.remove(0) =~= b.drop_first());
        assert(a.remove(0).to_multiset() == a.to_multiset().remove(a[0]));
        assert(b.remove(0).to_multiset() == b.to_multiset().remove(b[0]));
        lemma_times_sorted_unique(a.drop_first(), b.drop_first());
        assert forall|i: int| 0 <= i < a.len() implies a[i] == b[i] by {
            if i > 0 {
                assert(a[i] == a.drop_first()[i - 1]);
                assert(b[i] == b.drop_first()[i - 1]);
            }
        }
        assert(a =~= b);
    }
}

/// The map's playing time: the drain length of its action times in order.
pub open spec fn playing_time(s: Seq<HitObjectInfo>) -> int {
    drain_length(
        choose|p: Seq<i32>| times_sorted(p) && p.to_multiset() == actions_of(s).to_multiset(),
    )
}

proof fn lemma_actions_len(s: Seq<HitObjectInfo>)
    ensures
        actions_of(s).len() <= 2 * s.len(),
    decreases s.len(),
{
    if s.len() > 0 {
        lemma_actions_len(s.drop_last());
    }
}

proof fn lemma_drain_bounds(a: Seq<i32>)
    requires
        times_sorted(a),
    ensures
        0 <= drain_length(a) <= 1000 * a.len(),
    decreases a.len(),
{
    if a.len() > 1 {
        assert(times_sorted(a.drop_last()));
        lemma_drain_bounds(a.drop_last());
        assert(a[a.len() - 2] <= a.last());
    }
}

pub(crate) fn sort_times(v: &Vec<i32>) -> (r: Vec<i32>)
    ensures
        times_sorted(r@),
        r@.to_multiset() == v@.to_multiset(),
{
    broadcast use group_to_multiset_ensures;

    let mut r: Vec<i32> = Vec::new();
    let mut i: usize = 0;
    assert(v@.take(0) =~= Seq::<i32>::empty());
    while i < v.len()
        invariant
            i <= v.len(),
            times_sorted(r@),
            r@.to_multiset() == v@.take(i as int).to_multiset(),
        decreases v.len() - i,
    {
        let x = v[i];
        let mut p: usize = 0;
        while p < r.len() && r[p] <= x
            invariant
                p <= r.len(),
                forall|k: int| 0 <= k < p ==> #[trigger] r@[k] <= x,
            decreases r.len() - p,
        {
            p = p + 1;
        }
        let ghost old_r = r@;
        r.insert(p, x);
        assert(times_sorted(r@)) by {
            assert forall|a: int, b: int| 0 <= a < b < r@.len() implies r@[a] <= r@[b] by {
                if a < p as int && b == p as int {
                } else if a == p as int {
                    assert(x <= old_r[b - 1]);
                } else if a < p as int {
                    assert(old_r[a] <= old_r[b - 1]);
                } else {
                    assert(old_r[a - 1] <= old_r[b - 1]);
                }
            }
        }
        assert(v@.take(i as int + 1) =~= v@.take(i as int).push(x));
        proof {
            to_multiset_insert(old_r, p as int, x);
            to_multiset_build(v@.take(i as int), x);
        }
        i = i + 1;
    }
    assert(v@.take(v.len() as int) =~= v@);
    r
}

impl QuaverMap {
    /// Key actions per second as `(actions, playing time in ms)`: the actions per
    /// `playing time / 1000` seconds, where the playing time leaves out breaks of a second
    /// or more.
    pub fn get_actions_per_second(&self) -> (r: (u32, u32))
        requires
            self.hit_objects@.len() <= 1_000_000,
        ensures
            r.0 as int == actions_of(self.hit_objects@).len(),
            r.1 as int == playing_time(self.hit_objects@),
    {
        let ghost s = self.hit_objects@;
        let mut actions: Vec<i32> = Vec::new();
        let mut i: usize = 0;
        while i < self.hit_objects.len()
            invariant
                i <= s.len(),
                s == self.hit_objects@,
                actions@ == actions_of(s.take(i as int)),
            decreases s.len() - i,
        {
            let h = self.hit_objects[i];
            assert(s.take(i as int + 1).drop_last() =~= s.take(i as int));
            actions.push(h.start_time);
            if h.end_time > 0 {
                actions.push(h.end_time);
            }
            i = i + 1;
        }
        assert(s.take(i as int) =~= s);
        proof {
            lemma_actions_len(s);
        }
        let sorted = sort_times(&actions);
        proof {
            to_multiset_len(sorted@);
            to_multiset_len(actions@);
            lemma_drain_bounds(sorted@);
            let p = choose|p: Seq<i32>| times_sorted(p) && p.to_multiset() == actions_of(s).to_multiset();
            assert(times_sorted(sorted@) && sorted@.to_multiset() == actions_of(s).to_multiset());
            lemma_times_sorted_unique(p, sorted@);
            assert(playing_time(s) == drain_length(sorted@));
        }
        if sorted.len() == 0 {
            return (actions.len() as u32, 0);
        }
        let mut length: u64 = 0;
        let mut k: usize = 1;
        assert(drain_length(sorted@.take(1)) == 0);
        while k < sorted.len()
            invariant
                1 <= k <= sorted@.len(),
                sorted@.len() <= 2_000_000,
                times_sorted(sorted@),
                length as int == drain_length(sorted@.take(k as int)),
            decreases sorted@.len() - k,
        {
            let d = sorted[k] as i64 - sorted[k - 1] as i64;
            assert(sorted@.take(k as int + 1).drop_last() =~= sorted@.take(k as int));
            assert(times_sorted(sorted@.take(k as int)));
            proof {
                lemma_drain_bounds(sorted@.take(k as int));
            }
            assert(sorted@[k - 1] <= sorted@[k as int]);
            if d < 1000 {
                length = length + d as u64;
            }
            k = k + 1;
        }
        proof {
            assert(sorted@.take(k as int) =~= sorted@);
            lemma_drain_bounds(sorted@);
        }
        (actions.len() as u32, length as u32)
    }
}

} // verus!
