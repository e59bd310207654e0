use vstd::prelude::*;
use crate::game_mode::GameMode;
use crate::hand::{
    finger_of_lane, hand_of_lane, lane_to_finger, lane_to_hand, FingerAction, Hand, LnLayerType,
    FINGER_NONE,
};
use crate::map::{
    is_sorted_by_start, key_count_of, lanes_in_range, lemma_sorted_by_start, sort_hit_objects,
    valid_notes, HitObjectInfo, QuaverMap, lemma_sorted_notes_valid,
};
use vstd::seq_lib::to_multiset_contains;

verus! {

/// One note inside a strain event, with the finger that plays it.
#[derive(Clone, Copy, Debug, PartialEq, Eq, Structural)]
pub struct StrainSolverHitObject {
    pub hit_object: HitObjectInfo,
    pub finger_state: u8,
}

impl StrainSolverHitObject {
    pub fn new(hit_object: HitObjectInfo) -> (r: StrainSolverHitObject)
        ensures
            r.hit_object == hit_object,
            r.finger_state == FINGER_NONE,
    {
        StrainSolverHitObject { hit_object, finger_state: FINGER_NONE }
    }
}

/// One decision point of the difficulty timeline: a note, or a chord of notes played by
/// one hand at once. Times are those of the map, before the playback rate applies.
#[derive(Clone, Debug)]
pub struct StrainSolverData {
    pub hit_objects: Vec<StrainSolverHitObject>,
    pub start_time: i32,
    pub end_time: i32,
    pub hand: Hand,
    pub finger_state: u8,
    /// Kind of the transition to `next_on_hand`.
    pub finger_action: FingerAction,
    /// Map time from this event to `next_on_hand`.
    pub finger_action_duration_ms: i32,
    /// Index of the next event on the same hand.
    pub next_on_hand: Option<usize>,
    /// Length of the running roll-manipulation streak, where one is found here.
    pub roll_manipulation_index: Option<u32>,
    /// Length of the running jack-manipulation streak, where one is found here.
    pub jack_manipulation_index: Option<u32>,
    pub ln_layer_type: LnLayerType,
}

/// The thresholds of the solver that decide, rather than weigh. Durations are in tenths
/// of a millisecond of played time.
#[derive(Clone, Copy, Debug, PartialEq, Eq, Structural)]
pub struct StrainConstants {
    pub chord_clump_tolerance: u32,
    pub ln_end_threshold: u32,
    /// A jack is a vibro candidate when it lasts less than this.
    pub vibro_window: u32,
    pub vibro_max_length: u32,
    /// Two roll durations whose ratio reaches this mark a trill.
    pub roll_ratio_tolerance: u32,
    pub roll_max_length: u32,
}

pub const MAX_CONSTANT: u32 = 1_000_000;

pub const MAX_RATE: u32 = 10_000;

impl StrainConstants {
    pub open spec fn wf(self) -> bool {
        &&& self.chord_clump_tolerance <= MAX_CONSTANT
        &&& self.ln_end_threshold <= MAX_CONSTANT
        &&& self.vibro_window <= MAX_CONSTANT
        &&& self.vibro_max_length <= MAX_CONSTANT
        &&& self.roll_ratio_tolerance <= MAX_CONSTANT
        &&& self.roll_max_length <= MAX_CONSTANT
    }

    /// The standard tuning: 8 ms chords, 42 ms long-note ends, 176.4 ms vibro window.
    pub fn new() -> (r: StrainConstants)
        ensures
            r.wf(),
            r.chord_clump_tolerance == 80,
            r.ln_end_threshold == 420,
            r.vibro_window == 1764,
            r.vibro_max_length == 6,
            r.roll_ratio_tolerance == 2,
            r.roll_max_length == 14,
    {
        StrainConstants {
            chord_clump_tolerance: 80,
            ln_end_threshold: 420,
            vibro_window: 1764,
            vibro_max_length: 6,
            roll_ratio_tolerance: 2,
            roll_max_length: 14,
        }
    }
}

/// A map duration `d`, played at `rate` hundredths, lasts at most `limit` tenths of a
/// millisecond.
pub open spec fn played_within(d: int, limit: u32, rate: u32) -> bool {
    1000 * d <= limit as int * rate as int
}

/// A map duration `d`, played at `rate` hundredths, lasts less than `limit` tenths of a
/// millisecond.
pub open spec fn played_under(d: int, limit: u32, rate: u32) -> bool {
    1000 * d < limit as int * rate as int
}

fn is_played_within(d: i64, limit: u32, rate: u32) -> (r: bool)
    requires
        -0x1_0000_0000 <= d <= 0x1_0000_0000,
        limit <= MAX_CONSTANT,
        rate <= MAX_RATE,
    ensures
        r == played_within(d as int, limit, rate),
{
    assert(limit as int * rate as int <= MAX_CONSTANT as int * MAX_RATE as int) by (nonlinear_arith)
        requires
            limit <= MAX_CONSTANT,
            rate <= MAX_RATE,
    ;
    1000 * d <= limit as i64 * rate as i64
}

fn is_played_under(d: i64, limit: u32, rate: u32) -> (r: bool)
    requires
        -0x1_0000_0000 <= d <= 0x1_0000_0000,
        limit <= MAX_CONSTANT,
        rate <= MAX_RATE,
    ensures
        r == played_under(d as int, limit, rate),
{
    assert(limit as int * rate as int <= MAX_CONSTANT as int * MAX_RATE as int) by (nonlinear_arith)
        requires
            limit <= MAX_CONSTANT,
            rate <= MAX_RATE,
    ;
    1000 * d < limit as i64 * rate as i64
}

pub open spec fn finger_union(ms: Seq<StrainSolverHitObject>) -> u8
    decreases ms.len(),
{
    if ms.len() == 0 {
        0
    } else {
        finger_union(ms.drop_last()) | ms.last().finger_state
    }
}

pub open spec fn members_end(ms: Seq<StrainSolverHitObject>) -> i32
    decreases ms.len(),
{
    if ms.len() == 0 {
        0
    } else {
        let rest = members_end(ms.drop_last());
        let e = ms.last().hit_object.end_time;
        if e > rest {
            e
        } else {
            rest
        }
    }
}

impl StrainSolverData {
    /// The next event on the same hand, once transitions are classified.
    pub fn get_next(&self) -> (r: Option<usize>)
        ensures
            r == self.next_on_hand,
    {
        self.next_on_hand
    }

    /// Sets the finger state to the union of the fingers of the event's notes.
    pub fn solve_finger_state(&mut self)
        ensures
            final(self).finger_state == finger_union(old(self).hit_objects@),
            final(self).hit_objects@ == old(self).hit_objects@,
            final(self).start_time == old(self).start_time,
            final(self).end_time == old(self).end_time,
            final(self).hand == old(self).hand,
    {
        let mut state: u8 = 0;
        let mut k: usize = 0;
        while k < self.hit_objects.len()
            invariant
                k <= self.hit_objects@.len(),
                self.hit_objects@ == old(self).hit_objects@,
                state == finger_union(self.hit_objects@.take(k as int)),
            decreases self.hit_objects@.len() - k,
        {
            assert(self.hit_objects@.take(k as int + 1).drop_last() =~= self.hit_objects@.take(k as int));
            state = state | self.hit_objects[k].finger_state;
            k = k + 1;
        }
        assert(self.hit_objects@.take(k as int) =~= self.hit_objects@);
        self.finger_state = state;
    }
}

/// An event as the passes build it: its notes, and the start, end and fingers they give.
pub open spec fn wf_event(e: StrainSolverData) -> bool {
    &&& e.hit_objects@.len() > 0
    &&& e.start_time == e.hit_objects@[0].hit_object.start_time
    &&& e.end_time == members_end(e.hit_objects@)
    &&& e.finger_state == finger_union(e.hit_objects@)
    &&& e.hand != Hand::Ambiguous
}

pub open spec fn events_sorted(s: Seq<StrainSolverData>) -> bool {
    forall|i: int, j: int|
        0 <= i < j < s.len() ==> (#[trigger] s[i]).start_time <= (#[trigger] s[j]).start_time
}

/// Two events that one hand plays at once, and so form one chord.
pub open spec fn clumped(a: StrainSolverData, b: StrainSolverData, c: StrainConstants, rate: u32) -> bool {
    a.hand == b.hand && played_within(b.start_time - a.start_time, c.chord_clump_tolerance, rate)
}

/// No two events of the sequence form a chord: merging finds nothing more to do.
pub open spec fn no_clumped_pair(s: Seq<StrainSolverData>, c: StrainConstants, rate: u32) -> bool {
    forall|i: int, j: int| 0 <= i < j < s.len() ==> !clumped(#[trigger] s[i], #[trigger] s[j], c, rate)
}

/// Event `b` lies within the clump tolerance after event `a` of the same hand.
pub open spec fn covers(a: StrainSolverData, b: StrainSolverData, c: StrainConstants, rate: u32) -> bool {
    a.hand == b.hand && a.start_time <= b.start_time && played_within(
        b.start_time - a.start_time,
        c.chord_clump_tolerance,
        rate,
    )
}

/// The parts of an event that merging reads and writes.
pub open spec fn same_chord(a: StrainSolverData, b: StrainSolverData) -> bool {
    &&& a.hit_objects@ == b.hit_objects@
    &&& a.start_time == b.start_time
    &&& a.end_time == b.end_time
    &&& a.hand == b.hand
    &&& a.finger_state == b.finger_state
}

/// An event whose transition fields have not been computed yet.
pub open spec fn unclassified(e: StrainSolverData) -> bool {
    &&& e.finger_action == FingerAction::NoAction
    &&& e.finger_action_duration_ms == 0
    &&& e.next_on_hand.is_none()
    &&& e.roll_manipulation_index.is_none()
    &&& e.jack_manipulation_index.is_none()
    &&& e.ln_layer_type == LnLayerType::NoLayer
}

pub open spec fn times_in_range(s: Seq<StrainSolverData>) -> bool {
    forall|i: int|
        0 <= i < s.len() ==> 0 <= (#[trigger] s[i]).start_time && 0 <= s[i].end_time
}

fn copy_members(ms: &Vec<StrainSolverHitObject>) -> (r: Vec<StrainSolverHitObject>)
    ensures
        r@ == ms@,
{
    let mut r: Vec<StrainSolverHitObject> = Vec::new();
    let mut k: usize = 0;
    while k < ms.len()
        invariant
            k <= ms.len(),
            r@ == ms@.take(k as int),
        decreases ms.len() - k,
    {
        r.push(ms[k]);
        k = k + 1;
        assert(r@ =~= ms@.take(k as int));
    }
    assert(ms@.take(k as int) =~= ms@);
    r
}

fn has_finger(ms: &Vec<StrainSolverHitObject>, finger: u8) -> (r: bool)
    ensures
        r == exists|k: int| 0 <= k < ms@.len() && (#[trigger] ms@[k]).finger_state == finger,
{
    let mut k: usize = 0;
    while k < ms.len()
        invariant
            k <= ms.len(),
            forall|m: int| 0 <= m < k ==> (#[trigger] ms@[m]).finger_state != finger,
        decreases ms.len() - k,
    {
        if ms[k].finger_state == finger {
            return true;
        }
        k = k + 1;
    }
    false
}

/// Some note of `ms` is played with finger `f`.
pub open spec fn holds_finger(ms: Seq<StrainSolverHitObject>, f: u8) -> bool {
    exists|y: int| 0 <= y < ms.len() && (#[trigger] ms[y]).finger_state == f
}

/// `m` is a note of one of the events of `s` played by `hand`.
pub open spec fn note_in_events(s: Seq<StrainSolverData>, hand: Hand, m: StrainSolverHitObject) -> bool {
    exists|j: int, x: int|
        0 <= j < s.len() && 0 <= x < s[j].hit_objects@.len() && (#[trigger] s[j].hit_objects@[x]) == m
            && s[j].hand == hand
}

/// Every finger of the notes of `src` is used by some note of `ms`.
pub open spec fn fingers_kept(ms: Seq<StrainSolverHitObject>, src: Seq<StrainSolverHitObject>) -> bool {
    forall|z: int| 0 <= z < src.len() ==> holds_finger(ms, (#[trigger] src[z]).finger_state)
}

proof fn lemma_fingers_kept_grow(a: Seq<StrainSolverHitObject>, b: Seq<StrainSolverHitObject>, src: Seq<StrainSolverHitObject>)
    requires
        fingers_kept(a, src),
        a.len() <= b.len(),
        forall|y: int| 0 <= y < a.len() ==> b[y] == a[y],
    ensures
        fingers_kept(b, src),
{
    assert forall|z: int| 0 <= z < src.len() implies holds_finger(b, (#[trigger] src[z]).finger_state) by {
        assert(holds_finger(a, src[z].finger_state));
        let y = choose|y: int| 0 <= y < a.len() && (#[trigger] a[y]).finger_state == src[z].finger_state;
        assert(b[y] == a[y]);
    }
}

proof fn lemma_fingers_kept_prefix(ms: Seq<StrainSolverHitObject>, head: Seq<StrainSolverHitObject>)
    requires
        ms.len() >= head.len(),
        forall|y: int| 0 <= y < head.len() ==> ms[y] == head[y],
    ensures
        fingers_kept(ms, head),
{
    assert forall|z: int| 0 <= z < head.len() implies holds_finger(ms, (#[trigger] head[z]).finger_state) by {
        assert(ms[z] == head[z]);
    }
}

/// Adds to a chord the notes of `other` whose finger it does not use yet.
fn absorb_members(
    members: &mut Vec<StrainSolverHitObject>,
    finger_state: &mut u8,
    end_time: &mut i32,
    other: &Vec<StrainSolverHitObject>,
)
    requires
        old(members)@.len() > 0,
        *old(finger_state) == finger_union(old(members)@),
        *old(end_time) == members_end(old(members)@),
        0 <= *old(end_time),
    ensures
        final(members)@.len() > 0,
        final(members)@[0] == old(members)@[0],
        *final(finger_state) == finger_union(final(members)@),
        *final(end_time) == members_end(final(members)@),
        0 <= *final(end_time),
        final(members)@.len() >= old(members)@.len(),
        forall|y: int| 0 <= y < old(members)@.len() ==> final(members)@[y] == old(members)@[y],
        fingers_kept(final(members)@, other@),
        forall|y: int|
            0 <= y < final(members)@.len() ==> y < old(members)@.len() || exists|x: int|
                0 <= x < other@.len() && other@[x] == #[trigger] final(members)@[y],
{
    let mut k: usize = 0;
    while k < other.len()
        invariant
            k <= other@.len(),
            members@.len() > 0,
            members@[0] == old(members)@[0],
            *finger_state == finger_union(members@),
            *end_time == members_end(members@),
            0 <= *end_time,
            members@.len() >= old(members)@.len(),
            forall|y: int| 0 <= y < old(members)@.len() ==> members@[y] == old(members)@[y],
            fingers_kept(members@, other@.take(k as int)),
            forall|y: int|
                0 <= y < members@.len() ==> y < old(members)@.len() || exists|x: int|
                    0 <= x < other@.len() && other@[x] == #[trigger] members@[y],
        decreases other@.len() - k,
    {
        let m = other[k];
        let ghost prev = members@;
        if !has_finger(members, m.finger_state) {
            let ghost before = members@;
            members.push(m);
            assert(members@.drop_last() =~= before);
            assert(members@[members@.len() - 1] == other@[k as int]);
            *finger_state = *finger_state | m.finger_state;
            if m.hit_object.end_time > *end_time {
                *end_time = m.hit_object.end_time;
            }
        }
        proof {
            assert(fingers_kept(prev, other@.take(k as int)));
            lemma_fingers_kept_grow(prev, members@, other@.take(k as int));
            assert(holds_finger(members@, m.finger_state)) by {
                if members@.len() > prev.len() {
                    assert(members@[members@.len() - 1].finger_state == m.finger_state);
                }
            }
            assert forall|z: int| 0 <= z < k + 1 implies holds_finger(members@, (#[trigger] other@.take(k as int + 1)[z]).finger_state) by {
                if z < k {
                    assert(other@.take(k as int + 1)[z] == other@.take(k as int)[z]);
                }
            }
        }
        k = k + 1;
    }
    assert(other@.take(k as int) =~= other@);
}

fn new_event(
    members: Vec<StrainSolverHitObject>,
    start_time: i32,
    end_time: i32,
    hand: Hand,
    finger_state: u8,
) -> (r: StrainSolverData)
    ensures
        r.hit_objects@ == members@,
        r.start_time == start_time,
        r.end_time == end_time,
        r.hand == hand,
        r.finger_state == finger_state,
        unclassified(r),
{
    StrainSolverData {
        hit_objects: members,
        start_time,
        end_time,
        hand,
        finger_state,
        finger_action: FingerAction::NoAction,
        finger_action_duration_ms: 0,
        next_on_hand: None,
        roll_manipulation_index: None,
        jack_manipulation_index: None,
        ln_layer_type: LnLayerType::NoLayer,
    }
}

} // verus!

verus! {

pub open spec fn is_scratch_note(h: HitObjectInfo, mode: GameMode, has_scratch_key: bool) -> bool {
    has_scratch_key && h.lane == mode.key_count_spec() + 1
}

/// The notes that the solver reads: all but those of the scratch lane.
pub open spec fn playable_notes(s: Seq<HitObjectInfo>, mode: GameMode, has_scratch_key: bool) -> Seq<
    HitObjectInfo,
>
    decreases s.len(),
{
    if s.len() == 0 {
        Seq::empty()
    } else {
        let rest = playable_notes(s.drop_last(), mode, has_scratch_key);
        if is_scratch_note(s.last(), mode, has_scratch_key) {
            rest
        } else {
            rest.push(s.last())
        }
    }
}

/// The hand of a lane, where the ambiguous lane is given to `assume_hand`.
pub open spec fn resolved_hand(mode: GameMode, lane: int, assume_hand: Hand) -> Hand {
    if hand_of_lane(mode, lane) == Hand::Ambiguous {
        assume_hand
    } else {
        hand_of_lane(mode, lane)
    }
}

/// The event that a single note starts out as.
pub open spec fn is_base_event(e: StrainSolverData, h: HitObjectInfo, mode: GameMode, assume_hand: Hand) -> bool {
    &&& e.hit_objects@ == seq![
        StrainSolverHitObject { hit_object: h, finger_state: finger_of_lane(mode, h.lane as int) },
    ]
    &&& e.start_time == h.start_time
    &&& e.end_time == h.end_time
    &&& e.hand == resolved_hand(mode, h.lane as int, assume_hand)
    &&& e.finger_state == finger_of_lane(mode, h.lane as int)
    &&& unclassified(e)
}

/// One event per note, the scratch lane left out, in the order of the notes.
pub fn compute_base_strain_states(
    hit_objects: &Vec<HitObjectInfo>,
    mode: GameMode,
    has_scratch_key: bool,
    assume_hand: Hand,
) -> (r: Vec<StrainSolverData>)
    requires
        lanes_in_range(hit_objects@, key_count_of(mode, has_scratch_key, true)),
        valid_notes(hit_objects@),
        is_sorted_by_start(hit_objects@),
        assume_hand != Hand::Ambiguous,
    ensures
        r@.len() == playable_notes(hit_objects@, mode, has_scratch_key).len(),
        forall|k: int|
            0 <= k < r@.len() ==> is_base_event(
                #[trigger] r@[k],
                playable_notes(hit_objects@, mode, has_scratch_key)[k],
                mode,
                assume_hand,
            ),
        forall|k: int| 0 <= k < r@.len() ==> wf_event(#[trigger] r@[k]),
        events_sorted(r@),
        times_in_range(r@),
{
    let ghost s = hit_objects@;
    let mut r: Vec<StrainSolverData> = Vec::new();
    let mut i: usize = 0;
    while i < hit_objects.len()
        invariant
            i <= s.len(),
            s == hit_objects@,
            lanes_in_range(s, key_count_of(mode, has_scratch_key, true)),
            valid_notes(s),
            is_sorted_by_start(s),
            assume_hand != Hand::Ambiguous,
            r@.len() == playable_notes(s.take(i as int), mode, has_scratch_key).len(),
            forall|k: int|
                0 <= k < r@.len() ==> is_base_event(
                    #[trigger] r@[k],
                    playable_notes(s.take(i as int), mode, has_scratch_key)[k],
                    mode,
                    assume_hand,
                ),
            forall|k: int| 0 <= k < r@.len() ==> wf_event(#[trigger] r@[k]),
            forall|k: int, j: int|
                0 <= k < r@.len() && i <= j < s.len() ==> (#[trigger] r@[k]).start_time
                    <= (#[trigger] s[j]).start_time,
            events_sorted(r@),
            times_in_range(r@),
        decreases s.len() - i,
    {
        let h = hit_objects[i];
        assert(s.take(i as int + 1).drop_last() =~= s.take(i as int));
        assert(s.take(i as int + 1).last() == h);
        let scratch_lane = mode.key_count() as i32 + 1;
        if !(has_scratch_key && h.lane == scratch_lane) {
            let finger = lane_to_finger(mode, h.lane);
            let lane_hand = lane_to_hand(mode, h.lane);
            let hand = if lane_hand == Hand::Ambiguous {
                assume_hand
            } else {
                lane_hand
            };
            let mut members: Vec<StrainSolverHitObject> = Vec::new();
            members.push(StrainSolverHitObject { hit_object: h, finger_state: finger });
            let e = new_event(members, h.start_time, h.end_time, hand, finger);
            proof {
                assert(0 <= s[i as int].start_time && 0 <= s[i as int].end_time);
                assert(e.hit_objects@ =~= seq![StrainSolverHitObject { hit_object: h, finger_state: finger }]);
                assert(0u8 | finger == finger) by (bit_vector);
                let ms = e.hit_objects@;
                assert(ms.drop_last() =~= Seq::<StrainSolverHitObject>::empty());
                assert(members_end(Seq::<StrainSolverHitObject>::empty()) == 0);
                assert(finger_union(Seq::<StrainSolverHitObject>::empty()) == 0);
                assert(members_end(ms.drop_last()) == 0);
                assert(finger_union(ms.drop_last()) == 0);
                assert(ms.last().finger_state == finger);
                assert(e.end_time == members_end(e.hit_objects@));
                assert(e.finger_state == finger_union(e.hit_objects@));
            }
            r.push(e);
        }
        i = i + 1;
    }
    assert(s.take(i as int) =~= s);
    r
}

/// Builds the chord headed by event `i`: folds in every later unmerged event of its hand
/// that starts within the clump tolerance, and marks those as merged.
fn merge_into_head(
    events: &Vec<StrainSolverData>,
    consumed: &mut Vec<bool>,
    i: usize,
    c: StrainConstants,
    rate: u32,
) -> (r: (Vec<StrainSolverHitObject>, u8, i32))
    requires
        c.wf(),
        0 < rate <= MAX_RATE,
        events_sorted(events@),
        times_in_range(events@),
        forall|k: int| 0 <= k < events@.len() ==> wf_event(#[trigger] events@[k]),
        i < events@.len(),
        old(consumed)@.len() == events@.len(),
        !old(consumed)@[i as int],
    ensures
        final(consumed)@.len() == events@.len(),
        forall|x: int|
            0 <= x < events@.len() && #[trigger] final(consumed)@[x] != old(consumed)@[x] ==> i < x
                && !old(consumed)@[x] && clumped(events@[i as int], events@[x], c, rate),
        forall|x: int|
            i < x < events@.len() && clumped(events@[i as int], #[trigger] events@[x], c, rate)
                ==> final(consumed)@[x],
        r.0@.len() > 0,
        r.0@[0] == events@[i as int].hit_objects@[0],
        r.1 == finger_union(r.0@),
        r.2 == members_end(r.0@),
        0 <= r.2,
        no_clumped_pair(events@, c, rate) ==> final(consumed)@ == old(consumed)@ && r.0@
            == events@[i as int].hit_objects@,
        fingers_kept(r.0@, events@[i as int].hit_objects@),
        forall|x: int|
            0 <= x < events@.len() && #[trigger] final(consumed)@[x] != old(consumed)@[x] ==> fingers_kept(
                r.0@,
                events@[x].hit_objects@,
            ),
        forall|y: int|
            0 <= y < r.0@.len() ==> note_in_events(events@, events@[i as int].hand, #[trigger] r.0@[y]),
{
    let ghost s = events@;
    let n = events.len();
    let head = &events[i];
    let mut members = copy_members(&head.hit_objects);
    let mut finger_state = head.finger_state;
    let mut end_time = head.end_time;
    let mut j: usize = i + 1;
    proof {
        assert forall|z: int| 0 <= z < head.hit_objects@.len() implies holds_finger(members@, (#[trigger] head.hit_objects@[z]).finger_state) by {
            assert(members@[z] == head.hit_objects@[z]);
        }
        assert forall|y: int| 0 <= y < members@.len() implies note_in_events(s, s[i as int].hand, #[trigger] members@[y]) by {
            assert(s[i as int].hit_objects@[y] == members@[y]);
        }
    }
    while j < n && is_played_within(
        events[j].start_time as i64 - head.start_time as i64,
        c.chord_clump_tolerance,
        rate,
    )
        invariant
            n == s.len(),
            s == events@,
            head == &s[i as int],
            c.wf(),
            0 < rate <= MAX_RATE,
            events_sorted(s),
            times_in_range(s),
            wf_event(s[i as int]),
            i < j <= n,
            consumed@.len() == n,
            forall|x: int|
                0 <= x < n && #[trigger] consumed@[x] != old(consumed)@[x] ==> i < x < j
                    && !old(consumed)@[x] && clumped(s[i as int], s[x], c, rate),
            forall|x: int| i < x < j && clumped(s[i as int], #[trigger] s[x], c, rate) ==> consumed@[x],
            members@.len() > 0,
            members@[0] == head.hit_objects@[0],
            finger_state == finger_union(members@),
            end_time == members_end(members@),
            0 <= end_time,
            no_clumped_pair(s, c, rate) ==> consumed@ == old(consumed)@ && members@
                == head.hit_objects@,
            members@.len() >= head.hit_objects@.len(),
            forall|y: int| 0 <= y < head.hit_objects@.len() ==> members@[y] == head.hit_objects@[y],
            forall|x: int|
                0 <= x < n && #[trigger] consumed@[x] != old(consumed)@[x] ==> fingers_kept(
                    members@,
                    s[x].hit_objects@,
                ),
            forall|y: int| 0 <= y < members@.len() ==> note_in_events(s, s[i as int].hand, #[trigger] members@[y]),
        decreases n - j,
    {
        if !consumed[j] && events[j].hand == head.hand {
            let ghost before = members@;
            let ghost consumed_before = consumed@;
            absorb_members(&mut members, &mut finger_state, &mut end_time, &events[j].hit_objects);
            consumed.set(j, true);
            proof {
                assert forall|x: int|
                    0 <= x < n && #[trigger] consumed@[x] != old(consumed)@[x] implies fingers_kept(
                        members@,
                        s[x].hit_objects@,
                    ) by {
                    if x != j {
                        assert(consumed_before[x] != old(consumed)@[x]);
                        lemma_fingers_kept_grow(before, members@, s[x].hit_objects@);
                    }
                }
                assert forall|y: int| 0 <= y < members@.len() implies note_in_events(s, s[i as int].hand, #[trigger] members@[y]) by {
                    if y < before.len() {
                        assert(members@[y] == before[y]);
                    } else {
                        let x = choose|x: int| 0 <= x < s[j as int].hit_objects@.len() && s[j as int].hit_objects@[x] == members@[y];
                        assert(s[j as int].hit_objects@[x] == members@[y]);
                    }
                }
            }
        }
        j = j + 1;
    }
    proof {
        assert forall|x: int| i < x < n && clumped(s[i as int], #[trigger] s[x], c, rate) implies consumed@[x] by {
            if x >= j {
                assert(s[j as int].start_time <= s[x].start_time);
            }
        }
        lemma_fingers_kept_prefix(members@, head.hit_objects@);
    }
    (members, finger_state, end_time)
}

/// Event `e` is a chord of the events of `s`: it starts where one of them starts, with
/// that event's hand and first note, and each of its notes is a note of an event of its
/// hand.
#[verifier::opaque]
pub open spec fn chord_of(e: StrainSolverData, s: Seq<StrainSolverData>) -> bool {
    &&& exists|j: int|
        0 <= j < s.len() && (#[trigger] s[j]).start_time == e.start_time && s[j].hand == e.hand
            && s[j].hit_objects@.len() > 0 && e.hit_objects@.len() > 0 && s[j].hit_objects@[0]
            == e.hit_objects@[0]
    &&& forall|y: int|
        0 <= y < e.hit_objects@.len() ==> note_in_events(s, e.hand, #[trigger] e.hit_objects@[y])
}

/// Event `e` uses every finger of the notes of event `src`.
#[verifier::opaque]
pub open spec fn keeps_fingers(e: StrainSolverData, src: StrainSolverData) -> bool {
    fingers_kept(e.hit_objects@, src.hit_objects@)
}

proof fn lemma_new_chord(
    e: StrainSolverData,
    members: Seq<StrainSolverHitObject>,
    s: Seq<StrainSolverData>,
    i: int,
    consumed_before: Seq<bool>,
    consumed: Seq<bool>,
)
    requires
        0 <= i < s.len(),
        consumed.len() == s.len(),
        s[i].hit_objects@.len() > 0,
        e.hit_objects@ == members,
        e.start_time == s[i].start_time,
        e.hand == s[i].hand,
        members.len() > 0,
        members[0] == s[i].hit_objects@[0],
        forall|y: int| 0 <= y < members.len() ==> note_in_events(s, s[i].hand, #[trigger] members[y]),
        fingers_kept(members, s[i].hit_objects@),
        forall|x: int|
            0 <= x < s.len() && #[trigger] consumed[x] != consumed_before[x] ==> fingers_kept(
                members,
                s[x].hit_objects@,
            ),
    ensures
        chord_of(e, s),
        keeps_fingers(e, s[i]),
        forall|x: int|
            0 <= x < s.len() && #[trigger] consumed[x] != consumed_before[x] ==> keeps_fingers(e, s[x]),
{
    reveal(chord_of);
    reveal(keeps_fingers);
    assert(s[i].start_time == e.start_time);
    assert forall|y: int| 0 <= y < e.hit_objects@.len() implies note_in_events(s, e.hand, #[trigger] e.hit_objects@[y]) by {
        assert(e.hit_objects@[y] == members[y]);
    }
}

/// Chords: every event folds in the later events of its hand that start within the clump
/// tolerance of it, keeping one note per finger. The result is sorted, no two of its
/// events form a chord, each result event is a chord of the given events, every given
/// event lies within the tolerance after a result event of its hand that uses all of its
/// fingers, and a sequence with nothing to merge comes back unchanged.
#[verifier::rlimit(100)]
pub fn compute_for_chords(events: &Vec<StrainSolverData>, c: StrainConstants, rate: u32) -> (r: Vec<
    StrainSolverData,
>)
    requires
        c.wf(),
        0 < rate <= MAX_RATE,
        events_sorted(events@),
        times_in_range(events@),
        forall|k: int| 0 <= k < events@.len() ==> wf_event(#[trigger] events@[k]),
    ensures
        r@.len() <= events@.len(),
        events_sorted(r@),
        times_in_range(r@),
        no_clumped_pair(r@, c, rate),
        forall|k: int| 0 <= k < r@.len() ==> wf_event(#[trigger] r@[k]) && unclassified(r@[k]),
        forall|k: int| 0 <= k < r@.len() ==> #[trigger] chord_of(r@[k], events@),
        forall|j: int|
            0 <= j < events@.len() ==> exists|k: int|
                0 <= k < r@.len() && covers(r@[k], #[trigger] events@[j], c, rate) && keeps_fingers(
                    r@[k],
                    events@[j],
                ),
        no_clumped_pair(events@, c, rate) ==> r@.len() == events@.len() && forall|k: int|
            0 <= k < r@.len() ==> same_chord(#[trigger] r@[k], events@[k]),
{
    let n = events.len();
    let mut consumed: Vec<bool> = vec![false; n];
    let mut r: Vec<StrainSolverData> = Vec::new();
    let ghost mut heads: Seq<int> = Seq::empty();
    let ghost mut owner: Seq<int> = Seq::new(n as nat, |x: int| 0);
    let ghost s = events@;
    let mut i: usize = 0;
    while i < n
        invariant
            n == s.len(),
            s == events@,
            c.wf(),
            0 < rate <= MAX_RATE,
            events_sorted(s),
            times_in_range(s),
            forall|k: int| 0 <= k < s.len() ==> wf_event(#[trigger] s[k]),
            i <= n,
            consumed@.len() == n,
            r@.len() == heads.len(),
            heads.len() <= i,
            times_in_range(r@),
            owner.len() == n,
            forall|j: int|
                0 <= j < n && (j < i || consumed@[j]) ==> 0 <= #[trigger] owner[j] < r@.len() && covers(
                    r@[owner[j]],
                    s[j],
                    c,
                    rate,
                ) && keeps_fingers(r@[owner[j]], s[j]),
            forall|k: int| 0 <= k < r@.len() ==> #[trigger] chord_of(r@[k], s),
            forall|k: int| 0 <= k < heads.len() ==> 0 <= #[trigger] heads[k] < i,
            forall|k1: int, k2: int|
                0 <= k1 < k2 < heads.len() ==> #[trigger] heads[k1] < #[trigger] heads[k2],
            forall|k: int| 0 <= k < heads.len() ==> !consumed@[#[trigger] heads[k]],
            forall|k: int|
                0 <= k < heads.len() ==> (#[trigger] r@[k]).start_time == s[heads[k]].start_time
                    && r@[k].hand == s[heads[k]].hand && wf_event(r@[k]) && unclassified(r@[k]),
            forall|k: int, j: int|
                0 <= k < heads.len() && heads[k] < j < n && clumped(
                    s[#[trigger] heads[k]],
                    #[trigger] s[j],
                    c,
                    rate,
                ) ==> consumed@[j],
            no_clumped_pair(s, c, rate) ==> (forall|j: int| 0 <= j < n ==> !#[trigger] consumed@[j])
                && heads.len() == i && forall|k: int|
                0 <= k < i ==> same_chord(#[trigger] r@[k], s[k]),
        decreases n - i,
    {
        if !consumed[i] {
            let ghost consumed_before = consumed@;
            let (members, finger_state, end_time) = merge_into_head(events, &mut consumed, i, c, rate);
            let ghost members_view = members@;
            let e = new_event(members, events[i].start_time, end_time, events[i].hand, finger_state);
            proof {
                assert(wf_event(s[i as int]));
                lemma_new_chord(e, members_view, s, i as int, consumed_before, consumed@);
            }
            let ghost r_before = r@;
            proof {
                let pos = r@.len() as int;
                let cb = consumed_before;
                let cn = consumed@;
                owner = Seq::new(
                    n as nat,
                    |x: int|
                        if x == i || cn[x] != cb[x] {
                            pos
                        } else {
                            owner[x]
                        },
                );
                assert(played_within(0, c.chord_clump_tolerance, rate));
            }
            r.push(e);
            proof {
                assert forall|j: int|
                    0 <= j < n && (j < i + 1 || consumed@[j]) implies 0 <= #[trigger] owner[j] < r@.len()
                        && covers(r@[owner[j]], s[j], c, rate) && keeps_fingers(r@[owner[j]], s[j]) by {
                    if j != i && consumed@[j] == consumed_before[j] {
                        assert(r@[owner[j]] == r_before[owner[j]]);
                    } else if j != i {
                        assert(s[i as int].start_time <= s[j].start_time);
                    }
                }
                assert forall|k: int| 0 <= k < r@.len() implies #[trigger] chord_of(r@[k], s) by {
                    if k < r_before.len() {
                        assert(r@[k] == r_before[k]);
                    }
                }
            }
            proof {
                heads = heads.push(i as int);
            }
        }
        i = i + 1;
    }
    proof {
        assert forall|k1: int, k2: int| 0 <= k1 < k2 < r@.len() implies !clumped(#[trigger] r@[k1], #[trigger] r@[k2], c, rate) by {
            assert(heads[k1] < heads[k2]);
            assert(s[heads[k1]].start_time <= s[heads[k2]].start_time);
        }
        assert forall|k1: int, k2: int| 0 <= k1 < k2 < r@.len() implies (#[trigger] r@[k1]).start_time <= (#[trigger] r@[k2]).start_time by {
            assert(heads[k1] < heads[k2]);
        }
        assert forall|j: int| 0 <= j < events@.len() implies exists|k: int|
            0 <= k < r@.len() && covers(r@[k], #[trigger] events@[j], c, rate) && keeps_fingers(
                r@[k],
                events@[j],
            ) by {
            let k = owner[j];
            assert(0 <= k < r@.len() && covers(r@[k], events@[j], c, rate) && keeps_fingers(r@[k], events@[j]));
        }
    }
    r
}

} // verus!

verus! {

pub open spec fn is_hand_chord(e: StrainSolverData) -> bool {
    e.hit_objects@.len() > 1
}

/// The kind of the transition from `a` to the next event `b` on its hand.
pub open spec fn classify(a: StrainSolverData, b: StrainSolverData) -> FingerAction {
    if a.finger_state == b.finger_state {
        FingerAction::SimpleJack
    } else if !is_hand_chord(a) && !is_hand_chord(b) {
        FingerAction::Roll
    } else if a.finger_state & b.finger_state != 0 {
        FingerAction::TechnicalJack
    } else {
        FingerAction::Bracket
    }
}

/// Event `j` is played by the hand of event `i`, strictly after it.
pub open spec fn follows_on_hand(s: Seq<StrainSolverData>, i: int, j: int) -> bool {
    &&& 0 <= i < j < s.len()
    &&& s[j].hand == s[i].hand
    &&& s[j].start_time > s[i].start_time
}

pub open spec fn is_next_on_hand(s: Seq<StrainSolverData>, i: int, j: int) -> bool {
    &&& follows_on_hand(s, i, j)
    &&& forall|k: int| i < k < j ==> !follows_on_hand(s, i, k)
}

/// Event `i` is linked to the first later event of its hand, with the kind and the map
/// duration of that transition; an event with none has no action.
#[verifier::opaque]
pub open spec fn transition_ok(s: Seq<StrainSolverData>, i: int) -> bool {
    match s[i].next_on_hand {
        Some(j) => is_next_on_hand(s, i, j as int) && s[i].finger_action == classify(
            s[i],
            s[j as int],
        ) && s[i].finger_action_duration_ms == s[j as int].start_time - s[i].start_time,
        None => (forall|j: int| !follows_on_hand(s, i, j)) && s[i].finger_action
            == FingerAction::NoAction && s[i].finger_action_duration_ms == 0,
    }
}

pub open spec fn transitions_classified(s: Seq<StrainSolverData>) -> bool {
    forall|i: int| 0 <= i < s.len() ==> #[trigger] transition_ok(s, i)
}

/// Fields that the transition pass reads and leaves alone.
pub open spec fn same_but_transition(a: StrainSolverData, b: StrainSolverData) -> bool {
    &&& same_chord(a, b)
    &&& a.roll_manipulation_index == b.roll_manipulation_index
    &&& a.jack_manipulation_index == b.jack_manipulation_index
    &&& a.ln_layer_type == b.ln_layer_type
}

fn classify_exec(a: &StrainSolverData, b: &StrainSolverData) -> (r: FingerAction)
    ensures
        r == classify(*a, *b),
{
    if a.finger_state == b.finger_state {
        FingerAction::SimpleJack
    } else if !(a.hit_objects.len() > 1) && !(b.hit_objects.len() > 1) {
        FingerAction::Roll
    } else if a.finger_state & b.finger_state != 0 {
        FingerAction::TechnicalJack
    } else {
        FingerAction::Bracket
    }
}

/// Finds the first later event of the same hand for event `i`.
fn find_next_on_hand(events: &Vec<StrainSolverData>, i: usize) -> (r: Option<usize>)
    requires
        i < events@.len(),
    ensures
        match r {
            Some(j) => is_next_on_hand(events@, i as int, j as int),
            None => forall|j: int| !follows_on_hand(events@, i as int, j),
        },
{
    let n = events.len();
    let mut j: usize = i + 1;
    while j < n
        invariant
            n == events@.len(),
            i < j <= events@.len(),
            forall|k: int| i < k < j ==> !follows_on_hand(events@, i as int, k),
        decreases events@.len() - j,
    {
        if events[j].hand == events[i].hand && events[j].start_time > events[i].start_time {
            return Some(j);
        }
        j = j + 1;
    }
    None
}

/// Links each event to the next one of its hand and classifies that transition.
pub fn compute_for_finger_actions(events: &mut Vec<StrainSolverData>)
    requires
        times_in_range(old(events)@),
    ensures
        final(events)@.len() == old(events)@.len(),
        forall|i: int|
            0 <= i < old(events)@.len() ==> same_but_transition(#[trigger] final(events)@[i], old(events)@[i]),
        transitions_classified(final(events)@),
{
    let ghost s = events@;
    let n = events.len();
    let mut i: usize = 0;
    while i < n
        invariant
            n == s.len(),
            events@.len() == n,
            i <= n,
            times_in_range(s),
            forall|k: int| 0 <= k < n ==> same_but_transition(#[trigger] events@[k], s[k]),
            forall|k: int|
                i <= k < n ==> (#[trigger] events@[k]).next_on_hand == s[k].next_on_hand
                    && events@[k].finger_action == s[k].finger_action
                    && events@[k].finger_action_duration_ms == s[k].finger_action_duration_ms,
            forall|k: int|
                0 <= k < i ==> match (#[trigger] events@[k]).next_on_hand {
                    Some(j) => is_next_on_hand(s, k, j as int) && events@[k].finger_action
                        == classify(s[k], s[j as int]) && events@[k].finger_action_duration_ms
                        == s[j as int].start_time - s[k].start_time,
                    None => (forall|j: int| !follows_on_hand(s, k, j)) && events@[k].finger_action
                        == FingerAction::NoAction && events@[k].finger_action_duration_ms == 0,
                },
        decreases n - i,
    {
        proof {
            assert forall|a: int, b: int| follows_on_hand(events@, a, b) == follows_on_hand(s, a, b) by {
                if 0 <= a < n && 0 <= b < n {
                    assert(same_but_transition(events@[a], s[a]));
                    assert(same_but_transition(events@[b], s[b]));
                }
            }
        }
        let next = find_next_on_hand(events, i);
        match next {
            Some(j) => {
                let action = classify_exec(&events[i], &events[j]);
                let duration = events[j].start_time - events[i].start_time;
                events[i].next_on_hand = Some(j);
                events[i].finger_action = action;
                events[i].finger_action_duration_ms = duration;
            },
            None => {
                events[i].next_on_hand = None;
                events[i].finger_action = FingerAction::NoAction;
                events[i].finger_action_duration_ms = 0;
            },
        }
        i = i + 1;
    }
    proof {
        assert forall|a: int, b: int| follows_on_hand(events@, a, b) == follows_on_hand(s, a, b) by {
            if 0 <= a < n && 0 <= b < n {
                assert(same_but_transition(events@[a], s[a]));
                assert(same_but_transition(events@[b], s[b]));
            }
        }
        assert forall|i: int| 0 <= i < n implies #[trigger] transition_ok(events@, i) by {
            reveal(transition_ok);
            assert(same_but_transition(events@[i], s[i]));
            match events@[i].next_on_hand {
                Some(j) => {
                    assert(is_next_on_hand(s, i, j as int));
                    assert(same_but_transition(events@[j as int], s[j as int]));
                    assert(follows_on_hand(events@, i, j as int));
                    assert forall|k: int| i < k < j implies !follows_on_hand(events@, i, k) by {
                        assert(!follows_on_hand(s, i, k));
                    }
                    assert(classify(events@[i], events@[j as int]) == classify(s[i], s[j as int]));
                },
                None => {
                    assert forall|j: int| !follows_on_hand(events@, i, j) by {
                        assert(!follows_on_hand(s, i, j));
                    }
                },
            }
        }
    }
}

} // verus!

verus! {

/// Everything that the classification passes have settled: the chord and its transition.
pub open spec fn same_but_marks(a: StrainSolverData, b: StrainSolverData) -> bool {
    &&& same_chord(a, b)
    &&& a.next_on_hand == b.next_on_hand
    &&& a.finger_action == b.finger_action
    &&& a.finger_action_duration_ms == b.finger_action_duration_ms
}

pub open spec fn next_index(e: StrainSolverData) -> int {
    match e.next_on_hand {
        Some(j) => j as int,
        None => -1,
    }
}

/// The longer of two durations is at least `t` times the shorter.
pub open spec fn ratio_reached(a: int, b: int, t: u32) -> bool {
    if a >= b {
        a >= t as int * b
    } else {
        b >= t as int * a
    }
}

/// A roll from event `i` and the next roll of its hand return to the fingers of `i`
/// with uneven timing: a trill played as a roll.
pub open spec fn roll_found(s: Seq<StrainSolverData>, i: int, c: StrainConstants) -> bool {
    let m = next_index(s[i]);
    &&& 0 <= m < s.len()
    &&& 0 <= next_index(s[m]) < s.len()
    &&& s[i].finger_action == FingerAction::Roll
    &&& s[m].finger_action == FingerAction::Roll
    &&& s[i].finger_state == s[next_index(s[m])].finger_state
    &&& ratio_reached(
        s[i].finger_action_duration_ms as int,
        s[m].finger_action_duration_ms as int,
        c.roll_ratio_tolerance,
    )
}

/// A streak counter as the manipulation passes keep it: up by one at each find, up to
/// `max`, and down by one at each event without one.
pub open spec fn next_streak(p: int, found: bool, max: u32) -> int {
    if found {
        if p < max {
            p + 1
        } else {
            p
        }
    } else if p > 0 {
        p - 1
    } else {
        0
    }
}

/// The roll streak before event `n`.
pub open spec fn roll_streak(s: Seq<StrainSolverData>, n: int, c: StrainConstants) -> int
    decreases n,
{
    if n <= 0 {
        0
    } else {
        next_streak(roll_streak(s, n - 1, c), roll_found(s, n - 1, c), c.roll_max_length)
    }
}

/// Two jacks in a row on one hand, each played faster than the vibro window.
pub open spec fn jack_found(s: Seq<StrainSolverData>, i: int, c: StrainConstants, rate: u32) -> bool {
    let m = next_index(s[i]);
    &&& 0 <= m < s.len()
    &&& s[i].finger_action == FingerAction::SimpleJack
    &&& s[m].finger_action == FingerAction::SimpleJack
    &&& played_under(s[i].finger_action_duration_ms as int, c.vibro_window, rate)
    &&& played_under(s[m].finger_action_duration_ms as int, c.vibro_window, rate)
}

/// The jack streak before event `n`.
pub open spec fn jack_streak(s: Seq<StrainSolverData>, n: int, c: StrainConstants, rate: u32) -> int
    decreases n,
{
    if n <= 0 {
        0
    } else {
        next_streak(jack_streak(s, n - 1, c, rate), jack_found(s, n - 1, c, rate), c.vibro_max_length)
    }
}

pub proof fn lemma_roll_streak_bounds(s: Seq<StrainSolverData>, n: int, c: StrainConstants)
    ensures
        0 <= roll_streak(s, n, c) <= c.roll_max_length,
    decreases n,
{
    if n > 0 {
        lemma_roll_streak_bounds(s, n - 1, c);
    }
}

pub proof fn lemma_jack_streak_bounds(s: Seq<StrainSolverData>, n: int, c: StrainConstants, rate: u32)
    ensures
        0 <= jack_streak(s, n, c, rate) <= c.vibro_max_length,
    decreases n,
{
    if n > 0 {
        lemma_jack_streak_bounds(s, n - 1, c, rate);
    }
}

#[verifier::opaque]
pub open spec fn roll_mark(s: Seq<StrainSolverData>, i: int, c: StrainConstants) -> Option<u32> {
    if roll_found(s, i, c) {
        Some(roll_streak(s, i, c) as u32)
    } else {
        None
    }
}

#[verifier::opaque]
pub open spec fn jack_mark(s: Seq<StrainSolverData>, i: int, c: StrainConstants, rate: u32) -> Option<
    u32,
> {
    if jack_found(s, i, c, rate) {
        Some(jack_streak(s, i, c, rate) as u32)
    } else {
        None
    }
}

proof fn lemma_same_marks_same_finds(a: Seq<StrainSolverData>, b: Seq<StrainSolverData>, c: StrainConstants, rate: u32)
    requires
        a.len() == b.len(),
        forall|k: int| 0 <= k < a.len() ==> same_but_marks(#[trigger] a[k], b[k]),
    ensures
        forall|i: int| 0 <= i < a.len() ==> #[trigger] roll_found(a, i, c) == roll_found(b, i, c),
        forall|i: int| 0 <= i < a.len() ==> #[trigger] jack_found(a, i, c, rate) == jack_found(b, i, c, rate),
{
    assert forall|i: int| 0 <= i < a.len() implies #[trigger] roll_found(a, i, c) == roll_found(b, i, c) by {
        assert(same_but_marks(a[i], b[i]));
        let m = next_index(a[i]);
        if 0 <= m < a.len() {
            assert(same_but_marks(a[m], b[m]));
            let l = next_index(a[m]);
            if 0 <= l < a.len() {
                assert(same_but_marks(a[l], b[l]));
            }
        }
    }
    assert forall|i: int| 0 <= i < a.len() implies #[trigger] jack_found(a, i, c, rate) == jack_found(b, i, c, rate) by {
        assert(same_but_marks(a[i], b[i]));
        let m = next_index(a[i]);
        if 0 <= m < a.len() {
            assert(same_but_marks(a[m], b[m]));
        }
    }
}

fn is_ratio_reached(a: i32, b: i32, t: u32) -> (r: bool)
    requires
        t <= MAX_CONSTANT,
    ensures
        r == ratio_reached(a as int, b as int, t),
{
    let (hi, lo) = if a >= b { (a as i64, b as i64) } else { (b as i64, a as i64) };
    assert(-0x8000_0000 * 1_000_000 <= t as int * lo <= 0x8000_0000 * 1_000_000) by (nonlinear_arith)
        requires
            0 <= t <= 1_000_000,
            -0x8000_0000 <= lo <= 0x8000_0000,
    ;
    hi >= t as i64 * lo
}

fn is_roll_found(events: &Vec<StrainSolverData>, i: usize, c: StrainConstants) -> (r: bool)
    requires
        i < events@.len(),
        c.wf(),
    ensures
        r == roll_found(events@, i as int, c),
{
    let m = match events[i].next_on_hand {
        Some(j) => j,
        None => {
            return false;
        },
    };
    if m >= events.len() {
        return false;
    }
    let l = match events[m].next_on_hand {
        Some(j) => j,
        None => {
            return false;
        },
    };
    if l >= events.len() {
        return false;
    }
    events[i].finger_action == FingerAction::Roll && events[m].finger_action == FingerAction::Roll
        && events[i].finger_state == events[l].finger_state && is_ratio_reached(
        events[i].finger_action_duration_ms,
        events[m].finger_action_duration_ms,
        c.roll_ratio_tolerance,
    )
}

fn is_jack_found(events: &Vec<StrainSolverData>, i: usize, c: StrainConstants, rate: u32) -> (r: bool)
    requires
        i < events@.len(),
        c.wf(),
        0 < rate <= MAX_RATE,
    ensures
        r == jack_found(events@, i as int, c, rate),
{
    let m = match events[i].next_on_hand {
        Some(j) => j,
        None => {
            return false;
        },
    };
    if m >= events.len() {
        return false;
    }
    events[i].finger_action == FingerAction::SimpleJack && events[m].finger_action
        == FingerAction::SimpleJack && is_played_under(
        events[i].finger_action_duration_ms as i64,
        c.vibro_window,
        rate,
    ) && is_played_under(events[m].finger_action_duration_ms as i64, c.vibro_window, rate)
}

/// Marks the roll-manipulation streak: each event where a trill is found records the
/// length of the streak before it.
pub fn compute_for_roll_manipulation(events: &mut Vec<StrainSolverData>, c: StrainConstants)
    requires
        c.wf(),
    ensures
        final(events)@.len() == old(events)@.len(),
        forall|i: int|
            0 <= i < old(events)@.len() ==> same_but_marks(#[trigger] final(events)@[i], old(events)@[i])
                && final(events)@[i].jack_manipulation_index == old(events)@[i].jack_manipulation_index
                && final(events)@[i].ln_layer_type == old(events)@[i].ln_layer_type
                && final(events)@[i].roll_manipulation_index == roll_mark(old(events)@, i, c),
{
    let ghost s = events@;
    let n = events.len();
    let mut index: u32 = 0;
    let mut i: usize = 0;
    while i < n
        invariant
            n == s.len(),
            events@.len() == n,
            i <= n,
            c.wf(),
            index == roll_streak(s, i as int, c),
            forall|k: int|
                0 <= k < n ==> same_but_marks(#[trigger] events@[k], s[k])
                    && events@[k].jack_manipulation_index == s[k].jack_manipulation_index
                    && events@[k].ln_layer_type == s[k].ln_layer_type,
            forall|k: int|
                0 <= k < i ==> (#[trigger] events@[k]).roll_manipulation_index == roll_mark(s, k, c),
        decreases n - i,
    {
        proof {
            lemma_same_marks_same_finds(events@, s, c, 1);
            lemma_roll_streak_bounds(s, i as int, c);
        }
        let found = is_roll_found(events, i, c);
        proof {
            reveal(roll_mark);
        }
        if found {
            events[i].roll_manipulation_index = Some(index);
            if index < c.roll_max_length {
                index = index + 1;
            }
        } else {
            events[i].roll_manipulation_index = None;
            if index > 0 {
                index = index - 1;
            }
        }
        i = i + 1;
    }
}

/// Marks the jack-manipulation (vibro) streak: each event where two fast jacks in a row
/// are found records the length of the streak before it.
pub fn compute_for_jack_manipulation(events: &mut Vec<StrainSolverData>, c: StrainConstants, rate: u32)
    requires
        c.wf(),
        0 < rate <= MAX_RATE,
    ensures
        final(events)@.len() == old(events)@.len(),
        forall|i: int|
            0 <= i < old(events)@.len() ==> same_but_marks(#[trigger] final(events)@[i], old(events)@[i])
                && final(events)@[i].roll_manipulation_index == old(events)@[i].roll_manipulation_index
                && final(events)@[i].ln_layer_type == old(events)@[i].ln_layer_type
                && final(events)@[i].jack_manipulation_index == jack_mark(old(events)@, i, c, rate),
{
    let ghost s = events@;
    let n = events.len();
    let mut index: u32 = 0;
    let mut i: usize = 0;
    while i < n
        invariant
            n == s.len(),
            events@.len() == n,
            i <= n,
            c.wf(),
            0 < rate <= MAX_RATE,
            index == jack_streak(s, i as int, c, rate),
            forall|k: int|
                0 <= k < n ==> same_but_marks(#[trigger] events@[k], s[k])
                    && events@[k].roll_manipulation_index == s[k].roll_manipulation_index
                    && events@[k].ln_layer_type == s[k].ln_layer_type,
            forall|k: int|
                0 <= k < i ==> (#[trigger] events@[k]).jack_manipulation_index == jack_mark(s, k, c, rate),
        decreases n - i,
    {
        proof {
            lemma_same_marks_same_finds(events@, s, c, rate);
            lemma_jack_streak_bounds(s, i as int, c, rate);
        }
        let found = is_jack_found(events, i, c, rate);
        proof {
            reveal(jack_mark);
        }
        if found {
            events[i].jack_manipulation_index = Some(index);
            if index < c.vibro_max_length {
                index = index + 1;
            }
        } else {
            events[i].jack_manipulation_index = None;
            if index > 0 {
                index = index - 1;
            }
        }
        i = i + 1;
    }
}

} // verus!

verus! {

/// How a long note at event `i` overlaps the next event of its hand: only a next event
/// that starts inside the hold, away from both of its ends by the threshold, counts.
#[verifier::opaque]
pub open spec fn ln_layer(s: Seq<StrainSolverData>, i: int, c: StrainConstants, rate: u32) -> LnLayerType {
    let m = next_index(s[i]);
    if s[i].end_time > s[i].start_time && 0 <= m < s.len() && !played_within(
        s[i].end_time - s[m].start_time,
        c.ln_end_threshold,
        rate,
    ) && !played_under(s[m].start_time - s[i].start_time, c.ln_end_threshold, rate) {
        if !played_within(s[m].end_time - s[i].end_time, c.ln_end_threshold, rate) {
            LnLayerType::OutsideRelease
        } else if s[m].end_time > 0 {
            LnLayerType::InsideRelease
        } else {
            LnLayerType::InsideTap
        }
    } else {
        LnLayerType::NoLayer
    }
}

/// Sets the long-note layering of every hold that the next event of its hand overlaps;
/// every other event keeps the layer it had.
pub fn compute_for_ln_multiplier(events: &mut Vec<StrainSolverData>, c: StrainConstants, rate: u32)
    requires
        c.wf(),
        0 < rate <= MAX_RATE,
        times_in_range(old(events)@),
    ensures
        final(events)@.len() == old(events)@.len(),
        forall|i: int|
            0 <= i < old(events)@.len() ==> same_but_marks(#[trigger] final(events)@[i], old(events)@[i])
                && final(events)@[i].roll_manipulation_index == old(events)@[i].roll_manipulation_index
                && final(events)@[i].jack_manipulation_index == old(events)@[i].jack_manipulation_index
                && final(events)@[i].ln_layer_type == if ln_layer(old(events)@, i, c, rate)
                    != LnLayerType::NoLayer {
                    ln_layer(old(events)@, i, c, rate)
                } else {
                    old(events)@[i].ln_layer_type
                },
{
    let ghost s = events@;
    let n = events.len();
    let mut i: usize = 0;
    while i < n
        invariant
            n == s.len(),
            events@.len() == n,
            i <= n,
            c.wf(),
            0 < rate <= MAX_RATE,
            times_in_range(s),
            forall|k: int|
                0 <= k < n ==> same_but_marks(#[trigger] events@[k], s[k])
                    && events@[k].roll_manipulation_index == s[k].roll_manipulation_index
                    && events@[k].jack_manipulation_index == s[k].jack_manipulation_index,
            forall|k: int|
                0 <= k < i ==> (#[trigger] events@[k]).ln_layer_type == if ln_layer(s, k, c, rate)
                    != LnLayerType::NoLayer {
                    ln_layer(s, k, c, rate)
                } else {
                    s[k].ln_layer_type
                },
            forall|k: int| i <= k < n ==> (#[trigger] events@[k]).ln_layer_type == s[k].ln_layer_type,
        decreases n - i,
    {
        assert(same_but_marks(events@[i as int], s[i as int]));
        proof {
            reveal(ln_layer);
        }
        let layer = match events[i].next_on_hand {
            Some(m) => {
                if m < n {
                    assert(same_but_marks(events@[m as int], s[m as int]));
                    let start = events[i].start_time as i64;
                    let end = events[i].end_time as i64;
                    let next_start = events[m].start_time as i64;
                    let next_end = events[m].end_time as i64;
                    let t = c.ln_end_threshold;
                    if end > start && !is_played_within(end - next_start, t, rate) && !is_played_under(
                        next_start - start,
                        t,
                        rate,
                    ) {
                        if !is_played_within(next_end - end, t, rate) {
                            LnLayerType::OutsideRelease
                        } else if next_end > 0 {
                            LnLayerType::InsideRelease
                        } else {
                            LnLayerType::InsideTap
                        }
                    } else {
                        LnLayerType::NoLayer
                    }
                } else {
                    LnLayerType::NoLayer
                }
            },
            None => LnLayerType::NoLayer,
        };
        if layer != LnLayerType::NoLayer {
            events[i].ln_layer_type = layer;
        }
        i = i + 1;
    }
}

proof fn lemma_streaks_agree(a: Seq<StrainSolverData>, b: Seq<StrainSolverData>, n: int, c: StrainConstants, rate: u32)
    requires
        a.len() == b.len(),
        n <= a.len(),
        forall|k: int| 0 <= k < a.len() ==> same_but_marks(#[trigger] a[k], b[k]),
    ensures
        roll_streak(a, n, c) == roll_streak(b, n, c),
        jack_streak(a, n, c, rate) == jack_streak(b, n, c, rate),
    decreases n,
{
    lemma_same_marks_same_finds(a, b, c, rate);
    if n > 0 {
        lemma_streaks_agree(a, b, n - 1, c, rate);
    }
}

/// The time at which the last event starts or ends.
pub open spec fn events_end(s: Seq<StrainSolverData>) -> int
    decreases s.len(),
{
    if s.len() == 0 {
        0
    } else {
        let e = s.last();
        let here: int = if e.end_time > e.start_time {
            e.end_time as int
        } else {
            e.start_time as int
        };
        let rest = events_end(s.drop_last());
        if here > rest {
            here
        } else {
            rest
        }
    }
}

/// Map time that one bin of a second of played time spans.
pub open spec fn bin_width(rate: u32) -> int {
    10 * rate as int
}

/// Number of one-second bins from the first event's start to the last start or end.
pub open spec fn bin_count(s: Seq<StrainSolverData>, rate: u32) -> int {
    if s.len() == 0 {
        0
    } else {
        (events_end(s) - s[0].start_time + bin_width(rate) - 1) / bin_width(rate)
    }
}

/// The bin that event `i` falls in; none for an event at the very end of the map.
pub open spec fn bin_of(s: Seq<StrainSolverData>, i: int, rate: u32) -> Option<usize> {
    let b = (s[i].start_time - s[0].start_time) / bin_width(rate);
    if b < bin_count(s, rate) {
        Some(b as usize)
    } else {
        None
    }
}

/// The one-second bins over which strain is averaged.
#[derive(Clone, Debug)]
pub struct StrainBins {
    pub count: usize,
    pub bin_of_event: Vec<Option<usize>>,
}

pub fn compute_bins(events: &Vec<StrainSolverData>, rate: u32) -> (r: StrainBins)
    requires
        0 < rate <= MAX_RATE,
        events_sorted(events@),
        times_in_range(events@),
    ensures
        r.count == bin_count(events@, rate),
        r.bin_of_event@.len() == events@.len(),
        forall|i: int| 0 <= i < events@.len() ==> #[trigger] r.bin_of_event@[i] == bin_of(events@, i, rate),
{
    let ghost s = events@;
    let n = events.len();
    let mut end: i64 = 0;
    let mut i: usize = 0;
    while i < n
        invariant
            n == s.len(),
            s == events@,
            i <= n,
            times_in_range(s),
            end == events_end(s.take(i as int)),
            0 <= end <= i32::MAX,
        decreases n - i,
    {
        let e = &events[i];
        let here: i64 = if e.end_time > e.start_time {
            e.end_time as i64
        } else {
            e.start_time as i64
        };
        assert(s.take(i as int + 1).drop_last() =~= s.take(i as int));
        if here > end {
            end = here;
        }
        i = i + 1;
    }
    assert(s.take(n as int) =~= s);
    let width: i64 = 10 * rate as i64;
    if n == 0 {
        return StrainBins { count: 0, bin_of_event: Vec::new() };
    }
    let first = events[0].start_time as i64;
    assert(first <= end) by {
        lemma_events_end_bounds(s, 0);
    }
    assert(0 <= (end - first + width - 1) as int / width as int <= end - first + width - 1) by (nonlinear_arith)
        requires
            width > 0,
            end - first >= 0,
    ;
    let count = (end - first + width - 1) / width;
    let mut bins: Vec<Option<usize>> = Vec::new();
    let mut k: usize = 0;
    while k < n
        invariant
            n == s.len(),
            s == events@,
            n > 0,
            k <= n,
            events_sorted(s),
            times_in_range(s),
            width == bin_width(rate),
            width > 0,
            first == s[0].start_time,
            count == bin_count(s, rate),
            0 <= count <= 0x1_0000_0000,
            bins@.len() == k,
            forall|x: int| 0 <= x < k ==> #[trigger] bins@[x] == bin_of(s, x, rate),
        decreases n - k,
    {
        assert(s[0].start_time <= s[k as int].start_time);
        let d = events[k].start_time as i64 - first;
        assert(0 <= d as int / width as int <= d) by (nonlinear_arith)
            requires
                width > 0,
                d >= 0,
        ;
        let b = d / width;
        if b < count {
            bins.push(Some(b as usize));
        } else {
            bins.push(None);
        }
        k = k + 1;
    }
    StrainBins { count: count as usize, bin_of_event: bins }
}

proof fn lemma_events_end_bounds(s: Seq<StrainSolverData>, i: int)
    requires
        0 <= i < s.len(),
    ensures
        s[i].start_time <= events_end(s),
    decreases s.len(),
{
    if i < s.len() - 1 {
        assert(s.drop_last()[i] == s[i]);
        lemma_events_end_bounds(s.drop_last(), i);
    }
}

} // verus!

verus! {

/// Passes that only set marks agree on the marks computed from either sequence.
proof fn lemma_marks_agree(a: Seq<StrainSolverData>, b: Seq<StrainSolverData>, c: StrainConstants, rate: u32)
    requires
        a.len() == b.len(),
        forall|k: int| 0 <= k < a.len() ==> same_but_marks(#[trigger] a[k], b[k]),
    ensures
        forall|i: int| 0 <= i < a.len() ==> #[trigger] roll_mark(a, i, c) == roll_mark(b, i, c),
        forall|i: int| 0 <= i < a.len() ==> #[trigger] jack_mark(a, i, c, rate) == jack_mark(b, i, c, rate),
        forall|i: int| 0 <= i < a.len() ==> #[trigger] ln_layer(a, i, c, rate) == ln_layer(b, i, c, rate),
{
    reveal(roll_mark);
    reveal(jack_mark);
    reveal(ln_layer);
    lemma_same_marks_same_finds(a, b, c, rate);
    assert forall|i: int| 0 <= i < a.len() implies #[trigger] roll_mark(a, i, c) == roll_mark(b, i, c) by {
        lemma_streaks_agree(a, b, i, c, rate);
    }
    assert forall|i: int| 0 <= i < a.len() implies #[trigger] jack_mark(a, i, c, rate) == jack_mark(b, i, c, rate) by {
        lemma_streaks_agree(a, b, i, c, rate);
    }
    assert forall|i: int| 0 <= i < a.len() implies #[trigger] ln_layer(a, i, c, rate) == ln_layer(b, i, c, rate) by {
        assert(same_but_marks(a[i], b[i]));
        let m = next_index(a[i]);
        if 0 <= m < a.len() {
            assert(same_but_marks(a[m], b[m]));
        }
    }
}

proof fn lemma_transition_kept(a: Seq<StrainSolverData>, b: Seq<StrainSolverData>, i: int)
    requires
        a.len() == b.len(),
        0 <= i < a.len(),
        forall|k: int| 0 <= k < a.len() ==> same_but_marks(#[trigger] a[k], b[k]),
        transition_ok(a, i),
    ensures
        transition_ok(b, i),
{
    reveal(transition_ok);
    assert(same_but_marks(a[i], b[i]));
    match a[i].next_on_hand {
        Some(j) => {
            assert(same_but_marks(a[j as int], b[j as int]));
            assert forall|k: int| i < k < j implies !follows_on_hand(b, i, k) by {
                assert(same_but_marks(a[k], b[k]));
                assert(!follows_on_hand(a, i, k));
            }
        },
        None => {
            assert forall|j: int| !follows_on_hand(b, i, j) by {
                if 0 <= j < a.len() {
                    assert(same_but_marks(a[j], b[j]));
                }
                assert(!follows_on_hand(a, i, j));
            }
        },
    }
}

proof fn lemma_classified_kept(a: Seq<StrainSolverData>, b: Seq<StrainSolverData>)
    requires
        a.len() == b.len(),
        forall|k: int| 0 <= k < a.len() ==> same_but_marks(#[trigger] a[k], b[k]),
        transitions_classified(a),
    ensures
        transitions_classified(b),
{
    assert forall|i: int| 0 <= i < b.len() implies #[trigger] transition_ok(b, i) by {
        lemma_transition_kept(a, b, i);
    }
}

proof fn lemma_chords_kept(a: Seq<StrainSolverData>, b: Seq<StrainSolverData>, c: StrainConstants, rate: u32)
    requires
        a.len() == b.len(),
        forall|k: int| 0 <= k < a.len() ==> same_chord(#[trigger] a[k], b[k]),
        events_sorted(a),
        times_in_range(a),
        no_clumped_pair(a, c, rate),
        forall|k: int| 0 <= k < a.len() ==> wf_event(#[trigger] a[k]),
    ensures
        events_sorted(b),
        times_in_range(b),
        no_clumped_pair(b, c, rate),
        forall|k: int| 0 <= k < b.len() ==> wf_event(#[trigger] b[k]),
{
    assert forall|i: int, j: int| 0 <= i < j < b.len() implies (#[trigger] b[i]).start_time <= (#[trigger] b[j]).start_time
        && !clumped(b[i], b[j], c, rate) by {
        assert(same_chord(a[i], b[i]));
        assert(same_chord(a[j], b[j]));
        assert(!clumped(a[i], a[j], c, rate));
    }
    assert forall|i: int| 0 <= i < b.len() implies 0 <= (#[trigger] b[i]).start_time && 0 <= b[i].end_time by {
        assert(same_chord(a[i], b[i]));
    }
    assert forall|k: int| 0 <= k < b.len() implies wf_event(#[trigger] b[k]) by {
        assert(same_chord(a[k], b[k]));
        assert(wf_event(a[k]));
    }
}

/// Every event carries the marks of the roll, jack and long-note passes, each as computed
/// from the sequence itself.
pub open spec fn marks_set(s: Seq<StrainSolverData>, c: StrainConstants, rate: u32) -> bool {
    forall|i: int|
        0 <= i < s.len() ==> (#[trigger] s[i]).roll_manipulation_index == roll_mark(s, i, c)
            && s[i].jack_manipulation_index == jack_mark(s, i, c, rate) && s[i].ln_layer_type
            == ln_layer(s, i, c, rate)
}

/// Runs the roll, jack and long-note passes over events that have no layer yet.
pub fn mark_events(events: &mut Vec<StrainSolverData>, c: StrainConstants, rate: u32)
    requires
        c.wf(),
        0 < rate <= MAX_RATE,
        times_in_range(old(events)@),
        forall|i: int| 0 <= i < old(events)@.len() ==> (#[trigger] old(events)@[i]).ln_layer_type == LnLayerType::NoLayer,
    ensures
        final(events)@.len() == old(events)@.len(),
        forall|i: int| 0 <= i < old(events)@.len() ==> same_but_marks(#[trigger] final(events)@[i], old(events)@[i]),
        marks_set(final(events)@, c, rate),
{
    let ghost start = events@;
    compute_for_roll_manipulation(events, c);
    let ghost rolled = events@;
    proof {
        assert forall|i: int| 0 <= i < rolled.len() implies 0 <= (#[trigger] rolled[i]).start_time && 0 <= rolled[i].end_time by {
            assert(same_but_marks(rolled[i], start[i]));
        }
    }
    compute_for_jack_manipulation(events, c, rate);
    let ghost jacked = events@;
    proof {
        assert forall|i: int| 0 <= i < jacked.len() implies 0 <= (#[trigger] jacked[i]).start_time && 0 <= jacked[i].end_time by {
            assert(same_but_marks(jacked[i], rolled[i]));
        }
    }
    compute_for_ln_multiplier(events, c, rate);
    proof {
        let fin = events@;
        assert forall|k: int| 0 <= k < start.len() implies same_but_marks(#[trigger] fin[k], start[k]) by {
            assert(same_but_marks(rolled[k], start[k]));
            assert(same_but_marks(jacked[k], rolled[k]));
            assert(same_but_marks(fin[k], jacked[k]));
        }
        assert forall|k: int| 0 <= k < start.len() implies same_but_marks(#[trigger] start[k], fin[k]) by {
            assert(same_but_marks(fin[k], start[k]));
        }
        assert forall|k: int| 0 <= k < start.len() implies same_but_marks(#[trigger] rolled[k], fin[k]) by {
            assert(same_but_marks(jacked[k], rolled[k]));
            assert(same_but_marks(fin[k], jacked[k]));
        }
        assert forall|k: int| 0 <= k < start.len() implies same_but_marks(#[trigger] jacked[k], fin[k]) by {
            assert(same_but_marks(fin[k], jacked[k]));
        }
        lemma_marks_agree(start, fin, c, rate);
        lemma_marks_agree(rolled, fin, c, rate);
        lemma_marks_agree(jacked, fin, c, rate);
        assert forall|i: int| 0 <= i < fin.len() implies (#[trigger] fin[i]).roll_manipulation_index == roll_mark(fin, i, c)
            && fin[i].jack_manipulation_index == jack_mark(fin, i, c, rate) && fin[i].ln_layer_type
            == ln_layer(fin, i, c, rate) by {
            assert(roll_mark(start, i, c) == roll_mark(fin, i, c));
            assert(jack_mark(rolled, i, c, rate) == jack_mark(fin, i, c, rate));
            assert(ln_layer(jacked, i, c, rate) == ln_layer(fin, i, c, rate));
        }
    }
}

/// Event `e` lies within the clump tolerance after an event of `r` of its hand that uses
/// all of its fingers.
pub open spec fn covered_by(r: Seq<StrainSolverData>, e: StrainSolverData, c: StrainConstants, rate: u32) -> bool {
    exists|k: int| 0 <= k < r.len() && covers(r[k], e, c, rate) && keeps_fingers(r[k], e)
}

/// Note `m`, held by an event of `hand`, is a playable note of the map, played with its
/// lane's finger by its lane's hand.
pub open spec fn note_of_map(
    m: StrainSolverHitObject,
    hand: Hand,
    notes: Seq<HitObjectInfo>,
    mode: GameMode,
    has_scratch_key: bool,
    assume_hand: Hand,
) -> bool {
    &&& notes.contains(m.hit_object)
    &&& !is_scratch_note(m.hit_object, mode, has_scratch_key)
    &&& m.finger_state == finger_of_lane(mode, m.hit_object.lane as int)
    &&& hand == resolved_hand(mode, m.hit_object.lane as int, assume_hand)
}

/// Note `h` is played in the events `r`: an event of its hand starts at most the clump
/// tolerance before it and uses its lane's finger.
pub open spec fn note_played(
    r: Seq<StrainSolverData>,
    h: HitObjectInfo,
    mode: GameMode,
    assume_hand: Hand,
    c: StrainConstants,
    rate: u32,
) -> bool {
    exists|k: int|
        0 <= k < r.len() && (#[trigger] r[k]).hand == resolved_hand(mode, h.lane as int, assume_hand)
            && r[k].start_time <= h.start_time && played_within(
            h.start_time - r[k].start_time,
            c.chord_clump_tolerance,
            rate,
        ) && holds_finger(r[k].hit_objects@, finger_of_lane(mode, h.lane as int))
}

proof fn lemma_playable_members(s: Seq<HitObjectInfo>, mode: GameMode, has_scratch_key: bool)
    ensures
        forall|k: int|
            0 <= k < playable_notes(s, mode, has_scratch_key).len() ==> s.contains(
                #[trigger] playable_notes(s, mode, has_scratch_key)[k],
            ) && !is_scratch_note(playable_notes(s, mode, has_scratch_key)[k], mode, has_scratch_key),
        forall|i: int|
            0 <= i < s.len() && !is_scratch_note(s[i], mode, has_scratch_key) ==> playable_notes(
                s,
                mode,
                has_scratch_key,
            ).contains(#[trigger] s[i]),
    decreases s.len(),
{
    if s.len() > 0 {
        let d = s.drop_last();
        lemma_playable_members(d, mode, has_scratch_key);
        let p = playable_notes(s, mode, has_scratch_key);
        let p0 = playable_notes(d, mode, has_scratch_key);
        assert forall|k: int| 0 <= k < p.len() implies s.contains(#[trigger] p[k]) && !is_scratch_note(p[k], mode, has_scratch_key) by {
            if k < p0.len() {
                assert(p[k] == p0[k]);
                assert(d.contains(p0[k]));
                let i = choose|i: int| 0 <= i < d.len() && d[i] == p0[k];
                assert(s[i] == d[i]);
            } else {
                assert(p[k] == s.last());
                assert(s[s.len() - 1] == s.last());
            }
        }
        assert forall|i: int| 0 <= i < s.len() && !is_scratch_note(s[i], mode, has_scratch_key) implies p.contains(#[trigger] s[i]) by {
            if i < s.len() - 1 {
                assert(d[i] == s[i]);
                assert(p0.contains(d[i]));
                let k = choose|k: int| 0 <= k < p0.len() && p0[k] == d[i];
                assert(p[k] == p0[k]);
            } else {
                assert(s[i] == s.last());
                assert(p[p.len() - 1] == s.last());
            }
        }
    }
}

/// What the solve keeps of the notes: from the sorted notes through the base events and
/// the chords to the final events, which keep the chords' notes, hands and starts.
proof fn lemma_solve_notes(
    notes: Seq<HitObjectInfo>,
    sorted: Seq<HitObjectInfo>,
    base: Seq<StrainSolverData>,
    merged: Seq<StrainSolverData>,
    fin: Seq<StrainSolverData>,
    mode: GameMode,
    has_scratch_key: bool,
    assume_hand: Hand,
    c: StrainConstants,
    rate: u32,
)
    requires
        sorted.to_multiset() == notes.to_multiset(),
        base.len() == playable_notes(sorted, mode, has_scratch_key).len(),
        forall|k: int|
            0 <= k < base.len() ==> is_base_event(
                #[trigger] base[k],
                playable_notes(sorted, mode, has_scratch_key)[k],
                mode,
                assume_hand,
            ),
        forall|k: int| 0 <= k < merged.len() ==> #[trigger] chord_of(merged[k], base),
        forall|j: int| 0 <= j < base.len() ==> covered_by(merged, #[trigger] base[j], c, rate),
        fin.len() == merged.len(),
        forall|k: int| 0 <= k < fin.len() ==> same_chord(#[trigger] fin[k], merged[k]),
    ensures
        forall|k: int, y: int|
            0 <= k < fin.len() && 0 <= y < fin[k].hit_objects@.len() ==> note_of_map(
                #[trigger] fin[k].hit_objects@[y],
                fin[k].hand,
                notes,
                mode,
                has_scratch_key,
                assume_hand,
            ),
        forall|i: int|
            0 <= i < notes.len() && !is_scratch_note(notes[i], mode, has_scratch_key) ==> note_played(
                fin,
                #[trigger] notes[i],
                mode,
                assume_hand,
                c,
                rate,
            ),
{
    reveal(chord_of);
    reveal(keeps_fingers);
    reveal(note_in_events);
    let p = playable_notes(sorted, mode, has_scratch_key);
    lemma_playable_members(sorted, mode, has_scratch_key);
    assert forall|k: int, y: int|
        0 <= k < fin.len() && 0 <= y < fin[k].hit_objects@.len() implies note_of_map(
            #[trigger] fin[k].hit_objects@[y],
            fin[k].hand,
            notes,
            mode,
            has_scratch_key,
            assume_hand,
        ) by {
        assert(same_chord(fin[k], merged[k]));
        assert(chord_of(merged[k], base));
        let m = merged[k].hit_objects@[y];
        assert(note_in_events(base, merged[k].hand, m));
        let (j, x) = choose|j: int, x: int|
            0 <= j < base.len() && 0 <= x < base[j].hit_objects@.len() && (#[trigger] base[j].hit_objects@[x]) == m
                && base[j].hand == merged[k].hand;
        assert(is_base_event(base[j], p[j], mode, assume_hand));
        assert(x == 0);
        assert(sorted.contains(p[j]));
        to_multiset_contains(sorted, p[j]);
        to_multiset_contains(notes, p[j]);
    }
    assert forall|i: int|
        0 <= i < notes.len() && !is_scratch_note(notes[i], mode, has_scratch_key) implies note_played(
            fin,
            #[trigger] notes[i],
            mode,
            assume_hand,
            c,
            rate,
        ) by {
        let h = notes[i];
        to_multiset_contains(notes, h);
        to_multiset_contains(sorted, h);
        assert(notes.contains(h));
        assert(sorted.contains(h));
        let i2 = choose|i2: int| 0 <= i2 < sorted.len() && sorted[i2] == h;
        assert(p.contains(sorted[i2]));
        let j = choose|j: int| 0 <= j < p.len() && p[j] == h;
        assert(is_base_event(base[j], p[j], mode, assume_hand));
        assert(covered_by(merged, base[j], c, rate));
        let k = choose|k: int|
            0 <= k < merged.len() && covers(merged[k], base[j], c, rate) && keeps_fingers(merged[k], base[j]);
        assert(fingers_kept(merged[k].hit_objects@, base[j].hit_objects@));
        assert(base[j].hit_objects@[0].finger_state == finger_of_lane(mode, h.lane as int));
        assert(holds_finger(merged[k].hit_objects@, base[j].hit_objects@[0].finger_state));
        assert(same_chord(fin[k], merged[k]));
        assert(fin[k].hand == resolved_hand(mode, h.lane as int, assume_hand));
    }
}

/// The whole discrete solve of one hand assignment: the notes in the library's order, one
/// event per playable note, chords merged, transitions classified, and the roll, jack and
/// long-note marks set by the passes above. Every note of every event is a playable note of
/// the map with its lane's finger and hand, and every playable note is played by an event
/// of its hand starting at most the clump tolerance before it. A map of fewer than two
/// notes gives no events.
pub fn solve_strains(map: &QuaverMap, rate: u32, c: StrainConstants, assume_hand: Hand) -> (r: Vec<
    StrainSolverData,
>)
    requires
        lanes_in_range(map.hit_objects@, map.key_count_spec(true)),
        valid_notes(map.hit_objects@),
        c.wf(),
        0 < rate <= MAX_RATE,
        assume_hand != Hand::Ambiguous,
    ensures
        map.hit_objects@.len() < 2 ==> r@.len() == 0,
        r@.len() <= map.hit_objects@.len(),
        events_sorted(r@),
        times_in_range(r@),
        no_clumped_pair(r@, c, rate),
        forall|k: int| 0 <= k < r@.len() ==> wf_event(#[trigger] r@[k]),
        transitions_classified(r@),
        marks_set(r@, c, rate),
        forall|k: int, y: int|
            0 <= k < r@.len() && 0 <= y < r@[k].hit_objects@.len() ==> note_of_map(
                #[trigger] r@[k].hit_objects@[y],
                r@[k].hand,
                map.hit_objects@,
                map.mode,
                map.has_scratch_key,
                assume_hand,
            ),
        map.hit_objects@.len() >= 2 ==> forall|i: int|
            0 <= i < map.hit_objects@.len() && !is_scratch_note(
                map.hit_objects@[i],
                map.mode,
                map.has_scratch_key,
            ) ==> note_played(r@, #[trigger] map.hit_objects@[i], map.mode, assume_hand, c, rate),
{
    if map.hit_objects.len() < 2 {
        return Vec::new();
    }
    let sorted = sort_hit_objects(&map.hit_objects);
    proof {
        lemma_sorted_notes_valid(map.hit_objects@, sorted@, map.key_count_spec(true));
        lemma_sorted_by_start(sorted@);
    }
    let base = compute_base_strain_states(&sorted, map.mode, map.has_scratch_key, assume_hand);
    proof {
        assert(base@.len() <= sorted@.len()) by {
            lemma_playable_len(sorted@, map.mode, map.has_scratch_key);
        }
    }
    let mut events = compute_for_chords(&base, c, rate);
    let ghost merged = events@;
    proof {
        assert forall|j: int| 0 <= j < base@.len() implies covered_by(merged, #[trigger] base@[j], c, rate) by {
            let b = base@[j];
            assert(exists|k: int|
                0 <= k < merged.len() && covers(merged[k], b, c, rate) && keeps_fingers(merged[k], b));
        }
    }
    compute_for_finger_actions(&mut events);
    let ghost classified = events@;
    proof {
        assert forall|k: int| 0 <= k < classified.len() implies same_chord(#[trigger] classified[k], merged[k]) by {
            assert(same_but_transition(classified[k], merged[k]));
        }
        lemma_chords_kept(merged, classified, c, rate);
    }
    mark_events(&mut events, c, rate);
    proof {
        let fin = events@;
        assert forall|k: int| 0 <= k < classified.len() implies same_but_marks(#[trigger] classified[k], fin[k]) by {
            assert(same_but_marks(fin[k], classified[k]));
        }
        assert forall|k: int| 0 <= k < classified.len() implies same_chord(#[trigger] classified[k], fin[k]) by {
            assert(same_but_marks(fin[k], classified[k]));
        }
        lemma_classified_kept(classified, fin);
        lemma_chords_kept(classified, fin, c, rate);
        assert forall|k: int| 0 <= k < fin.len() implies same_chord(#[trigger] fin[k], merged[k]) by {
            assert(same_but_marks(fin[k], classified[k]));
            assert(same_but_transition(classified[k], merged[k]));
        }
        lemma_solve_notes(
            map.hit_objects@,
            sorted@,
            base@,
            merged,
            fin,
            map.mode,
            map.has_scratch_key,
            assume_hand,
            c,
            rate,
        );
    }
    events
}

proof fn lemma_playable_len(s: Seq<HitObjectInfo>, mode: GameMode, has_scratch_key: bool)
    ensures
        playable_notes(s, mode, has_scratch_key).len() <= s.len(),
    decreases s.len(),
{
    if s.len() > 0 {
        lemma_playable_len(s.drop_last(), mode, has_scratch_key);
    }
}

} // verus!

verus! {

pub const PATTERN_ROLLS: i64 = 32;

pub const PATTERN_SIMPLE_VIBRO: i64 = 32768;

/// Pattern flags of a solved map, one bit each.
#[derive(Clone, Copy, Debug, PartialEq, Eq, Structural)]
pub struct QssPatternFlags {
    pub bits: i64,
}

/// Events among the first `n` with a roll mark (`rolls`) or a jack mark.
pub open spec fn marked_count(s: Seq<StrainSolverData>, n: int, rolls: bool) -> int
    decreases n,
{
    if n <= 0 {
        0
    } else {
        marked_count(s, n - 1, rolls) + if (rolls && s[n - 1].roll_manipulation_index.is_some()) || (
        !rolls && s[n - 1].jack_manipulation_index.is_some()) {
            1int
        } else {
            0int
        }
    }
}

/// Vibro when jack manipulation is found at more than a tenth of the events, rolls when
/// roll manipulation is found at more than fifteen hundredths of them.
pub fn compute_for_pattern_flags(events: &Vec<StrainSolverData>) -> (r: QssPatternFlags)
    ensures
        r.bits == (if 10 * marked_count(events@, events@.len() as int, false) > events@.len() {
            PATTERN_SIMPLE_VIBRO
        } else {
            0
        }) + (if 20 * marked_count(events@, events@.len() as int, true) > 3 * events@.len() {
            PATTERN_ROLLS
        } else {
            0
        }),
{
    let n = events.len();
    let mut vibro: u64 = 0;
    let mut rolls: u64 = 0;
    let mut i: usize = 0;
    while i < n
        invariant
            n == events@.len(),
            i <= n,
            vibro as int == marked_count(events@, i as int, false),
            rolls as int == marked_count(events@, i as int, true),
            vibro <= i && rolls <= i,
        decreases n - i,
    {
        if events[i].jack_manipulation_index.is_some() {
            vibro = vibro + 1;
        }
        if events[i].roll_manipulation_index.is_some() {
            rolls = rolls + 1;
        }
        i = i + 1;
    }
    let mut bits: i64 = 0;
    if 10 * (vibro as u128) > n as u128 {
        bits = bits + PATTERN_SIMPLE_VIBRO;
    }
    if 20 * (rolls as u128) > 3 * (n as u128) {
        bits = bits + PATTERN_ROLLS;
    }
    QssPatternFlags { bits }
}

/// Average notes per second as the solver counts them, `numerator / denominator`:
/// `1000 * notes / (length * (1.5 - 0.5 * rate))` with the rate in hundredths.
pub open spec fn note_density(notes: int, length: int, rate: int) -> (int, int) {
    (200_000 * notes, length * (300 - rate))
}

pub fn compute_note_density_data(notes: u32, length: u32, rate: u32) -> (r: (u64, u64))
    requires
        rate < 300,
    ensures
        r.0 as int == note_density(notes as int, length as int, rate as int).0,
        r.1 as int == note_density(notes as int, length as int, rate as int).1,
{
    assert(length as int * (300 - rate as int) <= 0x1_0000_0000 * 300) by (nonlinear_arith)
        requires
            length <= 0xffff_ffff,
            rate < 300,
    ;
    (200_000 * notes as u64, length as u64 * (300 - rate as u64))
}

/// A faster rate raises the density: the formula shortens the length by the rate, so
/// for a map with notes and a length, density grows strictly with the rate.
pub proof fn lemma_density_rises_with_rate(notes: int, length: int, r1: int, r2: int)
    requires
        notes > 0,
        length > 0,
        0 < r1 < r2 < 300,
    ensures
        note_density(notes, length, r1).0 * note_density(notes, length, r2).1 < note_density(
            notes,
            length,
            r2,
        ).0 * note_density(notes, length, r1).1,
{
    assert(200_000 * notes * (length * (300 - r2)) < 200_000 * notes * (length * (300 - r1))) by (nonlinear_arith)
        requires
            notes > 0,
            length > 0,
            r1 < r2,
    ;
}

} // verus!
