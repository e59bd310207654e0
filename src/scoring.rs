use vstd::prelude::*;
use crate::frames::QuaverReplay;
use crate::map::{HitObjectInfo, actions_of, judgement_count, lemma_judgement_count_bounds, playing_time, QuaverMap};
use crate::mods::{has_flag, ModIdentifier, AUTOPLAY, NO_FAIL, NO_MISS};

verus! {

/// Judgement tiers, best first. `GhostTap` is an action that no window takes.
#[derive(Clone, Copy, Debug, PartialEq, Eq, Structural)]
pub enum Judgement {
    Marv,
    Perf,
    Great,
    Good,
    Okay,
    Miss,
    GhostTap,
}

#[derive(Clone, Copy, Debug, PartialEq, Eq, Structural)]
pub enum HitStatType {
    HIT,
    MISS,
}

#[derive(Clone, Copy, Debug, PartialEq, Eq, Structural)]
pub enum KeyPressType {
    NONE,
    PRESS,
    RELEASE,
}

/// One judged action of a play, with accuracy and health after it in hundredths.
#[derive(Clone, Copy, Debug, PartialEq, Eq, Structural)]
pub struct HitStat {
    pub type_: HitStatType,
    pub key_press_type: KeyPressType,
    pub hit_object: Option<HitObjectInfo>,
    pub song_position: i32,
    pub judgement: Judgement,
    pub hit_difference: i32,
    pub accuracy: i64,
    pub health: i64,
}

impl HitStat {
    /// A stat where missing values default to position 0, no judgement, and zero
    /// accuracy and health.
    pub fn new(
        type_: HitStatType,
        key_press_type: KeyPressType,
        hit_object: Option<HitObjectInfo>,
        song_position: Option<i32>,
        judgement: Option<Judgement>,
        hit_difference: i32,
        accuracy: Option<i64>,
        health: Option<i64>,
    ) -> (r: HitStat)
        ensures
            r.type_ == type_ && r.key_press_type == key_press_type && r.hit_object == hit_object,
            r.hit_difference == hit_difference,
            r.song_position == match song_position {
                Some(p) => p,
                None => 0,
            },
            r.judgement == match judgement {
                Some(j) => j,
                None => Judgement::GhostTap,
            },
            r.accuracy == match accuracy {
                Some(a) => a,
                None => 0,
            },
            r.health == match health {
                Some(h) => h,
                None => 0,
            },
    {
        HitStat {
            type_,
            key_press_type,
            hit_object,
            song_position: match song_position {
                Some(p) => p,
                None => 0,
            },
            judgement: match judgement {
                Some(j) => j,
                None => Judgement::GhostTap,
            },
            hit_difference,
            accuracy: match accuracy {
                Some(a) => a,
                None => 0,
            },
            health: match health {
                Some(h) => h,
                None => 0,
            },
        }
    }
}

impl Judgement {
    pub open spec fn rank(self) -> int {
        match self {
            Judgement::Marv => 0,
            Judgement::Perf => 1,
            Judgement::Great => 2,
            Judgement::Good => 3,
            Judgement::Okay => 4,
            Judgement::Miss => 5,
            Judgement::GhostTap => 6,
        }
    }

    pub fn index(self) -> (r: usize)
        ensures
            r as int == self.rank(),
    {
        match self {
            Judgement::Marv => 0,
            Judgement::Perf => 1,
            Judgement::Great => 2,
            Judgement::Good => 3,
            Judgement::Okay => 4,
            Judgement::Miss => 5,
            Judgement::GhostTap => 6,
        }
    }

    pub open spec fn of_rank(i: int) -> Judgement {
        if i == 0 {
            Judgement::Marv
        } else if i == 1 {
            Judgement::Perf
        } else if i == 2 {
            Judgement::Great
        } else if i == 3 {
            Judgement::Good
        } else if i == 4 {
            Judgement::Okay
        } else if i == 5 {
            Judgement::Miss
        } else {
            Judgement::GhostTap
        }
    }

    pub fn from_index(i: usize) -> (r: Judgement)
        ensures
            r == Judgement::of_rank(i as int),
    {
        if i == 0 {
            Judgement::Marv
        } else if i == 1 {
            Judgement::Perf
        } else if i == 2 {
            Judgement::Great
        } else if i == 3 {
            Judgement::Good
        } else if i == 4 {
            Judgement::Okay
        } else if i == 5 {
            Judgement::Miss
        } else {
            Judgement::GhostTap
        }
    }
}

/// Hit windows, each in hundredths of a millisecond either side of the note.
#[derive(Clone, Copy, Debug, PartialEq, Eq, Structural)]
pub struct JudgementWindows {
    pub combo_break_judgement: Judgement,
    pub marvelous: u32,
    pub perfect: u32,
    pub great: u32,
    pub good: u32,
    pub okay: u32,
    pub miss: u32,
}

pub open spec fn window_of(w: JudgementWindows, i: int) -> int {
    if i == 0 {
        w.marvelous as int
    } else if i == 1 {
        w.perfect as int
    } else if i == 2 {
        w.great as int
    } else if i == 3 {
        w.good as int
    } else if i == 4 {
        w.okay as int
    } else {
        w.miss as int
    }
}

impl JudgementWindows {
    /// The standard windows: 18, 43, 76, 106, 127 and 164 ms, a miss breaking combo.
    pub fn standard() -> (r: JudgementWindows)
        ensures
            r.combo_break_judgement == Judgement::Miss,
            r.marvelous == 1800 && r.perfect == 4300 && r.great == 7600,
            r.good == 10600 && r.okay == 12700 && r.miss == 16400,
    {
        JudgementWindows {
            combo_break_judgement: Judgement::Miss,
            marvelous: 1800,
            perfect: 4300,
            great: 7600,
            good: 10600,
            okay: 12700,
            miss: 16400,
        }
    }

    /// The window of a tier; none for `GhostTap`.
    pub fn get_value_from_judgement(&self, j: Judgement) -> (r: Option<u32>)
        ensures
            j == Judgement::GhostTap <==> r.is_none(),
            r.is_some() ==> r.unwrap() as int == window_of(*self, j.rank()),
    {
        match j {
            Judgement::Marv => Some(self.marvelous),
            Judgement::Perf => Some(self.perfect),
            Judgement::Great => Some(self.great),
            Judgement::Good => Some(self.good),
            Judgement::Okay => Some(self.okay),
            Judgement::Miss => Some(self.miss),
            Judgement::GhostTap => None,
        }
    }
}

impl Default for JudgementWindows {
    /// The standard windows.
    fn default() -> (r: JudgementWindows)
        ensures
            r.combo_break_judgement == Judgement::Miss,
            r.marvelous == 1800 && r.perfect == 4300 && r.great == 7600,
            r.good == 10600 && r.okay == 12700 && r.miss == 16400,
    {
        JudgementWindows::standard()
    }
}

/// The action fits the window of tier `i`; a release gets half as much again.
pub open spec fn fits_window(w: JudgementWindows, i: int, abs_diff: int, release: bool) -> bool {
    if release {
        200 * abs_diff <= 3 * window_of(w, i)
    } else {
        100 * abs_diff <= window_of(w, i)
    }
}

/// The judgement for an action `abs_diff` ms off its note, searching tiers from `i` on:
/// the first tier whose window holds it, a release never reaching `Miss` and being
/// lowered from `Okay` to `Good`; `GhostTap` where none holds it.
pub open spec fn judge_from(w: JudgementWindows, i: int, abs_diff: int, release: bool) -> Judgement
    decreases 6 - i,
{
    if i >= 6 || (release && i == 5) {
        Judgement::GhostTap
    } else if fits_window(w, i, abs_diff, release) {
        if release && i == 4 {
            Judgement::Good
        } else {
            Judgement::of_rank(i)
        }
    } else {
        judge_from(w, i + 1, abs_diff, release)
    }
}

pub open spec fn judge(w: JudgementWindows, abs_diff: int, release: bool) -> Judgement {
    judge_from(w, 0, abs_diff, release)
}

pub const MULTIPLIER_MAX_INDEX: i64 = 15;

pub const MULTIPLIER_COUNT_TO_INCREASE_INDEX: i64 = 10;

pub const STANDARDIZED_MAX_SCORE: i64 = 1_000_000;

/// Score of a tier before the combo multiplier.
pub open spec fn score_weight(i: int) -> int {
    if i == 0 {
        100
    } else if i == 1 {
        50
    } else if i == 2 {
        25
    } else if i == 3 {
        10
    } else if i == 4 {
        5
    } else {
        0
    }
}

/// Accuracy of a tier, in hundredths of a percent.
pub open spec fn accuracy_weight(i: int) -> int {
    if i == 0 {
        10000
    } else if i == 1 {
        9825
    } else if i == 2 {
        6500
    } else if i == 3 {
        2500
    } else if i == 4 {
        -10000
    } else {
        -5000
    }
}

/// Health change of a tier before the density adjustment, in hundredths.
pub open spec fn base_health_weight(i: int) -> int {
    if i == 0 {
        50
    } else if i == 1 {
        40
    } else if i == 2 {
        20
    } else if i == 3 {
        -300
    } else if i == 4 {
        -450
    } else {
        -600
    }
}

pub fn judgement_score_weighting(j: Judgement) -> (r: i64)
    requires
        j != Judgement::GhostTap,
    ensures
        r == score_weight(j.rank()),
{
    match j {
        Judgement::Marv => 100,
        Judgement::Perf => 50,
        Judgement::Great => 25,
        Judgement::Good => 10,
        Judgement::Okay => 5,
        _ => 0,
    }
}

pub fn judgement_accuracy_weighting(j: Judgement) -> (r: i64)
    requires
        j != Judgement::GhostTap,
    ensures
        r == accuracy_weight(j.rank()),
{
    match j {
        Judgement::Marv => 10000,
        Judgement::Perf => 9825,
        Judgement::Great => 6500,
        Judgement::Good => 2500,
        Judgement::Okay => -10000,
        _ => -5000,
    }
}

/// Sum of the judgements counted so far.
pub open spec fn total_of(c: Seq<i64>) -> int {
    c[0] + c[1] + c[2] + c[3] + c[4] + c[5]
}

pub open spec fn weighted_accuracy(c: Seq<i64>) -> int {
    c[0] * accuracy_weight(0) + c[1] * accuracy_weight(1) + c[2] * accuracy_weight(2) + c[3]
        * accuracy_weight(3) + c[4] * accuracy_weight(4) + c[5] * accuracy_weight(5)
}

/// Accuracy in hundredths of a percent: the mean tier accuracy, not below zero.
pub open spec fn accuracy_of(c: Seq<i64>) -> int {
    if total_of(c) <= 0 || weighted_accuracy(c) <= 0 {
        0
    } else {
        weighted_accuracy(c) / total_of(c)
    }
}

/// Score of a perfect play of `total` judgements, with the combo multiplier rising to
/// its cap.
pub open spec fn summed_score_of(total: int) -> int
    decreases total,
{
    if total <= 0 {
        0
    } else {
        let i: int = if total < 150 {
            total
        } else {
            150
        };
        summed_score_of(total - 1) + 100 + 10 * (i / 10)
    }
}

/// Rounds `num / den` to the nearest integer, halves away from zero.
pub open spec fn round_div(num: int, den: int) -> int {
    if num >= 0 {
        (2 * num + den) / (2 * den)
    } else {
        -((-2 * num + den) / (2 * den))
    }
}

/// Density coefficients of the health weights, in thousandths: weight times
/// `slope * density + offset`. Misses keep their weight.
pub open spec fn health_slope(i: int) -> int {
    if i == 0 {
        -140
    } else if i == 1 {
        -200
    } else if i == 2 {
        -140
    } else if i == 3 {
        84
    } else {
        81
    }
}

pub open spec fn health_offset(i: int) -> int {
    if i == 0 {
        2680
    } else if i == 1 {
        3400
    } else if i == 2 {
        2680
    } else if i == 3 {
        -8
    } else {
        -28
    }
}

/// The density-adjusted weight of tier `i` in hundredths, for `actions` actions over
/// `length` ms.
pub open spec fn adjusted_health_weight(i: int, actions: int, length: int) -> int {
    round_div(
        (health_slope(i) * 1000 * actions + health_offset(i) * length) * base_health_weight(i),
        1000 * length,
    )
}

/// The weights are adjusted only for a density from 2 to under 12 actions per second;
/// outside that range they keep their nominal values.
pub open spec fn density_adjusts(actions: int, length: int) -> bool {
    length > 0 && 2 * length <= 1000 * actions && 1000 * actions < 12 * length
}

fn round_div_exec(num: i64, den: i64) -> (r: i64)
    requires
        0 < den <= 0x1_0000_0000_0000,
        -10000 * den <= num <= 10000 * den,
    ensures
        r == round_div(num as int, den as int),
        -10001 <= r <= 10001,
{
    if num >= 0 {
        assert(0 <= (2 * num + den) / (2 * den) <= 10001) by (nonlinear_arith)
            requires
                0 < den,
                0 <= num <= 10000 * den,
        ;
    } else {
        assert(0 <= (-2 * num + den) / (2 * den) <= 10001) by (nonlinear_arith)
            requires
                0 < den,
                -10000 * den <= num < 0,
        ;
    }
    if num >= 0 {
        (2 * num + den) / (2 * den)
    } else {
        -((-2 * num + den) / (2 * den))
    }
}

/// A running play: judgement counts, combo, score, accuracy and health. Accuracy is in
/// hundredths of a percent and health in hundredths, 0 to 100 percent both.
#[derive(Clone, Debug)]
pub struct ScoreProcessor {
    pub mods: ModIdentifier,
    pub score: i64,
    pub accuracy: i64,
    pub health: i64,
    pub combo: i64,
    pub max_combo: i64,
    pub windows: JudgementWindows,
    pub total_judgements: i64,
    pub summed_score: i64,
    pub score_count: i64,
    /// Judgements so far, by tier from `Marv` to `Miss`.
    pub current_judgements: Vec<i64>,
    /// Health change of each tier from `Marv` to `Miss`, in hundredths.
    pub health_weights: Vec<i64>,
    pub force_fail: bool,
    pub multiplier_count: i64,
    pub multiplier_index: i64,
}

pub const MAX_JUDGEMENTS: i64 = 0x1000_0000;

impl ScoreProcessor {
    pub open spec fn wf(&self) -> bool {
        &&& self.current_judgements@.len() == 6
        &&& self.health_weights@.len() == 6
        &&& forall|i: int| 0 <= i < 6 ==> 0 <= #[trigger] self.current_judgements@[i]
        &&& forall|i: int| 0 <= i < 6 ==> -100_000 <= #[trigger] self.health_weights@[i] <= 100_000
        &&& total_of(self.current_judgements@) <= MAX_JUDGEMENTS
        &&& 0 <= self.accuracy <= 10000
        &&& 0 <= self.health <= 10000
        &&& 0 <= self.combo <= self.max_combo <= total_of(self.current_judgements@)
        &&& 0 <= self.multiplier_count <= MULTIPLIER_MAX_INDEX * MULTIPLIER_COUNT_TO_INCREASE_INDEX
        &&& 0 <= self.score_count <= 250 * total_of(self.current_judgements@)
        &&& 0 <= self.summed_score
    }

    pub open spec fn combo_break_tier(&self) -> int {
        if self.windows.combo_break_judgement == Judgement::Marv
            || self.windows.combo_break_judgement == Judgement::GhostTap {
            5
        } else {
            self.windows.combo_break_judgement.rank()
        }
    }

    pub open spec fn failed_spec(&self) -> bool {
        (self.health <= 0 && !has_flag(self.mods.bits, NO_FAIL)) || self.force_fail
    }

    pub fn failed(&self) -> (r: bool)
        ensures
            r == self.failed_spec(),
    {
        (self.health <= 0 && !self.mods.contains(NO_FAIL)) || self.force_fail
    }

    pub fn force_fail(&self) -> (r: bool)
        ensures
            r == self.force_fail,
    {
        self.force_fail
    }

    pub fn total_judgement_count(&self) -> (r: i64)
        requires
            self.wf(),
        ensures
            r == total_of(self.current_judgements@),
    {
        self.current_judgements[0] + self.current_judgements[1] + self.current_judgements[2]
            + self.current_judgements[3] + self.current_judgements[4] + self.current_judgements[5]
    }

    /// A fresh play of `map`: full health, nothing judged, the health weights adjusted to
    /// the map's density of key actions unless autoplay is on.
    pub fn from_map(map: &QuaverMap, mods: ModIdentifier, windows: Option<JudgementWindows>) -> (r:
        ScoreProcessor)
        requires
            map.hit_objects@.len() <= 1_000_000,
        ensures
            r.wf(),
            r.health == 10000,
            r.combo == 0 && r.score == 0 && r.accuracy == 0,
            r.total_judgements == judgement_count(map.hit_objects@),
            r.summed_score == summed_score_of(r.total_judgements as int),
            windows.is_some() ==> r.windows == windows.unwrap(),
            windows.is_none() ==> r.windows.combo_break_judgement == Judgement::Miss
                && r.windows.marvelous == 1800 && r.windows.perfect == 4300 && r.windows.great == 7600
                && r.windows.good == 10600 && r.windows.okay == 12700 && r.windows.miss == 16400,
            !r.force_fail && r.max_combo == 0 && r.score_count == 0 && r.multiplier_count == 0,
            forall|i: int| 0 <= i < 6 ==> #[trigger] r.current_judgements@[i] == 0,
            forall|i: int|
                0 <= i < 6 ==> #[trigger] r.health_weights@[i] == if i < 5 && !has_flag(
                    mods.bits,
                    AUTOPLAY,
                ) && density_adjusts(
                    actions_of(map.hit_objects@).len() as int,
                    playing_time(map.hit_objects@),
                ) {
                    adjusted_health_weight(
                        i,
                        actions_of(map.hit_objects@).len() as int,
                        playing_time(map.hit_objects@),
                    )
                } else {
                    base_health_weight(i)
                },
    {
        let (actions, length) = map.get_actions_per_second();
        let total = map.get_total_judgement_count();
        proof {
            lemma_judgement_count_bounds(map.hit_objects@);
        }
        let summed = calculate_summed_score(total);
        let w = match windows {
            Some(w) => w,
            None => JudgementWindows::standard(),
        };
        let weights = initialise_health_weighting(mods, actions, length);
        ScoreProcessor {
            mods,
            score: 0,
            accuracy: 0,
            health: 10000,
            combo: 0,
            max_combo: 0,
            windows: w,
            total_judgements: total,
            summed_score: summed,
            score_count: 0,
            current_judgements: vec![0, 0, 0, 0, 0, 0],
            health_weights: weights,
            force_fail: false,
            multiplier_count: 0,
            multiplier_index: 0,
        }
    }

    /// The play that a replay records: its modifiers, score, maximum combo and judgement
    /// counts, with the accuracy those counts give and full health.
    pub fn from_replay(replay: &QuaverReplay, windows: Option<JudgementWindows>) -> (r: ScoreProcessor)
        requires
            replay.count_marv >= 0 && replay.count_perf >= 0 && replay.count_great >= 0,
            replay.count_good >= 0 && replay.count_okay >= 0 && replay.count_miss >= 0,
            replay.count_marv + replay.count_perf + replay.count_great + replay.count_good
                + replay.count_okay + replay.count_miss <= MAX_JUDGEMENTS,
        ensures
            r.mods == replay.mods,
            r.score == replay.score as i64,
            r.max_combo == replay.max_combo as i64,
            r.combo == 0,
            r.health == 10000,
            !r.force_fail,
            r.current_judgements@ == seq![
                replay.count_marv as i64,
                replay.count_perf as i64,
                replay.count_great as i64,
                replay.count_good as i64,
                replay.count_okay as i64,
                replay.count_miss as i64,
            ],
            r.accuracy == accuracy_of(r.current_judgements@),
            windows.is_some() ==> r.windows == windows.unwrap(),
            windows.is_none() ==> r.windows.combo_break_judgement == Judgement::Miss
                && r.windows.marvelous == 1800 && r.windows.perfect == 4300 && r.windows.great == 7600
                && r.windows.good == 10600 && r.windows.okay == 12700 && r.windows.miss == 16400,
    {
        let counts: Vec<i64> = vec![
            replay.count_marv as i64,
            replay.count_perf as i64,
            replay.count_great as i64,
            replay.count_good as i64,
            replay.count_okay as i64,
            replay.count_miss as i64,
        ];
        assert(counts@ =~= seq![
            replay.count_marv as i64,
            replay.count_perf as i64,
            replay.count_great as i64,
            replay.count_good as i64,
            replay.count_okay as i64,
            replay.count_miss as i64,
        ]);
        let accuracy = calculate_accuracy(&counts);
        let w = match windows {
            Some(w) => w,
            None => JudgementWindows::standard(),
        };
        ScoreProcessor {
            mods: replay.mods,
            score: replay.score as i64,
            accuracy,
            health: 10000,
            combo: 0,
            max_combo: replay.max_combo as i64,
            windows: w,
            total_judgements: 0,
            summed_score: 0,
            score_count: 0,
            current_judgements: counts,
            health_weights: vec![50, 40, 20, -300, -450, -600],
            force_fail: false,
            multiplier_count: 0,
            multiplier_index: 0,
        }
    }

    /// Judges an action `hit_difference` ms off its note (`i32::MIN` for a note never hit,
    /// which is a miss), and counts it unless `calculate_all_stats` is `Some(false)`.
    pub fn calculate_score_from_hit_difference(
        &mut self,
        hit_difference: i32,
        key_press_type: KeyPressType,
        calculate_all_stats: Option<bool>,
    ) -> (r: Judgement)
        requires
            old(self).wf(),
            total_of(old(self).current_judgements@) < MAX_JUDGEMENTS,
        ensures
            final(self).wf(),
            r == if hit_difference == i32::MIN {
                Judgement::Miss
            } else {
                judge(
                    old(self).windows,
                    if hit_difference < 0 {
                        -hit_difference
                    } else {
                        hit_difference as int
                    },
                    key_press_type == KeyPressType::RELEASE,
                )
            },
            (hit_difference == i32::MIN || r == Judgement::GhostTap || calculate_all_stats == Some(false))
                ==> *final(self) == *old(self),
    {
        if hit_difference == i32::MIN {
            return Judgement::Miss;
        }
        let abs: i64 = if hit_difference < 0 {
            -(hit_difference as i64)
        } else {
            hit_difference as i64
        };
        let release = key_press_type == KeyPressType::RELEASE;
        let mut judgement = Judgement::GhostTap;
        let mut i: usize = 0;
        while i < 6
            invariant_except_break
                judgement == Judgement::GhostTap,
            invariant
                0 <= i <= 6,
                judge(self.windows, abs as int, release) == judge_from(self.windows, i as int, abs as int, release),
                0 <= abs <= 0x8000_0000,
            ensures
                judgement == judge(self.windows, abs as int, release),
            decreases 6 - i,
        {
            if release && i == 5 {
                break;
            }
            let j = Judgement::from_index(i);
            let window = match self.windows.get_value_from_judgement(j) {
                Some(v) => v as i64,
                None => 0,
            };
            let fits = if release {
                200 * abs <= 3 * window
            } else {
                100 * abs <= window
            };
            if fits {
                judgement = if release && i == 4 {
                    Judgement::Good
                } else {
                    j
                };
                break;
            }
            i = i + 1;
        }
        if judgement == Judgement::GhostTap {
            return judgement;
        }
        let all = match calculate_all_stats {
            Some(b) => b,
            None => true,
        };
        if all {
            self.calculate_score_from_judgement(judgement, Some(release));
        }
        judgement
    }

    /// Counts a judgement: accuracy, combo and its multiplier, score and health follow.
    /// A judgement at or past the combo-break tier resets the combo, and with the no-miss
    /// modifier fails the play at once.
    pub fn calculate_score_from_judgement(&mut self, judgement: Judgement, is_long_note_release: Option<bool>)
        requires
            old(self).wf(),
            judgement != Judgement::GhostTap,
            total_of(old(self).current_judgements@) < MAX_JUDGEMENTS,
        ensures
            final(self).wf(),
            final(self).current_judgements@ == old(self).current_judgements@.update(
                judgement.rank(),
                (old(self).current_judgements@[judgement.rank()] + 1) as i64,
            ),
            final(self).accuracy == accuracy_of(final(self).current_judgements@),
            final(self).combo == if judgement.rank() < old(self).combo_break_tier() {
                old(self).combo + 1
            } else {
                0
            },
            judgement.rank() >= old(self).combo_break_tier() && has_flag(old(self).mods.bits, NO_MISS)
                ==> final(self).health == 0 && final(self).force_fail,
            !(judgement.rank() >= old(self).combo_break_tier() && has_flag(old(self).mods.bits, NO_MISS))
                ==> final(self).health == clamp_health(
                old(self).health + old(self).health_weights@[judgement.rank()],
            ) && final(self).force_fail == old(self).force_fail,
            final(self).max_combo == if final(self).combo > old(self).max_combo {
                final(self).combo
            } else {
                old(self).max_combo
            },
            final(self).multiplier_count == clamp_multiplier(
                old(self).multiplier_count + if judgement.rank() < old(self).combo_break_tier() {
                    if judgement == Judgement::Good {
                        -MULTIPLIER_COUNT_TO_INCREASE_INDEX
                    } else {
                        1
                    }
                } else {
                    -2 * MULTIPLIER_COUNT_TO_INCREASE_INDEX
                },
            ),
            !(judgement.rank() >= old(self).combo_break_tier() && has_flag(old(self).mods.bits, NO_MISS))
                ==> final(self).multiplier_index == final(self).multiplier_count
                / MULTIPLIER_COUNT_TO_INCREASE_INDEX && final(self).score_count == old(self).score_count
                + score_weight(judgement.rank()) + final(self).multiplier_index
                * MULTIPLIER_COUNT_TO_INCREASE_INDEX && final(self).score == if old(self).summed_score > 0 {
                STANDARDIZED_MAX_SCORE * final(self).score_count / (old(self).summed_score as int)
            } else {
                0
            },
            final(self).windows == old(self).windows,
            final(self).mods == old(self).mods,
            final(self).health_weights == old(self).health_weights,
            final(self).summed_score == old(self).summed_score,
            final(self).total_judgements == old(self).total_judgements,
    {
        let idx = judgement.index();
        let count = self.current_judgements[idx];
        self.current_judgements.set(idx, count + 1);
        self.accuracy = calculate_accuracy(&self.current_judgements);
        let mut combo_break = self.windows.combo_break_judgement;
        if combo_break == Judgement::Marv || combo_break == Judgement::GhostTap {
            combo_break = Judgement::Miss;
        }
        let broke = idx >= combo_break.index();
        if !broke {
            if judgement == Judgement::Good {
                self.multiplier_count = self.multiplier_count - MULTIPLIER_COUNT_TO_INCREASE_INDEX;
            } else {
                self.multiplier_count = self.multiplier_count + 1;
            }
            self.combo = self.combo + 1;
            if self.combo > self.max_combo {
                self.max_combo = self.combo;
            }
        } else {
            self.multiplier_count = self.multiplier_count - MULTIPLIER_COUNT_TO_INCREASE_INDEX * 2;
            self.combo = 0;
        }
        if self.multiplier_count < 0 {
            self.multiplier_count = 0;
        }
        if self.multiplier_count > MULTIPLIER_MAX_INDEX * MULTIPLIER_COUNT_TO_INCREASE_INDEX {
            self.multiplier_count = MULTIPLIER_MAX_INDEX * MULTIPLIER_COUNT_TO_INCREASE_INDEX;
        }
        if broke && self.mods.contains(NO_MISS) {
            self.health = 0;
            self.force_fail = true;
            return;
        }
        self.multiplier_index = self.multiplier_count / MULTIPLIER_COUNT_TO_INCREASE_INDEX;
        self.score_count = self.score_count + judgement_score_weighting(judgement)
            + self.multiplier_index * MULTIPLIER_COUNT_TO_INCREASE_INDEX;
        if self.summed_score > 0 {
            self.score = STANDARDIZED_MAX_SCORE * self.score_count / self.summed_score;
        } else {
            self.score = 0;
        }
        let health = self.health + self.health_weights[idx];
        self.health = if health < 0 {
            0
        } else if health > 10000 {
            10000
        } else {
            health
        };
    }
}

pub open spec fn clamp_multiplier(m: int) -> int {
    if m < 0 {
        0
    } else if m > MULTIPLIER_MAX_INDEX * MULTIPLIER_COUNT_TO_INCREASE_INDEX {
        MULTIPLIER_MAX_INDEX * MULTIPLIER_COUNT_TO_INCREASE_INDEX
    } else {
        m
    }
}

pub open spec fn clamp_health(h: int) -> int {
    if h < 0 {
        0
    } else if h > 10000 {
        10000
    } else {
        h
    }
}

/// Accuracy of the judgements counted so far, in hundredths of a percent.
pub fn calculate_accuracy(counts: &Vec<i64>) -> (r: i64)
    requires
        counts@.len() == 6,
        forall|i: int| 0 <= i < 6 ==> 0 <= #[trigger] counts@[i],
        total_of(counts@) <= MAX_JUDGEMENTS,
    ensures
        r == accuracy_of(counts@),
        0 <= r <= 10000,
{
    let total = counts[0] + counts[1] + counts[2] + counts[3] + counts[4] + counts[5];
    let weighted = counts[0] * 10000 + counts[1] * 9825 + counts[2] * 6500 + counts[3] * 2500
        - counts[4] * 10000 - counts[5] * 5000;
    if total <= 0 || weighted <= 0 {
        0
    } else {
        assert(weighted <= 10000 * total);
        assert(weighted / total <= 10000) by (nonlinear_arith)
            requires
                0 < total,
                0 < weighted <= 10000 * total,
        ;
        weighted / total
    }
}

/// Score of a perfect play of `total` judgements.
pub fn calculate_summed_score(total: i64) -> (r: i64)
    requires
        0 <= total <= 0x2_0000_0000,
    ensures
        r == summed_score_of(total as int),
        0 <= r <= 250 * total,
{
    let mut summed: i64 = 0;
    let mut i: i64 = 0;
    while i < total
        invariant
            0 <= i <= total <= 0x2_0000_0000,
            summed == summed_score_of(i as int),
            0 <= summed <= 250 * i,
        decreases total - i,
    {
        i = i + 1;
        let capped = if i < MULTIPLIER_MAX_INDEX * MULTIPLIER_COUNT_TO_INCREASE_INDEX {
            i
        } else {
            MULTIPLIER_MAX_INDEX * MULTIPLIER_COUNT_TO_INCREASE_INDEX
        };
        summed = summed + 100 + MULTIPLIER_COUNT_TO_INCREASE_INDEX * (capped
            / MULTIPLIER_COUNT_TO_INCREASE_INDEX);
    }
    summed
}

/// The health change of each tier, adjusted to the map's density unless autoplay is on.
pub fn initialise_health_weighting(mods: ModIdentifier, actions: u32, length: u32) -> (r: Vec<i64>)
    ensures
        r@.len() == 6,
        forall|i: int|
            0 <= i < 6 ==> #[trigger] r@[i] == if i < 5 && !has_flag(mods.bits, AUTOPLAY)
                && density_adjusts(actions as int, length as int) {
                adjusted_health_weight(i, actions as int, length as int)
            } else {
                base_health_weight(i)
            },
        forall|i: int| 0 <= i < 6 ==> -100_000 <= #[trigger] r@[i] <= 100_000,
{
    let mut weights: Vec<i64> = vec![50, 40, 20, -300, -450, -600];
    if mods.contains(AUTOPLAY) || !(length > 0 && 2 * (length as i64) <= 1000 * (actions as i64)
        && 1000 * (actions as i64) < 12 * (length as i64)) {
        return weights;
    }
    let a = actions as i64;
    let l = length as i64;
    let mut i: usize = 0;
    while i < 5
        invariant
            0 <= i <= 5,
            weights@.len() == 6,
            a > 0 && l > 0 && 1000 * a < 12 * l && 2 * l <= 1000 * a,
            a <= u32::MAX && l <= u32::MAX,
            !has_flag(mods.bits, AUTOPLAY),
            density_adjusts(a as int, l as int),
            forall|k: int| 0 <= k < i ==> #[trigger] weights@[k] == adjusted_health_weight(k, a as int, l as int),
            forall|k: int| 0 <= k < i ==> -100_000 <= #[trigger] weights@[k] <= 100_000,
            forall|k: int| i <= k < 6 ==> #[trigger] weights@[k] == base_health_weight(k),
        decreases 5 - i,
    {
        let (slope, offset, base): (i64, i64, i64) = if i == 0 {
            (-140, 2680, 50)
        } else if i == 1 {
            (-200, 3400, 40)
        } else if i == 2 {
            (-140, 2680, 20)
        } else if i == 3 {
            (84, -8, -300)
        } else {
            (81, -28, -450)
        };
        let w = {
            assert(-200 * 1000 * a <= slope * 1000 * a <= 200 * 1000 * a) by (nonlinear_arith)
                requires
                    -200 <= slope <= 200,
                    0 < a,
            ;
            assert(1000 * a < 12 * l);
            assert(-200 * 1000 * 0x1_0000_0000 <= slope * 1000 * a <= 200 * 1000 * 0x1_0000_0000) by (nonlinear_arith)
                requires
                    -200 <= slope <= 200,
                    0 < a <= 0x1_0000_0000,
            ;
            assert(-4000 * 0x1_0000_0000 <= offset * l <= 4000 * 0x1_0000_0000) by (nonlinear_arith)
                requires
                    -4000 <= offset <= 4000,
                    0 < l <= 0x1_0000_0000,
            ;
            assert(-4000 * l <= offset * l <= 4000 * l) by (nonlinear_arith)
                requires
                    -4000 <= offset <= 4000,
                    0 < l,
            ;
            let sa: i64 = slope * 1000 * a;
            let ol: i64 = offset * l;
            assert(-2400 * l <= sa <= 2400 * l) by (nonlinear_arith)
                requires
                    -200 <= slope <= 200,
                    sa == slope * 1000 * a,
                    0 < a,
                    1000 * a < 12 * l,
            ;
            assert(-4000 * l <= ol <= 4000 * l) by (nonlinear_arith)
                requires
                    -4000 <= offset <= 4000,
                    ol == offset * l,
                    0 < l,
            ;
            let num = sa + ol;
            assert(-10000 * (1000 * l) <= num * base <= 10000 * (1000 * l)) by (nonlinear_arith)
                requires
                    -600 <= base <= 600,
                    -200 * 12 * l - 4000 * l <= num <= 200 * 12 * l + 4000 * l,
                    0 < l,
            ;
            let q = round_div_exec(num * base, 1000 * l);
            q
        };
        weights.set(i, w);
        i = i + 1;
    }
    weights
}

} // verus!
