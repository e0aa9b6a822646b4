//! Core data model: card identity, grades, review records and the
//! scheduler's parameter record.

use vstd::prelude::*;

verus! {

/// Seconds in one whole day. Review and relearning intervals are whole
/// multiples of this.
pub const DAY_SECONDS: u64 = 86400;

/// Half of `DAY_SECONDS`, used when rounding an interval to the nearest day.
pub const HALF_DAY_SECONDS: u64 = 43200;

/// Lower bound on the ease factor, in thousandths (1.3).
pub const EASE_FLOOR: u32 = 1300;

/// Upper clamp on the ease factor, in thousandths (100.0). The ease of a
/// record never grows past this, so ease arithmetic cannot overflow.
pub const EASE_CEILING: u32 = 100000;

/// Upper bound on any scheduler's maximum interval, in seconds
/// (a little over 285 years). Keeps interval arithmetic inside `u64`.
pub const INTERVAL_CEILING: u64 = 9000000000;

/// Ease penalty for `Again` on a `Review` card, in thousandths (0.20).
pub const EASE_AGAIN_PENALTY: u32 = 200;

/// Ease penalty for `Hard` on a `Review` card, in thousandths (0.15).
pub const EASE_HARD_PENALTY: u32 = 150;

/// Ease reward for `Easy` on a `Review` card, in thousandths (0.15).
pub const EASE_EASY_REWARD: u32 = 150;

/// Interval factor for `Hard` on a `Review` card, in thousandths (1.2).
pub const HARD_INTERVAL_FACTOR: u32 = 1200;

/// Stable identity of a card: a 256-bit content digest, held as two words.
/// Renaming or moving a card does not change its fingerprint.
#[derive(Clone, Copy, PartialEq, Eq, Structural, Debug)]
pub struct Fingerprint {
    pub hi: u128,
    pub lo: u128,
}

/// Total order on fingerprints: lexicographic on `(hi, lo)`.
pub open spec fn fp_le(a: Fingerprint, b: Fingerprint) -> bool {
    a.hi < b.hi || (a.hi == b.hi && a.lo <= b.lo)
}

impl Fingerprint {
    /// Whether `self` orders at or before `other` under `fp_le`.
    pub fn le(&self, other: &Fingerprint) -> (r: bool)
        ensures
            r == fp_le(*self, *other),
    {
        self.hi < other.hi || (self.hi == other.hi && self.lo <= other.lo)
    }
}

/// Scheduling state of a card.
#[derive(Clone, Copy, PartialEq, Eq, Structural, Debug)]
pub enum CardState {
    New,
    Learning,
    Review,
    Relearning,
}

/// A graded answer.
#[derive(Clone, Copy, PartialEq, Eq, Structural, Debug)]
pub enum Grade {
    Again,
    Hard,
    Good,
    Easy,
}

/// Which grade alphabet a session offers.
#[derive(Clone, Copy, PartialEq, Eq, Structural, Debug)]
pub enum AnswerControls {
    Full,
    Binary,
}

/// Per-card spaced-repetition state, keyed by fingerprint.
///
/// `interval` is in seconds and is always the duration until the next
/// review, so `due` is `interval` past the last answer: in `Learning` it
/// is the current learning step, in `Review` the review interval, in
/// `Relearning` the short relearning step. `lapse_interval` is meaningful
/// only in `Relearning`: the interval the card will graduate back to
/// `Review` with, derived from the pre-lapse interval; it is zero in every
/// other state. `ease` is in thousandths. `step` indexes the learning-step
/// list while the card is in `Learning`.
#[derive(Clone, Copy, PartialEq, Eq, Debug)]
pub struct ReviewRecord {
    pub state: CardState,
    pub due: u64,
    pub interval: u64,
    pub lapse_interval: u64,
    pub ease: u32,
    pub reps: u32,
    pub lapses: u32,
    pub step: u32,
    pub last_reviewed: Option<u64>,
}

/// A card as the drill core sees it: its identity, the identity of the note
/// it was generated from (shared by its siblings), and its deck label.
#[derive(Clone, PartialEq, Eq, Debug)]
pub struct Card {
    pub fingerprint: Fingerprint,
    pub note: Fingerprint,
    pub deck: Vec<u8>,
}

/// Immutable scheduler constants, versioned so future tuning cannot drift
/// silently. Durations are in seconds, factors in thousandths.
#[derive(Clone, PartialEq, Eq, Debug)]
pub struct SchedulerParams {
    pub version: u32,
    pub initial_ease: u32,
    pub learning_steps: Vec<u64>,
    pub graduating_interval: u64,
    pub easy_interval: u64,
    pub easy_bonus: u32,
    pub relearn_step: u64,
    pub min_lapse_interval: u64,
    pub max_interval: u64,
}

impl SchedulerParams {
    /// Well-formedness of a parameter record.
    pub open spec fn wf(self) -> bool {
        &&& EASE_FLOOR <= self.initial_ease <= EASE_CEILING
        &&& 1 <= self.learning_steps@.len() <= 1000
        &&& forall|i: int|
            0 <= i < self.learning_steps@.len() ==> 0 < #[trigger] self.learning_steps@[i]
                <= self.max_interval
        &&& 0 < self.relearn_step <= self.max_interval
        &&& self.graduating_interval % DAY_SECONDS == 0
        &&& DAY_SECONDS <= self.graduating_interval <= self.max_interval
        &&& self.easy_interval % DAY_SECONDS == 0
        &&& DAY_SECONDS <= self.easy_interval <= self.max_interval
        &&& self.min_lapse_interval % DAY_SECONDS == 0
        &&& DAY_SECONDS <= self.min_lapse_interval <= self.max_interval
        &&& 1000 <= self.easy_bonus <= 10000
        &&& self.max_interval % DAY_SECONDS == 0
        &&& DAY_SECONDS <= self.max_interval <= INTERVAL_CEILING
    }
}

impl ReviewRecord {
    /// Well-formedness of a review record under `p`: the ease floor holds,
    /// a `New` record has seen no answers, review-side intervals are whole
    /// positive days within bounds, and the learning step index is in range.
    pub open spec fn wf(self, p: SchedulerParams) -> bool {
        &&& EASE_FLOOR <= self.ease <= EASE_CEILING
        &&& self.state == CardState::New ==> self.reps == 0 && self.lapses == 0
            && self.interval == 0 && self.step == 0
        &&& self.state == CardState::Learning ==> (self.step as int)
            < p.learning_steps@.len()
        &&& self.state == CardState::Review ==> self.interval % DAY_SECONDS == 0
            && DAY_SECONDS <= self.interval <= p.max_interval
        &&& self.state == CardState::Relearning ==> 0 < self.interval <= p.max_interval
            && self.lapse_interval % DAY_SECONDS == 0 && DAY_SECONDS <= self.lapse_interval
            <= p.max_interval && self.step == 0
        &&& self.state != CardState::Relearning ==> self.lapse_interval == 0
    }
}

/// The record a card with no stored state is treated as having: `New`,
/// never due-gated, with the initial ease.
pub open spec fn spec_default_record(p: SchedulerParams) -> ReviewRecord {
    ReviewRecord {
        state: CardState::New,
        due: 0,
        interval: 0,
        lapse_interval: 0,
        ease: p.initial_ease,
        reps: 0,
        lapses: 0,
        step: 0,
        last_reviewed: None,
    }
}

/// Builds the implicit record of a card that has no row in the store.
pub fn default_record(p: &SchedulerParams) -> (r: ReviewRecord)
    requires
        p.wf(),
    ensures
        r == spec_default_record(*p),
        r.wf(*p),
{
    ReviewRecord {
        state: CardState::New,
        due: 0,
        interval: 0,
        lapse_interval: 0,
        ease: p.initial_ease,
        reps: 0,
        lapses: 0,
        step: 0,
        last_reviewed: None,
    }
}

/// The default parameter record, version 1: ease 2.5, learning steps of
/// one minute and ten minutes, graduation to one day, easy graduation to
/// four days, easy bonus 1.3, a ten-minute relearning step, lapse intervals
/// of at least one day, and a maximum interval of one hundred years.
pub fn default_params() -> (p: SchedulerParams)
    ensures
        p.wf(),
        p.version == 1,
        p.initial_ease == 2500,
        p.learning_steps@ == seq![60u64, 600u64],
        p.graduating_interval == DAY_SECONDS,
        p.easy_interval == 4 * DAY_SECONDS,
        p.easy_bonus == 1300,
        p.relearn_step == 600,
        p.min_lapse_interval == DAY_SECONDS,
        p.max_interval == 36500 * DAY_SECONDS,
{
    let mut steps: Vec<u64> = Vec::new();
    steps.push(60);
    steps.push(600);
    let p = SchedulerParams {
        version: 1,
        initial_ease: 2500,
        learning_steps: steps,
        graduating_interval: 86400,
        easy_interval: 345600,
        easy_bonus: 1300,
        relearn_step: 600,
        min_lapse_interval: 86400,
        max_interval: 3153600000,
    };
    assert(p.learning_steps@ =~= seq![60u64, 600u64]);
    p
}

} // verus!
