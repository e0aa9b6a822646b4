//! The spaced-repetition scheduler: pure functions deciding when a card is
//! due and what its record becomes after a graded answer.
//!
//! No I/O and no clock access: `now` is always passed in. Fractional review
//! intervals are rounded to the nearest whole day and clamped to
//! `[one day, max_interval]`. Every transition schedules the card exactly
//! `interval` ahead: `due` is `now + interval`. On a lapse (`Again` on a
//! `Review` card) the card moves to `Relearning` with the short relearning
//! step as its interval, while `lapse_interval` holds the interval it will
//! graduate back to `Review` with: half the pre-lapse interval, rounded to
//! the nearest day and clamped below by `min_lapse_interval`.

use vstd::arithmetic::div_mod::lemma_fundamental_div_mod;
use vstd::prelude::*;

use crate::types::{AnswerControls, Card, CardState, Fingerprint, Grade, ReviewRecord, SchedulerParams, DAY_SECONDS, EASE_AGAIN_PENALTY, EASE_CEILING, EASE_EASY_REWARD, EASE_FLOOR, EASE_HARD_PENALTY, HALF_DAY_SECONDS, HARD_INTERVAL_FACTOR, INTERVAL_CEILING};

verus! {

/// How a grade of the offered alphabet is read: `Full` keeps all four
/// grades; `Binary` collapses `Hard` and `Easy` into `Good`.
pub open spec fn spec_map_grade(c: AnswerControls, g: Grade) -> Grade {
    match c {
        AnswerControls::Full => g,
        AnswerControls::Binary => match g {
            Grade::Again => Grade::Again,
            _ => Grade::Good,
        },
    }
}

/// Maps a grade through the session's answer controls.
pub fn map_grade(c: AnswerControls, g: Grade) -> (r: Grade)
    ensures
        r == spec_map_grade(c, g),
{
    match c {
        AnswerControls::Full => g,
        AnswerControls::Binary => match g {
            Grade::Again => Grade::Again,
            _ => Grade::Good,
        },
    }
}

/// A card is due when its `due` instant is at or before `now`, or when it
/// has never been answered.
pub open spec fn spec_is_due(rec: ReviewRecord, now: u64) -> bool {
    rec.state == CardState::New || rec.due <= now
}

/// Whether `rec` is due at `now`.
pub fn is_due(rec: &ReviewRecord, now: u64) -> (r: bool)
    ensures
        r == spec_is_due(*rec, now),
{
    match rec.state {
        CardState::New => true,
        _ => rec.due <= now,
    }
}

/// Saturating addition on `u64`, used for `due` instants.
pub open spec fn sat_add_u64(a: u64, b: u64) -> u64 {
    if a + b > u64::MAX {
        u64::MAX
    } else {
        (a + b) as u64
    }
}

/// The product `num / scale` (a fractional interval in seconds), rounded to
/// the nearest whole day, as a count of seconds.
pub open spec fn round_interval_to_day(num: int, scale: int) -> int {
    ((num + scale * (HALF_DAY_SECONDS as int)) / (scale * (DAY_SECONDS as int))) * (
    DAY_SECONDS as int)
}

/// Clamps a rounded interval to `[one day, max]`.
pub open spec fn clamp_interval(x: int, max: int) -> int {
    if x < DAY_SECONDS as int {
        DAY_SECONDS as int
    } else if x > max {
        max
    } else {
        x
    }
}

/// The next review interval: `interval * factor / scale` rounded to the
/// nearest day and clamped.
pub open spec fn spec_review_interval(interval: int, factor: int, scale: int, max: int) -> int {
    clamp_interval(round_interval_to_day(interval * factor, scale), max)
}

/// The interval a lapsed card graduates back to `Review` with: half the
/// pre-lapse interval rounded to the nearest day, at least
/// `min_lapse_interval`, at most `max_interval`.
pub open spec fn spec_lapse_interval(interval: int, p: SchedulerParams) -> int {
    let halved = round_interval_to_day(interval, 2);
    let floored = if halved < p.min_lapse_interval as int {
        p.min_lapse_interval as int
    } else {
        halved
    };
    if floored > p.max_interval as int {
        p.max_interval as int
    } else {
        floored
    }
}

/// Lowers the ease by `penalty`, never below the floor.
pub open spec fn ease_down(ease: u32, penalty: u32) -> u32 {
    if (ease as int) - (penalty as int) < EASE_FLOOR as int {
        EASE_FLOOR
    } else {
        (ease - penalty) as u32
    }
}

/// Raises the ease by `reward`, never above the ceiling.
pub open spec fn ease_up(ease: u32, reward: u32) -> u32 {
    if (ease as int) + (reward as int) > EASE_CEILING as int {
        EASE_CEILING
    } else {
        (ease + reward) as u32
    }
}

/// Saturating increment on `u32` counters.
pub open spec fn inc_sat_u32(x: u32) -> u32 {
    if x == u32::MAX {
        x
    } else {
        (x + 1) as u32
    }
}

/// The record of a card sitting at learning step `idx`.
pub open spec fn spec_learning_step(rec: ReviewRecord, now: u64, p: SchedulerParams, idx: int) -> ReviewRecord {
    ReviewRecord {
        state: CardState::Learning,
        due: sat_add_u64(now, p.learning_steps@[idx]),
        interval: p.learning_steps@[idx],
        lapse_interval: 0,
        ease: rec.ease,
        reps: rec.reps,
        lapses: rec.lapses,
        step: idx as u32,
        last_reviewed: Some(now),
    }
}

/// The record of a card graduating to `Review` with `interval`.
pub open spec fn spec_graduate(rec: ReviewRecord, now: u64, interval: u64) -> ReviewRecord {
    ReviewRecord {
        state: CardState::Review,
        due: sat_add_u64(now, interval),
        interval: interval,
        lapse_interval: 0,
        ease: rec.ease,
        reps: rec.reps,
        lapses: rec.lapses,
        step: 0,
        last_reviewed: Some(now),
    }
}

/// Answer semantics for a `New` or `Learning` card. `fresh` is true for
/// `New`: every non-`Easy` grade lands on the first learning step.
pub open spec fn spec_apply_learning(rec: ReviewRecord, g: Grade, now: u64, p: SchedulerParams, fresh: bool) -> ReviewRecord {
    match g {
        Grade::Again => spec_learning_step(rec, now, p, 0),
        Grade::Hard => spec_learning_step(rec, now, p, if fresh { 0int } else { rec.step as int }),
        Grade::Good => if fresh {
            spec_learning_step(rec, now, p, 0)
        } else if rec.step as int + 1 < p.learning_steps@.len() {
            spec_learning_step(rec, now, p, rec.step as int + 1)
        } else {
            spec_graduate(rec, now, p.graduating_interval)
        },
        Grade::Easy => spec_graduate(rec, now, p.easy_interval),
    }
}

/// Answer semantics for a `Review` card.
pub open spec fn spec_apply_review(rec: ReviewRecord, g: Grade, now: u64, p: SchedulerParams) -> ReviewRecord {
    match g {
        Grade::Again => ReviewRecord {
            state: CardState::Relearning,
            due: sat_add_u64(now, p.relearn_step),
            interval: p.relearn_step,
            lapse_interval: spec_lapse_interval(rec.interval as int, p) as u64,
            ease: ease_down(rec.ease, EASE_AGAIN_PENALTY),
            reps: rec.reps,
            lapses: inc_sat_u32(rec.lapses),
            step: 0,
            last_reviewed: Some(now),
        },
        Grade::Hard => {
            let iv = spec_review_interval(
                rec.interval as int,
                HARD_INTERVAL_FACTOR as int,
                1000,
                p.max_interval as int,
            ) as u64;
            ReviewRecord {
                state: CardState::Review,
                due: sat_add_u64(now, iv),
                interval: iv,
                lapse_interval: 0,
                ease: ease_down(rec.ease, EASE_HARD_PENALTY),
                reps: rec.reps,
                lapses: rec.lapses,
                step: 0,
                last_reviewed: Some(now),
            }
        },
        Grade::Good => {
            let iv = spec_review_interval(
                rec.interval as int,
                rec.ease as int,
                1000,
                p.max_interval as int,
            ) as u64;
            ReviewRecord {
                state: CardState::Review,
                due: sat_add_u64(now, iv),
                interval: iv,
                lapse_interval: 0,
                ease: rec.ease,
                reps: inc_sat_u32(rec.reps),
                lapses: rec.lapses,
                step: 0,
                last_reviewed: Some(now),
            }
        },
        Grade::Easy => {
            let iv = spec_review_interval(
                rec.interval as int,
                rec.ease as int * p.easy_bonus as int,
                1000000,
                p.max_interval as int,
            ) as u64;
            ReviewRecord {
                state: CardState::Review,
                due: sat_add_u64(now, iv),
                interval: iv,
                lapse_interval: 0,
                ease: ease_up(rec.ease, EASE_EASY_REWARD),
                reps: inc_sat_u32(rec.reps),
                lapses: rec.lapses,
                step: 0,
                last_reviewed: Some(now),
            }
        },
    }
}

/// Answer semantics for a `Relearning` card: one short relearning step;
/// `Good` or `Easy` graduates back to `Review` with the pending
/// `lapse_interval`.
pub open spec fn spec_apply_relearning(rec: ReviewRecord, g: Grade, now: u64, p: SchedulerParams) -> ReviewRecord {
    match g {
        Grade::Again | Grade::Hard => ReviewRecord {
            state: CardState::Relearning,
            due: sat_add_u64(now, p.relearn_step),
            interval: p.relearn_step,
            lapse_interval: rec.lapse_interval,
            ease: rec.ease,
            reps: rec.reps,
            lapses: rec.lapses,
            step: 0,
            last_reviewed: Some(now),
        },
        Grade::Good | Grade::Easy => spec_graduate(rec, now, rec.lapse_interval),
    }
}

/// The full scheduler transition: the record after answering `rec` with
/// grade `g` at instant `now`.
pub open spec fn spec_apply(rec: ReviewRecord, g: Grade, now: u64, p: SchedulerParams) -> ReviewRecord {
    match rec.state {
        CardState::New => spec_apply_learning(rec, g, now, p, true),
        CardState::Learning => spec_apply_learning(rec, g, now, p, false),
        CardState::Review => spec_apply_review(rec, g, now, p),
        CardState::Relearning => spec_apply_relearning(rec, g, now, p),
    }
}

/// Computes the clamped, day-rounded next review interval.
fn review_interval(interval: u64, factor: u64, scale: u64, max: u64) -> (r: u64)
    requires
        interval <= INTERVAL_CEILING,
        1 <= factor <= 1000000000,
        scale == 1000 || scale == 1000000,
        DAY_SECONDS <= max <= INTERVAL_CEILING,
        max % DAY_SECONDS == 0,
    ensures
        r as int == spec_review_interval(interval as int, factor as int, scale as int, max as int),
        r <= max,
{
    proof {
        assert((interval as int) * (factor as int) <= 9000000000 * 1000000000)
            by (nonlinear_arith)
            requires
                interval as int <= 9000000000,
                0 <= factor as int <= 1000000000,
        ;
    }
    let num: u64 = interval * factor;
    let den: u64 = scale * DAY_SECONDS;
    let half: u64 = scale * HALF_DAY_SECONDS;
    let days: u64 = (num + half) / den;
    let max_days: u64 = max / DAY_SECONDS;
    proof {
        lemma_fundamental_div_mod(max as int, DAY_SECONDS as int);
    }
    let clamped_days: u64 = if days < 1 {
        1
    } else if days > max_days {
        max_days
    } else {
        days
    };
    let r: u64 = clamped_days * DAY_SECONDS;
    proof {
        assert(days as int * (DAY_SECONDS as int) == round_interval_to_day(
            interval as int * factor as int,
            scale as int,
        ));
    }
    r
}

/// Computes the interval a lapsed card will graduate back with.
fn lapse_interval(interval: u64, p: &SchedulerParams) -> (r: u64)
    requires
        p.wf(),
        interval <= p.max_interval,
    ensures
        r as int == spec_lapse_interval(interval as int, *p),
        r <= p.max_interval,
{
    let days: u64 = (interval + DAY_SECONDS) / (2 * DAY_SECONDS);
    let halved: u64 = days * DAY_SECONDS;
    let floored: u64 = if halved < p.min_lapse_interval {
        p.min_lapse_interval
    } else {
        halved
    };
    if floored > p.max_interval {
        p.max_interval
    } else {
        floored
    }
}

/// Applies a graded answer to a record, returning the updated record.
///
/// This is the `apply` transition of the scheduler; the result is exactly
/// `spec_apply(*rec, g, now, *p)` and is itself well formed.
pub fn apply(rec: &ReviewRecord, g: Grade, now: u64, p: &SchedulerParams) -> (r: ReviewRecord)
    requires
        p.wf(),
        rec.wf(*p),
        now <= u64::MAX - p.max_interval,
    ensures
        r == spec_apply(*rec, g, now, *p),
        r.wf(*p),
{
    proof {
        lemma_apply_wf(*rec, g, now, *p);
    }
    match rec.state {
        CardState::New => apply_learning(rec, g, now, p, true),
        CardState::Learning => apply_learning(rec, g, now, p, false),
        CardState::Review => apply_review(rec, g, now, p),
        CardState::Relearning => apply_relearning(rec, g, now, p),
    }
}

/// Builds the record for landing on learning step `idx`.
fn learning_step_record(rec: &ReviewRecord, now: u64, p: &SchedulerParams, idx: usize) -> (r: ReviewRecord)
    requires
        p.wf(),
        idx < p.learning_steps@.len(),
        idx <= u32::MAX,
        now <= u64::MAX - p.max_interval,
    ensures
        r == spec_learning_step(*rec, now, *p, idx as int),
{
    let d: u64 = p.learning_steps[idx];
    ReviewRecord {
        state: CardState::Learning,
        due: now + d,
        interval: d,
        lapse_interval: 0,
        ease: rec.ease,
        reps: rec.reps,
        lapses: rec.lapses,
        step: idx as u32,
        last_reviewed: Some(now),
    }
}

/// Builds the record for graduating to `Review` with `interval`.
fn graduate_record(rec: &ReviewRecord, now: u64, interval: u64, p: &SchedulerParams) -> (r: ReviewRecord)
    requires
        p.wf(),
        interval <= p.max_interval,
        now <= u64::MAX - p.max_interval,
    ensures
        r == spec_graduate(*rec, now, interval),
{
    ReviewRecord {
        state: CardState::Review,
        due: now + interval,
        interval: interval,
        lapse_interval: 0,
        ease: rec.ease,
        reps: rec.reps,
        lapses: rec.lapses,
        step: 0,
        last_reviewed: Some(now),
    }
}

fn apply_learning(rec: &ReviewRecord, g: Grade, now: u64, p: &SchedulerParams, fresh: bool) -> (r: ReviewRecord)
    requires
        p.wf(),
        rec.wf(*p),
        fresh ==> rec.state == CardState::New,
        !fresh ==> rec.state == CardState::Learning,
        now <= u64::MAX - p.max_interval,
    ensures
        r == spec_apply_learning(*rec, g, now, *p, fresh),
{
    match g {
        Grade::Again => learning_step_record(rec, now, p, 0),
        Grade::Hard => {
            if fresh {
                learning_step_record(rec, now, p, 0)
            } else {
                learning_step_record(rec, now, p, rec.step as usize)
            }
        },
        Grade::Good => {
            if fresh {
                learning_step_record(rec, now, p, 0)
            } else if (rec.step as usize) + 1 < p.learning_steps.len() {
                learning_step_record(rec, now, p, rec.step as usize + 1)
            } else {
                graduate_record(rec, now, p.graduating_interval, p)
            }
        },
        Grade::Easy => graduate_record(rec, now, p.easy_interval, p),
    }
}

fn apply_review(rec: &ReviewRecord, g: Grade, now: u64, p: &SchedulerParams) -> (r: ReviewRecord)
    requires
        p.wf(),
        rec.wf(*p),
        rec.state == CardState::Review,
        now <= u64::MAX - p.max_interval,
    ensures
        r == spec_apply_review(*rec, g, now, *p),
{
    match g {
        Grade::Again => {
            let li = lapse_interval(rec.interval, p);
            ReviewRecord {
                state: CardState::Relearning,
                due: now + p.relearn_step,
                interval: p.relearn_step,
                lapse_interval: li,
                ease: if rec.ease >= EASE_FLOOR + EASE_AGAIN_PENALTY {
                    rec.ease - EASE_AGAIN_PENALTY
                } else {
                    EASE_FLOOR
                },
                reps: rec.reps,
                lapses: if rec.lapses == u32::MAX {
                    rec.lapses
                } else {
                    rec.lapses + 1
                },
                step: 0,
                last_reviewed: Some(now),
            }
        },
        Grade::Hard => {
            let iv = review_interval(rec.interval, HARD_INTERVAL_FACTOR as u64, 1000, p.max_interval);
            ReviewRecord {
                state: CardState::Review,
                due: now + iv,
                interval: iv,
                lapse_interval: 0,
                ease: if rec.ease >= EASE_FLOOR + EASE_HARD_PENALTY {
                    rec.ease - EASE_HARD_PENALTY
                } else {
                    EASE_FLOOR
                },
                reps: rec.reps,
                lapses: rec.lapses,
                step: 0,
                last_reviewed: Some(now),
            }
        },
        Grade::Good => {
            let iv = review_interval(rec.interval, rec.ease as u64, 1000, p.max_interval);
            ReviewRecord {
                state: CardState::Review,
                due: now + iv,
                interval: iv,
                lapse_interval: 0,
                ease: rec.ease,
                reps: if rec.reps == u32::MAX {
                    rec.reps
                } else {
                    rec.reps + 1
                },
                lapses: rec.lapses,
                step: 0,
                last_reviewed: Some(now),
            }
        },
        Grade::Easy => {
            proof {
                assert(1 <= (rec.ease as int) * (p.easy_bonus as int) <= 1000000000)
                    by (nonlinear_arith)
                    requires
                        1300 <= rec.ease as int <= 100000,
                        1000 <= p.easy_bonus as int <= 10000,
                ;
            }
            let factor: u64 = (rec.ease as u64) * (p.easy_bonus as u64);
            let iv = review_interval(rec.interval, factor, 1000000, p.max_interval);
            ReviewRecord {
                state: CardState::Review,
                due: now + iv,
                interval: iv,
                lapse_interval: 0,
                ease: if rec.ease <= EASE_CEILING - EASE_EASY_REWARD {
                    rec.ease + EASE_EASY_REWARD
                } else {
                    EASE_CEILING
                },
                reps: if rec.reps == u32::MAX {
                    rec.reps
                } else {
                    rec.reps + 1
                },
                lapses: rec.lapses,
                step: 0,
                last_reviewed: Some(now),
            }
        },
    }
}

fn apply_relearning(rec: &ReviewRecord, g: Grade, now: u64, p: &SchedulerParams) -> (r: ReviewRecord)
    requires
        p.wf(),
        rec.wf(*p),
        rec.state == CardState::Relearning,
        now <= u64::MAX - p.max_interval,
    ensures
        r == spec_apply_relearning(*rec, g, now, *p),
{
    match g {
        Grade::Again | Grade::Hard => ReviewRecord {
            state: CardState::Relearning,
            due: now + p.relearn_step,
            interval: p.relearn_step,
            lapse_interval: rec.lapse_interval,
            ease: rec.ease,
            reps: rec.reps,
            lapses: rec.lapses,
            step: 0,
            last_reviewed: Some(now),
        },
        Grade::Good | Grade::Easy => graduate_record(rec, now, rec.lapse_interval, p),
    }
}

/// The rounded interval is a non-negative whole number of days.
proof fn lemma_round_shape(num: int, scale: int)
    requires
        num >= 0,
        scale >= 1,
    ensures
        round_interval_to_day(num, scale) >= 0,
        round_interval_to_day(num, scale) % (DAY_SECONDS as int) == 0,
{
    let q = (num + scale * (HALF_DAY_SECONDS as int)) / (scale * (DAY_SECONDS as int));
    assert(scale * (HALF_DAY_SECONDS as int) >= 0) by (nonlinear_arith)
        requires
            scale >= 1,
    ;
    assert(scale * (DAY_SECONDS as int) >= 86400) by (nonlinear_arith)
        requires
            scale >= 1,
    ;
    assert(q >= 0);
    assert(q * (DAY_SECONDS as int) >= 0) by (nonlinear_arith)
        requires
            q >= 0,
    ;
    assert(q * (DAY_SECONDS as int) % (DAY_SECONDS as int) == 0) by (nonlinear_arith);
}

/// A clamped interval is a well-formed review interval.
proof fn lemma_clamp_shape(x: int, max: int)
    requires
        x >= 0,
        x % (DAY_SECONDS as int) == 0,
        DAY_SECONDS as int <= max,
        max % (DAY_SECONDS as int) == 0,
    ensures
        DAY_SECONDS as int <= clamp_interval(x, max) <= max,
        clamp_interval(x, max) % (DAY_SECONDS as int) == 0,
{
}

/// Every transition preserves record well-formedness.
pub proof fn lemma_apply_wf(rec: ReviewRecord, g: Grade, now: u64, p: SchedulerParams)
    requires
        p.wf(),
        rec.wf(p),
    ensures
        spec_apply(rec, g, now, p).wf(p),
{
    match rec.state {
        CardState::New | CardState::Learning => {
        },
        CardState::Review => {
            match g {
                Grade::Again => {
                    lemma_round_shape(rec.interval as int, 2);
                },
                Grade::Hard => {
                    lemma_round_shape(rec.interval as int * HARD_INTERVAL_FACTOR as int, 1000);
                    lemma_clamp_shape(
                        round_interval_to_day(
                            rec.interval as int * HARD_INTERVAL_FACTOR as int,
                            1000,
                        ),
                        p.max_interval as int,
                    );
                },
                Grade::Good => {
                    assert(rec.interval as int * rec.ease as int >= 0) by (nonlinear_arith)
                        requires
                            rec.interval as int >= 0,
                            rec.ease as int >= 0,
                    ;
                    lemma_round_shape(rec.interval as int * rec.ease as int, 1000);
                    lemma_clamp_shape(
                        round_interval_to_day(rec.interval as int * rec.ease as int, 1000),
                        p.max_interval as int,
                    );
                },
                Grade::Easy => {
                    assert(rec.interval as int * (rec.ease as int * p.easy_bonus as int) >= 0)
                        by (nonlinear_arith)
                        requires
                            rec.interval as int >= 0,
                            rec.ease as int >= 0,
                            p.easy_bonus as int >= 0,
                    ;
                    lemma_round_shape(
                        rec.interval as int * (rec.ease as int * p.easy_bonus as int),
                        1000000,
                    );
                    lemma_clamp_shape(
                        round_interval_to_day(
                            rec.interval as int * (rec.ease as int * p.easy_bonus as int),
                            1000000,
                        ),
                        p.max_interval as int,
                    );
                },
            }
        },
        CardState::Relearning => {
        },
    }
}

/// The ease of a record never falls below the floor of 1.3: every
/// transition keeps `ease >= EASE_FLOOR`.
pub proof fn lemma_apply_ease_floor(rec: ReviewRecord, g: Grade, now: u64, p: SchedulerParams)
    requires
        p.wf(),
        rec.wf(p),
    ensures
        spec_apply(rec, g, now, p).ease >= EASE_FLOOR,
{
    lemma_apply_wf(rec, g, now, p);
}

/// An answered card is never scheduled in the past: the new `due` instant
/// is at or after `now`.
pub proof fn lemma_apply_due_not_past(rec: ReviewRecord, g: Grade, now: u64, p: SchedulerParams)
    requires
        p.wf(),
        rec.wf(p),
    ensures
        spec_apply(rec, g, now, p).due >= now,
{
    lemma_apply_wf(rec, g, now, p);
}

/// Successive `Good` answers on a `Review` card produce a non-decreasing
/// interval sequence: one `Good` step keeps the card in `Review`, keeps it
/// well formed, and does not shrink the interval.
pub proof fn lemma_good_review_interval_monotone(rec: ReviewRecord, now: u64, p: SchedulerParams)
    requires
        p.wf(),
        rec.wf(p),
        rec.state == CardState::Review,
    ensures
        spec_apply(rec, Grade::Good, now, p).state == CardState::Review,
        spec_apply(rec, Grade::Good, now, p).wf(p),
        spec_apply(rec, Grade::Good, now, p).interval >= rec.interval,
{
    lemma_apply_wf(rec, Grade::Good, now, p);
    let i = rec.interval as int;
    let e = rec.ease as int;
    let num = i * e;
    let day = DAY_SECONDS as int;
    let q = (num + 1000 * (HALF_DAY_SECONDS as int)) / (1000 * day);
    let k = i / day;
    lemma_fundamental_div_mod(i, day);
    assert(i == day * k);
    assert(num >= 1300 * i) by (nonlinear_arith)
        requires
            e >= 1300,
            i >= 0,
            num == i * e,
    ;
    assert(num + 1000 * (HALF_DAY_SECONDS as int) >= k * (1000 * day)) by (nonlinear_arith)
        requires
            num >= 1300 * i,
            i == day * k,
            day == 86400,
            k >= 0,
    ;
    assert(q >= k) by {
        vstd::arithmetic::div_mod::lemma_div_is_ordered(
            k * (1000 * day),
            num + 1000 * (HALF_DAY_SECONDS as int),
            1000 * day,
        );
        vstd::arithmetic::div_mod::lemma_div_multiples_vanish(k, 1000 * day);
    }
    assert(q * day >= k * day) by (nonlinear_arith)
        requires
            q >= k,
            day > 0,
    ;
    assert(round_interval_to_day(num, 1000) >= i);
}

/// The record after a run of `Good` answers at the given instants.
pub open spec fn spec_good_run(rec: ReviewRecord, times: Seq<u64>, p: SchedulerParams) -> ReviewRecord
    decreases times.len(),
{
    if times.len() == 0 {
        rec
    } else {
        spec_apply(spec_good_run(rec, times.drop_last(), p), Grade::Good, times.last(), p)
    }
}

/// Successive `Good` answers on a `Review` card produce a non-decreasing
/// interval sequence: along any run of `Good` answers the card stays in
/// `Review` and each answer's interval is at least the previous one's.
pub proof fn lemma_good_run_monotone(rec: ReviewRecord, times: Seq<u64>, p: SchedulerParams)
    requires
        p.wf(),
        rec.wf(p),
        rec.state == CardState::Review,
    ensures
        spec_good_run(rec, times, p).state == CardState::Review,
        spec_good_run(rec, times, p).wf(p),
        forall|i: int|
            0 <= i < times.len() ==> spec_good_run(rec, #[trigger] times.take(i + 1), p).interval
                >= spec_good_run(rec, times.take(i), p).interval,
    decreases times.len(),
{
    if times.len() > 0 {
        let front = times.drop_last();
        lemma_good_run_monotone(rec, front, p);
        lemma_good_review_interval_monotone(spec_good_run(rec, front, p), times.last(), p);
        assert(times.take(times.len() as int) =~= times);
        assert(times.take(times.len() as int - 1) =~= front);
        assert forall|i: int|
            0 <= i < times.len() implies spec_good_run(
            rec,
            #[trigger] times.take(i + 1),
            p,
        ).interval >= spec_good_run(rec, times.take(i), p).interval by {
            if i < times.len() - 1 {
                assert(times.take(i + 1) =~= front.take(i + 1));
                assert(times.take(i) =~= front.take(i));
            }
        }
    }
}

/// `Again` on a `Review` card moves it to `Relearning` (one more lapse,
/// ease lowered to at least the floor), and a following `Good` graduates
/// it back to `Review` with the derived, clamped lapse interval.
pub proof fn lemma_lapse_then_good(rec: ReviewRecord, t1: u64, t2: u64, p: SchedulerParams)
    requires
        p.wf(),
        rec.wf(p),
        rec.state == CardState::Review,
    ensures
        spec_apply(rec, Grade::Again, t1, p).state == CardState::Relearning,
        spec_apply(rec, Grade::Again, t1, p).lapses == inc_sat_u32(rec.lapses),
        spec_apply(rec, Grade::Again, t1, p).ease == ease_down(rec.ease, EASE_AGAIN_PENALTY),
        spec_apply(spec_apply(rec, Grade::Again, t1, p), Grade::Good, t2, p).state
            == CardState::Review,
        spec_apply(spec_apply(rec, Grade::Again, t1, p), Grade::Good, t2, p).interval as int
            == spec_lapse_interval(rec.interval as int, p),
{
    lemma_apply_wf(rec, Grade::Again, t1, p);
}

/// Every answered card is scheduled exactly its interval ahead: for every
/// record, grade and instant, the new `due` is `now` plus the new
/// `interval` (saturating at the top of the clock's range).
pub proof fn lemma_apply_due_equation(rec: ReviewRecord, g: Grade, now: u64, p: SchedulerParams)
    requires
        p.wf(),
        rec.wf(p),
    ensures
        spec_apply(rec, g, now, p).due == sat_add_u64(now, spec_apply(rec, g, now, p).interval),
{
}

} // verus!
