//! Scheduler behavior on concrete records: state transitions, interval
//! growth, ease clamping and the grade alphabets.

use hashcards::scheduler::{apply, is_due, map_grade};
use hashcards::types::{
    default_params, default_record, AnswerControls, CardState, Grade, ReviewRecord,
};

const DAY: u64 = 86400;

fn review_record(interval_days: u64, ease: u32, due: u64) -> ReviewRecord {
    ReviewRecord {
        state: CardState::Review,
        due,
        interval: interval_days * DAY,
        lapse_interval: 0,
        ease,
        reps: 3,
        lapses: 0,
        step: 0,
        last_reviewed: Some(50),
    }
}

#[test]
fn new_card_good_enters_first_learning_step() {
    let p = default_params();
    let rec = default_record(&p);
    let now: u64 = 1_000_000;
    let out = apply(&rec, Grade::Good, now, &p);
    assert_eq!(out.state, CardState::Learning);
    assert_eq!(out.reps, 0);
    assert_eq!(out.due, now + 60);
    assert_eq!(out.interval, 60);
    assert_eq!(out.step, 0);
    assert_eq!(out.last_reviewed, Some(now));
}

#[test]
fn learning_good_advances_then_graduates() {
    let p = default_params();
    let rec = default_record(&p);
    let now: u64 = 1_000_000;
    let s0 = apply(&rec, Grade::Good, now, &p);
    let s1 = apply(&s0, Grade::Good, now + 100, &p);
    assert_eq!(s1.state, CardState::Learning);
    assert_eq!(s1.step, 1);
    assert_eq!(s1.due, now + 100 + 600);
    let s2 = apply(&s1, Grade::Good, now + 800, &p);
    assert_eq!(s2.state, CardState::Review);
    assert_eq!(s2.interval, DAY);
    assert_eq!(s2.due, now + 800 + DAY);
}

#[test]
fn learning_again_resets_to_first_step() {
    let p = default_params();
    let rec = default_record(&p);
    let now: u64 = 1_000_000;
    let s0 = apply(&rec, Grade::Good, now, &p);
    let s1 = apply(&s0, Grade::Good, now + 100, &p);
    let s2 = apply(&s1, Grade::Again, now + 200, &p);
    assert_eq!(s2.state, CardState::Learning);
    assert_eq!(s2.step, 0);
    assert_eq!(s2.due, now + 200 + 60);
}

#[test]
fn learning_hard_repeats_current_step() {
    let p = default_params();
    let rec = default_record(&p);
    let now: u64 = 1_000_000;
    let s0 = apply(&rec, Grade::Good, now, &p);
    let s1 = apply(&s0, Grade::Good, now + 100, &p);
    let s2 = apply(&s1, Grade::Hard, now + 200, &p);
    assert_eq!(s2.state, CardState::Learning);
    assert_eq!(s2.step, 1);
    assert_eq!(s2.due, now + 200 + 600);
}

#[test]
fn new_card_easy_graduates_with_easy_interval() {
    let p = default_params();
    let rec = default_record(&p);
    let now: u64 = 1_000_000;
    let out = apply(&rec, Grade::Easy, now, &p);
    assert_eq!(out.state, CardState::Review);
    assert_eq!(out.interval, 4 * DAY);
    assert_eq!(out.due, now + 4 * DAY);
}

#[test]
fn review_good_multiplies_interval_by_ease() {
    // A ten-day interval at ease 2.5 becomes twenty-five days.
    let p = default_params();
    let now: u64 = 5_000_000;
    let rec = review_record(10, 2500, now - 100);
    let out = apply(&rec, Grade::Good, now, &p);
    assert_eq!(out.state, CardState::Review);
    assert_eq!(out.interval, 25 * DAY);
    assert_eq!(out.ease, 2500);
    assert_eq!(out.due, now + 25 * DAY);
    assert_eq!(out.reps, rec.reps + 1);
}

#[test]
fn review_hard_grows_slowly_and_drops_ease() {
    let p = default_params();
    let now: u64 = 5_000_000;
    let rec = review_record(10, 2500, now - 100);
    let out = apply(&rec, Grade::Hard, now, &p);
    assert_eq!(out.state, CardState::Review);
    assert_eq!(out.interval, 12 * DAY);
    assert_eq!(out.ease, 2350);
    assert_eq!(out.reps, rec.reps);
}

#[test]
fn review_easy_applies_bonus_and_raises_ease() {
    // 10 days * 2.5 * 1.3 = 32.5 days, rounded to 33.
    let p = default_params();
    let now: u64 = 5_000_000;
    let rec = review_record(10, 2500, now - 100);
    let out = apply(&rec, Grade::Easy, now, &p);
    assert_eq!(out.state, CardState::Review);
    assert_eq!(out.interval, 33 * DAY);
    assert_eq!(out.ease, 2650);
    assert_eq!(out.reps, rec.reps + 1);
}

#[test]
fn review_again_lapses_to_relearning() {
    let p = default_params();
    let now: u64 = 5_000_000;
    let rec = review_record(10, 2500, now - 100);
    let out = apply(&rec, Grade::Again, now, &p);
    assert_eq!(out.state, CardState::Relearning);
    assert_eq!(out.lapses, rec.lapses + 1);
    assert_eq!(out.ease, 2300);
    // Due one relearning step away; the pending graduation interval is
    // half the lapsed interval.
    assert_eq!(out.due, now + 600);
    assert_eq!(out.interval, 600);
    assert_eq!(out.lapse_interval, 5 * DAY);
}

#[test]
fn relearning_good_graduates_back_to_review() {
    let p = default_params();
    let now: u64 = 5_000_000;
    let rec = review_record(10, 2500, now - 100);
    let lapsed = apply(&rec, Grade::Again, now, &p);
    let back = apply(&lapsed, Grade::Good, now + 700, &p);
    assert_eq!(back.state, CardState::Review);
    assert_eq!(back.interval, 5 * DAY);
    assert_eq!(back.due, now + 700 + 5 * DAY);
}

#[test]
fn ease_never_falls_below_floor() {
    let p = default_params();
    let now: u64 = 5_000_000;
    let rec = review_record(10, 1300, now - 100);
    let out = apply(&rec, Grade::Again, now, &p);
    assert_eq!(out.ease, 1300);
    let out2 = apply(&rec, Grade::Hard, now, &p);
    assert_eq!(out2.ease, 1300);
}

#[test]
fn due_is_never_in_the_past() {
    let p = default_params();
    let now: u64 = 9_000_000;
    let grades = [Grade::Again, Grade::Hard, Grade::Good, Grade::Easy];
    let rec = review_record(30, 2100, 100);
    for g in grades {
        let out = apply(&rec, g, now, &p);
        assert!(out.due >= now);
    }
    let fresh = default_record(&p);
    for g in grades {
        let out = apply(&fresh, g, now, &p);
        assert!(out.due >= now);
    }
}

#[test]
fn good_intervals_never_shrink() {
    let p = default_params();
    let mut rec = review_record(1, 1300, 0);
    let mut now: u64 = 1_000_000;
    let mut prev = rec.interval;
    for _ in 0..20 {
        rec = apply(&rec, Grade::Good, now, &p);
        assert!(rec.interval >= prev);
        assert_eq!(rec.state, CardState::Review);
        prev = rec.interval;
        now += rec.interval;
    }
}

#[test]
fn interval_is_clamped_to_maximum() {
    let p = default_params();
    let now: u64 = 1_000_000;
    let rec = review_record(36500, 2500, now - 1);
    let out = apply(&rec, Grade::Good, now, &p);
    assert_eq!(out.interval, 36500 * DAY);
}

#[test]
fn binary_controls_collapse_hard_and_easy_into_good() {
    assert_eq!(map_grade(AnswerControls::Binary, Grade::Again), Grade::Again);
    assert_eq!(map_grade(AnswerControls::Binary, Grade::Hard), Grade::Good);
    assert_eq!(map_grade(AnswerControls::Binary, Grade::Good), Grade::Good);
    assert_eq!(map_grade(AnswerControls::Binary, Grade::Easy), Grade::Good);
    assert_eq!(map_grade(AnswerControls::Full, Grade::Hard), Grade::Hard);
}

#[test]
fn due_check_honors_state_and_instant() {
    let p = default_params();
    let fresh = default_record(&p);
    assert!(is_due(&fresh, 0));
    let rec = review_record(10, 2500, 1000);
    assert!(is_due(&rec, 1000));
    assert!(is_due(&rec, 2000));
    assert!(!is_due(&rec, 999));
}

#[test]
fn due_is_always_interval_past_the_answer() {
    let p = default_params();
    let now: u64 = 7_000_000;
    let grades = [Grade::Again, Grade::Hard, Grade::Good, Grade::Easy];
    let review = review_record(10, 2500, now - 1);
    let fresh = default_record(&p);
    let lapsed = apply(&review, Grade::Again, now, &p);
    for g in grades {
        for rec in [review, fresh, lapsed] {
            let out = apply(&rec, g, now, &p);
            assert_eq!(out.due, now + out.interval);
        }
    }
}
