//! Session scenarios: queue building, limits, sibling burial, stale
//! answers and completion.

use hashcards::builder::{build_queue, SessionOptions};
use hashcards::session::{AnswerError, NextCard, Session};
use hashcards::store::Store;
use hashcards::types::{
    default_params, AnswerControls, Card, CardState, Fingerprint, Grade, ReviewRecord,
};

const DAY: u64 = 86400;
const NOW: u64 = 10_000_000;

fn fp(n: u128) -> Fingerprint {
    Fingerprint { hi: 0, lo: n }
}

fn card(n: u128, note: u128, deck: &str) -> Card {
    Card { fingerprint: fp(n), note: fp(note), deck: deck.as_bytes().to_vec() }
}

fn due_review(due: u64) -> ReviewRecord {
    ReviewRecord {
        state: CardState::Review,
        due,
        interval: 10 * DAY,
        lapse_interval: 0,
        ease: 2500,
        reps: 1,
        lapses: 0,
        step: 0,
        last_reviewed: Some(1),
    }
}

fn options() -> SessionOptions {
    SessionOptions {
        card_limit: None,
        new_card_limit: None,
        deck_filter: None,
        shuffle: false,
        bury_siblings: true,
        answer_controls: AnswerControls::Full,
        now: NOW,
    }
}

#[test]
fn empty_collection_is_complete_with_zero_stats() {
    let session = Session::new(Vec::new(), Store::new(), options(), default_params());
    assert_eq!(session.peek(), NextCard::Completed);
    let pr = session.progress();
    assert_eq!(pr.answered, 0);
    assert_eq!(pr.remaining, 0);
    assert_eq!(pr.new_answered, 0);
}

#[test]
fn one_new_card_good_completes_and_persists_learning() {
    let cards = vec![card(1, 100, "deck")];
    let mut session = Session::new(cards, Store::new(), options(), default_params());
    assert_eq!(session.peek(), NextCard::Card(fp(1)));
    session.answer(fp(1), Grade::Good).expect("current card");
    assert_eq!(session.peek(), NextCard::Completed);
    let rec = session.store.get(&fp(1)).expect("persisted");
    assert_eq!(rec.state, CardState::Learning);
    assert_eq!(rec.reps, 0);
    assert_eq!(rec.due, NOW + 60);
    let pr = session.progress();
    assert_eq!(pr.answered, 1);
    assert_eq!(pr.new_answered, 1);
}

#[test]
fn review_card_good_updates_interval_and_due() {
    let cards = vec![card(1, 100, "deck")];
    let mut store = Store::new();
    store.put(fp(1), due_review(NOW - 5));
    let mut session = Session::new(cards, store, options(), default_params());
    session.answer(fp(1), Grade::Good).expect("current card");
    let rec = session.store.get(&fp(1)).expect("persisted");
    assert_eq!(rec.interval, 25 * DAY);
    assert_eq!(rec.ease, 2500);
    assert_eq!(rec.due, NOW + 25 * DAY);
}

#[test]
fn siblings_are_buried_when_one_is_answered() {
    // A and B come from the same note and are both due.
    let cards = vec![card(1, 100, "deck"), card(2, 100, "deck")];
    let mut store = Store::new();
    store.put(fp(1), due_review(NOW - 10));
    store.put(fp(2), due_review(NOW - 5));
    let before = store.get(&fp(2)).unwrap();
    let mut session = Session::new(cards, store, options(), default_params());
    let pr = session.progress();
    assert_eq!(pr.remaining, 2);
    let head = match session.peek() {
        NextCard::Card(h) => h,
        NextCard::Completed => panic!("queue should not be empty"),
    };
    session.answer(head, Grade::Good).expect("current card");
    assert_eq!(session.peek(), NextCard::Completed);
    let other = if head == fp(1) { fp(2) } else { fp(1) };
    assert_eq!(session.store.get(&other), Some(before));
}

#[test]
fn siblings_stay_when_burial_is_off() {
    let cards = vec![card(1, 100, "deck"), card(2, 100, "deck")];
    let mut store = Store::new();
    store.put(fp(1), due_review(NOW - 10));
    store.put(fp(2), due_review(NOW - 5));
    let mut opts = options();
    opts.bury_siblings = false;
    let mut session = Session::new(cards, store, opts, default_params());
    let head = match session.peek() {
        NextCard::Card(h) => h,
        NextCard::Completed => panic!("queue should not be empty"),
    };
    session.answer(head, Grade::Good).expect("current card");
    assert!(matches!(session.peek(), NextCard::Card(_)));
}

#[test]
fn card_limit_completes_after_that_many_answers() {
    let mut cards = Vec::new();
    let mut store = Store::new();
    for n in 1..=10u128 {
        cards.push(card(n, 1000 + n, "deck"));
        store.put(fp(n), due_review(NOW - n as u64));
    }
    let mut opts = options();
    opts.card_limit = Some(2);
    let mut session = Session::new(cards, store, opts, default_params());
    for _ in 0..2 {
        let head = match session.peek() {
            NextCard::Card(h) => h,
            NextCard::Completed => panic!("should still serve cards"),
        };
        session.answer(head, Grade::Good).expect("current card");
    }
    assert_eq!(session.peek(), NextCard::Completed);
}

#[test]
fn stale_fingerprint_is_rejected_and_state_unchanged() {
    let cards = vec![card(1, 100, "deck"), card(2, 200, "deck")];
    let mut store = Store::new();
    store.put(fp(1), due_review(NOW - 10));
    store.put(fp(2), due_review(NOW - 5));
    let mut session = Session::new(cards, store, options(), default_params());
    let head = match session.peek() {
        NextCard::Card(h) => h,
        NextCard::Completed => panic!("queue should not be empty"),
    };
    let stale = if head == fp(1) { fp(2) } else { fp(1) };
    let r = session.answer(stale, Grade::Good);
    assert_eq!(r, Err(AnswerError::StaleFingerprint));
    assert_eq!(session.peek(), NextCard::Card(head));
    let pr = session.progress();
    assert_eq!(pr.answered, 0);
    assert_eq!(pr.remaining, 2);
}

#[test]
fn again_requeues_the_card_three_positions_back() {
    let mut cards = Vec::new();
    let mut store = Store::new();
    for n in 1..=5u128 {
        cards.push(card(n, 1000 + n, "deck"));
        store.put(fp(n), due_review(NOW - 100 + n as u64));
    }
    let mut session = Session::new(cards, store, options(), default_params());
    // Queue is by due ascending: 1, 2, 3, 4, 5.
    session.answer(fp(1), Grade::Again).expect("current card");
    // The answered card sits after three positions: 2, 3, 4, 1, 5.
    assert_eq!(session.peek(), NextCard::Card(fp(2)));
    session.answer(fp(2), Grade::Good).expect("current card");
    assert_eq!(session.peek(), NextCard::Card(fp(3)));
    session.answer(fp(3), Grade::Good).expect("current card");
    assert_eq!(session.peek(), NextCard::Card(fp(4)));
    session.answer(fp(4), Grade::Good).expect("current card");
    assert_eq!(session.peek(), NextCard::Card(fp(1)));
}

#[test]
fn again_on_the_only_card_serves_it_again() {
    let cards = vec![card(1, 100, "deck")];
    let mut session = Session::new(cards, Store::new(), options(), default_params());
    session.answer(fp(1), Grade::Again).expect("current card");
    assert_eq!(session.peek(), NextCard::Card(fp(1)));
}

#[test]
fn skip_rotates_the_queue_without_writing() {
    let cards = vec![card(1, 100, "deck"), card(2, 200, "deck")];
    let mut store = Store::new();
    store.put(fp(1), due_review(NOW - 10));
    store.put(fp(2), due_review(NOW - 5));
    let mut session = Session::new(cards, store, options(), default_params());
    assert_eq!(session.peek(), NextCard::Card(fp(1)));
    session.skip();
    assert_eq!(session.peek(), NextCard::Card(fp(2)));
    assert_eq!(session.store.get(&fp(1)), Some(due_review(NOW - 10)));
    assert_eq!(session.progress().answered, 0);
}

#[test]
fn queue_orders_learning_then_review_then_new() {
    let mut store = Store::new();
    let mut learning = due_review(NOW - 3);
    learning.state = CardState::Learning;
    learning.interval = 600;
    learning.step = 1;
    store.put(fp(2), learning);
    store.put(fp(3), due_review(NOW - 50));
    let cards = vec![card(1, 100, "deck"), card(2, 200, "deck"), card(3, 300, "deck")];
    let plan = build_queue(&cards, &store, &options(), &default_params());
    assert_eq!(plan.queue, vec![fp(2), fp(3), fp(1)]);
    assert_eq!(plan.new_cards, vec![fp(1)]);
}

#[test]
fn due_orders_ascending_with_fingerprint_tiebreak() {
    let mut store = Store::new();
    store.put(fp(1), due_review(NOW - 1));
    store.put(fp(2), due_review(NOW - 9));
    store.put(fp(3), due_review(NOW - 9));
    let cards = vec![card(1, 100, "d"), card(2, 200, "d"), card(3, 300, "d")];
    let plan = build_queue(&cards, &store, &options(), &default_params());
    assert_eq!(plan.queue, vec![fp(2), fp(3), fp(1)]);
}

#[test]
fn undue_cards_are_left_out() {
    let mut store = Store::new();
    store.put(fp(1), due_review(NOW + 500));
    store.put(fp(2), due_review(NOW));
    let cards = vec![card(1, 100, "d"), card(2, 200, "d")];
    let plan = build_queue(&cards, &store, &options(), &default_params());
    assert_eq!(plan.queue, vec![fp(2)]);
}

#[test]
fn deck_filter_keeps_the_deck_and_its_children() {
    let cards = vec![
        card(1, 100, "math"),
        card(2, 200, "math/algebra"),
        card(3, 300, "mathematics"),
        card(4, 400, "history"),
    ];
    let mut opts = options();
    opts.deck_filter = Some(b"math".to_vec());
    let plan = build_queue(&cards, &Store::new(), &opts, &default_params());
    assert_eq!(plan.queue, vec![fp(1), fp(2)]);
}

#[test]
fn new_card_limit_truncates_the_new_bucket() {
    let cards = vec![card(1, 100, "d"), card(2, 200, "d"), card(3, 300, "d")];
    let mut opts = options();
    opts.new_card_limit = Some(2);
    let plan = build_queue(&cards, &Store::new(), &opts, &default_params());
    assert_eq!(plan.queue, vec![fp(1), fp(2)]);
}

#[test]
fn card_limit_caps_the_queue_length() {
    let mut cards = Vec::new();
    for n in 1..=10u128 {
        cards.push(card(n, 1000 + n, "d"));
    }
    let mut opts = options();
    opts.card_limit = Some(4);
    let plan = build_queue(&cards, &Store::new(), &opts, &default_params());
    assert_eq!(plan.queue.len(), 4);
}

#[test]
fn builder_is_deterministic_without_shuffle() {
    let mut cards = Vec::new();
    let mut store = Store::new();
    for n in 1..=6u128 {
        cards.push(card(n, 1000 + n, "d"));
        if n % 2 == 0 {
            store.put(fp(n), due_review(NOW - n as u64));
        }
    }
    let a = build_queue(&cards, &store, &options(), &default_params());
    let b = build_queue(&cards, &store, &options(), &default_params());
    assert_eq!(a.queue, b.queue);
}

#[test]
fn shuffled_queue_is_a_permutation_of_the_unshuffled_one() {
    let mut cards = Vec::new();
    for n in 1..=12u128 {
        cards.push(card(n, 1000 + n, "d"));
    }
    let plain = build_queue(&cards, &Store::new(), &options(), &default_params());
    let mut opts = options();
    opts.shuffle = true;
    let shuffled = build_queue(&cards, &Store::new(), &opts, &default_params());
    let mut a = plain.queue.iter().map(|f| f.lo).collect::<Vec<_>>();
    let mut b = shuffled.queue.iter().map(|f| f.lo).collect::<Vec<_>>();
    a.sort();
    b.sort();
    assert_eq!(a, b);
}

#[test]
fn orphan_records_are_tolerated() {
    let mut store = Store::new();
    store.put(fp(77), due_review(NOW - 1));
    let cards = vec![card(1, 100, "d")];
    let plan = build_queue(&cards, &store, &options(), &default_params());
    assert_eq!(plan.queue, vec![fp(1)]);
}

#[test]
fn skip_on_a_complete_session_does_nothing() {
    let mut session = Session::new(Vec::new(), Store::new(), options(), default_params());
    session.skip();
    assert_eq!(session.peek(), NextCard::Completed);
    assert_eq!(session.progress().answered, 0);
}

#[test]
fn binary_controls_treat_hard_as_good() {
    let cards = vec![card(1, 100, "deck")];
    let mut store = Store::new();
    store.put(fp(1), due_review(NOW - 5));
    let mut opts = options();
    opts.answer_controls = AnswerControls::Binary;
    let mut session = Session::new(cards, store, opts, default_params());
    session.answer(fp(1), Grade::Hard).expect("current card");
    let rec = session.store.get(&fp(1)).expect("persisted");
    // Under binary controls Hard collapses into Good: interval times ease.
    assert_eq!(rec.interval, 25 * DAY);
    assert_eq!(rec.ease, 2500);
}

#[test]
fn shuffled_session_serves_every_card() {
    let mut cards = Vec::new();
    let mut store = Store::new();
    for n in 1..=10u128 {
        cards.push(card(n, 1000 + n, "deck"));
        store.put(fp(n), due_review(NOW - n as u64));
    }
    let mut opts = options();
    opts.shuffle = true;
    let mut session = Session::new(cards, store, opts, default_params());
    assert_eq!(session.progress().remaining, 10);
    let mut served = 0;
    while let NextCard::Card(head) = session.peek() {
        session.answer(head, Grade::Good).expect("current card");
        served += 1;
        assert!(served <= 10);
    }
    assert_eq!(served, 10);
    assert_eq!(session.progress().answered, 10);
}
