//! The session runtime: in-memory session state — remaining queue, bury
//! set, counters — with answering serialized through `&mut self`.
//!
//! An answer computes the next record with the scheduler, writes it through
//! the review-state store, dequeues the card, and (when sibling burial is
//! on) removes every other card generated from the same note from the
//! queue for the rest of the session. `Again` under the `Full` controls
//! re-enqueues the card a few positions back. The scheduler always sees
//! the session's frozen `started_at` instant.

use vstd::prelude::*;

use crate::builder::{build_queue, fps_of, is_card_of, spec_bucket_entries, spec_build, spec_build_with_new, spec_queue_len, spec_record_of, Bucket, SessionOptions};
use crate::scheduler::{apply, map_grade, spec_apply, spec_map_grade};
use crate::store::Store;
use crate::types::{default_record, AnswerControls, Card, CardState, Fingerprint, Grade, ReviewRecord, SchedulerParams};

verus! {

/// What the client sees next: a card to review, or completion.
#[derive(Clone, Copy, PartialEq, Eq, Structural, Debug)]
pub enum NextCard {
    Card(Fingerprint),
    Completed,
}

/// Why an answer was rejected.
#[derive(Clone, Copy, PartialEq, Eq, Structural, Debug)]
pub enum AnswerError {
    /// The posted fingerprint is not the current head of the queue.
    StaleFingerprint,
}

/// Session counters.
#[derive(Clone, Copy, PartialEq, Eq, Structural, Debug)]
pub struct Progress {
    pub answered: usize,
    pub remaining: usize,
    pub new_answered: usize,
}

/// Whether all fingerprints in `cards` are pairwise distinct.
pub open spec fn distinct_cards(cards: Seq<Card>) -> bool {
    forall|i: int, j: int|
        0 <= i < j < cards.len() ==> (#[trigger] cards[i]).fingerprint != (
        #[trigger] cards[j]).fingerprint
}

/// The index of the card named `fp`.
pub open spec fn card_index_of(cards: Seq<Card>, fp: Fingerprint) -> int {
    choose|i: int| 0 <= i < cards.len() && (#[trigger] cards[i]).fingerprint == fp
}

/// The note fingerprint of the card named `fp`.
pub open spec fn note_of(cards: Seq<Card>, fp: Fingerprint) -> Fingerprint {
    cards[card_index_of(cards, fp)].note
}

/// The predicate keeping a queued card when `fp` is answered: the card
/// itself stays eligible for re-enqueueing; any other card of the same
/// note is buried.
pub open spec fn keep_pred(cards: Seq<Card>, fp: Fingerprint) -> spec_fn(Fingerprint) -> bool {
    |q: Fingerprint| q == fp || note_of(cards, q) != note_of(cards, fp)
}

/// The predicate selecting the cards buried when `fp` is answered: every
/// other queued card of the same note.
pub open spec fn bury_pred(cards: Seq<Card>, fp: Fingerprint) -> spec_fn(Fingerprint) -> bool {
    |q: Fingerprint| q != fp && note_of(cards, q) == note_of(cards, fp)
}

/// A filtered sequence grows exactly by elements passing the filter.
proof fn lemma_filter_push<A>(s: Seq<A>, x: A, pred: spec_fn(A) -> bool)
    ensures
        pred(x) ==> s.push(x).filter(pred) == s.filter(pred).push(x),
        !pred(x) ==> s.push(x).filter(pred) == s.filter(pred),
{
    assert(s.push(x).drop_last() =~= s);
    assert(s.push(x).last() == x);
    reveal_with_fuel(Seq::filter, 2);
}

/// One drill session.
#[derive(Clone)]
pub struct Session {
    pub cards: Vec<Card>,
    pub store: Store,
    pub queue: Vec<Fingerprint>,
    pub bury: Vec<Fingerprint>,
    pub started_at: u64,
    pub answered: usize,
    pub new_answered: usize,
    pub card_limit: Option<usize>,
    pub answer_controls: AnswerControls,
    pub bury_siblings: bool,
    pub params: SchedulerParams,
    pub hist: Ghost<Seq<Fingerprint>>,
}

impl Session {
    /// No two distinct answered cards share a note fingerprint while
    /// sibling burial is on.
    pub open spec fn sibling_discipline(self) -> bool {
        self.bury_siblings ==> forall|a: int, b: int|
            0 <= a < b < self.hist@.len() ==> #[trigger] self.hist@[a] == #[trigger] self.hist@[b]
                || note_of(self.cards@, self.hist@[a]) != note_of(self.cards@, self.hist@[b])
    }

    /// Session invariant.
    pub open spec fn inv(self) -> bool {
        &&& self.params.wf()
        &&& self.store.wf()
        &&& self.store.all_wf(self.params)
        &&& self.started_at <= u64::MAX - self.params.max_interval
        &&& distinct_cards(self.cards@)
        &&& forall|t: int|
            0 <= t < self.queue@.len() ==> is_card_of(self.cards@, #[trigger] self.queue@[t])
        &&& forall|t: int|
            0 <= t < self.hist@.len() ==> is_card_of(self.cards@, #[trigger] self.hist@[t])
        &&& self.sibling_discipline()
        &&& (self.bury_siblings ==> forall|q: int, h: int|
            0 <= q < self.queue@.len() && 0 <= h < self.hist@.len()
                ==> #[trigger] self.queue@[q] == #[trigger] self.hist@[h] || note_of(
                self.cards@,
                self.queue@[q],
            ) != note_of(self.cards@, self.hist@[h]))
        &&& self.answered == self.hist@.len()
        &&& self.new_answered <= self.answered
    }

    /// The session is complete when the queue is empty or the card limit
    /// is reached.
    pub open spec fn spec_done(self) -> bool {
        self.queue@.len() == 0 || (self.card_limit is Some && self.answered
            >= self.card_limit->Some_0)
    }

    /// Whether `fp` is the card currently being served.
    pub open spec fn spec_current_ok(self, fp: Fingerprint) -> bool {
        !self.spec_done() && self.queue@[0] == fp
    }

    /// Starts a session: builds the queue from the collection, the store
    /// and the options, freezing `opts.now` as the session clock.
    pub fn new(cards: Vec<Card>, store: Store, opts: SessionOptions, params: SchedulerParams) -> (s: Session)
        requires
            params.wf(),
            store.wf(),
            store.all_wf(params),
            opts.now <= u64::MAX - params.max_interval,
            distinct_cards(cards@),
        ensures
            s.inv(),
            !opts.shuffle ==> s.queue@ == spec_build(cards@, store@, opts, params),
            opts.shuffle ==> (exists|perm: Seq<Fingerprint>|
                (#[trigger] perm.to_multiset()) == fps_of(
                    spec_bucket_entries(cards@, store@, opts, params, Bucket::Fresh),
                ).to_multiset() && s.queue@ == spec_build_with_new(
                    cards@,
                    store@,
                    opts,
                    params,
                    perm,
                )),
            s.queue@.len() == spec_queue_len(cards@, store@, opts, params),
            opts.card_limit is Some ==> s.queue@.len() <= opts.card_limit->Some_0,
            s.answered == 0,
            s.new_answered == 0,
            s.hist@ == Seq::<Fingerprint>::empty(),
            s.bury@ == Seq::<Fingerprint>::empty(),
            s.started_at == opts.now,
            s.store@ == store@,
            s.cards@ == cards@,
            s.card_limit == opts.card_limit,
            s.answer_controls == opts.answer_controls,
            s.bury_siblings == opts.bury_siblings,
            s.params == params,
            s.queue@.len() == 0 ==> s.spec_done(),
        {
        let ghost gcards = cards@;
        let ghost gstore = store@;
        let plan = build_queue(&cards, &store, &opts, &params);
        let s = Session {
            cards,
            store,
            queue: plan.queue,
            bury: Vec::new(),
            started_at: opts.now,
            answered: 0,
            new_answered: 0,
            card_limit: opts.card_limit,
            answer_controls: opts.answer_controls,
            bury_siblings: opts.bury_siblings,
            params,
            hist: Ghost(Seq::empty()),
        };
        proof {
            if opts.shuffle {
                let perm = choose|perm: Seq<Fingerprint>|
                    (#[trigger] perm.to_multiset()) == fps_of(
                        spec_bucket_entries(gcards, gstore, opts, params, Bucket::Fresh),
                    ).to_multiset() && s.queue@ == spec_build_with_new(
                        gcards,
                        gstore,
                        opts,
                        params,
                        perm,
                    );
            }
        }
        s
    }

    /// The card at the head of the queue, or completion, without
    /// dequeueing.
    pub fn peek(&self) -> (r: NextCard)
        ensures
            r == if self.spec_done() {
                NextCard::Completed
            } else {
                NextCard::Card(self.queue@[0])
            },
    {
        let done: bool = self.queue.len() == 0 || (match self.card_limit {
            Some(k) => self.answered >= k,
            None => false,
        });
        if done {
            NextCard::Completed
        } else {
            NextCard::Card(self.queue[0])
        }
    }

    /// Session counters: cards answered, cards remaining in the queue,
    /// new cards answered.
    pub fn progress(&self) -> (pr: Progress)
        ensures
            pr.answered == self.answered,
            pr.remaining == self.queue@.len(),
            pr.new_answered == self.new_answered,
    {
        Progress {
            answered: self.answered,
            remaining: self.queue.len(),
            new_answered: self.new_answered,
        }
    }

    /// Moves the head of the queue to the tail without touching the
    /// store; does nothing when the session is complete.
    pub fn skip(&mut self)
        requires
            old(self).inv(),
        ensures
            final(self).inv(),
            old(self).spec_done() ==> *final(self) == *old(self),
            !old(self).spec_done() ==> final(self).queue@ == old(self).queue@.drop_first().push(
                old(self).queue@[0],
            ),
            final(self).store@ == old(self).store@,
            final(self).hist@ == old(self).hist@,
            final(self).answered == old(self).answered,
            final(self).new_answered == old(self).new_answered,
            final(self).cards@ == old(self).cards@,
            final(self).bury@ == old(self).bury@,
            final(self).started_at == old(self).started_at,
            final(self).card_limit == old(self).card_limit,
            final(self).answer_controls == old(self).answer_controls,
            final(self).bury_siblings == old(self).bury_siblings,
            final(self).params == old(self).params,
    {
        let done: bool = self.queue.len() == 0 || (match self.card_limit {
            Some(k) => self.answered >= k,
            None => false,
        });
        if !done {
            let fp = self.queue.remove(0);
            self.queue.push(fp);
            proof {
                assert(self.queue@ =~= old(self).queue@.drop_first().push(old(self).queue@[0]));
                assert forall|t: int| 0 <= t < self.queue@.len() implies is_card_of(
                    self.cards@,
                    #[trigger] self.queue@[t],
                ) by {
                    if t < self.queue@.len() - 1 {
                        assert(self.queue@[t] == old(self).queue@[t + 1]);
                    } else {
                        assert(self.queue@[t] == old(self).queue@[0]);
                    }
                }
                if self.bury_siblings {
                    assert forall|q: int, h: int|
                        0 <= q < self.queue@.len() && 0 <= h < self.hist@.len()
                            implies #[trigger] self.queue@[q] == #[trigger] self.hist@[h]
                        || note_of(self.cards@, self.queue@[q]) != note_of(
                        self.cards@,
                        self.hist@[h],
                    ) by {
                        if q < self.queue@.len() - 1 {
                            assert(self.queue@[q] == old(self).queue@[q + 1]);
                        } else {
                            assert(self.queue@[q] == old(self).queue@[0]);
                        }
                    }
                }
            }
        }
    }

    /// The note fingerprint of the card named `fp`.
    fn find_note(&self, fp: &Fingerprint) -> (r: Fingerprint)
        requires
            distinct_cards(self.cards@),
            is_card_of(self.cards@, *fp),
        ensures
            r == note_of(self.cards@, *fp),
    {
        let mut i: usize = 0;
        while i < self.cards.len()
            invariant
                i <= self.cards@.len(),
                distinct_cards(self.cards@),
                is_card_of(self.cards@, *fp),
                forall|j: int| 0 <= j < i ==> (#[trigger] self.cards@[j]).fingerprint != *fp,
            decreases self.cards@.len() - i,
        {
            if self.cards[i].fingerprint == *fp {
                proof {
                    let j = card_index_of(self.cards@, *fp);
                    assert(0 <= j < self.cards@.len() && self.cards@[j].fingerprint == *fp);
                    assert(j == i as int);
                }
                return self.cards[i].note;
            }
            i += 1;
        }
        proof {
            let w = choose|w: int|
                0 <= w < self.cards@.len() && (#[trigger] self.cards@[w]).fingerprint == *fp;
            assert(false);
        }
        self.cards[0].note
    }

    /// Answers the current card.
    ///
    /// Rejected as stale, with the session untouched, exactly when the
    /// session is complete or `fp` is not the head of the queue. On
    /// success the head's record is pushed through the scheduler at the
    /// frozen session clock and written to the store; the card is
    /// dequeued; siblings are buried when sibling burial is on; `Again`
    /// under the `Full` controls re-enqueues the card after at most three
    /// positions; and the counters advance. No two distinct cards of one
    /// note are ever answered in a session with sibling burial on.
    pub fn answer(&mut self, fp: Fingerprint, grade: Grade) -> (r: Result<(), AnswerError>)
        requires
            old(self).inv(),
            old(self).answered < usize::MAX,
        ensures
            final(self).inv(),
            final(self).sibling_discipline(),
            r is Err <==> !old(self).spec_current_ok(fp),
            r is Err ==> *final(self) == *old(self) && r == Err::<(), AnswerError>(
                AnswerError::StaleFingerprint,
            ),
            r is Ok ==> ({
                let g2 = spec_map_grade(old(self).answer_controls, grade);
                let oldrec = spec_record_of(old(self).store@, fp, old(self).params);
                let newrec = spec_apply(oldrec, g2, old(self).started_at, old(self).params);
                let base = old(self).queue@.drop_first();
                let kept = if old(self).bury_siblings {
                    base.filter(keep_pred(old(self).cards@, fp))
                } else {
                    base
                };
                &&& final(self).store@ == old(self).store@.insert(fp, newrec)
                &&& final(self).answered == old(self).answered + 1
                &&& final(self).new_answered == old(self).new_answered + (
                if oldrec.state == CardState::New {
                    1int
                } else {
                    0int
                })
                &&& final(self).hist@ == old(self).hist@.push(fp)
                &&& final(self).bury@ == old(self).bury@ + (
                if old(self).bury_siblings {
                    old(self).queue@.drop_first().filter(bury_pred(old(self).cards@, fp))
                } else {
                    Seq::<Fingerprint>::empty()
                })
                &&& final(self).queue@ == (
                if old(self).answer_controls == AnswerControls::Full && g2 == Grade::Again {
                    kept.insert(if kept.len() < 3 { kept.len() as int } else { 3int }, fp)
                } else {
                    kept
                })
                &&& final(self).cards@ == old(self).cards@
                &&& final(self).started_at == old(self).started_at
                &&& final(self).card_limit == old(self).card_limit
                &&& final(self).bury_siblings == old(self).bury_siblings
                &&& final(self).answer_controls == old(self).answer_controls
                &&& final(self).params == old(self).params
            }),
    {
        let done: bool = self.queue.len() == 0 || (match self.card_limit {
            Some(k) => self.answered >= k,
            None => false,
        });
        if done {
            return Err(AnswerError::StaleFingerprint);
        }
        if !(self.queue[0] == fp) {
            return Err(AnswerError::StaleFingerprint);
        }
        let ghost cards0 = self.cards@;
        let g2 = map_grade(self.answer_controls, grade);
        let oldrec: ReviewRecord = match self.store.get(&fp) {
            Some(rec) => rec,
            None => default_record(&self.params),
        };
        assert(oldrec.wf(self.params));
        let newrec = apply(&oldrec, g2, self.started_at, &self.params);
        self.store.put(fp, newrec);
        let was_new: bool = match oldrec.state {
            CardState::New => true,
            _ => false,
        };
        self.queue.remove(0);
        proof {
            assert(self.queue@ =~= old(self).queue@.drop_first());
        }
        let ghost base = self.queue@;
        if self.bury_siblings {
            let note = self.find_note(&fp);
            let mut kept_q: Vec<Fingerprint> = Vec::new();
            let mut t: usize = 0;
            while t < self.queue.len()
                invariant
                    t <= self.queue@.len(),
                    distinct_cards(self.cards@),
                    self.cards@ == cards0,
                    is_card_of(self.cards@, fp),
                    note == note_of(self.cards@, fp),
                    forall|u: int|
                        0 <= u < self.queue@.len() ==> is_card_of(
                            self.cards@,
                            #[trigger] self.queue@[u],
                        ),
                    kept_q@ == self.queue@.take(t as int).filter(keep_pred(cards0, fp)),
                decreases self.queue@.len() - t,
            {
                let q = self.queue[t];
                let keep: bool = if q == fp {
                    true
                } else {
                    let qn = self.find_note(&q);
                    qn != note
                };
                proof {
                    let pred = keep_pred(cards0, fp);
                    assert(self.queue@.take(t as int + 1) =~= self.queue@.take(t as int).push(
                        self.queue@[t as int],
                    ));
                    lemma_filter_push(self.queue@.take(t as int), self.queue@[t as int], pred);
                }
                if keep {
                    kept_q.push(q);
                }
                t += 1;
            }
            proof {
                assert(self.queue@.take(self.queue@.len() as int) =~= self.queue@);
            }
            let mut buried: Vec<Fingerprint> = Vec::new();
            let mut u: usize = 0;
            while u < self.queue.len()
                invariant
                    u <= self.queue@.len(),
                    distinct_cards(self.cards@),
                    self.cards@ == cards0,
                    is_card_of(self.cards@, fp),
                    note == note_of(self.cards@, fp),
                    forall|v: int|
                        0 <= v < self.queue@.len() ==> is_card_of(
                            self.cards@,
                            #[trigger] self.queue@[v],
                        ),
                    buried@ == self.queue@.take(u as int).filter(bury_pred(cards0, fp)),
                decreases self.queue@.len() - u,
            {
                let q = self.queue[u];
                let drop_it: bool = if q == fp {
                    false
                } else {
                    let qn = self.find_note(&q);
                    qn == note
                };
                proof {
                    let pred = bury_pred(cards0, fp);
                    assert(self.queue@.take(u as int + 1) =~= self.queue@.take(u as int).push(
                        self.queue@[u as int],
                    ));
                    lemma_filter_push(self.queue@.take(u as int), self.queue@[u as int], pred);
                }
                if drop_it {
                    buried.push(q);
                }
                u += 1;
            }
            proof {
                assert(self.queue@.take(self.queue@.len() as int) =~= self.queue@);
            }
            let mut b2 = buried;
            self.bury.append(&mut b2);
            self.queue = kept_q;
        }
        let requeue: bool = match (self.answer_controls, g2) {
            (AnswerControls::Full, Grade::Again) => true,
            _ => false,
        };
        if requeue {
            let pos: usize = if self.queue.len() < 3 {
                self.queue.len()
            } else {
                3
            };
            let ghost kept = self.queue@;
            self.queue.insert(pos, fp);
            proof {
                kept.insert_ensures(pos as int, fp);
            }
        }
        self.answered += 1;
        if was_new {
            self.new_answered += 1;
        }
        proof {
            self.hist@ = old(self).hist@.push(fp);
        }
        proof {
            if !self.bury_siblings {
                assert(self.bury@ =~= old(self).bury@ + Seq::<Fingerprint>::empty());
            }
            let ghost kept = if old(self).bury_siblings {
                base.filter(keep_pred(cards0, fp))
            } else {
                base
            };
            assert forall|t: int| 0 <= t < self.queue@.len() implies is_card_of(
                self.cards@,
                #[trigger] self.queue@[t],
            ) by {
                lemma_queue_elements(old(self).queue@, kept, self.queue@, cards0, fp, old(self).bury_siblings);
            }
            assert forall|t: int| 0 <= t < self.hist@.len() implies is_card_of(
                self.cards@,
                #[trigger] self.hist@[t],
            ) by {
                if t == self.hist@.len() - 1 {
                    assert(self.hist@[t] == fp);
                    assert(is_card_of(cards0, old(self).queue@[0]));
                }
            }
            if self.bury_siblings {
                assert forall|a: int, b: int| 0 <= a < b < self.hist@.len()
                    implies #[trigger] self.hist@[a] == #[trigger] self.hist@[b] || note_of(
                    self.cards@,
                    self.hist@[a],
                ) != note_of(self.cards@, self.hist@[b]) by {
                    if b == self.hist@.len() - 1 {
                        assert(self.hist@[b] == fp);
                        assert(old(self).queue@[0] == fp);
                        assert(old(self).hist@[a] == self.hist@[a]);
                    }
                }
                assert forall|q: int, h: int|
                    0 <= q < self.queue@.len() && 0 <= h < self.hist@.len()
                        implies #[trigger] self.queue@[q] == #[trigger] self.hist@[h] || note_of(
                    self.cards@,
                    self.queue@[q],
                ) != note_of(self.cards@, self.hist@[h]) by {
                    lemma_queue_elements(old(self).queue@, kept, self.queue@, cards0, fp, old(self).bury_siblings);
                    let e = self.queue@[q];
                    if h == self.hist@.len() - 1 {
                        assert(self.hist@[h] == fp);
                        assert(e == fp || keep_pred(cards0, fp)(e));
                    } else {
                        assert(self.hist@[h] == old(self).hist@[h]);
                        if e != fp {
                            let w = choose|w: int|
                                0 <= w < old(self).queue@.len() && old(self).queue@[w] == e;
                            assert(old(self).queue@[w] == e);
                        } else {
                            assert(old(self).queue@[0] == e);
                        }
                    }
                }
            }
        }
        Ok(())
    }
}

/// Every element of the answered queue is either the answered card or an
/// element of the pre-answer queue that survived burial; in either case it
/// is an element of the pre-answer queue.
proof fn lemma_queue_elements(qold: Seq<Fingerprint>, kept: Seq<Fingerprint>, qnew: Seq<Fingerprint>, cards: Seq<Card>, fp: Fingerprint, burying: bool)
    requires
        qold.len() > 0,
        qold[0] == fp,
        kept == if burying {
            qold.drop_first().filter(keep_pred(cards, fp))
        } else {
            qold.drop_first()
        },
        qnew == kept || qnew == kept.insert(
            if kept.len() < 3 {
                kept.len() as int
            } else {
                3int
            },
            fp,
        ),
    ensures
        forall|t: int|
            0 <= t < qnew.len() ==> exists|w: int|
                0 <= w < qold.len() && qold[w] == #[trigger] qnew[t],
        burying ==> forall|t: int|
            0 <= t < qnew.len() ==> #[trigger] qnew[t] == fp || keep_pred(cards, fp)(qnew[t]),
{
    let base = qold.drop_first();
    assert forall|t: int| 0 <= t < kept.len() implies (exists|w: int|
        0 <= w < qold.len() && qold[w] == #[trigger] kept[t]) && (burying ==> kept[t] == fp
        || keep_pred(cards, fp)(kept[t])) by {
        if burying {
            lemma_filter_subset(base, keep_pred(cards, fp));
            let u = choose|u: int| 0 <= u < base.len() && base[u] == kept[t];
            assert(qold[u + 1] == kept[t]);
        } else {
            assert(qold[t + 1] == kept[t]);
        }
    }
    if qnew != kept {
        let pos = if kept.len() < 3 {
            kept.len() as int
        } else {
            3int
        };
        kept.insert_ensures(pos, fp);
        assert forall|t: int| 0 <= t < qnew.len() implies (exists|w: int|
            0 <= w < qold.len() && qold[w] == #[trigger] qnew[t]) && (burying ==> qnew[t] == fp
            || keep_pred(cards, fp)(qnew[t])) by {
            if t == pos {
                assert(qnew[t] == fp);
                assert(qold[0] == qnew[t]);
            } else if t < pos {
                assert(qnew[t] == kept[t]);
            } else {
                assert(qnew[t] == kept[t - 1]);
            }
        }
    }
}

/// Everything a filter keeps was in the sequence.
proof fn lemma_filter_subset<A>(s: Seq<A>, pred: spec_fn(A) -> bool)
    ensures
        forall|t: int|
            0 <= t < s.filter(pred).len() ==> s.contains(#[trigger] s.filter(pred)[t]) && pred(
                s.filter(pred)[t],
            ),
    decreases s.len(),
{
    reveal_with_fuel(Seq::filter, 2);
    if s.len() > 0 {
        lemma_filter_subset(s.drop_last(), pred);
        let f = s.filter(pred);
        let fd = s.drop_last().filter(pred);
        assert forall|t: int| 0 <= t < f.len() implies s.contains(#[trigger] f[t]) && pred(
            f[t],
        ) by {
            if t < fd.len() {
                assert(fd[t] == f[t]);
                assert(s.drop_last().contains(fd[t]));
                let w = choose|w: int| 0 <= w < s.drop_last().len() && s.drop_last()[w] == fd[t];
                assert(s[w] == f[t]);
            } else {
                assert(f[t] == s.last());
                assert(s[s.len() - 1] == f[t]);
            }
        }
    }
}

} // verus!
