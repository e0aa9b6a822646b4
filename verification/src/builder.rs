//! The session builder: given the collection's cards, the review-state
//! store and the session options, produces the ordered review queue.
//!
//! Cards are filtered by deck, partitioned into learning / review / new
//! buckets against the session's frozen `now`, ordered within each bucket
//! (due ascending with fingerprint tiebreak; new cards by fingerprint, or a
//! pseudo-random permutation seeded by `now` when shuffling), limited, and
//! interleaved as learning, then review, then new.

use vstd::multiset::Multiset;
use vstd::prelude::*;
use vstd::relations::{sorted_by, total_ordering};
use vstd::seq_lib::{lemma_multiset_commutative, lemma_sorted_unique};

use crate::store::Store;
use crate::types::{spec_default_record, AnswerControls, Card, CardState, Fingerprint, ReviewRecord, SchedulerParams, fp_le};

verus! {

broadcast use vstd::seq_lib::group_to_multiset_ensures, vstd::multiset::group_multiset_axioms;

/// Options of one drill session.
#[derive(Clone, Debug)]
pub struct SessionOptions {
    pub card_limit: Option<usize>,
    pub new_card_limit: Option<usize>,
    pub deck_filter: Option<Vec<u8>>,
    pub shuffle: bool,
    pub bury_siblings: bool,
    pub answer_controls: AnswerControls,
    pub now: u64,
}

/// Which bucket a record puts its card in at `now`.
#[derive(Clone, Copy, PartialEq, Eq, Structural, Debug)]
pub enum Bucket {
    Fresh,
    Learning,
    Review,
    Skipped,
}

/// Order on queue entries: due ascending, ties broken by fingerprint.
pub open spec fn entry_le(a: (u64, Fingerprint), b: (u64, Fingerprint)) -> bool {
    a.0 < b.0 || (a.0 == b.0 && fp_le(a.1, b.1))
}

/// The entry order as a relation value.
pub open spec fn entry_leq() -> spec_fn((u64, Fingerprint), (u64, Fingerprint)) -> bool {
    |a: (u64, Fingerprint), b: (u64, Fingerprint)| entry_le(a, b)
}

/// The entry order is a total order.
pub proof fn lemma_entry_leq_total()
    ensures
        total_ordering(entry_leq()),
{
    let r = entry_leq();
    assert forall|x: (u64, Fingerprint), y: (u64, Fingerprint)| #[trigger] r(x, y) && #[trigger] r(
        y,
        x,
    ) implies x == y by {
        assert(x.0 == y.0);
        assert(x.1.hi == y.1.hi && x.1.lo == y.1.lo);
        assert(x.1 == y.1);
    }
    assert forall|x: (u64, Fingerprint), y: (u64, Fingerprint)| !(#[trigger] r(x, y)) implies r(
        y,
        x,
    ) by {}
}

/// The record a fingerprint has in the store, or the implicit `New` record.
pub open spec fn spec_record_of(m: Map<Fingerprint, ReviewRecord>, fp: Fingerprint, p: SchedulerParams) -> ReviewRecord {
    if m.contains_key(fp) {
        m[fp]
    } else {
        spec_default_record(p)
    }
}

/// The bucket of a record at `now`: new cards have never been answered;
/// learning, relearning and review cards must be due; everything else is
/// left out of the session.
pub open spec fn spec_bucket(rec: ReviewRecord, now: u64) -> Bucket {
    if rec.state == CardState::New {
        Bucket::Fresh
    } else if (rec.state == CardState::Learning || rec.state == CardState::Relearning) && rec.due
        <= now {
        Bucket::Learning
    } else if rec.state == CardState::Review && rec.due <= now {
        Bucket::Review
    } else {
        Bucket::Skipped
    }
}

/// Hierarchical deck match: the deck equals the filter or descends from it
/// with a `/` separator.
pub open spec fn spec_deck_matches(deck: Seq<u8>, filter: Seq<u8>) -> bool {
    deck == filter || (deck.len() > filter.len() && deck.subrange(0, filter.len() as int)
        == filter && deck[filter.len() as int] == 47u8)
}

/// Whether the card passes the session's deck filter.
pub open spec fn spec_deck_ok(c: Card, opts: SessionOptions) -> bool {
    match opts.deck_filter {
        Some(f) => spec_deck_matches(c.deck@, f@),
        None => true,
    }
}

/// The predicate selecting cards of bucket `b` into the session.
pub open spec fn bucket_pred(m: Map<Fingerprint, ReviewRecord>, opts: SessionOptions, p: SchedulerParams, b: Bucket) -> spec_fn(Card) -> bool {
    |c: Card| spec_deck_ok(c, opts) && spec_bucket(spec_record_of(m, c.fingerprint, p), opts.now) == b
}

/// Maps a card to its queue entry: its due instant and fingerprint. New
/// cards get due 0, so they order by fingerprint alone.
pub open spec fn entry_fn(m: Map<Fingerprint, ReviewRecord>, p: SchedulerParams, b: Bucket) -> spec_fn(Card) -> (u64, Fingerprint) {
    |c: Card| (
        if b == Bucket::Fresh {
            0u64
        } else {
            spec_record_of(m, c.fingerprint, p).due
        },
        c.fingerprint,
    )
}

/// The sorted entries of bucket `b`.
pub open spec fn spec_bucket_entries(cards: Seq<Card>, m: Map<Fingerprint, ReviewRecord>, opts: SessionOptions, p: SchedulerParams, b: Bucket) -> Seq<(u64, Fingerprint)> {
    cards.filter(bucket_pred(m, opts, p, b)).map_values(entry_fn(m, p, b)).sort_by(entry_leq())
}

/// `take` clipped to the sequence's length.
pub open spec fn take_at_most<A>(s: Seq<A>, n: int) -> Seq<A> {
    if n >= s.len() {
        s
    } else {
        s.take(n)
    }
}

/// The fingerprint sequence of an entry sequence.
pub open spec fn fps_of(s: Seq<(u64, Fingerprint)>) -> Seq<Fingerprint> {
    s.map_values(|e: (u64, Fingerprint)| e.1)
}

/// The queue built around a given ordering `new_fps` of the new bucket:
/// sorted learning entries, then sorted review entries, then `new_fps`
/// truncated to the new-card limit, the whole truncated to the card limit.
pub open spec fn spec_build_with_new(cards: Seq<Card>, m: Map<Fingerprint, ReviewRecord>, opts: SessionOptions, p: SchedulerParams, new_fps: Seq<Fingerprint>) -> Seq<Fingerprint> {
    let learn = fps_of(spec_bucket_entries(cards, m, opts, p, Bucket::Learning));
    let rev = fps_of(spec_bucket_entries(cards, m, opts, p, Bucket::Review));
    let fresh_cut = match opts.new_card_limit {
        Some(n) => take_at_most(new_fps, n as int),
        None => new_fps,
    };
    let q = learn + rev + fresh_cut;
    match opts.card_limit {
        Some(k) => take_at_most(q, k as int),
        None => q,
    }
}

/// The queue the builder produces when `shuffle` is off: the new bucket
/// ordered by fingerprint ascending.
pub open spec fn spec_build(cards: Seq<Card>, m: Map<Fingerprint, ReviewRecord>, opts: SessionOptions, p: SchedulerParams) -> Seq<Fingerprint> {
    spec_build_with_new(
        cards,
        m,
        opts,
        p,
        fps_of(spec_bucket_entries(cards, m, opts, p, Bucket::Fresh)),
    )
}

/// The smaller of two lengths.
pub open spec fn min_int(a: int, b: int) -> int {
    if a < b {
        a
    } else {
        b
    }
}

/// The exact length of the built queue: learning plus review plus the
/// limited new bucket, capped by the card limit.
pub open spec fn spec_queue_len(cards: Seq<Card>, m: Map<Fingerprint, ReviewRecord>, opts: SessionOptions, p: SchedulerParams) -> int {
    let base = spec_bucket_entries(cards, m, opts, p, Bucket::Learning).len()
        + spec_bucket_entries(cards, m, opts, p, Bucket::Review).len();
    let freshn = spec_bucket_entries(cards, m, opts, p, Bucket::Fresh).len() as int;
    let cut = match opts.new_card_limit {
        Some(n) => min_int(n as int, freshn),
        None => freshn,
    };
    let full = base + cut;
    match opts.card_limit {
        Some(k) => min_int(k as int, full),
        None => full,
    }
}

/// Whether `fp` names a card of `cards`.
pub open spec fn is_card_of(cards: Seq<Card>, fp: Fingerprint) -> bool {
    exists|i: int| 0 <= i < cards.len() && (#[trigger] cards[i]).fingerprint == fp
}

/// Whether the entry order holds of two entries.
fn entry_le_exec(a: &(u64, Fingerprint), b: &(u64, Fingerprint)) -> (r: bool)
    ensures
        r == entry_le(*a, *b),
{
    a.0 < b.0 || (a.0 == b.0 && a.1.le(&b.1))
}

/// Inserting an element anywhere adds exactly it to the multiset.
proof fn lemma_seq_insert_multiset(s: Seq<(u64, Fingerprint)>, j: int, x: (u64, Fingerprint))
    requires
        0 <= j <= s.len(),
    ensures
        s.insert(j, x).to_multiset() =~= s.to_multiset().insert(x),
{
    let a = s.subrange(0, j);
    let b = s.subrange(j, s.len() as int);
    assert(s.insert(j, x) == a.push(x) + b);
    lemma_multiset_commutative(a.push(x), b);
    assert(s =~= a + b);
    lemma_multiset_commutative(a, b);
}

/// Sorts entries by due, fingerprint tiebreak; the result is exactly the
/// specification-level `sort_by`, and every output entry came from the
/// input.
fn sort_entries(input: Vec<(u64, Fingerprint)>) -> (out: Vec<(u64, Fingerprint)>)
    ensures
        out@ == input@.sort_by(entry_leq()),
        out@.to_multiset() == input@.to_multiset(),
        forall|t: int| 0 <= t < out@.len() ==> input@.contains(#[trigger] out@[t]),
{
    let mut out: Vec<(u64, Fingerprint)> = Vec::new();
    let mut idx: usize = 0;
    while idx < input.len()
        invariant
            idx <= input@.len(),
            sorted_by(out@, entry_leq()),
            out@.to_multiset() == input@.take(idx as int).to_multiset(),
        decreases input@.len() - idx,
    {
        let x: (u64, Fingerprint) = input[idx];
        let mut j: usize = 0;
        while j < out.len() && entry_le_exec(&out[j], &x)
            invariant
                j <= out@.len(),
                forall|t: int| 0 <= t < j ==> entry_le(#[trigger] out@[t], x),
                sorted_by(out@, entry_leq()),
            decreases out@.len() - j,
        {
            j += 1;
        }
        let ghost pre = out@;
        out.insert(j, x);
        proof {
            pre.insert_ensures(j as int, x);
            let r = entry_leq();
            assert forall|a: int, b: int| 0 <= a < b < out@.len() implies #[trigger] r(
                out@[a],
                out@[b],
            ) by {
                if b < j {
                    assert(r(pre[a], pre[b]));
                } else if b == j {
                    assert(out@[b] == x);
                    assert(entry_le(pre[a], x));
                } else {
                    assert(out@[b] == pre[b - 1]);
                    if a < j {
                        if a < b - 1 {
                            assert(r(pre[a], pre[b - 1]));
                        }
                        assert(entry_le(pre[a], x));
                        if a == b - 1 {
                            assert(r(pre[a], pre[a]));
                        }
                    } else if a == j {
                        assert(out@[a] == x);
                        assert(j < pre.len());
                        assert(!entry_le(pre[j as int], x));
                        assert(entry_le(x, pre[j as int]));
                        if b - 1 > j {
                            assert(r(pre[j as int], pre[b - 1]));
                        }
                    } else {
                        assert(out@[a] == pre[a - 1]);
                        assert(r(pre[a - 1], pre[b - 1]));
                    }
                }
            }
            lemma_seq_insert_multiset(pre, j as int, x);
            assert(input@.take(idx as int + 1) =~= input@.take(idx as int).push(x));
            assert(input@.take(idx as int + 1).to_multiset() =~= input@.take(
                idx as int,
            ).to_multiset().insert(x));
        }
        idx += 1;
    }
    proof {
        assert(input@.take(input@.len() as int) =~= input@);
        lemma_entry_leq_total();
        input@.lemma_sort_by_ensures(entry_leq());
        lemma_sorted_unique(out@, input@.sort_by(entry_leq()), entry_leq());
        assert forall|t: int| 0 <= t < out@.len() implies input@.contains(#[trigger] out@[t]) by {
            assert(out@.to_multiset().contains(out@[t]));
            assert(input@.to_multiset().contains(out@[t]));
        }
    }
    out
}

/// Permutes entries pseudo-randomly, seeded by `seed`: repeatedly draws an
/// index from a linear congruential generator and moves that entry out.
fn shuffle_entries(input: Vec<(u64, Fingerprint)>, seed: u64) -> (out: Vec<(u64, Fingerprint)>)
    ensures
        out@.to_multiset() == input@.to_multiset(),
        out@.len() == input@.len(),
        forall|t: int| 0 <= t < out@.len() ==> input@.contains(#[trigger] out@[t]),
{
    let ghost whole = input@.to_multiset();
    let mut rest = input;
    let mut out: Vec<(u64, Fingerprint)> = Vec::new();
    let mut state: u64 = seed;
    proof {
        assert(out@.to_multiset().add(rest@.to_multiset()) =~= whole);
    }
    while rest.len() > 0
        invariant
            out@.to_multiset().add(rest@.to_multiset()) == whole,
        decreases rest@.len(),
    {
        let wide: u128 = (state as u128) * 6364136223846793005u128 + 1442695040888963407u128;
        state = (wide % 18446744073709551616u128) as u64;
        let j: usize = (state % (rest.len() as u64)) as usize;
        let ghost pre = rest@;
        let x = rest.remove(j);
        out.push(x);
        proof {
            assert(pre.to_multiset().contains(x));
            assert(out@.to_multiset().add(rest@.to_multiset()) =~= whole);
        }
    }
    proof {
        assert(rest@.to_multiset() =~= Multiset::<(u64, Fingerprint)>::empty());
        assert(out@.to_multiset() =~= whole);
        assert(out@.to_multiset().len() == out@.len());
        assert(whole.len() == input@.len());
        assert forall|t: int| 0 <= t < out@.len() implies input@.contains(#[trigger] out@[t]) by {
            assert(out@.to_multiset().contains(out@[t]));
            assert(input@.to_multiset().contains(out@[t]));
        }
    }
    out
}

/// A filtered-and-mapped sequence grows by one exactly when the new
/// element passes the filter.
proof fn lemma_filter_map_push(s: Seq<Card>, x: Card, pred: spec_fn(Card) -> bool, f: spec_fn(Card) -> (u64, Fingerprint))
    ensures
        pred(x) ==> s.push(x).filter(pred).map_values(f) == s.filter(pred).map_values(f).push(
            f(x),
        ),
        !pred(x) ==> s.push(x).filter(pred).map_values(f) == s.filter(pred).map_values(f),
{
    assert(s.push(x).drop_last() =~= s);
    assert(s.push(x).last() == x);
    reveal_with_fuel(Seq::filter, 2);
    if pred(x) {
        assert(s.push(x).filter(pred) == s.filter(pred).push(x));
        assert(s.filter(pred).push(x).map_values(f) =~= s.filter(pred).map_values(f).push(f(x)));
    } else {
        assert(s.push(x).filter(pred) == s.filter(pred));
    }
}

/// The queue and the new-card set a session starts from.
pub struct Plan {
    pub queue: Vec<Fingerprint>,
    pub new_cards: Vec<Fingerprint>,
}

/// Converts sorted entries to their fingerprints.
fn entries_to_fps(v: &Vec<(u64, Fingerprint)>) -> (out: Vec<Fingerprint>)
    ensures
        out@ == fps_of(v@),
{
    let mut out: Vec<Fingerprint> = Vec::new();
    let mut i: usize = 0;
    while i < v.len()
        invariant
            i <= v@.len(),
            out@ == fps_of(v@.take(i as int)),
        decreases v@.len() - i,
    {
        out.push(v[i].1);
        proof {
            assert(v@.take(i as int + 1) =~= v@.take(i as int).push(v@[i as int]));
            assert(fps_of(v@.take(i as int + 1)) =~= fps_of(v@.take(i as int)).push(
                v@[i as int].1,
            ));
        }
        i += 1;
    }
    proof {
        assert(v@.take(v@.len() as int) =~= v@);
    }
    out
}

/// Keeps at most the first `n` elements.
fn truncate_fps(v: Vec<Fingerprint>, n: usize) -> (out: Vec<Fingerprint>)
    ensures
        out@ == take_at_most(v@, n as int),
{
    let mut out: Vec<Fingerprint> = Vec::new();
    let mut i: usize = 0;
    while i < v.len() && i < n
        invariant
            i <= v@.len(),
            i <= n,
            out@ == v@.take(i as int),
        decreases v@.len() - i,
    {
        out.push(v[i]);
        proof {
            assert(v@.take(i as int + 1) =~= v@.take(i as int).push(v@[i as int]));
        }
        i += 1;
    }
    proof {
        if i == v@.len() {
            assert(v@.take(i as int) =~= v@);
        }
    }
    out
}

/// Whether `deck` equals `filter` or descends from it.
fn deck_matches(deck: &Vec<u8>, filter: &Vec<u8>) -> (r: bool)
    ensures
        r == spec_deck_matches(deck@, filter@),
{
    if deck.len() < filter.len() {
        assert(deck@ != filter@ && deck@.len() < filter@.len());
        return false;
    }
    let mut i: usize = 0;
    while i < filter.len()
        invariant
            filter@.len() <= deck@.len(),
            i <= filter@.len(),
            forall|t: int| 0 <= t < i ==> deck@[t] == filter@[t],
        decreases filter@.len() - i,
    {
        if deck[i] != filter[i] {
            assert(deck@.subrange(0, filter@.len() as int)[i as int] != filter@[i as int]);
            assert(deck@.len() == filter@.len() ==> deck@ != filter@);
            return false;
        }
        i += 1;
    }
    if deck.len() == filter.len() {
        assert(deck@ =~= filter@);
        true
    } else {
        assert(deck@.subrange(0, filter@.len() as int) =~= filter@);
        assert(deck@ != filter@);
        deck[filter.len()] == 47u8
    }
}

/// Builds the session queue.
///
/// With `shuffle` off the result is exactly `spec_build`: the builder is a
/// pure function of its inputs, so identical inputs give identical queues.
/// With `shuffle` on the queue is the same build around some permutation
/// of the new bucket — so with no limits set it is a permutation of the
/// unshuffled queue. The queue's length is exactly `spec_queue_len`, the
/// card limit caps it, every queued fingerprint names one of the
/// collection's cards, and the new-card set is exactly the queued cards
/// whose record is absent or `New`.
pub fn build_queue(cards: &Vec<Card>, store: &Store, opts: &SessionOptions, p: &SchedulerParams) -> (plan: Plan)
    requires
        store.wf(),
        p.wf(),
    ensures
        !opts.shuffle ==> plan.queue@ == spec_build(cards@, store@, *opts, *p),
        opts.shuffle && opts.card_limit is None && opts.new_card_limit is None
            ==> plan.queue@.to_multiset() == spec_build(cards@, store@, *opts, *p).to_multiset(),
        opts.shuffle ==> (exists|perm: Seq<Fingerprint>|
            (#[trigger] perm.to_multiset()) == fps_of(
                spec_bucket_entries(cards@, store@, *opts, *p, Bucket::Fresh),
            ).to_multiset() && plan.queue@ == spec_build_with_new(cards@, store@, *opts, *p, perm)),
        plan.queue@.len() == spec_queue_len(cards@, store@, *opts, *p),
        opts.card_limit is Some ==> plan.queue@.len() <= opts.card_limit->Some_0,
        forall|t: int|
            0 <= t < plan.queue@.len() ==> is_card_of(cards@, #[trigger] plan.queue@[t]),
        plan.new_cards@ == plan.queue@.filter(
            |fp: Fingerprint| spec_record_of(store@, fp, *p).state == CardState::New,
        ),
{
    let ghost m = store@;
    let mut learn: Vec<(u64, Fingerprint)> = Vec::new();
    let mut rev: Vec<(u64, Fingerprint)> = Vec::new();
    let mut fresh: Vec<(u64, Fingerprint)> = Vec::new();
    let mut i: usize = 0;
    while i < cards.len()
        invariant
            store.wf(),
            p.wf(),
            m == store@,
            i <= cards@.len(),
            learn@ == cards@.take(i as int).filter(bucket_pred(m, *opts, *p, Bucket::Learning)).map_values(
                entry_fn(m, *p, Bucket::Learning),
            ),
            rev@ == cards@.take(i as int).filter(bucket_pred(m, *opts, *p, Bucket::Review)).map_values(
                entry_fn(m, *p, Bucket::Review),
            ),
            fresh@ == cards@.take(i as int).filter(bucket_pred(m, *opts, *p, Bucket::Fresh)).map_values(
                entry_fn(m, *p, Bucket::Fresh),
            ),
            forall|t: int| 0 <= t < learn@.len() ==> is_card_of(cards@, (#[trigger] learn@[t]).1),
            forall|t: int| 0 <= t < rev@.len() ==> is_card_of(cards@, (#[trigger] rev@[t]).1),
            forall|t: int| 0 <= t < fresh@.len() ==> is_card_of(cards@, (#[trigger] fresh@[t]).1),
        decreases cards@.len() - i,
    {
        let c = &cards[i];
        let deck_ok: bool = match &opts.deck_filter {
            Some(f) => deck_matches(&c.deck, f),
            None => true,
        };
        let rec: ReviewRecord = match store.get(&c.fingerprint) {
            Some(r) => r,
            None => crate::types::default_record(p),
        };
        assert(rec == spec_record_of(m, c.fingerprint, *p));
        let bucket: Bucket = if deck_ok {
            match rec.state {
                CardState::New => Bucket::Fresh,
                CardState::Learning | CardState::Relearning => if rec.due <= opts.now {
                    Bucket::Learning
                } else {
                    Bucket::Skipped
                },
                CardState::Review => if rec.due <= opts.now {
                    Bucket::Review
                } else {
                    Bucket::Skipped
                },
            }
        } else {
            Bucket::Skipped
        };
        let ghost cpre = cards@.take(i as int);
        proof {
            assert(cards@.take(i as int + 1) =~= cpre.push(cards@[i as int]));
            lemma_filter_map_push(
                cpre,
                cards@[i as int],
                bucket_pred(m, *opts, *p, Bucket::Learning),
                entry_fn(m, *p, Bucket::Learning),
            );
            lemma_filter_map_push(
                cpre,
                cards@[i as int],
                bucket_pred(m, *opts, *p, Bucket::Review),
                entry_fn(m, *p, Bucket::Review),
            );
            lemma_filter_map_push(
                cpre,
                cards@[i as int],
                bucket_pred(m, *opts, *p, Bucket::Fresh),
                entry_fn(m, *p, Bucket::Fresh),
            );
        }
        match bucket {
            Bucket::Learning => {
                learn.push((rec.due, c.fingerprint));
            },
            Bucket::Review => {
                rev.push((rec.due, c.fingerprint));
            },
            Bucket::Fresh => {
                fresh.push((0, c.fingerprint));
            },
            Bucket::Skipped => {},
        }
        i += 1;
    }
    proof {
        assert(cards@.take(cards@.len() as int) =~= cards@);
    }
    let ghost glearn = learn@;
    let ghost grev = rev@;
    let ghost gfresh = fresh@;
    let learn_sorted = sort_entries(learn);
    let rev_sorted = sort_entries(rev);
    let fresh_sorted = sort_entries(fresh);
    let ghost fresh_spec = spec_bucket_entries(cards@, m, *opts, *p, Bucket::Fresh);
    let fresh_perm: Vec<(u64, Fingerprint)> = if opts.shuffle {
        shuffle_entries(fresh_sorted, opts.now)
    } else {
        fresh_sorted
    };
    proof {
        assert(fresh_perm@.to_multiset() == fresh_spec.to_multiset());
        assert forall|t: int| 0 <= t < fresh_perm@.len() implies is_card_of(
            cards@,
            (#[trigger] fresh_perm@[t]).1,
        ) by {
            assert(gfresh.contains(fresh_perm@[t]) || fresh_spec.contains(fresh_perm@[t]));
            if fresh_spec.contains(fresh_perm@[t]) {
                assert(gfresh.to_multiset().contains(fresh_perm@[t]));
                assert(gfresh.contains(fresh_perm@[t]));
            }
            let u = choose|u: int| 0 <= u < gfresh.len() && gfresh[u] == fresh_perm@[t];
            assert(is_card_of(cards@, gfresh[u].1));
        }
        assert forall|t: int| 0 <= t < learn_sorted@.len() implies is_card_of(
            cards@,
            (#[trigger] learn_sorted@[t]).1,
        ) by {
            let u = choose|u: int| 0 <= u < glearn.len() && glearn[u] == learn_sorted@[t];
            assert(is_card_of(cards@, glearn[u].1));
        }
        assert forall|t: int| 0 <= t < rev_sorted@.len() implies is_card_of(
            cards@,
            (#[trigger] rev_sorted@[t]).1,
        ) by {
            let u = choose|u: int| 0 <= u < grev.len() && grev[u] == rev_sorted@[t];
            assert(is_card_of(cards@, grev[u].1));
        }
    }
    let learn_fps = entries_to_fps(&learn_sorted);
    let rev_fps = entries_to_fps(&rev_sorted);
    let fresh_fps = entries_to_fps(&fresh_perm);
    let fresh_cut: Vec<Fingerprint> = match opts.new_card_limit {
        Some(n) => truncate_fps(fresh_fps, n),
        None => fresh_fps,
    };
    let ghost lq = learn_fps@;
    let ghost rq = rev_fps@;
    let ghost fq = fresh_cut@;
    let mut q: Vec<Fingerprint> = learn_fps;
    let mut rev_fps2 = rev_fps;
    let mut fresh_cut2 = fresh_cut;
    q.append(&mut rev_fps2);
    q.append(&mut fresh_cut2);
    proof {
        assert(q@ == lq + rq + fq);
    }
    let ghost qsnap = q@;
    let queue: Vec<Fingerprint> = match opts.card_limit {
        Some(k) => truncate_fps(q, k),
        None => q,
    };
    proof {
        let freshfps = fps_of(fresh_perm@);
        lemma_fps_multiset(fresh_perm@, fresh_spec);
        assert(queue@ == spec_build_with_new(cards@, m, *opts, *p, freshfps));
        if !opts.shuffle {
            assert(queue@ == spec_build(cards@, m, *opts, *p));
        }
        if opts.shuffle {
            assert(freshfps.to_multiset() == fps_of(fresh_spec).to_multiset() && queue@
                == spec_build_with_new(cards@, m, *opts, *p, freshfps));
            assert(exists|perm: Seq<Fingerprint>|
                (#[trigger] perm.to_multiset()) == fps_of(fresh_spec).to_multiset() && queue@
                    == spec_build_with_new(cards@, m, *opts, *p, perm));
        }
        assert(freshfps.to_multiset().len() == freshfps.len());
        assert(fps_of(fresh_spec).to_multiset().len() == fps_of(fresh_spec).len());
        assert(queue@.len() == spec_queue_len(cards@, m, *opts, *p));
        if opts.shuffle && opts.card_limit is None && opts.new_card_limit is None {
            let base = fps_of(spec_bucket_entries(cards@, m, *opts, *p, Bucket::Learning)) + fps_of(
                spec_bucket_entries(cards@, m, *opts, *p, Bucket::Review),
            );
            lemma_multiset_commutative(base, fps_of(fresh_perm@));
            lemma_multiset_commutative(base, fps_of(fresh_spec));
            assert(queue@ == base + fps_of(fresh_perm@));
            assert(spec_build(cards@, m, *opts, *p) == base + fps_of(fresh_spec));
        }
        assert forall|t: int| 0 <= t < queue@.len() implies is_card_of(
            cards@,
            #[trigger] queue@[t],
        ) by {
            assert(queue@[t] == qsnap[t]);
            let n1 = lq.len() as int;
            let n2 = rq.len() as int;
            if t < n1 {
                assert(qsnap[t] == lq[t]);
                assert(lq[t] == learn_sorted@[t].1);
            } else if t < n1 + n2 {
                assert(qsnap[t] == rq[t - n1]);
                assert(rq[t - n1] == rev_sorted@[t - n1].1);
            } else {
                assert(qsnap[t] == fq[t - n1 - n2]);
                assert(fq[t - n1 - n2] == fresh_perm@[t - n1 - n2].1);
            }
        }
    }
    let mut new_cards: Vec<Fingerprint> = Vec::new();
    let mut t: usize = 0;
    while t < queue.len()
        invariant
            store.wf(),
            p.wf(),
            m == store@,
            t <= queue@.len(),
            new_cards@ == queue@.take(t as int).filter(
                |fp: Fingerprint| spec_record_of(m, fp, *p).state == CardState::New,
            ),
        decreases queue@.len() - t,
    {
        let fp = queue[t];
        let is_new: bool = match store.get(&fp) {
            Some(r) => match r.state {
                CardState::New => true,
                _ => false,
            },
            None => true,
        };
        proof {
            let pred = |fpx: Fingerprint| spec_record_of(m, fpx, *p).state == CardState::New;
            let qpre = queue@.take(t as int);
            assert(queue@.take(t as int + 1) =~= qpre.push(queue@[t as int]));
            assert(qpre.push(queue@[t as int]).drop_last() =~= qpre);
            reveal_with_fuel(Seq::filter, 2);
            if pred(queue@[t as int]) {
                assert(qpre.push(queue@[t as int]).filter(pred) == qpre.filter(pred).push(
                    queue@[t as int],
                ));
            } else {
                assert(qpre.push(queue@[t as int]).filter(pred) == qpre.filter(pred));
            }
        }
        if is_new {
            new_cards.push(fp);
        }
        t += 1;
    }
    proof {
        assert(queue@.take(queue@.len() as int) =~= queue@);
    }
    Plan { queue, new_cards }
}

/// Entry sequences with equal multisets have fingerprint sequences with
/// equal multisets.
proof fn lemma_fps_multiset(a: Seq<(u64, Fingerprint)>, b: Seq<(u64, Fingerprint)>)
    requires
        a.to_multiset() == b.to_multiset(),
    ensures
        fps_of(a).to_multiset() == fps_of(b).to_multiset(),
    decreases a.len(),
{
    if a.len() == 0 {
        assert(b.to_multiset().len() == 0);
        assert(b.len() == 0);
        assert(fps_of(a) =~= Seq::<Fingerprint>::empty());
        assert(fps_of(b) =~= Seq::<Fingerprint>::empty());
    } else {
        let x = a.last();
        assert(a.to_multiset().contains(x));
        assert(b.to_multiset().contains(x));
        assert(b.contains(x));
        let j = choose|j: int| 0 <= j < b.len() && b[j] == x;
        let a2 = a.drop_last();
        let b2 = b.remove(j);
        assert(a =~= a2.push(x));
        assert(a.to_multiset() =~= a2.to_multiset().insert(x));
        assert(b2.to_multiset() =~= b.to_multiset().remove(x));
        assert(a2.to_multiset() =~= b2.to_multiset());
        lemma_fps_multiset(a2, b2);
        assert(fps_of(a) =~= fps_of(a2).push(x.1));
        assert(fps_of(a).to_multiset() =~= fps_of(a2).to_multiset().insert(x.1));
        assert(fps_of(b2) =~= fps_of(b).remove(j));
        assert(fps_of(b)[j] == x.1);
        assert(fps_of(b).remove(j).to_multiset() =~= fps_of(b).to_multiset().remove(x.1));
        assert(fps_of(b).to_multiset().contains(x.1));
        assert(fps_of(b).to_multiset() =~= fps_of(b2).to_multiset().insert(x.1));
    }
}

} // verus!
