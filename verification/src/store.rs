//! The review-state store: a keyed store mapping each card fingerprint to
//! its review record, with atomic single-record upsert and delete.
//!
//! The store is held in memory as an association list with unique keys and
//! is viewed as a `Map`. Durability is a caller's concern: the whole store
//! round-trips through the record codec to a single file.

use vstd::bytes::{
    lemma_auto_spec_u128_to_from_le_bytes, spec_u128_from_le_bytes, spec_u128_to_le_bytes,
    u128_from_le_bytes, u128_to_le_bytes,
};
use vstd::prelude::*;
use vstd::slice::slice_subrange;

use crate::codec::{decode_record, encode_record, spec_decode, spec_encode, RECORD_BYTES};
use crate::types::{CardState, Fingerprint, ReviewRecord, SchedulerParams, DAY_SECONDS};

verus! {

/// Whether the keys of an association list are pairwise distinct.
pub open spec fn keys_unique(s: Seq<(Fingerprint, ReviewRecord)>) -> bool {
    forall|i: int, j: int| 0 <= i < j < s.len() ==> (#[trigger] s[i]).0 != (#[trigger] s[j]).0
}

/// The map an association list denotes; later entries win (irrelevant once
/// keys are unique).
pub open spec fn map_of(s: Seq<(Fingerprint, ReviewRecord)>) -> Map<Fingerprint, ReviewRecord>
    decreases s.len(),
{
    if s.len() == 0 {
        Map::empty()
    } else {
        map_of(s.drop_last()).insert(s.last().0, s.last().1)
    }
}

/// A key is in the map exactly when some entry holds it.
pub proof fn lemma_map_of_membership(s: Seq<(Fingerprint, ReviewRecord)>)
    ensures
        forall|k: Fingerprint|
            map_of(s).contains_key(k) <==> exists|i: int|
                0 <= i < s.len() && (#[trigger] s[i]).0 == k,
    decreases s.len(),
{
    if s.len() > 0 {
        lemma_map_of_membership(s.drop_last());
        assert forall|k: Fingerprint| map_of(s).contains_key(k) implies exists|i: int|
            0 <= i < s.len() && (#[trigger] s[i]).0 == k by {
            if k == s.last().0 {
                assert(s[s.len() - 1].0 == k);
            } else {
                assert(map_of(s.drop_last()).contains_key(k));
                let i = choose|i: int|
                    0 <= i < s.drop_last().len() && (#[trigger] s.drop_last()[i]).0 == k;
                assert(s.drop_last()[i] == s[i]);
                assert(s[i].0 == k);
            }
        }
        assert forall|k: Fingerprint|
            (exists|i: int| 0 <= i < s.len() && (#[trigger] s[i]).0 == k) implies map_of(
            s,
        ).contains_key(k) by {
            let i = choose|i: int| 0 <= i < s.len() && (#[trigger] s[i]).0 == k;
            if i < s.len() - 1 {
                assert(s.drop_last()[i].0 == k);
                assert(map_of(s.drop_last()).contains_key(k));
            }
        }
    }
}

/// With unique keys, every entry is found in the map with its own record.
pub proof fn lemma_map_of_values(s: Seq<(Fingerprint, ReviewRecord)>)
    requires
        keys_unique(s),
    ensures
        forall|i: int|
            0 <= i < s.len() ==> map_of(s).contains_key((#[trigger] s[i]).0) && map_of(s)[s[i].0]
                == s[i].1,
    decreases s.len(),
{
    if s.len() > 0 {
        assert(forall|i: int| 0 <= i < s.drop_last().len() ==> s.drop_last()[i] == s[i]);
        lemma_map_of_values(s.drop_last());
        assert forall|i: int| 0 <= i < s.len() implies map_of(s).contains_key(
            (#[trigger] s[i]).0,
        ) && map_of(s)[s[i].0] == s[i].1 by {
            if i < s.len() - 1 {
                assert(s[i].0 != s.last().0);
                assert(s.drop_last()[i] == s[i]);
            }
        }
    }
}

/// With unique keys, removing entry `i` removes exactly its key.
pub proof fn lemma_map_of_remove(s: Seq<(Fingerprint, ReviewRecord)>, i: int)
    requires
        keys_unique(s),
        0 <= i < s.len(),
    ensures
        map_of(s.remove(i)) =~= map_of(s).remove(s[i].0),
    decreases s.len(),
{
    lemma_map_of_membership(s.drop_last());
    if i == s.len() - 1 {
        assert(s.remove(i) =~= s.drop_last());
        assert(!map_of(s.drop_last()).contains_key(s.last().0));
        assert(map_of(s.drop_last()) =~= map_of(s.drop_last()).insert(
            s.last().0,
            s.last().1,
        ).remove(s.last().0));
    } else {
        let t = s.remove(i);
        let dl = s.drop_last();
        assert(forall|j: int| 0 <= j < dl.len() ==> dl[j] == s[j]);
        assert(t.drop_last() =~= dl.remove(i));
        assert(t.last() == s.last());
        lemma_map_of_remove(dl, i);
        assert(map_of(t) == map_of(dl.remove(i)).insert(s.last().0, s.last().1));
        assert(s[i].0 != s.last().0);
        assert(map_of(dl).remove(s[i].0).insert(s.last().0, s.last().1) =~= map_of(dl).insert(
            s.last().0,
            s.last().1,
        ).remove(s[i].0));
    }
}

/// The durable review-state store.
#[derive(Clone)]
pub struct Store {
    entries: Vec<(Fingerprint, ReviewRecord)>,
}

impl Store {
    /// The store seen as a map from fingerprint to record.
    pub closed spec fn view(&self) -> Map<Fingerprint, ReviewRecord> {
        map_of(self.entries@)
    }

    /// Internal invariant: keys are unique.
    pub closed spec fn wf(&self) -> bool {
        keys_unique(self.entries@)
    }

    /// Every record in the store is well formed under `p`.
    pub open spec fn all_wf(&self, p: SchedulerParams) -> bool {
        forall|k: Fingerprint|
            self@.contains_key(k) ==> (#[trigger] self@[k]).wf(p)
    }

    /// An empty store.
    pub fn new() -> (s: Store)
        ensures
            s.wf(),
            s@ == Map::<Fingerprint, ReviewRecord>::empty(),
    {
        Store { entries: Vec::new() }
    }

    /// The position of `fp`'s entry, if present.
    fn find(&self, fp: &Fingerprint) -> (r: Option<usize>)
        ensures
            match r {
                Some(i) => i < self.entries@.len() && self.entries@[i as int].0 == *fp,
                None => forall|i: int|
                    0 <= i < self.entries@.len() ==> (#[trigger] self.entries@[i]).0 != *fp,
            },
    {
        let mut i: usize = 0;
        while i < self.entries.len()
            invariant
                i <= self.entries@.len(),
                forall|j: int| 0 <= j < i ==> (#[trigger] self.entries@[j]).0 != *fp,
            decreases self.entries@.len() - i,
        {
            if self.entries[i].0 == *fp {
                return Some(i);
            }
            i += 1;
        }
        None
    }

    /// Reads the record stored under `fp`, if any.
    pub fn get(&self, fp: &Fingerprint) -> (r: Option<ReviewRecord>)
        requires
            self.wf(),
        ensures
            r == if self@.contains_key(*fp) {
                Some(self@[*fp])
            } else {
                None::<ReviewRecord>
            },
    {
        proof {
            lemma_map_of_membership(self.entries@);
            lemma_map_of_values(self.entries@);
        }
        match self.find(fp) {
            Some(i) => Some(self.entries[i].1),
            None => None,
        }
    }

    /// Atomic upsert: stores `rec` under `fp`, replacing any previous record.
    pub fn put(&mut self, fp: Fingerprint, rec: ReviewRecord)
        requires
            old(self).wf(),
        ensures
            final(self).wf(),
            final(self)@ == old(self)@.insert(fp, rec),
    {
        proof {
            lemma_map_of_membership(self.entries@);
            lemma_map_of_values(self.entries@);
        }
        let ghost s0 = self.entries@;
        match self.find(&fp) {
            Some(i) => {
                self.entries.remove(i);
                proof {
                    lemma_map_of_remove(s0, i as int);
                    assert(forall|a: int, b: int|
                        0 <= a < b < self.entries@.len() ==> self.entries@[a] == s0.remove(i as int)[a]
                            && self.entries@[b] == s0.remove(i as int)[b]);
                }
                let ghost s1 = self.entries@;
                self.entries.push((fp, rec));
                proof {
                    assert(self.entries@.drop_last() =~= s1);
                    assert(map_of(self.entries@) == map_of(s1).insert(fp, rec));
                    assert(map_of(self.entries@) =~= map_of(s0).insert(fp, rec));
                    lemma_map_of_membership(s1);
                    assert forall|a: int, b: int|
                        0 <= a < b < self.entries@.len() implies (#[trigger] self.entries@[a]).0 != (
                    #[trigger] self.entries@[b]).0 by {
                        if b == self.entries@.len() - 1 {
                            assert(s1[a].0 != fp);
                        }
                    }
                }
            },
            None => {
                self.entries.push((fp, rec));
                proof {
                    assert(self.entries@.drop_last() =~= s0);
                    assert(map_of(self.entries@) == map_of(s0).insert(fp, rec));
                    assert forall|a: int, b: int|
                        0 <= a < b < self.entries@.len() implies (#[trigger] self.entries@[a]).0 != (
                    #[trigger] self.entries@[b]).0 by {
                        if b == self.entries@.len() - 1 {
                            assert(s0[a].0 != fp);
                        }
                    }
                }
            },
        }
    }

    /// Deletes the record under `fp`, if any; used for orphan removal.
    pub fn delete(&mut self, fp: &Fingerprint)
        requires
            old(self).wf(),
        ensures
            final(self).wf(),
            final(self)@ == old(self)@.remove(*fp),
    {
        proof {
            lemma_map_of_membership(self.entries@);
        }
        let ghost s0 = self.entries@;
        match self.find(fp) {
            Some(i) => {
                self.entries.remove(i);
                proof {
                    lemma_map_of_remove(s0, i as int);
                    assert(forall|a: int|
                        0 <= a < self.entries@.len() ==> self.entries@[a] == s0.remove(i as int)[a]);
                }
            },
            None => {
                proof {
                    assert(!map_of(s0).contains_key(*fp));
                    assert(map_of(s0) =~= map_of(s0).remove(*fp));
                }
            },
        }
    }

    /// A restartable snapshot of all rows: every listed pair is in the map,
    /// and every key of the map is listed exactly where its record is.
    pub fn rows(&self) -> (r: &Vec<(Fingerprint, ReviewRecord)>)
        requires
            self.wf(),
        ensures
            keys_unique(r@),
            forall|i: int|
                0 <= i < r@.len() ==> self@.contains_key((#[trigger] r@[i]).0) && self@[r@[i].0]
                    == r@[i].1,
            forall|k: Fingerprint|
                self@.contains_key(k) ==> exists|i: int| 0 <= i < r@.len() && (#[trigger] r@[i]).0 == k,
    {
        proof {
            lemma_map_of_membership(self.entries@);
            lemma_map_of_values(self.entries@);
        }
        &self.entries
    }

    /// The store's rows as a sequence.
    pub closed spec fn rows_view(&self) -> Seq<(Fingerprint, ReviewRecord)> {
        self.entries@
    }

    /// Serializes the whole store for its single on-disk file: the schema
    /// header, then the rows; the bytes parse back to exactly the store's
    /// rows.
    pub fn to_bytes(&self) -> (out: Vec<u8>)
        requires
            self.wf(),
        ensures
            out@ == spec_store_header() + spec_rows_bytes(self.rows_view()),
            spec_parse_store(out@) == Some(self.rows_view()),
            map_of(self.rows_view()) == self@,
    {
        let mut out: Vec<u8> = Vec::new();
        out.push(104);
        out.push(99);
        out.push(100);
        out.push(98);
        out.push(1);
        out.push(0);
        out.push(0);
        out.push(0);
        proof {
            assert(out@ =~= spec_store_header() + spec_rows_bytes(self.entries@.take(0)));
        }
        let mut i: usize = 0;
        while i < self.entries.len()
            invariant
                i <= self.entries@.len(),
                out@ == spec_store_header() + spec_rows_bytes(self.entries@.take(i as int)),
            decreases self.entries@.len() - i,
        {
            let (fp, rec) = self.entries[i];
            let mut b = u128_to_le_bytes(fp.hi);
            out.append(&mut b);
            let mut b = u128_to_le_bytes(fp.lo);
            out.append(&mut b);
            let mut b = encode_record(&rec);
            out.append(&mut b);
            proof {
                lemma_auto_spec_u128_to_from_le_bytes();
                assert(self.entries@.take(i as int + 1) =~= self.entries@.take(i as int).push(
                    self.entries@[i as int],
                ));
                lemma_rows_bytes_push(self.entries@.take(i as int), fp, rec);
                assert(out@ =~= spec_store_header() + (spec_rows_bytes(
                    self.entries@.take(i as int),
                ) + spec_row_bytes(fp, rec)));
            }
            i += 1;
        }
        proof {
            assert(self.entries@.take(self.entries@.len() as int) =~= self.entries@);
            lemma_store_file_round_trip(self.entries@);
            assert(out@.subrange(0, STORE_HEADER_BYTES as int) =~= spec_store_header());
            assert(out@.skip(STORE_HEADER_BYTES as int) =~= spec_rows_bytes(self.entries@));
        }
        out
    }

    /// Reads a store back from its file's bytes, rejecting a file without
    /// the expected schema header, a truncated file, or a malformed
    /// record.
    pub fn from_bytes(bytes: &[u8]) -> (r: Option<Store>)
        ensures
            r is Some <==> spec_parse_store(bytes@) is Some,
            r is Some ==> r->Some_0.wf() && r->Some_0@ == map_of(spec_parse_store(bytes@)->Some_0),
    {
        let n: usize = bytes.len();
        if !store_header_ok(bytes) {
            return None;
        }
        let mut store = Store::new();
        let ghost mut acc: Seq<(Fingerprint, ReviewRecord)> = Seq::empty();
        let mut o: usize = STORE_HEADER_BYTES;
        proof {
            assert(spec_parse_store(bytes@) == spec_parse_rows(bytes@.skip(o as int)));
        }
        while n - o >= ROW_BYTES
            invariant
                STORE_HEADER_BYTES <= o <= n,
                n == bytes@.len(),
                store.wf(),
                store@ == map_of(acc),
                (match spec_parse_rows(bytes@.skip(o as int)) {
                    Some(rest) => spec_parse_store(bytes@) == Some(acc + rest),
                    None => spec_parse_store(bytes@) is None,
                }),
            decreases n - o,
        {
            proof {
                lemma_auto_spec_u128_to_from_le_bytes();
                assert(bytes@.skip(o as int).subrange(0, 16) =~= bytes@.subrange(
                    o as int,
                    o as int + 16,
                ));
                assert(bytes@.skip(o as int).subrange(16, 32) =~= bytes@.subrange(
                    o as int + 16,
                    o as int + 32,
                ));
                assert(bytes@.skip(o as int).subrange(32, ROW_BYTES as int) =~= bytes@.subrange(
                    o as int + 32,
                    o as int + ROW_BYTES,
                ));
            }
            let hi = u128_from_le_bytes(slice_subrange(bytes, o, o + 16));
            let lo = u128_from_le_bytes(slice_subrange(bytes, o + 16, o + 32));
            let rec = match decode_record(slice_subrange(bytes, o + 32, o + ROW_BYTES)) {
                Some(rec) => rec,
                None => {
                    return None;
                },
            };
            let fp = Fingerprint { hi, lo };
            store.put(fp, rec);
            proof {
                let tail = bytes@.skip(o as int).skip(ROW_BYTES as int);
                assert(tail =~= bytes@.skip(o as int + ROW_BYTES));
                assert(spec_parse_rows(bytes@.skip(o as int)) == (match spec_parse_rows(tail) {
                    Some(rest) => Some(seq![(fp, rec)] + rest),
                    None => None::<Seq<(Fingerprint, ReviewRecord)>>,
                }));
                if spec_parse_rows(tail) is Some {
                    assert((acc + (seq![(fp, rec)] + spec_parse_rows(tail)->Some_0)) =~= (acc.push(
                        (fp, rec),
                    ) + spec_parse_rows(tail)->Some_0));
                }
                assert(acc.push((fp, rec)).drop_last() =~= acc);
                assert(map_of(acc.push((fp, rec))) == map_of(acc).insert(fp, rec));
                acc = acc.push((fp, rec));
            }
            o += ROW_BYTES;
        }
        if o == n {
            proof {
                assert(bytes@.skip(o as int).len() == 0);
                assert(spec_parse_store(bytes@) == Some(acc + Seq::<(
                    Fingerprint,
                    ReviewRecord,
                )>::empty()));
                assert(acc + Seq::<(Fingerprint, ReviewRecord)>::empty() =~= acc);
            }
            Some(store)
        } else {
            proof {
                assert(0 < bytes@.skip(o as int).len() < ROW_BYTES);
            }
            None
        }
    }
}

/// Whether a file's bytes begin with the store's schema header; a caller
/// can tell an incompatible schema from a corrupt file with this.
pub fn store_header_ok(bytes: &[u8]) -> (r: bool)
    ensures
        r == (bytes@.len() >= STORE_HEADER_BYTES && bytes@.subrange(0, STORE_HEADER_BYTES as int)
            == spec_store_header()),
{
    if bytes.len() < STORE_HEADER_BYTES {
        return false;
    }
    let ok: bool = *vstd::slice::slice_index_get(bytes, 0) == 104
        && *vstd::slice::slice_index_get(bytes, 1) == 99
        && *vstd::slice::slice_index_get(bytes, 2) == 100
        && *vstd::slice::slice_index_get(bytes, 3) == 98
        && *vstd::slice::slice_index_get(bytes, 4) == 1
        && *vstd::slice::slice_index_get(bytes, 5) == 0
        && *vstd::slice::slice_index_get(bytes, 6) == 0
        && *vstd::slice::slice_index_get(bytes, 7) == 0;
    proof {
        let pre = bytes@.subrange(0, STORE_HEADER_BYTES as int);
        if ok {
            assert(pre =~= spec_store_header());
        } else {
            assert(pre != spec_store_header()) by {
                assert(forall|t: int|
                    0 <= t < STORE_HEADER_BYTES ==> #[trigger] pre[t] == bytes@[t]);
            }
        }
    }
    ok
}


/// Length in bytes of one row of the store's file: a fingerprint's two
/// words, then the encoded record.
pub const ROW_BYTES: usize = 82;

/// Length in bytes of the store file's header.
pub const STORE_HEADER_BYTES: usize = 8;

/// The store file's header: the magic bytes `hcdb` and the schema version
/// (1) as a little-endian word. A file with any other header is refused.
pub open spec fn spec_store_header() -> Seq<u8> {
    seq![104u8, 99u8, 100u8, 98u8, 1u8, 0u8, 0u8, 0u8]
}

/// The rows of a whole store file: the header followed by the rows.
pub open spec fn spec_parse_store(b: Seq<u8>) -> Option<Seq<(Fingerprint, ReviewRecord)>> {
    if b.len() >= STORE_HEADER_BYTES && b.subrange(0, STORE_HEADER_BYTES as int)
        == spec_store_header() {
        spec_parse_rows(b.skip(STORE_HEADER_BYTES as int))
    } else {
        None
    }
}

/// The bytes of one row.
pub open spec fn spec_row_bytes(fp: Fingerprint, rec: ReviewRecord) -> Seq<u8> {
    spec_u128_to_le_bytes(fp.hi) + spec_u128_to_le_bytes(fp.lo) + spec_encode(rec)
}

/// The bytes of a sequence of rows, in order.
pub open spec fn spec_rows_bytes(rows: Seq<(Fingerprint, ReviewRecord)>) -> Seq<u8>
    decreases rows.len(),
{
    if rows.len() == 0 {
        Seq::empty()
    } else {
        spec_row_bytes(rows.first().0, rows.first().1) + spec_rows_bytes(rows.drop_first())
    }
}

/// Appending a row appends its bytes.
proof fn lemma_rows_bytes_push(rows: Seq<(Fingerprint, ReviewRecord)>, fp: Fingerprint, rec: ReviewRecord)
    ensures
        spec_rows_bytes(rows.push((fp, rec))) == spec_rows_bytes(rows) + spec_row_bytes(fp, rec),
    decreases rows.len(),
{
    reveal_with_fuel(spec_rows_bytes, 3);
    let p = (fp, rec);
    if rows.len() == 0 {
        assert(rows.push(p).drop_first() =~= Seq::<(Fingerprint, ReviewRecord)>::empty());
        assert(rows.push(p).first() == p);
        assert(spec_rows_bytes(rows.push(p).drop_first()) =~= Seq::<u8>::empty());
        assert(spec_rows_bytes(rows.push(p)) == spec_row_bytes(fp, rec) + Seq::<u8>::empty());
        assert(spec_row_bytes(fp, rec) + Seq::<u8>::empty() =~= spec_row_bytes(fp, rec));
        assert(spec_rows_bytes(rows) =~= Seq::<u8>::empty());
        assert(Seq::<u8>::empty() + spec_row_bytes(fp, rec) =~= spec_row_bytes(fp, rec));
    } else {
        lemma_rows_bytes_push(rows.drop_first(), fp, rec);
        assert(rows.push(p).drop_first() =~= rows.drop_first().push(p));
        assert(rows.push(p).first() == rows.first());
        let a = spec_row_bytes(rows.first().0, rows.first().1);
        let b = spec_rows_bytes(rows.drop_first());
        let c = spec_row_bytes(fp, rec);
        assert(spec_rows_bytes(rows.push(p)) == a + (b + c));
        assert(a + (b + c) =~= (a + b) + c);
    }
}

/// The rows a store file's bytes hold: `None` when the length is no
/// multiple of a row or a record is malformed.
pub open spec fn spec_parse_rows(b: Seq<u8>) -> Option<Seq<(Fingerprint, ReviewRecord)>>
    decreases b.len(),
{
    if b.len() == 0 {
        Some(Seq::empty())
    } else if b.len() < ROW_BYTES {
        None
    } else {
        match spec_decode(b.subrange(32, ROW_BYTES as int)) {
            None => None,
            Some(rec) => {
                let fp = Fingerprint {
                    hi: spec_u128_from_le_bytes(b.subrange(0, 16)),
                    lo: spec_u128_from_le_bytes(b.subrange(16, 32)),
                };
                match spec_parse_rows(b.skip(ROW_BYTES as int)) {
                    None => None,
                    Some(rest) => Some(seq![(fp, rec)] + rest),
                }
            },
        }
    }
}

/// Reading a store file back yields exactly the rows that were written.
pub proof fn lemma_store_file_round_trip(rows: Seq<(Fingerprint, ReviewRecord)>)
    ensures
        spec_parse_rows(spec_rows_bytes(rows)) == Some(rows),
    decreases rows.len(),
{
    lemma_auto_spec_u128_to_from_le_bytes();
    if rows.len() > 0 {
        let fp = rows.first().0;
        let rec = rows.first().1;
        let b = spec_rows_bytes(rows);
        crate::codec::lemma_codec_round_trip(rec);
        assert(spec_encode(rec).len() == RECORD_BYTES);
        assert(b.subrange(0, 16) =~= spec_u128_to_le_bytes(fp.hi));
        assert(b.subrange(16, 32) =~= spec_u128_to_le_bytes(fp.lo));
        assert(b.subrange(32, ROW_BYTES as int) =~= spec_encode(rec));
        assert(b.skip(ROW_BYTES as int) =~= spec_rows_bytes(rows.drop_first()));
        lemma_store_file_round_trip(rows.drop_first());
        assert(seq![(fp, rec)] + rows.drop_first() =~= rows);
    }
}

/// Whether a record is well formed under `p`; the executable twin of
/// `ReviewRecord::wf`.
pub fn record_is_wf(rec: &ReviewRecord, p: &SchedulerParams) -> (b: bool)
    requires
        p.wf(),
    ensures
        b == rec.wf(*p),
{
    let ease_ok = 1300 <= rec.ease && rec.ease <= 100000;
    let new_ok = match rec.state {
        CardState::New => rec.reps == 0 && rec.lapses == 0 && rec.interval == 0 && rec.step == 0,
        _ => true,
    };
    let learn_ok = match rec.state {
        CardState::Learning => (rec.step as usize) < p.learning_steps.len(),
        _ => true,
    };
    let review_ok = match rec.state {
        CardState::Review => rec.interval % DAY_SECONDS == 0 && DAY_SECONDS <= rec.interval
            && rec.interval <= p.max_interval,
        _ => true,
    };
    let relearn_ok = match rec.state {
        CardState::Relearning => 0 < rec.interval && rec.interval <= p.max_interval
            && rec.lapse_interval % DAY_SECONDS == 0 && DAY_SECONDS <= rec.lapse_interval
            && rec.lapse_interval <= p.max_interval && rec.step == 0,
        _ => rec.lapse_interval == 0,
    };
    ease_ok && new_ok && learn_ok && review_ok && relearn_ok
}

/// Whether every record in `s` is well formed under `p`.
pub fn store_is_wf(s: &Store, p: &SchedulerParams) -> (b: bool)
    requires
        s.wf(),
        p.wf(),
    ensures
        b == s.all_wf(*p),
{
    let rows = s.rows();
    let mut i: usize = 0;
    while i < rows.len()
        invariant
            s.wf(),
            p.wf(),
            i <= rows@.len(),
            keys_unique(rows@),
            forall|j: int|
                0 <= j < rows@.len() ==> s@.contains_key((#[trigger] rows@[j]).0) && s@[rows@[j].0]
                    == rows@[j].1,
            forall|k: Fingerprint|
                s@.contains_key(k) ==> exists|j: int|
                    0 <= j < rows@.len() && (#[trigger] rows@[j]).0 == k,
            forall|j: int| 0 <= j < i ==> (#[trigger] rows@[j]).1.wf(*p),
        decreases rows@.len() - i,
    {
        if !record_is_wf(&rows[i].1, p) {
            assert(s@.contains_key(rows@[i as int].0) && !s@[rows@[i as int].0].wf(*p));
            return false;
        }
        i += 1;
    }
    proof {
        assert forall|k: Fingerprint| s@.contains_key(k) implies (#[trigger] s@[k]).wf(*p) by {
            let j = choose|j: int| 0 <= j < rows@.len() && (#[trigger] rows@[j]).0 == k;
            assert(rows@[j].1.wf(*p));
        }
    }
    true
}

} // verus!
