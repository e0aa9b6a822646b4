//! Byte codec for review records: a fixed 50-byte little-endian layout,
//! used by the review-state store's on-disk file. Decoding what encoding
//! produced gives back the identical record.

use vstd::bytes::{
    lemma_auto_spec_u32_to_from_le_bytes, lemma_auto_spec_u64_to_from_le_bytes,
    spec_u32_from_le_bytes, spec_u32_to_le_bytes, spec_u64_from_le_bytes, spec_u64_to_le_bytes,
    u32_from_le_bytes, u32_to_le_bytes, u64_from_le_bytes, u64_to_le_bytes,
};
use vstd::prelude::*;
use vstd::slice::slice_subrange;

use crate::types::{CardState, ReviewRecord};

verus! {

/// Length in bytes of one encoded review record.
pub const RECORD_BYTES: usize = 50;

/// The byte tag of a card state.
pub open spec fn spec_state_tag(s: CardState) -> u8 {
    match s {
        CardState::New => 0,
        CardState::Learning => 1,
        CardState::Review => 2,
        CardState::Relearning => 3,
    }
}

/// The card state of a byte tag, if the tag is known.
pub open spec fn spec_tag_state(t: u8) -> Option<CardState> {
    if t == 0 {
        Some(CardState::New)
    } else if t == 1 {
        Some(CardState::Learning)
    } else if t == 2 {
        Some(CardState::Review)
    } else if t == 3 {
        Some(CardState::Relearning)
    } else {
        None
    }
}

/// The encoded form of a record: state tag, then `due`, `interval`,
/// `lapse_interval` (8 bytes each), `ease`, `reps`, `lapses`, `step`
/// (4 bytes each), then a presence flag and the 8-byte `last_reviewed`
/// instant (zero when absent), all little-endian.
pub open spec fn spec_encode(rec: ReviewRecord) -> Seq<u8> {
    seq![spec_state_tag(rec.state)] + spec_u64_to_le_bytes(rec.due) + spec_u64_to_le_bytes(
        rec.interval,
    ) + spec_u64_to_le_bytes(rec.lapse_interval) + spec_u32_to_le_bytes(rec.ease)
        + spec_u32_to_le_bytes(rec.reps) + spec_u32_to_le_bytes(
        rec.lapses,
    ) + spec_u32_to_le_bytes(rec.step) + seq![
        (match rec.last_reviewed {
            Some(_) => 1u8,
            None => 0u8,
        }),
    ] + spec_u64_to_le_bytes(
        match rec.last_reviewed {
            Some(t) => t,
            None => 0,
        },
    )
}

/// The record encoded in `s`, or `None` when `s` is not a well-formed
/// encoding: wrong length, unknown state tag, or a presence flag that is
/// neither 0 nor 1.
pub open spec fn spec_decode(s: Seq<u8>) -> Option<ReviewRecord> {
    if s.len() != RECORD_BYTES {
        None
    } else if spec_tag_state(s[0]) is None {
        None
    } else if s[41] != 0 && s[41] != 1 {
        None
    } else {
        Some(
            ReviewRecord {
                state: spec_tag_state(s[0])->Some_0,
                due: spec_u64_from_le_bytes(s.subrange(1, 9)),
                interval: spec_u64_from_le_bytes(s.subrange(9, 17)),
                lapse_interval: spec_u64_from_le_bytes(s.subrange(17, 25)),
                ease: spec_u32_from_le_bytes(s.subrange(25, 29)),
                reps: spec_u32_from_le_bytes(s.subrange(29, 33)),
                lapses: spec_u32_from_le_bytes(s.subrange(33, 37)),
                step: spec_u32_from_le_bytes(s.subrange(37, 41)),
                last_reviewed: if s[41] == 1 {
                    Some(spec_u64_from_le_bytes(s.subrange(42, 50)))
                } else {
                    None
                },
            },
        )
    }
}

/// Encodes a record into its 50-byte form.
pub fn encode_record(rec: &ReviewRecord) -> (out: Vec<u8>)
    ensures
        out@ == spec_encode(*rec),
        out@.len() == RECORD_BYTES,
{
    proof {
        lemma_auto_spec_u64_to_from_le_bytes();
        lemma_auto_spec_u32_to_from_le_bytes();
    }
    let mut out: Vec<u8> = Vec::new();
    let tag: u8 = match rec.state {
        CardState::New => 0,
        CardState::Learning => 1,
        CardState::Review => 2,
        CardState::Relearning => 3,
    };
    out.push(tag);
    let mut b = u64_to_le_bytes(rec.due);
    out.append(&mut b);
    let mut b = u64_to_le_bytes(rec.interval);
    out.append(&mut b);
    let mut b = u64_to_le_bytes(rec.lapse_interval);
    out.append(&mut b);
    let mut b = u32_to_le_bytes(rec.ease);
    out.append(&mut b);
    let mut b = u32_to_le_bytes(rec.reps);
    out.append(&mut b);
    let mut b = u32_to_le_bytes(rec.lapses);
    out.append(&mut b);
    let mut b = u32_to_le_bytes(rec.step);
    out.append(&mut b);
    match rec.last_reviewed {
        Some(t) => {
            out.push(1);
            let mut b = u64_to_le_bytes(t);
            out.append(&mut b);
        },
        None => {
            out.push(0);
            let mut b = u64_to_le_bytes(0);
            out.append(&mut b);
        },
    }
    proof {
        assert(out@ =~= spec_encode(*rec));
    }
    out
}

/// Decodes a 50-byte record, rejecting malformed input.
pub fn decode_record(s: &[u8]) -> (r: Option<ReviewRecord>)
    ensures
        r == spec_decode(s@),
{
    proof {
        lemma_auto_spec_u64_to_from_le_bytes();
        lemma_auto_spec_u32_to_from_le_bytes();
    }
    if s.len() != RECORD_BYTES {
        return None;
    }
    let tag: u8 = *vstd::slice::slice_index_get(s, 0);
    let state: CardState = if tag == 0 {
        CardState::New
    } else if tag == 1 {
        CardState::Learning
    } else if tag == 2 {
        CardState::Review
    } else if tag == 3 {
        CardState::Relearning
    } else {
        return None;
    };
    let flag: u8 = *vstd::slice::slice_index_get(s, 41);
    if flag != 0 && flag != 1 {
        return None;
    }
    let due = u64_from_le_bytes(slice_subrange(s, 1, 9));
    let interval = u64_from_le_bytes(slice_subrange(s, 9, 17));
    let lapse_interval = u64_from_le_bytes(slice_subrange(s, 17, 25));
    let ease = u32_from_le_bytes(slice_subrange(s, 25, 29));
    let reps = u32_from_le_bytes(slice_subrange(s, 29, 33));
    let lapses = u32_from_le_bytes(slice_subrange(s, 33, 37));
    let step = u32_from_le_bytes(slice_subrange(s, 37, 41));
    let last_reviewed: Option<u64> = if flag == 1 {
        Some(u64_from_le_bytes(slice_subrange(s, 42, 50)))
    } else {
        None
    };
    Some(
        ReviewRecord {
            state,
            due,
            interval,
            lapse_interval,
            ease,
            reps,
            lapses,
            step,
            last_reviewed,
        },
    )
}

/// Writing then reading a record through the codec yields the identical
/// record: decoding is a left inverse of encoding.
pub proof fn lemma_codec_round_trip(rec: ReviewRecord)
    ensures
        spec_decode(spec_encode(rec)) == Some(rec),
{
    lemma_auto_spec_u64_to_from_le_bytes();
    lemma_auto_spec_u32_to_from_le_bytes();
    let s = spec_encode(rec);
    assert(s.len() == RECORD_BYTES);
    assert(s.subrange(1, 9) =~= spec_u64_to_le_bytes(rec.due));
    assert(s.subrange(9, 17) =~= spec_u64_to_le_bytes(rec.interval));
    assert(s.subrange(17, 25) =~= spec_u64_to_le_bytes(rec.lapse_interval));
    assert(s.subrange(25, 29) =~= spec_u32_to_le_bytes(rec.ease));
    assert(s.subrange(29, 33) =~= spec_u32_to_le_bytes(rec.reps));
    assert(s.subrange(33, 37) =~= spec_u32_to_le_bytes(rec.lapses));
    assert(s.subrange(37, 41) =~= spec_u32_to_le_bytes(rec.step));
    assert(s.subrange(42, 50) =~= spec_u64_to_le_bytes(
        match rec.last_reviewed {
            Some(t) => t,
            None => 0u64,
        },
    ));
}

} // verus!
