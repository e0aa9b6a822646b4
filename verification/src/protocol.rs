//! Request decoding for the drill server's JSON API: grade names and
//! hexadecimal card fingerprints, as clients post them back.

use vstd::prelude::*;
use vstd::slice::slice_index_get;

use crate::types::{Fingerprint, Grade};

verus! {

/// The value of one lowercase hexadecimal digit, or -1.
pub open spec fn nib_val(c: u8) -> int {
    if 48 <= c <= 57 {
        c - 48
    } else if 97 <= c <= 102 {
        c - 87
    } else {
        -1
    }
}

/// Whether every byte is a lowercase hexadecimal digit.
pub open spec fn hex_ok(s: Seq<u8>) -> bool {
    forall|i: int| 0 <= i < s.len() ==> nib_val(#[trigger] s[i]) >= 0
}

/// The number a big-endian string of hexadecimal digits denotes.
pub open spec fn hex_val(s: Seq<u8>) -> int
    decreases s.len(),
{
    if s.len() == 0 {
        0
    } else {
        hex_val(s.drop_last()) * 16 + nib_val(s.last())
    }
}

/// Sixteen to the `k`.
pub open spec fn pow16(k: nat) -> int
    decreases k,
{
    if k == 0 {
        1
    } else {
        16 * pow16((k - 1) as nat)
    }
}

/// `pow16` grows with its exponent.
proof fn lemma_pow16_le(a: nat, b: nat)
    requires
        a <= b,
    ensures
        pow16(a) <= pow16(b),
        pow16(a) >= 1,
    decreases b,
{
    if b > 0 {
        if a == b {
            lemma_pow16_le((a - 1) as nat, (b - 1) as nat);
        } else {
            lemma_pow16_le(a, (b - 1) as nat);
        }
    }
}

/// Thirty-two hexadecimal digits cover exactly the `u128` range.
proof fn lemma_pow16_32()
    ensures
        pow16(32) == 0x100000000000000000000000000000000,
{
    reveal_with_fuel(pow16, 33);
}

/// Parses exactly 32 lowercase hexadecimal digits starting at `start`.
fn parse_hex_u128(s: &[u8], start: usize) -> (r: Option<u128>)
    requires
        start + 32 <= s@.len(),
    ensures
        r is Some <==> hex_ok(s@.subrange(start as int, start as int + 32)),
        r is Some ==> r->Some_0 as int == hex_val(s@.subrange(start as int, start as int + 32)),
{
    let n: usize = s.len();
    let mut acc: u128 = 0;
    let mut i: usize = 0;
    while i < 32
        invariant
            i <= 32,
            start + 32 <= n,
            n == s@.len(),
            hex_ok(s@.subrange(start as int, start as int + i as int)),
            acc as int == hex_val(s@.subrange(start as int, start as int + i as int)),
            (acc as int) < pow16(i as nat),
        decreases 32 - i,
    {
        let c: u8 = *slice_index_get(s, start + i);
        let d: u8 = if 48 <= c && c <= 57 {
            c - 48
        } else if 97 <= c && c <= 102 {
            c - 87
        } else {
            proof {
                assert(s@.subrange(start as int, start as int + 32)[i as int] == c);
            }
            return None;
        };
        proof {
            lemma_pow16_le(i as nat + 1, 32);
            lemma_pow16_32();
            assert(pow16(i as nat + 1) == 16 * pow16(i as nat));
        }
        acc = acc * 16 + (d as u128);
        proof {
            let pre = s@.subrange(start as int, start as int + i as int);
            let now = s@.subrange(start as int, start as int + i as int + 1);
            assert(now.drop_last() =~= pre);
            assert(now.last() == c);
            assert forall|j: int| 0 <= j < now.len() implies nib_val(#[trigger] now[j]) >= 0 by {
                if j < i as int {
                    assert(pre[j] == now[j]);
                }
            }
        }
        i += 1;
    }
    Some(acc)
}

/// Parses a fingerprint as the server prints it: 64 lowercase hexadecimal
/// digits, the high word first. Returns `None` exactly on input of the
/// wrong length or with a byte that is no lowercase hexadecimal digit.
pub fn parse_fingerprint_hex(s: &[u8]) -> (r: Option<Fingerprint>)
    ensures
        r is Some <==> (s@.len() == 64 && hex_ok(s@)),
        r is Some ==> r->Some_0.hi as int == hex_val(s@.subrange(0, 32))
            && r->Some_0.lo as int == hex_val(s@.subrange(32, 64)),
{
    if s.len() != 64 {
        return None;
    }
    let hi = parse_hex_u128(s, 0);
    let lo = parse_hex_u128(s, 32);
    proof {
        let a = s@.subrange(0, 32);
        let b = s@.subrange(32, 64);
        if hex_ok(a) && hex_ok(b) {
            assert forall|i: int| 0 <= i < s@.len() implies nib_val(#[trigger] s@[i]) >= 0 by {
                if i < 32 {
                    assert(a[i] == s@[i]);
                } else {
                    assert(b[i - 32] == s@[i]);
                }
            }
        }
        if !hex_ok(a) {
            let w = choose|w: int| 0 <= w < a.len() && nib_val(a[w]) < 0;
            assert(nib_val(s@[w]) < 0);
        }
        if !hex_ok(b) {
            let w = choose|w: int| 0 <= w < b.len() && nib_val(b[w]) < 0;
            assert(nib_val(s@[w + 32]) < 0);
        }
    }
    match (hi, lo) {
        (Some(h), Some(l)) => Some(Fingerprint { hi: h, lo: l }),
        _ => None,
    }
}

/// The grade a client's string names, if any.
pub open spec fn spec_parse_grade(s: Seq<char>) -> Option<Grade> {
    if s == "again"@ {
        Some(Grade::Again)
    } else if s == "hard"@ {
        Some(Grade::Hard)
    } else if s == "good"@ {
        Some(Grade::Good)
    } else if s == "easy"@ {
        Some(Grade::Easy)
    } else {
        None
    }
}

/// Parses a posted grade name; anything but the four known names is
/// rejected.
pub fn parse_grade(s: &String) -> (r: Option<Grade>)
    ensures
        r == spec_parse_grade(s@),
{
    if *s == "again".to_owned() {
        return Some(Grade::Again);
    }
    if *s == "hard".to_owned() {
        return Some(Grade::Hard);
    }
    if *s == "good".to_owned() {
        return Some(Grade::Good);
    }
    if *s == "easy".to_owned() {
        return Some(Grade::Easy);
    }
    None
}

} // verus!
