//! Feed ingestor: decodes the two quote-event payload shapes of the live
//! feed into the one internal update schema.
//!
//! A binary payload is four big-endian machine words: pool identity, the
//! two reserves, and the feed timestamp.  A textual payload is the same
//! four numbers in decimal, comma-separated.  A malformed payload decodes
//! to nothing — it is dropped, never propagated as a failure.

use vstd::prelude::*;
use crate::types::QuoteUpdate;
use crate::codec::{is_digit, spec_parse_dec};

verus! {

/// The value of one big-endian machine word.
pub open spec fn spec_be64(s: Seq<u8>) -> int {
    s[0] * 0x100000000000000 + s[1] * 0x1000000000000 + s[2] * 0x10000000000 + s[3] * 0x100000000
        + s[4] * 0x1000000 + s[5] * 0x10000 + s[6] * 0x100 + s[7]
}

/// Reads one big-endian machine word.
fn read_be64(b: &Vec<u8>, at: usize) -> (r: u64)
    requires
        at + 8 <= b@.len(),
    ensures
        r as int == spec_be64(b@.subrange(at as int, at as int + 8)),
{
    let n = b.len();
    assert(at + 8 <= n);
    let r128: u128 = (b[at] as u128) * 0x100000000000000 + (b[at + 1] as u128) * 0x1000000000000
        + (b[at + 2] as u128) * 0x10000000000 + (b[at + 3] as u128) * 0x100000000 + (b[at
        + 4] as u128) * 0x1000000 + (b[at + 5] as u128) * 0x10000 + (b[at + 6] as u128) * 0x100 + (
    b[at + 7] as u128);
    assert(r128 <= u64::MAX as u128);
    let r = r128 as u64;
    proof {
        let s = b@.subrange(at as int, at as int + 8);
        assert(s[0] == b@[at as int]);
        assert(s[1] == b@[at as int + 1]);
        assert(s[2] == b@[at as int + 2]);
        assert(s[3] == b@[at as int + 3]);
        assert(s[4] == b@[at as int + 4]);
        assert(s[5] == b@[at as int + 5]);
        assert(s[6] == b@[at as int + 6]);
        assert(s[7] == b@[at as int + 7]);
    }
    r
}

/// Decodes a binary quote payload: exactly 32 bytes, four big-endian
/// machine words.  Anything else is malformed and yields nothing.
pub fn decode_binary_payload(b: &Vec<u8>) -> (r: Option<QuoteUpdate>)
    ensures
        match r {
            Some(q) => {
                &&& b@.len() == 32
                &&& q.pool_id as int == spec_be64(b@.subrange(0, 8))
                &&& q.reserve_a as int == spec_be64(b@.subrange(8, 16))
                &&& q.reserve_b as int == spec_be64(b@.subrange(16, 24))
                &&& q.timestamp as int == spec_be64(b@.subrange(24, 32))
            },
            None => b@.len() != 32,
        },
{
    if b.len() != 32 {
        return None;
    }
    let pool_id = read_be64(b, 0);
    let reserve_a = read_be64(b, 8);
    let reserve_b = read_be64(b, 16);
    let timestamp = read_be64(b, 24);
    Some(QuoteUpdate { pool_id, reserve_a, reserve_b, timestamp })
}

/// A textual quote payload: four decimal numbers joined by commas, and
/// nothing else.
pub open spec fn spec_text_payload(s: Seq<u8>) -> Option<QuoteUpdate> {
    match spec_parse_dec(s, 0, 0xFFFF_FFFF_FFFF_FFFFint) {
        None => None,
        Some((id, p1)) => if p1 < s.len() && s[p1] == 44 {
            match spec_parse_dec(s, p1 + 1, 0xFFFF_FFFF_FFFF_FFFFint) {
                None => None,
                Some((ra, p2)) => if p2 < s.len() && s[p2] == 44 {
                    match spec_parse_dec(s, p2 + 1, 0xFFFF_FFFF_FFFF_FFFFint) {
                        None => None,
                        Some((rb, p3)) => if p3 < s.len() && s[p3] == 44 {
                            match spec_parse_dec(s, p3 + 1, 0xFFFF_FFFF_FFFF_FFFFint) {
                                None => None,
                                Some((ts, p4)) => if p4 == s.len() {
                                    Some(
                                        QuoteUpdate {
                                            pool_id: id as u64,
                                            reserve_a: ra as u64,
                                            reserve_b: rb as u64,
                                            timestamp: ts as u64,
                                        },
                                    )
                                } else {
                                    None
                                },
                            }
                        } else {
                            None
                        },
                    }
                } else {
                    None
                },
            }
        } else {
            None
        },
    }
}

/// Decodes a textual quote payload, exactly as the specification says.
pub fn decode_text_payload(b: &Vec<u8>) -> (r: Option<QuoteUpdate>)
    ensures
        r == spec_text_payload(b@),
{
    match crate::codec::parse_u64_at(b, 0) {
        None => None,
        Some((id, p1)) => {
            if !(p1 < b.len() && b[p1] == 44) {
                return None;
            }
            match crate::codec::parse_u64_at(b, p1 + 1) {
                None => None,
                Some((ra, p2)) => {
                    if !(p2 < b.len() && b[p2] == 44) {
                        return None;
                    }
                    match crate::codec::parse_u64_at(b, p2 + 1) {
                        None => None,
                        Some((rb, p3)) => {
                            if !(p3 < b.len() && b[p3] == 44) {
                                return None;
                            }
                            match crate::codec::parse_u64_at(b, p3 + 1) {
                                None => None,
                                Some((ts, p4)) => {
                                    if p4 == b.len() {
                                        Some(
                                            QuoteUpdate {
                                                pool_id: id,
                                                reserve_a: ra,
                                                reserve_b: rb,
                                                timestamp: ts,
                                            },
                                        )
                                    } else {
                                        None
                                    }
                                },
                            }
                        },
                    }
                },
            }
        },
    }
}

} // verus!
