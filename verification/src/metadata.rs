//! Trailing CBOR metadata detection.
//!
//! Deployed bytecode often ends in a CBOR-encoded metadata blob followed by
//! a big-endian `u16` giving the blob's length. The decoder must not count
//! that region as instructions, so `trim_metadata` checks the candidate region
//! for structural CBOR validity (definite-length items only) and truncates
//! it off when the check succeeds.

use vstd::prelude::*;

verus! {

/// Big-endian value of a byte sequence.
pub open spec fn spec_be_val(s: Seq<u8>) -> nat
    decreases s.len(),
{
    if s.len() == 0 {
        0
    } else {
        spec_be_val(s.drop_last()) * 256 + (s.last() as nat)
    }
}

/// 256 to the n-th power; bounds `spec_be_val`.
pub open spec fn spec_pow256(n: nat) -> nat
    decreases n,
{
    if n == 0 {
        1
    } else {
        256 * spec_pow256((n - 1) as nat)
    }
}

/// Bytes taken by a CBOR header's argument, by additional-information
/// value: 0..=23 inline, 24..=27 one to eight extra bytes, 28..=31
/// (reserved / indefinite length) rejected.
pub open spec fn spec_header_extra(ai: u8) -> Option<nat> {
    if ai < 24 {
        Some(0nat)
    } else if ai == 24 {
        Some(1nat)
    } else if ai == 25 {
        Some(2nat)
    } else if ai == 26 {
        Some(4nat)
    } else if ai == 27 {
        Some(8nat)
    } else {
        None
    }
}

/// Byte size of the single CBOR data item at the front of `s`, or `None`
/// if no structurally valid definite-length item starts there.
pub open spec fn spec_item_size(s: Seq<u8>) -> Option<nat>
    decreases s.len(), 0int, 0int,
{
    if s.len() == 0 {
        None
    } else {
        let major = s[0] / 32;
        let ai = s[0] % 32;
        match spec_header_extra(ai) {
            None => None,
            Some(extra) => {
                let hdr: nat = 1 + extra;
                if s.len() < hdr {
                    None
                } else {
                    let arg: nat = if ai < 24 {
                        ai as nat
                    } else {
                        spec_be_val(s.subrange(1, hdr as int))
                    };
                    if major == 0 || major == 1 || major == 7 {
                        Some(hdr)
                    } else if major == 2 || major == 3 {
                        if hdr + arg <= s.len() {
                            Some(hdr + arg)
                        } else {
                            None
                        }
                    } else {
                        let count: nat = if major == 4 {
                            arg
                        } else if major == 5 {
                            2 * arg
                        } else {
                            1
                        };
                        match spec_items_size(s.skip(hdr as int), count) {
                            None => None,
                            Some(m) => Some(hdr + m),
                        }
                    }
                }
            },
        }
    }
}

/// Byte size of `count` consecutive CBOR data items at the front of `s`.
pub open spec fn spec_items_size(s: Seq<u8>, count: nat) -> Option<nat>
    decreases s.len(), 1int, count,
{
    if count == 0 {
        Some(0)
    } else {
        match spec_item_size(s) {
            None => None,
            Some(n) => {
                if 1 <= n && n <= s.len() {
                    match spec_items_size(s.skip(n as int), (count - 1) as nat) {
                        None => None,
                        Some(m) => Some(n + m),
                    }
                } else {
                    None
                }
            },
        }
    }
}

/// Whether `s` is exactly a sequence of structurally valid CBOR items.
pub open spec fn spec_cbor_items_valid(s: Seq<u8>) -> bool
    decreases s.len(),
{
    if s.len() == 0 {
        true
    } else {
        match spec_item_size(s) {
            None => false,
            Some(n) => {
                if 1 <= n && n <= s.len() {
                    spec_cbor_items_valid(s.skip(n as int))
                } else {
                    false
                }
            },
        }
    }
}

/// One item occupies at least one byte and never runs past the input.
proof fn lemma_item_size_bounds(s: Seq<u8>)
    ensures
        match spec_item_size(s) {
            Some(n) => 1 <= n && n <= s.len(),
            None => true,
        },
    decreases s.len(), 0int, 0int,
{
    if s.len() != 0 {
        let ai = s[0] % 32;
        match spec_header_extra(ai) {
            None => {},
            Some(extra) => {
                let hdr: nat = 1 + extra;
                if s.len() >= hdr {
                    let major = s[0] / 32;
                    if major == 4 || major == 5 || major == 6 {
                        let arg: nat = if ai < 24 {
                            ai as nat
                        } else {
                            spec_be_val(s.subrange(1, hdr as int))
                        };
                        let count: nat = if major == 4 {
                            arg
                        } else if major == 5 {
                            2 * arg
                        } else {
                            1
                        };
                        lemma_items_size_bounds(s.skip(hdr as int), count);
                    }
                }
            },
        }
    }
}

/// `count` items occupy at least `count` bytes and never run past the input.
proof fn lemma_items_size_bounds(s: Seq<u8>, count: nat)
    ensures
        match spec_items_size(s, count) {
            Some(n) => count <= n && n <= s.len(),
            None => true,
        },
    decreases s.len(), 1int, count,
{
    if count != 0 {
        lemma_item_size_bounds(s);
        match spec_item_size(s) {
            None => {},
            Some(n) => {
                if 1 <= n && n <= s.len() {
                    lemma_items_size_bounds(s.skip(n as int), (count - 1) as nat);
                }
            },
        }
    }
}

proof fn lemma_pow256_monotone(a: nat, b: nat)
    requires
        a <= b,
    ensures
        spec_pow256(a) <= spec_pow256(b),
    decreases b,
{
    if a < b && b > 0 {
        lemma_pow256_monotone(a, (b - 1) as nat);
        assert(spec_pow256((b - 1) as nat) >= 1) by {
            lemma_pow256_positive((b - 1) as nat);
        }
    }
}

proof fn lemma_pow256_positive(n: nat)
    ensures
        spec_pow256(n) >= 1,
    decreases n,
{
    if n > 0 {
        lemma_pow256_positive((n - 1) as nat);
    }
}

proof fn lemma_pow256_8_value()
    ensures
        spec_pow256(7) == 0x100_0000_0000_0000,
        spec_pow256(8) == 0x1_0000_0000_0000_0000,
{
    assert(spec_pow256(0) == 1);
    assert(spec_pow256(1) == 256);
    assert(spec_pow256(2) == 0x1_0000);
    assert(spec_pow256(3) == 0x100_0000);
    assert(spec_pow256(4) == 0x1_0000_0000);
    assert(spec_pow256(5) == 0x100_0000_0000);
    assert(spec_pow256(6) == 0x1_0000_0000_0000);
    assert(spec_pow256(7) == 0x100_0000_0000_0000);
    assert(spec_pow256(8) == 0x1_0000_0000_0000_0000);
}

/// A big-endian value is bounded by 256^len.
proof fn lemma_be_val_bound(s: Seq<u8>)
    ensures
        spec_be_val(s) < spec_pow256(s.len()),
    decreases s.len(),
{
    if s.len() > 0 {
        lemma_be_val_bound(s.drop_last());
    }
}

/// Big-endian read of `len <= 8` bytes starting at `start`.
fn read_be(v: &Vec<u8>, start: usize, len: usize) -> (r: u64)
    requires
        start + len <= v@.len(),
        len <= 8,
    ensures
        r == spec_be_val(v@.subrange(start as int, (start + len) as int)),
{
    let mut r: u64 = 0;
    let mut i: usize = 0;
    proof {
        assert(v@.subrange(start as int, start as int) =~= Seq::<u8>::empty());
    }
    while i < len
        invariant
            i <= len,
            len <= 8,
            start + len <= v.len(),
            r == spec_be_val(v@.subrange(start as int, (start + i) as int)),
            r < spec_pow256(i as nat),
        decreases len - i,
    {
        proof {
            lemma_pow256_monotone(i as nat, 7nat);
            lemma_pow256_8_value();
        }
        let b = v[start + i];
        r = r * 256 + (b as u64);
        proof {
            let sub_next = v@.subrange(start as int, (start + i + 1) as int);
            assert(sub_next.drop_last() =~= v@.subrange(start as int, (start + i) as int));
            assert(sub_next.last() == b);
            lemma_be_val_bound(sub_next);
            lemma_pow256_monotone((i + 1) as nat, 8nat);
        }
        i = i + 1;
    }
    r
}

/// Byte size of the CBOR item starting at `pos`, as the position just past
/// it; `None` if no structurally valid item starts there.
fn cbor_item_size(v: &Vec<u8>, pos: usize) -> (r: Option<usize>)
    requires
        pos <= v.len(),
    ensures
        match r {
            Some(np) => pos < np && np <= v.len() && spec_item_size(v@.skip(pos as int))
                == Some((np - pos) as nat),
            None => spec_item_size(v@.skip(pos as int)) is None,
        },
    decreases v.len() - pos, 0int, 0int,
{
    let ghost s = v@.skip(pos as int);
    if pos == v.len() {
        proof {
            assert(s =~= Seq::<u8>::empty());
        }
        return None;
    }
    let b = v[pos];
    proof {
        assert(s[0] == b);
    }
    let major = b / 32;
    let ai = b % 32;
    let extra: usize = if ai < 24 {
        0
    } else if ai == 24 {
        1
    } else if ai == 25 {
        2
    } else if ai == 26 {
        4
    } else if ai == 27 {
        8
    } else {
        return None;
    };
    let hdr: usize = 1 + extra;
    let rem: usize = v.len() - pos;
    if rem < hdr {
        return None;
    }
    let arg: u64 = if ai < 24 {
        ai as u64
    } else {
        read_be(v, pos + 1, extra)
    };
    proof {
        assert(s.subrange(1, hdr as int) =~= v@.subrange(
            (pos + 1) as int,
            (pos + hdr) as int,
        ));
        assert(s.len() == rem);
    }
    if major == 0 || major == 1 || major == 7 {
        Some(pos + hdr)
    } else if major == 2 || major == 3 {
        let rem2: usize = rem - hdr;
        if (rem2 as u64) < arg {
            None
        } else {
            Some(pos + hdr + (arg as usize))
        }
    } else {
        let ghost s_body = s.skip(hdr as int);
        proof {
            assert(s_body =~= v@.skip((pos + hdr) as int));
        }
        let rem2: usize = rem - hdr;
        let count: u64 = if major == 4 {
            arg
        } else if major == 5 {
            if arg > (rem2 as u64) || arg > u64::MAX / 2 {
                proof {
                    lemma_items_size_bounds(s_body, (2 * arg) as nat);
                }
                return None;
            }
            2 * arg
        } else {
            1
        };
        match cbor_items_size(v, pos + hdr, count) {
            None => None,
            Some(np) => Some(np),
        }
    }
}

/// Position just past `count` consecutive CBOR items starting at `pos`.
fn cbor_items_size(v: &Vec<u8>, pos: usize, count: u64) -> (r: Option<usize>)
    requires
        pos <= v.len(),
    ensures
        match r {
            Some(np) => pos <= np && np <= v.len() && spec_items_size(
                v@.skip(pos as int),
                count as nat,
            ) == Some((np - pos) as nat),
            None => spec_items_size(v@.skip(pos as int), count as nat) is None,
        },
    decreases v.len() - pos, 1int, count,
{
    if count == 0 {
        return Some(pos);
    }
    match cbor_item_size(v, pos) {
        None => None,
        Some(np) => {
            proof {
                assert(v@.skip(pos as int).skip((np - pos) as int) =~= v@.skip(np as int));
            }
            match cbor_items_size(v, np, count - 1) {
                None => None,
                Some(fin) => Some(fin),
            }
        },
    }
}

/// Whether `region` is exactly a sequence of structurally valid CBOR items.
fn cbor_region_valid(region: &Vec<u8>) -> (r: bool)
    ensures
        r == spec_cbor_items_valid(region@),
{
    let mut pos: usize = 0;
    proof {
        assert(region@.skip(0) =~= region@);
    }
    while pos < region.len()
        invariant
            pos <= region.len(),
            spec_cbor_items_valid(region@) == spec_cbor_items_valid(region@.skip(pos as int)),
        decreases region.len() - pos,
    {
        match cbor_item_size(region, pos) {
            None => {
                return false;
            },
            Some(np) => {
                proof {
                    assert(region@.skip(pos as int).skip((np - pos) as int) =~= region@.skip(
                        np as int,
                    ));
                }
                pos = np;
            },
        }
    }
    proof {
        assert(region@.skip(pos as int) =~= Seq::<u8>::empty());
    }
    true
}

/// Big-endian `u16` from two bytes.
pub open spec fn spec_be_u16(hi: u8, lo: u8) -> nat {
    (hi as nat) * 256 + (lo as nat)
}

/// What trimming does: when the input is longer than two bytes, its last
/// two bytes read as a big-endian length that fits, and the region of that
/// length just before them parses as CBOR items, the region and the two
/// length bytes are cut off; otherwise the input is left unchanged.
pub open spec fn spec_trim(s: Seq<u8>) -> Seq<u8> {
    if s.len() > 2 {
        let clen = spec_be_u16(s[s.len() - 2], s[s.len() - 1]) as int;
        if s.len() - 2 >= clen && spec_cbor_items_valid(
            s.subrange(s.len() - 2 - clen, s.len() - 2),
        ) {
            s.subrange(0, s.len() - 2 - clen)
        } else {
            s
        }
    } else {
        s
    }
}

/// The two-byte big-endian encoding of a length below 2^16.
pub open spec fn spec_len_tail(n: nat) -> Seq<u8> {
    seq![(n / 256) as u8, (n % 256) as u8]
}

/// Law: appending a structurally valid CBOR payload and its big-endian
/// length to some bytecode, trimming gives the bytecode back. (The one
/// input left out: both parts empty, where the whole is only the two
/// length bytes and the length-three guard already declines to trim.)
pub proof fn lemma_trim_metadata_round_trip(code: Seq<u8>, payload: Seq<u8>)
    requires
        spec_cbor_items_valid(payload),
        payload.len() < 0x10000,
        code.len() + payload.len() >= 1,
    ensures
        spec_trim(code + payload + spec_len_tail(payload.len())) == code,
{
    let s = code + payload + spec_len_tail(payload.len());
    let plen = payload.len();
    assert(s.len() == code.len() + plen + 2);
    assert(s[s.len() - 2] == (plen / 256) as u8);
    assert(s[s.len() - 1] == (plen % 256) as u8);
    assert(spec_be_u16((plen / 256) as u8, (plen % 256) as u8) == plen);
    assert(s.subrange(s.len() - 2 - plen, s.len() - 2) =~= payload);
    assert(s.subrange(0, code.len() as int) =~= code);
}

/// Law: the same shape with a payload that does not parse as CBOR items is
/// left unchanged.
pub proof fn lemma_trim_metadata_rejects_invalid(code: Seq<u8>, payload: Seq<u8>)
    requires
        !spec_cbor_items_valid(payload),
        payload.len() < 0x10000,
    ensures
        spec_trim(code + payload + spec_len_tail(payload.len())) == code + payload
            + spec_len_tail(payload.len()),
{
    let s = code + payload + spec_len_tail(payload.len());
    let plen = payload.len();
    assert(plen >= 1);
    assert(s[s.len() - 2] == (plen / 256) as u8);
    assert(s[s.len() - 1] == (plen % 256) as u8);
    assert(spec_be_u16((plen / 256) as u8, (plen % 256) as u8) == plen);
    assert(s.subrange(s.len() - 2 - plen, s.len() - 2) =~= payload);
}

/// Cut a trailing CBOR metadata region off `bytecode`, when one is there.
pub fn trim_metadata(bytecode: &mut Vec<u8>)
    ensures
        final(bytecode)@ == spec_trim(old(bytecode)@),
{
    if bytecode.len() <= 2 {
        return ;
    }
    let len = bytecode.len();
    let cbor_length: usize = (bytecode[len - 2] as usize) * 256 + (bytecode[len - 1] as usize);
    if len - 2 < cbor_length {
        return ;
    }
    let start = len - 2 - cbor_length;
    let mut region: Vec<u8> = Vec::new();
    let mut i = start;
    proof {
        assert(region@ =~= bytecode@.subrange(start as int, start as int));
    }
    while i < len - 2
        invariant
            start <= i && i <= len - 2,
            len == bytecode.len(),
            bytecode@ == old(bytecode)@,
            region@ == bytecode@.subrange(start as int, i as int),
        decreases len - 2 - i,
    {
        let b = bytecode[i];
        region.push(b);
        proof {
            assert(bytecode@.subrange(start as int, (i + 1) as int) =~= bytecode@.subrange(
                start as int,
                i as int,
            ).push(b));
        }
        i = i + 1;
    }
    if cbor_region_valid(&region) {
        bytecode.truncate(start);
    }
}

} // verus!
