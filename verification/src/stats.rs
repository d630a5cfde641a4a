//! Opcode frequency counting over a decoded program.

use vstd::prelude::*;

use crate::bytecode::{Bytecode, BytecodeElement};
use crate::opcode::{spec_is_assigned, OpcodeId};

verus! {

/// Number of opcode (`is_code`) elements with byte value `b`.
pub open spec fn spec_count_byte(s: Seq<BytecodeElement>, b: u8) -> nat
    decreases s.len(),
{
    if s.len() == 0 {
        0
    } else {
        spec_count_byte(s.drop_last(), b) + if s.last().is_code && s.last().value == b {
            1nat
        } else {
            0nat
        }
    }
}

proof fn lemma_count_byte_extend(s: Seq<BytecodeElement>, i: int)
    requires
        0 <= i < s.len(),
    ensures
        forall|b: u8|
            spec_count_byte(s.subrange(0, i + 1), b) == spec_count_byte(s.subrange(0, i), b)
                + if s[i].is_code && s[i].value == b {
                1nat
            } else {
                0nat
            },
{
    assert(s.subrange(0, i + 1).drop_last() =~= s.subrange(0, i));
    assert(s.subrange(0, i + 1).last() == s[i]);
    assert forall|b: u8|
        spec_count_byte(s.subrange(0, i + 1), b) == spec_count_byte(s.subrange(0, i), b)
            + if s[i].is_code && s[i].value == b {
            1nat
        } else {
            0nat
        } by {
        assert(spec_count_byte(s.subrange(0, i + 1), b) == spec_count_byte(
            s.subrange(0, i + 1).drop_last(),
            b,
        ) + if s.subrange(0, i + 1).last().is_code && s.subrange(0, i + 1).last().value == b {
            1nat
        } else {
            0nat
        });
    }
}

proof fn lemma_count_byte_le_len(s: Seq<BytecodeElement>, b: u8)
    ensures
        spec_count_byte(s, b) <= s.len(),
    decreases s.len(),
{
    if s.len() > 0 {
        lemma_count_byte_le_len(s.drop_last(), b);
    }
}

/// Dense per-byte counts of the opcode elements of `code`: 256 slots, one
/// per byte value.
pub fn count_opcodes(code: &Bytecode) -> (r: Vec<u64>)
    ensures
        r@.len() == 256,
        forall|b: int| 0 <= b < 256 ==> r@[b] == spec_count_byte(code@, b as u8),
{
    let mut counts: Vec<u64> = Vec::new();
    let mut z: usize = 0;
    while z < 256
        invariant
            z <= 256,
            counts@.len() == z,
            forall|b: int| 0 <= b < z ==> counts@[b] == 0,
        decreases 256 - z,
    {
        counts.push(0);
        z = z + 1;
    }
    let mut i: usize = 0;
    proof {
        assert(code@.subrange(0, 0) =~= Seq::<BytecodeElement>::empty());
    }
    while i < code.code.len()
        invariant
            i <= code.code.len(),
            counts@.len() == 256,
            forall|b: int|
                0 <= b < 256 ==> counts@[b] == spec_count_byte(code@.subrange(0, i as int), b as u8),
        decreases code.code.len() - i,
    {
        let e = code.code[i];
        if e.is_code {
            let idx = e.value as usize;
            proof {
                lemma_count_byte_le_len(code@.subrange(0, i as int), e.value);
            }
            let c = counts[idx];
            counts[idx] = c + 1;
        }
        proof {
            lemma_count_byte_extend(code@, i as int);
        }
        i = i + 1;
    }
    proof {
        assert(code@.subrange(0, code@.len() as int) =~= code@);
    }
    counts
}

/// The sparse `(opcode, count)` pairs of a dense count vector: exactly the
/// byte values with a positive count, in ascending byte order.
pub fn nonzero_opcode_counts(counts: &Vec<u64>) -> (r: Vec<(u8, u64)>)
    requires
        counts@.len() == 256,
    ensures
        forall|j: int|
            0 <= j < r@.len() ==> ((#[trigger] r@[j]).1 == counts@[r@[j].0 as int] && r@[j].1 > 0),
        forall|b: int|
            0 <= b < 256 && counts@[b] > 0 ==> exists|j: int|
                0 <= j < r@.len() && (#[trigger] r@[j]).0 == b,
        forall|j1: int, j2: int| 0 <= j1 < j2 < r@.len() ==> r@[j1].0 < r@[j2].0,
{
    let mut r: Vec<(u8, u64)> = Vec::new();
    let mut b: usize = 0;
    while b < 256
        invariant
            b <= 256,
            counts@.len() == 256,
            forall|j: int|
                0 <= j < r@.len() ==> ((#[trigger] r@[j]).1 == counts@[r@[j].0 as int] && r@[j].1
                    > 0 && r@[j].0 < b),
            forall|bb: int|
                0 <= bb < b && counts@[bb] > 0 ==> exists|j: int|
                    0 <= j < r@.len() && (#[trigger] r@[j]).0 == bb,
            forall|j1: int, j2: int| 0 <= j1 < j2 < r@.len() ==> r@[j1].0 < r@[j2].0,
        decreases 256 - b,
    {
        if counts[b] > 0 {
            let ghost r_old = r@;
            r.push((b as u8, counts[b]));
            proof {
                assert(r@[r_old.len() as int].0 == b);
                assert(forall|j: int| 0 <= j < r_old.len() ==> r@[j] == r_old[j]);
            }
        }
        b = b + 1;
    }
    r
}

/// Whether any opcode element of `code` is an unassigned instruction;
/// decides the warning log.
pub fn has_other_invalid(code: &Bytecode) -> (r: bool)
    ensures
        r == exists|i: int|
            0 <= i < code@.len() && (#[trigger] code@[i]).is_code && !spec_is_assigned(
                code@[i].value,
            ),
{
    let mut i: usize = 0;
    while i < code.code.len()
        invariant
            i <= code.code.len(),
            forall|j: int|
                0 <= j < i ==> !((#[trigger] code@[j]).is_code && !spec_is_assigned(
                    code@[j].value,
                )),
        decreases code.code.len() - i,
    {
        let e = code.code[i];
        if e.is_code && OpcodeId(e.value).is_other_invalid() {
            proof {
                assert((#[trigger] code@[i as int]).is_code && !spec_is_assigned(
                    code@[i as int].value,
                ));
            }
            return true;
        }
        i = i + 1;
    }
    false
}

} // verus!
