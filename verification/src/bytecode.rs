//! The bytecode decoder: segmentation of trimmed bytes into opcode and
//! push-data elements.

use vstd::prelude::*;

use crate::metadata::{spec_be_u16, spec_trim, trim_metadata};
use crate::opcode::{spec_immediate_len, spec_is_push_with_data, OpcodeId};

verus! {

/// A single element of a decoded program: one byte, marked as an
/// instruction or as push data.
#[derive(Copy, Clone, Debug, Default, PartialEq, Eq, Structural)]
pub struct BytecodeElement {
    /// The byte value of the element.
    pub value: u8,
    /// Whether the element is an opcode or a push data byte.
    pub is_code: bool,
}

/// A decoded program: an ordered sequence of elements, together with the
/// number of elements written as opcodes.
#[derive(Debug, Clone, PartialEq, Eq)]
pub struct Bytecode {
    /// The bytecode elements in order.
    pub code: Vec<BytecodeElement>,
    /// How many elements were written as opcodes.
    pub num_opcodes: usize,
}

impl View for Bytecode {
    type V = Seq<BytecodeElement>;

    open spec fn view(&self) -> Seq<BytecodeElement> {
        self.code@
    }
}

/// The number of opcode (`is_code`) elements in a decoded sequence.
pub open spec fn spec_num_opcodes(s: Seq<BytecodeElement>) -> nat
    decreases s.len(),
{
    if s.len() == 0 {
        0
    } else {
        spec_num_opcodes(s.drop_last()) + if s.last().is_code {
            1nat
        } else {
            0nat
        }
    }
}

/// Push-data bytes as elements.
pub open spec fn spec_data_elems(s: Seq<u8>) -> Seq<BytecodeElement> {
    s.map_values(|b: u8| BytecodeElement { value: b, is_code: false })
}

/// Segmentation of bytes into elements: every position is emitted as an
/// opcode, except that a PUSH opcode's next `n` bytes (or whatever is left
/// of them at a truncated tail) are emitted as data.
pub open spec fn spec_decode(s: Seq<u8>) -> Seq<BytecodeElement>
    decreases s.len(),
{
    if s.len() == 0 {
        Seq::empty()
    } else {
        let n = spec_immediate_len(s[0]);
        let k: nat = if n <= s.len() - 1 {
            n
        } else {
            (s.len() - 1) as nat
        };
        seq![BytecodeElement { value: s[0], is_code: true }] + spec_data_elems(
            s.subrange(1, 1 + k as int),
        ) + spec_decode(s.skip(1 + k as int))
    }
}

impl Bytecode {
    /// An empty program.
    pub fn new() -> (r: Bytecode)
        ensures
            r@ =~= Seq::<BytecodeElement>::empty(),
            r.num_opcodes == 0,
    {
        Bytecode { code: Vec::new(), num_opcodes: 0 }
    }

    /// Write op
    pub fn write_op(&mut self, op: OpcodeId)
        requires
            old(self).num_opcodes < usize::MAX,
        ensures
            final(self)@ == old(self)@.push(BytecodeElement { value: op.0, is_code: true }),
            final(self).num_opcodes == old(self).num_opcodes + 1,
    {
        self.write_op_internal(op.as_u8())
    }

    fn write_op_internal(&mut self, op: u8)
        requires
            old(self).num_opcodes < usize::MAX,
        ensures
            final(self)@ == old(self)@.push(BytecodeElement { value: op, is_code: true }),
            final(self).num_opcodes == old(self).num_opcodes + 1,
    {
        self.write(op, true);
        self.num_opcodes = self.num_opcodes + 1;
    }

    /// Write byte
    pub fn write(&mut self, value: u8, is_code: bool)
        ensures
            final(self)@ == old(self)@.push(BytecodeElement { value, is_code }),
            final(self).num_opcodes == old(self).num_opcodes,
    {
        self.code.push(BytecodeElement { value, is_code });
    }
}

proof fn lemma_num_opcodes_push(s: Seq<BytecodeElement>, e: BytecodeElement)
    ensures
        spec_num_opcodes(s.push(e)) == spec_num_opcodes(s) + if e.is_code {
            1nat
        } else {
            0nat
        },
{
    assert(s.push(e).drop_last() =~= s);
    assert(s.push(e).last() == e);
}

proof fn lemma_num_opcodes_le_len(s: Seq<BytecodeElement>)
    ensures
        spec_num_opcodes(s) <= s.len(),
    decreases s.len(),
{
    if s.len() > 0 {
        lemma_num_opcodes_le_len(s.drop_last());
    }
}

impl Bytecode {
    /// Trim the metadata tail off `input`, then decode what is left.
    pub fn from_bytes(input: Vec<u8>) -> (r: Bytecode)
        ensures
            r@ == spec_decode(spec_trim(input@)),
            r.num_opcodes == spec_num_opcodes(r@),
    {
        let mut bytes = input;
        trim_metadata(&mut bytes);
        let ghost t = bytes@;
        let mut code = Bytecode::new();
        let mut i: usize = 0;
        proof {
            assert(t.skip(0) =~= t);
            assert(code@ + spec_decode(t) =~= spec_decode(t));
        }
        while i < bytes.len()
            invariant
                i <= bytes.len(),
                bytes@ == t,
                code@.len() == i,
                code@ + spec_decode(t.skip(i as int)) == spec_decode(t),
                code.num_opcodes == spec_num_opcodes(code@),
            decreases bytes.len() - i,
        {
            let ghost s_i = t.skip(i as int);
            let ghost code_pre = code@;
            let b = bytes[i];
            let op = OpcodeId::from_byte(b);
            proof {
                assert(s_i[0] == b);
                lemma_num_opcodes_le_len(code@);
            }
            code.write_op(op);
            proof {
                lemma_num_opcodes_push(code_pre, BytecodeElement { value: b, is_code: true });
            }
            let n: u8 = match op.postfix() {
                Some(n) => n,
                None => 0,
            };
            let remaining = bytes.len() - i - 1;
            let kk: usize = if (n as usize) <= remaining {
                n as usize
            } else {
                remaining
            };
            let ghost base = code@;
            let mut j: usize = 0;
            proof {
                assert(spec_data_elems(t.subrange((i + 1) as int, (i + 1) as int))
                    =~= Seq::<BytecodeElement>::empty());
                assert(code@ =~= base + spec_data_elems(
                    t.subrange((i + 1) as int, (i + 1) as int),
                ));
            }
            while j < kk
                invariant
                    j <= kk,
                    i + 1 + kk <= bytes.len(),
                    bytes@ == t,
                    base.len() == i + 1,
                    code@ == base + spec_data_elems(t.subrange((i + 1) as int, (i + 1 + j) as int)),
                    code.num_opcodes == spec_num_opcodes(code@),
                decreases kk - j,
            {
                let ghost code_in = code@;
                let v = bytes[i + 1 + j];
                code.write(v, false);
                proof {
                    lemma_num_opcodes_push(code_in, BytecodeElement { value: v, is_code: false });
                    assert(spec_data_elems(t.subrange((i + 1) as int, (i + 1 + j + 1) as int))
                        =~= spec_data_elems(t.subrange((i + 1) as int, (i + 1 + j) as int)).push(
                        BytecodeElement { value: v, is_code: false },
                    ));
                    assert(code@ =~= base + spec_data_elems(
                        t.subrange((i + 1) as int, (i + 1 + j + 1) as int),
                    ));
                }
                j = j + 1;
            }
            proof {
                let n_spec = spec_immediate_len(s_i[0]);
                let k_spec: nat = if n_spec <= s_i.len() - 1 {
                    n_spec
                } else {
                    (s_i.len() - 1) as nat
                };
                assert(k_spec == kk as nat);
                assert(spec_decode(s_i) == seq![
                    BytecodeElement { value: s_i[0], is_code: true },
                ] + spec_data_elems(s_i.subrange(1, 1 + k_spec as int)) + spec_decode(
                    s_i.skip(1 + k_spec as int),
                ));
                assert(s_i.subrange(1, 1 + kk as int) =~= t.subrange(
                    (i + 1) as int,
                    (i + 1 + kk) as int,
                ));
                assert(s_i.skip(1 + kk as int) =~= t.skip((i + 1 + kk) as int));
                assert(code@ + spec_decode(t.skip((i + 1 + kk) as int)) =~= code_pre
                    + spec_decode(s_i));
            }
            i = i + 1 + kk;
        }
        proof {
            assert(t.skip(i as int) =~= Seq::<u8>::empty());
            assert(code@ + spec_decode(t.skip(i as int)) =~= code@);
        }
        code
    }
}

/// Law: decoding emits every byte once, in order.
pub proof fn lemma_decode_preserves_bytes(s: Seq<u8>)
    ensures
        spec_decode(s).len() == s.len(),
        forall|i: int| 0 <= i < s.len() ==> spec_decode(s)[i].value == s[i],
    decreases s.len(),
{
    if s.len() > 0 {
        let n = spec_immediate_len(s[0]);
        let k: nat = if n <= s.len() - 1 {
            n
        } else {
            (s.len() - 1) as nat
        };
        lemma_decode_preserves_bytes(s.skip(1 + k as int));
        assert forall|i: int| 0 <= i < s.len() implies spec_decode(s)[i].value == s[i] by {
            if 1 <= i && i <= k {
                assert(spec_decode(s)[i] == spec_data_elems(s.subrange(1, 1 + k as int))[i - 1]);
            } else if i > k {
                assert(spec_decode(s)[i] == spec_decode(s.skip(1 + k as int))[i - 1 - k]);
                assert(s.skip(1 + k as int)[i - 1 - k] == s[i]);
            }
        }
    }
}

/// Law: the decoded sequence has either the input's length (nothing
/// trimmed) or the input's length less the metadata region and its two
/// length bytes, and its byte values are the matching prefix of the input.
pub proof fn lemma_decode_byte_conservation(b: Seq<u8>)
    ensures
        spec_decode(spec_trim(b)).len() == spec_trim(b).len(),
        spec_trim(b) == b || (b.len() > 2 && spec_trim(b).len() == b.len() - 2 - spec_be_u16(
            b[b.len() - 2],
            b[b.len() - 1],
        )),
        forall|i: int|
            0 <= i < spec_trim(b).len() ==> spec_decode(spec_trim(b))[i].value == b[i],
{
    lemma_decode_preserves_bytes(spec_trim(b));
    if spec_trim(b) != b {
        assert(spec_trim(b) == b.subrange(0, b.len() - 2 - spec_be_u16(
            b[b.len() - 2],
            b[b.len() - 1],
        )));
    }
    assert forall|i: int| 0 <= i < spec_trim(b).len() implies spec_decode(spec_trim(b))[i].value
        == b[i] by {
        assert(spec_decode(spec_trim(b))[i].value == spec_trim(b)[i]);
        if spec_trim(b) != b {
            assert(spec_trim(b)[i] == b[i]);
        }
    }
}

/// Law: a PUSH opcode is emitted as code and the following immediate
/// bytes — all of them when enough remain, otherwise whatever the tail
/// still holds — are emitted as data; a short tail still decodes, to
/// exactly one element per byte.
pub proof fn lemma_push_immediate_segmentation(s: Seq<u8>)
    requires
        s.len() > 0,
        spec_is_push_with_data(s[0]),
    ensures
        spec_decode(s)[0] == (BytecodeElement { value: s[0], is_code: true }),
        forall|i: int|
            1 <= i && i <= spec_immediate_len(s[0]) && i < s.len() ==> spec_decode(s)[i] == (
            BytecodeElement { value: s[i], is_code: false }),
        spec_decode(s).len() == s.len(),
{
    lemma_decode_preserves_bytes(s);
    let n = spec_immediate_len(s[0]);
    let k: nat = if n <= s.len() - 1 {
        n
    } else {
        (s.len() - 1) as nat
    };
    assert forall|i: int| 1 <= i && i <= n && i < s.len() implies spec_decode(s)[i] == (
    BytecodeElement { value: s[i], is_code: false }) by {
        assert(i <= k);
        assert(spec_decode(s)[i] == spec_data_elems(s.subrange(1, 1 + k as int))[i - 1]);
    }
}

/// Law: the `is_code` positions form a valid instruction sequence — after
/// any opcode element, the next `immediate_len` positions that exist are
/// push data, wherever the opcode stands.
pub proof fn lemma_decode_push_windows(s: Seq<u8>)
    ensures
        forall|i: int, j: int|
            0 <= i < spec_decode(s).len() && (#[trigger] spec_decode(s)[i]).is_code && i < j && j
                <= i + spec_immediate_len(spec_decode(s)[i].value) && j < spec_decode(s).len()
                ==> !(#[trigger] spec_decode(s)[j]).is_code,
    decreases s.len(),
{
    lemma_decode_preserves_bytes(s);
    if s.len() > 0 {
        let n = spec_immediate_len(s[0]);
        let k: nat = if n <= s.len() - 1 {
            n
        } else {
            (s.len() - 1) as nat
        };
        let rest = s.skip(1 + k as int);
        lemma_decode_push_windows(rest);
        lemma_decode_preserves_bytes(rest);
        let d = spec_decode(s);
        assert forall|i: int, j: int|
            0 <= i < d.len() && (#[trigger] d[i]).is_code && i < j && j <= i
                + spec_immediate_len(d[i].value) && j < d.len() implies !(#[trigger] d[j]).is_code by {
            if i == 0 {
                assert(d[0].value == s[0]);
                assert(j <= k);
                assert(d[j] == spec_data_elems(s.subrange(1, 1 + k as int))[j - 1]);
            } else if i <= k {
                assert(d[i] == spec_data_elems(s.subrange(1, 1 + k as int))[i - 1]);
            } else {
                assert(d[i] == spec_decode(rest)[i - 1 - k]);
                assert(d[j] == spec_decode(rest)[j - 1 - k]);
            }
        }
    }
}

impl Default for Bytecode {
    /// An empty program.
    fn default() -> (r: Bytecode)
        ensures
            r@ =~= Seq::<BytecodeElement>::empty(),
            r.num_opcodes == 0,
    {
        Bytecode::new()
    }
}

} // verus!
