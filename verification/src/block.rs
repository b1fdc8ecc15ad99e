//! The block: smallest unit of read and caching, a packed run of sorted
//! key-value pairs with a fixed byte encoding.
//!
//! Wire format: concatenated entries, then one big-endian 2-byte offset per
//! entry (the byte position of that entry's start inside the data region),
//! then a trailing 2-byte entry count.  Each entry is
//! `key_len(2B) || key || value_len(2B) || value`.
use vstd::prelude::*;

pub mod builder;
pub mod iterator;

use crate::encoding::{be16, put_bytes, put_u16, u16_of, copy_range, get_u16};
use crate::order::lex_lt;

verus! {

/// A collection of sorted key-value pairs, immutable once built.
pub struct Block {
    /// Concatenated encoded entries.
    pub data: Vec<u8>,
    /// Byte position of each entry's start within `data`, in entry order.
    pub offsets: Vec<u16>,
}

/// Key length field of the entry starting at `off`.
pub open spec fn entry_klen(data: Seq<u8>, off: int) -> int {
    u16_of(data[off], data[off + 1]) as int
}

/// Value length field of the entry starting at `off`.
pub open spec fn entry_vlen(data: Seq<u8>, off: int) -> int {
    u16_of(data[off + 2 + entry_klen(data, off)], data[off + 3 + entry_klen(data, off)]) as int
}

/// Total encoded size of the entry starting at `off`.
pub open spec fn entry_size(data: Seq<u8>, off: int) -> int {
    4 + entry_klen(data, off) + entry_vlen(data, off)
}

/// Key bytes of the entry starting at `off`.
pub open spec fn entry_key(data: Seq<u8>, off: int) -> Seq<u8> {
    data.subrange(off + 2, off + 2 + entry_klen(data, off))
}

/// Value bytes of the entry starting at `off`.
pub open spec fn entry_value(data: Seq<u8>, off: int) -> Seq<u8> {
    data.subrange(
        off + 4 + entry_klen(data, off),
        off + 4 + entry_klen(data, off) + entry_vlen(data, off),
    )
}

/// The entry starting at `off` lies entirely inside `data`.
pub open spec fn entry_in_bounds(data: Seq<u8>, off: int) -> bool {
    &&& 0 <= off
    &&& off + 2 <= data.len()
    &&& off + 4 + entry_klen(data, off) <= data.len()
    &&& off + entry_size(data, off) <= data.len()
}

/// Well-formed block contents: every recorded offset points at a whole
/// entry inside `data`, every key is non-empty, and both offsets and keys
/// ascend strictly.  That the entries also tile `data` back to back is the
/// builder's doing, visible in `BlockBuilder::add`'s contract.
pub open spec fn block_wf(data: Seq<u8>, offsets: Seq<u16>) -> bool {
    let n = offsets.len() as int;
    &&& data.len() <= 0xffff
    &&& offsets.len() <= data.len()
    &&& (offsets.len() == 0 ==> data.len() == 0)
    &&& forall|i: int| 0 <= i < n ==> entry_in_bounds(data, #[trigger] offsets[i] as int)
    &&& forall|i: int| 0 <= i < n ==> entry_klen(data, #[trigger] offsets[i] as int) > 0
    &&& forall|i: int, j: int|
        0 <= i < j < n ==> #[trigger] offsets[i] < #[trigger] offsets[j]
    &&& forall|i: int, j: int|
        0 <= i < j < n ==> lex_lt(
            entry_key(data, #[trigger] offsets[i] as int),
            entry_key(data, #[trigger] offsets[j] as int),
        )
}

impl Block {
    pub open spec fn wf(&self) -> bool {
        block_wf(self.data@, self.offsets@)
    }

    /// Number of entries.
    pub open spec fn num_entries(&self) -> int {
        self.offsets@.len() as int
    }

    /// The `i`-th key-value pair.
    pub open spec fn entry_at(&self, i: int) -> (Seq<u8>, Seq<u8>) {
        (
            entry_key(self.data@, self.offsets@[i] as int),
            entry_value(self.data@, self.offsets@[i] as int),
        )
    }

    /// The pairs the block holds, in entry order.
    pub open spec fn entries(&self) -> Seq<(Seq<u8>, Seq<u8>)> {
        Seq::new(self.offsets@.len(), |i: int| self.entry_at(i))
    }

    /// The block's key sequence.
    pub open spec fn keys(&self) -> Seq<Seq<u8>> {
        Seq::new(self.offsets@.len(), |i: int| self.entry_at(i).0)
    }

    /// The complete wire image of the block.
    pub open spec fn block_wire(&self) -> Seq<u8> {
        self.data@ + offsets_wire(self.offsets@) + be16(self.offsets@.len() as u16)
    }

    /// Serializes the block: data region, offset region, entry count.
    pub fn encode(&self) -> (out: Vec<u8>)
        requires
            self.wf(),
        ensures
            out@ == self.block_wire(),
    {
        let mut out: Vec<u8> = Vec::new();
        put_bytes(&mut out, self.data.as_slice());
        let n = self.offsets.len();
        let mut i: usize = 0;
        proof {
            assert(offsets_wire(self.offsets@.take(0)) =~= Seq::<u8>::empty());
            assert(out@ =~= self.data@ + offsets_wire(self.offsets@.take(0)));
        }
        while i < n
            invariant
                0 <= i <= n,
                n == self.offsets@.len(),
                out@ == self.data@ + offsets_wire(self.offsets@.take(i as int)),
            decreases n - i,
        {
            put_u16(&mut out, self.offsets[i]);
            proof {
                lemma_offsets_wire_snoc(self.offsets@, i as int);
                assert(out@ =~= self.data@ + offsets_wire(self.offsets@.take(i + 1)));
            }
            i += 1;
        }
        proof {
            assert(self.offsets@.take(n as int) =~= self.offsets@);
        }
        put_u16(&mut out, n as u16);
        proof {
            assert(out@ =~= self.block_wire());
        }
        out
    }

    /// Rebuilds a block from its wire image.  Assumes well-formed input: the
    /// behaviour on corrupt bytes is out of contract, stated here as a
    /// precondition rather than a guarded error.
    pub fn decode(data: &[u8]) -> (r: Self)
        requires
            valid_block_wire(data@),
        ensures
            r.data@ == decoded_data(data@),
            r.offsets@ == decoded_offsets(data@),
            r.entries() == decoded_entries(data@),
            r.wf(),
    {
        let n = data.len();
        let count = get_u16(data, n - 2) as usize;
        let data_len = n - 2 - 2 * count;
        let data_vec = copy_range(data, 0, data_len);
        proof {
            assert(data_vec@ =~= decoded_data(data@));
        }
        let mut offsets: Vec<u16> = Vec::new();
        let mut i: usize = 0;
        while i < count
            invariant
                0 <= i <= count,
                count == wire_count(data@),
                data_len == wire_data_len(data@),
                n == data@.len(),
                data_len + 2 * count + 2 == n,
                offsets@ =~= decoded_offsets(data@).take(i as int),
            decreases count - i,
        {
            let off = get_u16(data, data_len + 2 * i);
            offsets.push(off);
            proof {
                assert(offsets@ =~= decoded_offsets(data@).take(i + 1));
            }
            i += 1;
        }
        proof {
            assert(offsets@ =~= decoded_offsets(data@));
        }
        let r = Block { data: data_vec, offsets };
        proof {
            assert(r.entries() =~= decoded_entries(data@));
        }
        r
    }
}

/// The offset region: each offset as two big-endian bytes, in entry order.
pub open spec fn offsets_wire(offsets: Seq<u16>) -> Seq<u8> {
    Seq::new(
        2 * offsets.len(),
        |i: int|
            if i % 2 == 0 {
                be16(offsets[i / 2])[0]
            } else {
                be16(offsets[i / 2])[1]
            },
    )
}

/// Entry count stored in the trailing two bytes of a wire image.
pub open spec fn wire_count(w: Seq<u8>) -> int {
    u16_of(w[w.len() - 2], w[w.len() - 1]) as int
}

/// Length of the data region of a wire image.
pub open spec fn wire_data_len(w: Seq<u8>) -> int {
    w.len() - 2 - 2 * wire_count(w)
}

/// Data region a decoder recovers from a wire image.
pub open spec fn decoded_data(w: Seq<u8>) -> Seq<u8> {
    w.take(wire_data_len(w))
}

/// Offset list a decoder recovers from a wire image.
pub open spec fn decoded_offsets(w: Seq<u8>) -> Seq<u16> {
    Seq::new(
        wire_count(w) as nat,
        |i: int| u16_of(w[wire_data_len(w) + 2 * i], w[wire_data_len(w) + 2 * i + 1]),
    )
}

/// The key-value pairs a decoder recovers from a wire image.
pub open spec fn decoded_entries(w: Seq<u8>) -> Seq<(Seq<u8>, Seq<u8>)> {
    Seq::new(
        decoded_offsets(w).len(),
        |i: int|
            (
                entry_key(decoded_data(w), decoded_offsets(w)[i] as int),
                entry_value(decoded_data(w), decoded_offsets(w)[i] as int),
            ),
    )
}

/// A valid wire image decodes to strictly ascending, non-empty keys.
pub proof fn lemma_decoded_entries_sorted(w: Seq<u8>)
    requires
        valid_block_wire(w),
    ensures
        forall|i: int, j: int|
            0 <= i < j < decoded_entries(w).len() ==> lex_lt(
                #[trigger] decoded_entries(w)[i].0,
                #[trigger] decoded_entries(w)[j].0,
            ),
        forall|i: int| 0 <= i < decoded_entries(w).len() ==> #[trigger] decoded_entries(w)[i].0.len() > 0,
{
    let data = decoded_data(w);
    let offs = decoded_offsets(w);
    assert forall|i: int, j: int| 0 <= i < j < decoded_entries(w).len() implies lex_lt(
        #[trigger] decoded_entries(w)[i].0,
        #[trigger] decoded_entries(w)[j].0,
    ) by {
        assert(lex_lt(entry_key(data, offs[i] as int), entry_key(data, offs[j] as int)));
    }
    assert forall|i: int| 0 <= i < decoded_entries(w).len() implies #[trigger] decoded_entries(
        w,
    )[i].0.len() > 0 by {
        assert(entry_klen(data, offs[i] as int) > 0);
        assert(entry_in_bounds(data, offs[i] as int));
    }
}

/// A byte string that decodes to a well-formed block.  Every wire image of a
/// well-formed block satisfies this (`lemma_block_round_trip`).
pub open spec fn valid_block_wire(w: Seq<u8>) -> bool {
    &&& w.len() >= 2
    &&& 2 + 2 * wire_count(w) <= w.len()
    &&& block_wf(decoded_data(w), decoded_offsets(w))
}

proof fn lemma_offsets_wire_snoc(offsets: Seq<u16>, i: int)
    requires
        0 <= i < offsets.len(),
    ensures
        offsets_wire(offsets.take(i + 1)) =~= offsets_wire(offsets.take(i)) + be16(offsets[i]),
{
    let lhs = offsets_wire(offsets.take(i + 1));
    let rhs = offsets_wire(offsets.take(i)) + be16(offsets[i]);
    assert(lhs.len() == rhs.len());
    assert forall|k: int| 0 <= k < lhs.len() implies lhs[k] == rhs[k] by {
        assert(0 <= k / 2 <= i);
        assert(offsets.take(i + 1)[k / 2] == offsets[k / 2]);
        if k < 2 * i {
            assert(k / 2 < i);
            assert(offsets.take(i)[k / 2] == offsets[k / 2]);
        } else {
            assert(k / 2 == i);
            if k % 2 == 0 {
                assert(lhs[k] == be16(offsets[i])[0]);
                assert(rhs[k] == be16(offsets[i])[0]);
            } else {
                assert(lhs[k] == be16(offsets[i])[1]);
                assert(rhs[k] == be16(offsets[i])[1]);
            }
        }
    }
}

/// Round-trip: decoding the wire image of any well-formed block recovers the
/// block, data, offsets and therefore entries alike.
pub proof fn lemma_block_round_trip(b: Block)
    requires
        b.wf(),
    ensures
        valid_block_wire(b.block_wire()),
        decoded_data(b.block_wire()) == b.data@,
        decoded_offsets(b.block_wire()) == b.offsets@,
{
    let w = b.block_wire();
    let data = b.data@;
    let offs = b.offsets@;
    let n = offs.len() as int;
    let dl = data.len() as int;
    assert(w.len() == dl + 2 * n + 2);
    crate::encoding::lemma_be16_roundtrip(n as u16);
    assert(w[w.len() - 2] == be16(n as u16)[0]);
    assert(w[w.len() - 1] == be16(n as u16)[1]);
    assert(wire_count(w) == n);
    assert(wire_data_len(w) == dl);
    assert(decoded_data(w) =~= data);
    let dofs = decoded_offsets(w);
    assert forall|i: int| 0 <= i < n implies dofs[i] == offs[i] by {
        assert(w[dl + 2 * i] == offsets_wire(offs)[2 * i]);
        assert(w[dl + 2 * i + 1] == offsets_wire(offs)[2 * i + 1]);
        assert((2 * i) / 2 == i);
        assert((2 * i + 1) / 2 == i);
        assert((2 * i) % 2 == 0);
        assert((2 * i + 1) % 2 == 1);
        crate::encoding::lemma_be16_roundtrip(offs[i]);
    }
    assert(dofs =~= offs);
    assert(block_wf(decoded_data(w), decoded_offsets(w)));
}

} // verus!
