//! Incremental packing of key-value pairs into one size-bounded block.
use vstd::prelude::*;

use super::{
    block_wf, entry_in_bounds, entry_key, entry_klen, entry_size, entry_value, entry_vlen, Block,
};
use crate::encoding::{be16, put_bytes, put_u16};
use crate::order::{lex_lt, lemma_lex_trans};

verus! {

/// The encoded form of one entry: `key_len(2B) || key || value_len(2B) || value`.
pub open spec fn enc_entry(k: Seq<u8>, v: Seq<u8>) -> Seq<u8> {
    be16(k.len() as u16) + k + be16(v.len() as u16) + v
}

/// Builds a block.  `add` is all-or-nothing: a rejected pair leaves the
/// builder untouched.
pub struct BlockBuilder {
    /// Maximum byte budget for the encoded block.
    pub block_size: usize,
    /// Encoded entries so far.
    pub data: Vec<u8>,
    /// Start position of each entry within `data`.
    pub offsets: Vec<u16>,
    /// Entry count.
    pub num_of_elements: usize,
    /// Byte position the next entry would start at.
    pub next_offset: u16,
}

impl BlockBuilder {
    pub open spec fn wf(&self) -> bool {
        &&& block_wf(self.data@, self.offsets@)
        &&& self.next_offset as int == self.data@.len()
        &&& self.num_of_elements == self.offsets@.len()
        &&& self.block_size <= 0x10000
    }

    /// The pairs accepted so far, in arrival order.
    pub open spec fn pairs(&self) -> Seq<(Seq<u8>, Seq<u8>)> {
        Seq::new(
            self.offsets@.len(),
            |i: int|
                (
                    entry_key(self.data@, self.offsets@[i] as int),
                    entry_value(self.data@, self.offsets@[i] as int),
                ),
        )
    }

    /// Creates an empty builder with the given byte budget.  The 2-byte
    /// offset and count fields cap a useful budget at 65536 bytes.
    pub fn new(block_size: usize) -> (r: Self)
        requires
            block_size <= 0x10000,
        ensures
            r.wf(),
            r.pairs() =~= Seq::<(Seq<u8>, Seq<u8>)>::empty(),
            r.block_size == block_size,
    {
        BlockBuilder {
            block_size,
            data: Vec::new(),
            offsets: Vec::new(),
            num_of_elements: 0,
            next_offset: 0,
        }
    }

    /// Whether a pair of this size still fits the remaining budget.
    pub open spec fn fits(&self, klen: int, vlen: int) -> bool {
        self.data@.len() + (4 + klen + vlen) + 2 < self.block_size
    }

    /// Adds a key-value pair.  Returns false, with no state mutated, when
    /// the encoded entry plus trailer would reach the byte budget.
    #[must_use]
    #[verifier::rlimit(60)]
    pub fn add(&mut self, key: &[u8], value: &[u8]) -> (added: bool)
        requires
            old(self).wf(),
            key@.len() > 0,
            key@.len() <= 0xffff,
            value@.len() <= 0xffff,
            old(self).pairs().len() > 0 ==> lex_lt(
                old(self).pairs().last().0,
                key@,
            ),
        ensures
            final(self).wf(),
            added == old(self).fits(key@.len() as int, value@.len() as int),
            added ==> final(self).pairs() == old(self).pairs().push((key@, value@)),
            added ==> final(self).data@ == old(self).data@ + enc_entry(key@, value@),
            added ==> final(self).offsets@ == old(self).offsets@.push(old(self).next_offset),
            added ==> final(self).next_offset == old(self).next_offset + 4 + key@.len() + value@.len(),
            !added ==> *final(self) == *old(self),
            final(self).block_size == old(self).block_size,
    {
        let klen = key.len();
        let vlen = value.len();
        let entry_sz: usize = 4 + klen + vlen;
        if self.next_offset as usize + entry_sz + 2 >= self.block_size {
            return false;
        }
        let ghost old_data = self.data@;
        let ghost old_offsets = self.offsets@;
        put_u16(&mut self.data, klen as u16);
        put_bytes(&mut self.data, key);
        put_u16(&mut self.data, vlen as u16);
        put_bytes(&mut self.data, value);
        proof {
            assert(self.data@ =~= old_data + enc_entry(key@, value@));
        }
        self.offsets.push(self.next_offset);
        self.next_offset = self.next_offset + entry_sz as u16;
        self.num_of_elements = self.num_of_elements + 1;
        proof {
            let data = self.data@;
            let offs = self.offsets@;
            let n = offs.len() as int;
            let off = old_data.len() as int;
            lemma_parse_appended(old_data, key@, value@);
            assert forall|i: int| 0 <= i < n - 1 implies entry_in_bounds(
                data,
                #[trigger] offs[i] as int,
            ) && entry_klen(data, offs[i] as int) == entry_klen(old_data, offs[i] as int)
                && entry_vlen(data, offs[i] as int) == entry_vlen(old_data, offs[i] as int)
                && entry_key(data, offs[i] as int) == entry_key(old_data, offs[i] as int)
                && entry_value(data, offs[i] as int) == entry_value(old_data, offs[i] as int) by {
                assert(old_offsets[i] == offs[i]);
                lemma_parse_prefix_stable(old_data, enc_entry(key@, value@), offs[i] as int);
            }
            assert(block_wf(data, offs)) by {
                assert(offs[n - 1] as int == off);
                assert forall|i: int, j: int| 0 <= i < j < n implies #[trigger] offs[i]
                    < #[trigger] offs[j] by {
                    if j == n - 1 {
                        assert(entry_in_bounds(old_data, old_offsets[i] as int));
                        assert(entry_klen(old_data, old_offsets[i] as int) > 0);
                    }
                }
                assert forall|i: int, j: int| 0 <= i < j < n implies lex_lt(
                    #[trigger] entry_key(data, offs[i] as int),
                    #[trigger] entry_key(data, offs[j] as int),
                ) by {
                    let old_keys = Seq::new(
                        old_offsets.len(),
                        |i: int| entry_key(old_data, old_offsets[i] as int),
                    );
                    if j < n - 1 {
                        assert(lex_lt(old_keys[i], old_keys[j]));
                    } else {
                        assert(old(self).pairs().last().0 == old_keys[n - 2]);
                        if i < n - 2 {
                            assert(lex_lt(old_keys[i], old_keys[n - 2]));
                            lemma_lex_trans(old_keys[i], old_keys[n - 2], key@);
                        }
                    }
                }
            }
            assert(final(self).pairs() =~= old(self).pairs().push((key@, value@)));
        }
        true
    }

    /// True when no pair has been accepted yet.
    pub fn is_empty(&self) -> (r: bool)
        requires
            self.wf(),
        ensures
            r == (self.pairs().len() == 0),
    {
        self.num_of_elements == 0
    }

    /// Finalizes the accumulated pairs into an immutable block.  The builder
    /// is consumed and must not be reused.
    pub fn build(self) -> (b: Block)
        requires
            self.wf(),
        ensures
            b.wf(),
            b.entries() == self.pairs(),
            b.data@ == self.data@,
            b.offsets@ == self.offsets@,
    {
        let b = Block { data: self.data, offsets: self.offsets };
        proof {
            assert(b.entries() =~= self.pairs());
        }
        b
    }
}

/// Parsing the entry appended at the end of `data` recovers the pair.
pub proof fn lemma_parse_appended(data: Seq<u8>, k: Seq<u8>, v: Seq<u8>)
    requires
        k.len() <= 0xffff,
        v.len() <= 0xffff,
    ensures
        entry_klen(data + enc_entry(k, v), data.len() as int) == k.len(),
        entry_vlen(data + enc_entry(k, v), data.len() as int) == v.len(),
        entry_size(data + enc_entry(k, v), data.len() as int) == enc_entry(k, v).len(),
        entry_key(data + enc_entry(k, v), data.len() as int) == k,
        entry_value(data + enc_entry(k, v), data.len() as int) == v,
        entry_in_bounds(data + enc_entry(k, v), data.len() as int),
{
    let w = data + enc_entry(k, v);
    let off = data.len() as int;
    crate::encoding::lemma_be16_roundtrip(k.len() as u16);
    crate::encoding::lemma_be16_roundtrip(v.len() as u16);
    assert(w[off] == be16(k.len() as u16)[0]);
    assert(w[off + 1] == be16(k.len() as u16)[1]);
    assert(entry_klen(w, off) == k.len());
    assert(w[off + 2 + k.len()] == be16(v.len() as u16)[0]);
    assert(w[off + 3 + k.len()] == be16(v.len() as u16)[1]);
    assert(entry_vlen(w, off) == v.len());
    assert(entry_key(w, off) =~= k);
    assert(entry_value(w, off) =~= v);
}

/// Extending `data` on the right does not change how an entry that lies
/// entirely inside the old part parses.
pub proof fn lemma_parse_prefix_stable(data: Seq<u8>, ext: Seq<u8>, off: int)
    requires
        entry_in_bounds(data, off),
    ensures
        entry_in_bounds(data + ext, off),
        entry_klen(data + ext, off) == entry_klen(data, off),
        entry_vlen(data + ext, off) == entry_vlen(data, off),
        entry_size(data + ext, off) == entry_size(data, off),
        entry_key(data + ext, off) == entry_key(data, off),
        entry_value(data + ext, off) == entry_value(data, off),
{
    let w = data + ext;
    assert(w[off] == data[off]);
    assert(w[off + 1] == data[off + 1]);
    assert(entry_klen(w, off) == entry_klen(data, off));
    let kl = entry_klen(data, off);
    assert(w[off + 2 + kl] == data[off + 2 + kl]);
    assert(w[off + 3 + kl] == data[off + 3 + kl]);
    assert(entry_vlen(w, off) == entry_vlen(data, off));
    assert(entry_key(w, off) =~= entry_key(data, off));
    assert(entry_value(w, off) =~= entry_value(data, off));
}

} // verus!
