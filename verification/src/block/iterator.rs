//! Forward cursor over one decoded block, with seek-by-key.
use vstd::prelude::*;

use std::sync::Arc;

use super::{entry_key, entry_klen, entry_value, entry_vlen, Block};
use crate::encoding::{copy_range, get_u16};
use crate::order::{key_eq, key_lt, lemma_lex_trans, lemma_lex_trichotomy, lex_lt};

verus! {

/// Iterates over the entries of a block.  The cursor is an entry index; the
/// current key and value are copied out of the block, and an empty key marks
/// the past-the-end invalid state.
pub struct BlockIterator {
    /// The block this iterator reads, shared with other iterators.
    pub block: Arc<Block>,
    /// Copy of the current entry's key; empty when the iterator is invalid.
    pub key: Vec<u8>,
    /// Copy of the current entry's value.
    pub value: Vec<u8>,
    /// Index of the current entry.
    pub idx: usize,
}

impl BlockIterator {
    /// Whether the current key and value are meaningful.
    pub open spec fn valid_spec(&self) -> bool {
        self.key@.len() > 0
    }

    /// Index of the current entry.
    pub open spec fn pos(&self) -> int {
        self.idx as int
    }

    pub open spec fn wf(&self) -> bool {
        &&& self.block.wf()
        &&& self.valid_spec() ==> {
            &&& self.pos() < self.block.num_entries()
            &&& self.key@ == self.block.entries()[self.pos()].0
            &&& self.value@ == self.block.entries()[self.pos()].1
        }
    }

    /// The entries still ahead of the cursor, current one first; empty when
    /// the iterator is invalid.
    pub open spec fn remaining(&self) -> Seq<(Seq<u8>, Seq<u8>)> {
        if self.valid_spec() {
            self.block.entries().skip(self.pos())
        } else {
            Seq::empty()
        }
    }

    fn new(block: Arc<Block>) -> (r: Self)
        requires
            block.wf(),
        ensures
            r.wf(),
            !r.valid_spec(),
            r.block == block,
    {
        BlockIterator { block, key: Vec::new(), value: Vec::new(), idx: 0 }
    }

    /// Creates an iterator positioned at the block's first entry.
    pub fn create_and_seek_to_first(block: Arc<Block>) -> (r: Self)
        requires
            block.wf(),
        ensures
            r.wf(),
            r.block == block,
            r.valid_spec() == (block.num_entries() > 0),
            r.valid_spec() ==> r.pos() == 0,
    {
        let mut iter = Self::new(block);
        iter.seek_to_first();
        iter
    }

    /// Creates an iterator positioned at the first entry whose key is
    /// `>= key`.
    pub fn create_and_seek_to_key(block: Arc<Block>, key: &[u8]) -> (r: Self)
        requires
            block.wf(),
        ensures
            r.wf(),
            r.block == block,
            r.valid_spec() == exists|i: int|
                0 <= i < block.num_entries() && !lex_lt(block.entries()[i].0, key@),
            r.valid_spec() ==> {
                &&& 0 <= r.pos() < block.num_entries()
                &&& !lex_lt(block.entries()[r.pos()].0, key@)
                &&& forall|j: int| 0 <= j < r.pos() ==> lex_lt(block.entries()[j].0, key@)
            },
    {
        let mut iter = Self::new(block);
        iter.seek_to_key(key);
        iter
    }

    /// Current key; meaningful only while valid.
    pub fn key(&self) -> (k: &[u8])
        requires
            self.wf(),
            self.valid_spec(),
        ensures
            k@ == self.block.entries()[self.pos()].0,
            k@.len() > 0,
    {
        self.key.as_slice()
    }

    /// Current value; meaningful only while valid.
    pub fn value(&self) -> (v: &[u8])
        requires
            self.wf(),
            self.valid_spec(),
        ensures
            v@ == self.block.entries()[self.pos()].1,
    {
        self.value.as_slice()
    }

    /// Whether the iterator points at an entry.
    pub fn is_valid(&self) -> (r: bool)
        ensures
            r == self.valid_spec(),
    {
        !self.key.is_empty()
    }

    /// Positions the cursor at the first entry, or invalidates the iterator
    /// if the block is empty.
    pub fn seek_to_first(&mut self)
        requires
            old(self).block.wf(),
        ensures
            final(self).wf(),
            final(self).block == old(self).block,
            final(self).valid_spec() == (old(self).block.num_entries() > 0),
            final(self).valid_spec() ==> final(self).pos() == 0,
            !final(self).valid_spec() ==> final(self).value@.len() == 0,
    {
        self.seek_to(0);
    }

    /// Advances to the next entry; moving past the last entry leaves the
    /// iterator in the terminal invalid state.
    pub fn next(&mut self)
        requires
            old(self).wf(),
            old(self).valid_spec(),
        ensures
            final(self).wf(),
            final(self).block == old(self).block,
            final(self).valid_spec() == (old(self).pos() + 1 < old(self).block.num_entries()),
            final(self).valid_spec() ==> final(self).pos() == old(self).pos() + 1,
            final(self).remaining() == old(self).remaining().drop_first(),
            !final(self).valid_spec() ==> final(self).value@.len() == 0,
    {
        let i = self.idx + 1;
        self.idx = i;
        self.seek_to(i);
        proof {
            assert(self.remaining() =~= old(self).remaining().drop_first());
        }
    }

    /// Lower-bound seek: positions at the first entry whose key is `>= key`,
    /// or past the end when every key is smaller.
    #[verifier::rlimit(60)]
    pub fn seek_to_key(&mut self, key: &[u8])
        requires
            old(self).block.wf(),
        ensures
            final(self).wf(),
            final(self).block == old(self).block,
            final(self).valid_spec() == exists|i: int|
                0 <= i < old(self).block.num_entries() && !lex_lt(
                    old(self).block.entries()[i].0,
                    key@,
                ),
            final(self).valid_spec() ==> {
                &&& 0 <= final(self).pos() < old(self).block.num_entries()
                &&& !lex_lt(old(self).block.entries()[final(self).pos()].0, key@)
                &&& forall|j: int|
                    0 <= j < final(self).pos() ==> lex_lt(old(self).block.entries()[j].0, key@)
            },
    {
        let n = self.block.offsets.len();
        let mut left: usize = 0;
        let mut right: usize = n;
        while left < right
            invariant
                0 <= left <= right <= n,
                n == self.block.num_entries(),
                self.block == old(self).block,
                self.block.wf(),
                forall|i: int| 0 <= i < left ==> lex_lt(old(self).block.entries()[i].0, key@),
                forall|i: int| right <= i < n ==> !lex_lt(old(self).block.entries()[i].0, key@),
            decreases right - left,
        {
            let mid = (left + right) / 2;
            self.seek_to(mid);
            let probe_eq = key_eq(self.key.as_slice(), key);
            if probe_eq {
                proof {
                    crate::order::lemma_lex_irrefl(key@);
                    assert(old(self).block.entries()[mid as int].0 == key@);
                    assert forall|j: int| 0 <= j < mid implies lex_lt(old(self).block.entries()[j].0, key@) by {
                        assert(lex_lt(self.block.keys()[j], self.block.keys()[mid as int]));
                    }
                }
                return ;
            }
            let probe_lt = key_lt(self.key.as_slice(), key);
            if probe_lt {
                proof {
                    assert forall|i: int| 0 <= i < mid + 1 implies lex_lt(
                        old(self).block.entries()[i].0,
                        key@,
                    ) by {
                        if left <= i < mid {
                            assert(lex_lt(self.block.keys()[i], self.block.keys()[mid as int]));
                            lemma_lex_trans(
                                old(self).block.entries()[i].0,
                                old(self).block.entries()[mid as int].0,
                                key@,
                            );
                        }
                    }
                }
                left = mid + 1;
            } else {
                proof {
                    lemma_lex_trichotomy(old(self).block.entries()[mid as int].0, key@);
                    assert forall|i: int| mid <= i < n implies !lex_lt(old(self).block.entries()[i].0, key@) by {
                        if i > mid {
                            assert(lex_lt(
                                self.block.keys()[mid as int],
                                self.block.keys()[i],
                            ));
                            if lex_lt(old(self).block.entries()[i].0, key@) {
                                lemma_lex_trans(key@, old(self).block.entries()[mid as int].0, old(self).block.entries()[i].0);
                                lemma_lex_trichotomy(old(self).block.entries()[i].0, key@);
                            }
                        }
                    }
                }
                right = mid;
            }
        }
        self.seek_to(left);
    }

    /// Positions the cursor at entry `idx`, or clears key and value when
    /// `idx` is past the end.
    fn seek_to(&mut self, idx: usize)
        requires
            old(self).block.wf(),
        ensures
            final(self).wf(),
            final(self).block == old(self).block,
            final(self).valid_spec() == (idx < old(self).block.num_entries()),
            final(self).valid_spec() ==> final(self).pos() == idx,
            !final(self).valid_spec() ==> final(self).value@.len() == 0,
    {
        let n = self.block.offsets.len();
        if idx >= n {
            self.key.clear();
            self.value.clear();
            return ;
        }
        let offset = self.block.offsets[idx] as usize;
        self.seek_to_offset(offset);
        self.idx = idx;
        proof {
            assert(self.block.offsets@[idx as int] as int == offset as int);
            assert(self.key@ == entry_key(self.block.data@, offset as int));
            assert(self.key@.len() == entry_klen(self.block.data@, offset as int));
        }
    }

    /// Decodes the entry that starts at byte `offset` of the block's data
    /// region into the key and value buffers.  The cursor index is left for
    /// the caller to set.
    #[verifier::rlimit(60)]
    fn seek_to_offset(&mut self, offset: usize)
        requires
            old(self).block.wf(),
            exists|i: int|
                0 <= i < old(self).block.num_entries() && old(self).block.offsets@[i] as int
                    == offset as int,
        ensures
            final(self).block == old(self).block,
            final(self).idx == old(self).idx,
            final(self).key@ == entry_key(old(self).block.data@, offset as int),
            final(self).value@ == entry_value(old(self).block.data@, offset as int),
    {
        let ghost gi = choose|i: int|
            0 <= i < old(self).block.num_entries() && old(self).block.offsets@[i] as int
                == offset as int;
        let data = self.block.data.as_slice();
        let key_len = get_u16(data, offset) as usize;
        let key = copy_range(data, offset + 2, offset + 2 + key_len);
        let value_len = get_u16(data, offset + 2 + key_len) as usize;
        let value = copy_range(
            data,
            offset + 4 + key_len,
            offset + 4 + key_len + value_len,
        );
        self.key = key;
        self.value = value;
        proof {
            assert(self.key@ =~= entry_key(self.block.data@, offset as int));
            assert(self.value@ =~= entry_value(self.block.data@, offset as int));
        }
    }
}

} // verus!
