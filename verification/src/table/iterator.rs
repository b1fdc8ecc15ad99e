//! Cursor over a whole table: one block iterator at a time, chained across
//! block boundaries.
use vstd::prelude::*;

use std::sync::Arc;

use super::{entries_from, lemma_entries_from_suffix, prefix_len, region_entries, regions_wf,
    SsTable};
use crate::block::iterator::BlockIterator;
use crate::iterators::{lemma_lower_bound, lemma_lower_bound_unique, lower_bound, StorageIterator};
use crate::order::{lemma_lex_lt_le, lemma_lex_trichotomy, lex_lt};
use crate::Error;

verus! {

/// An iterator over the contents of an SSTable.
pub struct SsTableIterator {
    /// The table being read, shared with other iterators.
    pub table: Arc<SsTable>,
    /// Cursor within the current block.
    pub blk_iter: BlockIterator,
    /// Index of the current block.
    pub blk_idx: usize,
}

impl SsTableIterator {
    fn get_first_blk_iter(table: &Arc<SsTable>) -> (r: Result<(usize, BlockIterator), Error>)
        requires
            table.wf(),
        ensures
            r is Ok,
            (r->Ok_0).0 == 0,
            (r->Ok_0).1.wf(),
            (r->Ok_0).1.valid_spec(),
            (r->Ok_0).1.pos() == 0,
            (r->Ok_0).1.block.entries() == table.block_entries(0),
    {
        let blk = table.read_block_cached(0)?;
        Ok((0, BlockIterator::create_and_seek_to_first(blk)))
    }

    /// Creates an iterator positioned at the table's first entry.
    pub fn create_and_seek_to_first(table: Arc<SsTable>) -> (r: Result<Self, Error>)
        requires
            table.wf(),
        ensures
            r is Ok,
            r->Ok_0.inv(),
            r->Ok_0.remaining() == table.table_entries(),
            r->Ok_0.table == table,
    {
        let (blk_idx, blk_iter) = Self::get_first_blk_iter(&table)?;
        let iter = SsTableIterator { table, blk_iter, blk_idx };
        proof {
            assert(iter.blk_iter.remaining() =~= iter.table.block_entries(0));
            assert(iter.remaining() =~= iter.table.table_entries());
        }
        Ok(iter)
    }

    /// Repositions at the table's first entry.
    pub fn seek_to_first(&mut self) -> (r: Result<(), Error>)
        requires
            old(self).inv(),
        ensures
            r is Ok,
            final(self).inv(),
            final(self).table == old(self).table,
            final(self).remaining() == old(self).table.table_entries(),
    {
        let (blk_idx, blk_iter) = Self::get_first_blk_iter(&self.table)?;
        self.blk_idx = blk_idx;
        self.blk_iter = blk_iter;
        proof {
            assert(self.blk_iter.remaining() =~= self.table.block_entries(0));
            assert(self.remaining() =~= self.table.table_entries());
        }
        Ok(())
    }

    /// Locates the predecessor block for `key` and seeks inside it.
    #[verifier::spinoff_prover]
    #[verifier::rlimit(100)]
    fn probe_block(table: &Arc<SsTable>, key: &[u8]) -> (r: Result<(usize, BlockIterator), Error>)
        requires
            table.wf(),
        ensures
            r is Ok,
            (r->Ok_0).0 < table.num_blocks(),
            (r->Ok_0).1.wf(),
            (r->Ok_0).1.block.entries() == table.block_entries((r->Ok_0).0 as int),
            (r->Ok_0).1.valid_spec() ==> {
                &&& lower_bound(table.table_entries(), key@) == prefix_len(
                    table.file.contents(),
                    table.metas(),
                    table.block_meta_offset as int,
                    (r->Ok_0).0 as int,
                ) + (r->Ok_0).1.pos()
                &&& (r->Ok_0).1.remaining() + entries_from(
                    table.file.contents(),
                    table.metas(),
                    table.block_meta_offset as int,
                    (r->Ok_0).0 + 1,
                ) == table.table_entries().skip(lower_bound(table.table_entries(), key@))
            },
            !(r->Ok_0).1.valid_spec() ==> {
                &&& forall|j: int|
                    0 <= j < prefix_len(
                        table.file.contents(),
                        table.metas(),
                        table.block_meta_offset as int,
                        (r->Ok_0).0 + 1,
                    ) ==> lex_lt((#[trigger] table.table_entries()[j]).0, key@)
                &&& forall|j: int|
                    ((r->Ok_0).0 as int) < j && j < table.num_blocks() ==> lex_lt(
                        key@,
                        (#[trigger] table.metas()[j]).1,
                    )
            },
    {
        let ghost c = table.file.contents();
        let ghost m = table.metas();
        let ghost l = table.block_meta_offset as int;
        let blk_idx = table.find_block_idx(key);
        let blk = table.read_block_cached(blk_idx)?;
        let blk_iter = BlockIterator::create_and_seek_to_key(blk, key);
        let ghost b0 = blk_idx as int;
        let ghost reg = region_entries(c, m, l, b0);
        if blk_iter.is_valid() {
            proof {
                let p = blk_iter.pos();
                if lex_lt(key@, m[b0].1) {
                    assert(b0 == 0);
                } else {
                    lemma_blocks_before_below(c, m, l, b0, key@);
                }
                lemma_seek_glb(c, m, l, b0, p, key@);
                assert(blk_iter.remaining() =~= reg.skip(p));
                assert(blk_iter.remaining() + entries_from(c, m, l, b0 + 1) =~= reg_skip(
                    c,
                    m,
                    l,
                    b0,
                    p,
                ));
            }
        } else {
            proof {
                assert(forall|q: int| 0 <= q < reg.len() ==> lex_lt((#[trigger] reg[q]).0, key@));
                if lex_lt(key@, m[b0].1) {
                    lemma_lex_trichotomy(key@, m[b0].1);
                    assert(reg[0].0 == m[b0].1);
                }
                lemma_blocks_upto_below(c, m, l, b0, key@);
                lemma_prefix_from_blocks(c, m, l, b0 + 1, key@);
            }
        }
        Ok((blk_idx, blk_iter))
    }

    #[verifier::spinoff_prover]
    #[verifier::rlimit(100)]
    fn get_key_blk_iter(table: &Arc<SsTable>, key: &[u8]) -> (r: Result<
        (usize, BlockIterator),
        Error,
    >)
        requires
            table.wf(),
        ensures
            r is Ok,
            (r->Ok_0).1.wf(),
            (r->Ok_0).1.valid_spec() ==> {
                &&& (r->Ok_0).0 < table.num_blocks()
                &&& (r->Ok_0).1.block.entries() == table.block_entries((r->Ok_0).0 as int)
                &&& (r->Ok_0).1.remaining() + entries_from(
                    table.file.contents(),
                    table.metas(),
                    table.block_meta_offset as int,
                    (r->Ok_0).0 + 1,
                ) == table.table_entries().skip(lower_bound(table.table_entries(), key@))
            },
            !(r->Ok_0).1.valid_spec() ==> lower_bound(table.table_entries(), key@)
                == table.table_entries().len(),
    {
        let ghost c = table.file.contents();
        let ghost m = table.metas();
        let ghost l = table.block_meta_offset as int;
        let ghost whole = table.table_entries();
        let n = table.num_of_blocks();
        let (mut blk_idx, mut blk_iter) = Self::probe_block(table, key)?;
        let ghost b0 = blk_idx as int;
        if !blk_iter.is_valid() {
            blk_idx = blk_idx + 1;
            if blk_idx < n {
                let blk2 = table.read_block_cached(blk_idx)?;
                blk_iter = BlockIterator::create_and_seek_to_first(blk2);
                proof {
                    lemma_advance_equations(c, m, l, b0, key@);
                    assert(blk_iter.remaining() =~= region_entries(c, m, l, b0 + 1));
                }
            } else {
                proof {
                    lemma_tail_lower_bound(c, m, l, b0, key@);
                }
            }
        }
        Ok((blk_idx, blk_iter))
    }

    /// Creates an iterator positioned at the first entry whose key is
    /// `>= key`, or past the end when every key is smaller.
    pub fn create_and_seek_to_key(table: Arc<SsTable>, key: &[u8]) -> (r: Result<Self, Error>)
        requires
            table.wf(),
        ensures
            r is Ok,
            r->Ok_0.inv(),
            r->Ok_0.table == table,
            r->Ok_0.remaining() == table.table_entries().skip(
                lower_bound(table.table_entries(), key@),
            ),
    {
        let (blk_idx, blk_iter) = Self::get_key_blk_iter(&table, key)?;
        let iter = SsTableIterator { table, blk_iter, blk_idx };
        proof {
            lemma_lower_bound(iter.table.table_entries(), key@);
            if iter.blk_iter.valid_spec() {
                assert(iter.remaining() =~= iter.table.table_entries().skip(
                    lower_bound(iter.table.table_entries(), key@),
                ));
            } else {
                assert(iter.remaining() =~= iter.table.table_entries().skip(
                    lower_bound(iter.table.table_entries(), key@),
                ));
            }
        }
        Ok(iter)
    }

    /// Repositions at the first entry whose key is `>= key`.
    pub fn seek_to_key(&mut self, key: &[u8]) -> (r: Result<(), Error>)
        requires
            old(self).inv(),
        ensures
            r is Ok,
            final(self).inv(),
            final(self).table == old(self).table,
            final(self).remaining() == old(self).table.table_entries().skip(
                lower_bound(old(self).table.table_entries(), key@),
            ),
    {
        let (blk_idx, blk_iter) = Self::get_key_blk_iter(&self.table, key)?;
        self.blk_idx = blk_idx;
        self.blk_iter = blk_iter;
        proof {
            lemma_lower_bound(self.table.table_entries(), key@);
            if self.blk_iter.valid_spec() {
                assert(self.remaining() =~= self.table.table_entries().skip(
                    lower_bound(self.table.table_entries(), key@),
                ));
            } else {
                assert(self.remaining() =~= self.table.table_entries().skip(
                    lower_bound(self.table.table_entries(), key@),
                ));
            }
        }
        Ok(())
    }
}

impl StorageIterator for SsTableIterator {
    open spec fn inv(&self) -> bool {
        &&& self.table.wf()
        &&& self.blk_iter.wf()
        &&& self.blk_iter.valid_spec() ==> {
            &&& self.blk_idx < self.table.num_blocks()
            &&& self.blk_iter.block.entries() == self.table.block_entries(self.blk_idx as int)
        }
    }

    open spec fn remaining(&self) -> Seq<(Seq<u8>, Seq<u8>)> {
        if self.blk_iter.valid_spec() {
            self.blk_iter.remaining() + entries_from(
                self.table.file.contents(),
                self.table.metas(),
                self.table.block_meta_offset as int,
                self.blk_idx + 1,
            )
        } else {
            Seq::empty()
        }
    }

    fn key(&self) -> (k: &[u8]) {
        proof {
            assert(self.blk_iter.remaining()[0] == self.blk_iter.block.entries()[self.blk_iter.pos()]);
        }
        self.blk_iter.key()
    }

    fn value(&self) -> (v: &[u8]) {
        proof {
            assert(self.blk_iter.remaining()[0] == self.blk_iter.block.entries()[self.blk_iter.pos()]);
        }
        self.blk_iter.value()
    }

    fn is_valid(&self) -> (r: bool) {
        self.blk_iter.is_valid()
    }

    fn next(&mut self) -> (r: Result<(), Error>)
        ensures
            r is Ok,
            final(self).remaining() == old(self).remaining().drop_first(),
    {
        let ghost c = self.table.file.contents();
        let ghost m = self.table.metas();
        let ghost l = self.table.block_meta_offset as int;
        let ghost old_rem = self.remaining();
        let ghost old_blk_rem = self.blk_iter.remaining();
        let ghost old_idx = self.blk_idx as int;
        let n = self.table.num_of_blocks();
        self.blk_iter.next();
        if !self.blk_iter.is_valid() {
            proof {
                assert(old_blk_rem.len() == 1);
                assert(old_rem.drop_first() =~= entries_from(c, m, l, old_idx + 1));
            }
            let idx = self.blk_idx + 1;
            self.blk_idx = idx;
            if idx < n {
                let blk = self.table.read_block_cached(idx)?;
                self.blk_iter = BlockIterator::create_and_seek_to_first(blk);
                proof {
                    assert(self.blk_iter.remaining() =~= region_entries(c, m, l, idx as int));
                    assert(self.remaining() =~= entries_from(c, m, l, idx as int));
                }
            } else {
                proof {
                    assert(entries_from(c, m, l, old_idx + 1) =~= Seq::<(Seq<u8>, Seq<u8>)>::empty());
                }
            }
        } else {
            proof {
                assert(self.remaining() =~= old_rem.drop_first());
            }
        }
        Ok(())
    }
}

/// When every entry before block `b0 + 1` sorts below `k` and that block's
/// first key does not, the global lower bound is the start of block
/// `b0 + 1`, and the table's tail from there is that block plus the rest.
#[verifier::spinoff_prover]
#[verifier::rlimit(100)]
proof fn lemma_advance_equations(contents: Seq<u8>, metas: Seq<(int, Seq<u8>)>, limit: int, b0: int, k: Seq<u8>)
    requires
        regions_wf(contents, metas, limit),
        0 <= b0,
        b0 + 1 < metas.len(),
        forall|j: int|
            0 <= j < prefix_len(contents, metas, limit, b0 + 1) ==> lex_lt(
                (#[trigger] entries_from(contents, metas, limit, 0)[j]).0,
                k,
            ),
        lex_lt(k, metas[b0 + 1].1),
    ensures
        region_entries(contents, metas, limit, b0 + 1).len() > 0,
        region_entries(contents, metas, limit, b0 + 1) + entries_from(
            contents,
            metas,
            limit,
            b0 + 2,
        ) == entries_from(contents, metas, limit, 0).skip(
            lower_bound(entries_from(contents, metas, limit, 0), k),
        ),
{
    let whole = entries_from(contents, metas, limit, 0);
    let b1 = b0 + 1;
    let reg1 = region_entries(contents, metas, limit, b1);
    let pl = prefix_len(contents, metas, limit, b1);
    lemma_lex_trichotomy(metas[b1].1, k);
    assert(reg1[0].0 == metas[b1].1);
    lemma_entries_from_suffix(contents, metas, limit, b1);
    assert(entries_from(contents, metas, limit, b1) == reg1 + entries_from(
        contents,
        metas,
        limit,
        b1 + 1,
    ));
    assert(whole[pl] == whole.skip(pl)[0]);
    assert(whole.skip(pl)[0] == reg1[0]);
    lemma_lower_bound_unique(whole, k, pl);
    assert(reg1 + entries_from(contents, metas, limit, b1 + 1) == whole.skip(pl));
}

/// What is left of block `b` from in-block position `p` on, followed by all
/// later blocks.
pub open spec fn reg_skip(contents: Seq<u8>, metas: Seq<(int, Seq<u8>)>, limit: int, b: int, p: int) -> Seq<
    (Seq<u8>, Seq<u8>),
> {
    region_entries(contents, metas, limit, b).skip(p) + entries_from(contents, metas, limit, b + 1)
}

/// All entries of blocks up to and including `b` sort below `k` when block
/// `b`'s first key is at or below `k` and block `b`'s entries all are.
proof fn lemma_blocks_upto_below(contents: Seq<u8>, metas: Seq<(int, Seq<u8>)>, limit: int, b: int, k: Seq<u8>)
    requires
        regions_wf(contents, metas, limit),
        0 <= b < metas.len(),
        !lex_lt(k, metas[b].1),
        forall|q: int|
            0 <= q < region_entries(contents, metas, limit, b).len() ==> lex_lt(
                (#[trigger] region_entries(contents, metas, limit, b)[q]).0,
                k,
            ),
    ensures
        forall|i: int, q: int|
            0 <= i <= b && 0 <= q < region_entries(contents, metas, limit, i).len() ==> lex_lt(
                (#[trigger] region_entries(contents, metas, limit, i)[q]).0,
                k,
            ),
{
    lemma_blocks_before_below(contents, metas, limit, b, k);
}

/// All entries of blocks before `b` sort below `k` once block `b`'s first
/// key is at or below `k`.
proof fn lemma_blocks_before_below(contents: Seq<u8>, metas: Seq<(int, Seq<u8>)>, limit: int, b: int, k: Seq<u8>)
    requires
        regions_wf(contents, metas, limit),
        0 <= b < metas.len(),
        !lex_lt(k, metas[b].1),
    ensures
        forall|i: int, q: int|
            0 <= i < b && 0 <= q < region_entries(contents, metas, limit, i).len() ==> lex_lt(
                (#[trigger] region_entries(contents, metas, limit, i)[q]).0,
                k,
            ),
{
    assert forall|i: int, q: int|
        0 <= i < b && 0 <= q < region_entries(contents, metas, limit, i).len() implies lex_lt(
        (#[trigger] region_entries(contents, metas, limit, i)[q]).0,
        k,
    ) by {
        let x = region_entries(contents, metas, limit, i)[q].0;
        assert(lex_lt(x, metas[i + 1].1));
        if i + 1 == b {
            lemma_lex_lt_le(x, metas[b].1, k);
        } else {
            assert(lex_lt(metas[i + 1].1, metas[b].1));
            crate::order::lemma_lex_trans(x, metas[i + 1].1, metas[b].1);
            lemma_lex_lt_le(x, metas[b].1, k);
        }
    }
}

/// Entries of blocks before `b` all below `k` means every entry before
/// `prefix_len(b)` is below `k`.
proof fn lemma_prefix_from_blocks(contents: Seq<u8>, metas: Seq<(int, Seq<u8>)>, limit: int, b: int, k: Seq<u8>)
    requires
        regions_wf(contents, metas, limit),
        0 <= b <= metas.len(),
        forall|i: int, q: int|
            0 <= i < b && 0 <= q < region_entries(contents, metas, limit, i).len() ==> lex_lt(
                (#[trigger] region_entries(contents, metas, limit, i)[q]).0,
                k,
            ),
    ensures
        forall|j: int|
            0 <= j < prefix_len(contents, metas, limit, b) ==> lex_lt(
                (#[trigger] entries_from(contents, metas, limit, 0)[j]).0,
                k,
            ),
    decreases b,
{
    let whole = entries_from(contents, metas, limit, 0);
    lemma_entries_from_suffix(contents, metas, limit, b);
    if b > 0 {
        lemma_prefix_from_blocks(contents, metas, limit, b - 1, k);
        lemma_entries_from_suffix(contents, metas, limit, b - 1);
        let pl0 = prefix_len(contents, metas, limit, b - 1);
        let reg = region_entries(contents, metas, limit, b - 1);
        assert forall|j: int| 0 <= j < prefix_len(contents, metas, limit, b) implies lex_lt(
            (#[trigger] whole[j]).0,
            k,
        ) by {
            if j >= pl0 {
                assert(entries_from(contents, metas, limit, b - 1) == whole.skip(pl0));
                assert(entries_from(contents, metas, limit, b - 1) == reg + entries_from(
                    contents,
                    metas,
                    limit,
                    b,
                ));
                assert(whole[j] == whole.skip(pl0)[j - pl0]);
                assert(whole.skip(pl0)[j - pl0] == reg[j - pl0]);
                assert(lex_lt(reg[j - pl0].0, k));
            }
        }
    }
}

/// When every entry up to and including the last block sorts below `k`,
/// the lower bound is the end of the table.
#[verifier::spinoff_prover]
proof fn lemma_tail_lower_bound(contents: Seq<u8>, metas: Seq<(int, Seq<u8>)>, limit: int, b0: int, k: Seq<u8>)
    requires
        b0 + 1 == metas.len(),
        forall|j: int|
            0 <= j < prefix_len(contents, metas, limit, b0 + 1) ==> lex_lt(
                (#[trigger] entries_from(contents, metas, limit, 0)[j]).0,
                k,
            ),
    ensures
        lower_bound(entries_from(contents, metas, limit, 0), k) == entries_from(
            contents,
            metas,
            limit,
            0,
        ).len(),
{
    let whole = entries_from(contents, metas, limit, 0);
    lemma_entries_from_suffix(contents, metas, limit, b0 + 1);
    assert(entries_from(contents, metas, limit, b0 + 1) =~= Seq::<(Seq<u8>, Seq<u8>)>::empty());
    assert(prefix_len(contents, metas, limit, b0 + 1) == whole.len());
    lemma_lower_bound_unique(whole, k, whole.len() as int);
}

/// The lower-bound index of `k` among all entries is block `b` position
/// `p` when everything before sorts below `k` and the entry there does not.
#[verifier::spinoff_prover]
#[verifier::rlimit(100)]
proof fn lemma_seek_glb_lb(contents: Seq<u8>, metas: Seq<(int, Seq<u8>)>, limit: int, b: int, p: int, k: Seq<u8>)
    requires
        regions_wf(contents, metas, limit),
        0 <= b < metas.len(),
        0 <= p < region_entries(contents, metas, limit, b).len(),
        forall|i: int, q: int|
            0 <= i < b && 0 <= q < region_entries(contents, metas, limit, i).len() ==> lex_lt(
                (#[trigger] region_entries(contents, metas, limit, i)[q]).0,
                k,
            ),
        forall|q: int|
            0 <= q < p ==> lex_lt((#[trigger] region_entries(contents, metas, limit, b)[q]).0, k),
        !lex_lt(region_entries(contents, metas, limit, b)[p].0, k),
    ensures
        lower_bound(entries_from(contents, metas, limit, 0), k) == prefix_len(
            contents,
            metas,
            limit,
            b,
        ) + p,
{
    let whole = entries_from(contents, metas, limit, 0);
    let reg = region_entries(contents, metas, limit, b);
    let rest = entries_from(contents, metas, limit, b + 1);
    let pl = prefix_len(contents, metas, limit, b);
    lemma_entries_from_suffix(contents, metas, limit, b);
    lemma_prefix_from_blocks(contents, metas, limit, b, k);
    assert(entries_from(contents, metas, limit, b) == reg + rest);
    assert(entries_from(contents, metas, limit, b) == whole.skip(pl));
    assert forall|j: int| 0 <= j < pl + p implies lex_lt((#[trigger] whole[j]).0, k) by {
        if j >= pl {
            assert(whole[j] == whole.skip(pl)[j - pl]);
            assert(whole.skip(pl)[j - pl] == reg[j - pl]);
            assert(lex_lt(reg[j - pl].0, k));
        }
    }
    assert(whole[pl + p] == whole.skip(pl)[p]);
    assert(whole.skip(pl)[p] == reg[p]);
    lemma_lower_bound_unique(whole, k, pl + p);
}

/// The tail of the table from block `b` position `p` is the matching
/// suffix of all entries.
#[verifier::spinoff_prover]
#[verifier::rlimit(100)]
proof fn lemma_seek_glb_suffix(contents: Seq<u8>, metas: Seq<(int, Seq<u8>)>, limit: int, b: int, p: int)
    requires
        0 <= b < metas.len(),
        0 <= p <= region_entries(contents, metas, limit, b).len(),
    ensures
        reg_skip(contents, metas, limit, b, p) == entries_from(contents, metas, limit, 0).skip(
            prefix_len(contents, metas, limit, b) + p,
        ),
{
    let whole = entries_from(contents, metas, limit, 0);
    let reg = region_entries(contents, metas, limit, b);
    let rest = entries_from(contents, metas, limit, b + 1);
    let pl = prefix_len(contents, metas, limit, b);
    lemma_entries_from_suffix(contents, metas, limit, b);
    assert(entries_from(contents, metas, limit, b) == reg + rest);
    assert(entries_from(contents, metas, limit, b) == whole.skip(pl));
    assert forall|j: int| 0 <= j < reg_skip(contents, metas, limit, b, p).len() implies #[trigger]
        reg_skip(contents, metas, limit, b, p)[j] == whole.skip(pl + p)[j] by {
        assert(whole.skip(pl + p)[j] == whole[pl + p + j]);
        assert(whole[pl + p + j] == whole.skip(pl)[p + j]);
        assert(whole.skip(pl)[p + j] == (reg + rest)[p + j]);
        if j < reg.len() - p {
            assert(reg_skip(contents, metas, limit, b, p)[j] == reg.skip(p)[j]);
            assert(reg.skip(p)[j] == reg[p + j]);
        } else {
            assert(reg_skip(contents, metas, limit, b, p)[j] == rest[j - (reg.len() - p)]);
        }
    }
    assert(reg_skip(contents, metas, limit, b, p) =~= whole.skip(pl + p));
}

/// Both halves together: lower bound and suffix.
proof fn lemma_seek_glb(contents: Seq<u8>, metas: Seq<(int, Seq<u8>)>, limit: int, b: int, p: int, k: Seq<u8>)
    requires
        regions_wf(contents, metas, limit),
        0 <= b < metas.len(),
        0 <= p < region_entries(contents, metas, limit, b).len(),
        forall|i: int, q: int|
            0 <= i < b && 0 <= q < region_entries(contents, metas, limit, i).len() ==> lex_lt(
                (#[trigger] region_entries(contents, metas, limit, i)[q]).0,
                k,
            ),
        forall|q: int|
            0 <= q < p ==> lex_lt((#[trigger] region_entries(contents, metas, limit, b)[q]).0, k),
        !lex_lt(region_entries(contents, metas, limit, b)[p].0, k),
    ensures
        lower_bound(entries_from(contents, metas, limit, 0), k) == prefix_len(
            contents,
            metas,
            limit,
            b,
        ) + p,
        reg_skip(contents, metas, limit, b, p) == entries_from(contents, metas, limit, 0).skip(
            prefix_len(contents, metas, limit, b) + p,
        ),
{
    lemma_seek_glb_lb(contents, metas, limit, b, p, k);
    lemma_seek_glb_suffix(contents, metas, limit, b, p);
}

} // verus!
