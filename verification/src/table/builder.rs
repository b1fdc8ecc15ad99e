//! Builds an SSTable from key-ascending key-value pairs, cutting blocks at
//! the byte budget.
use vstd::prelude::*;

use super::{
    entries_from, lemma_entries_from_suffix, lemma_metas_round_trip, lemma_regions_extend,
    metas_view, metas_wire, parse_metas, region_entries, region_of, regions_wf, valid_metas_wire,
    valid_table_wire,
    BlockMeta, FileObject, SsTable,
};
use crate::block::builder::BlockBuilder;
use crate::block::{
    block_wf, decoded_data, decoded_entries, decoded_offsets, entry_in_bounds, entry_key,
    entry_klen, lemma_block_round_trip, valid_block_wire,
};
use crate::encoding::{be32, put_bytes, u32_of};
use crate::iterators::entries_sorted;
use crate::order::{lemma_lex_trans, lex_lt};
use crate::Error;

verus! {

/// Accumulates pairs across block boundaries and emits the finished table.
pub struct SsTableBuilder {
    /// Byte budget of each block.
    pub block_size: usize,
    /// Builder of the in-progress block.
    pub block_builder: BlockBuilder,
    /// Index records of the finalized blocks.
    pub meta: Vec<BlockMeta>,
    /// Encoded bytes of the finalized blocks.
    pub data: Vec<u8>,
    /// First key added to the in-progress block.
    pub first_key: Vec<u8>,
}

impl SsTableBuilder {
    /// Entries already sealed into finalized blocks.
    pub open spec fn fin(&self) -> Seq<(Seq<u8>, Seq<u8>)> {
        entries_from(self.data@, metas_view(self.meta@), self.data@.len() as int, 0)
    }

    /// All pairs accepted so far, in arrival order.
    pub open spec fn pairs(&self) -> Seq<(Seq<u8>, Seq<u8>)> {
        self.fin() + self.block_builder.pairs()
    }

    /// Everything `wf` asks except that sealed blocks imply a started
    /// pending block; sealing leaves this state until the next `add`.
    pub open spec fn wf_core(&self) -> bool {
        &&& self.block_builder.wf()
        &&& self.block_builder.block_size == self.block_size
        &&& self.block_size <= 0x10000
        &&& regions_wf(self.data@, metas_view(self.meta@), self.data@.len() as int)
        &&& self.block_builder.pairs().len() > 0 ==> self.first_key@ == self.block_builder.pairs()[0].0
        &&& self.block_builder.pairs().len() == 0 ==> self.first_key@.len() == 0
        &&& self.meta@.len() == 0 ==> self.data@.len() == 0
        &&& self.meta@.len() > 0 ==> metas_view(self.meta@)[0].0 == 0
        &&& entries_sorted(self.pairs())
    }

    pub open spec fn wf(&self) -> bool {
        &&& self.wf_core()
        &&& self.meta@.len() > 0 ==> self.block_builder.pairs().len() > 0
    }

    /// Creates a builder with the given per-block byte budget.
    pub fn new(block_size: usize) -> (r: Self)
        requires
            block_size <= 0x10000,
        ensures
            r.wf(),
            r.pairs() =~= Seq::<(Seq<u8>, Seq<u8>)>::empty(),
            r.block_size == block_size,
            r.data@.len() == 0,
            r.meta@.len() == 0,
    {
        let r = SsTableBuilder {
            block_size,
            block_builder: BlockBuilder::new(block_size),
            meta: Vec::new(),
            data: Vec::new(),
            first_key: Vec::new(),
        };
        proof {
            assert(metas_view(r.meta@) =~= Seq::<(int, Seq<u8>)>::empty());
            assert(r.pairs() =~= Seq::<(Seq<u8>, Seq<u8>)>::empty());
        }
        r
    }

    /// Adds a key-value pair.  Arrival order must be strictly key-ascending,
    /// and a single pair must always fit a fresh block: both are caller
    /// obligations, not recoverable conditions.
    #[verifier::rlimit(100)]
    pub fn add(&mut self, key: &[u8], value: &[u8])
        requires
            old(self).wf(),
            key@.len() > 0,
            key@.len() <= 0xffff,
            value@.len() <= 0xffff,
            4 + key@.len() + value@.len() + 2 < old(self).block_size,
            old(self).pairs().len() > 0 ==> lex_lt(old(self).pairs().last().0, key@),
            old(self).data@.len() + 0x40000 <= 0xffffffff,
        ensures
            final(self).wf(),
            final(self).pairs() == old(self).pairs().push((key@, value@)),
            final(self).block_size == old(self).block_size,
            final(self).data@.len() <= old(self).data@.len() + 0x40000,
    {
        proof {
            lemma_sorted_push(old(self).pairs(), key@);
            lemma_entries_sorted_push(old(self).pairs(), (key@, value@));
        }
        if self.first_key.is_empty() {
            self.first_key = vstd::slice::slice_to_vec(key);
        }
        let ghost pre = *self;
        let added = self.block_builder.add(key, value);
        if added {
            proof {
                assert(self.fin() == pre.fin());
                assert(self.pairs() =~= old(self).pairs().push((key@, value@)));
                assert(self.block_builder.pairs()[0] == if pre.block_builder.pairs().len() == 0 {
                    (key@, value@)
                } else {
                    pre.block_builder.pairs()[0]
                });
            }
            return ;
        }
        proof {
            assert(*self == pre);
            assert(self.block_builder.pairs().len() > 0);
        }
        self.build_block();
        self.first_key = vstd::slice::slice_to_vec(key);
        let ghost mid = *self;
        let added2 = self.block_builder.add(key, value);
        proof {
            assert(added2);
            assert(self.fin() == mid.fin());
            assert(self.pairs() =~= old(self).pairs().push((key@, value@)));
        }
    }

    /// Bytes of finalized blocks so far: the estimated table size.
    pub fn estimated_size(&self) -> (r: usize)
        ensures
            r == self.data@.len(),
    {
        self.data.len()
    }

    /// Seals the in-progress block: encodes it, records its index entry,
    /// and appends its bytes to the table image.
    #[verifier::rlimit(100)]
    fn build_block(&mut self)
        requires
            old(self).wf_core(),
            old(self).block_builder.pairs().len() > 0,
            old(self).data@.len() + 0x40000 <= 0xffffffff,
        ensures
            final(self).wf_core(),
            final(self).pairs() == old(self).pairs(),
            final(self).fin() == old(self).pairs(),
            final(self).block_builder.pairs().len() == 0,
            final(self).first_key@.len() == 0,
            final(self).block_size == old(self).block_size,
            final(self).meta@.len() == old(self).meta@.len() + 1,
            final(self).data@.len() <= old(self).data@.len() + 0x40000,
    {
        let mut bb = BlockBuilder::new(self.block_size);
        core::mem::swap(&mut self.block_builder, &mut bb);
        let block = bb.build();
        let encoded = block.encode();
        let mut fk: Vec<u8> = Vec::new();
        core::mem::swap(&mut self.first_key, &mut fk);
        let offset = self.data.len();
        let ghost c = old(self).data@;
        let ghost m = metas_view(old(self).meta@);
        let ghost ext = encoded@;
        let ghost fk_s = fk@;
        self.meta.push(BlockMeta { offset, first_key: fk });
        put_bytes(&mut self.data, encoded.as_slice());
        proof {
            let m2 = metas_view(self.meta@);
            let c2 = self.data@;
            let l2 = c2.len() as int;
            let pend = old(self).block_builder.pairs();
            lemma_block_round_trip(block);
            assert(decoded_data(ext) == block.data@);
            assert(decoded_offsets(ext) == block.offsets@);
            assert(decoded_entries(ext) =~= pend);
            assert(m2 =~= m.push((c.len() as int, fk_s)));
            assert(m2[0] == if m.len() == 0 {
                (c.len() as int, fk_s)
            } else {
                m[0]
            });
            assert(c2 == c + ext);
            assert(ext.len() <= 0xffff + 2 * 0xffff + 2);
            lemma_push_region(c, m, ext, fk_s, pend, old(self).pairs());
            assert(self.fin() == old(self).pairs());
            assert(self.pairs() =~= old(self).pairs());
        }
    }

    /// Finalizes the table: seals the pending block, appends the encoded
    /// meta region and its 4-byte offset, and wraps the image in a file.
    #[verifier::spinoff_prover]
    #[verifier::rlimit(100)]
    pub fn build(self, id: usize) -> (r: Result<SsTable, Error>)
        requires
            self.wf(),
            self.pairs().len() > 0,
            self.data@.len() + 0x40000 <= 0xffffffff,
        ensures
            r is Ok,
            r->Ok_0.wf(),
            r->Ok_0.id == id,
            r->Ok_0.table_entries() == self.pairs(),
            valid_table_wire(r->Ok_0.file.contents()),
            r->Ok_0.block_meta_offset as int == u32_of(
                r->Ok_0.file.contents()[r->Ok_0.file.contents().len() - 4],
                r->Ok_0.file.contents()[r->Ok_0.file.contents().len() - 3],
                r->Ok_0.file.contents()[r->Ok_0.file.contents().len() - 2],
                r->Ok_0.file.contents()[r->Ok_0.file.contents().len() - 1],
            ) as int,
            r->Ok_0.metas() == parse_metas(
                r->Ok_0.file.contents().subrange(
                    r->Ok_0.block_meta_offset as int,
                    r->Ok_0.file.contents().len() - 4,
                ),
            ),
            r->Ok_0.metas().len() > 0 && r->Ok_0.metas()[0].0 == 0,
    {
        let mut this = self;
        proof {
            if this.meta@.len() == 0 {
                assert(this.fin() =~= Seq::<(Seq<u8>, Seq<u8>)>::empty());
            } else {
                assert(this.block_builder.pairs().len() > 0);
            }
        }
        this.build_block();
        let ghost c = this.data@;
        let ghost mv = metas_view(this.meta@);
        let t = Self::finish(this.data, this.meta, id);
        proof {
            assert(t.table_entries() == entries_from(c, mv, c.len() as int, 0));
            assert(t.table_entries() == self.pairs());
        }
        Ok(t)
    }

    /// Appends the meta region and footer to the block image and wraps the
    /// result in a table.
    #[verifier::spinoff_prover]
    #[verifier::rlimit(100)]
    fn finish(data: Vec<u8>, meta: Vec<BlockMeta>, id: usize) -> (t: SsTable)
        requires
            regions_wf(data@, metas_view(meta@), data@.len() as int),
            meta@.len() >= 1,
            metas_view(meta@)[0].0 == 0,
            data@.len() <= 0xffffffff,
        ensures
            t.wf(),
            t.id == id,
            t.block_metas@ == meta@,
            t.table_entries() == entries_from(data@, metas_view(meta@), data@.len() as int, 0),
            valid_table_wire(t.file.contents()),
            t.block_meta_offset as int == u32_of(
                t.file.contents()[t.file.contents().len() - 4],
                t.file.contents()[t.file.contents().len() - 3],
                t.file.contents()[t.file.contents().len() - 2],
                t.file.contents()[t.file.contents().len() - 1],
            ) as int,
            t.metas() == parse_metas(
                t.file.contents().subrange(t.block_meta_offset as int, t.file.contents().len() - 4),
            ),
    {
        let meta_offset = data.len();
        let ghost c = data@;
        let ghost mv = metas_view(meta@);
        let mut buf = data;
        proof {
            lemma_meta_fields_bounded(c, mv, c.len() as int);
            assert forall|i: int| 0 <= i < meta@.len() implies (#[trigger] meta@[i]).offset
                <= 0xffffffff && meta@[i].first_key@.len() <= 0xffff by {
                assert(mv[i] == super::meta_view(meta@[i]));
            }
        }
        BlockMeta::encode_block_meta(&meta, &mut buf);
        let file = FileObject::create(buf);
        let t = SsTable { file, block_metas: meta, block_meta_offset: meta_offset, id };
        proof {
            let w = t.file.contents();
            assert(w =~= c + (metas_wire(mv) + be32(meta_offset as u32)));
            lemma_finish_table(c, mv, w, meta_offset as int);
            assert(t.metas() == mv);
            assert(t.table_entries() == entries_from(c, mv, c.len() as int, 0));
        }
        t
    }
}

/// The trailing four bytes of the finished image name the meta region,
/// which parses back to the recorded index.
#[verifier::spinoff_prover]
proof fn lemma_finish_footer(c: Seq<u8>, mv: Seq<(int, Seq<u8>)>, w: Seq<u8>, bmo: int)
    requires
        forall|i: int| 0 <= i < mv.len() ==> 0 <= (#[trigger] mv[i]).0 <= 0xffffffff,
        forall|i: int| 0 <= i < mv.len() ==> (#[trigger] mv[i]).1.len() <= 0xffff,
        bmo == c.len(),
        c.len() <= 0xffffffff,
        w == c + (metas_wire(mv) + be32(bmo as u32)),
    ensures
        w.len() >= bmo + 4,
        u32_of(w[w.len() - 4], w[w.len() - 3], w[w.len() - 2], w[w.len() - 1]) == bmo as u32,
        w.subrange(bmo, w.len() - 4) == metas_wire(mv),
        valid_metas_wire(w.subrange(bmo, w.len() - 4)),
        parse_metas(w.subrange(bmo, w.len() - 4)) == mv,
{
    crate::encoding::lemma_be32_roundtrip(bmo as u32);
    assert(w[w.len() - 4] == be32(bmo as u32)[0]);
    assert(w[w.len() - 3] == be32(bmo as u32)[1]);
    assert(w[w.len() - 2] == be32(bmo as u32)[2]);
    assert(w[w.len() - 1] == be32(bmo as u32)[3]);
    assert(w.subrange(bmo, w.len() - 4) =~= metas_wire(mv));
    lemma_metas_round_trip(mv);
}

/// The finished image: block regions, encoded metas, trailing meta offset.
/// It is a valid table wire whose entries are the finalized entries.
#[verifier::spinoff_prover]
#[verifier::rlimit(100)]
proof fn lemma_finish_table(c: Seq<u8>, mv: Seq<(int, Seq<u8>)>, w: Seq<u8>, bmo: int)
    requires
        regions_wf(c, mv, c.len() as int),
        mv.len() >= 1,
        mv[0].0 == 0,
        bmo == c.len(),
        c.len() <= 0xffffffff,
        w == c + (metas_wire(mv) + be32(bmo as u32)),
    ensures
        valid_table_wire(w),
        regions_wf(w, mv, bmo),
        entries_from(w, mv, bmo, 0) == entries_from(c, mv, c.len() as int, 0),
        parse_metas(w.subrange(bmo, w.len() - 4)) == mv,
        u32_of(w[w.len() - 4], w[w.len() - 3], w[w.len() - 2], w[w.len() - 1]) == bmo as u32,
        w.len() >= bmo + 4,
{
    let ext = metas_wire(mv) + be32(bmo as u32);
    lemma_meta_fields_bounded(c, mv, c.len() as int);
    lemma_regions_extend(c, mv, c.len() as int, ext, 0);
    lemma_finish_footer(c, mv, w, bmo);
    assert(valid_table_wire(w));
}

/// A pair whose key sorts above everything keeps the run sorted when
/// appended.
proof fn lemma_entries_sorted_push(es: Seq<(Seq<u8>, Seq<u8>)>, e: (Seq<u8>, Seq<u8>))
    requires
        entries_sorted(es),
        es.len() > 0 ==> lex_lt(es.last().0, e.0),
        e.0.len() > 0,
    ensures
        entries_sorted(es.push(e)),
{
    lemma_sorted_push(es, e.0);
    let p = es.push(e);
    assert forall|i: int, j: int| 0 <= i < j < p.len() implies lex_lt(
        (#[trigger] p[i]).0,
        (#[trigger] p[j]).0,
    ) by {
        if j < p.len() - 1 {
            assert(p[i] == es[i] && p[j] == es[j]);
        } else {
            assert(p[i] == es[i] && p[j] == e);
        }
    }
    assert forall|i: int| 0 <= i < p.len() implies ((#[trigger] p[i]).0).len() > 0 by {
        if i < p.len() - 1 {
            assert(p[i] == es[i]);
        }
    }
}

/// Pushing a new key above everything in a sorted run keeps it sorted.
proof fn lemma_sorted_push(es: Seq<(Seq<u8>, Seq<u8>)>, k: Seq<u8>)
    requires
        entries_sorted(es),
        es.len() > 0 ==> lex_lt(es.last().0, k),
    ensures
        forall|i: int| 0 <= i < es.len() ==> lex_lt((#[trigger] es[i]).0, k),
{
    assert forall|i: int| 0 <= i < es.len() implies lex_lt((#[trigger] es[i]).0, k) by {
        if i < es.len() - 1 {
            assert(lex_lt(es[i].0, es[es.len() - 1].0));
            lemma_lex_trans(es[i].0, es[es.len() - 1].0, k);
        }
    }
}

/// Every recorded offset fits four bytes and every recorded first key fits
/// its two-byte length field.
proof fn lemma_meta_fields_bounded(c: Seq<u8>, m: Seq<(int, Seq<u8>)>, l: int)
    requires
        regions_wf(c, m, l),
        l <= 0xffffffff,
    ensures
        forall|i: int| 0 <= i < m.len() ==> 0 <= (#[trigger] m[i]).0 <= 0xffffffff,
        forall|i: int| 0 <= i < m.len() ==> (#[trigger] m[i]).1.len() <= 0xffff,
{
    assert forall|i: int| 0 <= i < m.len() implies (#[trigger] m[i]).1.len() <= 0xffff by {
        let w = region_of(c, m, l, i);
        assert(valid_block_wire(w));
        assert(region_entries(c, m, l, i).len() > 0);
        let dd = decoded_data(w);
        let dofs = decoded_offsets(w);
        assert(block_wf(dd, dofs));
        assert(entry_in_bounds(dd, dofs[0] as int));
        assert(m[i].1 == region_entries(c, m, l, i)[0].0);
        assert(region_entries(c, m, l, i)[0].0 == entry_key(dd, dofs[0] as int));
        assert(entry_key(dd, dofs[0] as int).len() == entry_klen(dd, dofs[0] as int));
    }
}

/// Appending one encoded block and its index record extends the finalized
/// entries by exactly that block's pairs, preserving region well-formedness.
proof fn lemma_push_region(
    c: Seq<u8>,
    m: Seq<(int, Seq<u8>)>,
    ext: Seq<u8>,
    fk: Seq<u8>,
    pend: Seq<(Seq<u8>, Seq<u8>)>,
    all: Seq<(Seq<u8>, Seq<u8>)>,
)
    requires
        regions_wf(c, m, c.len() as int),
        valid_block_wire(ext),
        decoded_entries(ext) == pend,
        pend.len() > 0,
        fk == pend[0].0,
        all == entries_from(c, m, c.len() as int, 0) + pend,
        entries_sorted(all),
    ensures
        regions_wf(c + ext, m.push((c.len() as int, fk)), (c.len() + ext.len()) as int),
        entries_from(c + ext, m.push((c.len() as int, fk)), (c.len() + ext.len()) as int, 0) == all,
{
    let n = m.len() as int;
    let c2 = c + ext;
    let m2 = m.push((c.len() as int, fk));
    let l2 = (c.len() + ext.len()) as int;
    let l = c.len() as int;
    let fin = entries_from(c, m, l, 0);

    assert forall|i: int| 0 <= i < n implies super::region_end(m2, i, l2) == super::region_end(
        m,
        i,
        l,
    ) && #[trigger] region_of(c2, m2, l2, i) == region_of(c, m, l, i) by {
        assert(m2[i] == m[i]);
        if i + 1 < n {
            assert(m2[i + 1] == m[i + 1]);
        }
        assert(m[i].0 <= l);
        assert(super::region_end(m, i, l) <= l);
        assert(region_of(c2, m2, l2, i) =~= region_of(c, m, l, i));
    }
    assert(region_of(c2, m2, l2, n) =~= ext);
    assert(region_entries(c2, m2, l2, n) == pend);

    // every old block's key stands somewhere in `fin`, below the new keys
    assert forall|i: int, p: int|
        0 <= i < n && 0 <= p < region_entries(c, m, l, i).len() implies lex_lt(
            (#[trigger] region_entries(c, m, l, i)[p]).0,
            fk,
        ) by {
        lemma_entries_from_suffix(c, m, l, i);
        lemma_entries_from_suffix(c, m, l, i + 1);
        let pl = super::prefix_len(c, m, l, i);
        assert(entries_from(c, m, l, i) == region_entries(c, m, l, i) + entries_from(c, m, l, i + 1));
        assert(entries_from(c, m, l, i)[p] == region_entries(c, m, l, i)[p]);
        assert(entries_from(c, m, l, i) == fin.skip(pl));
        assert(fin[pl + p] == region_entries(c, m, l, i)[p]);
        assert(all[pl + p] == fin[pl + p]);
        assert(all[fin.len() as int] == pend[0]);
        assert(lex_lt(all[pl + p].0, all[fin.len() as int].0));
    }

    assert(regions_wf(c2, m2, l2)) by {
        assert forall|i: int| 0 <= i < n + 1 implies 0 <= (#[trigger] m2[i]).0 <= l2 by {
            if i < n {
                assert(m2[i] == m[i]);
            }
        }
        assert forall|i: int, j: int| 0 <= i < j < n + 1 implies (#[trigger] m2[i]).0 < (
        #[trigger] m2[j]).0 by {
            if j < n {
                assert(m2[i] == m[i] && m2[j] == m[j]);
            } else {
                assert(m2[i] == m[i]);
                assert(valid_block_wire(region_of(c, m, l, i)));
                assert(region_of(c, m, l, i).len() >= 2);
                assert(super::region_end(m, i, l) <= l);
            }
        }
        assert forall|i: int| 0 <= i < n + 1 implies valid_block_wire(
            #[trigger] region_of(c2, m2, l2, i),
        ) && (#[trigger] region_entries(c2, m2, l2, i)).len() > 0 && m2[i].1 == region_entries(
            c2,
            m2,
            l2,
            i,
        )[0].0 by {
            if i < n {
                assert(region_of(c2, m2, l2, i) == region_of(c, m, l, i));
                assert(m2[i] == m[i]);
            }
        }
        assert forall|i: int, p: int|
            0 <= i < n && 0 <= p < region_entries(c2, m2, l2, i).len() implies lex_lt(
            (#[trigger] region_entries(c2, m2, l2, i)[p]).0,
            m2[i + 1].1,
        ) by {
            assert(region_entries(c2, m2, l2, i) == region_entries(c, m, l, i));
            if i + 1 < n {
                assert(m2[i + 1] == m[i + 1]);
            } else {
                assert(m2[i + 1].1 == fk);
            }
        }
        assert forall|i: int, j: int| 0 <= i < j < n + 1 implies lex_lt(
            (#[trigger] m2[i]).1,
            (#[trigger] m2[j]).1,
        ) by {
            if j < n {
                assert(m2[i] == m[i] && m2[j] == m[j]);
            } else {
                assert(m2[i] == m[i]);
                assert(m[i].1 == region_entries(c, m, l, i)[0].0);
                assert(region_entries(c, m, l, i).len() > 0);
                assert(lex_lt(region_entries(c, m, l, i)[0].0, fk));
            }
        }
    }

    lemma_entries_push_rec(c, m, ext, fk, 0);
    assert(entries_from(c2, m2, l2, 0) == fin + decoded_entries(ext));
}

/// Recursion for `lemma_push_region`: the flattened entries gain the new
/// block's pairs at the end.
proof fn lemma_entries_push_rec(c: Seq<u8>, m: Seq<(int, Seq<u8>)>, ext: Seq<u8>, fk: Seq<u8>, b: int)
    requires
        regions_wf(c, m, c.len() as int),
        0 <= b <= m.len(),
        forall|i: int|
            0 <= i < m.len() ==> #[trigger] region_of(
                c + ext,
                m.push((c.len() as int, fk)),
                (c.len() + ext.len()) as int,
                i,
            ) == region_of(c, m, c.len() as int, i),
    ensures
        entries_from(c + ext, m.push((c.len() as int, fk)), (c.len() + ext.len()) as int, b)
            == entries_from(c, m, c.len() as int, b) + decoded_entries(ext),
    decreases m.len() - b,
{
    let c2 = c + ext;
    let m2 = m.push((c.len() as int, fk));
    let l2 = (c.len() + ext.len()) as int;
    let l = c.len() as int;
    if b == m.len() {
        assert(region_of(c2, m2, l2, b) =~= ext);
        assert(entries_from(c2, m2, l2, b + 1) =~= Seq::<(Seq<u8>, Seq<u8>)>::empty());
        assert(entries_from(c, m, l, b) =~= Seq::<(Seq<u8>, Seq<u8>)>::empty());
        assert(entries_from(c2, m2, l2, b) =~= entries_from(c, m, l, b) + decoded_entries(ext));
    } else {
        lemma_entries_push_rec(c, m, ext, fk, b + 1);
        assert(region_entries(c2, m2, l2, b) == region_entries(c, m, l, b));
        assert(entries_from(c2, m2, l2, b) =~= entries_from(c, m, l, b) + decoded_entries(ext));
    }
}

} // verus!
