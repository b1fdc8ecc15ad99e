//! The sorted-string table: a file-backed ordered sequence of blocks plus a
//! per-block index of file offset and first key.
//!
//! File layout: `block_1 || ... || block_n || encoded_block_metas ||
//! block_meta_offset(4B)`.  Each encoded meta is `offset(4B) ||
//! first_key_len(2B) || first_key`.  All integers big-endian.
use vstd::prelude::*;

pub mod builder;
pub mod iterator;

use std::sync::Arc;

use crate::block::{decoded_entries, valid_block_wire, Block};
use crate::encoding::{be16, be32, get_u16, get_u32, put_bytes, put_u16, put_u32, u16_of, u32_of, copy_range};
use crate::order::{key_eq, key_lt, lex_lt, lemma_lex_trans, lemma_lex_irrefl};
use crate::Error;

verus! {

/// Index record for one block: its byte offset in the file and a copy of
/// its first key.
#[derive(Clone, Debug, PartialEq, Eq)]
pub struct BlockMeta {
    /// Offset of this data block.
    pub offset: usize,
    /// The first key of the data block.
    pub first_key: Vec<u8>,
}

/// The mathematical content of a meta record: offset and first key.
pub open spec fn meta_view(m: BlockMeta) -> (int, Seq<u8>) {
    (m.offset as int, m.first_key@)
}

/// The mathematical content of a meta list.
pub open spec fn metas_view(ms: Seq<BlockMeta>) -> Seq<(int, Seq<u8>)> {
    Seq::new(ms.len(), |i: int| meta_view(ms[i]))
}

/// Encoded form of one meta record.
pub open spec fn meta_wire(m: (int, Seq<u8>)) -> Seq<u8> {
    be32(m.0 as u32) + be16(m.1.len() as u16) + m.1
}

/// Encoded form of a meta list: the records back to back.
pub open spec fn metas_wire(ms: Seq<(int, Seq<u8>)>) -> Seq<u8>
    decreases ms.len(),
{
    if ms.len() == 0 {
        Seq::empty()
    } else {
        meta_wire(ms[0]) + metas_wire(ms.drop_first())
    }
}

/// A byte string made of whole meta records.
pub open spec fn valid_metas_wire(w: Seq<u8>) -> bool
    decreases w.len(),
{
    if w.len() == 0 {
        true
    } else {
        &&& w.len() >= 6
        &&& w.len() >= 6 + u16_of(w[4], w[5]) as int
        &&& valid_metas_wire(w.skip(6 + u16_of(w[4], w[5]) as int))
    }
}

/// The meta records a decoder recovers from such a byte string.
pub open spec fn parse_metas(w: Seq<u8>) -> Seq<(int, Seq<u8>)>
    decreases w.len(),
{
    if w.len() < 6 {
        Seq::empty()
    } else {
        let kl = u16_of(w[4], w[5]) as int;
        if w.len() < 6 + kl {
            Seq::empty()
        } else {
            seq![(u32_of(w[0], w[1], w[2], w[3]) as int, w.subrange(6, 6 + kl))] + parse_metas(
                w.skip(6 + kl),
            )
        }
    }
}

/// Appending one encoded record extends the parse by one.
proof fn lemma_metas_wire_snoc(ms: Seq<(int, Seq<u8>)>, m: (int, Seq<u8>))
    ensures
        metas_wire(ms.push(m)) == metas_wire(ms) + meta_wire(m),
    decreases ms.len(),
{
    let p = ms.push(m);
    if ms.len() == 0 {
        assert(p[0] == m);
        assert(p.drop_first() =~= Seq::<(int, Seq<u8>)>::empty());
        assert(metas_wire(p.drop_first()) =~= Seq::<u8>::empty());
        assert(metas_wire(p) =~= meta_wire(p[0]) + metas_wire(p.drop_first()));
        assert(metas_wire(ms) =~= Seq::<u8>::empty());
        assert(metas_wire(ms.push(m)) =~= metas_wire(ms) + meta_wire(m));
    } else {
        assert(p[0] == ms[0]);
        assert(ms.push(m).drop_first() =~= ms.drop_first().push(m));
        lemma_metas_wire_snoc(ms.drop_first(), m);
        assert(metas_wire(ms.push(m)) =~= metas_wire(ms) + meta_wire(m));
    }
}

/// Round trip for the meta region: parsing the encoding of a meta list
/// gives the list back.
pub proof fn lemma_metas_round_trip(ms: Seq<(int, Seq<u8>)>)
    requires
        forall|i: int| 0 <= i < ms.len() ==> 0 <= (#[trigger] ms[i]).0 <= 0xffffffff,
        forall|i: int| 0 <= i < ms.len() ==> (#[trigger] ms[i]).1.len() <= 0xffff,
    ensures
        valid_metas_wire(metas_wire(ms)),
        parse_metas(metas_wire(ms)) == ms,
    decreases ms.len(),
{
    if ms.len() == 0 {
        assert(parse_metas(metas_wire(ms)) =~= ms);
    } else {
        let m = ms[0];
        let w = metas_wire(ms);
        let kl = m.1.len() as int;
        crate::encoding::lemma_be32_roundtrip(m.0 as u32);
        crate::encoding::lemma_be16_roundtrip(kl as u16);
        assert(w[0] == be32(m.0 as u32)[0]);
        assert(w[1] == be32(m.0 as u32)[1]);
        assert(w[2] == be32(m.0 as u32)[2]);
        assert(w[3] == be32(m.0 as u32)[3]);
        assert(w[4] == be16(kl as u16)[0]);
        assert(w[5] == be16(kl as u16)[1]);
        assert(u16_of(w[4], w[5]) as int == kl);
        assert(u32_of(w[0], w[1], w[2], w[3]) as int == m.0);
        assert(w.subrange(6, 6 + kl) =~= m.1);
        assert(w.skip(6 + kl) =~= metas_wire(ms.drop_first()));
        assert forall|i: int| 0 <= i < ms.drop_first().len() implies 0 <= (#[trigger] ms.drop_first()[
            i
        ]).0 <= 0xffffffff && ms.drop_first()[i].1.len() <= 0xffff by {
            assert(ms.drop_first()[i] == ms[i + 1]);
        }
        lemma_metas_round_trip(ms.drop_first());
        assert(parse_metas(w) =~= ms);
    }
}

impl BlockMeta {
    /// Appends the encoded meta region for `block_meta` to `buf`, followed
    /// by the 4-byte offset at which the region begins (the length `buf`
    /// had on entry).
    pub fn encode_block_meta(block_meta: &Vec<BlockMeta>, buf: &mut Vec<u8>)
        requires
            old(buf)@.len() <= 0xffffffff,
            forall|i: int| 0 <= i < block_meta@.len() ==> (#[trigger] block_meta@[i]).offset <= 0xffffffff,
            forall|i: int| 0 <= i < block_meta@.len() ==> (#[trigger] block_meta@[i]).first_key@.len() <= 0xffff,
        ensures
            final(buf)@ == old(buf)@ + metas_wire(metas_view(block_meta@)) + be32(
                old(buf)@.len() as u32,
            ),
    {
        let ori_len = buf.len();
        let n = block_meta.len();
        let mut i: usize = 0;
        proof {
            assert(metas_wire(metas_view(block_meta@).take(0)) =~= Seq::<u8>::empty());
            assert(buf@ =~= old(buf)@ + metas_wire(metas_view(block_meta@).take(0)));
        }
        while i < n
            invariant
                0 <= i <= n,
                n == block_meta@.len(),
                forall|k: int| 0 <= k < block_meta@.len() ==> (#[trigger] block_meta@[k]).offset <= 0xffffffff,
                forall|k: int| 0 <= k < block_meta@.len() ==> (#[trigger] block_meta@[k]).first_key@.len() <= 0xffff,
                buf@ == old(buf)@ + metas_wire(metas_view(block_meta@).take(i as int)),
            decreases n - i,
        {
            let meta = &block_meta[i];
            put_u32(buf, meta.offset as u32);
            put_u16(buf, meta.first_key.len() as u16);
            put_bytes(buf, meta.first_key.as_slice());
            proof {
                let mv = metas_view(block_meta@);
                assert(mv.take(i + 1) =~= mv.take(i as int).push(mv[i as int]));
                lemma_metas_wire_snoc(mv.take(i as int), mv[i as int]);
                assert(buf@ =~= old(buf)@ + metas_wire(mv.take(i + 1)));
            }
            i += 1;
        }
        proof {
            assert(metas_view(block_meta@).take(n as int) =~= metas_view(block_meta@));
        }
        put_u32(buf, ori_len as u32);
    }

    /// Decodes a meta region.  Assumes a region made of whole records; the
    /// behaviour on corrupt bytes is out of contract.
    pub fn decode_block_meta(buf: &[u8]) -> (r: Vec<BlockMeta>)
        requires
            valid_metas_wire(buf@),
        ensures
            metas_view(r@) == parse_metas(buf@),
    {
        let mut metas: Vec<BlockMeta> = Vec::new();
        let n = buf.len();
        let mut pos: usize = 0;
        proof {
            assert(buf@.skip(0) =~= buf@);
        }
        while pos < n
            invariant
                0 <= pos <= n,
                n == buf@.len(),
                valid_metas_wire(buf@.skip(pos as int)),
                parse_metas(buf@) == metas_view(metas@) + parse_metas(buf@.skip(pos as int)),
            decreases n - pos,
        {
            proof {
                let rest = buf@.skip(pos as int);
                assert(rest.len() >= 6);
                assert(rest[0] == buf@[pos as int]);
                assert(rest[1] == buf@[pos + 1]);
                assert(rest[2] == buf@[pos + 2]);
                assert(rest[3] == buf@[pos + 3]);
                assert(rest[4] == buf@[pos + 4]);
                assert(rest[5] == buf@[pos + 5]);
                assert(rest.len() >= 6 + u16_of(rest[4], rest[5]) as int);
            }
            let offset = get_u32(buf, pos) as usize;
            let key_len = get_u16(buf, pos + 4) as usize;
            let first_key = copy_range(buf, pos + 6, pos + 6 + key_len);
            let ghost old_metas = metas@;
            metas.push(BlockMeta { offset, first_key });
            proof {
                let rest = buf@.skip(pos as int);
                assert(rest.subrange(6, 6 + key_len as int) =~= buf@.subrange(
                    pos + 6,
                    pos + 6 + key_len as int,
                ));
                assert(rest.skip(6 + key_len as int) =~= buf@.skip(pos + 6 + key_len as int));
                assert(parse_metas(rest) == seq![(offset as int, first_key@)] + parse_metas(
                    buf@.skip(pos + 6 + key_len as int),
                ));
                assert(metas_view(metas@) =~= metas_view(old_metas).push((offset as int, first_key@)));
                assert(metas_view(metas@) + parse_metas(buf@.skip(pos + 6 + key_len as int))
                    =~= metas_view(old_metas) + parse_metas(rest));
            }
            pos = pos + 6 + key_len;
        }
        proof {
            assert(buf@.skip(n as int) =~= Seq::<u8>::empty());
            assert(parse_metas(buf@) =~= metas_view(metas@));
        }
        metas
    }
}

/// Positioned-read abstraction: the byte contents of a backing file and its
/// fixed length.  The surrounding application performs the path-based
/// operations and hands the bytes over.
pub struct FileObject {
    /// The file's bytes.
    pub data: Vec<u8>,
}

impl FileObject {
    /// The bytes this file holds.
    pub open spec fn contents(&self) -> Seq<u8> {
        self.data@
    }

    /// Wraps fully materialized file contents.
    pub fn create(data: Vec<u8>) -> (r: Self)
        ensures
            r.contents() == data@,
    {
        FileObject { data }
    }

    /// Positioned read of `len` bytes at `offset`; fails exactly when the
    /// range leaves the file.
    pub fn read(&self, offset: u64, len: u64) -> (r: Result<Vec<u8>, Error>)
        ensures
            (r is Ok) == (offset + len <= self.contents().len()),
            r is Ok ==> r->Ok_0@ == self.contents().subrange(
                offset as int,
                offset as int + len as int,
            ),
            r is Err ==> r->Err_0 == Error::Io,
    {
        let size = self.data.len() as u64;
        if offset > size || len > size - offset {
            return Err(Error::Io);
        }
        Ok(copy_range(self.data.as_slice(), offset as usize, (offset + len) as usize))
    }

    /// Total length, fixed at construction.
    pub fn size(&self) -> (n: u64)
        ensures
            n == self.contents().len(),
    {
        self.data.len() as u64
    }
}

/// End of the byte region of block `i`: the next block's offset, or the
/// start of the meta region for the last block.
pub open spec fn region_end(metas: Seq<(int, Seq<u8>)>, i: int, limit: int) -> int {
    if i + 1 < metas.len() {
        metas[i + 1].0
    } else {
        limit
    }
}

/// The byte region of block `i`.
pub open spec fn region_of(contents: Seq<u8>, metas: Seq<(int, Seq<u8>)>, limit: int, i: int) -> Seq<
    u8,
> {
    contents.subrange(metas[i].0, region_end(metas, i, limit))
}

/// The entries of block `i`.
pub open spec fn region_entries(
    contents: Seq<u8>,
    metas: Seq<(int, Seq<u8>)>,
    limit: int,
    i: int,
) -> Seq<(Seq<u8>, Seq<u8>)> {
    decoded_entries(region_of(contents, metas, limit, i))
}

/// The block regions of a table image are well formed: offsets ascend, each
/// region is a valid non-empty block, each recorded first key is that
/// block's first key, keys ascend across consecutive blocks, and first keys
/// ascend across all blocks.
pub open spec fn regions_wf(contents: Seq<u8>, metas: Seq<(int, Seq<u8>)>, limit: int) -> bool {
    let n = metas.len() as int;
    &&& 0 <= limit <= contents.len()
    &&& forall|i: int| 0 <= i < n ==> 0 <= (#[trigger] metas[i]).0 <= limit
    &&& forall|i: int, j: int| 0 <= i < j < n ==> (#[trigger] metas[i]).0 < (#[trigger] metas[j]).0
    &&& forall|i: int| 0 <= i < n ==> valid_block_wire(#[trigger] region_of(contents, metas, limit, i))
    &&& forall|i: int| 0 <= i < n ==> (#[trigger] region_entries(contents, metas, limit, i)).len() > 0
    &&& forall|i: int|
        0 <= i < n ==> (#[trigger] metas[i]).1 == region_entries(contents, metas, limit, i)[0].0
    &&& forall|i: int, p: int|
        0 <= i < n - 1 && 0 <= p < region_entries(contents, metas, limit, i).len() ==> lex_lt(
            (#[trigger] region_entries(contents, metas, limit, i)[p]).0,
            metas[i + 1].1,
        )
    &&& forall|i: int, j: int| 0 <= i < j < n ==> lex_lt((#[trigger] metas[i]).1, (#[trigger] metas[j]).1)
}

/// All entries of blocks `b` onward, in block order.
pub open spec fn entries_from(
    contents: Seq<u8>,
    metas: Seq<(int, Seq<u8>)>,
    limit: int,
    b: int,
) -> Seq<(Seq<u8>, Seq<u8>)>
    decreases metas.len() - b,
{
    if b < 0 || b >= metas.len() {
        Seq::empty()
    } else {
        region_entries(contents, metas, limit, b) + entries_from(contents, metas, limit, b + 1)
    }
}

/// Entries of blocks before `b`, counted.
pub open spec fn prefix_len(contents: Seq<u8>, metas: Seq<(int, Seq<u8>)>, limit: int, b: int) -> int {
    entries_from(contents, metas, limit, 0).len() - entries_from(contents, metas, limit, b).len()
}

/// The entries from block `b` on are a suffix of all entries.
pub proof fn lemma_entries_from_suffix(contents: Seq<u8>, metas: Seq<(int, Seq<u8>)>, limit: int, b: int)
    requires
        0 <= b <= metas.len(),
    ensures
        0 <= prefix_len(contents, metas, limit, b) <= entries_from(contents, metas, limit, 0).len(),
        entries_from(contents, metas, limit, b) == entries_from(contents, metas, limit, 0).skip(
            prefix_len(contents, metas, limit, b),
        ),
        b < metas.len() ==> prefix_len(contents, metas, limit, b + 1) == prefix_len(
            contents,
            metas,
            limit,
            b,
        ) + region_entries(contents, metas, limit, b).len(),
    decreases b,
{
    let whole = entries_from(contents, metas, limit, 0);
    if b == 0 {
        assert(whole.skip(0) =~= whole);
    } else {
        lemma_entries_from_suffix(contents, metas, limit, b - 1);
        let pl = prefix_len(contents, metas, limit, b - 1);
        let reg = region_entries(contents, metas, limit, b - 1);
        assert(entries_from(contents, metas, limit, b - 1) == reg + entries_from(
            contents,
            metas,
            limit,
            b,
        ));
        assert(whole.skip(pl) == reg + entries_from(contents, metas, limit, b));
        assert((reg + entries_from(contents, metas, limit, b)).skip(reg.len() as int)
            =~= entries_from(contents, metas, limit, b));
        assert(whole.skip(pl).skip(reg.len() as int) =~= whole.skip(pl + reg.len() as int));
    }
}

/// All entries of a well-formed table image ascend strictly, with non-empty
/// keys, and every entry of blocks `b` onward carries a key at or above
/// block `b`'s first key.
pub proof fn lemma_table_entries_sorted(contents: Seq<u8>, metas: Seq<(int, Seq<u8>)>, limit: int, b: int)
    requires
        regions_wf(contents, metas, limit),
        0 <= b <= metas.len(),
    ensures
        crate::iterators::entries_sorted(entries_from(contents, metas, limit, b)),
        b < metas.len() ==> forall|p: int|
            0 <= p < entries_from(contents, metas, limit, b).len() ==> crate::order::lex_le(
                metas[b].1,
                (#[trigger] entries_from(contents, metas, limit, b)[p]).0,
            ),
    decreases metas.len() - b,
{
    let n = metas.len() as int;
    if b == n {
    } else {
        lemma_table_entries_sorted(contents, metas, limit, b + 1);
        let reg = region_entries(contents, metas, limit, b);
        let rest = entries_from(contents, metas, limit, b + 1);
        let es = entries_from(contents, metas, limit, b);
        assert(es == reg + rest);
        crate::block::lemma_decoded_entries_sorted(region_of(contents, metas, limit, b));
        assert forall|i: int, j: int| 0 <= i < j < es.len() implies lex_lt(
            (#[trigger] es[i]).0,
            (#[trigger] es[j]).0,
        ) by {
            if j < reg.len() {
                assert(es[i] == reg[i] && es[j] == reg[j]);
            } else if i >= reg.len() {
                assert(es[i] == rest[i - reg.len()] && es[j] == rest[j - reg.len()]);
            } else {
                assert(es[i] == reg[i] && es[j] == rest[j - reg.len()]);
                assert(lex_lt(reg[i].0, metas[b + 1].1));
                assert(crate::order::lex_le(metas[b + 1].1, rest[j - reg.len()].0));
                if metas[b + 1].1 != rest[j - reg.len()].0 {
                    lemma_lex_trans(reg[i].0, metas[b + 1].1, rest[j - reg.len()].0);
                }
            }
        }
        assert forall|i: int| 0 <= i < es.len() implies ((#[trigger] es[i]).0).len() > 0 by {
            if i < reg.len() {
                assert(es[i] == reg[i]);
            } else {
                assert(es[i] == rest[i - reg.len()]);
            }
        }
        assert forall|p: int| 0 <= p < es.len() implies crate::order::lex_le(
            metas[b].1,
            (#[trigger] es[p]).0,
        ) by {
            if p < reg.len() {
                assert(es[p] == reg[p]);
                if p > 0 {
                    assert(lex_lt(reg[0].0, reg[p].0));
                }
            } else {
                assert(es[p] == rest[p - reg.len()]);
                assert(crate::order::lex_le(metas[b + 1].1, rest[p - reg.len()].0));
                if b + 1 < n {
                    assert(lex_lt(metas[b].1, metas[b + 1].1));
                    if metas[b + 1].1 != rest[p - reg.len()].0 {
                        lemma_lex_trans(metas[b].1, metas[b + 1].1, rest[p - reg.len()].0);
                    }
                }
            }
        }
    }
}

/// Bytes appended past `limit` change neither the regions nor their
/// entries.
pub proof fn lemma_regions_extend(contents: Seq<u8>, metas: Seq<(int, Seq<u8>)>, limit: int, ext: Seq<u8>, b: int)
    requires
        regions_wf(contents, metas, limit),
        0 <= b <= metas.len(),
    ensures
        forall|i: int|
            0 <= i < metas.len() ==> #[trigger] region_of(contents + ext, metas, limit, i)
                == region_of(contents, metas, limit, i),
        regions_wf(contents + ext, metas, limit),
        entries_from(contents + ext, metas, limit, b) == entries_from(contents, metas, limit, b),
    decreases metas.len() - b,
{
    assert forall|i: int| 0 <= i < metas.len() implies #[trigger] region_of(
        contents + ext,
        metas,
        limit,
        i,
    ) == region_of(contents, metas, limit, i) by {
        assert(region_of(contents + ext, metas, limit, i) =~= region_of(contents, metas, limit, i));
    }
    if b < metas.len() {
        lemma_regions_extend(contents, metas, limit, ext, b + 1);
        assert(entries_from(contents + ext, metas, limit, b) == entries_from(
            contents,
            metas,
            limit,
            b,
        ));
    }
}

/// An immutable, file-backed, sorted collection of blocks plus its index.
pub struct SsTable {
    /// The backing file.
    pub file: FileObject,
    /// Per-block index, ascending by offset and by first key.
    pub block_metas: Vec<BlockMeta>,
    /// Byte offset at which the encoded meta region begins.
    pub block_meta_offset: usize,
    /// Numeric table id.
    pub id: usize,
}

/// A table image: block regions, then the encoded metas, then the 4-byte
/// meta offset, consistent and well formed.
pub open spec fn valid_table_wire(w: Seq<u8>) -> bool {
    let bmo = u32_of(w[w.len() - 4], w[w.len() - 3], w[w.len() - 2], w[w.len() - 1]) as int;
    &&& w.len() >= 4
    &&& bmo + 4 <= w.len()
    &&& valid_metas_wire(w.subrange(bmo, w.len() - 4))
    &&& parse_metas(w.subrange(bmo, w.len() - 4)).len() >= 1
    &&& parse_metas(w.subrange(bmo, w.len() - 4))[0].0 == 0
    &&& regions_wf(w, parse_metas(w.subrange(bmo, w.len() - 4)), bmo)
}

impl SsTable {
    /// The index as plain values.
    pub open spec fn metas(&self) -> Seq<(int, Seq<u8>)> {
        metas_view(self.block_metas@)
    }

    pub open spec fn wf(&self) -> bool {
        &&& self.block_metas@.len() >= 1
        &&& regions_wf(self.file.contents(), self.metas(), self.block_meta_offset as int)
    }

    /// Number of blocks.
    pub open spec fn num_blocks(&self) -> int {
        self.block_metas@.len() as int
    }

    /// Entries of block `i`.
    pub open spec fn block_entries(&self, i: int) -> Seq<(Seq<u8>, Seq<u8>)> {
        region_entries(self.file.contents(), self.metas(), self.block_meta_offset as int, i)
    }

    /// All entries of the table, in key order.
    pub open spec fn table_entries(&self) -> Seq<(Seq<u8>, Seq<u8>)> {
        entries_from(self.file.contents(), self.metas(), self.block_meta_offset as int, 0)
    }

    /// Opens a table from a file image: reads the trailing meta offset,
    /// decodes the meta region, and keeps only the index in memory.
    /// Assumes a well-formed image; corrupt bytes are out of contract.
    #[verifier::spinoff_prover]
    #[verifier::rlimit(100)]
    pub fn open(id: usize, file: FileObject) -> (r: Result<Self, Error>)
        requires
            valid_table_wire(file.contents()),
        ensures
            r is Ok,
            r->Ok_0.wf(),
            r->Ok_0.id == id,
            r->Ok_0.file == file,
            r->Ok_0.metas() == parse_metas(
                file.contents().subrange(
                    r->Ok_0.block_meta_offset as int,
                    file.contents().len() - 4,
                ),
            ),
            r->Ok_0.block_meta_offset as int == u32_of(
                file.contents()[file.contents().len() - 4],
                file.contents()[file.contents().len() - 3],
                file.contents()[file.contents().len() - 2],
                file.contents()[file.contents().len() - 1],
            ) as int,
    {
        let n = file.size();
        let raw_off = file.read(n - 4, 4)?;
        let block_meta_offset = get_u32(raw_off.as_slice(), 0) as usize;
        proof {
            assert(file.contents().subrange(n - 4, n as int) =~= raw_off@);
        }
        let raw_metas = file.read(block_meta_offset as u64, n - block_meta_offset as u64 - 4)?;
        let block_metas = BlockMeta::decode_block_meta(raw_metas.as_slice());
        Ok(SsTable { file, block_metas, block_meta_offset, id })
    }

    /// Reads and decodes one block: one positioned read of the byte range
    /// between this block's offset and the next block's (or the meta
    /// region), then a decode into an owned, shared block.
    pub fn read_block(&self, block_idx: usize) -> (r: Result<Arc<Block>, Error>)
        requires
            self.wf(),
            block_idx < self.num_blocks(),
        ensures
            r is Ok,
            r->Ok_0.wf(),
            r->Ok_0.entries() == self.block_entries(block_idx as int),
            r->Ok_0.data@ == crate::block::decoded_data(
                region_of(self.file.contents(), self.metas(), self.block_meta_offset as int, block_idx as int),
            ),
            r->Ok_0.offsets@ == crate::block::decoded_offsets(
                region_of(self.file.contents(), self.metas(), self.block_meta_offset as int, block_idx as int),
            ),
    {
        let n = self.block_metas.len();
        let offset = self.block_metas[block_idx].offset;
        proof {
            assert(self.metas()[block_idx as int].0 == offset as int);
            if block_idx + 1 < n {
                assert(self.metas()[block_idx as int].0 < self.metas()[block_idx + 1].0);
                assert(self.metas()[block_idx + 1].0 <= self.block_meta_offset as int);
            } else {
                assert(self.metas()[block_idx as int].0 <= self.block_meta_offset as int);
            }
        }
        let offset_end = if block_idx + 1 < n {
            self.block_metas[block_idx + 1].offset
        } else {
            self.block_meta_offset
        };
        let block_data = self.file.read(offset as u64, (offset_end - offset) as u64)?;
        proof {
            assert(block_data@ =~= region_of(
                self.file.contents(),
                self.metas(),
                self.block_meta_offset as int,
                block_idx as int,
            ));
        }
        Ok(Arc::new(Block::decode(block_data.as_slice())))
    }

    /// Reads one block through the (external) cache layer.  With no cache
    /// configured the read goes straight to the file.
    pub fn read_block_cached(&self, block_idx: usize) -> (r: Result<Arc<Block>, Error>)
        requires
            self.wf(),
            block_idx < self.num_blocks(),
        ensures
            r is Ok,
            r->Ok_0.wf(),
            r->Ok_0.entries() == self.block_entries(block_idx as int),
    {
        self.read_block(block_idx)
    }

    /// Predecessor search: the rightmost block whose first key is `<= key`,
    /// or block 0 when `key` sorts before every first key.  The key may
    /// still be absent; callers check through the returned iterator.
    pub fn find_block_idx(&self, key: &[u8]) -> (r: usize)
        requires
            self.wf(),
        ensures
            r < self.num_blocks(),
            (exists|i: int| 0 <= i < self.num_blocks() && !lex_lt(key@, (#[trigger] self.metas()[i]).1))
                ==> {
                &&& !lex_lt(key@, self.metas()[r as int].1)
                &&& forall|j: int| r < j < self.num_blocks() ==> lex_lt(key@, (#[trigger] self.metas()[j]).1)
            },
            !(exists|i: int|
                0 <= i < self.num_blocks() && !lex_lt(key@, (#[trigger] self.metas()[i]).1)) ==> r == 0,
    {
        let n = self.block_metas.len();
        let mut left: usize = 0;
        let mut right: usize = n;
        while left < right
            invariant
                0 <= left <= right <= n,
                n == self.metas().len(),
                forall|i: int, j: int|
                    0 <= i < j < n ==> lex_lt((#[trigger] self.metas()[i]).1, (#[trigger] self.metas()[j]).1),
                forall|i: int| 0 <= i < left ==> !lex_lt(key@, (#[trigger] self.metas()[i]).1),
                forall|i: int| right <= i < n ==> lex_lt(key@, (#[trigger] self.metas()[i]).1),
            decreases right - left,
        {
            let mid = left + (right - left) / 2;
            let curr_key = self.block_metas[mid].first_key.as_slice();
            if key_eq(curr_key, key) {
                proof {
                    lemma_lex_irrefl(key@);
                    assert(self.metas()[mid as int].1 == key@);
                    assert forall|j: int| mid < j < n implies lex_lt(
                        key@,
                        (#[trigger] self.metas()[j]).1,
                    ) by {
                        assert(lex_lt(self.metas()[mid as int].1, self.metas()[j].1));
                    }
                }
                return mid;
            }
            if key_lt(curr_key, key) {
                proof {
                    assert forall|i: int| 0 <= i < mid + 1 implies !lex_lt(
                        key@,
                        (#[trigger] self.metas()[i]).1,
                    ) by {
                        crate::order::lemma_lex_trichotomy(self.metas()[mid as int].1, key@);
                        if i < mid {
                            assert(lex_lt(self.metas()[i].1, self.metas()[mid as int].1));
                            if lex_lt(key@, self.metas()[i].1) {
                                lemma_lex_trans(key@, self.metas()[i].1, self.metas()[mid as int].1);
                            }
                        } else {
                            if lex_lt(key@, self.metas()[mid as int].1) {
                                lemma_lex_trans(key@, self.metas()[mid as int].1, key@);
                                lemma_lex_irrefl(key@);
                            }
                        }
                    }
                }
                left = mid + 1;
            } else {
                proof {
                    crate::order::lemma_lex_trichotomy(self.metas()[mid as int].1, key@);
                    assert forall|i: int| mid <= i < n implies lex_lt(
                        key@,
                        (#[trigger] self.metas()[i]).1,
                    ) by {
                        if i > mid {
                            assert(lex_lt(self.metas()[mid as int].1, self.metas()[i].1));
                            lemma_lex_trans(key@, self.metas()[mid as int].1, self.metas()[i].1);
                        }
                    }
                }
                right = mid;
            }
        }
        if left == 0 {
            0
        } else {
            left - 1
        }
    }

    /// Number of data blocks.
    pub fn num_of_blocks(&self) -> (r: usize)
        ensures
            r == self.num_blocks(),
    {
        self.block_metas.len()
    }
}

} // verus!
