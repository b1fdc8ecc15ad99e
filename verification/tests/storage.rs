use mini_lsm::block::builder::BlockBuilder;
use mini_lsm::block::iterator::BlockIterator;
use mini_lsm::block::Block;
use mini_lsm::iterators::merge_iterator::MergeIterator;
use mini_lsm::iterators::two_merge_iterator::TwoMergeIterator;
use mini_lsm::iterators::StorageIterator;
use mini_lsm::table::builder::SsTableBuilder;
use mini_lsm::table::iterator::SsTableIterator;
use mini_lsm::table::{FileObject, SsTable};
use mini_lsm::Error;
use std::sync::Arc;

fn build_block(pairs: &[(&[u8], &[u8])], block_size: usize) -> Block {
    let mut b = BlockBuilder::new(block_size);
    for (k, v) in pairs {
        assert!(b.add(k, v));
    }
    b.build()
}

fn build_table(pairs: &[(&[u8], &[u8])], block_size: usize, id: usize) -> SsTable {
    let mut b = SsTableBuilder::new(block_size);
    for (k, v) in pairs {
        b.add(k, v);
    }
    b.build(id).unwrap()
}

fn scan(table: SsTable) -> Vec<(Vec<u8>, Vec<u8>)> {
    let mut it = SsTableIterator::create_and_seek_to_first(Arc::new(table)).unwrap();
    let mut out = Vec::new();
    while it.is_valid() {
        out.push((it.key().to_vec(), it.value().to_vec()));
        it.next().unwrap();
    }
    out
}

#[test]
fn block_encode_exact_bytes() {
    let block = build_block(&[(b"ab", b"c")], 64);
    let wire = block.encode();
    // key_len=2, "ab", value_len=1, "c", offset 0, count 1
    assert_eq!(
        wire,
        vec![0x00, 0x02, b'a', b'b', 0x00, 0x01, b'c', 0x00, 0x00, 0x00, 0x01]
    );
}

#[test]
fn block_round_trip() {
    let pairs: Vec<(Vec<u8>, Vec<u8>)> = vec![
        (b"apple".to_vec(), b"1".to_vec()),
        (b"banana".to_vec(), b"22".to_vec()),
        (b"cherry".to_vec(), vec![]),
        (b"date".to_vec(), b"4444".to_vec()),
    ];
    let mut b = BlockBuilder::new(4096);
    for (k, v) in &pairs {
        assert!(b.add(k, v));
    }
    let block = b.build();
    let wire = block.encode();
    let decoded = Block::decode(&wire);
    let mut it = BlockIterator::create_and_seek_to_first(Arc::new(decoded));
    let mut got: Vec<(Vec<u8>, Vec<u8>)> = Vec::new();
    while it.is_valid() {
        got.push((it.key().to_vec(), it.value().to_vec()));
        it.next();
    }
    assert_eq!(got, pairs);
}

#[test]
fn block_seek_lower_bound() {
    let block = Arc::new(build_block(&[(b"b", b"1"), (b"d", b"2"), (b"f", b"3")], 256));
    let it = BlockIterator::create_and_seek_to_key(block.clone(), b"d");
    assert!(it.is_valid());
    assert_eq!(it.key(), b"d");
    let it = BlockIterator::create_and_seek_to_key(block.clone(), b"c");
    assert!(it.is_valid());
    assert_eq!(it.key(), b"d");
    let it = BlockIterator::create_and_seek_to_key(block.clone(), b"a");
    assert!(it.is_valid());
    assert_eq!(it.key(), b"b");
    let it = BlockIterator::create_and_seek_to_key(block.clone(), b"g");
    assert!(!it.is_valid());
}

#[test]
fn builder_all_or_nothing() {
    // budget 16: one entry of 9 bytes fits (9 + 2 < 16), a second does not
    let mut b = BlockBuilder::new(16);
    assert!(b.add(b"aa", b"xyz"));
    let data_len = b.data.len();
    let count = b.num_of_elements;
    assert!(!b.add(b"bb", b"uvw"));
    assert_eq!(b.data.len(), data_len);
    assert_eq!(b.num_of_elements, count);
    assert!(!b.is_empty());
}

#[test]
fn builder_rejects_when_full() {
    let mut b = BlockBuilder::new(12);
    // entry is 4 + 1 + 3 = 8 bytes; 8 + 2 < 12 holds, so it fits
    assert!(b.add(b"a", b"123"));
    // the next identical-size entry would need 16 + 2 >= 12
    assert!(!b.add(b"b", b"456"));
    let block = b.build();
    assert_eq!(block.offsets.len(), 1);
}

#[test]
fn table_full_scan_multiple_blocks() {
    let mut pairs: Vec<(Vec<u8>, Vec<u8>)> = Vec::new();
    for i in 0..50u8 {
        pairs.push((vec![b'k', b'0' + i / 10, b'0' + i % 10], vec![i]));
    }
    let mut b = SsTableBuilder::new(48);
    for (k, v) in &pairs {
        b.add(k, v);
    }
    let table = b.build(7).unwrap();
    assert!(table.num_of_blocks() > 1);
    let got = scan(table);
    assert_eq!(got, pairs);
}

#[test]
fn table_open_round_trip() {
    let table = build_table(&[(b"k1", b"v1"), (b"k2", b"v2"), (b"k3", b"v3")], 32, 3);
    let bytes = table.file.data.clone();
    let reopened = SsTable::open(3, FileObject::create(bytes)).unwrap();
    assert_eq!(reopened.num_of_blocks(), table.num_of_blocks());
    let got = scan(reopened);
    assert_eq!(
        got,
        vec![
            (b"k1".to_vec(), b"v1".to_vec()),
            (b"k2".to_vec(), b"v2".to_vec()),
            (b"k3".to_vec(), b"v3".to_vec()),
        ]
    );
}

#[test]
fn find_block_idx_predecessor() {
    // small budget: one pair per block
    let table = build_table(&[(b"b", b"1"), (b"d", b"2"), (b"f", b"3")], 9, 0);
    assert_eq!(table.num_of_blocks(), 3);
    assert_eq!(table.find_block_idx(b"a"), 0);
    assert_eq!(table.find_block_idx(b"b"), 0);
    assert_eq!(table.find_block_idx(b"c"), 0);
    assert_eq!(table.find_block_idx(b"d"), 1);
    assert_eq!(table.find_block_idx(b"e"), 1);
    assert_eq!(table.find_block_idx(b"f"), 2);
    assert_eq!(table.find_block_idx(b"z"), 2);
}

#[test]
fn table_seek_to_key() {
    let table = Arc::new(build_table(&[(b"b", b"1"), (b"d", b"2"), (b"f", b"3")], 9, 0));
    let it = SsTableIterator::create_and_seek_to_key(table.clone(), b"c").unwrap();
    assert!(it.is_valid());
    assert_eq!(it.key(), b"d");
    let it = SsTableIterator::create_and_seek_to_key(table.clone(), b"f").unwrap();
    assert!(it.is_valid());
    assert_eq!(it.key(), b"f");
    let it = SsTableIterator::create_and_seek_to_key(table.clone(), b"g").unwrap();
    assert!(!it.is_valid());
}

#[test]
fn merge_newest_wins() {
    let t0 = Arc::new(build_table(&[(b"a", b"1")], 64, 0));
    let t1 = Arc::new(build_table(&[(b"a", b"2")], 64, 1));
    let i0 = SsTableIterator::create_and_seek_to_first(t0).unwrap();
    let i1 = SsTableIterator::create_and_seek_to_first(t1).unwrap();
    let mut m = MergeIterator::create(vec![Box::new(i0), Box::new(i1)]);
    assert!(m.is_valid());
    assert_eq!(m.key(), b"a");
    assert_eq!(m.value(), b"1");
    m.next().unwrap();
    assert!(!m.is_valid());
}

#[test]
fn merge_interleaves_sorted() {
    let t0 = Arc::new(build_table(&[(b"a", b"0a"), (b"c", b"0c")], 64, 0));
    let t1 = Arc::new(build_table(&[(b"b", b"1b"), (b"c", b"1c"), (b"d", b"1d")], 64, 1));
    let i0 = SsTableIterator::create_and_seek_to_first(t0).unwrap();
    let i1 = SsTableIterator::create_and_seek_to_first(t1).unwrap();
    let mut m = MergeIterator::create(vec![Box::new(i0), Box::new(i1)]);
    let mut got: Vec<(Vec<u8>, Vec<u8>)> = Vec::new();
    while m.is_valid() {
        got.push((m.key().to_vec(), m.value().to_vec()));
        m.next().unwrap();
    }
    assert_eq!(
        got,
        vec![
            (b"a".to_vec(), b"0a".to_vec()),
            (b"b".to_vec(), b"1b".to_vec()),
            (b"c".to_vec(), b"0c".to_vec()),
            (b"d".to_vec(), b"1d".to_vec()),
        ]
    );
}

#[test]
fn merge_empty_inputs() {
    let mut m: MergeIterator<SsTableIterator> = MergeIterator::create(vec![]);
    assert!(!m.is_valid());
    // a source driven past its end is invalid too
    let t = Arc::new(build_table(&[(b"a", b"1")], 64, 0));
    let mut it = SsTableIterator::create_and_seek_to_first(t).unwrap();
    it.next().unwrap();
    assert!(!it.is_valid());
    m = MergeIterator::create(vec![Box::new(it)]);
    assert!(!m.is_valid());
}

#[test]
fn two_merge_tie_break() {
    let ta = Arc::new(build_table(&[(b"k", b"va")], 64, 0));
    let tb = Arc::new(build_table(&[(b"k", b"vb")], 64, 1));
    let ia = SsTableIterator::create_and_seek_to_first(ta).unwrap();
    let ib = SsTableIterator::create_and_seek_to_first(tb).unwrap();
    let mut m = TwoMergeIterator::create(ia, ib).unwrap();
    assert!(m.is_valid());
    assert_eq!(m.key(), b"k");
    assert_eq!(m.value(), b"va");
    m.next().unwrap();
    assert!(!m.is_valid());
}

#[test]
fn two_merge_interleaves() {
    let ta = Arc::new(build_table(&[(b"a", b"a-new"), (b"c", b"c-new")], 64, 0));
    let tb = Arc::new(build_table(&[(b"a", b"a-old"), (b"b", b"b-old")], 64, 1));
    let ia = SsTableIterator::create_and_seek_to_first(ta).unwrap();
    let ib = SsTableIterator::create_and_seek_to_first(tb).unwrap();
    let mut m = TwoMergeIterator::create(ia, ib).unwrap();
    let mut got: Vec<(Vec<u8>, Vec<u8>)> = Vec::new();
    while m.is_valid() {
        got.push((m.key().to_vec(), m.value().to_vec()));
        m.next().unwrap();
    }
    assert_eq!(
        got,
        vec![
            (b"a".to_vec(), b"a-new".to_vec()),
            (b"b".to_vec(), b"b-old".to_vec()),
            (b"c".to_vec(), b"c-new".to_vec()),
        ]
    );
}

#[test]
fn file_read_out_of_range() {
    let f = FileObject::create(vec![1, 2, 3, 4]);
    assert_eq!(f.size(), 4);
    assert_eq!(f.read(1, 2).unwrap(), vec![2, 3]);
    assert_eq!(f.read(3, 2).unwrap_err(), Error::Io);
    assert_eq!(f.read(5, 0).unwrap_err(), Error::Io);
}

#[test]
fn encoding_big_endian() {
    let mut buf = Vec::new();
    mini_lsm::encoding::put_u16(&mut buf, 0x1234);
    mini_lsm::encoding::put_u32(&mut buf, 0xdeadbeef);
    assert_eq!(buf, vec![0x12, 0x34, 0xde, 0xad, 0xbe, 0xef]);
    assert_eq!(mini_lsm::encoding::get_u16(&buf, 0), 0x1234);
    assert_eq!(mini_lsm::encoding::get_u32(&buf, 2), 0xdeadbeef);
}

#[test]
fn estimated_size_tracks_sealed_bytes() {
    let mut b = SsTableBuilder::new(9);
    assert_eq!(b.estimated_size(), 0);
    b.add(b"a", b"1");
    // still pending in the open block
    assert_eq!(b.estimated_size(), 0);
    b.add(b"b", b"2");
    // the first block was sealed to make room
    assert!(b.estimated_size() > 0);
}
