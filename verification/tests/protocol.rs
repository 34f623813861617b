use std::collections::HashMap;

use discord_fs::chain::{ChainBuilder, ChainWalker};
use discord_fs::groups::{group_bundles, split_chunks};
use discord_fs::{MAX_BUNDLE_SIZE, MAX_CHUNK_SIZE};

/// An in-memory stand-in for the remote transport: messages keyed by the
/// identifier the "send" returned.
struct FakeStore {
    msgs: HashMap<u64, (Vec<u8>, Vec<Vec<u8>>)>,
    next_id: u64,
}

impl FakeStore {
    fn new() -> Self {
        FakeStore { msgs: HashMap::new(), next_id: 1000 }
    }

    fn send(&mut self, attachments: Vec<Vec<u8>>, meta: Vec<u8>) -> u64 {
        let id = self.next_id;
        self.next_id += 1;
        self.msgs.insert(id, (meta, attachments));
        id
    }
}

fn upload(store: &mut FakeStore, data: &Vec<u8>, filename: &[u8], maxc: usize, maxb: usize) -> Option<u64> {
    let mut b = ChainBuilder::new(data, filename.to_vec(), maxc, maxb);
    while let Some((attachments, meta)) = b.next_send() {
        let id = store.send(attachments, meta);
        b.record_id(id);
    }
    b.head()
}

/// Walks the chain from `head`, returning the filename carried at the head
/// and the reassembled bytes, along with how many messages were visited.
fn download(store: &FakeStore, head: u64) -> (Vec<u8>, Vec<u8>, usize) {
    let mut w = ChainWalker::start(head);
    let mut out: Vec<u8> = Vec::new();
    let mut head_name: Option<Vec<u8>> = None;
    let mut visits = 0usize;
    while let Some(id) = w.pending() {
        visits += 1;
        assert!(visits <= store.msgs.len(), "walk revisited a message");
        let (meta, attachments) = store.msgs.get(&id).expect("dangling next-reference");
        let name = w.deliver(meta).expect("undecodable metadata");
        if head_name.is_none() {
            head_name = Some(name);
        }
        for a in attachments {
            out.extend_from_slice(a);
        }
    }
    (head_name.unwrap(), out, visits)
}

fn patterned(len: usize) -> Vec<u8> {
    (0..len).map(|i| (i % 251) as u8).collect()
}

fn chunk_count(data_len: usize, maxc: usize, maxb: usize) -> (usize, usize) {
    let data = patterned(data_len);
    let chunks = split_chunks(&data, maxc);
    let n = chunks.len();
    let bundles = group_bundles(chunks, maxb);
    (n, bundles.len())
}

#[test]
fn chunk_and_bundle_counts() {
    // number of chunks is ceil(L / maxc), bundles ceil(chunks / maxb)
    assert_eq!(chunk_count(0, 8, 10), (0, 0));
    assert_eq!(chunk_count(1, 8, 10), (1, 1));
    assert_eq!(chunk_count(8, 8, 10), (1, 1));
    assert_eq!(chunk_count(9, 8, 10), (2, 1));
    assert_eq!(chunk_count(80, 8, 10), (10, 1));
    assert_eq!(chunk_count(81, 8, 10), (11, 2));
    assert_eq!(chunk_count(160, 8, 10), (20, 2));
    assert_eq!(chunk_count(161, 8, 10), (21, 3));
}

#[test]
fn chunk_sizes_and_order() {
    let data = patterned(21);
    let chunks = split_chunks(&data, 8);
    assert_eq!(chunks.len(), 3);
    assert_eq!(chunks[0], data[0..8].to_vec());
    assert_eq!(chunks[1], data[8..16].to_vec());
    assert_eq!(chunks[2], data[16..21].to_vec());
}

#[test]
fn bundle_grouping_preserves_order() {
    let data = patterned(33);
    let chunks = split_chunks(&data, 4);
    assert_eq!(chunks.len(), 9);
    let bundles = group_bundles(chunks, 4);
    assert_eq!(bundles.len(), 3);
    assert_eq!(bundles[0].len(), 4);
    assert_eq!(bundles[1].len(), 4);
    assert_eq!(bundles[2].len(), 1);
    assert_eq!(bundles[0][0], data[0..4].to_vec());
    assert_eq!(bundles[1][0], data[16..20].to_vec());
    assert_eq!(bundles[2][0], data[32..33].to_vec());
}

fn assert_round_trip(data_len: usize, maxc: usize, maxb: usize) {
    let data = patterned(data_len);
    let mut store = FakeStore::new();
    let head = upload(&mut store, &data, b"blob.bin", maxc, maxb).expect("no head for non-empty data");
    let (name, bytes, _) = download(&store, head);
    assert_eq!(name, b"blob.bin".to_vec());
    assert_eq!(bytes, data);
}

#[test]
fn round_trip_boundary_lengths() {
    // L = 1, maxc, maxc + 1, maxc * maxb, maxc * maxb + 1
    for len in [1, 8, 9, 80, 81] {
        assert_round_trip(len, 8, 10);
    }
}

#[test]
fn round_trip_at_real_chunk_size() {
    assert_round_trip(MAX_CHUNK_SIZE, MAX_CHUNK_SIZE, MAX_BUNDLE_SIZE);
    assert_round_trip(MAX_CHUNK_SIZE + 1, MAX_CHUNK_SIZE, MAX_BUNDLE_SIZE);
}

#[test]
fn empty_file_yields_no_chunks_and_no_head() {
    let data: Vec<u8> = Vec::new();
    let mut store = FakeStore::new();
    let head = upload(&mut store, &data, b"empty.bin", 8, 10);
    assert_eq!(head, None);
    assert_eq!(store.msgs.len(), 0);
}

#[test]
fn twenty_mib_file_is_one_bundle_of_three_chunks() {
    // 20 MiB with 8 MiB chunks and bundles of 10: 3 chunks, 1 bundle,
    // a single message with no next-reference.
    let data = vec![0xa5u8; 20 * 1024 * 1024];
    let mut store = FakeStore::new();
    let head = upload(&mut store, &data, b"big.bin", MAX_CHUNK_SIZE, MAX_BUNDLE_SIZE).unwrap();
    assert_eq!(store.msgs.len(), 1);
    let (meta, attachments) = store.msgs.get(&head).unwrap();
    assert_eq!(attachments.len(), 3);
    assert_eq!(attachments[0].len(), 8 * 1024 * 1024);
    assert_eq!(attachments[1].len(), 8 * 1024 * 1024);
    assert_eq!(attachments[2].len(), 4 * 1024 * 1024);
    assert_eq!(meta, &b"big.bin".to_vec());
    let (name, bytes, visits) = download(&store, head);
    assert_eq!(visits, 1);
    assert_eq!(name, b"big.bin".to_vec());
    assert_eq!(bytes, data);
}

#[test]
fn twenty_five_chunks_make_three_linked_bundles() {
    // 25 chunks with bundles of 10: 3 bundles of 10, 10 and 5 chunks,
    // a chain of 3 messages walked head to tail.
    let data = patterned(97);
    let maxc = 4; // 97 bytes in chunks of 4: 25 chunks
    let mut store = FakeStore::new();
    let head = upload(&mut store, &data, b"many.bin", maxc, 10).unwrap();
    assert_eq!(store.msgs.len(), 3);

    let (meta1, atts1) = store.msgs.get(&head).unwrap();
    assert_eq!(atts1.len(), 10);
    let (name1, next1) = discord_fs::meta::decode_metadata(meta1).unwrap();
    assert_eq!(name1, b"many.bin".to_vec());
    let (meta2, atts2) = store.msgs.get(&next1.unwrap()).unwrap();
    assert_eq!(atts2.len(), 10);
    let (name2, next2) = discord_fs::meta::decode_metadata(meta2).unwrap();
    assert_eq!(name2, b"many.bin".to_vec());
    let (meta3, atts3) = store.msgs.get(&next2.unwrap()).unwrap();
    assert_eq!(atts3.len(), 5);
    let (name3, next3) = discord_fs::meta::decode_metadata(meta3).unwrap();
    assert_eq!(name3, b"many.bin".to_vec());
    assert_eq!(next3, None);

    // the concatenation follows the chain in order
    let mut expect: Vec<u8> = Vec::new();
    for a in atts1.iter().chain(atts2.iter()).chain(atts3.iter()) {
        expect.extend_from_slice(a);
    }
    assert_eq!(expect, data);

    let (name, bytes, visits) = download(&store, head);
    assert_eq!(visits, 3);
    assert_eq!(name, b"many.bin".to_vec());
    assert_eq!(bytes, data);
}

#[test]
fn walker_reports_bad_metadata_and_stays_put() {
    let mut w = ChainWalker::start(77);
    assert_eq!(w.pending(), Some(77));
    let r = w.deliver(&b"name\nnot-a-number".to_vec());
    assert!(r.is_err());
    assert_eq!(w.pending(), Some(77));
}

#[test]
fn builder_hands_out_bundles_in_reverse_order() {
    let data = patterned(12);
    let mut b = ChainBuilder::new(&data, b"f".to_vec(), 4, 1);
    // 3 chunks, bundles of 1: sent tail first
    let (atts, meta) = b.next_send().unwrap();
    assert_eq!(atts, vec![data[8..12].to_vec()]);
    assert_eq!(meta, b"f".to_vec());
    b.record_id(5);
    let (atts, meta) = b.next_send().unwrap();
    assert_eq!(atts, vec![data[4..8].to_vec()]);
    assert_eq!(meta, b"f\n5".to_vec());
    b.record_id(6);
    let (atts, meta) = b.next_send().unwrap();
    assert_eq!(atts, vec![data[0..4].to_vec()]);
    assert_eq!(meta, b"f\n6".to_vec());
    b.record_id(7);
    assert!(b.next_send().is_none());
    assert_eq!(b.head(), Some(7));
}
