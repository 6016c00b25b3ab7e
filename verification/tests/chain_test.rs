use base64::Engine;
use nexo_core::chain::{genesis, link_of, ChainStore};
use nexo_core::cosign::Cosigner;
use nexo_core::error::CoreError;
use nexo_core::service::LogService;
use nexo_core::sth::{Policy, Signature, STH};
use sha2::{Digest, Sha256};

fn b64(bytes: &[u8]) -> String {
    base64::engine::general_purpose::STANDARD.encode(bytes)
}

fn plain(tree_size: usize, prev_hash: String, timestamp: i64) -> STH {
    STH {
        tree_size,
        root: "cm9vdA==".to_string(),
        prev_hash,
        policy: Policy { t: 2, n: 3 },
        timestamp,
        signatures: vec![Signature { cosigner: "cosigner_0".to_string(), sig: "c2ln".to_string() }],
    }
}

fn chain_of(n: usize) -> (ChainStore, Vec<STH>) {
    let mut store = ChainStore::new();
    let mut all = Vec::new();
    for i in 0..n {
        let sth = plain(i + 1, store.head(), 100 + i as i64);
        assert_eq!(store.append(sth.clone()), Ok(()));
        all.push(sth);
    }
    (store, all)
}

#[test]
fn empty_chain_has_no_latest() {
    let store = ChainStore::new();
    assert_eq!(store.len(), 0);
    assert!(store.latest().is_none());
    assert!(store.get(0).is_none());
    assert!(store.range(10).is_empty());
    assert_eq!(store.head(), genesis());
    assert_eq!(genesis(), "AAAAAAAAAAAAAAAAAAAAAAAAAAAAAAAAAAAAAAAAAAA=");
    assert!(store.to_bytes().is_empty());
}

#[test]
fn appended_tree_heads_are_linked() {
    let (store, all) = chain_of(3);
    assert_eq!(all[0].prev_hash, genesis());
    assert_eq!(all[1].prev_hash, link_of(&all[0]));
    assert_eq!(all[2].prev_hash, link_of(&all[1]));
    assert_eq!(all[1].prev_hash, b64(&Sha256::digest(all[0].encode())));
    assert_eq!(store.len(), 3);
    assert_eq!(store.latest(), Some(&all[2]));
    assert_eq!(store.get(1), Some(&all[1]));
    assert_eq!(store.head(), link_of(&all[2]));
}

#[test]
fn range_is_newest_first_and_bounded() {
    let (store, all) = chain_of(4);
    assert_eq!(store.range(2), vec![all[3].clone(), all[2].clone()]);
    assert_eq!(
        store.range(10),
        vec![all[3].clone(), all[2].clone(), all[1].clone(), all[0].clone()]
    );
    assert_eq!(store.range(4).len(), 4);
    assert_eq!(store.range(1), vec![all[3].clone()]);
    assert!(store.range(0).is_empty());
}

#[test]
fn stale_and_forked_tree_heads_are_refused() {
    let (mut store, all) = chain_of(2);
    let stale = plain(5, all[1].prev_hash.clone(), 500);
    assert_eq!(store.append(stale), Err(CoreError::ConcurrentAppend));
    let from_genesis = plain(5, genesis(), 500);
    assert_eq!(store.append(from_genesis), Err(CoreError::ConcurrentAppend));
    let unlinked = plain(5, "bm9uZQ==".to_string(), 500);
    assert_eq!(store.append(unlinked), Err(CoreError::ConcurrentAppend));
    assert_eq!(store.len(), 2);

    let first = plain(5, store.head(), 500);
    let second = plain(6, first.prev_hash.clone(), 501);
    assert_eq!(store.append(first), Ok(()));
    assert_eq!(store.append(second), Err(CoreError::ConcurrentAppend));
    assert_eq!(store.len(), 3);
}

#[test]
fn shrinking_tree_is_refused() {
    let (mut store, _) = chain_of(2);
    let smaller = plain(1, store.head(), 500);
    assert_eq!(store.append(smaller), Err(CoreError::Integrity));
    let same = plain(2, store.head(), 500);
    assert_eq!(store.append(same), Ok(()));
    assert_eq!(store.len(), 3);
}

#[test]
fn chain_from_records() {
    let (_, all) = chain_of(3);
    let store = ChainStore::from_records(all.clone()).unwrap();
    assert_eq!(store.range(3), vec![all[2].clone(), all[1].clone(), all[0].clone()]);
    assert!(ChainStore::from_records(vec![]).is_ok());

    let mut swapped = all.clone();
    swapped.swap(1, 2);
    assert_eq!(ChainStore::from_records(swapped).err(), Some(CoreError::Integrity));
    assert_eq!(ChainStore::from_records(all[1..].to_vec()).err(), Some(CoreError::Integrity));
    let mut shrinking = all.clone();
    shrinking[1].tree_size = 0;
    assert_eq!(ChainStore::from_records(shrinking).err(), Some(CoreError::Integrity));
}

#[test]
fn persisted_chain_reads_back() {
    let (store, all) = chain_of(3);
    let bytes = store.to_bytes();
    let mut expected = Vec::new();
    for sth in &all {
        expected.extend_from_slice(&sth.encode());
        expected.push(b'\n');
        assert_eq!(sth.encode_line().last(), Some(&b'\n'));
    }
    assert_eq!(bytes, expected);
    let back = ChainStore::from_bytes(&bytes).unwrap();
    assert_eq!(back.range(10), store.range(10));
    assert_eq!(ChainStore::from_bytes(b"").unwrap().len(), 0);
}

#[test]
fn truncated_trailing_record_is_skipped() {
    let (store, all) = chain_of(3);
    let bytes = store.to_bytes();
    let cut = bytes.len() - 10;
    let back = ChainStore::from_bytes(&bytes[..cut]).unwrap();
    assert_eq!(back.range(10), vec![all[1].clone(), all[0].clone()]);

    let without_newline = &bytes[..bytes.len() - 1];
    let back = ChainStore::from_bytes(without_newline).unwrap();
    assert_eq!(back.len(), 2);

    let mut garbage_line = store.to_bytes();
    garbage_line.extend_from_slice(b"{\"tree_size\":\n");
    let back = ChainStore::from_bytes(&garbage_line).unwrap();
    assert_eq!(back.len(), 3);

    let only_garbage = ChainStore::from_bytes(b"garbage").unwrap();
    assert_eq!(only_garbage.len(), 0);
}

#[test]
fn malformed_interior_record_is_corruption() {
    let (store, all) = chain_of(3);
    let mut bytes = Vec::new();
    bytes.extend_from_slice(&all[0].encode_line());
    bytes.extend_from_slice(b"not a record\n");
    bytes.extend_from_slice(&all[1].encode_line());
    assert_eq!(ChainStore::from_bytes(&bytes).err(), Some(CoreError::Integrity));

    let mut followed = Vec::new();
    followed.extend_from_slice(&all[0].encode_line());
    followed.extend_from_slice(b"not a record\n");
    followed.extend_from_slice(b"{\"tree");
    assert_eq!(ChainStore::from_bytes(&followed).err(), Some(CoreError::Integrity));

    let mut unlinked = Vec::new();
    unlinked.extend_from_slice(&all[0].encode_line());
    unlinked.extend_from_slice(&all[2].encode_line());
    assert_eq!(ChainStore::from_bytes(&unlinked).err(), Some(CoreError::Integrity));

    let mut blank = store.to_bytes();
    blank.insert(0, b'\n');
    assert_eq!(ChainStore::from_bytes(&blank).err(), Some(CoreError::Integrity));
}

#[test]
fn checkpoints_persist_and_read_back() {
    let cosigners: Vec<Cosigner> =
        (0..3u8).map(|i| Cosigner::from_seed(format!("cosigner_{}", i), [i + 1; 32])).collect();
    let mut svc = LogService::new(cosigners, Policy { t: 2, n: 3 }, ChainStore::new());
    let a = Sha256::digest(b"a").to_vec();
    let b = Sha256::digest(b"b").to_vec();
    let first = svc.checkpoint(&[a.clone()], 1).unwrap();
    let second = svc.checkpoint(&[a, b], 2).unwrap();
    let bytes = svc.store.to_bytes();
    let store = ChainStore::from_bytes(&bytes).unwrap();
    assert_eq!(store.range(10), vec![second, first]);
}
