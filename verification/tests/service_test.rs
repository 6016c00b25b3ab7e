use base64::Engine;
use nexo_core::chain::{genesis, link_of, ChainStore};
use nexo_core::cosign::Cosigner;
use nexo_core::error::CoreError;
use nexo_core::service::{verify_sth, LogService};
use nexo_core::sth::{Policy, Signature, STH};
use sha2::{Digest, Sha256};

fn b64(bytes: &[u8]) -> String {
    base64::engine::general_purpose::STANDARD.encode(bytes)
}

fn h(data: &[u8]) -> Vec<u8> {
    Sha256::digest(data).to_vec()
}

fn registry(n: u8) -> Vec<Cosigner> {
    (0..n)
        .map(|i| Cosigner::from_seed(format!("cosigner_{}", i), [i + 1; 32]))
        .collect()
}

fn service(n: u8, t: u8) -> LogService {
    LogService::new(registry(n), Policy { t, n: 3 }, ChainStore::new())
}

#[test]
fn end_to_end_two_checkpoints() {
    let mut svc = service(3, 2);
    assert_eq!(svc.get_latest(), None);
    assert!(svc.get_chain(10).is_empty());

    let sth1 = svc.checkpoint(&[h(b"a")], 1_700_000_000).unwrap();
    assert_eq!(sth1.tree_size, 1);
    assert_eq!(sth1.root, b64(&h(b"a")));
    assert_eq!(sth1.signatures.len(), 2);
    assert_eq!(sth1.prev_hash, genesis());
    assert_eq!(sth1.prev_hash, b64(&[0u8; 32]));
    assert_eq!(sth1.policy, Policy { t: 2, n: 3 });
    assert_eq!(sth1.timestamp, 1_700_000_000);

    let sth2 = svc.checkpoint(&[h(b"a"), h(b"b")], 1_700_000_060).unwrap();
    assert_eq!(sth2.tree_size, 2);
    let mut both = h(b"a");
    both.extend_from_slice(&h(b"b"));
    assert_eq!(sth2.root, b64(&h(&both)));
    assert_eq!(sth2.prev_hash, b64(&h(&sth1.encode())));
    assert_eq!(sth2.prev_hash, link_of(&sth1));
    assert_eq!(sth2.signatures.len(), 2);

    assert_eq!(svc.get_chain(10), vec![sth2.clone(), sth1.clone()]);
    assert_eq!(svc.get_chain(1), vec![sth2.clone()]);
    assert!(svc.get_chain(0).is_empty());
    assert_eq!(svc.get_latest(), Some(sth2.clone()));
    assert!(verify_sth(&sth1, &svc.cosigners));
    assert!(verify_sth(&sth2, &svc.cosigners));
}

#[test]
fn checkpoint_fails_without_quorum_and_appends_nothing() {
    let mut svc = service(3, 2);
    svc.checkpoint(&[h(b"a")], 10).unwrap();
    svc.cosigners.truncate(1);
    let before = svc.get_chain(10);
    assert_eq!(svc.checkpoint(&[h(b"a"), h(b"b")], 20), Err(CoreError::QuorumUnreachable));
    assert_eq!(svc.store.len(), 1);
    assert_eq!(svc.get_chain(10), before);

    let mut empty = service(1, 2);
    assert_eq!(empty.checkpoint(&[h(b"a")], 10), Err(CoreError::QuorumUnreachable));
    assert_eq!(empty.store.len(), 0);
    assert_eq!(empty.get_latest(), None);
}

#[test]
fn checkpoint_fails_when_keys_do_not_match() {
    let mut cs = registry(3);
    cs[1].verifying = cs[2].verifying;
    let mut svc = LogService::new(cs, Policy { t: 2, n: 3 }, ChainStore::new());
    assert_eq!(svc.checkpoint(&[h(b"a")], 10), Err(CoreError::QuorumUnreachable));
    assert_eq!(svc.store.len(), 0);
}

#[test]
fn checkpoint_refuses_a_shrinking_tree_and_a_leaf_that_is_no_digest() {
    let mut svc = service(3, 2);
    svc.checkpoint(&[h(b"a"), h(b"b")], 10).unwrap();
    assert_eq!(svc.checkpoint(&[h(b"a")], 20), Err(CoreError::Integrity));
    assert_eq!(svc.checkpoint(&[b"short".to_vec()], 20), Err(CoreError::Decode));
    assert_eq!(svc.store.len(), 1);
    let same = svc.checkpoint(&[h(b"a"), h(b"b")], 30).unwrap();
    assert_eq!(same.tree_size, 2);
    assert_eq!(svc.store.len(), 2);
}

#[test]
fn empty_tree_checkpoint_has_the_zero_root() {
    let mut svc = service(3, 2);
    let sth = svc.checkpoint(&[], -5).unwrap();
    assert_eq!(sth.tree_size, 0);
    assert_eq!(sth.root, b64(&[0u8; 32]));
    assert_eq!(sth.timestamp, -5);
}

#[test]
fn service_refuses_to_start_below_quorum() {
    assert!(LogService::start(registry(2), Policy { t: 2, n: 3 }, ChainStore::new()).is_ok());
    let refused = LogService::start(registry(1), Policy { t: 2, n: 3 }, ChainStore::new());
    assert_eq!(refused.err(), Some(CoreError::Configuration));
}

#[test]
fn tree_head_is_verified_against_its_own_policy() {
    let mut svc = service(3, 2);
    let sth = svc.checkpoint(&[h(b"a")], 10).unwrap();
    svc.policy = Policy { t: 3, n: 3 };
    assert!(verify_sth(&sth, &svc.cosigners));
    let mut stricter = sth.clone();
    stricter.policy = Policy { t: 3, n: 3 };
    assert!(!verify_sth(&stricter, &svc.cosigners));
    let mut altered = sth.clone();
    altered.tree_size = 7;
    assert!(!verify_sth(&altered, &svc.cosigners));
    let mut stripped = sth.clone();
    stripped.signatures.pop();
    assert!(!verify_sth(&stripped, &svc.cosigners));
}

#[test]
fn canonical_encoding_is_fixed() {
    let sth = STH {
        tree_size: 12,
        root: "cm9vdA==".to_string(),
        prev_hash: "cHJldg==".to_string(),
        policy: Policy { t: 2, n: 3 },
        timestamp: -1700000000,
        signatures: vec![
            Signature { cosigner: "cosigner_0".to_string(), sig: "c2ln".to_string() },
            Signature { cosigner: "a\"b\\c\n\u{1}é".to_string(), sig: String::new() },
        ],
    };
    let expected = "{\"tree_size\":12,\"root\":\"cm9vdA==\",\"prev_hash\":\"cHJldg==\",\
                    \"policy\":{\"t\":2,\"n\":3},\"timestamp\":-1700000000,\"signatures\":[\
                    {\"cosigner\":\"cosigner_0\",\"sig\":\"c2ln\"},\
                    {\"cosigner\":\"a\\\"b\\\\c\\n\\u0001é\",\"sig\":\"\"}]}";
    assert_eq!(String::from_utf8(sth.encode()).unwrap(), expected);
    let message = "{\"tree_size\":12,\"root\":\"cm9vdA==\",\"prev_hash\":\"cHJldg==\",\
                   \"policy\":{\"t\":2,\"n\":3},\"timestamp\":-1700000000,\"signatures\":[]}";
    assert_eq!(String::from_utf8(sth.signing_message()).unwrap(), message);
    assert_eq!(sth.duplicate(), sth);
}

#[test]
fn extreme_numbers_encode_in_full() {
    let sth = STH {
        tree_size: usize::MAX,
        root: String::new(),
        prev_hash: String::new(),
        policy: Policy { t: 0, n: 255 },
        timestamp: i64::MIN,
        signatures: vec![],
    };
    let text = String::from_utf8(sth.encode()).unwrap();
    assert!(text.starts_with(&format!("{{\"tree_size\":{},", usize::MAX)));
    assert!(text.contains("\"policy\":{\"t\":0,\"n\":255}"));
    assert!(text.contains("\"timestamp\":-9223372036854775808,"));
}

#[test]
fn audit_finds_the_first_tree_head_without_quorum() {
    let mut svc = service(3, 2);
    assert_eq!(svc.audit(), None);
    svc.checkpoint(&[h(b"a")], 1).unwrap();
    svc.checkpoint(&[h(b"a"), h(b"b")], 2).unwrap();
    svc.checkpoint(&[h(b"a"), h(b"b"), h(b"c")], 3).unwrap();
    assert_eq!(svc.audit(), None);

    let strangers: Vec<Cosigner> =
        (0..3u8).map(|i| Cosigner::from_seed(format!("cosigner_{}", i), [i + 9; 32])).collect();
    let known = std::mem::replace(&mut svc.cosigners, strangers);
    assert_eq!(svc.audit(), Some(0));

    svc.cosigners = known;
    let mut records = svc.get_chain(10);
    records.reverse();
    let mut tampered = records.clone();
    tampered[1].signatures.truncate(1);
    let relinked = ChainStore::from_records(tampered);
    assert_eq!(relinked.err(), Some(CoreError::Integrity));
}

#[test]
fn audit_of_a_loaded_chain() {
    let mut svc = service(3, 2);
    svc.checkpoint(&[h(b"a")], 1).unwrap();
    let mut forged = STH {
        tree_size: 2,
        root: b64(&h(b"x")),
        prev_hash: svc.store.head(),
        policy: Policy { t: 2, n: 3 },
        timestamp: 2,
        signatures: vec![Signature { cosigner: "cosigner_0".to_string(), sig: "AAAA".to_string() }],
    };
    assert!(!verify_sth(&forged, &svc.cosigners));
    assert_eq!(svc.store.append(forged.clone()), Ok(()));
    assert_eq!(svc.audit(), Some(1));
    forged.signatures.clear();
    assert!(!verify_sth(&forged, &svc.cosigners));
}
