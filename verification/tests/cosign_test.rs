use base64::Engine;
use ed25519_dalek::{Signer, SigningKey, VerifyingKey};
use nexo_core::cosign::{
    cosign_state, cosigners_from_seeds, from_signatures, load_cosigner, load_cosigners, scan_for_quorum, sign_sth,
    sign_threshold, signing_key_of, to_32, to_signatures, verify_threshold, verifying_key_of,
    CosignState, Cosigner, SignatureData,
};
use nexo_core::error::CoreError;
use rand::rngs::OsRng;

fn registry(n: u8) -> Vec<Cosigner> {
    (0..n)
        .map(|i| Cosigner::from_seed(format!("cosigner_{}", i), [i + 1; 32]))
        .collect()
}

#[test]
fn threshold_sign_verify() {
    let mut cs = Vec::new();
    for i in 0..3 {
        let signing = SigningKey::generate(&mut OsRng);
        let verifying = VerifyingKey::from(&signing);
        cs.push(Cosigner {
            id: format!("cosigner_{}", i),
            signing: signing.to_bytes(),
            verifying: verifying.to_bytes(),
        });
    }
    let msg = b"test-msg";
    let sigs = sign_sth(msg, &cs);
    assert!(sigs.len() >= 2);
    assert!(verify_threshold(msg, &sigs, &cs, 2));
}

#[test]
fn signing_stops_at_the_threshold() {
    let cs = registry(3);
    let sigs = sign_threshold(b"msg", &cs, 2);
    assert_eq!(sigs.len(), 2);
    assert_eq!(sigs[0].cosigner, "cosigner_0");
    assert_eq!(sigs[1].cosigner, "cosigner_1");
    assert_eq!(sign_threshold(b"msg", &cs, 5).len(), 3);
    assert_eq!(sign_threshold(b"msg", &cs, 0).len(), 0);
    assert_eq!(sign_sth(b"msg", &cs).len(), 2);
}

#[test]
fn signature_is_the_ed25519_signature_in_base64() {
    let cs = registry(1);
    let record = cs[0].sign(b"hello");
    let expected = SigningKey::from_bytes(&[1u8; 32]).sign(b"hello").to_bytes();
    assert_eq!(record.sig, base64::engine::general_purpose::STANDARD.encode(expected));
    assert_eq!(cs[0].verifying, SigningKey::from_bytes(&[1u8; 32]).verifying_key().to_bytes());
    assert_ne!(cs[0].verifying, cs[0].signing);
}

#[test]
fn any_two_of_three_verify_and_one_does_not() {
    let cs = registry(3);
    let all = sign_threshold(b"msg", &cs, 3);
    assert_eq!(all.len(), 3);
    for skip in 0..3 {
        let two: Vec<SignatureData> =
            all.iter().enumerate().filter(|(i, _)| *i != skip).map(|(_, s)| s.clone()).collect();
        assert!(verify_threshold(b"msg", &two, &cs, 2));
        let mut reversed = two.clone();
        reversed.reverse();
        assert!(verify_threshold(b"msg", &reversed, &cs, 2));
    }
    for keep in 0..3 {
        assert!(!verify_threshold(b"msg", &all[keep..keep + 1], &cs, 2));
        assert!(verify_threshold(b"msg", &all[keep..keep + 1], &cs, 1));
    }
    assert!(verify_threshold(b"msg", &[], &cs, 0));
    assert!(!verify_threshold(b"msg", &[], &cs, 1));
    assert!(!verify_threshold(b"other", &all, &cs, 1));
}

#[test]
fn duplicates_of_one_cosigner_count_once() {
    let cs = registry(3);
    let all = sign_threshold(b"msg", &cs, 3);
    let dup = vec![all[0].clone(), all[0].clone(), all[0].clone()];
    assert!(!verify_threshold(b"msg", &dup, &cs, 2));
    assert!(verify_threshold(b"msg", &dup, &cs, 1));
    let mixed = vec![all[1].clone(), all[1].clone(), all[2].clone()];
    assert!(verify_threshold(b"msg", &mixed, &cs, 2));
    assert!(!verify_threshold(b"msg", &mixed, &cs, 3));
}

#[test]
fn tampered_unknown_and_malformed_records_do_not_count() {
    let engine = base64::engine::general_purpose::STANDARD;
    let cs = registry(3);
    let all = sign_threshold(b"msg", &cs, 3);

    let mut raw = engine.decode(&all[1].sig).unwrap();
    raw[10] ^= 0x01;
    let tampered = SignatureData { cosigner: all[1].cosigner.clone(), sig: engine.encode(&raw) };
    assert!(!verify_threshold(b"msg", &[all[0].clone(), tampered.clone()], &cs, 2));
    assert!(verify_threshold(b"msg", &[all[0].clone(), tampered, all[2].clone()], &cs, 2));

    let unknown = SignatureData { cosigner: "stranger".to_string(), sig: all[1].sig.clone() };
    assert!(!verify_threshold(b"msg", &[all[0].clone(), unknown], &cs, 2));

    let not_base64 = SignatureData { cosigner: all[1].cosigner.clone(), sig: "%%%".to_string() };
    let too_short = SignatureData { cosigner: all[1].cosigner.clone(), sig: engine.encode([1u8; 63]) };
    assert!(!verify_threshold(b"msg", &[not_base64.clone(), too_short.clone(), all[0].clone()], &cs, 2));
    assert!(verify_threshold(b"msg", &[not_base64, too_short, all[0].clone(), all[2].clone()], &cs, 2));

    let wrong_owner = SignatureData { cosigner: all[0].cosigner.clone(), sig: all[1].sig.clone() };
    assert!(!verify_threshold(b"msg", &[wrong_owner], &cs, 1));
}

#[test]
fn scanning_stops_at_the_quorum() {
    let cs = registry(3);
    let all = sign_threshold(b"msg", &cs, 3);
    assert_eq!(scan_for_quorum(b"msg", &all, &cs, 2), (true, 2));
    let dup_first = vec![all[0].clone(), all[0].clone(), all[1].clone(), all[2].clone()];
    assert_eq!(scan_for_quorum(b"msg", &dup_first, &cs, 2), (true, 3));
    assert_eq!(scan_for_quorum(b"msg", &dup_first, &cs, 0), (true, 0));
    assert_eq!(scan_for_quorum(b"msg", &dup_first[..2], &cs, 2), (false, 2));
}

#[test]
fn first_cosigner_with_an_id_is_the_one_that_counts() {
    let mut cs = registry(2);
    cs[1].id = "cosigner_0".to_string();
    let second = cs[1].sign(b"msg");
    assert!(!verify_threshold(b"msg", &[second], &cs, 1));
    let first = cs[0].sign(b"msg");
    assert!(verify_threshold(b"msg", &[first], &cs, 1));
}

#[test]
fn signing_states() {
    assert_eq!(cosign_state(0, 3, 2), CosignState::Pending);
    assert_eq!(cosign_state(1, 2, 2), CosignState::PartiallySigned);
    assert_eq!(cosign_state(2, 1, 2), CosignState::Quorate);
    assert_eq!(cosign_state(1, 0, 2), CosignState::Unreachable);
    assert_eq!(cosign_state(0, 0, 0), CosignState::Quorate);
    assert_eq!(cosign_state(0, 0, 1), CosignState::Unreachable);
}

#[test]
fn keys_of_exactly_32_bytes() {
    assert_eq!(to_32(&[7u8; 32]), Some([7u8; 32]));
    assert_eq!(to_32(&[7u8; 31]), None);
    assert_eq!(to_32(&[7u8; 33]), None);
    assert_eq!(to_32(&[]), None);
    let mut bytes = [0u8; 32];
    for (i, b) in bytes.iter_mut().enumerate() {
        *b = i as u8;
    }
    assert_eq!(to_32(&bytes), Some(bytes));
}

#[test]
fn loading_cosigners_from_key_material() {
    let engine = base64::engine::general_purpose::STANDARD;
    let good0 = engine.encode([9u8; 32]);
    let good2 = engine.encode([5u8; 32]);

    let loaded = load_cosigner(12, &good0).unwrap();
    assert_eq!(loaded.id, "cosigner_12");
    assert_eq!(loaded.signing, [9u8; 32]);
    assert_eq!(loaded.verifying, SigningKey::from_bytes(&[9u8; 32]).verifying_key().to_bytes());

    assert_eq!(load_cosigner(0, "not base64!"), Err(CoreError::Configuration));
    assert_eq!(load_cosigner(0, &engine.encode([9u8; 31])), Err(CoreError::Configuration));
    assert_eq!(load_cosigner(0, &engine.encode([9u8; 33])), Err(CoreError::Configuration));
    assert_eq!(load_cosigner(0, ""), Err(CoreError::Configuration));

    let keys = vec![Some(good0), None, Some(good2), Some("???".to_string())];
    let active = load_cosigners(&keys);
    assert_eq!(active.len(), 2);
    assert_eq!(active[0].id, "cosigner_0");
    assert_eq!(active[0].signing, [9u8; 32]);
    assert_eq!(active[1].id, "cosigner_2");
    assert_eq!(active[1].signing, [5u8; 32]);
    assert!(load_cosigners(&[]).is_empty());
    assert!(load_cosigners(&[None, None, None]).is_empty());
}

#[test]
fn keys_are_looked_up_by_id() {
    let mut cs = registry(3);
    assert_eq!(signing_key_of(&cs, &"cosigner_1".to_string()), Some([2u8; 32]));
    assert_eq!(verifying_key_of(&cs, &"cosigner_1".to_string()), Some(cs[1].verifying));
    assert_eq!(signing_key_of(&cs, &"cosigner_3".to_string()), None);
    assert_eq!(verifying_key_of(&cs, &"".to_string()), None);
    cs[2].id = "cosigner_0".to_string();
    assert_eq!(signing_key_of(&cs, &"cosigner_0".to_string()), Some([1u8; 32]));
    assert_eq!(signing_key_of(&[], &"cosigner_0".to_string()), None);
}

#[test]
fn records_convert_both_ways() {
    let cs = registry(2);
    let records = sign_threshold(b"msg", &cs, 2);
    let stored = to_signatures(&records);
    assert_eq!(stored.len(), 2);
    assert_eq!(stored[1].cosigner, records[1].cosigner);
    assert_eq!(stored[1].sig, records[1].sig);
    assert_eq!(from_signatures(&stored), records);
    assert_eq!(records[0].to_signature(), stored[0]);
    assert_eq!(SignatureData::from_signature(&stored[0]), records[0]);
}

#[test]
fn registry_from_generated_seeds() {
    let seeds: Vec<[u8; 32]> = (0..3).map(|_| SigningKey::generate(&mut OsRng).to_bytes()).collect();
    let cs = cosigners_from_seeds(&seeds);
    assert_eq!(cs.len(), 3);
    for (i, c) in cs.iter().enumerate() {
        assert_eq!(c.id, format!("cosigner_{}", i));
        assert_eq!(c.signing, seeds[i]);
        assert_eq!(c.verifying, SigningKey::from_bytes(&seeds[i]).verifying_key().to_bytes());
    }
    let sigs = sign_threshold(b"msg", &cs, 2);
    assert!(verify_threshold(b"msg", &sigs, &cs, 2));
    assert!(cosigners_from_seeds(&[]).is_empty());
    assert_eq!(cosigners_from_seeds(&[[3u8; 32]; 11])[10].id, "cosigner_10");
}
