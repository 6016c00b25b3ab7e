//! Threshold cosigning: a registry of Ed25519 cosigners, signing by the first
//! cosigners up to a threshold, and verification that a quorum of distinct
//! cosigners signed.

use crate::digest::{base64_bytes, base64_decode, base64_encode, base64_text};
use crate::encoding::{
    decimal, lemma_ascii_is_utf8, lemma_decimal_digits, push_decimal, push_text,
    string_from_utf8, text,
};
use crate::error::CoreError;
use crate::sth::{signature_views, Signature, SignatureView};
use ed25519_dalek::{Signer, Verifier};
use vstd::prelude::*;
use vstd::set_lib::{lemma_int_range, lemma_len_subset, set_int_range};
use vstd::utf8::{decode_utf8, encode_utf8, encode_utf8_valid_utf8, valid_utf8_concat};

verus! {

/// Length in bytes of an Ed25519 signing key and of a verifying key.
pub const KEY_LEN: usize = 32;

/// Length in bytes of an Ed25519 signature.
pub const SIGNATURE_LEN: usize = 64;

/// The threshold that `sign_sth` signs for.
pub const DEFAULT_THRESHOLD: usize = 2;

/// The verifying key that Ed25519 derives from the signing key `seed`.
pub uninterp spec fn ed25519_public_key(seed: Seq<u8>) -> Seq<u8>;

/// The Ed25519 signature of `message` under the signing key `seed`.
pub uninterp spec fn ed25519_signature(seed: Seq<u8>, message: Seq<u8>) -> Seq<u8>;

/// Whether `signature` is accepted as an Ed25519 signature of `message` under
/// the verifying key `key`.
pub uninterp spec fn ed25519_verifies(key: Seq<u8>, message: Seq<u8>, signature: Seq<u8>) -> bool;

/// One cosigner's signature as the cosigning protocol hands it out: the
/// cosigner's id and the signature in base64.
#[derive(Clone, Debug, PartialEq, Eq)]
pub struct SignatureData {
    pub cosigner: String,
    pub sig: String,
}

/// A cosigner: a stable id and an Ed25519 key pair, as raw key bytes.
#[derive(Clone, Debug, PartialEq, Eq)]
pub struct Cosigner {
    pub id: String,
    pub signing: [u8; 32],
    pub verifying: [u8; 32],
}

/// A cosigner as a value: what contracts say of a `Cosigner`.
pub struct CosignerView {
    pub id: Seq<char>,
    pub signing: Seq<u8>,
    pub verifying: Seq<u8>,
}

impl View for SignatureData {
    type V = SignatureView;

    open spec fn view(&self) -> SignatureView {
        SignatureView { cosigner: self.cosigner@, sig: self.sig@ }
    }
}

impl View for Cosigner {
    type V = CosignerView;

    open spec fn view(&self) -> CosignerView {
        CosignerView { id: self.id@, signing: self.signing@, verifying: self.verifying@ }
    }
}

/// The cosigners as values.
pub open spec fn cosigner_views(cosigners: Seq<Cosigner>) -> Seq<CosignerView> {
    Seq::new(cosigners.len(), |i: int| cosigners[i]@)
}

/// The signature records as values.
pub open spec fn record_views(records: Seq<SignatureData>) -> Seq<SignatureView> {
    Seq::new(records.len(), |i: int| records[i]@)
}

/// Whether the cosigner's verifying key belongs to its signing key.
pub open spec fn is_key_pair(cosigner: CosignerView) -> bool {
    cosigner.verifying == ed25519_public_key(cosigner.signing)
}

/// A registry in which every cosigner holds a matching key pair and no two
/// cosigners share an id.
pub open spec fn registry_wf(cosigners: Seq<CosignerView>) -> bool {
    &&& forall|i: int| 0 <= i < cosigners.len() ==> is_key_pair(#[trigger] cosigners[i])
    &&& forall|i: int, j: int|
        0 <= i < j < cosigners.len() ==> (#[trigger] cosigners[i]).id != (#[trigger] cosigners[j]).id
}

/// Whether `id` names cosigner `i`: the first cosigner of the registry that
/// carries this id.
pub open spec fn resolves_to(cosigners: Seq<CosignerView>, id: Seq<char>, i: int) -> bool {
    &&& 0 <= i < cosigners.len()
    &&& cosigners[i].id == id
    &&& forall|j: int| 0 <= j < i ==> (#[trigger] cosigners[j]).id != id
}

/// Whether `sig` is the base64 text of a 64-byte signature that verifies
/// against `message` under `key`.
pub open spec fn well_signed(key: Seq<u8>, message: Seq<u8>, sig: Seq<char>) -> bool {
    match base64_bytes(sig) {
        Some(raw) => raw.len() == SIGNATURE_LEN && ed25519_verifies(key, message, raw),
        None => false,
    }
}

/// Whether `record` counts for cosigner `i`: its id names that cosigner and
/// its signature verifies under that cosigner's verifying key.
pub open spec fn accepted_from(
    message: Seq<u8>,
    record: SignatureView,
    cosigners: Seq<CosignerView>,
    i: int,
) -> bool {
    resolves_to(cosigners, record.cosigner, i) && well_signed(
        cosigners[i].verifying,
        message,
        record.sig,
    )
}

/// The cosigners, by index, for whom at least one of `records` counts.
pub open spec fn valid_signers(
    message: Seq<u8>,
    records: Seq<SignatureView>,
    cosigners: Seq<CosignerView>,
) -> Set<int> {
    Set::new(
        |i: int|
            exists|k: int|
                0 <= k < records.len() && #[trigger] accepted_from(
                    message,
                    records[k],
                    cosigners,
                    i,
                ),
    )
}

/// Whether at least `threshold` distinct cosigners validly signed `message`
/// among `records`. Records with an unknown id, a malformed signature or a
/// signature that does not verify are passed over, and several records of one
/// cosigner count once.
pub open spec fn reaches_quorum(
    message: Seq<u8>,
    records: Seq<SignatureView>,
    cosigners: Seq<CosignerView>,
    threshold: nat,
) -> bool {
    valid_signers(message, records, cosigners).len() >= threshold
}

/// The record that `cosigner` produces for `message`.
pub open spec fn signed_record(message: Seq<u8>, cosigner: CosignerView) -> SignatureView {
    SignatureView {
        cosigner: cosigner.id,
        sig: base64_text(ed25519_signature(cosigner.signing, message)),
    }
}

/// How many cosigners sign for a threshold: as many as the threshold asks
/// for, or all of them if they are fewer.
pub open spec fn signers_needed(available: nat, threshold: nat) -> nat {
    if threshold <= available {
        threshold
    } else {
        available
    }
}

/// What signing for `threshold` collects: one record from each of the first
/// cosigners, in registry order, and none from the others.
pub open spec fn collected(
    message: Seq<u8>,
    cosigners: Seq<CosignerView>,
    threshold: nat,
) -> Seq<SignatureView> {
    Seq::new(signers_needed(cosigners.len(), threshold), |i: int| signed_record(message, cosigners[i]))
}

/// Calls `SigningKey::from_bytes` and `VerifyingKey::from` of ed25519-dalek
/// and returns the key's bytes. Trusted: the result is the verifying key that
/// belongs to the signing key `seed`.
#[verifier::external_body]
fn derive_verifying_key(seed: &[u8; 32]) -> (key: [u8; 32])
    ensures
        key@ == ed25519_public_key(seed@),
{
    ed25519_dalek::VerifyingKey::from(&ed25519_dalek::SigningKey::from_bytes(seed)).to_bytes()
}

/// Calls `Signer::sign` on an ed25519-dalek `SigningKey` made from `seed`.
/// Trusted: the result is the deterministic Ed25519 signature of `message`,
/// and it verifies under the verifying key that belongs to `seed`.
#[verifier::external_body]
fn ed25519_sign(seed: &[u8; 32], message: &[u8]) -> (signature: [u8; 64])
    ensures
        signature@ == ed25519_signature(seed@, message@),
        ed25519_verifies(ed25519_public_key(seed@), message@, signature@),
{
    ed25519_dalek::SigningKey::from_bytes(seed).sign(message).to_bytes()
}

/// Calls `Verifier::verify` on an ed25519-dalek `VerifyingKey` made from
/// `key`. Trusted: the result tells whether the key bytes are a valid key
/// under which `signature` verifies against `message`.
#[verifier::external_body]
fn ed25519_verify(key: &[u8; 32], message: &[u8], signature: &[u8; 64]) -> (ok: bool)
    ensures
        ok == ed25519_verifies(key@, message@, signature@),
{
    match ed25519_dalek::VerifyingKey::from_bytes(key) {
        Ok(verifying) => verifying.verify(message, &ed25519::Signature::from_bytes(signature)).is_ok(),
        Err(_) => false,
    }
}

/// The bytes as a 32-byte key, if there are exactly 32 of them.
pub fn to_32(bytes: &[u8]) -> (key: Option<[u8; 32]>)
    ensures
        match key {
            Some(array) => array@ == bytes@,
            None => bytes@.len() != KEY_LEN,
        },
{
    if bytes.len() != 32 {
        return None;
    }
    let mut array = [0u8; 32];
    let mut i: usize = 0;
    while i < 32
        invariant
            i <= 32,
            bytes@.len() == 32,
            forall|j: int| 0 <= j < i ==> array@[j] == bytes@[j],
        decreases 32 - i,
    {
        array[i] = bytes[i];
        i = i + 1;
    }
    Some(array)
}

/// The bytes as a 64-byte signature, if there are exactly 64 of them.
fn to_64(bytes: &[u8]) -> (signature: Option<[u8; 64]>)
    ensures
        match signature {
            Some(array) => array@ == bytes@,
            None => bytes@.len() != SIGNATURE_LEN,
        },
{
    if bytes.len() != 64 {
        return None;
    }
    let mut array = [0u8; 64];
    let mut i: usize = 0;
    while i < 64
        invariant
            i <= 64,
            bytes@.len() == 64,
            forall|j: int| 0 <= j < i ==> array@[j] == bytes@[j],
        decreases 64 - i,
    {
        array[i] = bytes[i];
        i = i + 1;
    }
    Some(array)
}

impl SignatureData {
    /// This record as a tree head stores it.
    pub fn to_signature(&self) -> (signature: Signature)
        ensures
            signature@ == self@,
    {
        Signature { cosigner: self.cosigner.clone(), sig: self.sig.clone() }
    }

    /// The record that a tree head stores as `signature`.
    pub fn from_signature(signature: &Signature) -> (record: SignatureData)
        ensures
            record@ == signature@,
    {
        SignatureData { cosigner: signature.cosigner.clone(), sig: signature.sig.clone() }
    }
}

/// The records as a tree head stores them.
pub fn to_signatures(records: &Vec<SignatureData>) -> (signatures: Vec<Signature>)
    ensures
        signature_views(signatures@) == record_views(records@),
{
    let mut signatures: Vec<Signature> = Vec::new();
    let mut i: usize = 0;
    while i < records.len()
        invariant
            i <= records@.len(),
            signatures@.len() == i,
            forall|j: int| 0 <= j < i ==> (#[trigger] signatures@[j])@ == records@[j]@,
        decreases records@.len() - i,
    {
        signatures.push(records[i].to_signature());
        i = i + 1;
    }
    signatures
}

/// The records that a tree head stores as `signatures`.
pub fn from_signatures(signatures: &Vec<Signature>) -> (records: Vec<SignatureData>)
    ensures
        record_views(records@) == signature_views(signatures@),
{
    let mut records: Vec<SignatureData> = Vec::new();
    let mut i: usize = 0;
    while i < signatures.len()
        invariant
            i <= signatures@.len(),
            records@.len() == i,
            forall|j: int| 0 <= j < i ==> (#[trigger] records@[j])@ == signatures@[j]@,
        decreases signatures@.len() - i,
    {
        records.push(SignatureData::from_signature(&signatures[i]));
        i = i + 1;
    }
    records
}

impl Cosigner {
    /// The cosigner `id` whose signing key is `seed`; the verifying key is
    /// derived from it.
    pub fn from_seed(id: String, seed: [u8; 32]) -> (cosigner: Cosigner)
        ensures
            cosigner@.id == id@,
            cosigner@.signing == seed@,
            is_key_pair(cosigner@),
    {
        let verifying = derive_verifying_key(&seed);
        Cosigner { id, signing: seed, verifying }
    }

    /// This cosigner's record for `message`.
    pub fn sign(&self, message: &[u8]) -> (record: SignatureData)
        ensures
            record@ == signed_record(message@, self@),
            well_signed(ed25519_public_key(self@.signing), message@, record@.sig),
    {
        let signature = ed25519_sign(&self.signing, message);
        let sig = base64_encode(signature.as_slice());
        SignatureData { cosigner: self.id.clone(), sig }
    }
}

/// The id of the cosigner configured at position `index`, as bytes:
/// `cosigner_` and the position in decimal.
pub open spec fn cosigner_id(index: nat) -> Seq<u8> {
    text("cosigner_") + decimal(index)
}

/// Whether `key` is usable key material: base64 text of exactly 32 bytes.
pub open spec fn loadable(key: Seq<char>) -> bool {
    match base64_bytes(key) {
        Some(raw) => raw.len() == KEY_LEN,
        None => false,
    }
}

/// The cosigner of position `index` whose signing key is `seed`.
pub open spec fn seeded(index: nat, seed: Seq<u8>) -> CosignerView {
    CosignerView {
        id: decode_utf8(cosigner_id(index)),
        signing: seed,
        verifying: ed25519_public_key(seed),
    }
}

/// The cosigner that position `index` yields from the key material `key`.
pub open spec fn loaded(index: nat, key: Seq<char>) -> CosignerView {
    seeded(index, base64_bytes(key)->0)
}

/// The registry that signing keys yield, one cosigner per key in order.
pub open spec fn seeded_registry(seeds: Seq<[u8; 32]>) -> Seq<CosignerView> {
    Seq::new(seeds.len(), |i: int| seeded(i as nat, seeds[i]@))
}

/// The configured key material as values.
pub open spec fn key_views(keys: Seq<Option<String>>) -> Seq<Option<Seq<char>>> {
    Seq::new(
        keys.len(),
        |i: int|
            match keys[i] {
                Some(key) => Some(key@),
                None => None,
            },
    )
}

/// The active set that the configured key material yields: in order of
/// position, one cosigner for each position whose key is present and usable.
/// Positions with missing, malformed or wrongly sized keys are left out.
pub open spec fn active_set(keys: Seq<Option<Seq<char>>>) -> Seq<CosignerView>
    decreases keys.len(),
{
    if keys.len() == 0 {
        Seq::empty()
    } else {
        let earlier = active_set(keys.drop_last());
        match keys.last() {
            Some(key) => if loadable(key) {
                earlier.push(loaded((keys.len() - 1) as nat, key))
            } else {
                earlier
            },
            None => earlier,
        }
    }
}

/// The ids of different positions differ.
pub proof fn lemma_cosigner_ids_differ(i: nat, j: nat)
    requires
        i != j,
    ensures
        decode_utf8(cosigner_id(i)) != decode_utf8(cosigner_id(j)),
{
    encode_utf8_valid_utf8("cosigner_"@);
    lemma_decimal_digits(i);
    lemma_decimal_digits(j);
    lemma_ascii_is_utf8(decimal(i));
    lemma_ascii_is_utf8(decimal(j));
    valid_utf8_concat(text("cosigner_"), decimal(i));
    valid_utf8_concat(text("cosigner_"), decimal(j));
    vstd::utf8::decode_utf8_encode_utf8(cosigner_id(i));
    vstd::utf8::decode_utf8_encode_utf8(cosigner_id(j));
    if decode_utf8(cosigner_id(i)) == decode_utf8(cosigner_id(j)) {
        crate::decoding::lemma_cancel(text("cosigner_"), decimal(i), decimal(j));
        crate::decoding::lemma_decimal_value(i);
        crate::decoding::lemma_decimal_value(j);
    }
}

/// The active set that key material yields is a well-formed registry: every
/// cosigner holds a matching key pair, and no two share an id.
pub proof fn lemma_active_set_wf(keys: Seq<Option<Seq<char>>>)
    ensures
        registry_wf(active_set(keys)),
        forall|j: int|
            0 <= j < active_set(keys).len() ==> exists|i: nat|
                i < keys.len() && (#[trigger] active_set(keys)[j]).id == decode_utf8(
                    #[trigger] cosigner_id(i),
                ),
    decreases keys.len(),
{
    if keys.len() > 0 {
        let earlier = active_set(keys.drop_last());
        let active = active_set(keys);
        let last = (keys.len() - 1) as nat;
        lemma_active_set_wf(keys.drop_last());
        assert forall|j: int| 0 <= j < active.len() implies exists|i: nat|
            i < keys.len() && (#[trigger] active[j]).id == decode_utf8(
                #[trigger] cosigner_id(i),
            ) by {
            if j < earlier.len() {
                let i = choose|i: nat|
                    i < keys.drop_last().len() && earlier[j].id == decode_utf8(
                        #[trigger] cosigner_id(i),
                    );
            }
        }
        assert forall|a: int, b: int| 0 <= a < b < active.len() implies (#[trigger] active[a]).id
            != (#[trigger] active[b]).id by {
            if b == earlier.len() {
                let i = choose|i: nat|
                    i < keys.drop_last().len() && earlier[a].id == decode_utf8(
                        #[trigger] cosigner_id(i),
                    );
                lemma_cosigner_ids_differ(i, last);
            }
        }
        assert forall|a: int| 0 <= a < active.len() implies is_key_pair(#[trigger] active[a]) by {
        }
    }
}

/// The id of the cosigner configured at position `index`.
fn cosigner_name(index: usize) -> (id: String)
    ensures
        id@ == decode_utf8(cosigner_id(index as nat)),
        encode_utf8(id@) == cosigner_id(index as nat),
{
    let mut bytes: Vec<u8> = Vec::new();
    push_text(&mut bytes, "cosigner_");
    push_decimal(&mut bytes, index as u64);
    proof {
        encode_utf8_valid_utf8("cosigner_"@);
        lemma_decimal_digits(index as nat);
        lemma_ascii_is_utf8(decimal(index as nat));
        valid_utf8_concat(text("cosigner_"), decimal(index as nat));
        vstd::utf8::decode_utf8_encode_utf8(bytes@);
    }
    match string_from_utf8(bytes) {
        Ok(id) => id,
        Err(_) => {
            String::new()
        },
    }
}

/// Loads the cosigner configured at position `index` from its key material,
/// the signing key in base64. Key material that is not base64, or that does
/// not decode to exactly 32 bytes, is a configuration error.
pub fn load_cosigner(index: usize, key: &str) -> (res: Result<Cosigner, CoreError>)
    ensures
        match res {
            Ok(cosigner) => loadable(key@) && cosigner@ == loaded(index as nat, key@),
            Err(e) => e == CoreError::Configuration && !loadable(key@),
        },
{
    match base64_decode(key) {
        Err(_) => Err(CoreError::Configuration),
        Ok(raw) => match to_32(raw.as_slice()) {
            None => Err(CoreError::Configuration),
            Some(seed) => Ok(Cosigner::from_seed(cosigner_name(index), seed)),
        },
    }
}

/// A registry made of the given signing keys, as a provider of freshly
/// generated keys hands them over: one cosigner per key, in order, each with
/// the id of its position.
pub fn cosigners_from_seeds(seeds: &[[u8; 32]]) -> (cosigners: Vec<Cosigner>)
    ensures
        cosigner_views(cosigners@) == seeded_registry(seeds@),
        registry_wf(cosigner_views(cosigners@)),
{
    let mut cosigners: Vec<Cosigner> = Vec::new();
    let mut i: usize = 0;
    while i < seeds.len()
        invariant
            i <= seeds@.len(),
            cosigners@.len() == i,
            forall|j: int| 0 <= j < i ==> (#[trigger] cosigners@[j])@ == seeded(j as nat, seeds@[j]@),
        decreases seeds@.len() - i,
    {
        cosigners.push(Cosigner::from_seed(cosigner_name(i), seeds[i]));
        i = i + 1;
    }
    proof {
        let registry = cosigner_views(cosigners@);
        assert(registry =~= seeded_registry(seeds@));
        assert forall|a: int, b: int| 0 <= a < b < registry.len() implies (#[trigger] registry[a]).id
            != (#[trigger] registry[b]).id by {
            lemma_cosigner_ids_differ(a as nat, b as nat);
        }
    }
    cosigners
}

/// Loads the active set of cosigners from the configured key material, one
/// optional key per position. A position whose key is missing or unusable is
/// left out of the active set; the others keep their order.
pub fn load_cosigners(keys: &[Option<String>]) -> (cosigners: Vec<Cosigner>)
    ensures
        cosigner_views(cosigners@) == active_set(key_views(keys@)),
        registry_wf(cosigner_views(cosigners@)),
{
    proof {
        lemma_active_set_wf(key_views(keys@));
    }
    let mut cosigners: Vec<Cosigner> = Vec::new();
    let mut i: usize = 0;
    while i < keys.len()
        invariant
            i <= keys@.len(),
            cosigner_views(cosigners@) == active_set(key_views(keys@).take(i as int)),
        decreases keys@.len() - i,
    {
        let ghost upto = key_views(keys@).take(i + 1);
        assert(upto.drop_last() =~= key_views(keys@).take(i as int));
        match &keys[i] {
            Some(key) => {
                match load_cosigner(i, key.as_str()) {
                    Ok(cosigner) => {
                        cosigners.push(cosigner);
                    },
                    Err(_) => {},
                }
            },
            None => {},
        }
        i = i + 1;
    }
    assert(key_views(keys@).take(keys@.len() as int) =~= key_views(keys@));
    cosigners
}

/// Signing states of a candidate tree head.
#[derive(Clone, Copy, Debug, PartialEq, Eq, Structural)]
pub enum CosignState {
    /// No signature has been collected yet and cosigners remain to be asked.
    Pending,
    /// Some signatures have been collected, fewer than the threshold, and
    /// cosigners remain to be asked.
    PartiallySigned,
    /// The threshold has been met.
    Quorate,
    /// Every cosigner has been asked and the threshold has not been met.
    Unreachable,
}

/// The state of a signing round that has collected `collected` signatures
/// for `threshold`, with `remaining` cosigners not yet asked.
pub open spec fn state_of(collected: nat, remaining: nat, threshold: nat) -> CosignState {
    if collected >= threshold {
        CosignState::Quorate
    } else if remaining == 0 {
        CosignState::Unreachable
    } else if collected == 0 {
        CosignState::Pending
    } else {
        CosignState::PartiallySigned
    }
}

/// The state of a signing round.
pub fn cosign_state(collected: usize, remaining: usize, threshold: usize) -> (state: CosignState)
    ensures
        state == state_of(collected as nat, remaining as nat, threshold as nat),
{
    if collected >= threshold {
        CosignState::Quorate
    } else if remaining == 0 {
        CosignState::Unreachable
    } else if collected == 0 {
        CosignState::Pending
    } else {
        CosignState::PartiallySigned
    }
}

/// Signs `message` for `threshold`: asks the cosigners in registry order, one
/// signature each, and stops as soon as `threshold` signatures have been
/// collected. Cosigners behind that point are not asked.
pub fn sign_threshold(message: &[u8], cosigners: &[Cosigner], threshold: usize) -> (records: Vec<
    SignatureData,
>)
    ensures
        record_views(records@) == collected(
            message@,
            cosigner_views(cosigners@),
            threshold as nat,
        ),
        records@.len() == signers_needed(cosigners@.len(), threshold as nat),
        forall|k: int|
            0 <= k < records@.len() ==> well_signed(
                ed25519_public_key(cosigners@[k]@.signing),
                message@,
                (#[trigger] records@[k])@.sig,
            ),
        state_of(records@.len(), (cosigners@.len() - records@.len()) as nat, threshold as nat)
            == if cosigners@.len() >= threshold {
            CosignState::Quorate
        } else {
            CosignState::Unreachable
        },
{
    let mut records: Vec<SignatureData> = Vec::new();
    let mut i: usize = 0;
    while i < cosigners.len() && records.len() < threshold
        invariant
            i <= cosigners@.len(),
            records@.len() == i,
            i <= threshold,
            forall|k: int|
                0 <= k < i ==> (#[trigger] records@[k])@ == signed_record(
                    message@,
                    cosigners@[k]@,
                ),
            forall|k: int|
                0 <= k < i ==> well_signed(
                    ed25519_public_key(cosigners@[k]@.signing),
                    message@,
                    (#[trigger] records@[k])@.sig,
                ),
        decreases cosigners@.len() - i,
    {
        let record = cosigners[i].sign(message);
        records.push(record);
        i = i + 1;
    }
    records
}

/// Signs `message` for the default threshold of two.
pub fn sign_sth(sth_hash: &[u8], cosigners: &[Cosigner]) -> (records: Vec<SignatureData>)
    ensures
        record_views(records@) == collected(
            sth_hash@,
            cosigner_views(cosigners@),
            DEFAULT_THRESHOLD as nat,
        ),
        records@.len() == signers_needed(cosigners@.len(), DEFAULT_THRESHOLD as nat),
        forall|k: int|
            0 <= k < records@.len() ==> well_signed(
                ed25519_public_key(cosigners@[k]@.signing),
                sth_hash@,
                (#[trigger] records@[k])@.sig,
            ),
{
    sign_threshold(sth_hash, cosigners, DEFAULT_THRESHOLD)
}

/// The first cosigner that carries `id`.
fn find_cosigner(cosigners: &[Cosigner], id: &String) -> (found: Option<usize>)
    ensures
        match found {
            Some(i) => resolves_to(cosigner_views(cosigners@), id@, i as int),
            None => forall|i: int| 0 <= i < cosigners@.len() ==> cosigners@[i]@.id != id@,
        },
{
    let mut i: usize = 0;
    while i < cosigners.len()
        invariant
            i <= cosigners@.len(),
            forall|j: int| 0 <= j < i ==> (#[trigger] cosigner_views(cosigners@)[j]).id != id@,
        decreases cosigners@.len() - i,
    {
        if cosigners[i].id == *id {
            return Some(i);
        }
        i = i + 1;
    }
    assert forall|i: int| 0 <= i < cosigners@.len() implies cosigners@[i]@.id != id@ by {
        assert(cosigner_views(cosigners@)[i].id != id@);
    }
    None
}

/// The signing key of the cosigner that `id` names, if it names one.
pub fn signing_key_of(cosigners: &[Cosigner], id: &String) -> (key: Option<[u8; 32]>)
    ensures
        match key {
            Some(bytes) => exists|i: int|
                #[trigger] resolves_to(cosigner_views(cosigners@), id@, i) && bytes@
                    == cosigners@[i]@.signing,
            None => forall|i: int| 0 <= i < cosigners@.len() ==> cosigners@[i]@.id != id@,
        },
{
    match find_cosigner(cosigners, id) {
        Some(i) => Some(cosigners[i].signing),
        None => None,
    }
}

/// The verifying key of the cosigner that `id` names, if it names one.
pub fn verifying_key_of(cosigners: &[Cosigner], id: &String) -> (key: Option<[u8; 32]>)
    ensures
        match key {
            Some(bytes) => exists|i: int|
                #[trigger] resolves_to(cosigner_views(cosigners@), id@, i) && bytes@
                    == cosigners@[i]@.verifying,
            None => forall|i: int| 0 <= i < cosigners@.len() ==> cosigners@[i]@.id != id@,
        },
{
    match find_cosigner(cosigners, id) {
        Some(i) => Some(cosigners[i].verifying),
        None => None,
    }
}

/// The cosigner for whom `record` counts, if it counts for any.
fn signer_of(message: &[u8], record: &SignatureData, cosigners: &[Cosigner]) -> (signer: Option<
    usize,
>)
    ensures
        match signer {
            Some(i) => accepted_from(message@, record@, cosigner_views(cosigners@), i as int),
            None => forall|i: int|
                !accepted_from(message@, record@, cosigner_views(cosigners@), i),
        },
{
    let found = find_cosigner(cosigners, &record.cosigner);
    match found {
        None => None,
        Some(i) => {
            assert forall|j: int|
                accepted_from(message@, record@, cosigner_views(cosigners@), j) implies j == i by {
            }
            match base64_decode(record.sig.as_str()) {
                Err(_) => None,
                Ok(raw) => match to_64(raw.as_slice()) {
                    None => None,
                    Some(signature) => {
                        if ed25519_verify(&cosigners[i].verifying, message, &signature) {
                            Some(i)
                        } else {
                            None
                        }
                    },
                },
            }
        },
    }
}

/// The valid signers are cosigners of the registry, so they are finitely
/// many and no more than the registry holds.
pub proof fn lemma_valid_signers_in_registry(
    message: Seq<u8>,
    records: Seq<SignatureView>,
    cosigners: Seq<CosignerView>,
)
    ensures
        valid_signers(message, records, cosigners).finite(),
        valid_signers(message, records, cosigners).len() <= cosigners.len(),
        forall|i: int|
            valid_signers(message, records, cosigners).contains(i) ==> 0 <= i < cosigners.len(),
{
    let signers = valid_signers(message, records, cosigners);
    let all = set_int_range(0, cosigners.len() as int);
    lemma_int_range(0, cosigners.len() as int);
    lemma_len_subset(signers, all);
}

/// One more record adds its cosigner to the valid signers if it counts for
/// one, and changes nothing otherwise.
pub proof fn lemma_valid_signers_step(
    message: Seq<u8>,
    records: Seq<SignatureView>,
    cosigners: Seq<CosignerView>,
    k: int,
)
    requires
        0 <= k < records.len(),
    ensures
        forall|i: int|
            accepted_from(message, records[k], cosigners, i) ==> #[trigger] valid_signers(
                message,
                records.take(k),
                cosigners,
            ).insert(i) == valid_signers(message, records.take(k + 1), cosigners),
        (forall|i: int| !accepted_from(message, records[k], cosigners, i)) ==> valid_signers(
            message,
            records.take(k),
            cosigners,
        ) == valid_signers(message, records.take(k + 1), cosigners),
{
    let shorter = records.take(k);
    let longer = records.take(k + 1);
    let before = valid_signers(message, shorter, cosigners);
    let after = valid_signers(message, longer, cosigners);
    assert forall|i: int| before.contains(i) implies after.contains(i) by {
        let w = choose|w: int|
            0 <= w < shorter.len() && #[trigger] accepted_from(message, shorter[w], cosigners, i);
    }
    assert forall|i: int| after.contains(i) implies before.contains(i) || accepted_from(
        message,
        records[k],
        cosigners,
        i,
    ) by {
        let w = choose|w: int|
            0 <= w < longer.len() && #[trigger] accepted_from(message, longer[w], cosigners, i);
    }
    assert forall|i: int| accepted_from(message, records[k], cosigners, i) implies before.insert(i)
        == after by {
        assert(accepted_from(message, longer[k], cosigners, i));
        assert forall|j: int| accepted_from(message, records[k], cosigners, j) implies j == i by {
        }
    }
}

/// Whether `k` records are the shortest prefix of `records` with which the
/// quorum is reached.
pub open spec fn quorum_reached_at(
    message: Seq<u8>,
    records: Seq<SignatureView>,
    cosigners: Seq<CosignerView>,
    threshold: nat,
    k: int,
) -> bool {
    &&& 0 <= k <= records.len()
    &&& reaches_quorum(message, records.take(k), cosigners, threshold)
    &&& forall|j: int|
        0 <= j < k ==> !reaches_quorum(message, #[trigger] records.take(j), cosigners, threshold)
}

/// A longer list of records has at least the valid signers of a shorter one.
pub proof fn lemma_valid_signers_grow(
    message: Seq<u8>,
    records: Seq<SignatureView>,
    cosigners: Seq<CosignerView>,
    j: int,
    k: int,
)
    requires
        0 <= j <= k <= records.len(),
    ensures
        valid_signers(message, records.take(j), cosigners).len() <= valid_signers(
            message,
            records.take(k),
            cosigners,
        ).len(),
{
    let shorter = records.take(j);
    let longer = records.take(k);
    let short = valid_signers(message, shorter, cosigners);
    let long = valid_signers(message, longer, cosigners);
    assert forall|i: int| short.contains(i) implies long.contains(i) by {
        let w = choose|w: int|
            0 <= w < shorter.len() && #[trigger] accepted_from(message, shorter[w], cosigners, i);
    }
    lemma_valid_signers_in_registry(message, records.take(k), cosigners);
    lemma_len_subset(short, long);
}

/// Examines `signatures` in order until `threshold` distinct cosigners have
/// validly signed `message`, and no further. Returns whether the quorum was
/// reached and how many records were examined.
pub fn scan_for_quorum(
    message: &[u8],
    signatures: &[SignatureData],
    cosigners: &[Cosigner],
    threshold: usize,
) -> (scan: (bool, usize))
    ensures
        scan.0 == reaches_quorum(
            message@,
            record_views(signatures@),
            cosigner_views(cosigners@),
            threshold as nat,
        ),
        scan.0 ==> quorum_reached_at(
            message@,
            record_views(signatures@),
            cosigner_views(cosigners@),
            threshold as nat,
            scan.1 as int,
        ),
        !scan.0 ==> scan.1 == signatures@.len(),
{
    let ghost records = record_views(signatures@);
    let ghost registry = cosigner_views(cosigners@);
    let mut counted: Vec<bool> = Vec::new();
    let mut c: usize = 0;
    while c < cosigners.len()
        invariant
            c <= cosigners@.len(),
            counted@.len() == c,
            forall|i: int| 0 <= i < c ==> !counted@[i],
        decreases cosigners@.len() - c,
    {
        counted.push(false);
        c = c + 1;
    }
    let mut valid: usize = 0;
    let mut k: usize = 0;
    proof {
        assert(valid_signers(message@, records.take(0), registry) =~= Set::<int>::empty());
    }
    while k < signatures.len() && valid < threshold
        invariant
            k <= signatures@.len(),
            records == record_views(signatures@),
            registry == cosigner_views(cosigners@),
            counted@.len() == cosigners@.len(),
            valid_signers(message@, records.take(k as int), registry).finite(),
            valid == valid_signers(message@, records.take(k as int), registry).len(),
            forall|i: int|
                0 <= i < counted@.len() ==> counted@[i] == valid_signers(
                    message@,
                    records.take(k as int),
                    registry,
                ).contains(i),
            forall|j: int|
                0 <= j < k ==> !reaches_quorum(
                    message@,
                    #[trigger] records.take(j),
                    registry,
                    threshold as nat,
                ),
        decreases signatures@.len() - k,
    {
        let ghost before = valid_signers(message@, records.take(k as int), registry);
        proof {
            lemma_valid_signers_step(message@, records, registry, k as int);
        }
        let signer = signer_of(message, &signatures[k], cosigners);
        match signer {
            Some(i) => {
                assert(before.insert(i as int) == valid_signers(
                    message@,
                    records.take(k + 1),
                    registry,
                ));
                if !counted[i] {
                    counted.set(i, true);
                    valid = valid + 1;
                }
            },
            None => {},
        }
        k = k + 1;
    }
    proof {
        if valid >= threshold {
            lemma_valid_signers_grow(message@, records, registry, k as int, records.len() as int);
        }
        assert(records.take(records.len() as int) =~= records);
    }
    (valid >= threshold, k)
}

/// Whether at least `threshold` distinct registered cosigners validly signed
/// `message` among `signatures`. Records with an unknown id, a malformed
/// signature or a signature that does not verify are passed over, several
/// records of one cosigner count once, and the scan stops at the record with
/// which the threshold is met.
pub fn verify_threshold(
    sth_hash: &[u8],
    signatures: &[SignatureData],
    cosigners: &[Cosigner],
    threshold: usize,
) -> (ok: bool)
    ensures
        ok == reaches_quorum(
            sth_hash@,
            record_views(signatures@),
            cosigner_views(cosigners@),
            threshold as nat,
        ),
{
    scan_for_quorum(sth_hash, signatures, cosigners, threshold).0
}

/// No list of records has more valid signers than records: to reach a
/// threshold of `t`, at least `t` records are needed.
pub proof fn lemma_valid_signers_at_most_records(
    message: Seq<u8>,
    records: Seq<SignatureView>,
    cosigners: Seq<CosignerView>,
)
    ensures
        valid_signers(message, records, cosigners).len() <= records.len(),
        forall|threshold: nat|
            records.len() < threshold ==> !#[trigger] reaches_quorum(
                message,
                records,
                cosigners,
                threshold,
            ),
    decreases records.len(),
{
    if records.len() == 0 {
        assert(valid_signers(message, records, cosigners) =~= Set::<int>::empty());
    } else {
        let k = records.len() - 1;
        lemma_valid_signers_at_most_records(message, records.take(k), cosigners);
        lemma_valid_signers_in_registry(message, records.take(k), cosigners);
        lemma_valid_signers_step(message, records, cosigners, k);
        assert(records.take(k + 1) =~= records);
        let before = valid_signers(message, records.take(k), cosigners);
        if exists|i: int| accepted_from(message, records[k], cosigners, i) {
            let i = choose|i: int| accepted_from(message, records[k], cosigners, i);
            assert(before.insert(i) == valid_signers(message, records, cosigners));
        }
    }
}

/// Records that all carry one cosigner id count at most once, however many
/// they are and whether or not they differ.
pub proof fn lemma_one_cosigner_counts_once(
    message: Seq<u8>,
    records: Seq<SignatureView>,
    cosigners: Seq<CosignerView>,
    id: Seq<char>,
)
    requires
        forall|k: int| 0 <= k < records.len() ==> (#[trigger] records[k]).cosigner == id,
    ensures
        valid_signers(message, records, cosigners).len() <= 1,
        forall|threshold: nat|
            threshold >= 2 ==> !#[trigger] reaches_quorum(message, records, cosigners, threshold),
{
    let signers = valid_signers(message, records, cosigners);
    if exists|i: int| signers.contains(i) {
        let i = choose|i: int| signers.contains(i);
        let w = choose|w: int|
            0 <= w < records.len() && #[trigger] accepted_from(message, records[w], cosigners, i);
        assert forall|j: int| signers.contains(j) implies j == i by {
            let v = choose|v: int|
                0 <= v < records.len() && #[trigger] accepted_from(
                    message,
                    records[v],
                    cosigners,
                    j,
                );
        }
        assert(signers =~= set![i]);
    } else {
        assert(signers =~= Set::<int>::empty());
    }
}

/// Any `threshold` valid signatures of distinct cosigners suffice: if every
/// cosigner of a set of at least `threshold` has a record among `records`
/// that counts for it, the quorum is reached, whatever else `records` holds
/// and in whatever order.
pub proof fn lemma_quorum_from_valid_signatures(
    message: Seq<u8>,
    records: Seq<SignatureView>,
    cosigners: Seq<CosignerView>,
    signers: Set<int>,
    threshold: nat,
)
    requires
        signers.finite(),
        signers.len() >= threshold,
        forall|i: int|
            signers.contains(i) ==> exists|k: int|
                0 <= k < records.len() && #[trigger] accepted_from(
                    message,
                    records[k],
                    cosigners,
                    i,
                ),
    ensures
        reaches_quorum(message, records, cosigners, threshold),
{
    let valid = valid_signers(message, records, cosigners);
    lemma_valid_signers_in_registry(message, records, cosigners);
    lemma_len_subset(signers, valid);
}

/// In a well-formed registry a record that a cosigner signed with its own
/// key counts for that cosigner.
pub proof fn lemma_own_signature_accepted(
    message: Seq<u8>,
    record: SignatureView,
    cosigners: Seq<CosignerView>,
    i: int,
)
    requires
        registry_wf(cosigners),
        0 <= i < cosigners.len(),
        record.cosigner == cosigners[i].id,
        well_signed(ed25519_public_key(cosigners[i].signing), message, record.sig),
    ensures
        accepted_from(message, record, cosigners, i),
{
    assert forall|j: int| 0 <= j < i implies (#[trigger] cosigners[j]).id != record.cosigner by {
    }
}

/// In a well-formed registry the signatures of any `threshold` distinct
/// cosigners, each made with the cosigner's own key, reach the quorum, in
/// whatever order they stand.
pub proof fn lemma_genuine_signatures_reach_quorum(
    message: Seq<u8>,
    records: Seq<SignatureView>,
    cosigners: Seq<CosignerView>,
    signers: Seq<int>,
    threshold: nat,
)
    requires
        registry_wf(cosigners),
        signers.len() == records.len(),
        signers.no_duplicates(),
        signers.len() >= threshold,
        forall|k: int|
            0 <= k < records.len() ==> 0 <= #[trigger] signers[k] < cosigners.len()
                && records[k].cosigner == cosigners[signers[k]].id && well_signed(
                ed25519_public_key(cosigners[signers[k]].signing),
                message,
                records[k].sig,
            ),
    ensures
        reaches_quorum(message, records, cosigners, threshold),
{
    let set = signers.to_set();
    signers.unique_seq_to_set();
    assert forall|i: int| set.contains(i) implies exists|k: int|
        0 <= k < records.len() && #[trigger] accepted_from(message, records[k], cosigners, i) by {
        let k = choose|k: int| 0 <= k < signers.len() && signers[k] == i;
        lemma_own_signature_accepted(message, records[k], cosigners, i);
    }
    lemma_quorum_from_valid_signatures(message, records, cosigners, set, threshold);
}

/// In a well-formed registry the records of the first `records.len()`
/// cosigners, each signed with the cosigner's own key, make exactly those
/// cosigners valid signers. So they reach a threshold if and only if they are
/// at least that many.
pub proof fn lemma_own_signatures_count(
    message: Seq<u8>,
    records: Seq<SignatureView>,
    cosigners: Seq<CosignerView>,
)
    requires
        registry_wf(cosigners),
        records.len() <= cosigners.len(),
        forall|k: int|
            0 <= k < records.len() ==> (#[trigger] records[k]).cosigner == cosigners[k].id
                && well_signed(ed25519_public_key(cosigners[k].signing), message, records[k].sig),
    ensures
        valid_signers(message, records, cosigners) == set_int_range(0, records.len() as int),
        valid_signers(message, records, cosigners).len() == records.len(),
        forall|threshold: nat|
            #[trigger] reaches_quorum(message, records, cosigners, threshold) <==> records.len()
                >= threshold,
{
    let valid = valid_signers(message, records, cosigners);
    let firsts = set_int_range(0, records.len() as int);
    lemma_int_range(0, records.len() as int);
    assert forall|k: int| 0 <= k < records.len() implies accepted_from(
        message,
        records[k],
        cosigners,
        k,
    ) by {
        assert forall|j: int| 0 <= j < k implies (#[trigger] cosigners[j]).id
            != records[k].cosigner by {
        }
    }
    assert forall|i: int| valid.contains(i) implies firsts.contains(i) by {
        let w = choose|w: int|
            0 <= w < records.len() && #[trigger] accepted_from(message, records[w], cosigners, i);
    }
    assert forall|i: int| firsts.contains(i) implies valid.contains(i) by {
        assert(accepted_from(message, records[i], cosigners, i));
    }
}

} // verus!
