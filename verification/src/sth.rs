//! Signed tree heads and their canonical encoding.

use crate::encoding::{
    array, decimal, decimal_bytes, joined, lemma_decimal_newline_free, lemma_joined_newline_free,
    lemma_joined_take, lemma_member_newline_free, lemma_quoted_newline_free,
    lemma_text_newline_free, member, newline_free, object, push_item, push_member, quoted,
    quoted_bytes, signed_decimal, signed_decimal_bytes, text, CLOSE_BRACE, CLOSE_BRACKET,
    NEWLINE, OPEN_BRACE, OPEN_BRACKET,
};
use vstd::prelude::*;
use vstd::utf8::encode_utf8;

verus! {

/// Quorum parameters: `t` of `n` cosigners must sign.
#[derive(Clone, Copy, Debug, PartialEq, Eq, Structural)]
pub struct Policy {
    pub t: u8,
    pub n: u8,
}

/// One cosigner's signature as a tree head records it: the cosigner's id and
/// the signature in base64.
#[derive(Clone, Debug, PartialEq, Eq)]
pub struct Signature {
    pub cosigner: String,
    pub sig: String,
}

/// A signed tree head: the unit of record of the log.
#[derive(Clone, Debug, PartialEq, Eq)]
pub struct STH {
    /// Number of leaves that `root` covers.
    pub tree_size: usize,
    /// Merkle root of those leaves, in base64.
    pub root: String,
    /// Digest of the preceding tree head's canonical encoding, in base64; the
    /// all-zero digest for the first tree head.
    pub prev_hash: String,
    /// Quorum parameters in effect when this tree head was produced.
    pub policy: Policy,
    /// Seconds since the epoch.
    pub timestamp: i64,
    pub signatures: Vec<Signature>,
}

/// A signature record as a value: what contracts say of a `Signature` or a
/// `SignatureData`.
pub struct SignatureView {
    pub cosigner: Seq<char>,
    pub sig: Seq<char>,
}

/// A tree head as a value: what contracts say of an `STH`.
pub struct SthView {
    pub tree_size: nat,
    pub root: Seq<char>,
    pub prev_hash: Seq<char>,
    pub policy: Policy,
    pub timestamp: int,
    pub signatures: Seq<SignatureView>,
}

impl View for Signature {
    type V = SignatureView;

    open spec fn view(&self) -> SignatureView {
        SignatureView { cosigner: self.cosigner@, sig: self.sig@ }
    }
}

/// The signatures as values.
pub open spec fn signature_views(signatures: Seq<Signature>) -> Seq<SignatureView> {
    Seq::new(signatures.len(), |i: int| signatures[i]@)
}

impl View for STH {
    type V = SthView;

    open spec fn view(&self) -> SthView {
        SthView {
            tree_size: self.tree_size as nat,
            root: self.root@,
            prev_hash: self.prev_hash@,
            policy: self.policy,
            timestamp: self.timestamp as int,
            signatures: signature_views(self.signatures@),
        }
    }
}

/// The encoding of a quorum policy: `{"t":..,"n":..}`.
pub open spec fn policy_encoding(policy: Policy) -> Seq<u8> {
    object(seq![member("t", decimal(policy.t as nat)), member("n", decimal(policy.n as nat))])
}

/// The encoding of a signature record: `{"cosigner":"..","sig":".."}`.
pub open spec fn signature_encoding(signature: SignatureView) -> Seq<u8> {
    object(
        seq![
            member("cosigner", quoted(encode_utf8(signature.cosigner))),
            member("sig", quoted(encode_utf8(signature.sig))),
        ],
    )
}

/// The encodings of the signature records, in order.
pub open spec fn signature_encodings(signatures: Seq<SignatureView>) -> Seq<Seq<u8>> {
    Seq::new(signatures.len(), |i: int| signature_encoding(signatures[i]))
}

/// The members of a tree head's encoding, in their fixed order.
pub open spec fn sth_members(sth: SthView) -> Seq<Seq<u8>> {
    seq![
        member("tree_size", decimal(sth.tree_size)),
        member("root", quoted(encode_utf8(sth.root))),
        member("prev_hash", quoted(encode_utf8(sth.prev_hash))),
        member("policy", policy_encoding(sth.policy)),
        member("timestamp", signed_decimal(sth.timestamp)),
        member("signatures", array(signature_encodings(sth.signatures))),
    ]
}

/// The canonical encoding of a tree head: one JSON object on one line, its
/// members in a fixed order and without optional white space. The chain
/// stores this encoding, and a tree head's `prev_hash` is the digest of its
/// predecessor's.
pub open spec fn canonical(sth: SthView) -> Seq<u8> {
    object(sth_members(sth))
}

/// The tree head without its signatures.
pub open spec fn unsigned(sth: SthView) -> SthView {
    SthView { signatures: Seq::empty(), ..sth }
}

/// The message that cosigners sign: the canonical encoding of the tree head
/// without its signatures.
pub open spec fn signing_message(sth: SthView) -> Seq<u8> {
    canonical(unsigned(sth))
}

/// A tree head whose numbers fit the machine's types.
pub open spec fn representable(sth: SthView) -> bool {
    sth.tree_size <= usize::MAX && i64::MIN <= sth.timestamp <= i64::MAX
}

impl Policy {
    /// A policy of `t` out of `n`, where `1 <= t <= n`.
    pub fn new(t: u8, n: u8) -> (policy: Option<Policy>)
        ensures
            policy == if 1 <= t <= n {
                Some(Policy { t, n })
            } else {
                None
            },
    {
        if 1 <= t && t <= n {
            Some(Policy { t, n })
        } else {
            None
        }
    }

    /// Whether more than half of the cosigners must sign.
    pub fn is_majority(&self) -> (majority: bool)
        ensures
            majority == (2 * self.t > self.n),
    {
        (self.t as u16) * 2 > self.n as u16
    }

    /// The encoding of this policy.
    pub fn encode(&self) -> (out: Vec<u8>)
        ensures
            out@ == policy_encoding(*self),
    {
        let ghost members = seq![
            member("t", decimal(self.t as nat)),
            member("n", decimal(self.n as nat)),
        ];
        let mut out: Vec<u8> = Vec::new();
        out.push(OPEN_BRACE);
        let t = decimal_bytes(self.t as u64);
        push_member(&mut out, true, "t", t.as_slice());
        let n = decimal_bytes(self.n as u64);
        push_member(&mut out, false, "n", n.as_slice());
        out.push(CLOSE_BRACE);
        proof {
            lemma_joined_take(members, 1);
            assert(members.take(2) =~= members);
        }
        out
    }
}

impl Signature {
    /// A copy of this record.
    pub fn duplicate(&self) -> (copy: Signature)
        ensures
            copy@ == self@,
    {
        Signature { cosigner: self.cosigner.clone(), sig: self.sig.clone() }
    }

    /// The encoding of this record.
    pub fn encode(&self) -> (out: Vec<u8>)
        ensures
            out@ == signature_encoding(self@),
    {
        let ghost members = seq![
            member("cosigner", quoted(encode_utf8(self@.cosigner))),
            member("sig", quoted(encode_utf8(self@.sig))),
        ];
        let mut out: Vec<u8> = Vec::new();
        out.push(OPEN_BRACE);
        let cosigner = quoted_bytes(self.cosigner.as_str());
        push_member(&mut out, true, "cosigner", cosigner.as_slice());
        let sig = quoted_bytes(self.sig.as_str());
        push_member(&mut out, false, "sig", sig.as_slice());
        out.push(CLOSE_BRACE);
        proof {
            lemma_joined_take(members, 1);
            assert(members.take(2) =~= members);
        }
        out
    }
}

/// Copies of the records, in order.
pub fn duplicate_signatures(signatures: &Vec<Signature>) -> (copy: Vec<Signature>)
    ensures
        signature_views(copy@) == signature_views(signatures@),
{
    let mut copy: Vec<Signature> = Vec::new();
    let mut i: usize = 0;
    while i < signatures.len()
        invariant
            i <= signatures@.len(),
            signature_views(copy@) == signature_views(signatures@).take(i as int),
        decreases signatures@.len() - i,
    {
        copy.push(signatures[i].duplicate());
        i = i + 1;
        assert(signature_views(signatures@).take(i as int) == signature_views(signatures@).take(
            i - 1,
        ).push(signatures@[i - 1]@));
    }
    copy
}

/// The encoding of a list of signature records as an array.
fn encode_signatures(signatures: &Vec<Signature>) -> (out: Vec<u8>)
    ensures
        out@ == array(signature_encodings(signature_views(signatures@))),
{
    let ghost items = signature_encodings(signature_views(signatures@));
    let mut out: Vec<u8> = Vec::new();
    out.push(OPEN_BRACKET);
    let mut i: usize = 0;
    while i < signatures.len()
        invariant
            i <= signatures@.len(),
            items == signature_encodings(signature_views(signatures@)),
            out@ == seq![OPEN_BRACKET] + joined(items.take(i as int)),
        decreases signatures@.len() - i,
    {
        let item = signatures[i].encode();
        push_item(&mut out, i == 0, item.as_slice());
        proof {
            lemma_joined_take(items, i as int);
        }
        i = i + 1;
    }
    out.push(CLOSE_BRACKET);
    proof {
        assert(items.take(items.len() as int) =~= items);
    }
    out
}

/// The canonical encoding of a tree head given by its fields.
fn encode_fields(
    tree_size: usize,
    root: &str,
    prev_hash: &str,
    policy: Policy,
    timestamp: i64,
    signatures: &Vec<Signature>,
) -> (out: Vec<u8>)
    ensures
        out@ == canonical(
            SthView {
                tree_size: tree_size as nat,
                root: root@,
                prev_hash: prev_hash@,
                policy,
                timestamp: timestamp as int,
                signatures: signature_views(signatures@),
            },
        ),
{
    let ghost members = sth_members(
        SthView {
            tree_size: tree_size as nat,
            root: root@,
            prev_hash: prev_hash@,
            policy,
            timestamp: timestamp as int,
            signatures: signature_views(signatures@),
        },
    );
    let mut out: Vec<u8> = Vec::new();
    out.push(OPEN_BRACE);

    let size = decimal_bytes(tree_size as u64);
    push_member(&mut out, true, "tree_size", size.as_slice());
    let root_text = quoted_bytes(root);
    push_member(&mut out, false, "root", root_text.as_slice());
    proof {
        lemma_joined_take(members, 1);
    }
    let prev_text = quoted_bytes(prev_hash);
    push_member(&mut out, false, "prev_hash", prev_text.as_slice());
    proof {
        lemma_joined_take(members, 2);
    }
    let policy_bytes = policy.encode();
    push_member(&mut out, false, "policy", policy_bytes.as_slice());
    proof {
        lemma_joined_take(members, 3);
    }
    let time = signed_decimal_bytes(timestamp);
    push_member(&mut out, false, "timestamp", time.as_slice());
    proof {
        lemma_joined_take(members, 4);
    }
    let sigs = encode_signatures(signatures);
    push_member(&mut out, false, "signatures", sigs.as_slice());
    proof {
        lemma_joined_take(members, 5);
        assert(members.take(6) =~= members);
    }
    out.push(CLOSE_BRACE);
    out
}

impl STH {
    /// A copy of this tree head.
    pub fn duplicate(&self) -> (copy: STH)
        ensures
            copy@ == self@,
    {
        STH {
            tree_size: self.tree_size,
            root: self.root.clone(),
            prev_hash: self.prev_hash.clone(),
            policy: self.policy,
            timestamp: self.timestamp,
            signatures: duplicate_signatures(&self.signatures),
        }
    }

    /// The canonical encoding of this tree head.
    pub fn encode(&self) -> (out: Vec<u8>)
        ensures
            out@ == canonical(self@),
    {
        encode_fields(
            self.tree_size,
            self.root.as_str(),
            self.prev_hash.as_str(),
            self.policy,
            self.timestamp,
            &self.signatures,
        )
    }

    /// The line that stores this tree head: its canonical encoding and a
    /// newline.
    pub fn encode_line(&self) -> (out: Vec<u8>)
        ensures
            out@ == canonical(self@) + seq![NEWLINE],
    {
        let mut out = self.encode();
        out.push(NEWLINE);
        out
    }

    /// The message that cosigners of this tree head sign.
    pub fn signing_message(&self) -> (out: Vec<u8>)
        ensures
            out@ == signing_message(self@),
    {
        let none: Vec<Signature> = Vec::new();
        encode_fields(
            self.tree_size,
            self.root.as_str(),
            self.prev_hash.as_str(),
            self.policy,
            self.timestamp,
            &none,
        )
    }
}

/// The member names of the encoding hold no newline.
pub proof fn lemma_names_newline_free()
    ensures
        newline_free(text("tree_size")),
        newline_free(text("root")),
        newline_free(text("prev_hash")),
        newline_free(text("policy")),
        newline_free(text("timestamp")),
        newline_free(text("signatures")),
        newline_free(text("t")),
        newline_free(text("n")),
        newline_free(text("cosigner")),
        newline_free(text("sig")),
{
    reveal_strlit("tree_size");
    reveal_strlit("root");
    reveal_strlit("prev_hash");
    reveal_strlit("policy");
    reveal_strlit("timestamp");
    reveal_strlit("signatures");
    reveal_strlit("t");
    reveal_strlit("n");
    reveal_strlit("cosigner");
    reveal_strlit("sig");
    lemma_text_newline_free("tree_size");
    lemma_text_newline_free("root");
    lemma_text_newline_free("prev_hash");
    lemma_text_newline_free("policy");
    lemma_text_newline_free("timestamp");
    lemma_text_newline_free("signatures");
    lemma_text_newline_free("t");
    lemma_text_newline_free("n");
    lemma_text_newline_free("cosigner");
    lemma_text_newline_free("sig");
}

/// A tree head's canonical encoding holds no newline, so it is one line.
pub proof fn lemma_canonical_newline_free(sth: SthView)
    ensures
        newline_free(canonical(sth)),
{
    lemma_names_newline_free();
    let policy = seq![
        member("t", decimal(sth.policy.t as nat)),
        member("n", decimal(sth.policy.n as nat)),
    ];
    lemma_decimal_newline_free(sth.policy.t as int);
    lemma_decimal_newline_free(sth.policy.n as int);
    lemma_joined_newline_free(policy);

    let items = signature_encodings(sth.signatures);
    assert forall|i: int| 0 <= i < items.len() implies newline_free(#[trigger] items[i]) by {
        let cosigner = quoted(encode_utf8(sth.signatures[i].cosigner));
        let sig = quoted(encode_utf8(sth.signatures[i].sig));
        lemma_quoted_newline_free(encode_utf8(sth.signatures[i].cosigner));
        lemma_quoted_newline_free(encode_utf8(sth.signatures[i].sig));
        lemma_member_newline_free("sig", sig);
        lemma_joined_newline_free(seq![member("cosigner", cosigner), member("sig", sig)]);
    }
    lemma_joined_newline_free(items);

    lemma_decimal_newline_free(sth.tree_size as int);
    lemma_decimal_newline_free(sth.timestamp);
    lemma_quoted_newline_free(encode_utf8(sth.root));
    lemma_quoted_newline_free(encode_utf8(sth.prev_hash));
    lemma_joined_newline_free(sth_members(sth));
}

} // verus!
