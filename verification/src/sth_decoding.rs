//! Reading tree heads back from their canonical encoding, and why the
//! encoding tells tree heads apart.

use crate::decoding::{
    after_item, enter_member, lemma_array_opens, lemma_cancel, lemma_decimal_unique,
    lemma_joined_front, lemma_member_cancel, lemma_object_opens, lemma_quoted_text_unique,
    lemma_signed_decimal_unique, lemma_stands_at, read_decimal, read_signed_decimal,
    read_string, stands_at, step_over,
};
use crate::encoding::{
    array, decimal, joined, member, quoted, signed_decimal, CLOSE_BRACE, CLOSE_BRACKET, COMMA,
    OPEN_BRACE, OPEN_BRACKET,
};
use crate::sth::{
    canonical, policy_encoding, representable, signature_encoding, signature_encodings,
    signature_views, sth_members, Policy, Signature, SignatureView, SthView, STH,
};
use vstd::prelude::*;
use vstd::utf8::encode_utf8;

verus! {

/// Whether `line` is the canonical encoding of a tree head.
pub open spec fn decodable(line: Seq<u8>) -> bool {
    exists|v: SthView| representable(v) && #[trigger] canonical(v) == line
}

/// The tree head that `line` encodes, where it encodes one.
pub open spec fn decoded(line: Seq<u8>) -> SthView {
    choose|v: SthView| representable(v) && #[trigger] canonical(v) == line
}

/// A tree head's encoding decodes to the tree head.
pub proof fn lemma_decoded_canonical(sth: SthView)
    requires
        representable(sth),
    ensures
        decodable(canonical(sth)),
        decoded(canonical(sth)) == sth,
{
    lemma_canonical_unique(decoded(canonical(sth)), sth);
}

/// Reads a policy at `pos`. Where a policy's encoding stands there, the
/// result is that policy and the position behind it.
fn read_policy(input: &[u8], pos: usize, Ghost(policy): Ghost<Policy>, Ghost(rest): Ghost<Seq<u8>>) -> (r:
    Option<(Policy, usize)>)
    ensures
        r matches Some((_, end)) ==> pos < end <= input@.len(),
        stands_at(input@, pos as int, policy_encoding(policy), rest) ==> (r matches Some(
            (read, end),
        ) && read == policy && input@.skip(end as int) == rest),
{
    let ghost members = seq![
        member("t", decimal(policy.t as nat)),
        member("n", decimal(policy.n as nat)),
    ];
    let ghost suffix = seq![CLOSE_BRACE] + rest;
    proof {
        lemma_object_opens(members, rest);
    }
    let at = step_over(input, pos, OPEN_BRACE, Ghost(joined(members.skip(0)) + suffix))?;
    let at = enter_member(
        input,
        at,
        "t",
        Ghost(members),
        Ghost(0),
        Ghost(decimal(policy.t as nat)),
        Ghost(suffix),
    )?;
    let (t, at) = read_decimal(
        input,
        at,
        Ghost(policy.t as nat),
        Ghost(after_item(members, 0, suffix)),
    )?;
    let at = step_over(input, at, COMMA, Ghost(joined(members.skip(1)) + suffix))?;
    let at = enter_member(
        input,
        at,
        "n",
        Ghost(members),
        Ghost(1),
        Ghost(decimal(policy.n as nat)),
        Ghost(suffix),
    )?;
    let (n, at) = read_decimal(input, at, Ghost(policy.n as nat), Ghost(suffix))?;
    let at = step_over(input, at, CLOSE_BRACE, Ghost(rest))?;
    if t > 255 || n > 255 {
        return None;
    }
    Some((Policy { t: t as u8, n: n as u8 }, at))
}

/// Reads a signature record at `pos`. Where a record's encoding stands there,
/// the result is that record and the position behind it.
fn read_signature(
    input: &[u8],
    pos: usize,
    Ghost(signature): Ghost<SignatureView>,
    Ghost(rest): Ghost<Seq<u8>>,
) -> (r: Option<(Signature, usize)>)
    ensures
        r matches Some((_, end)) ==> pos < end <= input@.len(),
        stands_at(input@, pos as int, signature_encoding(signature), rest) ==> (r matches Some(
            (read, end),
        ) && read@ == signature && input@.skip(end as int) == rest),
{
    let ghost cosigner = quoted(encode_utf8(signature.cosigner));
    let ghost sig = quoted(encode_utf8(signature.sig));
    let ghost members = seq![member("cosigner", cosigner), member("sig", sig)];
    let ghost suffix = seq![CLOSE_BRACE] + rest;
    proof {
        lemma_object_opens(members, rest);
    }
    let at = step_over(input, pos, OPEN_BRACE, Ghost(joined(members.skip(0)) + suffix))?;
    let at = enter_member(
        input,
        at,
        "cosigner",
        Ghost(members),
        Ghost(0),
        Ghost(cosigner),
        Ghost(suffix),
    )?;
    let (id, at) = read_string(
        input,
        at,
        Ghost(signature.cosigner),
        Ghost(after_item(members, 0, suffix)),
    )?;
    let at = step_over(input, at, COMMA, Ghost(joined(members.skip(1)) + suffix))?;
    let at = enter_member(input, at, "sig", Ghost(members), Ghost(1), Ghost(sig), Ghost(suffix))?;
    let (text, at) = read_string(input, at, Ghost(signature.sig), Ghost(suffix))?;
    let at = step_over(input, at, CLOSE_BRACE, Ghost(rest))?;
    Some((Signature { cosigner: id, sig: text }, at))
}

/// Reads an array of signature records at `pos`. Where the encoding of a
/// list of records stands there, the result is that list and the position
/// behind it.
#[verifier::loop_isolation(false)]
fn read_signatures(
    input: &[u8],
    pos: usize,
    Ghost(signatures): Ghost<Seq<SignatureView>>,
    Ghost(rest): Ghost<Seq<u8>>,
) -> (r: Option<(Vec<Signature>, usize)>)
    ensures
        r matches Some((_, end)) ==> pos < end <= input@.len(),
        stands_at(input@, pos as int, array(signature_encodings(signatures)), rest) ==> (
        r matches Some((read, end)) && signature_views(read@) == signatures && input@.skip(
            end as int,
        ) == rest),
{
    let ghost hyp = stands_at(input@, pos as int, array(signature_encodings(signatures)), rest);
    let ghost items = signature_encodings(signatures);
    let ghost suffix = seq![CLOSE_BRACKET] + rest;
    proof {
        lemma_array_opens(items, rest);
    }
    let start = step_over(input, pos, OPEN_BRACKET, Ghost(joined(items.skip(0)) + suffix))?;
    let mut read: Vec<Signature> = Vec::new();
    proof {
        if hyp {
            if items.len() == 0 {
                lemma_stands_at(input@, start as int, seq![CLOSE_BRACKET], rest);
            } else {
                lemma_joined_front(items, 0, suffix);
                lemma_stands_at(
                    input@,
                    start as int,
                    items[0] + after_item(items, 0, suffix),
                    Seq::empty(),
                );
            }
        }
    }
    if start < input.len() && input[start] == CLOSE_BRACKET {
        return Some((read, start + 1));
    }
    let mut p: usize = start;
    loop
        invariant
            pos < p <= input@.len(),
            hyp ==> read@.len() < items.len() && signature_views(read@) == signatures.take(
                read@.len() as int,
            ) && stands_at(
                input@,
                p as int,
                joined(items.skip(read@.len() as int)) + suffix,
                Seq::empty(),
            ),
        decreases input@.len() - p,
    {
        let ghost k = read@.len() as int;
        let ghost after = after_item(items, k, suffix);
        proof {
            if hyp {
                lemma_joined_front(items, k, suffix);
            }
        }
        let (signature, behind) = read_signature(input, p, Ghost(signatures[k]), Ghost(after))?;
        read.push(signature);
        proof {
            if hyp {
                assert(signature_views(read@) =~= signatures.take(k + 1));
                if k + 1 < items.len() {
                    lemma_stands_at(
                        input@,
                        behind as int,
                        seq![COMMA],
                        joined(items.skip(k + 1)) + suffix,
                    );
                } else {
                    lemma_stands_at(input@, behind as int, seq![CLOSE_BRACKET], rest);
                }
            }
        }
        if behind < input.len() && input[behind] == COMMA {
            p = behind + 1;
        } else {
            let end = step_over(input, behind, CLOSE_BRACKET, Ghost(rest))?;
            return Some((read, end));
        }
    }
}

/// Reads a tree head that fills `input`. Where `input` is the canonical
/// encoding of a tree head, the result is that tree head.
fn read_sth(input: &[u8], Ghost(sth): Ghost<SthView>) -> (r: Option<STH>)
    ensures
        canonical(sth) == input@ && representable(sth) ==> (r matches Some(read) && read@ == sth),
{
    let ghost members = sth_members(sth);
    let ghost suffix = seq![CLOSE_BRACE];
    let ghost none = Seq::<u8>::empty();
    proof {
        lemma_object_opens(members, none);
        assert(input@.skip(0) =~= input@);
    }
    let p = step_over(input, 0, OPEN_BRACE, Ghost(joined(members.skip(0)) + suffix))?;

    let p = enter_member(
        input,
        p,
        "tree_size",
        Ghost(members),
        Ghost(0),
        Ghost(decimal(sth.tree_size)),
        Ghost(suffix),
    )?;
    let (tree_size, p) = read_decimal(
        input,
        p,
        Ghost(sth.tree_size),
        Ghost(after_item(members, 0, suffix)),
    )?;
    let p = step_over(input, p, COMMA, Ghost(joined(members.skip(1)) + suffix))?;

    let p = enter_member(
        input,
        p,
        "root",
        Ghost(members),
        Ghost(1),
        Ghost(quoted(encode_utf8(sth.root))),
        Ghost(suffix),
    )?;
    let (root, p) = read_string(input, p, Ghost(sth.root), Ghost(after_item(members, 1, suffix)))?;
    let p = step_over(input, p, COMMA, Ghost(joined(members.skip(2)) + suffix))?;

    let p = enter_member(
        input,
        p,
        "prev_hash",
        Ghost(members),
        Ghost(2),
        Ghost(quoted(encode_utf8(sth.prev_hash))),
        Ghost(suffix),
    )?;
    let (prev_hash, p) = read_string(
        input,
        p,
        Ghost(sth.prev_hash),
        Ghost(after_item(members, 2, suffix)),
    )?;
    let p = step_over(input, p, COMMA, Ghost(joined(members.skip(3)) + suffix))?;

    let p = enter_member(
        input,
        p,
        "policy",
        Ghost(members),
        Ghost(3),
        Ghost(policy_encoding(sth.policy)),
        Ghost(suffix),
    )?;
    let (policy, p) = read_policy(
        input,
        p,
        Ghost(sth.policy),
        Ghost(after_item(members, 3, suffix)),
    )?;
    let p = step_over(input, p, COMMA, Ghost(joined(members.skip(4)) + suffix))?;

    let p = enter_member(
        input,
        p,
        "timestamp",
        Ghost(members),
        Ghost(4),
        Ghost(signed_decimal(sth.timestamp)),
        Ghost(suffix),
    )?;
    let (timestamp, p) = read_signed_decimal(
        input,
        p,
        Ghost(sth.timestamp),
        Ghost(after_item(members, 4, suffix)),
    )?;
    let p = step_over(input, p, COMMA, Ghost(joined(members.skip(5)) + suffix))?;

    let p = enter_member(
        input,
        p,
        "signatures",
        Ghost(members),
        Ghost(5),
        Ghost(array(signature_encodings(sth.signatures))),
        Ghost(suffix),
    )?;
    let (signatures, p) = read_signatures(input, p, Ghost(sth.signatures), Ghost(suffix))?;
    let p = step_over(input, p, CLOSE_BRACE, Ghost(none))?;
    if p != input.len() || tree_size > usize::MAX as u64 {
        return None;
    }
    Some(
        STH { tree_size: tree_size as usize, root, prev_hash, policy, timestamp, signatures },
    )
}

/// Two texts that agree and that both begin with an encoded policy begin
/// with the same policy and go on alike.
pub proof fn lemma_policy_unique(p: Policy, r1: Seq<u8>, q: Policy, r2: Seq<u8>)
    requires
        policy_encoding(p) + r1 == policy_encoding(q) + r2,
    ensures
        p == q,
        r1 == r2,
{
    let mp = seq![member("t", decimal(p.t as nat)), member("n", decimal(p.n as nat))];
    let mq = seq![member("t", decimal(q.t as nat)), member("n", decimal(q.n as nat))];
    let s1 = seq![CLOSE_BRACE] + r1;
    let s2 = seq![CLOSE_BRACE] + r2;
    lemma_object_opens(mp, r1);
    lemma_object_opens(mq, r2);
    lemma_cancel(seq![OPEN_BRACE], joined(mp.skip(0)) + s1, joined(mq.skip(0)) + s2);
    lemma_joined_front(mp, 0, s1);
    lemma_joined_front(mq, 0, s2);
    let a1 = after_item(mp, 0, s1);
    let a2 = after_item(mq, 0, s2);
    lemma_member_cancel("t", decimal(p.t as nat), a1, decimal(q.t as nat), a2);
    lemma_decimal_unique(p.t as nat, a1, q.t as nat, a2);
    lemma_cancel(seq![COMMA], joined(mp.skip(1)) + s1, joined(mq.skip(1)) + s2);
    lemma_member_cancel("n", decimal(p.n as nat), s1, decimal(q.n as nat), s2);
    lemma_decimal_unique(p.n as nat, s1, q.n as nat, s2);
    lemma_cancel(seq![CLOSE_BRACE], r1, r2);
}

/// Two texts that agree and that both begin with an encoded signature record
/// begin with the same record and go on alike.
pub proof fn lemma_signature_unique(
    a: SignatureView,
    r1: Seq<u8>,
    b: SignatureView,
    r2: Seq<u8>,
)
    requires
        signature_encoding(a) + r1 == signature_encoding(b) + r2,
    ensures
        a == b,
        r1 == r2,
{
    let ma = seq![
        member("cosigner", quoted(encode_utf8(a.cosigner))),
        member("sig", quoted(encode_utf8(a.sig))),
    ];
    let mb = seq![
        member("cosigner", quoted(encode_utf8(b.cosigner))),
        member("sig", quoted(encode_utf8(b.sig))),
    ];
    let s1 = seq![CLOSE_BRACE] + r1;
    let s2 = seq![CLOSE_BRACE] + r2;
    lemma_object_opens(ma, r1);
    lemma_object_opens(mb, r2);
    lemma_cancel(seq![OPEN_BRACE], joined(ma.skip(0)) + s1, joined(mb.skip(0)) + s2);
    lemma_joined_front(ma, 0, s1);
    lemma_joined_front(mb, 0, s2);
    let a1 = after_item(ma, 0, s1);
    let a2 = after_item(mb, 0, s2);
    lemma_member_cancel(
        "cosigner",
        quoted(encode_utf8(a.cosigner)),
        a1,
        quoted(encode_utf8(b.cosigner)),
        a2,
    );
    lemma_quoted_text_unique(a.cosigner, a1, b.cosigner, a2);
    lemma_cancel(seq![COMMA], joined(ma.skip(1)) + s1, joined(mb.skip(1)) + s2);
    lemma_member_cancel("sig", quoted(encode_utf8(a.sig)), s1, quoted(encode_utf8(b.sig)), s2);
    lemma_quoted_text_unique(a.sig, s1, b.sig, s2);
    lemma_cancel(seq![CLOSE_BRACE], r1, r2);
}

/// Two texts that agree and that both hold, from record `k` on, the encoded
/// records of a list up to the closing bracket hold the same records from `k`
/// on and go on alike behind the bracket.
pub proof fn lemma_signatures_from_unique(
    a: Seq<SignatureView>,
    r1: Seq<u8>,
    b: Seq<SignatureView>,
    r2: Seq<u8>,
    k: int,
)
    requires
        0 <= k <= a.len(),
        k <= b.len(),
        joined(signature_encodings(a).skip(k)) + (seq![CLOSE_BRACKET] + r1) == joined(
            signature_encodings(b).skip(k),
        ) + (seq![CLOSE_BRACKET] + r2),
    ensures
        a.skip(k) == b.skip(k),
        r1 == r2,
    decreases a.len() - k,
{
    let ia = signature_encodings(a);
    let ib = signature_encodings(b);
    let s1 = seq![CLOSE_BRACKET] + r1;
    let s2 = seq![CLOSE_BRACKET] + r2;
    let left = joined(ia.skip(k)) + s1;
    if k < a.len() {
        lemma_joined_front(ia, k, s1);
        assert(left[0] == OPEN_BRACE);
    } else {
        assert(left[0] == CLOSE_BRACKET);
    }
    if k < b.len() {
        lemma_joined_front(ib, k, s2);
    }
    if k == a.len() {
        lemma_cancel(seq![CLOSE_BRACKET], r1, r2);
    } else {
        let a1 = after_item(ia, k, s1);
        let a2 = after_item(ib, k, s2);
        lemma_signature_unique(a[k], a1, b[k], a2);
        assert(a1[0] == if k + 1 < a.len() {
            COMMA
        } else {
            CLOSE_BRACKET
        });
        if k + 1 < a.len() {
            lemma_cancel(seq![COMMA], joined(ia.skip(k + 1)) + s1, joined(ib.skip(k + 1)) + s2);
            lemma_signatures_from_unique(a, r1, b, r2, k + 1);
        } else {
            lemma_cancel(seq![CLOSE_BRACKET], r1, r2);
        }
        assert(a.skip(k) =~= seq![a[k]] + a.skip(k + 1));
    }
}

/// The canonical encoding tells tree heads apart: two tree heads with the
/// same encoding are the same.
pub proof fn lemma_canonical_unique(a: SthView, b: SthView)
    requires
        canonical(a) == canonical(b),
    ensures
        a == b,
{
    let ma = sth_members(a);
    let mb = sth_members(b);
    let none = Seq::<u8>::empty();
    let s1 = seq![CLOSE_BRACE] + none;
    let s2 = seq![CLOSE_BRACE] + none;
    lemma_object_opens(ma, none);
    lemma_object_opens(mb, none);
    lemma_cancel(seq![OPEN_BRACE], joined(ma.skip(0)) + s1, joined(mb.skip(0)) + s2);

    lemma_joined_front(ma, 0, s1);
    lemma_joined_front(mb, 0, s2);
    let a0 = after_item(ma, 0, s1);
    let b0 = after_item(mb, 0, s2);
    lemma_member_cancel("tree_size", decimal(a.tree_size), a0, decimal(b.tree_size), b0);
    lemma_decimal_unique(a.tree_size, a0, b.tree_size, b0);
    lemma_cancel(seq![COMMA], joined(ma.skip(1)) + s1, joined(mb.skip(1)) + s2);

    lemma_joined_front(ma, 1, s1);
    lemma_joined_front(mb, 1, s2);
    let a1 = after_item(ma, 1, s1);
    let b1 = after_item(mb, 1, s2);
    lemma_member_cancel(
        "root",
        quoted(encode_utf8(a.root)),
        a1,
        quoted(encode_utf8(b.root)),
        b1,
    );
    lemma_quoted_text_unique(a.root, a1, b.root, b1);
    lemma_cancel(seq![COMMA], joined(ma.skip(2)) + s1, joined(mb.skip(2)) + s2);

    lemma_joined_front(ma, 2, s1);
    lemma_joined_front(mb, 2, s2);
    let a2 = after_item(ma, 2, s1);
    let b2 = after_item(mb, 2, s2);
    lemma_member_cancel(
        "prev_hash",
        quoted(encode_utf8(a.prev_hash)),
        a2,
        quoted(encode_utf8(b.prev_hash)),
        b2,
    );
    lemma_quoted_text_unique(a.prev_hash, a2, b.prev_hash, b2);
    lemma_cancel(seq![COMMA], joined(ma.skip(3)) + s1, joined(mb.skip(3)) + s2);

    lemma_joined_front(ma, 3, s1);
    lemma_joined_front(mb, 3, s2);
    let a3 = after_item(ma, 3, s1);
    let b3 = after_item(mb, 3, s2);
    lemma_member_cancel("policy", policy_encoding(a.policy), a3, policy_encoding(b.policy), b3);
    lemma_policy_unique(a.policy, a3, b.policy, b3);
    lemma_cancel(seq![COMMA], joined(ma.skip(4)) + s1, joined(mb.skip(4)) + s2);

    lemma_joined_front(ma, 4, s1);
    lemma_joined_front(mb, 4, s2);
    let a4 = after_item(ma, 4, s1);
    let b4 = after_item(mb, 4, s2);
    lemma_member_cancel(
        "timestamp",
        signed_decimal(a.timestamp),
        a4,
        signed_decimal(b.timestamp),
        b4,
    );
    lemma_signed_decimal_unique(a.timestamp, a4, b.timestamp, b4);
    lemma_cancel(seq![COMMA], joined(ma.skip(5)) + s1, joined(mb.skip(5)) + s2);

    lemma_member_cancel(
        "signatures",
        array(signature_encodings(a.signatures)),
        s1,
        array(signature_encodings(b.signatures)),
        s2,
    );
    lemma_array_opens(signature_encodings(a.signatures), s1);
    lemma_array_opens(signature_encodings(b.signatures), s2);
    lemma_cancel(
        seq![OPEN_BRACKET],
        joined(signature_encodings(a.signatures).skip(0)) + (seq![CLOSE_BRACKET] + s1),
        joined(signature_encodings(b.signatures).skip(0)) + (seq![CLOSE_BRACKET] + s2),
    );
    lemma_signatures_from_unique(a.signatures, s1, b.signatures, s2, 0);
    assert(a.signatures.skip(0) =~= a.signatures);
    assert(b.signatures.skip(0) =~= b.signatures);
}

/// Whether two byte strings are equal.
pub fn same_bytes(a: &[u8], b: &[u8]) -> (same: bool)
    ensures
        same == (a@ == b@),
{
    if a.len() != b.len() {
        return false;
    }
    let mut i: usize = 0;
    while i < a.len()
        invariant
            i <= a@.len(),
            a@.len() == b@.len(),
            forall|j: int| 0 <= j < i ==> a@[j] == b@[j],
        decreases a@.len() - i,
    {
        if a[i] != b[i] {
            return false;
        }
        i = i + 1;
    }
    assert(a@ =~= b@);
    true
}

impl STH {
    /// Reads a tree head back from its canonical encoding. Anything that is
    /// not the canonical encoding of a tree head is refused: the result, if
    /// there is one, encodes to `line` byte for byte.
    pub fn decode(line: &[u8]) -> (res: Option<STH>)
        ensures
            match res {
                Some(sth) => decodable(line@) && sth@ == decoded(line@) && canonical(sth@)
                    == line@,
                None => !decodable(line@),
            },
    {
        let ghost witness = decoded(line@);
        match read_sth(line, Ghost(witness)) {
            None => None,
            Some(sth) => {
                let again = sth.encode();
                if same_bytes(again.as_slice(), line) {
                    Some(sth)
                } else {
                    None
                }
            },
        }
    }
}

} // verus!
