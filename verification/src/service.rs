//! The log service: checkpoints that turn the registered leaves into a new
//! cosigned tree head, and queries on the chain of tree heads.

use crate::chain::{
    has_successor_of, head_text, newest_first, sth_views, ChainStore,
};
use crate::cosign::{
    collected, cosigner_views, from_signatures, lemma_own_signatures_count,
    lemma_valid_signers_at_most_records, reaches_quorum, record_views, registry_wf,
    sign_threshold, to_signatures, verify_threshold, Cosigner, CosignerView,
};
use crate::digest::{base64_encode, base64_text, DIGEST_LEN};
use crate::error::CoreError;
use crate::merkle::{compute_merkle_root, leaf_views, merkle_root};
use crate::sth::{canonical, signing_message, Policy, SthView, STH};
use vstd::prelude::*;

verus! {

/// The tree head that a checkpoint proposes for signing: it covers all of
/// `leaves`, links to the latest tree head of `chain`, records the policy in
/// effect, and carries no signature yet.
pub open spec fn candidate(
    chain: Seq<SthView>,
    policy: Policy,
    leaves: Seq<Seq<u8>>,
    timestamp: int,
) -> SthView {
    SthView {
        tree_size: leaves.len(),
        root: base64_text(merkle_root(leaves)),
        prev_hash: head_text(chain),
        policy,
        timestamp,
        signatures: Seq::empty(),
    }
}

/// The candidate with the signatures that the cosigners collect for it.
pub open spec fn cosigned(sth: SthView, cosigners: Seq<CosignerView>) -> SthView {
    SthView { signatures: collected(canonical(sth), cosigners, sth.policy.t as nat), ..sth }
}

/// Whether a quorum of `cosigners` signed `sth`, by the policy that the tree
/// head itself records.
pub open spec fn quorate(sth: SthView, cosigners: Seq<CosignerView>) -> bool {
    reaches_quorum(signing_message(sth), sth.signatures, cosigners, sth.policy.t as nat)
}

/// What a checkpoint over `leaves` comes to: the new tree head, or the reason
/// why none is appended.
pub open spec fn checkpoint_outcome(
    chain: Seq<SthView>,
    cosigners: Seq<CosignerView>,
    policy: Policy,
    leaves: Seq<Seq<u8>>,
    timestamp: int,
) -> Result<SthView, CoreError> {
    let sth = cosigned(candidate(chain, policy, leaves, timestamp), cosigners);
    if merkle_root(leaves).len() != DIGEST_LEN {
        Err(CoreError::Decode)
    } else if chain.len() > 0 && leaves.len() < chain.last().tree_size {
        Err(CoreError::Integrity)
    } else if !quorate(sth, cosigners) {
        Err(CoreError::QuorumUnreachable)
    } else if has_successor_of(chain, sth.prev_hash) {
        Err(CoreError::ConcurrentAppend)
    } else {
        Ok(sth)
    }
}

/// A tree head that a checkpoint yields carries exactly as many signatures as
/// the threshold asks for, and a quorum of the cosigners signed it.
pub proof fn lemma_checkpoint_signatures(
    chain: Seq<SthView>,
    cosigners: Seq<CosignerView>,
    policy: Policy,
    leaves: Seq<Seq<u8>>,
    timestamp: int,
)
    requires
        checkpoint_outcome(chain, cosigners, policy, leaves, timestamp) is Ok,
    ensures
        checkpoint_outcome(chain, cosigners, policy, leaves, timestamp)->Ok_0.signatures.len()
            == policy.t,
        quorate(checkpoint_outcome(chain, cosigners, policy, leaves, timestamp)->Ok_0, cosigners),
        cosigners.len() >= policy.t,
{
    let sth = cosigned(candidate(chain, policy, leaves, timestamp), cosigners);
    lemma_valid_signers_at_most_records(signing_message(sth), sth.signatures, cosigners);
}

/// With fewer cosigners than the threshold no checkpoint yields a tree head.
pub proof fn lemma_too_few_cosigners(
    chain: Seq<SthView>,
    cosigners: Seq<CosignerView>,
    policy: Policy,
    leaves: Seq<Seq<u8>>,
    timestamp: int,
)
    requires
        cosigners.len() < policy.t,
    ensures
        checkpoint_outcome(chain, cosigners, policy, leaves, timestamp) is Err,
        merkle_root(leaves).len() == DIGEST_LEN && (chain.len() > 0 ==> chain.last().tree_size
            <= leaves.len()) ==> checkpoint_outcome(chain, cosigners, policy, leaves, timestamp)
            == Err::<SthView, CoreError>(CoreError::QuorumUnreachable),
{
    let sth = cosigned(candidate(chain, policy, leaves, timestamp), cosigners);
    lemma_valid_signers_at_most_records(signing_message(sth), sth.signatures, cosigners);
}

/// Whether a quorum of `cosigners` signed `sth`, by the policy that the tree
/// head itself records and not by the one in effect now.
pub fn verify_sth(sth: &STH, cosigners: &[Cosigner]) -> (ok: bool)
    ensures
        ok == quorate(sth@, cosigner_views(cosigners@)),
{
    let message = sth.signing_message();
    let records = from_signatures(&sth.signatures);
    verify_threshold(message.as_slice(), records.as_slice(), cosigners, sth.policy.t as usize)
}

/// The log service: the cosigner registry, the quorum policy in effect and
/// the chain of tree heads.
pub struct LogService {
    pub cosigners: Vec<Cosigner>,
    pub policy: Policy,
    pub store: ChainStore,
}

impl LogService {
    /// A service over `store` with the given registry and policy.
    pub fn new(cosigners: Vec<Cosigner>, policy: Policy, store: ChainStore) -> (service: LogService)
        ensures
            service.cosigners == cosigners,
            service.policy == policy,
            service.store == store,
    {
        LogService { cosigners, policy, store }
    }

    /// A service over `store`, unless the registry holds fewer cosigners than
    /// the policy's threshold: then no checkpoint could reach quorum, and the
    /// service refuses to start.
    pub fn start(cosigners: Vec<Cosigner>, policy: Policy, store: ChainStore) -> (res: Result<
        LogService,
        CoreError,
    >)
        ensures
            match res {
                Ok(service) => cosigners@.len() >= policy.t && service.cosigners == cosigners
                    && service.policy == policy && service.store == store,
                Err(e) => e == CoreError::Configuration && cosigners@.len() < policy.t,
            },
    {
        if cosigners.len() < policy.t as usize {
            Err(CoreError::Configuration)
        } else {
            Ok(LogService { cosigners, policy, store })
        }
    }

    /// Commits a checkpoint over `leaves`, all the leaves registered so far
    /// in their order.
    ///
    /// The new tree head covers every leaf, links to the latest tree head (or
    /// carries the genesis marker), records the policy in effect, and is
    /// signed by the first cosigners up to the threshold. It is appended only
    /// if those signatures reach the quorum; on any failure the chain is left
    /// as it was.
    pub fn checkpoint(&mut self, leaves: &[Vec<u8>], timestamp: i64) -> (res: Result<
        STH,
        CoreError,
    >)
        ensures
            match res {
                Ok(sth) => checkpoint_outcome(
                    old(self).store@,
                    cosigner_views(old(self).cosigners@),
                    old(self).policy,
                    leaf_views(leaves@),
                    timestamp as int,
                ) == Ok::<SthView, CoreError>(sth@) && final(self).store@ == old(self).store@.push(
                    sth@,
                ),
                Err(e) => checkpoint_outcome(
                    old(self).store@,
                    cosigner_views(old(self).cosigners@),
                    old(self).policy,
                    leaf_views(leaves@),
                    timestamp as int,
                ) == Err::<SthView, CoreError>(e) && final(self).store@ == old(self).store@,
            },
            final(self).cosigners == old(self).cosigners,
            final(self).policy == old(self).policy,
            res matches Ok(sth) ==> sth.signatures@.len() == old(self).policy.t,
            registry_wf(cosigner_views(old(self).cosigners@)) && old(self).cosigners@.len() >= old(
                self,
            ).policy.t ==> !(res matches Err(CoreError::QuorumUnreachable)),
    {
        let ghost chain = self.store@;
        let ghost registry = cosigner_views(self.cosigners@);
        let ghost leaf_seq = leaf_views(leaves@);
        let root = compute_merkle_root(leaves);
        if root.len() != DIGEST_LEN {
            return Err(CoreError::Decode);
        }
        let tree_size = leaves.len();
        match self.store.latest() {
            Some(latest) => {
                if tree_size < latest.tree_size {
                    return Err(CoreError::Integrity);
                }
            },
            None => {},
        }
        let mut sth = STH {
            tree_size,
            root: base64_encode(root.as_slice()),
            prev_hash: self.store.head(),
            policy: self.policy,
            timestamp,
            signatures: Vec::new(),
        };
        let ghost proposed = candidate(chain, self.policy, leaf_seq, timestamp as int);
        proof {
            lemma_valid_signers_at_most_records(
                signing_message(cosigned(proposed, registry)),
                cosigned(proposed, registry).signatures,
                registry,
            );
        }
        assert(sth@ =~= proposed) by {
            assert(sth@.signatures =~= Seq::empty());
        }
        let message = sth.encode();
        let threshold = self.policy.t as usize;
        let records = sign_threshold(message.as_slice(), self.cosigners.as_slice(), threshold);
        let reached = verify_threshold(
            message.as_slice(),
            records.as_slice(),
            self.cosigners.as_slice(),
            threshold,
        );
        sth.signatures = to_signatures(&records);
        proof {
            if registry_wf(registry) && registry.len() >= threshold {
                lemma_own_signatures_count(message@, record_views(records@), registry);
            }
        }
        if !reached {
            return Err(CoreError::QuorumUnreachable);
        }
        let copy = sth.duplicate();
        match self.store.append(copy) {
            Ok(()) => Ok(sth),
            Err(e) => Err(e),
        }
    }

    /// Audits the chain against the registry: the position of the first tree
    /// head that no quorum of the registered cosigners signed, by the policy
    /// that the tree head records, or nothing if every tree head is signed
    /// by a quorum.
    pub fn audit(&self) -> (first_invalid: Option<usize>)
        ensures
            match first_invalid {
                Some(i) => i < self.store@.len() && !quorate(
                    self.store@[i as int],
                    cosigner_views(self.cosigners@),
                ) && forall|j: int|
                    0 <= j < i ==> quorate(
                        #[trigger] self.store@[j],
                        cosigner_views(self.cosigners@),
                    ),
                None => forall|j: int|
                    0 <= j < self.store@.len() ==> quorate(
                        #[trigger] self.store@[j],
                        cosigner_views(self.cosigners@),
                    ),
            },
    {
        let n = self.store.len();
        let mut i: usize = 0;
        while i < n
            invariant
                i <= n,
                n == self.store@.len(),
                forall|j: int|
                    0 <= j < i ==> quorate(
                        #[trigger] self.store@[j],
                        cosigner_views(self.cosigners@),
                    ),
            decreases n - i,
        {
            match self.store.get(i) {
                Some(sth) => {
                    if !verify_sth(sth, self.cosigners.as_slice()) {
                        return Some(i);
                    }
                },
                None => {},
            }
            i = i + 1;
        }
        None
    }

    /// The latest tree head, or nothing if no checkpoint has been committed.
    pub fn get_latest(&self) -> (found: Option<STH>)
        ensures
            match found {
                Some(sth) => self.store@.len() > 0 && sth@ == self.store@.last(),
                None => self.store@.len() == 0,
            },
    {
        match self.store.latest() {
            Some(sth) => Some(sth.duplicate()),
            None => None,
        }
    }

    /// Up to `limit` tree heads, newest first.
    pub fn get_chain(&self, limit: usize) -> (found: Vec<STH>)
        ensures
            sth_views(found@) == newest_first(self.store@, limit as nat),
            found@.len() == newest_first(self.store@, limit as nat).len(),
            found@.len() <= limit,
    {
        self.store.range(limit)
    }
}

} // verus!
