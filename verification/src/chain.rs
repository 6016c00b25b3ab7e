//! The chain of signed tree heads: append-only and hash-linked.

use crate::digest::{base64_encode, base64_text, sha256, sha256_digest, zero_digest, DIGEST_LEN};
use crate::error::CoreError;
use crate::encoding::{newline_free, NEWLINE};
use crate::framing::{
    frame_views, framed, frames_of, lemma_content_is_framed, lemma_frames_of_framed,
    split_frames, tail_of,
};
use crate::sth::{canonical, lemma_canonical_newline_free, representable, SthView, STH};
use crate::sth_decoding::{decodable, decoded, lemma_decoded_canonical};
use vstd::prelude::*;

verus! {

/// The tree heads as values.
pub open spec fn sth_views(records: Seq<STH>) -> Seq<SthView> {
    Seq::new(records.len(), |i: int| records[i]@)
}

/// The link to a tree head: the digest of its canonical encoding, in base64.
pub open spec fn link_text(sth: SthView) -> Seq<char> {
    base64_text(sha256(canonical(sth)))
}

/// The genesis marker: what the first tree head of a chain carries as
/// `prev_hash`, the all-zero digest in base64.
pub open spec fn genesis_text() -> Seq<char> {
    base64_text(zero_digest())
}

/// What the next tree head of `chain` has to carry as `prev_hash`: the link
/// to the latest tree head, or the genesis marker if there is none.
pub open spec fn head_text(chain: Seq<SthView>) -> Seq<char> {
    if chain.len() == 0 {
        genesis_text()
    } else {
        link_text(chain.last())
    }
}

/// Whether `sth` continues `chain`: it links to the latest tree head, and its
/// tree is no smaller.
pub open spec fn extends(chain: Seq<SthView>, sth: SthView) -> bool {
    &&& sth.prev_hash == head_text(chain)
    &&& chain.len() > 0 ==> chain.last().tree_size <= sth.tree_size
}

/// A well-formed chain: every tree head continues the ones before it.
pub open spec fn chain_wf(chain: Seq<SthView>) -> bool {
    forall|i: int| 0 <= i < chain.len() ==> extends(#[trigger] chain.take(i), chain[i])
}

/// Whether some tree head of `chain` carries `prev_hash` already.
pub open spec fn has_successor_of(chain: Seq<SthView>, prev_hash: Seq<char>) -> bool {
    exists|i: int| 0 <= i < chain.len() && (#[trigger] chain[i]).prev_hash == prev_hash
}

/// Why `chain` refuses `sth`, if it does. A tree head that does not link to
/// the latest one, or whose `prev_hash` another tree head carries already,
/// was built on a stale view of the chain; one whose tree is smaller than
/// the latest would break the chain's order.
pub open spec fn rejection(chain: Seq<SthView>, sth: SthView) -> Option<CoreError> {
    if sth.prev_hash != head_text(chain) || has_successor_of(chain, sth.prev_hash) {
        Some(CoreError::ConcurrentAppend)
    } else if chain.len() > 0 && sth.tree_size < chain.last().tree_size {
        Some(CoreError::Integrity)
    } else {
        None
    }
}

/// The `limit` newest tree heads of `chain`, newest first, or all of them if
/// they are fewer.
pub open spec fn newest_first(chain: Seq<SthView>, limit: nat) -> Seq<SthView> {
    Seq::new(
        if limit <= chain.len() {
            limit
        } else {
            chain.len()
        },
        |i: int| chain[chain.len() - 1 - i],
    )
}

/// The lines of persisted `content` that count as records: its complete
/// lines, but for a last line that is no tree head and that nothing follows,
/// which is what an interrupted write leaves behind. Bytes behind the last
/// newline are an unfinished write and never count.
pub open spec fn record_frames(content: Seq<u8>) -> Seq<Seq<u8>> {
    let frames = frames_of(content);
    if frames.len() > 0 && tail_of(content).len() == 0 && !decodable(frames.last()) {
        frames.drop_last()
    } else {
        frames
    }
}

/// The tree heads that the record lines of `content` encode.
pub open spec fn stored_chain(content: Seq<u8>) -> Seq<SthView> {
    Seq::new(record_frames(content).len(), |i: int| decoded(record_frames(content)[i]))
}

/// Whether persisted `content` holds a chain: every record line is a tree
/// head, and the tree heads form a well-formed chain.
pub open spec fn intact(content: Seq<u8>) -> bool {
    &&& forall|i: int|
        0 <= i < record_frames(content).len() ==> decodable(#[trigger] record_frames(content)[i])
    &&& chain_wf(stored_chain(content))
}

/// The part of persisted `content` that its record lines fill: what is
/// durable of it.
pub open spec fn durable_bytes(content: Seq<u8>) -> Seq<u8> {
    framed(record_frames(content))
}

/// The encodings of the tree heads of `chain`.
pub open spec fn encodings(chain: Seq<SthView>) -> Seq<Seq<u8>> {
    Seq::new(chain.len(), |i: int| canonical(chain[i]))
}

/// The persisted form of `chain`: one line per tree head, oldest first.
pub open spec fn persisted(chain: Seq<SthView>) -> Seq<u8> {
    framed(encodings(chain))
}

/// Whether every tree head of `chain` has numbers that fit the machine's
/// types.
pub open spec fn all_representable(chain: Seq<SthView>) -> bool {
    forall|i: int| 0 <= i < chain.len() ==> representable(#[trigger] chain[i])
}

/// A persisted chain reads back as it was, also when an unfinished write
/// follows it: bytes without a newline behind the last record are not
/// exposed as a record.
pub proof fn lemma_persisted_reads_back(chain: Seq<SthView>, unfinished: Seq<u8>)
    requires
        chain_wf(chain),
        all_representable(chain),
        newline_free(unfinished),
    ensures
        intact(persisted(chain) + unfinished),
        stored_chain(persisted(chain) + unfinished) == chain,
        record_frames(persisted(chain) + unfinished) == encodings(chain),
{
    let content = persisted(chain) + unfinished;
    let lines = encodings(chain);
    assert forall|i: int| 0 <= i < lines.len() implies newline_free(#[trigger] lines[i]) by {
        lemma_canonical_newline_free(chain[i]);
    }
    lemma_frames_of_framed(lines, unfinished);
    assert forall|i: int| 0 <= i < lines.len() implies decodable(#[trigger] lines[i]) && decoded(
        lines[i],
    ) == chain[i] by {
        lemma_decoded_canonical(chain[i]);
    }
    assert(stored_chain(content) =~= chain);
}

/// A last line that is no tree head, as an interrupted write may leave it,
/// is passed over when nothing follows it: the chain before it reads back as
/// it was.
pub proof fn lemma_malformed_last_line_skipped(chain: Seq<SthView>, line: Seq<u8>)
    requires
        chain_wf(chain),
        all_representable(chain),
        newline_free(line),
        !decodable(line),
    ensures
        intact(persisted(chain) + (line + seq![NEWLINE])),
        stored_chain(persisted(chain) + (line + seq![NEWLINE])) == chain,
{
    let lines = encodings(chain);
    let longer = lines.push(line);
    let content = persisted(chain) + (line + seq![NEWLINE]);
    assert(longer.drop_last() =~= lines);
    assert forall|i: int| 0 <= i < longer.len() implies newline_free(#[trigger] longer[i]) by {
        if i < lines.len() {
            lemma_canonical_newline_free(chain[i]);
        }
    }
    lemma_frames_of_framed(longer, Seq::<u8>::empty());
    assert forall|i: int| 0 <= i < lines.len() implies decodable(#[trigger] lines[i]) && decoded(
        lines[i],
    ) == chain[i] by {
        lemma_decoded_canonical(chain[i]);
    }
    assert(stored_chain(content) =~= chain);
}

/// A chain stays well formed when a tree head that continues it is added.
pub proof fn lemma_chain_grows(chain: Seq<SthView>, sth: SthView)
    requires
        chain_wf(chain),
        extends(chain, sth),
    ensures
        chain_wf(chain.push(sth)),
{
    let longer = chain.push(sth);
    assert forall|i: int| 0 <= i < longer.len() implies extends(
        #[trigger] longer.take(i),
        longer[i],
    ) by {
        if i < chain.len() {
            assert(longer.take(i) =~= chain.take(i));
        }
    }
}

/// In a well-formed chain the first tree head carries the genesis marker,
/// every later one carries the link to its predecessor, and tree sizes never
/// decrease.
pub proof fn lemma_chain_links(chain: Seq<SthView>, i: int)
    requires
        chain_wf(chain),
        0 <= i < chain.len(),
    ensures
        i == 0 ==> chain[i].prev_hash == genesis_text(),
        i > 0 ==> chain[i].prev_hash == link_text(chain[i - 1]),
        i > 0 ==> chain[i - 1].tree_size <= chain[i].tree_size,
{
    assert(extends(chain.take(i), chain[i]));
}

/// Appending one tree head and then another makes the second carry the link
/// to the first.
pub proof fn lemma_appended_links(chain: Seq<SthView>, first: SthView, second: SthView)
    requires
        rejection(chain, first) is None,
        rejection(chain.push(first), second) is None,
    ensures
        second.prev_hash == link_text(first),
        first.prev_hash == head_text(chain),
        first.prev_hash != second.prev_hash,
{
}

/// Two tree heads with the same `prev_hash` never both enter a chain: once
/// the first is in, the second is refused as built on a stale view, however
/// many tree heads have been appended in between.
pub proof fn lemma_same_prev_hash_refused(
    chain: Seq<SthView>,
    first: SthView,
    later: Seq<SthView>,
    second: SthView,
)
    requires
        first.prev_hash == second.prev_hash,
    ensures
        rejection(chain.push(first) + later, second) == Some(CoreError::ConcurrentAppend),
{
    let grown = chain.push(first) + later;
    assert(grown[chain.len() as int] == first);
}

/// The durable part of persisted content is a beginning of it, and where the
/// content is intact it is the persisted form of the chain that it holds.
pub proof fn lemma_durable_bytes(content: Seq<u8>)
    ensures
        durable_bytes(content).len() <= content.len(),
        content.take(durable_bytes(content).len() as int) == durable_bytes(content),
        intact(content) ==> durable_bytes(content) == persisted(stored_chain(content))
            && all_representable(stored_chain(content)),
{
    let kept = record_frames(content);
    lemma_content_is_framed(content);
    if intact(content) {
        let chain = stored_chain(content);
        assert forall|i: int| 0 <= i < kept.len() implies canonical(chain[i]) == kept[i]
            && representable(chain[i]) by {
        }
        assert(encodings(chain) =~= kept);
    }
}

/// The number of bytes of persisted `content` that are durable: the record
/// lines, without an unfinished or malformed last line.
pub fn durable_len(content: &[u8]) -> (n: usize)
    ensures
        n == durable_bytes(content@).len(),
        n <= content@.len(),
        content@.take(n as int) == durable_bytes(content@),
{
    let (frames, tail) = split_frames(content);
    proof {
        lemma_content_is_framed(content@);
    }
    let complete = content.len() - tail.len();
    let k = frames.len();
    if k > 0 && tail.len() == 0 && STH::decode(frames[k - 1].as_slice()).is_none() {
        complete - (frames[k - 1].len() + 1)
    } else {
        complete
    }
}

/// The link to a tree head.
pub fn link_of(sth: &STH) -> (link: String)
    ensures
        link@ == link_text(sth@),
{
    let encoding = sth.encode();
    let digest = sha256_digest(encoding.as_slice());
    base64_encode(digest.as_slice())
}

/// The genesis marker.
pub fn genesis() -> (marker: String)
    ensures
        marker@ == genesis_text(),
{
    let zero: Vec<u8> = vec![0u8; DIGEST_LEN];
    assert(zero@ == zero_digest());
    base64_encode(zero.as_slice())
}

/// An append-only chain of signed tree heads, oldest first. Every tree head
/// in it links to its predecessor, and tree sizes never decrease.
pub struct ChainStore {
    records: Vec<STH>,
}

impl View for ChainStore {
    type V = Seq<SthView>;

    closed spec fn view(&self) -> Seq<SthView> {
        sth_views(self.records@)
    }
}

impl ChainStore {
    #[verifier::type_invariant]
    spec fn linked(&self) -> bool {
        chain_wf(sth_views(self.records@))
    }

    /// The empty chain.
    pub fn new() -> (store: ChainStore)
        ensures
            store@ == Seq::<SthView>::empty(),
    {
        let store = ChainStore { records: Vec::new() };
        store
    }

    /// The number of tree heads in the chain.
    pub fn len(&self) -> (n: usize)
        ensures
            n == self@.len(),
            chain_wf(self@),
    {
        proof {
            use_type_invariant(self);
        }
        self.records.len()
    }

    /// The tree head at position `index`, counted from the oldest.
    pub fn get(&self, index: usize) -> (found: Option<&STH>)
        ensures
            match found {
                Some(sth) => index < self@.len() && sth@ == self@[index as int],
                None => index >= self@.len(),
            },
    {
        if index < self.records.len() {
            Some(&self.records[index])
        } else {
            None
        }
    }

    /// The most recently appended tree head, or nothing if the chain is
    /// empty.
    pub fn latest(&self) -> (found: Option<&STH>)
        ensures
            match found {
                Some(sth) => self@.len() > 0 && sth@ == self@.last(),
                None => self@.len() == 0,
            },
    {
        let n = self.records.len();
        if n == 0 {
            None
        } else {
            Some(&self.records[n - 1])
        }
    }

    /// Up to `limit` tree heads, newest first.
    pub fn range(&self, limit: usize) -> (found: Vec<STH>)
        ensures
            sth_views(found@) == newest_first(self@, limit as nat),
            found@.len() == newest_first(self@, limit as nat).len(),
            found@.len() <= limit,
    {
        let n = self.records.len();
        let count = if limit <= n {
            limit
        } else {
            n
        };
        let mut found: Vec<STH> = Vec::new();
        let mut i: usize = 0;
        while i < count
            invariant
                i <= count <= n,
                n == self.records@.len(),
                found@.len() == i,
                forall|j: int| 0 <= j < i ==> (#[trigger] found@[j])@ == self.records@[n - 1 - j]@,
            decreases count - i,
        {
            found.push(self.records[n - 1 - i].duplicate());
            i = i + 1;
        }
        found
    }

    /// What the next tree head has to carry as `prev_hash`.
    pub fn head(&self) -> (link: String)
        ensures
            link@ == head_text(self@),
    {
        let n = self.records.len();
        if n == 0 {
            genesis()
        } else {
            link_of(&self.records[n - 1])
        }
    }

    /// Whether some tree head of the chain carries `prev_hash` already.
    fn holds_successor_of(&self, prev_hash: &String) -> (held: bool)
        ensures
            held == has_successor_of(self@, prev_hash@),
    {
        let mut i: usize = 0;
        while i < self.records.len()
            invariant
                i <= self.records@.len(),
                forall|j: int| 0 <= j < i ==> (#[trigger] self@[j]).prev_hash != prev_hash@,
            decreases self.records@.len() - i,
        {
            if self.records[i].prev_hash == *prev_hash {
                assert(self@[i as int].prev_hash == prev_hash@);
                return true;
            }
            i = i + 1;
        }
        false
    }

    /// Appends `sth` to the chain, or refuses it and leaves the chain as it
    /// was.
    pub fn append(&mut self, sth: STH) -> (res: Result<(), CoreError>)
        ensures
            res == match rejection(old(self)@, sth@) {
                Some(e) => Err::<(), CoreError>(e),
                None => Ok(()),
            },
            final(self)@ == if res is Ok {
                old(self)@.push(sth@)
            } else {
                old(self)@
            },
    {
        proof {
            use_type_invariant(&*self);
        }
        let head = self.head();
        if sth.prev_hash != head || self.holds_successor_of(&sth.prev_hash) {
            return Err(CoreError::ConcurrentAppend);
        }
        let n = self.records.len();
        if n > 0 && sth.tree_size < self.records[n - 1].tree_size {
            return Err(CoreError::Integrity);
        }
        proof {
            lemma_chain_grows(self@, sth@);
            assert(sth_views(self.records@.push(sth)) =~= self@.push(sth@));
        }
        let mut records: Vec<STH> = Vec::new();
        core::mem::swap(&mut self.records, &mut records);
        records.push(sth);
        core::mem::swap(&mut self.records, &mut records);
        Ok(())
    }

    /// The persisted form of the chain.
    pub fn to_bytes(&self) -> (out: Vec<u8>)
        ensures
            out@ == persisted(self@),
    {
        let ghost lines = encodings(self@);
        let mut out: Vec<u8> = Vec::new();
        let mut i: usize = 0;
        while i < self.records.len()
            invariant
                i <= self.records@.len(),
                lines == encodings(self@),
                out@ == framed(lines.take(i as int)),
            decreases self.records@.len() - i,
        {
            let line = self.records[i].encode_line();
            crate::digest::append_bytes(&mut out, line.as_slice());
            proof {
                let upto = lines.take(i + 1);
                assert(upto.drop_last() =~= lines.take(i as int));
            }
            i = i + 1;
        }
        assert(lines.take(lines.len() as int) =~= lines);
        out
    }

    /// Reads a chain back from its persisted form.
    ///
    /// Bytes behind the last newline are an unfinished write and are passed
    /// over, and so is a last line that is no tree head if nothing follows
    /// it. Any other line that is no tree head, and tree heads that do not
    /// form a chain, mean that the content is corrupt.
    pub fn from_bytes(content: &[u8]) -> (res: Result<ChainStore, CoreError>)
        ensures
            match res {
                Ok(store) => intact(content@) && store@ == stored_chain(content@),
                Err(e) => e == CoreError::Integrity && !intact(content@),
            },
    {
        let (frames, tail) = split_frames(content);
        let ghost lines = frames_of(content@);
        let ghost kept = record_frames(content@);
        let n = frames.len();
        let mut records: Vec<STH> = Vec::new();
        let mut i: usize = 0;
        while i < n
            invariant
                i <= n,
                n == frames@.len(),
                lines == frame_views(frames@),
                lines == frames_of(content@),
                kept == record_frames(content@),
                tail@ == tail_of(content@),
                records@.len() == i,
                forall|j: int| 0 <= j < i ==> decodable(#[trigger] lines[j]),
                forall|j: int| 0 <= j < i ==> (#[trigger] records@[j])@ == decoded(lines[j]),
            decreases n - i,
        {
            match STH::decode(frames[i].as_slice()) {
                Some(sth) => {
                    records.push(sth);
                },
                None => {
                    if i + 1 == n && tail.len() == 0 {
                        assert(sth_views(records@) =~= stored_chain(content@));
                        return ChainStore::from_records(records);
                    } else {
                        assert(kept[i as int] == lines[i as int]);
                        return Err(CoreError::Integrity);
                    }
                },
            }
            i = i + 1;
        }
        proof {
            assert(sth_views(records@) =~= stored_chain(content@));
        }
        ChainStore::from_records(records)
    }

    /// A chain made of `records`, oldest first, if they form one: the first
    /// carries the genesis marker, every later one links to its predecessor,
    /// and tree sizes never decrease. Anything else is corrupt.
    pub fn from_records(records: Vec<STH>) -> (res: Result<ChainStore, CoreError>)
        ensures
            match res {
                Ok(store) => chain_wf(sth_views(records@)) && store@ == sth_views(records@),
                Err(e) => e == CoreError::Integrity && !chain_wf(sth_views(records@)),
            },
    {
        let ghost chain = sth_views(records@);
        let mut expected = genesis();
        let mut i: usize = 0;
        while i < records.len()
            invariant
                i <= records@.len(),
                chain == sth_views(records@),
                expected@ == head_text(chain.take(i as int)),
                forall|j: int| 0 <= j < i ==> extends(#[trigger] chain.take(j), chain[j]),
            decreases records@.len() - i,
        {
            if records[i].prev_hash != expected {
                return Err(CoreError::Integrity);
            }
            if i > 0 && records[i].tree_size < records[i - 1].tree_size {
                return Err(CoreError::Integrity);
            }
            expected = link_of(&records[i]);
            i = i + 1;
        }
        Ok(ChainStore { records })
    }
}

} // verus!
