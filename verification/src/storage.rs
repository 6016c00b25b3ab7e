//! The persisted files as the core sees them: the registrations file and the
//! file of signed tree heads, each append-only and one record per line.

use crate::chain::{
    durable_bytes, durable_len, intact, lemma_chain_grows, lemma_durable_bytes,
    lemma_persisted_reads_back, newest_first, persisted, rejection, sth_views, stored_chain,
    ChainStore,
};
use crate::sth::canonical;
use crate::digest::append_bytes;
use crate::encoding::{
    lemma_joined_take, member, object, push_member, quoted, quoted_bytes,
    signed_decimal, signed_decimal_bytes, CLOSE_BRACE, NEWLINE, OPEN_BRACE,
};
use crate::error::CoreError;
use crate::framing::{count_lines, line_count};
use crate::sth::{SthView, STH};
use vstd::prelude::*;
use vstd::utf8::encode_utf8;

verus! {

/// One registration as the registrations file records it.
#[derive(Clone, Debug, PartialEq, Eq)]
pub struct UserRegistration {
    pub id: String,
    pub public_key: String,
    pub timestamp: i64,
    /// The digest of the leaf that stands for this registration, as text.
    pub leaf_hash: String,
}

/// A registration as a value: what contracts say of a `UserRegistration`.
pub struct UserRegistrationView {
    pub id: Seq<char>,
    pub public_key: Seq<char>,
    pub timestamp: int,
    pub leaf_hash: Seq<char>,
}

impl View for UserRegistration {
    type V = UserRegistrationView;

    open spec fn view(&self) -> UserRegistrationView {
        UserRegistrationView {
            id: self.id@,
            public_key: self.public_key@,
            timestamp: self.timestamp as int,
            leaf_hash: self.leaf_hash@,
        }
    }
}

/// The members of a registration's encoding, in their fixed order.
pub open spec fn registration_members(user: UserRegistrationView) -> Seq<Seq<u8>> {
    seq![
        member("id", quoted(encode_utf8(user.id))),
        member("public_key", quoted(encode_utf8(user.public_key))),
        member("timestamp", signed_decimal(user.timestamp)),
        member("leaf_hash", quoted(encode_utf8(user.leaf_hash))),
    ]
}

/// The encoding of a registration: one JSON object on one line.
pub open spec fn registration_encoding(user: UserRegistrationView) -> Seq<u8> {
    object(registration_members(user))
}

impl UserRegistration {
    /// The encoding of this registration.
    pub fn encode(&self) -> (out: Vec<u8>)
        ensures
            out@ == registration_encoding(self@),
    {
        let ghost members = registration_members(self@);
        let mut out: Vec<u8> = Vec::new();
        out.push(OPEN_BRACE);
        let id = quoted_bytes(self.id.as_str());
        push_member(&mut out, true, "id", id.as_slice());
        let public_key = quoted_bytes(self.public_key.as_str());
        push_member(&mut out, false, "public_key", public_key.as_slice());
        proof {
            lemma_joined_take(members, 1);
        }
        let timestamp = signed_decimal_bytes(self.timestamp);
        push_member(&mut out, false, "timestamp", timestamp.as_slice());
        proof {
            lemma_joined_take(members, 2);
        }
        let leaf_hash = quoted_bytes(self.leaf_hash.as_str());
        push_member(&mut out, false, "leaf_hash", leaf_hash.as_slice());
        proof {
            lemma_joined_take(members, 3);
            assert(members.take(4) =~= members);
        }
        out.push(CLOSE_BRACE);
        out
    }
}

/// The timestamp that the metrics report for the latest tree head: its own,
/// or zero where there is none.
pub open spec fn last_timestamp(chain: Seq<SthView>) -> int {
    if chain.len() == 0 {
        0
    } else {
        chain.last().timestamp
    }
}

/// How to make an appended tree head durable: keep the first `keep` bytes of
/// the file of tree heads, which drops what an interrupted write left behind,
/// and write `line` behind them.
#[derive(Clone, Debug, PartialEq, Eq)]
pub struct AppendPlan {
    pub keep: usize,
    pub line: Vec<u8>,
}

/// The contents of the two persisted files.
pub struct FileStorage {
    /// The registrations file: one registration per line.
    pub users_file: Vec<u8>,
    /// The file of signed tree heads: one tree head per line, oldest first.
    pub sth_file: Vec<u8>,
}

impl FileStorage {
    /// The storage that holds the given file contents.
    pub fn new(users_file: Vec<u8>, sth_file: Vec<u8>) -> (storage: FileStorage)
        ensures
            storage.users_file == users_file,
            storage.sth_file == sth_file,
    {
        FileStorage { users_file, sth_file }
    }

    /// The number of registrations: the lines of the registrations file.
    pub fn get_user_count(&self) -> (n: usize)
        ensures
            n == line_count(self.users_file@),
    {
        count_lines(self.users_file.as_slice())
    }

    /// The number of lines of the file of tree heads.
    pub fn get_sth_count(&self) -> (n: usize)
        ensures
            n == line_count(self.sth_file@),
    {
        count_lines(self.sth_file.as_slice())
    }

    /// Appends a registration to the registrations file and returns the line
    /// that was appended, newline included.
    pub fn append_user_registration(&mut self, user: &UserRegistration) -> (line: Vec<u8>)
        ensures
            line@ == registration_encoding(user@) + seq![NEWLINE],
            final(self).users_file@ == old(self).users_file@ + line@,
            final(self).sth_file == old(self).sth_file,
    {
        let mut line = user.encode();
        line.push(NEWLINE);
        append_bytes(&mut self.users_file, line.as_slice());
        line
    }

    /// The chain that the file of tree heads holds.
    pub fn chain(&self) -> (res: Result<ChainStore, CoreError>)
        ensures
            match res {
                Ok(store) => intact(self.sth_file@) && store@ == stored_chain(self.sth_file@),
                Err(e) => e == CoreError::Integrity && !intact(self.sth_file@),
            },
    {
        ChainStore::from_bytes(self.sth_file.as_slice())
    }

    /// The latest tree head, or nothing if the chain is empty. A corrupt file
    /// is an error; an empty chain is not.
    pub fn get_latest_sth(&self) -> (res: Result<Option<STH>, CoreError>)
        ensures
            match res {
                Ok(Some(sth)) => intact(self.sth_file@) && stored_chain(self.sth_file@).len() > 0
                    && sth@ == stored_chain(self.sth_file@).last(),
                Ok(None) => intact(self.sth_file@) && stored_chain(self.sth_file@).len() == 0,
                Err(e) => e == CoreError::Integrity && !intact(self.sth_file@),
            },
    {
        match self.chain() {
            Err(e) => Err(e),
            Ok(store) => match store.latest() {
                Some(sth) => Ok(Some(sth.duplicate())),
                None => Ok(None),
            },
        }
    }

    /// Up to `limit` tree heads, newest first.
    pub fn list_sth(&self, limit: usize) -> (res: Result<Vec<STH>, CoreError>)
        ensures
            match res {
                Ok(found) => intact(self.sth_file@) && sth_views(found@) == newest_first(
                    stored_chain(self.sth_file@),
                    limit as nat,
                ) && found@.len() == newest_first(stored_chain(self.sth_file@), limit as nat).len()
                    && found@.len() <= limit,
                Err(e) => e == CoreError::Integrity && !intact(self.sth_file@),
            },
    {
        match self.chain() {
            Err(e) => Err(e),
            Ok(store) => Ok(store.range(limit)),
        }
    }

    /// Appends `sth` to the file of tree heads, or refuses it and leaves the
    /// file as it was. The tree head has to continue the chain that the file
    /// holds. What an interrupted write left behind the last record is
    /// dropped, and the new record takes its place.
    pub fn append_sth(&mut self, sth: &STH) -> (res: Result<AppendPlan, CoreError>)
        ensures
            final(self).users_file == old(self).users_file,
            match res {
                Ok(plan) => {
                    &&& intact(old(self).sth_file@)
                    &&& rejection(stored_chain(old(self).sth_file@), sth@) is None
                    &&& plan.keep == durable_bytes(old(self).sth_file@).len()
                    &&& plan.line@ == canonical(sth@) + seq![NEWLINE]
                    &&& final(self).sth_file@ == durable_bytes(old(self).sth_file@) + plan.line@
                    &&& intact(final(self).sth_file@)
                    &&& stored_chain(final(self).sth_file@) == stored_chain(
                        old(self).sth_file@,
                    ).push(sth@)
                },
                Err(e) => {
                    &&& final(self).sth_file == old(self).sth_file
                    &&& if intact(old(self).sth_file@) {
                        rejection(stored_chain(old(self).sth_file@), sth@) == Some(e)
                    } else {
                        e == CoreError::Integrity
                    }
                },
            },
    {
        let ghost content = self.sth_file@;
        let ghost chain = stored_chain(content);
        let mut store = match self.chain() {
            Err(e) => {
                return Err(e);
            },
            Ok(store) => store,
        };
        match store.append(sth.duplicate()) {
            Err(e) => {
                return Err(e);
            },
            Ok(()) => {},
        }
        let keep = durable_len(self.sth_file.as_slice());
        let line = sth.encode_line();
        self.sth_file.truncate(keep);
        append_bytes(&mut self.sth_file, line.as_slice());
        proof {
            let longer = chain.push(sth@);
            lemma_durable_bytes(content);
            lemma_chain_grows(chain, sth@);
            assert(crate::chain::encodings(longer).drop_last() =~= crate::chain::encodings(chain));
            lemma_persisted_reads_back(longer, Seq::empty());
        }
        Ok(AppendPlan { keep, line })
    }

    /// The timestamp of the latest tree head, or zero if the chain is empty.
    pub fn last_sth_timestamp(&self) -> (res: Result<i64, CoreError>)
        ensures
            match res {
                Ok(timestamp) => intact(self.sth_file@) && timestamp == last_timestamp(
                    stored_chain(self.sth_file@),
                ),
                Err(e) => e == CoreError::Integrity && !intact(self.sth_file@),
            },
    {
        match self.chain() {
            Err(e) => Err(e),
            Ok(store) => match store.latest() {
                Some(sth) => Ok(sth.timestamp),
                None => Ok(0),
            },
        }
    }
}

} // verus!
