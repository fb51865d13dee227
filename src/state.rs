//! The state shared between the request handlers and the maintenance task:
//! the published index and the session table. The index is only ever
//! replaced whole; whoever shares a `State` between threads keeps it behind
//! a reader-writer lock, so that readers see either the previous index or
//! the new one.

use crate::clock::{now, Timestamp, SESSION_TTL_SECONDS};
use crate::scanner::{copy_path, music_index, scan, unexpected_of, UnexpectedFile, WalkEntry};
use crate::sessions::{after_eviction, expired_keys, SessionTable};
use vstd::prelude::*;

verus! {

/// The published index and the live sessions.
#[derive(Debug)]
pub struct State {
    music: Vec<Vec<Vec<u8>>>,
    sessions: SessionTable,
}

fn copy_index(v: &Vec<Vec<Vec<u8>>>) -> (r: Vec<Vec<Vec<u8>>>)
    ensures
        r.deep_view() == v.deep_view(),
{
    let mut r: Vec<Vec<Vec<u8>>> = Vec::new();
    let mut i: usize = 0;
    while i < v.len()
        invariant
            i <= v.len(),
            r.deep_view() == v.deep_view().subrange(0, i as int),
        decreases v.len() - i,
    {
        let p = copy_path(&v[i]);
        let ghost before = r.deep_view();
        r.push(p);
        assert(r.deep_view() =~= before.push(v[i as int].deep_view()));
        assert(r.deep_view() =~= v.deep_view().subrange(0, i + 1));
        i = i + 1;
    }
    assert(r.deep_view() =~= v.deep_view());
    r
}

impl State {
    /// The published index: relative paths of the playable files.
    pub closed spec fn published(&self) -> Seq<Seq<Seq<u8>>> {
        self.music.deep_view()
    }

    /// The live sessions: creation time by token.
    pub closed spec fn session_map(&self) -> Map<Seq<char>, Timestamp> {
        self.sessions@
    }

    /// An empty index and no sessions.
    pub fn new() -> (r: State)
        ensures
            r.published() == Seq::<Seq<Seq<u8>>>::empty(),
            r.session_map() == Map::<Seq<char>, Timestamp>::empty(),
    {
        let r = State { music: Vec::new(), sessions: SessionTable::new() };
        assert(r.published() =~= Seq::<Seq<Seq<u8>>>::empty());
        r
    }

    /// A copy of the published index.
    pub fn music_list(&self) -> (r: Vec<Vec<Vec<u8>>>)
        ensures
            r.deep_view() == self.published(),
    {
        copy_index(&self.music)
    }

    /// Builds the index from the entries of one walk, publishes it in place
    /// of the previous one, and returns the entries to report. The sessions
    /// are not touched.
    pub fn update_music_index(&mut self, entries: &Vec<WalkEntry>) -> (r: Vec<UnexpectedFile>)
        ensures
            final(self).published() == music_index(entries.deep_view()),
            final(self).session_map() == old(self).session_map(),
            r.deep_view() == unexpected_of(entries.deep_view()),
    {
        let result = scan(entries);
        self.music = result.files;
        result.unexpected
    }

    /// Whether `token` names a live session.
    pub fn is_session_valid(&self, token: &str) -> (r: bool)
        ensures
            r == self.session_map().contains_key(token@),
    {
        self.sessions.is_valid(token)
    }

    /// Creates a session under a fresh random token, stamped with the current
    /// time, and returns the token; nothing changes when the random source or
    /// the clock fails.
    pub fn create_session(&mut self) -> (r: Option<String>)
        ensures
            final(self).published() == old(self).published(),
            match r {
                None => final(self).session_map() == old(self).session_map(),
                Some(token) => {
                    &&& token@.len() == 36
                    &&& final(self).session_map() == old(self).session_map().insert(
                        token@,
                        final(self).session_map()[token@],
                    )
                    &&& final(self).session_map()[token@].nanos < 1_000_000_000
                },
            },
    {
        self.sessions.create()
    }

    /// The first phase of an eviction pass, under a read view: the tokens of
    /// the sessions older than `ttl_seconds` at `now`.
    pub fn expired_sessions(&self, now: Timestamp, ttl_seconds: u64) -> (r: Vec<String>)
        ensures
            r.deep_view().to_set() == expired_keys(self.session_map(), now, ttl_seconds),
            r.deep_view().no_duplicates(),
    {
        self.sessions.expired_tokens(now, ttl_seconds)
    }

    /// The second phase of an eviction pass, under a write view: ends the
    /// sessions named in `tokens` and no other.
    pub fn remove_sessions(&mut self, tokens: &Vec<String>)
        ensures
            final(self).session_map() == old(self).session_map().remove_keys(
                tokens.deep_view().to_set(),
            ),
            final(self).published() == old(self).published(),
    {
        self.sessions.remove_tokens(tokens);
    }

    /// One eviction pass at `now`, both phases at once: ends every session
    /// older than `ttl_seconds` and returns their tokens.
    pub fn evict_expired(&mut self, now: Timestamp, ttl_seconds: u64) -> (r: Vec<String>)
        ensures
            final(self).session_map() == after_eviction(old(self).session_map(), now, ttl_seconds),
            r.deep_view().to_set() == expired_keys(old(self).session_map(), now, ttl_seconds),
            final(self).published() == old(self).published(),
    {
        self.sessions.evict_expired(now, ttl_seconds)
    }

    /// The eviction pass of the maintenance task: at the current time, with
    /// the sessions' time to live. When the clock cannot be read the pass is
    /// skipped and nothing changes.
    pub fn cleanup_old_sessions(&mut self) -> (r: Option<Vec<String>>)
        ensures
            final(self).published() == old(self).published(),
            match r {
                None => final(self).session_map() == old(self).session_map(),
                Some(gone) => exists|at: Timestamp|
                    {
                        &&& final(self).session_map() == #[trigger] after_eviction(
                            old(self).session_map(),
                            at,
                            SESSION_TTL_SECONDS,
                        )
                        &&& gone.deep_view().to_set() == expired_keys(
                            old(self).session_map(),
                            at,
                            SESSION_TTL_SECONDS,
                        )
                    },
            },
    {
        match now() {
            None => None,
            Some(at) => {
                let gone = self.evict_expired(at, SESSION_TTL_SECONDS);
                assert(self.session_map() == after_eviction(
                    old(self).session_map(),
                    at,
                    SESSION_TTL_SECONDS,
                ));
                Some(gone)
            },
        }
    }
}

} // verus!
