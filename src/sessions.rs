//! The table of authenticated sessions: each token maps to the time its
//! session was created. Expiry is enforced only by eviction passes, never at
//! lookup.

use crate::clock::{expired, is_expired, now, Timestamp};
use crate::text::text_eq;
use vstd::prelude::*;

verus! {

/// One live session.
#[derive(Debug)]
pub struct SessionRecord {
    pub token: String,
    pub created_at: Timestamp,
}

/// Sessions by token. No token occurs twice.
#[derive(Debug)]
pub struct SessionTable {
    records: Vec<SessionRecord>,
}

pub open spec fn unique_tokens(rs: Seq<SessionRecord>) -> bool {
    forall|i: int, j: int| 0 <= i < j < rs.len() ==> rs[i].token@ != rs[j].token@
}

pub open spec fn has_token(rs: Seq<SessionRecord>, k: Seq<char>) -> bool {
    exists|i: int| 0 <= i < rs.len() && #[trigger] rs[i].token@ == k
}

/// The map from token to creation time that the records `rs` stand for.
pub open spec fn map_of(rs: Seq<SessionRecord>) -> Map<Seq<char>, Timestamp> {
    Map::new(
        |k: Seq<char>| has_token(rs, k),
        |k: Seq<char>| rs[choose|i: int| 0 <= i < rs.len() && #[trigger] rs[i].token@ == k].created_at,
    )
}

/// The tokens whose sessions are older than `ttl_seconds` at `now`.
pub open spec fn expired_keys(m: Map<Seq<char>, Timestamp>, now: Timestamp, ttl_seconds: u64) -> Set<
    Seq<char>,
> {
    Set::new(|k: Seq<char>| m.contains_key(k) && is_expired(m[k], now, ttl_seconds))
}

/// The table left by an eviction pass at `now`.
pub open spec fn after_eviction(m: Map<Seq<char>, Timestamp>, now: Timestamp, ttl_seconds: u64) -> Map<
    Seq<char>,
    Timestamp,
> {
    m.remove_keys(expired_keys(m, now, ttl_seconds))
}

proof fn lemma_map_of_at(rs: Seq<SessionRecord>, i: int)
    requires
        unique_tokens(rs),
        0 <= i < rs.len(),
    ensures
        map_of(rs).contains_key(rs[i].token@),
        map_of(rs)[rs[i].token@] == rs[i].created_at,
{
    let k = rs[i].token@;
    assert(has_token(rs, k));
    let j = choose|j: int| 0 <= j < rs.len() && #[trigger] rs[j].token@ == k;
    assert(i == j);
}

impl View for SessionTable {
    type V = Map<Seq<char>, Timestamp>;

    closed spec fn view(&self) -> Map<Seq<char>, Timestamp> {
        map_of(self.records@)
    }
}

/// Relies on getrandom's `fill`: it fills the buffer from the operating
/// system's random source or reports an error. Nothing is known of the bytes.
#[verifier::external_body]
fn random_bytes() -> Option<[u8; 16]> {
    let mut bytes = [0u8; 16];
    match getrandom::fill(&mut bytes) {
        Ok(()) => Some(bytes),
        Err(_) => None,
    }
}

/// The text of the version-4 UUID that uuid builds from 16 random bytes.
pub uninterp spec fn v4_text(random: Seq<u8>) -> Seq<char>;

/// Relies on uuid's `Builder::from_random_bytes` and the hyphenated form
/// that `Uuid`'s `Display` writes: the version and variant bits are set, and
/// the text is 36 characters long.
#[verifier::external_body]
fn token_text(random: [u8; 16]) -> (r: String)
    ensures
        r@ == v4_text(random@),
        r@.len() == 36,
{
    uuid::Builder::from_random_bytes(random).into_uuid().to_string()
}

fn copy_record(r: &SessionRecord) -> (c: SessionRecord)
    ensures
        c.token@ == r.token@,
        c.created_at == r.created_at,
{
    SessionRecord { token: r.token.clone(), created_at: r.created_at }
}

fn contains_text(items: &Vec<String>, t: &str) -> (r: bool)
    ensures
        r == items.deep_view().contains(t@),
{
    let mut i: usize = 0;
    while i < items.len()
        invariant
            i <= items.len(),
            forall|j: int| 0 <= j < i ==> items[j]@ != t@,
        decreases items.len() - i,
    {
        if text_eq(items[i].as_str(), t) {
            assert(items.deep_view()[i as int] == t@);
            return true;
        }
        i = i + 1;
    }
    assert forall|j: int| 0 <= j < items.deep_view().len() implies items.deep_view()[j] != t@ by {
        assert(items.deep_view()[j] == items[j]@);
    }
    false
}

fn position_of(records: &Vec<SessionRecord>, token: &str) -> (r: Option<usize>)
    ensures
        match r {
            Some(i) => i < records.len() && records[i as int].token@ == token@,
            None => !has_token(records@, token@),
        },
{
    let mut i: usize = 0;
    while i < records.len()
        invariant
            i <= records.len(),
            forall|j: int| 0 <= j < i ==> records[j].token@ != token@,
        decreases records.len() - i,
    {
        if text_eq(records[i].token.as_str(), token) {
            return Some(i);
        }
        i = i + 1;
    }
    None
}

impl SessionTable {
    #[verifier::type_invariant]
    spec fn tokens_unique(&self) -> bool {
        unique_tokens(self.records@)
    }

    /// An empty table.
    pub fn new() -> (r: SessionTable)
        ensures
            r@ == Map::<Seq<char>, Timestamp>::empty(),
    {
        let r = SessionTable { records: Vec::new() };
        assert(r@ =~= Map::<Seq<char>, Timestamp>::empty());
        r
    }

    fn find(&self, token: &str) -> (r: Option<usize>)
        ensures
            match r {
                Some(i) => i < self.records.len() && self.records[i as int].token@ == token@,
                None => !self@.contains_key(token@),
            },
    {
        position_of(&self.records, token)
    }

    /// Whether `token` names a live session.
    pub fn is_valid(&self, token: &str) -> (r: bool)
        ensures
            r == self@.contains_key(token@),
    {
        match self.find(token) {
            Some(i) => {
                assert(has_token(self.records@, self.records[i as int].token@));
                true
            },
            None => false,
        }
    }

    /// When the session named by `token` was created, if it is live.
    pub fn created_at(&self, token: &str) -> (r: Option<Timestamp>)
        ensures
            r == if self@.contains_key(token@) {
                Some(self@[token@])
            } else {
                None::<Timestamp>
            },
    {
        proof {
            use_type_invariant(self);
        }
        match self.find(token) {
            Some(i) => {
                proof {
                    lemma_map_of_at(self.records@, i as int);
                }
                Some(self.records[i].created_at)
            },
            None => None,
        }
    }

    /// Records a session named `token`, created at `created_at`, in place of
    /// any session of that name.
    pub fn insert(&mut self, token: String, created_at: Timestamp)
        ensures
            final(self)@ == old(self)@.insert(token@, created_at),
    {
        proof {
            use_type_invariant(&*self);
        }
        let ghost rs = self.records@;
        let ghost k = token@;
        let named = vec![token.clone()];
        let mut kept = without_tokens(&self.records, &named);
        proof {
            assert(named.deep_view() =~= seq![k]);
            assert(seq![k].to_set().contains(k)) by {
                assert(seq![k][0] == k);
            }
            if has_token(kept@, k) {
                let j = choose|j: int| 0 <= j < kept@.len() && #[trigger] kept@[j].token@ == k;
                lemma_map_of_at(kept@, j);
            }
        }
        let rec = SessionRecord { token, created_at };
        let ghost before = kept@;
        kept.push(rec);
        proof {
            lemma_map_of_push(before, rec);
            assert(kept@ == before.push(rec));
            assert forall|x: Seq<char>| seq![k].to_set().contains(x) implies x == k by {}
            assert(map_of(kept@) =~= map_of(rs).insert(k, created_at));
        }
        self.records = kept;
    }

    /// Creates a session stamped `now`, under the token made from the random
    /// bytes `random`, and returns the token.
    pub fn create_from(&mut self, random: [u8; 16], now: Timestamp) -> (token: String)
        ensures
            token@ == v4_text(random@),
            token@.len() == 36,
            final(self)@ == old(self)@.insert(token@, now),
    {
        let token = token_text(random);
        self.insert(token.clone(), now);
        token
    }

    /// Creates a session under a fresh random token, stamped with the current
    /// time, and returns the token. Returns nothing, and leaves the table as
    /// it was, when the random source or the clock fails.
    pub fn create(&mut self) -> (r: Option<String>)
        ensures
            match r {
                None => final(self)@ == old(self)@,
                Some(token) => {
                    &&& token@.len() == 36
                    &&& final(self)@ == old(self)@.insert(token@, final(self)@[token@])
                    &&& final(self)@[token@].nanos < 1_000_000_000
                },
            },
    {
        let random = match random_bytes() {
            Some(bytes) => bytes,
            None => return None,
        };
        let stamp = match now() {
            Some(t) => t,
            None => return None,
        };
        Some(self.create_from(random, stamp))
    }

    /// The tokens of the sessions older than `ttl_seconds` at `now`.
    pub fn expired_tokens(&self, now: Timestamp, ttl_seconds: u64) -> (r: Vec<String>)
        ensures
            r.deep_view().to_set() == expired_keys(self@, now, ttl_seconds),
            r.deep_view().no_duplicates(),
    {
        proof {
            use_type_invariant(self);
        }
        let ghost rs = self.records@;
        let mut out: Vec<String> = Vec::new();
        let mut i: usize = 0;
        proof {
            assert(rs.subrange(0, 0) =~= Seq::<SessionRecord>::empty());
            assert(map_of(rs.subrange(0, 0)) =~= Map::<Seq<char>, Timestamp>::empty());
            assert(out.deep_view().to_set() =~= expired_keys(
                map_of(rs.subrange(0, 0)),
                now,
                ttl_seconds,
            ));
        }
        while i < self.records.len()
            invariant
                i <= self.records.len(),
                rs == self.records@,
                unique_tokens(rs),
                out.deep_view().to_set() == expired_keys(
                    map_of(rs.subrange(0, i as int)),
                    now,
                    ttl_seconds,
                ),
                out.deep_view().no_duplicates(),
                forall|j: int| 0 <= j < out.len() ==> has_token(rs.subrange(0, i as int), #[trigger] out.deep_view()[j]),
            decreases self.records.len() - i,
        {
            let ghost prefix = rs.subrange(0, i as int);
            let ghost rec = rs[i as int];
            proof {
                assert(rs.subrange(0, i + 1) == prefix.push(rec));
                lemma_unique_prefix(rs, i as int);
                lemma_unique_prefix(rs, i + 1);
                lemma_fresh_after_prefix(rs, i as int);
                lemma_map_of_push(prefix, rec);
            }
            if expired(self.records[i].created_at, now, ttl_seconds) {
                let ghost before = out.deep_view();
                out.push(self.records[i].token.clone());
                proof {
                    assert(out.deep_view() =~= before.push(rec.token@));
                    before.lemma_push_to_set_commute(rec.token@);
                    assert(!before.contains(rec.token@)) by {
                        if before.contains(rec.token@) {
                            let j = choose|j: int| 0 <= j < before.len() && before[j] == rec.token@;
                            assert(has_token(prefix, before[j]));
                        }
                    }
                    assert(out.deep_view().to_set() =~= expired_keys(
                        map_of(rs.subrange(0, i + 1)),
                        now,
                        ttl_seconds,
                    ));
                    assert forall|j: int| 0 <= j < out.len() implies has_token(
                        rs.subrange(0, i + 1),
                        #[trigger] out.deep_view()[j],
                    ) by {
                        let x = out.deep_view()[j];
                        if j < before.len() {
                            assert(has_token(prefix, x));
                            let m = choose|m: int| 0 <= m < prefix.len() && #[trigger] prefix[m].token@ == x;
                            assert(rs.subrange(0, i + 1)[m] == prefix[m]);
                        } else {
                            assert(rs.subrange(0, i + 1)[i as int] == rec);
                        }
                    }
                }
            } else {
                proof {
                    assert(out.deep_view().to_set() =~= expired_keys(
                        map_of(rs.subrange(0, i + 1)),
                        now,
                        ttl_seconds,
                    ));
                    assert forall|j: int| 0 <= j < out.len() implies has_token(
                        rs.subrange(0, i + 1),
                        #[trigger] out.deep_view()[j],
                    ) by {
                        let x = out.deep_view()[j];
                        assert(has_token(prefix, x));
                        let m = choose|m: int| 0 <= m < prefix.len() && #[trigger] prefix[m].token@ == x;
                        assert(rs.subrange(0, i + 1)[m] == prefix[m]);
                    }
                }
            }
            i = i + 1;
        }
        assert(rs.subrange(0, i as int) =~= rs);
        out
    }

    /// Ends the sessions named in `tokens`; the others stay as they are.
    pub fn remove_tokens(&mut self, tokens: &Vec<String>)
        ensures
            final(self)@ == old(self)@.remove_keys(tokens.deep_view().to_set()),
    {
        proof {
            use_type_invariant(&*self);
        }
        let kept = without_tokens(&self.records, tokens);
        self.records = kept;
    }

    /// One eviction pass at `now`: ends every session older than
    /// `ttl_seconds` and returns their tokens.
    pub fn evict_expired(&mut self, now: Timestamp, ttl_seconds: u64) -> (r: Vec<String>)
        ensures
            final(self)@ == after_eviction(old(self)@, now, ttl_seconds),
            r.deep_view().to_set() == expired_keys(old(self)@, now, ttl_seconds),
    {
        let gone = self.expired_tokens(now, ttl_seconds);
        self.remove_tokens(&gone);
        gone
    }
}

proof fn lemma_unique_prefix(rs: Seq<SessionRecord>, i: int)
    requires
        unique_tokens(rs),
        0 <= i <= rs.len(),
    ensures
        unique_tokens(rs.subrange(0, i)),
{
    assert forall|a: int, b: int| 0 <= a < b < i implies rs.subrange(0, i)[a].token@ != rs.subrange(
        0,
        i,
    )[b].token@ by {
        assert(rs.subrange(0, i)[a] == rs[a] && rs.subrange(0, i)[b] == rs[b]);
    }
}

proof fn lemma_fresh_after_prefix(rs: Seq<SessionRecord>, i: int)
    requires
        unique_tokens(rs),
        0 <= i < rs.len(),
    ensures
        !has_token(rs.subrange(0, i), rs[i].token@),
{
    if has_token(rs.subrange(0, i), rs[i].token@) {
        let j = choose|j: int| 0 <= j < i && #[trigger] rs.subrange(0, i)[j].token@ == rs[i].token@;
        assert(rs.subrange(0, i)[j] == rs[j]);
    }
}

proof fn lemma_map_of_push(rs: Seq<SessionRecord>, rec: SessionRecord)
    requires
        unique_tokens(rs),
        !has_token(rs, rec.token@),
    ensures
        unique_tokens(rs.push(rec)),
        map_of(rs.push(rec)) == map_of(rs).insert(rec.token@, rec.created_at),
{
    let ns = rs.push(rec);
    let k = rec.token@;
    assert forall|a: int, b: int| 0 <= a < b < ns.len() implies ns[a].token@ != ns[b].token@ by {
        assert(ns[a] == rs[a]);
        if b < rs.len() {
            assert(ns[b] == rs[b]);
        }
    }
    assert forall|x: Seq<char>| #[trigger] has_token(ns, x) <==> has_token(rs, x) || x == k by {
        if has_token(rs, x) {
            let j = choose|j: int| 0 <= j < rs.len() && #[trigger] rs[j].token@ == x;
            assert(ns[j].token@ == x);
        }
        if has_token(ns, x) {
            let j = choose|j: int| 0 <= j < ns.len() && #[trigger] ns[j].token@ == x;
            if j < rs.len() {
                assert(rs[j].token@ == x);
            }
        }
        if x == k {
            assert(ns[rs.len() as int].token@ == x);
        }
    }
    assert forall|x: Seq<char>| #[trigger] map_of(ns).contains_key(x) implies map_of(ns)[x]
        == map_of(rs).insert(k, rec.created_at)[x] by {
        let j = choose|j: int| 0 <= j < ns.len() && #[trigger] ns[j].token@ == x;
        lemma_map_of_at(ns, j);
        if j < rs.len() {
            assert(rs[j] == ns[j]);
            lemma_map_of_at(rs, j);
        }
    }
    assert(map_of(ns) =~= map_of(rs).insert(k, rec.created_at));
}

/// Copies of the records whose token is not in `drop`, in their order.
fn without_tokens(records: &Vec<SessionRecord>, drop: &Vec<String>) -> (r: Vec<SessionRecord>)
    requires
        unique_tokens(records@),
    ensures
        unique_tokens(r@),
        map_of(r@) == map_of(records@).remove_keys(drop.deep_view().to_set()),
{
    let ghost rs = records@;
    let ghost gone = drop.deep_view().to_set();
    let mut out: Vec<SessionRecord> = Vec::new();
    let mut i: usize = 0;
    proof {
        assert(rs.subrange(0, 0) =~= Seq::<SessionRecord>::empty());
        assert(map_of(out@) =~= map_of(rs.subrange(0, 0)).remove_keys(gone));
    }
    while i < records.len()
        invariant
            i <= records.len(),
            rs == records@,
            gone == drop.deep_view().to_set(),
            unique_tokens(rs),
            unique_tokens(out@),
            map_of(out@) == map_of(rs.subrange(0, i as int)).remove_keys(gone),
        decreases records.len() - i,
    {
        let ghost prefix = rs.subrange(0, i as int);
        let ghost rec = rs[i as int];
        proof {
            assert(rs.subrange(0, i + 1) == prefix.push(rec));
            lemma_unique_prefix(rs, i as int);
            lemma_fresh_after_prefix(rs, i as int);
            lemma_map_of_push(prefix, rec);
        }
        if !contains_text(drop, records[i].token.as_str()) {
            let c = copy_record(&records[i]);
            proof {
                assert(!gone.contains(rec.token@));
                if has_token(out@, c.token@) {
                    let j = choose|j: int| 0 <= j < out@.len() && #[trigger] out@[j].token@ == c.token@;
                    lemma_map_of_at(out@, j);
                }
            }
            let ghost before = out@;
            out.push(c);
            proof {
                lemma_map_of_push(before, c);
                assert(out@ == before.push(c));
                assert(map_of(out@) =~= map_of(rs.subrange(0, i + 1)).remove_keys(gone));
            }
        } else {
            proof {
                assert(gone.contains(rec.token@));
                assert(map_of(out@) =~= map_of(rs.subrange(0, i + 1)).remove_keys(gone));
            }
        }
        i = i + 1;
    }
    assert(rs.subrange(0, i as int) =~= rs);
    out
}

/// The table left by eviction passes at the times `nows`, in order.
pub open spec fn after_evictions(
    m: Map<Seq<char>, Timestamp>,
    nows: Seq<Timestamp>,
    ttl_seconds: u64,
) -> Map<Seq<char>, Timestamp>
    decreases nows.len(),
{
    if nows.len() == 0 {
        m
    } else {
        after_eviction(after_evictions(m, nows.drop_last(), ttl_seconds), nows.last(), ttl_seconds)
    }
}

/// A session just created stays valid, with its creation time, through
/// every eviction pass that does not find it older than the time to live.
pub proof fn lemma_session_valid_until_expired(
    m: Map<Seq<char>, Timestamp>,
    token: Seq<char>,
    created: Timestamp,
    nows: Seq<Timestamp>,
    ttl_seconds: u64,
)
    requires
        forall|i: int| 0 <= i < nows.len() ==> !is_expired(created, #[trigger] nows[i], ttl_seconds),
    ensures
        after_evictions(m.insert(token, created), nows, ttl_seconds).contains_key(token),
        after_evictions(m.insert(token, created), nows, ttl_seconds)[token] == created,
    decreases nows.len(),
{
    if nows.len() > 0 {
        let rest = nows.drop_last();
        assert forall|i: int| 0 <= i < rest.len() implies !is_expired(
            created,
            #[trigger] rest[i],
            ttl_seconds,
        ) by {
            assert(rest[i] == nows[i]);
        }
        lemma_session_valid_until_expired(m, token, created, rest, ttl_seconds);
        assert(!is_expired(created, nows[nows.len() - 1], ttl_seconds));
    }
}

/// An eviction pass that finds a session older than the time to live ends it.
pub proof fn lemma_expired_session_evicted(
    m: Map<Seq<char>, Timestamp>,
    token: Seq<char>,
    now: Timestamp,
    ttl_seconds: u64,
)
    requires
        m.contains_key(token),
        is_expired(m[token], now, ttl_seconds),
    ensures
        !after_eviction(m, now, ttl_seconds).contains_key(token),
{
    assert(expired_keys(m, now, ttl_seconds).contains(token));
}

/// An eviction pass whose removals were computed from an earlier snapshot of
/// the table ends a live session exactly when the snapshot held it already
/// expired. In particular a session created after the snapshot was taken
/// survives the pass, with its creation time.
pub proof fn lemma_eviction_spares_later_sessions(
    snapshot: Map<Seq<char>, Timestamp>,
    current: Map<Seq<char>, Timestamp>,
    now: Timestamp,
    ttl_seconds: u64,
    token: Seq<char>,
)
    requires
        current.contains_key(token),
    ensures
        current.remove_keys(expired_keys(snapshot, now, ttl_seconds)).contains_key(token) <==> !(
        snapshot.contains_key(token) && is_expired(snapshot[token], now, ttl_seconds)),
        !snapshot.contains_key(token) ==> current.remove_keys(
            expired_keys(snapshot, now, ttl_seconds),
        ).contains_key(token) && current.remove_keys(expired_keys(snapshot, now, ttl_seconds))[token]
            == current[token],
{
}

} // verus!
