//! In-memory sessions with sliding expiry.
use std::time::{Duration, Instant, SystemTime, UNIX_EPOCH};
use vstd::prelude::*;
use vstd::hash_map::StringHashMap;
use crate::number::{hex_lower, hex_string, lemma_hex_value};
use vstd::set_lib::lemma_len_subset;

verus! {

#[verifier::external_type_specification]
#[verifier::external_body]
pub struct ExInstant(Instant);

/// Reads the monotonic clock (`std::time::Instant::now`). Nothing is claimed
/// of the reading.
#[verifier::external_body]
fn clock_origin() -> Instant {
    Instant::now()
}

/// The time that has passed since `origin` on the monotonic clock
/// (`Instant::elapsed`). It depends on the time of the call, so nothing is
/// claimed of it.
#[verifier::external_body]
fn elapsed_since(origin: &Instant) -> Duration {
    origin.elapsed()
}

/// The whole nanoseconds of `d` (`Duration::as_nanos`). A `Duration` is
/// opaque here, so nothing is claimed of the result.
#[verifier::external_body]
fn duration_nanos(d: &Duration) -> u128 {
    d.as_nanos()
}

#[verifier::external_type_specification]
#[verifier::external_body]
pub struct ExSystemTime(SystemTime);

/// Reads the system clock (`SystemTime::now`). Nothing is claimed of the
/// reading.
#[verifier::external_body]
fn system_now() -> SystemTime {
    SystemTime::now()
}

/// The time from the Unix epoch to `t`
/// (`SystemTime::duration_since(UNIX_EPOCH)`), zero where `t` is earlier than
/// the epoch. Nothing is claimed of it: a `SystemTime` is opaque here.
#[verifier::external_body]
fn since_unix_epoch(t: &SystemTime) -> Duration {
    match t.duration_since(UNIX_EPOCH) {
        Ok(d) => d,
        Err(_) => Duration::ZERO,
    }
}

/// The session token made from a reading of the system clock in nanoseconds:
/// the nanoseconds, with the whole seconds xor-ed into the upper 64 bits.
pub open spec fn token_from_nanos(nanos: u128) -> u128 {
    nanos ^ (((nanos / 1_000_000_000) as u64 as u128) << 64u128)
}

/// The session token for a reading of the system clock.
pub fn session_token(nanos: u128) -> (r: u128)
    ensures
        r == token_from_nanos(nanos),
{
    let secs = (nanos / 1_000_000_000) as u64;
    nanos ^ ((secs as u128) << 64u128)
}

/// A fresh session token taken from the system clock: the token of some
/// reading of the clock in nanoseconds since the Unix epoch.
pub(crate) fn rand_id() -> (r: u128)
    ensures
        exists|nanos: u128| r == token_from_nanos(nanos),
{
    let t = system_now();
    let d = since_unix_epoch(&t);
    session_token(duration_nanos(&d))
}

/// A session: its identifier, its data and the clock reading (in nanoseconds
/// since its manager's origin) at which it expires.
pub struct Session {
    pub id: String,
    pub data: StringHashMap<String>,
    pub expires_at: u128,
}

/// The expiries of `s` by identifier, later entries winning.
pub open spec fn expiry_map(s: Seq<Session>) -> Map<Seq<char>, u128>
    decreases s.len(),
{
    if s.len() == 0 {
        Map::empty()
    } else {
        expiry_map(s.drop_last()).insert(s.last().id@, s.last().expires_at)
    }
}

/// The data of the sessions of `s` by identifier, later entries winning.
pub open spec fn data_map(s: Seq<Session>) -> Map<Seq<char>, Map<Seq<char>, String>>
    decreases s.len(),
{
    if s.len() == 0 {
        Map::empty()
    } else {
        data_map(s.drop_last()).insert(s.last().id@, s.last().data@)
    }
}

/// Whether no two sessions of `s` share an identifier.
pub open spec fn unique_ids(s: Seq<Session>) -> bool {
    forall|i: int, j: int| 0 <= i < s.len() && 0 <= j < s.len() && i != j ==> s[i].id@ != s[j].id@
}

/// The sessions of a manager that are still alive at `now`.
pub open spec fn alive_at(m: Map<Seq<char>, u128>, now: u128) -> Map<Seq<char>, u128> {
    m.restrict(m.dom().filter(|k: Seq<char>| m[k] > now))
}

/// The clock reading at which a session touched at `now` expires, for a
/// lifetime of `secs` seconds (the clock's largest reading where the sum
/// exceeds it).
pub open spec fn expiry_after(now: u128, secs: u64) -> u128 {
    if now + secs * 1_000_000_000 <= u128::MAX {
        (now + secs * 1_000_000_000) as u128
    } else {
        u128::MAX
    }
}

/// The token `k` places after `token`, counting on from zero past the
/// largest token (for `k` up to `u128::MAX`).
pub open spec fn token_step(token: u128, k: nat) -> int {
    if token + k <= u128::MAX {
        token + k
    } else {
        token + k - u128::MAX - 1
    }
}

/// Whether `id` is the identifier for the first token, counting on from
/// `token`, whose lower-case hexadecimal text names no session of `m`.
pub open spec fn first_free_id(m: Map<Seq<char>, u128>, token: u128, id: Seq<char>) -> bool {
    exists|k: nat|
        #![trigger token_step(token, k)]
        k <= u128::MAX && id == hex_lower(token_step(token, k) as nat) && !m.contains_key(id) && forall|
            j: nat,
        | j < k ==> m.contains_key(#[trigger] hex_lower(token_step(token, j) as nat))
}

/// The identifier that a session created with `token` gets where sessions
/// `m` are held: the one that `first_free_id` describes.
pub open spec fn new_session_id(m: Map<Seq<char>, u128>, token: u128) -> Seq<char> {
    choose|id: Seq<char>| first_free_id(m, token, id)
}

/// At most one identifier is the first free one for a token.
pub proof fn lemma_first_free_id_unique(m: Map<Seq<char>, u128>, token: u128, a: Seq<char>, b: Seq<char>)
    requires
        first_free_id(m, token, a),
        first_free_id(m, token, b),
    ensures
        a == b,
{
    let ka = choose|k: nat|
        #![trigger token_step(token, k)]
        k <= u128::MAX && a == hex_lower(token_step(token, k) as nat) && !m.contains_key(a) && forall|j: nat|
            j < k ==> m.contains_key(#[trigger] hex_lower(token_step(token, j) as nat));
    let kb = choose|k: nat|
        #![trigger token_step(token, k)]
        k <= u128::MAX && b == hex_lower(token_step(token, k) as nat) && !m.contains_key(b) && forall|j: nat|
            j < k ==> m.contains_key(#[trigger] hex_lower(token_step(token, j) as nat));
    if ka < kb {
        assert(m.contains_key(hex_lower(token_step(token, ka) as nat)));
    } else if kb < ka {
        assert(m.contains_key(hex_lower(token_step(token, kb) as nat)));
    }
}

/// Where a token `j` places after `token` names no session of `m`, some
/// identifier is the first free one for `token`.
proof fn lemma_first_free_below(m: Map<Seq<char>, u128>, token: u128, j: nat)
    requires
        j <= u128::MAX,
        !m.contains_key(hex_lower(token_step(token, j) as nat)),
    ensures
        exists|id: Seq<char>| first_free_id(m, token, id),
    decreases j,
{
    if forall|i: nat| i < j ==> m.contains_key(#[trigger] hex_lower(token_step(token, i) as nat)) {
        let id = hex_lower(token_step(token, j) as nat);
        assert(first_free_id(m, token, id));
    } else {
        let i = choose|i: nat| i < j && !m.contains_key(#[trigger] hex_lower(token_step(token, i) as nat));
        lemma_first_free_below(m, token, i);
    }
}

/// Where the sessions held are finitely many, and fewer than there are
/// tokens, every token leads to a new identifier, written in lower-case
/// hexadecimal.
pub proof fn lemma_new_session_id(m: Map<Seq<char>, u128>, token: u128)
    requires
        m.dom().finite(),
        m.dom().len() < u128::MAX,
    ensures
        first_free_id(m, token, new_session_id(m, token)),
        !m.contains_key(new_session_id(m, token)),
        exists|t: u128| new_session_id(m, token) == hex_lower(t as nat),
{
    lemma_some_token_free(m, token, m.dom().len());
    let j = choose|j: nat| j <= m.dom().len() && !m.contains_key(#[trigger] hex_lower(token_step(token, j) as nat));
    lemma_first_free_below(m, token, j);
    let id = new_session_id(m, token);
    let k = choose|k: nat|
        #![trigger token_step(token, k)]
        k <= u128::MAX && id == hex_lower(token_step(token, k) as nat) && !m.contains_key(id) && forall|i: nat|
            i < k ==> m.contains_key(#[trigger] hex_lower(token_step(token, i) as nat));
    assert(id == hex_lower((token_step(token, k) as u128) as nat));
}

/// A manager's sessions hold no more identifiers than there are sessions.
proof fn lemma_expiry_map_size(s: Seq<Session>)
    ensures
        expiry_map(s).dom().finite(),
        expiry_map(s).dom().len() <= s.len(),
    decreases s.len(),
{
    if s.len() > 0 {
        lemma_expiry_map_size(s.drop_last());
    }
}

/// Among the first `n + 1` tokens counting on from `token`, one names no
/// session of `m`, where `m` holds at most `n` sessions.
proof fn lemma_some_token_free(m: Map<Seq<char>, u128>, token: u128, n: nat)
    requires
        m.dom().finite(),
        m.dom().len() <= n,
        n < u128::MAX,
    ensures
        exists|j: nat| j <= n && !m.contains_key(#[trigger] hex_lower(token_step(token, j) as nat)),
{
    if forall|j: nat| j <= n ==> m.contains_key(#[trigger] hex_lower(token_step(token, j) as nat)) {
        let c = Seq::new(n + 1, |j: int| hex_lower(token_step(token, j as nat) as nat));
        assert forall|a: int, b: int| 0 <= a < c.len() && 0 <= b < c.len() && a != b implies c[a] != c[b] by {
            lemma_hex_value(token_step(token, a as nat) as nat);
            lemma_hex_value(token_step(token, b as nat) as nat);
        }
        assert(c.no_duplicates());
        c.unique_seq_to_set();
        assert forall|x: Seq<char>| c.to_set().contains(x) implies m.dom().contains(x) by {
            let i = choose|i: int| 0 <= i < c.len() && c[i] == x;
            assert(m.contains_key(hex_lower(token_step(token, i as nat) as nat)));
        }
        lemma_len_subset(c.to_set(), m.dom());
    }
}

/// Keeps sessions, each with an identifier of its own, and expires them a
/// fixed number of seconds after they were last touched.
pub struct SessionManager {
    sessions: Vec<Session>,
    session_duration: u64,
    origin: Instant,
}

impl View for SessionManager {
    type V = Map<Seq<char>, u128>;

    /// Each session's identifier mapped to the clock reading at which it expires.
    closed spec fn view(&self) -> Map<Seq<char>, u128> {
        expiry_map(self.sessions@)
    }
}

/// The domain of `expiry_map` is the set of identifiers.
proof fn lemma_expiry_map_dom(s: Seq<Session>)
    ensures
        forall|k: Seq<char>| #[trigger] expiry_map(s).contains_key(k) <==> exists|i: int|
            0 <= i < s.len() && s[i].id@ == k,
    decreases s.len(),
{
    if s.len() > 0 {
        let p = s.drop_last();
        lemma_expiry_map_dom(p);
        assert forall|k: Seq<char>| #[trigger] expiry_map(s).contains_key(k) implies exists|i: int|
            0 <= i < s.len() && s[i].id@ == k by {
            if k != s.last().id@ {
                assert(expiry_map(p).contains_key(k));
                let i = choose|i: int| 0 <= i < p.len() && p[i].id@ == k;
                assert(s[i] == p[i]);
            } else {
                assert(s[s.len() - 1].id@ == k);
            }
        }
        assert forall|k: Seq<char>| (exists|i: int| 0 <= i < s.len() && s[i].id@ == k) implies #[trigger] expiry_map(s).contains_key(k) by {
            let i = choose|i: int| 0 <= i < s.len() && s[i].id@ == k;
            if i < s.len() - 1 {
                assert(p[i] == s[i]);
                assert(expiry_map(p).contains_key(k));
            }
        }
    }
}

/// The data map and the expiry map have the same identifiers.
proof fn lemma_data_map_dom(s: Seq<Session>)
    ensures
        data_map(s).dom() == expiry_map(s).dom(),
    decreases s.len(),
{
    if s.len() > 0 {
        lemma_data_map_dom(s.drop_last());
    }
    assert(data_map(s).dom() =~= expiry_map(s).dom());
}

/// In a sequence with unique identifiers, the identifier at `k` occurs in no
/// session before `k`.
proof fn lemma_fresh_in_prefix(all: Seq<Session>, k: int)
    requires
        unique_ids(all),
        0 <= k < all.len(),
    ensures
        !expiry_map(all.take(k)).contains_key(all[k].id@),
{
    let t = all.take(k);
    lemma_expiry_map_dom(t);
    if expiry_map(t).contains_key(all[k].id@) {
        let j = choose|j: int| 0 <= j < t.len() && t[j].id@ == all[k].id@;
        assert(all[j] == t[j]);
    }
}

/// Appending a session whose identifier `t` lacks to sessions whose
/// identifiers `t` holds keeps the identifiers unique.
proof fn lemma_push_unique(before: Seq<Session>, x: Session, t: Seq<Session>)
    requires
        unique_ids(before),
        forall|i: int| 0 <= i < before.len() ==> #[trigger] expiry_map(t).contains_key(before[i].id@),
        !expiry_map(t).contains_key(x.id@),
    ensures
        unique_ids(before.push(x)),
{
    let after = before.push(x);
    assert forall|i: int, j: int| 0 <= i < after.len() && 0 <= j < after.len() && i != j implies after[i].id@
        != after[j].id@ by {
        if i < before.len() && j < before.len() {
            assert(after[i] == before[i]);
            assert(after[j] == before[j]);
        } else if i < before.len() {
            assert(after[i] == before[i]);
            assert(expiry_map(t).contains_key(before[i].id@));
        } else if j < before.len() {
            assert(after[j] == before[j]);
            assert(expiry_map(t).contains_key(before[j].id@));
        }
    }
}

/// Replacing the last session by one with the same identifier keeps the
/// identifiers unique and replaces that identifier's entries.
proof fn lemma_replace_last(s: Seq<Session>, x: Session)
    requires
        unique_ids(s),
        s.len() > 0,
        x.id@ == s.last().id@,
    ensures
        unique_ids(s.drop_last().push(x)),
        expiry_map(s.drop_last().push(x)) == expiry_map(s).insert(x.id@, x.expires_at),
        data_map(s.drop_last().push(x)) == data_map(s).insert(x.id@, x.data@),
{
    let p = s.drop_last();
    let t = p.push(x);
    assert(t.drop_last() == p);
    assert(expiry_map(s) == expiry_map(p).insert(s.last().id@, s.last().expires_at));
    assert(expiry_map(t) =~= expiry_map(s).insert(x.id@, x.expires_at));
    assert(data_map(t) =~= data_map(s).insert(x.id@, x.data@));
    assert forall|i: int, j: int| 0 <= i < t.len() && 0 <= j < t.len() && i != j implies t[i].id@ != t[j].id@ by {
        if i < p.len() {
            assert(t[i] == s[i]);
        } else {
            assert(s[i] == s.last());
        }
        if j < p.len() {
            assert(t[j] == s[j]);
        } else {
            assert(s[j] == s.last());
        }
    }
}

impl SessionManager {
    /// Whether each session has an identifier of its own.
    pub closed spec fn wf(&self) -> bool {
        unique_ids(self.sessions@)
    }

    /// Each session's identifier mapped to its data.
    pub closed spec fn data(&self) -> Map<Seq<char>, Map<Seq<char>, String>> {
        data_map(self.sessions@)
    }

    /// A manager holds finitely many sessions, at most `usize::MAX`.
    pub proof fn lemma_finite(&self)
        ensures
            self@.dom().finite(),
            self@.dom().len() <= usize::MAX,
    {
        lemma_expiry_map_size(self.sessions@);
        assert(self.sessions@.len() == self.sessions.len());
    }

    /// Every session that the manager holds has data, and only those.
    pub proof fn lemma_data_dom(&self)
        ensures
            self.data().dom() == self@.dom(),
    {
        lemma_data_map_dom(self.sessions@);
    }

    /// The lifetime of a session in seconds.
    pub closed spec fn duration(&self) -> u64 {
        self.session_duration
    }

    /// A manager without sessions whose sessions live `duration_secs` seconds
    /// after they were last touched.
    pub fn new(duration_secs: u64) -> (r: Self)
        ensures
            r.wf(),
            r@ == Map::<Seq<char>, u128>::empty(),
            r.data() == Map::<Seq<char>, Map<Seq<char>, String>>::empty(),
            r.duration() == duration_secs,
    {
        SessionManager { sessions: Vec::new(), session_duration: duration_secs, origin: clock_origin() }
    }

    /// Drops every session that has expired at `now`; the others are kept
    /// as they are.
    fn cleanup_expired_at(&mut self, now: u128)
        requires
            old(self).wf(),
        ensures
            final(self).wf(),
            final(self)@ == alive_at(old(self)@, now),
            final(self).data() == old(self).data().restrict(final(self)@.dom()),
            final(self).duration() == old(self).duration(),
    {
        let mut old_sessions: Vec<Session> = Vec::new();
        std::mem::swap(&mut old_sessions, &mut self.sessions);
        let ghost all = old_sessions@;
        let mut kept: Vec<Session> = Vec::new();
        assert(all.take(0) == Seq::<Session>::empty());
        assert(alive_at(expiry_map(Seq::<Session>::empty()), now) =~= expiry_map(kept@));
        assert(data_map(Seq::<Session>::empty()).restrict(expiry_map(kept@).dom()) =~= data_map(kept@));
        for x in it: old_sessions
            invariant
                it.seq() == all,
                unique_ids(all),
                unique_ids(kept@),
                expiry_map(kept@) == alive_at(expiry_map(all.take(it.index() as int)), now),
                data_map(kept@) == data_map(all.take(it.index() as int)).restrict(expiry_map(kept@).dom()),
                forall|i: int| 0 <= i < kept@.len() ==> #[trigger] expiry_map(all.take(it.index() as int)).contains_key(kept@[i].id@),
        {
            let ghost k = it.index() as int;
            let ghost t = all.take(k);
            let ghost t2 = all.take(k + 1);
            proof {
                assert(t2.drop_last() == t);
                assert(t2.last() == x);
                assert(all[k] == x);
                lemma_fresh_in_prefix(all, k);
                lemma_expiry_map_dom(t);
                lemma_expiry_map_dom(t2);
                lemma_data_map_dom(t);
                assert forall|i: int| 0 <= i < kept@.len() implies #[trigger] expiry_map(t2).contains_key(kept@[i].id@) by {
                    assert(expiry_map(t).contains_key(kept@[i].id@));
                }
            }
            let ghost before = kept@;
            if x.expires_at > now {
                kept.push(x);
                proof {
                    assert(kept@ == before.push(x));
                    assert(kept@.drop_last() == before);
                    assert(kept@.last() == x);
                    assert(expiry_map(kept@) == expiry_map(before).insert(x.id@, x.expires_at));
                    assert(data_map(kept@) == data_map(before).insert(x.id@, x.data@));
                    lemma_push_unique(before, x, t);
                    assert(alive_at(expiry_map(t2), now) =~= alive_at(expiry_map(t), now).insert(
                        x.id@, x.expires_at));
                    assert(data_map(kept@) =~= data_map(t2).restrict(expiry_map(kept@).dom()));
                    assert forall|i: int| 0 <= i < kept@.len() implies #[trigger] expiry_map(t2).contains_key(kept@[i].id@) by {
                        if i < before.len() {
                            assert(kept@[i] == before[i]);
                        }
                    }
                }
            } else {
                proof {
                    assert(alive_at(expiry_map(t2), now) =~= alive_at(expiry_map(t), now));
                    assert(data_map(kept@) =~= data_map(t2).restrict(expiry_map(kept@).dom()));
                }
            }
        }
        proof {
            assert(all.take(all.len() as int) == all);
            lemma_data_map_dom(all);
            assert(data_map(kept@) =~= data_map(all).restrict(alive_at(expiry_map(all), now).dom()));
        }
        self.sessions = kept;
    }

    /// Takes the session with identifier `id` out of the manager; the others
    /// are kept as they are.
    fn take_session(&mut self, id: &str) -> (r: Option<Session>)
        requires
            old(self).wf(),
        ensures
            final(self).wf(),
            final(self)@ == old(self)@.remove(id@),
            final(self).data() == old(self).data().remove(id@),
            final(self).duration() == old(self).duration(),
            match r {
                Some(s) => old(self)@.contains_key(id@) && s.id@ == id@ && s.expires_at == old(
                    self,
                )@[id@] && s.data@ == old(self).data()[id@],
                None => !old(self)@.contains_key(id@),
            },
    {
        let key = String::from_str(id);
        let mut old_sessions: Vec<Session> = Vec::new();
        std::mem::swap(&mut old_sessions, &mut self.sessions);
        let ghost all = old_sessions@;
        let mut kept: Vec<Session> = Vec::new();
        let mut found: Option<Session> = None;
        assert(all.take(0) == Seq::<Session>::empty());
        assert(expiry_map(Seq::<Session>::empty()).remove(id@) =~= expiry_map(kept@));
        assert(data_map(Seq::<Session>::empty()).remove(id@) =~= data_map(kept@));
        for x in it: old_sessions
            invariant
                it.seq() == all,
                key@ == id@,
                unique_ids(all),
                unique_ids(kept@),
                expiry_map(kept@) == expiry_map(all.take(it.index() as int)).remove(id@),
                data_map(kept@) == data_map(all.take(it.index() as int)).remove(id@),
                forall|i: int| 0 <= i < kept@.len() ==> #[trigger] expiry_map(all.take(it.index() as int)).contains_key(kept@[i].id@),
                match found {
                    Some(s) => expiry_map(all.take(it.index() as int)).contains_key(id@) && s.id@
                        == id@ && s.expires_at == expiry_map(all.take(it.index() as int))[id@]
                        && s.data@ == data_map(all.take(it.index() as int))[id@],
                    None => !expiry_map(all.take(it.index() as int)).contains_key(id@),
                },
        {
            let ghost k = it.index() as int;
            let ghost t = all.take(k);
            let ghost t2 = all.take(k + 1);
            proof {
                assert(t2.drop_last() == t);
                assert(t2.last() == x);
                assert(all[k] == x);
                lemma_fresh_in_prefix(all, k);
                lemma_expiry_map_dom(t);
                lemma_expiry_map_dom(t2);
                lemma_data_map_dom(t);
                assert forall|i: int| 0 <= i < kept@.len() implies #[trigger] expiry_map(t2).contains_key(kept@[i].id@) by {
                    assert(expiry_map(t).contains_key(kept@[i].id@));
                }
            }
            let ghost before = kept@;
            if x.id == key {
                proof {
                    assert(expiry_map(t2).remove(id@) =~= expiry_map(t).remove(id@));
                    assert(data_map(t2).remove(id@) =~= data_map(t).remove(id@));
                }
                found = Some(x);
            } else {
                kept.push(x);
                proof {
                    assert(kept@ == before.push(x));
                    assert(kept@.drop_last() == before);
                    assert(kept@.last() == x);
                    assert(expiry_map(kept@) == expiry_map(before).insert(x.id@, x.expires_at));
                    assert(data_map(kept@) == data_map(before).insert(x.id@, x.data@));
                    lemma_push_unique(before, x, t);
                    assert(expiry_map(t2).remove(id@) =~= expiry_map(t).remove(id@).insert(
                        x.id@, x.expires_at));
                    assert(data_map(t2).remove(id@) =~= data_map(t).remove(id@).insert(x.id@, x.data@));
                    assert forall|i: int| 0 <= i < kept@.len() implies #[trigger] expiry_map(t2).contains_key(kept@[i].id@) by {
                        if i < before.len() {
                            assert(kept@[i] == before[i]);
                        }
                    }
                }
            }
        }
        proof {
            assert(all.take(all.len() as int) == all);
        }
        self.sessions = kept;
        found
    }

    /// Adds a session whose identifier the manager does not hold.
    fn push_session(&mut self, x: Session)
        requires
            old(self).wf(),
            !old(self)@.contains_key(x.id@),
        ensures
            final(self).wf(),
            final(self)@ == old(self)@.insert(x.id@, x.expires_at),
            final(self).data() == old(self).data().insert(x.id@, x.data@),
            final(self).duration() == old(self).duration(),
            final(self).sessions@.len() > 0,
            final(self).sessions@.last() == x,
    {
        let ghost before = self.sessions@;
        proof {
            lemma_expiry_map_dom(before);
            assert forall|i: int| 0 <= i < before.len() implies #[trigger] expiry_map(before).contains_key(before[i].id@) by {}
            lemma_push_unique(before, x, before);
        }
        self.sessions.push(x);
        proof {
            assert(self.sessions@ == before.push(x));
            assert(self.sessions@.drop_last() == before);
        }
    }

    /// Whether the manager holds a session `id`.
    fn holds(&self, id: &str) -> (r: bool)
        ensures
            r == self@.contains_key(id@),
    {
        let key = String::from_str(id);
        let mut i: usize = 0;
        proof {
            lemma_expiry_map_dom(self.sessions@);
        }
        while i < self.sessions.len()
            invariant
                i <= self.sessions.len(),
                key@ == id@,
                forall|j: int| 0 <= j < i ==> self.sessions@[j].id@ != id@,
            decreases self.sessions.len() - i,
        {
            if self.sessions[i].id == key {
                proof {
                    lemma_expiry_map_dom(self.sessions@);
                    assert(self.sessions@[i as int].id@ == id@);
                }
                return true;
            }
            i += 1;
        }
        false
    }

    /// The identifier for the first token, counting on from `token`, that
    /// names no session of the manager.
    fn fresh_id(&self, token: u128) -> (r: String)
        requires
            self.wf(),
        ensures
            first_free_id(self@, token, r@),
    {
        let n = self.sessions.len();
        let mut k: usize = 0;
        let mut cand: u128 = token;
        proof {
            lemma_expiry_map_size(self.sessions@);
            lemma_some_token_free(self@, token, n as nat);
        }
        loop
            invariant
                n == self.sessions.len(),
                k <= n,
                cand == token_step(token, k as nat),
                forall|j: nat| j < k ==> self@.contains_key(#[trigger] hex_lower(token_step(token, j) as nat)),
                exists|j: nat| j <= n && !self@.contains_key(#[trigger] hex_lower(token_step(token, j) as nat)),
            decreases n - k,
        {
            let id = hex_string(cand);
            if !self.holds(id.as_str()) {
                proof {
                    assert(token_step(token, k as nat) == cand);
                }
                return id;
            }
            if k == n {
                proof {
                    let j = choose|j: nat| j <= n && !self@.contains_key(#[trigger] hex_lower(token_step(token, j) as nat));
                    if j < k {
                        assert(self@.contains_key(hex_lower(token_step(token, j) as nat)));
                    }
                }
            }
            proof {
                assert forall|j: nat| j < k + 1 implies self@.contains_key(#[trigger] hex_lower(token_step(token, j) as nat)) by {
                    if j == k {
                        assert(hex_lower(cand as nat) == id@);
                    }
                }
            }
            k += 1;
            cand = if cand == u128::MAX {
                0
            } else {
                cand + 1
            };
        }
    }

    /// The clock reading at which a session touched at `now` expires.
    fn expiry_from(&self, now: u128) -> (r: u128)
        ensures
            r == expiry_after(now, self.duration()),
    {
        let d: u128 = (self.session_duration as u128) * 1_000_000_000;
        if now <= u128::MAX - d {
            now + d
        } else {
            u128::MAX
        }
    }

    /// Registers a new session, with empty data, at clock reading `now`, after
    /// dropping the sessions that have expired at `now`; the others are kept
    /// as they are. Its identifier is the lower-case hexadecimal text of the
    /// first token, counting on from `token`, that names no session left
    /// alive, so no live session is replaced: where none is named by
    /// `token` itself, that is `token`'s text.
    pub fn create_session_at(&mut self, now: u128, token: u128) -> (r: String)
        requires
            old(self).wf(),
        ensures
            final(self).wf(),
            final(self).duration() == old(self).duration(),
            first_free_id(alive_at(old(self)@, now), token, r@),
            r@ == new_session_id(alive_at(old(self)@, now), token),
            final(self)@ == alive_at(old(self)@, now).insert(r@, expiry_after(now, old(self).duration())),
            final(self).data() == kept_data(old(self).data(), alive_at(old(self)@, now)).insert(
                r@,
                Map::empty(),
            ),
    {
        self.cleanup_expired_at(now);
        let id = self.fresh_id(token);
        proof {
            lemma_first_free_id_unique(alive_at(old(self)@, now), token, id@, new_session_id(alive_at(old(self)@, now), token));
        }
        let expires_at = self.expiry_from(now);
        let session = Session { id: id.clone(), data: StringHashMap::new(), expires_at };
        self.push_session(session);
        proof {
            assert(self@ =~= alive_at(old(self)@, now).insert(id@, expires_at));
            assert(self.data() =~= kept_data(old(self).data(), alive_at(old(self)@, now)).insert(
                id@,
                Map::empty(),
            ));
        }
        id
    }

    /// Looks up the session `id` at clock reading `now`, after dropping the
    /// sessions that have expired at `now`; a session found is touched: it
    /// now expires a full lifetime after `now`, and keeps its data. It is
    /// handed out for update; the manager stays well formed as long as its
    /// identifier is left as it is.
    pub fn get_session_at(&mut self, id: &str, now: u128) -> (r: Option<&mut Session>)
        requires
            old(self).wf(),
        ensures
            (r matches Some(s) ==> final(s).id@ == id@) ==> final(self).wf(),
            final(self).duration() == old(self).duration(),
            touched(
                old(self)@,
                final(self)@,
                old(self).data(),
                final(self).data(),
                id@,
                now,
                old(self).duration(),
                match r {
                    Some(s) => Some((*s, *final(s))),
                    None => None,
                },
            ),
    {
        self.cleanup_expired_at(now);
        match self.take_session(id) {
            Some(mut s) => {
                s.expires_at = self.expiry_from(now);
                self.push_session(s);
                let n = self.sessions.len();
                let ghost pre = self.sessions@;
                proof {
                    lemma_data_map_dom(old(self).sessions@);
                    assert(self@ =~= alive_at(old(self)@, now).insert(id@, expiry_after(now, old(self).duration())));
                    assert(self.data() =~= kept_data(old(self).data(), alive_at(old(self)@, now)));
                    assert forall|last: Session| last.id@ == id@ implies {
                        &&& unique_ids(#[trigger] pre.drop_last().push(last))
                        &&& expiry_map(pre.drop_last().push(last)) == alive_at(old(self)@, now).insert(id@, last.expires_at)
                        &&& data_map(pre.drop_last().push(last)) == kept_data(old(self).data(), alive_at(old(self)@, now)).insert(id@, last.data@)
                    } by {
                        lemma_replace_last(pre, last);
                        assert(alive_at(old(self)@, now).insert(id@, expiry_after(now, old(self).duration())).insert(id@, last.expires_at)
                            =~= alive_at(old(self)@, now).insert(id@, last.expires_at));
                        assert(kept_data(old(self).data(), alive_at(old(self)@, now)).insert(id@, last.data@) =~=
                            kept_data(old(self).data(), alive_at(old(self)@, now)).insert(id@, last.data@));
                    }
                }
                let r = &mut self.sessions[n - 1];
                proof {
                    assert(pre.update(n - 1, *final(r)) == pre.drop_last().push(*final(r)));
                }
                Some(r)
            },
            None => {
                proof {
                    assert(self@ =~= alive_at(old(self)@, now));
                    assert(self.data() =~= kept_data(old(self).data(), alive_at(old(self)@, now)));
                }
                None
            },
        }
    }

    /// Removes the session `id`, if the manager holds it; the others are kept
    /// as they are.
    pub fn destroy_session(&mut self, id: &str)
        requires
            old(self).wf(),
        ensures
            final(self).wf(),
            final(self).duration() == old(self).duration(),
            final(self)@ == old(self)@.remove(id@),
            final(self).data() == old(self).data().remove(id@),
    {
        let _ = self.take_session(id);
    }

    /// This manager's clock reading: nanoseconds since its origin.
    pub(crate) fn now(&self) -> u128 {
        let d = elapsed_since(&self.origin);
        duration_nanos(&d)
    }

    /// Registers a new session, with empty data, after dropping the sessions
    /// that have expired by now. Its identifier is counted on from a token
    /// taken from the system clock to the first that no live session holds.
    pub fn create_session(&mut self) -> (r: String)
        requires
            old(self).wf(),
        ensures
            final(self).wf(),
            final(self).duration() == old(self).duration(),
            exists|now: u128, nanos: u128|
                first_free_id(alive_at(old(self)@, now), token_from_nanos(nanos), r@) && final(self)@ == alive_at(
                    old(self)@,
                    now,
                ).insert(r@, expiry_after(now, old(self).duration())) && final(self).data() == kept_data(
                    old(self).data(),
                    alive_at(old(self)@, now),
                ).insert(r@, Map::empty()),
    {
        let now = self.now();
        let token = rand_id();
        let ghost nanos = choose|nanos: u128| token == token_from_nanos(nanos);
        let r = self.create_session_at(now, token);
        proof {
            assert(first_free_id(alive_at(old(self)@, now), token_from_nanos(nanos), r@));
        }
        r
    }

    /// Looks up the session `id` by now, after dropping the sessions that have
    /// expired; a session found is touched, and handed out for update.
    pub fn get_session(&mut self, id: &str) -> (r: Option<&mut Session>)
        requires
            old(self).wf(),
        ensures
            (r matches Some(s) ==> final(s).id@ == id@) ==> final(self).wf(),
            final(self).duration() == old(self).duration(),
            exists|now: u128|
                #![trigger alive_at(old(self)@, now)]
                touched(
                    old(self)@,
                    final(self)@,
                    old(self).data(),
                    final(self).data(),
                    id@,
                    now,
                    old(self).duration(),
                    match r {
                        Some(s) => Some((*s, *final(s))),
                        None => None,
                    },
                ),
    {
        let now = self.now();
        self.get_session_at(id, now)
    }
}

/// What a lookup of `id` at `now` does to sessions `before`: whether it finds
/// the session (it is alive at `now`), and the sessions after it: those
/// expired at `now` are dropped and the one found is touched.
pub open spec fn lookup_outcome(before: Map<Seq<char>, u128>, id: Seq<char>, now: u128, secs: u64) -> (
    bool,
    Map<Seq<char>, u128>,
) {
    if alive_at(before, now).contains_key(id) {
        (true, alive_at(before, now).insert(id, expiry_after(now, secs)))
    } else {
        (false, alive_at(before, now))
    }
}

/// The data of the sessions in `data` that `m` keeps, unchanged.
pub open spec fn kept_data(data: Map<Seq<char>, Map<Seq<char>, String>>, m: Map<Seq<char>, u128>) -> Map<
    Seq<char>,
    Map<Seq<char>, String>,
> {
    data.restrict(m.dom())
}

/// A lookup of `id` at `now` that turned sessions `before` (with data
/// `data_before`) into `after` (with data `data_after`), as `lookup_outcome`
/// says. `answer` is the session answered, as it was handed out and as its
/// holder left it: the session found, touched and with its data; it stays
/// in the manager as its holder left it. Every other session kept keeps its
/// data.
pub open spec fn touched(
    before: Map<Seq<char>, u128>,
    after: Map<Seq<char>, u128>,
    data_before: Map<Seq<char>, Map<Seq<char>, String>>,
    data_after: Map<Seq<char>, Map<Seq<char>, String>>,
    id: Seq<char>,
    now: u128,
    secs: u64,
    answer: Option<(Session, Session)>,
) -> bool {
    let (found, m) = lookup_outcome(before, id, now, secs);
    &&& answer is Some == found
    &&& match answer {
        Some((s, last)) => {
            &&& s.id@ == id
            &&& s.expires_at == expiry_after(now, secs)
            &&& s.data@ == data_before[id]
            &&& last.id@ == id ==> after == alive_at(before, now).insert(id, last.expires_at)
                && data_after == kept_data(data_before, m).insert(id, last.data@)
        },
        None => after == m && data_after == kept_data(data_before, m),
    }
}

/// A session registered at `now1`, as `create_session_at` registers it, is
/// found by a lookup at `now2` before it expires, as `get_session_at` looks
/// up: with its identifier and empty data, and touched.
pub proof fn lemma_created_session_found(
    before: Map<Seq<char>, u128>,
    data: Map<Seq<char>, Map<Seq<char>, String>>,
    id: Seq<char>,
    now1: u128,
    now2: u128,
    secs: u64,
    after: Map<Seq<char>, u128>,
    data_after: Map<Seq<char>, Map<Seq<char>, String>>,
    answer: Option<(Session, Session)>,
)
    requires
        now2 < expiry_after(now1, secs),
        touched(
            alive_at(before, now1).insert(id, expiry_after(now1, secs)),
            after,
            kept_data(data, alive_at(before, now1)).insert(id, Map::empty()),
            data_after,
            id,
            now2,
            secs,
            answer,
        ),
    ensures
        answer matches Some((s, _)) && s.id@ == id && s.data@ == Map::<Seq<char>, String>::empty()
            && s.expires_at == expiry_after(now2, secs),
{
    let m = alive_at(before, now1).insert(id, expiry_after(now1, secs));
    assert(alive_at(m, now2).contains_key(id));
}

} // verus!
