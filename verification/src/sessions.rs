//! Sessions: the ids that clients carry in a cookie, and the bounded store of
//! what the server remembers of them.

use vstd::prelude::*;

use crate::http;
use crate::http::Request;
use crate::numeral;
use crate::text;

verus! {

/// A session is forgotten after this much inactivity, in nanoseconds.
pub const SESSION_TTL: u64 = 30 * 60 * 1_000_000_000;

/// Hard ceiling on the session store; the least recently seen entry is evicted.
pub const MAX_SESSIONS: usize = 4096;

/// What is remembered of a session: its visits, and when it was last seen.
pub struct Visits {
    pub count: u64,
    pub seen: u64,
}

#[derive(Debug)]
struct Session {
    id: String,
    visits: u64,
    seen: u64,
}

/// The sessions that carry server-side state, by id. No id occurs twice, and
/// there are never more than [`MAX_SESSIONS`].
#[derive(Debug)]
pub struct SessionStore {
    entries: Vec<Session>,
}

spec fn distinct_ids(entries: Seq<Session>) -> bool {
    forall|i: int, j: int|
        0 <= i < j < entries.len() ==> #[trigger] entries[i].id@ != #[trigger] entries[j].id@
}

/// The map that a list of sessions stands for.
spec fn session_map(entries: Seq<Session>) -> Map<Seq<char>, Visits>
    decreases entries.len(),
{
    if entries.len() == 0 {
        Map::empty()
    } else {
        session_map(entries.drop_last()).insert(
            entries.last().id@,
            Visits { count: entries.last().visits, seen: entries.last().seen },
        )
    }
}

impl View for SessionStore {
    type V = Map<Seq<char>, Visits>;

    closed spec fn view(&self) -> Map<Seq<char>, Visits> {
        session_map(self.entries@)
    }
}

/// The map holds exactly the listed sessions.
proof fn lemma_session_map(entries: Seq<Session>)
    requires
        distinct_ids(entries),
    ensures
        forall|i: int|
            0 <= i < entries.len() ==> {
                &&& session_map(entries).dom().contains(#[trigger] entries[i].id@)
                &&& session_map(entries)[entries[i].id@] == (Visits {
                    count: entries[i].visits,
                    seen: entries[i].seen,
                })
            },
        forall|k: Seq<char>| #[trigger]
            session_map(entries).dom().contains(k) ==> exists|i: int|
                0 <= i < entries.len() && #[trigger] entries[i].id@ == k,
        session_map(entries).dom().finite(),
        session_map(entries).dom().len() == entries.len(),
    decreases entries.len(),
{
    if entries.len() > 0 {
        let rest = entries.drop_last();
        lemma_session_map(rest);
        assert forall|i: int| 0 <= i < entries.len() implies {
            &&& session_map(entries).dom().contains(#[trigger] entries[i].id@)
            &&& session_map(entries)[entries[i].id@] == (Visits {
                count: entries[i].visits,
                seen: entries[i].seen,
            })
        } by {
            if i < rest.len() {
                assert(rest[i].id@ == entries[i].id@);
            }
        }
        assert forall|k: Seq<char>| #[trigger]
            session_map(entries).dom().contains(k) implies exists|i: int|
            0 <= i < entries.len() && #[trigger] entries[i].id@ == k by {
            if k == entries.last().id@ {
                assert(entries[entries.len() - 1].id@ == k);
            } else {
                assert(session_map(rest).dom().contains(k));
                let i = choose|i: int| 0 <= i < rest.len() && #[trigger] rest[i].id@ == k;
                assert(entries[i].id@ == k);
            }
        }
        let last = entries.last().id@;
        if session_map(rest).dom().contains(last) {
            let i = choose|i: int| 0 <= i < rest.len() && #[trigger] rest[i].id@ == last;
            assert(entries[i].id@ != entries[entries.len() - 1].id@);
        }
    }
}

/// Two lists with the same sessions stand for the same map.
proof fn lemma_same_map(entries: Seq<Session>, map: Map<Seq<char>, Visits>)
    requires
        distinct_ids(entries),
        forall|i: int|
            0 <= i < entries.len() ==> {
                &&& map.dom().contains(#[trigger] entries[i].id@)
                &&& map[entries[i].id@] == (Visits {
                    count: entries[i].visits,
                    seen: entries[i].seen,
                })
            },
        forall|k: Seq<char>| #[trigger]
            map.dom().contains(k) ==> exists|i: int|
                0 <= i < entries.len() && #[trigger] entries[i].id@ == k,
    ensures
        session_map(entries) == map,
{
    lemma_session_map(entries);
    assert forall|k: Seq<char>| #[trigger]
        session_map(entries).dom().contains(k) <==> map.dom().contains(k) by {
        if session_map(entries).dom().contains(k) {
            let i = choose|i: int| 0 <= i < entries.len() && #[trigger] entries[i].id@ == k;
        }
        if map.dom().contains(k) {
            let i = choose|i: int| 0 <= i < entries.len() && #[trigger] entries[i].id@ == k;
        }
    }
    assert forall|k: Seq<char>| #[trigger] session_map(entries).dom().contains(k) implies session_map(
        entries,
    )[k] == map[k] by {
        let i = choose|i: int| 0 <= i < entries.len() && #[trigger] entries[i].id@ == k;
    }
    assert(session_map(entries) =~= map);
}

proof fn lemma_remove(entries: Seq<Session>, i: int)
    requires
        distinct_ids(entries),
        0 <= i < entries.len(),
    ensures
        distinct_ids(entries.remove(i)),
        session_map(entries.remove(i)) == session_map(entries).remove(entries[i].id@),
{
    let after = entries.remove(i);
    let map = session_map(entries).remove(entries[i].id@);
    lemma_session_map(entries);
    assert forall|a: int, b: int| 0 <= a < b < after.len() implies #[trigger] after[a].id@
        != #[trigger] after[b].id@ by {
        let x = if a < i {
            a
        } else {
            a + 1
        };
        let y = if b < i {
            b
        } else {
            b + 1
        };
        assert(entries[x].id@ != entries[y].id@);
    }
    assert forall|a: int| 0 <= a < after.len() implies {
        &&& map.dom().contains(#[trigger] after[a].id@)
        &&& map[after[a].id@] == (Visits { count: after[a].visits, seen: after[a].seen })
    } by {
        let x = if a < i {
            a
        } else {
            a + 1
        };
        assert(after[a] == entries[x]);
        if x < i {
            assert(entries[x].id@ != entries[i].id@);
        } else {
            assert(entries[i].id@ != entries[x].id@);
        }
    }
    assert forall|k: Seq<char>| #[trigger] map.dom().contains(k) implies exists|a: int|
        0 <= a < after.len() && #[trigger] after[a].id@ == k by {
        assert(session_map(entries).dom().contains(k));
        let x = choose|x: int| 0 <= x < entries.len() && #[trigger] entries[x].id@ == k;
        if x < i {
            assert(after[x].id@ == k);
        } else {
            assert(after[x - 1].id@ == k);
        }
    }
    lemma_same_map(after, map);
}

proof fn lemma_push(entries: Seq<Session>, entry: Session)
    requires
        distinct_ids(entries),
        forall|i: int| 0 <= i < entries.len() ==> #[trigger] entries[i].id@ != entry.id@,
    ensures
        distinct_ids(entries.push(entry)),
        session_map(entries.push(entry)) == session_map(entries).insert(
            entry.id@,
            Visits { count: entry.visits, seen: entry.seen },
        ),
{
    let after = entries.push(entry);
    assert(after.drop_last() =~= entries);
    assert forall|a: int, b: int| 0 <= a < b < after.len() implies #[trigger] after[a].id@
        != #[trigger] after[b].id@ by {
        assert(after[a] == entries[a]);
        if b < entries.len() {
            assert(entries[a].id@ != entries[b].id@);
        }
    }
}

proof fn lemma_update(entries: Seq<Session>, i: int, entry: Session)
    requires
        distinct_ids(entries),
        0 <= i < entries.len(),
        entries[i].id@ == entry.id@,
    ensures
        distinct_ids(entries.update(i, entry)),
        session_map(entries.update(i, entry)) == session_map(entries).insert(
            entry.id@,
            Visits { count: entry.visits, seen: entry.seen },
        ),
{
    let after = entries.update(i, entry);
    let map = session_map(entries).insert(
        entry.id@,
        Visits { count: entry.visits, seen: entry.seen },
    );
    lemma_session_map(entries);
    assert forall|a: int, b: int| 0 <= a < b < after.len() implies #[trigger] after[a].id@
        != #[trigger] after[b].id@ by {
        assert(entries[a].id@ != entries[b].id@);
    }
    assert forall|a: int| 0 <= a < after.len() implies {
        &&& map.dom().contains(#[trigger] after[a].id@)
        &&& map[after[a].id@] == (Visits { count: after[a].visits, seen: after[a].seen })
    } by {
        assert(after[a].id@ == entries[a].id@);
        if a < i {
            assert(entries[a].id@ != entries[i].id@);
        } else if i < a {
            assert(entries[i].id@ != entries[a].id@);
        }
    }
    assert forall|k: Seq<char>| #[trigger] map.dom().contains(k) implies exists|a: int|
        0 <= a < after.len() && #[trigger] after[a].id@ == k by {
        if k == entry.id@ {
            assert(after[i].id@ == k);
        } else {
            assert(session_map(entries).dom().contains(k));
            let x = choose|x: int| 0 <= x < entries.len() && #[trigger] entries[x].id@ == k;
            assert(after[x].id@ == k);
        }
    }
    lemma_same_map(after, map);
}

// ------------------------------------------------------------------- the store

/// What was last seen at `seen` is not yet forgotten at `now`.
pub open spec fn is_fresh(seen: u64, now: u64) -> bool {
    now - seen < SESSION_TTL
}

/// The sessions that are not yet forgotten.
pub open spec fn fresh_sessions(sessions: Map<Seq<char>, Visits>, now: u64) -> Map<
    Seq<char>,
    Visits,
> {
    Map::new(
        |id: Seq<char>| sessions.dom().contains(id) && is_fresh(sessions[id].seen, now),
        |id: Seq<char>| sessions[id],
    )
}

/// No session was last seen earlier.
pub open spec fn is_oldest(sessions: Map<Seq<char>, Visits>, id: Seq<char>) -> bool {
    &&& sessions.dom().contains(id)
    &&& forall|other: Seq<char>| #[trigger]
        sessions.dom().contains(other) ==> sessions[id].seen <= sessions[other].seen
}

/// One visit more; the counter starts over behind its largest value.
pub open spec fn one_more(count: u64) -> u64 {
    if count == u64::MAX {
        0
    } else {
        (count + 1) as u64
    }
}

/// One visit of `id` leads from one state of the store to the other: what is stale
/// is gone, where there is no room for a new id a least recently seen one is gone,
/// and the visit is counted.
pub open spec fn visited(
    before: Map<Seq<char>, Visits>,
    id: Seq<char>,
    now: u64,
    after: Map<Seq<char>, Visits>,
) -> bool {
    let kept = fresh_sessions(before, now);
    if kept.dom().contains(id) {
        after == kept.insert(id, Visits { count: one_more(kept[id].count), seen: now })
    } else if kept.dom().len() < MAX_SESSIONS {
        after == kept.insert(id, Visits { count: 1, seen: now })
    } else {
        exists|oldest: Seq<char>| #[trigger]
            is_oldest(kept, oldest) && after == kept.remove(oldest).insert(
                id,
                Visits { count: 1, seen: now },
            )
    }
}

fn still_fresh(seen: u64, now: u64) -> (b: bool)
    ensures
        b == is_fresh(seen, now),
{
    now <= seen || now - seen < SESSION_TTL
}

impl SessionStore {
    #[verifier::type_invariant]
    spec fn well_formed(self) -> bool {
        distinct_ids(self.entries@) && self.entries@.len() <= MAX_SESSIONS
    }

    /// A store that remembers nothing.
    pub fn new() -> (store: SessionStore)
        ensures
            store@ == Map::<Seq<char>, Visits>::empty(),
    {
        SessionStore { entries: Vec::new() }
    }

    /// How many sessions are remembered.
    pub fn len(&self) -> (n: usize)
        ensures
            self@.dom().finite(),
            n == self@.dom().len(),
            n <= MAX_SESSIONS,
    {
        proof {
            use_type_invariant(self);
            lemma_session_map(self.entries@);
        }
        self.entries.len()
    }

    /// Count one visit for `id`, expiring stale sessions and keeping the store
    /// bounded on the way.
    pub fn touch(&mut self, id: &str, now: u64) -> (count: u64)
        ensures
            visited(old(self)@, id@, now, final(self)@),
            final(self)@.dom().contains(id@),
            final(self)@[id@] == (Visits { count, seen: now }),
            final(self)@.dom().finite(),
            final(self)@.dom().len() <= MAX_SESSIONS,
    {
        proof {
            use_type_invariant(&*self);
        }
        let ghost before = self@;
        let mut entries: Vec<Session> = Vec::new();
        std::mem::swap(&mut entries, &mut self.entries);
        expire(&mut entries, now);
        let ghost kept = entries@;
        let ghost kept_map = fresh_sessions(before, now);
        proof {
            lemma_session_map(kept);
        }
        let mut count: u64 = 1;
        match position(&entries, id) {
            Some(i) => {
                count = if entries[i].visits == u64::MAX {
                    0
                } else {
                    entries[i].visits + 1
                };
                let entry: Session = Session { id: id.to_owned(), visits: count, seen: now };
                proof {
                    lemma_update(kept, i as int, entry);
                    assert(kept_map.dom().contains(id@));
                }
                entries.set(i, entry);
            },
            None => {
                proof {
                    if kept_map.dom().contains(id@) {
                        let x = choose|x: int| 0 <= x < kept.len() && #[trigger] kept[x].id@ == id@;
                    }
                }
                if entries.len() >= MAX_SESSIONS {
                    let i: usize = oldest(&entries);
                    proof {
                        lemma_remove(kept, i as int);
                        lemma_oldest(kept, i as int);
                    }
                    entries.remove(i);
                }
                let entry: Session = Session { id: id.to_owned(), visits: 1, seen: now };
                proof {
                    assert forall|j: int| 0 <= j < entries@.len() implies #[trigger] entries@[j].id@
                        != entry.id@ by {
                        if kept.len() >= MAX_SESSIONS {
                            assert(exists|x: int|
                                0 <= x < kept.len() && #[trigger] kept[x] == entries@[j]);
                        }
                    }
                    lemma_push(entries@, entry);
                }
                entries.push(entry);
            },
        }
        proof {
            lemma_session_map(entries@);
            assert(visited(before, id@, now, session_map(entries@)));
        }
        self.entries = entries;
        count
    }
}

/// Drops the sessions that are to be forgotten.
fn expire(entries: &mut Vec<Session>, now: u64)
    requires
        distinct_ids(old(entries)@),
    ensures
        distinct_ids(final(entries)@),
        final(entries)@.len() <= old(entries)@.len(),
        session_map(final(entries)@) == fresh_sessions(session_map(old(entries)@), now),
{
    let ghost whole = session_map(entries@);
    let ghost n = entries@.len();
    let mut i: usize = 0;
    while i < entries.len()
        invariant
            i <= entries@.len() <= n,
            distinct_ids(entries@),
            fresh_sessions(session_map(entries@), now) == fresh_sessions(whole, now),
            forall|j: int| 0 <= j < i ==> is_fresh(#[trigger] entries@[j].seen, now),
        decreases entries@.len() - i,
    {
        if still_fresh(entries[i].seen, now) {
            i += 1;
        } else {
            proof {
                let m = session_map(entries@);
                let id = entries@[i as int].id@;
                lemma_session_map(entries@);
                lemma_remove(entries@, i as int);
                assert(fresh_sessions(m.remove(id), now) =~= fresh_sessions(m, now));
            }
            entries.remove(i);
        }
    }
    proof {
        let m = session_map(entries@);
        lemma_session_map(entries@);
        assert forall|id: Seq<char>| #[trigger] m.dom().contains(id) implies is_fresh(
            m[id].seen,
            now,
        ) by {
            let x = choose|x: int| 0 <= x < entries@.len() && #[trigger] entries@[x].id@ == id;
        }
        assert(fresh_sessions(m, now) =~= m);
    }
}

/// The index of the session with this id.
fn position(entries: &Vec<Session>, id: &str) -> (found: Option<usize>)
    ensures
        match found {
            Some(i) => i < entries@.len() && entries@[i as int].id@ == id@,
            None => forall|j: int| 0 <= j < entries@.len() ==> #[trigger] entries@[j].id@ != id@,
        },
{
    let mut i: usize = 0;
    while i < entries.len()
        invariant
            i <= entries@.len(),
            forall|j: int| 0 <= j < i ==> #[trigger] entries@[j].id@ != id@,
        decreases entries@.len() - i,
    {
        if text::same_text(entries[i].id.as_str(), id) {
            return Some(i);
        }
        i += 1;
    }
    None
}

/// The index of a least recently seen session.
fn oldest(entries: &Vec<Session>) -> (at: usize)
    requires
        entries@.len() > 0,
    ensures
        at < entries@.len(),
        forall|j: int| 0 <= j < entries@.len() ==> entries@[at as int].seen <= #[trigger] entries@[j].seen,
{
    let mut at: usize = 0;
    let mut i: usize = 1;
    while i < entries.len()
        invariant
            at < i <= entries@.len(),
            forall|j: int| 0 <= j < i ==> entries@[at as int].seen <= #[trigger] entries@[j].seen,
        decreases entries@.len() - i,
    {
        if entries[i].seen < entries[at].seen {
            at = i;
        }
        i += 1;
    }
    at
}

proof fn lemma_oldest(entries: Seq<Session>, at: int)
    requires
        distinct_ids(entries),
        0 <= at < entries.len(),
        forall|j: int| 0 <= j < entries.len() ==> entries[at].seen <= #[trigger] entries[j].seen,
    ensures
        is_oldest(session_map(entries), entries[at].id@),
{
    let m = session_map(entries);
    lemma_session_map(entries);
    assert forall|other: Seq<char>| #[trigger] m.dom().contains(other) implies m[entries[at].id@].seen
        <= m[other].seen by {
        let x = choose|x: int| 0 <= x < entries.len() && #[trigger] entries[x].id@ == other;
        assert(entries[at].seen <= entries[x].seen);
    }
}

/// A store never outgrows its bound, whatever comes: a visit leaves it at most
/// [`MAX_SESSIONS`] sessions where it found at most as many.
pub proof fn store_stays_bounded(
    before: Map<Seq<char>, Visits>,
    id: Seq<char>,
    now: u64,
    after: Map<Seq<char>, Visits>,
)
    requires
        before.dom().finite(),
        before.dom().len() <= MAX_SESSIONS,
        visited(before, id, now, after),
    ensures
        after.dom().finite(),
        after.dom().len() <= MAX_SESSIONS,
{
    let kept = fresh_sessions(before, now);
    assert(kept.dom() =~= before.dom().filter(|k: Seq<char>| is_fresh(before[k].seen, now)));
    before.dom().lemma_len_filter(|k: Seq<char>| is_fresh(before[k].seen, now));
}

/// A visit within the time limit after another of the same session counts one up.
pub proof fn visits_are_counted(
    first: Map<Seq<char>, Visits>,
    id: Seq<char>,
    now: u64,
    second: Map<Seq<char>, Visits>,
    later: u64,
    third: Map<Seq<char>, Visits>,
)
    requires
        visited(first, id, now, second),
        visited(second, id, later, third),
        later - now < SESSION_TTL,
    ensures
        second.dom().contains(id) && third.dom().contains(id),
        third[id].count == one_more(second[id].count),
{
}

// ------------------------------------------------------------------ session ids

/// A hexadecimal digit.
pub open spec fn is_hex(c: char) -> bool {
    '0' <= c <= '9' || 'a' <= c <= 'f' || 'A' <= c <= 'F'
}

/// The form of a session id: 32 hexadecimal digits.
pub open spec fn is_session_id(s: Seq<char>) -> bool {
    s.len() == 32 && forall|i: int| 0 <= i < s.len() ==> is_hex(#[trigger] s[i])
}

/// The session of a request, and whether it is a new one: the one that its `SID`
/// cookie names, where that has the form of an id, or else one made of fresh bytes.
pub open spec fn session_of(request: http::RequestView, fresh: Seq<u8>) -> (Seq<char>, bool) {
    let cookies = request.cookie_map();
    if cookies.dom().contains("SID"@) && is_session_id(cookies["SID"@]) {
        (cookies["SID"@], false)
    } else {
        (numeral::hex_bytes(fresh), true)
    }
}

fn looks_like_an_id(s: &str) -> (b: bool)
    ensures
        b == is_session_id(s@),
{
    let chars: Vec<char> = text::chars_of(s);
    if chars.len() != 32 {
        return false;
    }
    let mut i: usize = 0;
    while i < chars.len()
        invariant
            i <= chars@.len(),
            chars@ == s@,
            chars@.len() == 32,
            forall|j: int| 0 <= j < i ==> is_hex(#[trigger] chars@[j]),
        decreases chars@.len() - i,
    {
        let c: char = chars[i];
        if !(('0' <= c && c <= '9') || ('a' <= c && c <= 'f') || ('A' <= c && c <= 'F')) {
            assert(!is_hex(s@[i as int]));
            return false;
        }
        i += 1;
    }
    true
}

/// A session id made of 16 bytes.
pub fn new_session_id(fresh: &[u8; 16]) -> (id: String)
    ensures
        id@ == numeral::hex_bytes(fresh@),
        is_session_id(id@),
{
    proof {
        minted_id_has_the_form_of_an_id(fresh@);
    }
    text::text_of(numeral::to_hex(fresh).as_slice())
}

/// Reuse the client's `SID` cookie when it looks like one of ours, otherwise
/// mint a new id from the fresh bytes. Nothing is written to the session store
/// here: anonymous traffic must not cost the server any memory.
pub fn ensure_session(request: &Request, fresh: &[u8; 16]) -> (session: (String, bool))
    ensures
        (session.0@, session.1) == session_of(request@, fresh@),
        is_session_id(session.0@),
{
    if let Some(sid) = request.cookies().get("SID") {
        if looks_like_an_id(sid.as_str()) {
            return (sid.clone(), false);
        }
    }
    (new_session_id(fresh), true)
}

/// An id that is minted has the form of an id.
pub proof fn minted_id_has_the_form_of_an_id(fresh: Seq<u8>)
    requires
        fresh.len() == 16,
    ensures
        is_session_id(numeral::hex_bytes(fresh)),
{
    lemma_hex_bytes(fresh);
}

proof fn lemma_hex_bytes(bytes: Seq<u8>)
    ensures
        numeral::hex_bytes(bytes).len() == 2 * bytes.len(),
        forall|i: int|
            0 <= i < numeral::hex_bytes(bytes).len() ==> is_hex(
                #[trigger] numeral::hex_bytes(bytes)[i],
            ),
    decreases bytes.len(),
{
    if bytes.len() > 0 {
        lemma_hex_bytes(bytes.drop_last());
        let s = numeral::hex_bytes(bytes);
        let rest = numeral::hex_bytes(bytes.drop_last());
        assert forall|i: int| 0 <= i < s.len() implies is_hex(#[trigger] s[i]) by {
            if i < rest.len() {
                assert(s[i] == rest[i]);
            } else {
                assert(s[i] == numeral::hex_byte(bytes.last())[i - rest.len()]);
            }
        }
    }
}

/// A client that sends the id that it was given keeps its session.
pub proof fn returned_id_is_kept(request: http::RequestView, id: Seq<char>, fresh: Seq<u8>)
    requires
        is_session_id(id),
        request.header("cookie"@) == Some("SID="@ + id),
    ensures
        session_of(request, fresh) == (id, false),
{
    reveal_strlit("SID=");
    reveal_strlit("SID");
    let value = "SID="@ + id;
    assert forall|i: int| 0 <= i < value.len() implies value[i] != ';' && !text::is_space(
        value[i],
    ) by {
        if i >= 4 {
            assert(value[i] == id[i - 4]);
            assert(is_hex(id[i - 4]));
        }
    }
    text::lemma_first_index_absent(value, ';');
    assert(text::pieces(value, seq![';']) =~= seq![value]);
    text::lemma_trimmed_as_is(value);
    assert(value =~= "SID"@ + seq!['='] + id);
    text::lemma_first_index_behind("SID"@, seq!['='], id);
    assert(value.take(3) =~= "SID"@);
    assert(value.skip(4) =~= id);
    let parts = seq![value];
    assert(parts.drop_first() =~= Seq::<Seq<char>>::empty());
    let found = Map::<Seq<char>, Seq<char>>::empty().insert("SID"@, id);
    assert(http::cookie_pairs(parts.drop_first(), found) == found);
    assert(request.cookie_map() == found);
}

} // verus!
