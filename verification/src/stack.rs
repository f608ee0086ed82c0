use vstd::prelude::*;
use crate::error::QcdError;
use crate::text::str_eq;

verus! {

/// Days a stack entry is retained.
pub const STACKEXPIRE_DAYS: i64 = 21;

/// The retention window in seconds.
pub const STACKEXPIRE_SECONDS: i64 = STACKEXPIRE_DAYS * 86400;

/// One row of the session stack as handed to and from callers.
#[derive(Debug, PartialEq)]
pub struct StackRow {
    pub id: Option<u64>,
    pub sessionid: String,
    pub directory: String,
}

/// One stored stack entry.  `id` grows monotonically with insertion order
/// and doubles as the LIFO depth marker; `timestamp` is epoch seconds, used
/// only for expiry.
#[derive(Debug, PartialEq)]
pub struct StackEntry {
    pub id: u64,
    pub sessionid: String,
    pub timestamp: i64,
    pub directory: String,
}

/// The stack of all sessions, partitioned by `sessionid`; ids are assigned
/// from a monotone counter.
pub struct StackTable {
    pub entries: Vec<StackEntry>,
    pub next_id: u64,
}

// ---------------------------------------------------------------------------
// Spec-level description.
// ---------------------------------------------------------------------------

/// The sweep threshold at `now`: entries whose timestamp lies strictly
/// below it are expired.  Computed over the unbounded integers, so no
/// overflow can occur here.
pub open spec fn cutoff(now: i64) -> int {
    now - STACKEXPIRE_SECONDS
}

/// Whether an entry has aged out of the retention window at `now`.
pub open spec fn expired(e: StackEntry, now: i64) -> bool {
    (e.timestamp as int) < cutoff(now)
}

/// What a sweep at `now` leaves: the unexpired entries, in order, across
/// all sessions.
pub open spec fn tidied(s: Seq<StackEntry>, now: i64) -> Seq<StackEntry> {
    s.filter(|e: StackEntry| !expired(e, now))
}

/// Whether the session has at least one entry.
pub open spec fn has_session(s: Seq<StackEntry>, sid: Seq<char>) -> bool {
    exists|i: int| 0 <= i < s.len() && (#[trigger] s[i].sessionid@) == sid
}

/// The greatest position holding the session — the top of its stack — or
/// minus one when the session has no entry.
pub open spec fn top_pos(s: Seq<StackEntry>, sid: Seq<char>) -> int
    decreases s.len(),
{
    if s.len() == 0 {
        -1
    } else if s.last().sessionid@ == sid {
        s.len() - 1
    } else {
        top_pos(s.drop_last(), sid)
    }
}

/// The public row of a stored entry.
pub open spec fn to_stack_row(e: StackEntry) -> StackRow {
    StackRow { id: Some(e.id), sessionid: e.sessionid, directory: e.directory }
}

/// The session's entries, bottom of the stack first.
pub open spec fn session_entries(s: Seq<StackEntry>, sid: Seq<char>) -> Seq<StackEntry> {
    s.filter(|e: StackEntry| e.sessionid@ == sid)
}

/// Some entry carries this surrogate id.
pub open spec fn has_entry_id(s: Seq<StackEntry>, id: u64) -> bool {
    exists|i: int| 0 <= i < s.len() && (#[trigger] s[i].id) == id
}

/// The first position whose entry carries `id`.
pub open spec fn entry_id_pos(s: Seq<StackEntry>, id: u64) -> int
    decreases s.len(),
{
    if s.len() == 0 {
        0
    } else if s[0].id == id {
        0
    } else {
        1 + entry_id_pos(s.skip(1), id)
    }
}

/// A push at `now` is silently suppressed when, after the sweep, the
/// session's top already holds the incoming directory.
pub open spec fn push_suppressed(s: Seq<StackEntry>, sid: Seq<char>, dir: Seq<char>, now: i64) -> bool {
    let t = tidied(s, now);
    has_session(t, sid) && t[top_pos(t, sid)].directory@ == dir
}

/// How a push at `now` takes the entries from `pre` to `post`: the sweep
/// runs first; a directory equal to the session's top is suppressed;
/// otherwise one entry with the given id, session, timestamp `now` and
/// directory is appended.
pub open spec fn push_post(
    pre: Seq<StackEntry>,
    post: Seq<StackEntry>,
    id: u64,
    sid: Seq<char>,
    dir: Seq<char>,
    now: i64,
) -> bool {
    let t = tidied(pre, now);
    if push_suppressed(pre, sid, dir, now) {
        post == t
    } else {
        &&& post.len() == t.len() + 1
        &&& post.take(t.len() as int) == t
        &&& post.last().id == id
        &&& post.last().sessionid@ == sid
        &&& post.last().timestamp == now
        &&& post.last().directory@ == dir
    }
}

// ---------------------------------------------------------------------------
// Facts about the spec functions.
// ---------------------------------------------------------------------------

/// `top_pos` is the last match and a witness for `has_session`.
pub proof fn lemma_top_pos(s: Seq<StackEntry>, sid: Seq<char>)
    ensures
        -1 <= top_pos(s, sid) < s.len(),
        has_session(s, sid) <==> top_pos(s, sid) >= 0,
        top_pos(s, sid) >= 0 ==> s[top_pos(s, sid)].sessionid@ == sid,
        forall|j: int| top_pos(s, sid) < j < s.len() ==> (#[trigger] s[j].sessionid@) != sid,
    decreases s.len(),
{
    if s.len() > 0 && s.last().sessionid@ != sid {
        let d = s.drop_last();
        lemma_top_pos(d, sid);
        let p = top_pos(s, sid);
        if p >= 0 {
            assert(d[p] == s[p]);
        }
        if has_session(s, sid) {
            let w = choose|i: int| 0 <= i < s.len() && (#[trigger] s[i].sessionid@) == sid;
            assert(w < s.len() - 1);
            assert(d[w] == s[w]);
            assert(d[w].sessionid@ == sid);
            assert(has_session(d, sid));
        }
        assert forall|j: int| p < j < s.len() implies (#[trigger] s[j].sessionid@) != sid by {
            if j < s.len() - 1 {
                assert(d[j] == s[j]);
                assert(d[j].sessionid@ != sid);
            }
        }
    }
}

/// `entry_id_pos` is the first match and a witness for `has_entry_id`.
pub proof fn lemma_entry_id_pos(s: Seq<StackEntry>, id: u64)
    ensures
        0 <= entry_id_pos(s, id) <= s.len(),
        has_entry_id(s, id) <==> entry_id_pos(s, id) < s.len(),
        entry_id_pos(s, id) < s.len() ==> s[entry_id_pos(s, id)].id == id,
        forall|j: int| 0 <= j < entry_id_pos(s, id) ==> (#[trigger] s[j].id) != id,
    decreases s.len(),
{
    if s.len() > 0 && s[0].id != id {
        let t = s.skip(1);
        lemma_entry_id_pos(t, id);
        let p = entry_id_pos(s, id);
        if entry_id_pos(t, id) < t.len() {
            assert(t[entry_id_pos(t, id)] == s[p]);
            assert(s[p].id == id);
        } else if has_entry_id(s, id) {
            let w = choose|i: int| 0 <= i < s.len() && (#[trigger] s[i].id) == id;
            assert(t[w - 1] == s[w]);
            assert(t[w - 1].id == id);
            assert(has_entry_id(t, id));
        }
        assert forall|j: int| 0 <= j < p implies (#[trigger] s[j].id) != id by {
            if j > 0 {
                assert(t[j - 1] == s[j]);
                assert(t[j - 1].id != id);
            }
        }
    }
}

/// The sweep keeps only entries of the input sequence, none of them expired,
/// and keeps their strict id order.
pub proof fn lemma_tidied_wf(s: Seq<StackEntry>, now: i64)
    ensures
        tidied(s, now).len() <= s.len(),
        forall|i: int| 0 <= i < tidied(s, now).len() ==> s.contains(#[trigger] tidied(s, now)[i]),
        forall|i: int| 0 <= i < tidied(s, now).len() ==> !expired(#[trigger] tidied(s, now)[i], now),
        (forall|i: int, j: int| 0 <= i < j < s.len() ==> (#[trigger] s[i].id) < (#[trigger] s[j].id))
            ==> (forall|i: int, j: int|
            0 <= i < j < tidied(s, now).len() ==> (#[trigger] tidied(s, now)[i].id) < (
            #[trigger] tidied(s, now)[j].id)),
    decreases s.len(),
{
    reveal(Seq::filter);
    if s.len() == 0 {
    } else {
        let d = s.drop_last();
        lemma_tidied_wf(d, now);
        let td = tidied(d, now);
        let ts = tidied(s, now);
        assert forall|i: int| 0 <= i < td.len() implies s.contains(#[trigger] td[i]) by {
            assert(d.contains(td[i]));
            let k = choose|k: int| 0 <= k < d.len() && d[k] == td[i];
            assert(s[k] == td[i]);
        }
        if !expired(s.last(), now) {
            assert(ts == td.push(s.last()));
            assert(s.contains(s.last())) by {
                assert(s[s.len() - 1] == s.last());
            }
            if forall|i: int, j: int|
                0 <= i < j < s.len() ==> (#[trigger] s[i].id) < (#[trigger] s[j].id) {
                assert forall|i: int, j: int|
                    0 <= i < j < d.len() implies (#[trigger] d[i].id) < (#[trigger] d[j].id) by {
                    assert(d[i] == s[i]);
                    assert(d[j] == s[j]);
                }
                assert forall|i: int, j: int|
                    0 <= i < j < ts.len() implies (#[trigger] ts[i].id) < (#[trigger] ts[j].id) by {
                    if j < ts.len() - 1 {
                        assert(ts[i] == td[i]);
                        assert(ts[j] == td[j]);
                    } else {
                        assert(ts[j] == s.last());
                        assert(ts[i] == td[i]);
                        assert(d.contains(td[i]));
                        let k = choose|k: int| 0 <= k < d.len() && d[k] == td[i];
                        assert(s[k] == d[k]);
                        assert(s[k].id < s[s.len() - 1].id);
                    }
                }
            }
        } else {
            assert(ts == td);
            if forall|i: int, j: int|
                0 <= i < j < s.len() ==> (#[trigger] s[i].id) < (#[trigger] s[j].id) {
                assert forall|i: int, j: int|
                    0 <= i < j < d.len() implies (#[trigger] d[i].id) < (#[trigger] d[j].id) by {
                    assert(d[i] == s[i]);
                    assert(d[j] == s[j]);
                }
            }
        }
    }
}

/// Peeling the first entry off a session selection: it contributes itself
/// exactly when it belongs to the session.
pub proof fn lemma_session_cons(s: Seq<StackEntry>, sid: Seq<char>)
    requires
        s.len() > 0,
    ensures
        session_entries(s, sid) == (if s[0].sessionid@ == sid {
            seq![s[0]] + session_entries(s.skip(1), sid)
        } else {
            session_entries(s.skip(1), sid)
        }),
    decreases s.len(),
{
    reveal(Seq::filter);
    if s.len() == 1 {
        assert(s.drop_last() =~= Seq::<StackEntry>::empty());
        assert(s.skip(1) =~= Seq::<StackEntry>::empty());
        if s[0].sessionid@ == sid {
            assert(session_entries(s, sid) =~= seq![s[0]] + session_entries(s.skip(1), sid));
        }
    } else {
        let d = s.drop_last();
        lemma_session_cons(d, sid);
        let u = s.skip(1);
        assert(u.last() == s.last());
        assert(u.drop_last() =~= d.skip(1));
        assert(d[0] == s[0]);
        if s[0].sessionid@ == sid {
            if s.last().sessionid@ == sid {
                assert(session_entries(s, sid) == session_entries(d, sid).push(s.last()));
                assert(session_entries(u, sid) == session_entries(d.skip(1), sid).push(s.last()));
                assert((seq![s[0]] + session_entries(d.skip(1), sid)).push(s.last()) =~= seq![s[0]]
                    + session_entries(d.skip(1), sid).push(s.last()));
            } else {
                assert(session_entries(s, sid) == session_entries(d, sid));
                assert(session_entries(u, sid) == session_entries(d.skip(1), sid));
            }
        } else {
            if s.last().sessionid@ == sid {
                assert(session_entries(s, sid) == session_entries(d, sid).push(s.last()));
                assert(session_entries(u, sid) == session_entries(d.skip(1), sid).push(s.last()));
            } else {
                assert(session_entries(s, sid) == session_entries(d, sid));
                assert(session_entries(u, sid) == session_entries(d.skip(1), sid));
            }
        }
    }
}

/// A session selection distributes over concatenation.
pub proof fn lemma_session_split(a: Seq<StackEntry>, b: Seq<StackEntry>, sid: Seq<char>)
    ensures
        session_entries(a + b, sid) == session_entries(a, sid) + session_entries(b, sid),
    decreases b.len(),
{
    reveal(Seq::filter);
    if b.len() == 0 {
        assert(a + b =~= a);
        assert(session_entries(b, sid) =~= Seq::<StackEntry>::empty());
        assert(session_entries(a, sid) + session_entries(b, sid) =~= session_entries(a, sid));
    } else {
        let db = b.drop_last();
        lemma_session_split(a, db, sid);
        assert((a + b).drop_last() =~= a + db);
        assert((a + b).last() == b.last());
        if b.last().sessionid@ == sid {
            assert(session_entries(a + b, sid) == session_entries(a + db, sid).push(b.last()));
            assert(session_entries(b, sid) == session_entries(db, sid).push(b.last()));
            Seq::push_distributes_over_add(
                session_entries(a, sid),
                session_entries(db, sid),
                b.last(),
            );
        } else {
            assert(session_entries(a + b, sid) == session_entries(a + db, sid));
            assert(session_entries(b, sid) == session_entries(db, sid));
        }
    }
}

/// A stretch without entries of the session selects to nothing.
pub proof fn lemma_session_none(u: Seq<StackEntry>, sid: Seq<char>)
    requires
        forall|j: int| 0 <= j < u.len() ==> (#[trigger] u[j].sessionid@) != sid,
    ensures
        session_entries(u, sid) == Seq::<StackEntry>::empty(),
    decreases u.len(),
{
    reveal(Seq::filter);
    if u.len() > 0 {
        let d = u.drop_last();
        assert forall|j: int| 0 <= j < d.len() implies (#[trigger] d[j].sessionid@) != sid by {
            assert(d[j] == u[j]);
        }
        lemma_session_none(d, sid);
        assert(u[u.len() - 1].sessionid@ != sid);
    } else {
        assert(session_entries(u, sid) =~= Seq::<StackEntry>::empty());
    }
}

/// A sweep over entries that are all within the window changes nothing.
pub proof fn lemma_tidied_identity(s: Seq<StackEntry>, now: i64)
    requires
        forall|i: int| 0 <= i < s.len() ==> !expired(#[trigger] s[i], now),
    ensures
        tidied(s, now) == s,
    decreases s.len(),
{
    reveal(Seq::filter);
    if s.len() > 0 {
        let d = s.drop_last();
        assert forall|i: int| 0 <= i < d.len() implies !expired(#[trigger] d[i], now) by {
            assert(d[i] == s[i]);
        }
        lemma_tidied_identity(d, now);
        assert(!expired(s[s.len() - 1], now));
        assert(tidied(s, now) == d.push(s.last()));
        assert(d.push(s.last()) =~= s);
    } else {
        assert(tidied(s, now) =~= s);
    }
}

// ---------------------------------------------------------------------------
// The stack table.
// ---------------------------------------------------------------------------

/// Clones one stored entry field by field.
fn clone_entry(e: &StackEntry) -> (c: StackEntry)
    ensures
        c == *e,
{
    StackEntry {
        id: e.id,
        sessionid: e.sessionid.clone(),
        timestamp: e.timestamp,
        directory: e.directory.clone(),
    }
}

impl StackTable {
    /// The stack's invariant: ids grow strictly with position and stay
    /// below `next_id`.
    pub open spec fn wf(self) -> bool {
        &&& forall|i: int, j: int|
            0 <= i < j < self.entries@.len() ==> (#[trigger] self.entries@[i].id) < (
            #[trigger] self.entries@[j].id)
        &&& forall|i: int|
            0 <= i < self.entries@.len() ==> (#[trigger] self.entries@[i].id) < self.next_id
    }

    /// An empty stack; surrogate ids start at one.
    pub fn new() -> (t: Self)
        ensures
            t.wf(),
            t.entries@.len() == 0,
            t.next_id == 1,
    {
        StackTable { entries: Vec::new(), next_id: 1 }
    }

    /// Remove entries older than the retention window, independent of the
    /// session.  In this in-memory table the sweep cannot fail; a durable
    /// adapter must keep its failure away from the triggering operation.
    #[verifier::loop_isolation(false)]
    pub fn tidyup_stack(&mut self, now: i64)
        requires
            old(self).wf(),
        ensures
            final(self).entries@ == tidied(old(self).entries@, now),
            final(self).next_id == old(self).next_id,
            final(self).wf(),
    {
        let ghost s = self.entries@;
        let c: i64 = if now >= i64::MIN + STACKEXPIRE_SECONDS {
            now - STACKEXPIRE_SECONDS
        } else {
            i64::MIN
        };
        let mut out: Vec<StackEntry> = Vec::new();
        let mut i: usize = 0;
        proof {
            reveal(Seq::filter);
            assert(s.take(0) =~= Seq::<StackEntry>::empty());
        }
        while i < self.entries.len()
            invariant
                *self == *old(self),
                s == self.entries@,
                0 <= i <= s.len(),
                out@ == tidied(s.take(i as int), now),
            decreases s.len() - i,
        {
            let keep = !(self.entries[i].timestamp < c);
            proof {
                assert(keep == !expired(s[i as int], now));
                reveal(Seq::filter);
                let t1 = s.take(i as int);
                let t2 = s.take(i + 1);
                assert(t2.drop_last() =~= t1);
                assert(t2.last() == s[i as int]);
            }
            if keep {
                out.push(clone_entry(&self.entries[i]));
            }
            i = i + 1;
        }
        proof {
            assert(s.take(s.len() as int) =~= s);
        }
        self.entries = out;
        proof {
            lemma_tidied_wf(s, now);
        }
    }

    /// Query all entries of the session, top of the stack first.  The sweep
    /// runs before the listing.
    #[verifier::loop_isolation(false)]
    pub fn get_stack_rows(&mut self, sessionid: &str, now: i64) -> (r: Result<
        Vec<StackRow>,
        QcdError,
    >)
        requires
            old(self).wf(),
        ensures
            final(self).entries@ == tidied(old(self).entries@, now),
            final(self).next_id == old(self).next_id,
            final(self).wf(),
            ({
                let sess = session_entries(tidied(old(self).entries@, now), sessionid@);
                r matches Ok(v) && v@.len() == sess.len() && (forall|k: int|
                    0 <= k < v@.len() ==> #[trigger] v@[k] == to_stack_row(
                        sess[sess.len() - 1 - k],
                    ))
            }),
    {
        self.tidyup_stack(now);
        let ghost t = self.entries@;
        let ghost sid = sessionid@;
        let mut out: Vec<StackRow> = Vec::new();
        let mut i: usize = self.entries.len();
        proof {
            reveal(Seq::filter);
            assert(t.skip(t.len() as int) =~= Seq::<StackEntry>::empty());
            assert(session_entries(t.skip(t.len() as int), sid) =~= Seq::<StackEntry>::empty());
        }
        while i > 0
            invariant
                self.entries@ == t,
                self.next_id == old(self).next_id,
                0 <= i <= t.len(),
                out@.len() == session_entries(t.skip(i as int), sid).len(),
                forall|k: int|
                    0 <= k < out@.len() ==> #[trigger] out@[k] == to_stack_row(
                        session_entries(t.skip(i as int), sid)[session_entries(
                            t.skip(i as int),
                            sid,
                        ).len() - 1 - k],
                    ),
            decreases i,
        {
            i = i - 1;
            let ghost prev = session_entries(t.skip(i + 1), sid);
            proof {
                lemma_session_cons(t.skip(i as int), sid);
                assert(t.skip(i as int)[0] == t[i as int]);
                assert(t.skip(i as int).skip(1) =~= t.skip(i + 1));
            }
            let matches_sid = str_eq(self.entries[i].sessionid.as_str(), sessionid);
            if matches_sid {
                let e = &self.entries[i];
                out.push(
                    StackRow {
                        id: Some(e.id),
                        sessionid: e.sessionid.clone(),
                        directory: e.directory.clone(),
                    },
                );
                proof {
                    let cur = session_entries(t.skip(i as int), sid);
                    assert(cur == seq![t[i as int]] + prev);
                    assert(cur.len() == prev.len() + 1);
                    assert(cur[0] == t[i as int]);
                    assert forall|k: int| 0 <= k < out@.len() implies #[trigger] out@[k]
                        == to_stack_row(cur[cur.len() - 1 - k]) by {
                        if k < out@.len() - 1 {
                            assert(cur[cur.len() - 1 - k] == prev[prev.len() - 1 - k]);
                        } else {
                            assert(cur[cur.len() - 1 - k] == cur[0]);
                            assert(out@[k] == to_stack_row(t[i as int]));
                        }
                    }
                }
            }
        }
        proof {
            assert(t.skip(0) =~= t);
        }
        Ok(out)
    }

    /// Add one entry to the stack, unconditionally, after the sweep.
    /// Returns the new entry's id.
    pub fn add_stack_dir(&mut self, entry: &StackRow, now: i64) -> (r: Result<u64, QcdError>)
        requires
            old(self).wf(),
            old(self).next_id < u64::MAX,
        ensures
            r == Ok::<u64, QcdError>(old(self).next_id),
            final(self).next_id == old(self).next_id + 1,
            final(self).wf(),
            final(self).entries@ == tidied(old(self).entries@, now).push(
                StackEntry {
                    id: old(self).next_id,
                    sessionid: entry.sessionid,
                    timestamp: now,
                    directory: entry.directory,
                },
            ),
    {
        self.tidyup_stack(now);
        let ghost t = self.entries@;
        let e = StackEntry {
            id: self.next_id,
            sessionid: entry.sessionid.clone(),
            timestamp: now,
            directory: entry.directory.clone(),
        };
        let id = self.next_id;
        self.entries.push(e);
        self.next_id = self.next_id + 1;
        proof {
            let ns = self.entries@;
            assert forall|i: int, j: int|
                0 <= i < j < ns.len() implies (#[trigger] ns[i].id) < (#[trigger] ns[j].id) by {
                if j < ns.len() - 1 {
                    assert(ns[i] == t[i]);
                    assert(ns[j] == t[j]);
                } else {
                    assert(ns[i] == t[i]);
                }
            }
            assert forall|i: int| 0 <= i < ns.len() implies (#[trigger] ns[i].id)
                < self.next_id by {
                if i < ns.len() - 1 {
                    assert(ns[i] == t[i]);
                }
            }
        }
        Ok(id)
    }

    /// Returns the top entry of the session's stack: the entry with the
    /// greatest id among its rows.  Read-only; the sweep does not run.
    #[verifier::loop_isolation(false)]
    pub fn stack_top(&self, sessionid: &str) -> (r: Result<StackRow, QcdError>)
        requires
            self.wf(),
        ensures
            has_session(self.entries@, sessionid@) ==> (r matches Ok(row) && row == to_stack_row(
                self.entries@[top_pos(self.entries@, sessionid@)],
            )),
            !has_session(self.entries@, sessionid@) ==> r == Err::<StackRow, QcdError>(
                QcdError::EmptyStack,
            ),
    {
        let ghost s = self.entries@;
        let ghost sid = sessionid@;
        let mut i: usize = self.entries.len();
        while i > 0
            invariant
                0 <= i <= s.len(),
                forall|j: int| i <= j < s.len() ==> (#[trigger] s[j].sessionid@) != sid,
            decreases i,
        {
            i = i - 1;
            if str_eq(self.entries[i].sessionid.as_str(), sessionid) {
                proof {
                    lemma_top_pos(s, sid);
                    let tp = top_pos(s, sid);
                    assert(has_session(s, sid));
                    if tp < i as int {
                        assert(s[i as int].sessionid@ != sid);
                        assert(false);
                    }
                    if tp > i as int {
                        assert(s[tp].sessionid@ != sid);
                        assert(false);
                    }
                }
                let e = &self.entries[i];
                return Ok(
                    StackRow {
                        id: Some(e.id),
                        sessionid: e.sessionid.clone(),
                        directory: e.directory.clone(),
                    },
                );
            }
        }
        proof {
            lemma_top_pos(s, sid);
        }
        Err(QcdError::EmptyStack)
    }

    /// Removes the entry with the given id; removing an absent id is not an
    /// error.
    #[verifier::loop_isolation(false)]
    pub fn rm_stack_dir(&mut self, id: u64) -> (r: Result<(), QcdError>)
        requires
            old(self).wf(),
        ensures
            r == Ok::<(), QcdError>(()),
            final(self).next_id == old(self).next_id,
            final(self).wf(),
            !has_entry_id(old(self).entries@, id) ==> final(self).entries@ == old(self).entries@,
            has_entry_id(old(self).entries@, id) ==> final(self).entries@ == old(
                self,
            ).entries@.remove(entry_id_pos(old(self).entries@, id)),
    {
        let ghost s = self.entries@;
        let mut i: usize = 0;
        while i < self.entries.len()
            invariant
                *self == *old(self),
                s == self.entries@,
                0 <= i <= s.len(),
                forall|j: int| 0 <= j < i ==> (#[trigger] s[j].id) != id,
            decreases s.len() - i,
        {
            if self.entries[i].id == id {
                proof {
                    lemma_entry_id_pos(s, id);
                    let ip = entry_id_pos(s, id);
                    assert(has_entry_id(s, id));
                    if ip < i as int {
                        assert(s[ip].id != id);
                        assert(false);
                    }
                    if ip > i as int {
                        assert(s[i as int].id != id);
                        assert(false);
                    }
                }
                self.entries.remove(i);
                proof {
                    let pi = i as int;
                    s.remove_ensures(pi);
                    let ns = self.entries@;
                    assert(ns == s.remove(pi));
                    assert forall|k: int, l: int|
                        0 <= k < l < ns.len() implies (#[trigger] ns[k].id) < (
                    #[trigger] ns[l].id) by {
                        if k < pi {
                            assert(ns[k] == s[k]);
                        } else {
                            assert(ns[k] == s[k + 1]);
                        }
                        if l < pi {
                            assert(ns[l] == s[l]);
                        } else {
                            assert(ns[l] == s[l + 1]);
                        }
                    }
                    assert forall|k: int| 0 <= k < ns.len() implies (#[trigger] ns[k].id)
                        < self.next_id by {
                        if k < pi {
                            assert(ns[k] == s[k]);
                        } else {
                            assert(ns[k] == s[k + 1]);
                        }
                    }
                }
                return Ok(());
            }
            i = i + 1;
        }
        proof {
            lemma_entry_id_pos(s, id);
        }
        Ok(())
    }

    /// Reads and removes the session's top entry after the sweep; the
    /// removed entry's row is returned, or EmptyStack when the session has
    /// no entries left.
    #[verifier::loop_isolation(false)]
    pub fn stack_pop(&mut self, sessionid: &str, now: i64) -> (r: Result<StackRow, QcdError>)
        requires
            old(self).wf(),
        ensures
            final(self).next_id == old(self).next_id,
            final(self).wf(),
            ({
                let t = tidied(old(self).entries@, now);
                &&& !has_session(t, sessionid@) ==> r == Err::<StackRow, QcdError>(
                    QcdError::EmptyStack,
                ) && final(self).entries@ == t
                &&& has_session(t, sessionid@) ==> (r matches Ok(row) && row == to_stack_row(
                    t[top_pos(t, sessionid@)],
                )) && final(self).entries@ == t.remove(top_pos(t, sessionid@))
            }),
    {
        self.tidyup_stack(now);
        let ghost t = self.entries@;
        let ghost sid = sessionid@;
        let mut i: usize = self.entries.len();
        while i > 0
            invariant
                self.entries@ == t,
                self.next_id == old(self).next_id,
                0 <= i <= t.len(),
                forall|j: int| i <= j < t.len() ==> (#[trigger] t[j].sessionid@) != sid,
            decreases i,
        {
            i = i - 1;
            if str_eq(self.entries[i].sessionid.as_str(), sessionid) {
                proof {
                    lemma_top_pos(t, sid);
                    let tp = top_pos(t, sid);
                    assert(has_session(t, sid));
                    if tp < i as int {
                        assert(t[i as int].sessionid@ != sid);
                        assert(false);
                    }
                    if tp > i as int {
                        assert(t[tp].sessionid@ != sid);
                        assert(false);
                    }
                }
                let e = clone_entry(&self.entries[i]);
                self.entries.remove(i);
                proof {
                    let pi = i as int;
                    t.remove_ensures(pi);
                    let ns = self.entries@;
                    assert forall|k: int, l: int|
                        0 <= k < l < ns.len() implies (#[trigger] ns[k].id) < (
                    #[trigger] ns[l].id) by {
                        if k < pi {
                            assert(ns[k] == t[k]);
                        } else {
                            assert(ns[k] == t[k + 1]);
                        }
                        if l < pi {
                            assert(ns[l] == t[l]);
                        } else {
                            assert(ns[l] == t[l + 1]);
                        }
                    }
                    assert forall|k: int| 0 <= k < ns.len() implies (#[trigger] ns[k].id)
                        < self.next_id by {
                        if k < pi {
                            assert(ns[k] == t[k]);
                        } else {
                            assert(ns[k] == t[k + 1]);
                        }
                    }
                }
                return Ok(
                    StackRow { id: Some(e.id), sessionid: e.sessionid, directory: e.directory },
                );
            }
        }
        proof {
            lemma_top_pos(t, sid);
        }
        Err(QcdError::EmptyStack)
    }

    /// Add a directory on top of the session's stack, after the sweep,
    /// unless it equals the current top (silent duplicate suppression;
    /// the same directory may still appear non-consecutively).
    #[verifier::loop_isolation(false)]
    pub fn stack_push(&mut self, sessionid: &str, directory: &str, now: i64) -> (r: Result<
        (),
        QcdError,
    >)
        requires
            old(self).wf(),
            old(self).next_id < u64::MAX,
        ensures
            r == Ok::<(), QcdError>(()),
            final(self).wf(),
            push_post(
                old(self).entries@,
                final(self).entries@,
                old(self).next_id,
                sessionid@,
                directory@,
                now,
            ),
            final(self).next_id == (
            if push_suppressed(old(self).entries@, sessionid@, directory@, now) {
                old(self).next_id
            } else {
                (old(self).next_id + 1) as u64
            }),
    {
        self.tidyup_stack(now);
        let ghost t = self.entries@;
        let ghost sid = sessionid@;
        let top = self.stack_top(sessionid);
        proof {
            lemma_top_pos(t, sid);
        }
        match top {
            Ok(row) => {
                if str_eq(row.directory.as_str(), directory) {
                    return Ok(());
                }
            },
            Err(_) => {},
        }
        let e = StackEntry {
            id: self.next_id,
            sessionid: sessionid.to_owned(),
            timestamp: now,
            directory: directory.to_owned(),
        };
        self.entries.push(e);
        self.next_id = self.next_id + 1;
        proof {
            let ns = self.entries@;
            assert(ns.take(t.len() as int) =~= t);
            assert forall|i: int, j: int|
                0 <= i < j < ns.len() implies (#[trigger] ns[i].id) < (#[trigger] ns[j].id) by {
                if j < ns.len() - 1 {
                    assert(ns[i] == t[i]);
                    assert(ns[j] == t[j]);
                } else {
                    assert(ns[i] == t[i]);
                }
            }
            assert forall|i: int| 0 <= i < ns.len() implies (#[trigger] ns[i].id)
                < self.next_id by {
                if i < ns.len() - 1 {
                    assert(ns[i] == t[i]);
                }
            }
        }
        Ok(())
    }

    /// Remove the session's top entry, discarding its directory.
    pub fn stack_drop(&mut self, sessionid: &str, now: i64) -> (r: Result<(), QcdError>)
        requires
            old(self).wf(),
        ensures
            final(self).next_id == old(self).next_id,
            final(self).wf(),
            ({
                let t = tidied(old(self).entries@, now);
                &&& !has_session(t, sessionid@) ==> r == Err::<(), QcdError>(QcdError::EmptyStack)
                    && final(self).entries@ == t
                &&& has_session(t, sessionid@) ==> r == Ok::<(), QcdError>(()) && final(self).entries@ == t.remove(top_pos(t, sessionid@))
            }),
    {
        match self.stack_pop(sessionid, now) {
            Ok(_) => Ok(()),
            Err(e) => Err(e),
        }
    }

    /// Exchange the session's top for the caller's directory: pop the top
    /// (EmptyStack if there is none), push the directory subject to the
    /// duplicate rule against the uncovered top, and return what was popped.
    pub fn stack_swap(&mut self, sessionid: &str, directory: &str, now: i64) -> (r: Result<
        StackRow,
        QcdError,
    >)
        requires
            old(self).wf(),
            old(self).next_id < u64::MAX,
        ensures
            final(self).wf(),
            ({
                let t = tidied(old(self).entries@, now);
                &&& !has_session(t, sessionid@) ==> r == Err::<StackRow, QcdError>(
                    QcdError::EmptyStack,
                ) && final(self).entries@ == t && final(self).next_id == old(self).next_id
                &&& has_session(t, sessionid@) ==> {
                    let rest = t.remove(top_pos(t, sessionid@));
                    &&& (r matches Ok(row) && row == to_stack_row(t[top_pos(t, sessionid@)]))
                    &&& push_post(
                        rest,
                        final(self).entries@,
                        old(self).next_id,
                        sessionid@,
                        directory@,
                        now,
                    )
                    &&& final(self).next_id == (
                    if push_suppressed(rest, sessionid@, directory@, now) {
                        old(self).next_id
                    } else {
                        (old(self).next_id + 1) as u64
                    })
                }
            }),
    {
        let popped = match self.stack_pop(sessionid, now) {
            Ok(row) => row,
            Err(e) => return Err(e),
        };
        let r = self.stack_push(sessionid, directory, now);
        match r {
            Ok(_) => Ok(popped),
            Err(e) => Err(e),
        }
    }
}

} // verus!
