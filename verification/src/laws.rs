use vstd::prelude::*;
use crate::stack::{
    cutoff, expired, has_session, lemma_session_none, lemma_session_split, lemma_tidied_identity,
    lemma_tidied_wf, lemma_top_pos, push_post, push_suppressed, session_entries, tidied, top_pos,
    StackEntry,
};
use crate::store::{
    has_idx, idx_insert_pos, lemma_idx_insert_pos, max_idx_spec, sorted_by_idx, StdRow,
};

verus! {

/// After a row with ordinal `r.idx` is inserted at its place in a sorted
/// table — as a successful insert does — the table contains that ordinal and
/// the table's maximum ordinal is at least `r.idx`.
pub proof fn lemma_insert_establishes_idx(s: Seq<StdRow>, r: StdRow)
    requires
        sorted_by_idx(s),
    ensures
        has_idx(s.insert(idx_insert_pos(s, r.idx), r), r.idx),
        max_idx_spec(s.insert(idx_insert_pos(s, r.idx), r)) >= r.idx,
{
    lemma_idx_insert_pos(s, r.idx);
    let p = idx_insert_pos(s, r.idx);
    s.insert_ensures(p, r);
    let ns = s.insert(p, r);
    assert(ns[p] == r);
    assert(has_idx(ns, r.idx));
    if p == s.len() {
        assert(ns.last() == r);
    } else {
        assert(ns[(s.len() - 1) + 1] == s[s.len() - 1]);
        assert(s[s.len() - 1].idx >= r.idx);
    }
}

/// Every entry of a stack that a push just produced is within the
/// retention window at the time of that push.
proof fn lemma_push_leaves_unexpired(
    s0: Seq<StackEntry>,
    s1: Seq<StackEntry>,
    id: u64,
    sid: Seq<char>,
    dir: Seq<char>,
    now: i64,
)
    requires
        push_post(s0, s1, id, sid, dir, now),
    ensures
        forall|i: int| 0 <= i < s1.len() ==> !expired(#[trigger] s1[i], now),
        tidied(s1, now) == s1,
{
    lemma_tidied_wf(s0, now);
    let t = tidied(s0, now);
    assert forall|i: int| 0 <= i < s1.len() implies !expired(#[trigger] s1[i], now) by {
        if push_suppressed(s0, sid, dir, now) {
            assert(s1[i] == t[i]);
        } else {
            if i < t.len() {
                assert(s1.take(t.len() as int)[i] == s1[i]);
                assert(s1[i] == t[i]);
            } else {
                assert(s1[i] == s1.last());
                assert(s1.last().timestamp == now);
                assert(cutoff(now) <= now);
            }
        }
    }
    lemma_tidied_identity(s1, now);
}

/// Pushing the same directory for the same session twice in a row yields
/// exactly one new entry: whatever the first push did, the second finds
/// that directory on top of the session's stack and changes nothing.
pub proof fn lemma_push_twice_suppressed(
    s0: Seq<StackEntry>,
    s1: Seq<StackEntry>,
    s2: Seq<StackEntry>,
    id1: u64,
    id2: u64,
    sid: Seq<char>,
    dir: Seq<char>,
    now: i64,
)
    requires
        push_post(s0, s1, id1, sid, dir, now),
        push_post(s1, s2, id2, sid, dir, now),
    ensures
        s2 == s1,
{
    let t = tidied(s0, now);
    lemma_push_leaves_unexpired(s0, s1, id1, sid, dir, now);
    if push_suppressed(s0, sid, dir, now) {
        assert(s1 == t);
        assert(push_suppressed(s1, sid, dir, now));
    } else {
        assert(s1[s1.len() - 1].sessionid@ == sid);
        assert(has_session(s1, sid));
        assert(top_pos(s1, sid) == s1.len() - 1);
        assert(s1[top_pos(s1, sid)].directory@ == dir);
        assert(push_suppressed(s1, sid, dir, now));
    }
    assert(s2 == tidied(s1, now));
}

/// What a pop finds right after a push that was not suppressed: the pushed
/// directory sits on top of the session's stack, and removing it restores
/// the stack exactly as the push's sweep left it.  Together with the pop
/// contract, entries therefore come back in strict reverse order of their
/// pushes.
pub proof fn lemma_push_then_pop(
    s0: Seq<StackEntry>,
    s1: Seq<StackEntry>,
    id: u64,
    sid: Seq<char>,
    dir: Seq<char>,
    now: i64,
)
    requires
        push_post(s0, s1, id, sid, dir, now),
        !push_suppressed(s0, sid, dir, now),
    ensures
        tidied(s1, now) == s1,
        has_session(s1, sid),
        top_pos(s1, sid) == s1.len() - 1,
        s1[top_pos(s1, sid)].directory@ == dir,
        s1.remove(top_pos(s1, sid)) == tidied(s0, now),
{
    let t = tidied(s0, now);
    lemma_push_leaves_unexpired(s0, s1, id, sid, dir, now);
    assert(s1[s1.len() - 1].sessionid@ == sid);
    assert(has_session(s1, sid));
    assert(top_pos(s1, sid) == s1.len() - 1);
    assert(s1.remove(s1.len() - 1) =~= s1.take(s1.len() - 1));
    assert(s1.take(t.len() as int) == t);
}

/// The stack's LIFO discipline at the session level: the top position of a
/// session holds the last of the session's entries, and removing it — as a
/// pop does after its sweep — drops exactly that entry from the session and
/// touches no other session.
pub proof fn lemma_pop_removes_session_top(s: Seq<StackEntry>, sid: Seq<char>)
    requires
        has_session(s, sid),
    ensures
        session_entries(s, sid).len() >= 1,
        s[top_pos(s, sid)] == session_entries(s, sid).last(),
        session_entries(s.remove(top_pos(s, sid)), sid) == session_entries(s, sid).drop_last(),
        forall|osid: Seq<char>|
            osid != sid ==> #[trigger] session_entries(s.remove(top_pos(s, sid)), osid)
                == session_entries(s, osid),
{
    lemma_top_pos(s, sid);
    let tp = top_pos(s, sid);
    let a = s.take(tp);
    let tail = s.skip(tp + 1);
    assert(s =~= a + (seq![s[tp]] + tail));
    assert((seq![s[tp]] + tail).drop_last() =~= if tail.len() == 0 {
        Seq::<StackEntry>::empty()
    } else {
        seq![s[tp]] + tail.drop_last()
    });
    lemma_session_split(a, seq![s[tp]] + tail, sid);
    lemma_session_split(seq![s[tp]], tail, sid);
    assert forall|j: int| 0 <= j < tail.len() implies (#[trigger] tail[j].sessionid@) != sid by {
        assert(tail[j] == s[tp + 1 + j]);
    }
    lemma_session_none(tail, sid);
    assert(session_entries(seq![s[tp]], sid) =~= seq![s[tp]]) by {
        reveal(Seq::filter);
        assert(seq![s[tp]].drop_last() =~= Seq::<StackEntry>::empty());
        assert(session_entries(Seq::<StackEntry>::empty(), sid) =~= Seq::<StackEntry>::empty());
    }
    let sess = session_entries(s, sid);
    assert(sess == session_entries(a, sid) + (seq![s[tp]] + Seq::<StackEntry>::empty()));
    assert(sess =~= session_entries(a, sid).push(s[tp]));
    assert(sess.last() == s[tp]);
    assert(sess.drop_last() =~= session_entries(a, sid));
    assert(s.remove(tp) =~= a + tail);
    lemma_session_split(a, tail, sid);
    assert(session_entries(s.remove(tp), sid) =~= session_entries(a, sid));
    assert forall|osid: Seq<char>|
        osid != sid implies #[trigger] session_entries(s.remove(tp), osid) == session_entries(
        s,
        osid,
    ) by {
        lemma_session_split(a, tail, osid);
        lemma_session_split(a, seq![s[tp]] + tail, osid);
        lemma_session_split(seq![s[tp]], tail, osid);
        assert(session_entries(seq![s[tp]], osid) =~= Seq::<StackEntry>::empty()) by {
            reveal(Seq::filter);
            assert(seq![s[tp]].drop_last() =~= Seq::<StackEntry>::empty());
            assert(s[tp].sessionid@ == sid);
        }
        assert(session_entries(s, osid) =~= session_entries(a, osid) + session_entries(
            tail,
            osid,
        ));
        assert(session_entries(s.remove(tp), osid) =~= session_entries(a, osid)
            + session_entries(tail, osid));
    }
}

/// With ids growing strictly along the stack — the table invariant — the
/// session's top entry carries the greatest surrogate id of its session, so
/// position order and id order agree.
pub proof fn lemma_top_is_max_id(s: Seq<StackEntry>, sid: Seq<char>)
    requires
        forall|i: int, j: int| 0 <= i < j < s.len() ==> (#[trigger] s[i].id) < (#[trigger] s[j].id),
        has_session(s, sid),
    ensures
        forall|j: int|
            0 <= j < s.len() && (#[trigger] s[j].sessionid@) == sid ==> s[j].id <= s[top_pos(
                s,
                sid,
            )].id,
{
    lemma_top_pos(s, sid);
    let tp = top_pos(s, sid);
    assert forall|j: int|
        0 <= j < s.len() && (#[trigger] s[j].sessionid@) == sid implies s[j].id <= s[tp].id by {
        if j > tp {
            assert(s[j].sessionid@ != sid);
        } else if j < tp {
            assert(s[j].id < s[tp].id);
        }
    }
}

/// The expiry sweep — run by every push and pop — removes exactly the
/// entries older than the retention window: nothing expired survives it,
/// every unexpired entry survives it, and when nothing had expired the
/// stack is untouched.
pub proof fn lemma_sweep_window(s: Seq<StackEntry>, now: i64)
    ensures
        forall|i: int| 0 <= i < tidied(s, now).len() ==> !expired(#[trigger] tidied(s, now)[i], now),
        forall|i: int|
            0 <= i < s.len() && !expired(#[trigger] s[i], now) ==> tidied(s, now).contains(s[i]),
        (forall|i: int| 0 <= i < s.len() ==> !expired(#[trigger] s[i], now)) ==> tidied(s, now)
            == s,
    decreases s.len(),
{
    reveal(Seq::filter);
    lemma_tidied_wf(s, now);
    if s.len() > 0 {
        let d = s.drop_last();
        lemma_sweep_window(d, now);
        let td = tidied(d, now);
        let ts = tidied(s, now);
        assert forall|i: int|
            0 <= i < s.len() && !expired(#[trigger] s[i], now) implies ts.contains(s[i]) by {
            if i == s.len() - 1 {
                assert(ts == td.push(s.last()));
                assert(ts[ts.len() - 1] == s[i]);
            } else {
                assert(d[i] == s[i]);
                assert(td.contains(d[i]));
                let k = choose|k: int| 0 <= k < td.len() && td[k] == d[i];
                if !expired(s.last(), now) {
                    assert(ts == td.push(s.last()));
                    assert(ts[k] == s[i]);
                } else {
                    assert(ts == td);
                }
            }
        }
        if forall|i: int| 0 <= i < s.len() ==> !expired(#[trigger] s[i], now) {
            lemma_tidied_identity(s, now);
        }
    }
}

} // verus!
