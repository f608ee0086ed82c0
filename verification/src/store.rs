use vstd::prelude::*;
use crate::error::QcdError;
use crate::resolver::IdxAlias;
use crate::text::{str_eq, str_is_prefix};

verus! {

/// One bookmark: a directory remembered under a unique ordinal `idx` and an
/// optional alias (empty means "no alias"; non-empty aliases are unique).
/// `id` is the surrogate identity the store assigns on insertion; rows handed
/// in for insertion may leave it `None`.
#[derive(Debug, PartialEq)]
pub struct StdRow {
    pub id: Option<u64>,
    pub idx: u32,
    pub directory: String,
    pub alias: String,
}

/// The bookmark table: rows kept strictly sorted by `idx`, surrogate ids
/// assigned from a monotone counter.
pub struct StdTable {
    pub rows: Vec<StdRow>,
    pub next_id: u64,
}

// ---------------------------------------------------------------------------
// Spec-level description of a table's contents.
// ---------------------------------------------------------------------------

/// Rows are in strictly ascending `idx` order (hence all `idx` distinct).
pub open spec fn sorted_by_idx(s: Seq<StdRow>) -> bool {
    forall|i: int, j: int| 0 <= i < j < s.len() ==> (#[trigger] s[i].idx) < (#[trigger] s[j].idx)
}

/// Some row carries this `idx`.
pub open spec fn has_idx(s: Seq<StdRow>, idx: u32) -> bool {
    exists|i: int| 0 <= i < s.len() && (#[trigger] s[i].idx) == idx
}

/// Some row carries exactly this alias.
pub open spec fn has_alias(s: Seq<StdRow>, a: Seq<char>) -> bool {
    exists|i: int| 0 <= i < s.len() && (#[trigger] s[i].alias@) == a
}

/// Some row carries this surrogate id.
pub open spec fn has_id(s: Seq<StdRow>, id: u64) -> bool {
    exists|i: int| 0 <= i < s.len() && (#[trigger] s[i].id) == Some(id)
}

/// Some row carries exactly this directory.
pub open spec fn has_dir(s: Seq<StdRow>, d: Seq<char>) -> bool {
    exists|i: int| 0 <= i < s.len() && (#[trigger] s[i].directory@) == d
}

/// The greatest `idx` of a sorted table, or zero when it is empty.
pub open spec fn max_idx_spec(s: Seq<StdRow>) -> u32 {
    if s.len() == 0 {
        0
    } else {
        s.last().idx
    }
}

/// The first position whose row carries `idx`, or the length when none does.
pub open spec fn idx_pos(s: Seq<StdRow>, idx: u32) -> int
    decreases s.len(),
{
    if s.len() == 0 {
        0
    } else if s[0].idx == idx {
        0
    } else {
        1 + idx_pos(s.skip(1), idx)
    }
}

/// The first position whose row carries surrogate id `id`.
pub open spec fn id_pos(s: Seq<StdRow>, id: u64) -> int
    decreases s.len(),
{
    if s.len() == 0 {
        0
    } else if s[0].id == Some(id) {
        0
    } else {
        1 + id_pos(s.skip(1), id)
    }
}

/// The first position whose row carries exactly directory `d`.
pub open spec fn dir_pos(s: Seq<StdRow>, d: Seq<char>) -> int
    decreases s.len(),
{
    if s.len() == 0 {
        0
    } else if s[0].directory@ == d {
        0
    } else {
        1 + dir_pos(s.skip(1), d)
    }
}

/// The first position whose row carries exactly alias `a`.
pub open spec fn alias_pos(s: Seq<StdRow>, a: Seq<char>) -> int
    decreases s.len(),
{
    if s.len() == 0 {
        0
    } else if s[0].alias@ == a {
        0
    } else {
        1 + alias_pos(s.skip(1), a)
    }
}

/// Where a row with `idx` belongs in ascending order: the length of the
/// leading run of rows with a smaller `idx`.
pub open spec fn idx_insert_pos(s: Seq<StdRow>, idx: u32) -> int
    decreases s.len(),
{
    if s.len() == 0 {
        0
    } else if s[0].idx < idx {
        1 + idx_insert_pos(s.skip(1), idx)
    } else {
        0
    }
}

/// The row the store creates for an insertion request: the caller's fields
/// under a fresh surrogate id.
pub open spec fn stored_row(id: u64, entry: StdRow) -> StdRow {
    StdRow { id: Some(id), idx: entry.idx, directory: entry.directory, alias: entry.alias }
}

/// Both the rows and the id counter are unchanged.
pub open spec fn same_table(a: StdTable, b: StdTable) -> bool {
    a.rows@ == b.rows@ && a.next_id == b.next_id
}

/// The rows whose alias extends the prefix `a`, in table order.
pub open spec fn prefix_matches(s: Seq<StdRow>, a: Seq<char>) -> Seq<StdRow> {
    s.filter(|r: StdRow| a.is_prefix_of(r.alias@))
}

/// What fuzzy alias resolution returns for token `a` over rows `s`:
/// a row whose alias equals the token wins outright, even when other
/// aliases extend the token; otherwise a single prefix match is returned;
/// otherwise the token is unknown (`NotFound`) or ambiguous (`Ambiguous`).
pub open spec fn fuzzy_post(s: Seq<StdRow>, a: Seq<char>, r: Result<StdRow, QcdError>) -> bool {
    let m = prefix_matches(s, a);
    &&& has_alias(s, a) ==> (r matches Ok(row) && row == s[alias_pos(s, a)])
    &&& !has_alias(s, a) && m.len() == 1 ==> (r matches Ok(row) && row == m[0])
    &&& !has_alias(s, a) && m.len() == 0 ==> r == Err::<StdRow, QcdError>(QcdError::NotFound)
    &&& !has_alias(s, a) && m.len() >= 2 ==> r == Err::<StdRow, QcdError>(QcdError::Ambiguous)
}

// ---------------------------------------------------------------------------
// Facts about the position functions.
// ---------------------------------------------------------------------------

/// `idx_pos` is the first match and a witness for `has_idx`.
pub proof fn lemma_idx_pos(s: Seq<StdRow>, idx: u32)
    ensures
        0 <= idx_pos(s, idx) <= s.len(),
        has_idx(s, idx) <==> idx_pos(s, idx) < s.len(),
        idx_pos(s, idx) < s.len() ==> s[idx_pos(s, idx)].idx == idx,
        forall|j: int| 0 <= j < idx_pos(s, idx) ==> (#[trigger] s[j].idx) != idx,
    decreases s.len(),
{
    if s.len() > 0 && s[0].idx != idx {
        let t = s.skip(1);
        lemma_idx_pos(t, idx);
        let p = idx_pos(s, idx);
        if idx_pos(t, idx) < t.len() {
            assert(t[idx_pos(t, idx)] == s[p]);
            assert(s[p].idx == idx);
        } else if has_idx(s, idx) {
            let w = choose|i: int| 0 <= i < s.len() && (#[trigger] s[i].idx) == idx;
            assert(t[w - 1] == s[w]);
            assert(t[w - 1].idx == idx);
            assert(has_idx(t, idx));
        }
        assert forall|j: int| 0 <= j < p implies (#[trigger] s[j].idx) != idx by {
            if j > 0 {
                assert(t[j - 1] == s[j]);
                assert(t[j - 1].idx != idx);
            }
        }
    }
}

/// `id_pos` is the first match and a witness for `has_id`.
pub proof fn lemma_id_pos(s: Seq<StdRow>, id: u64)
    ensures
        0 <= id_pos(s, id) <= s.len(),
        has_id(s, id) <==> id_pos(s, id) < s.len(),
        id_pos(s, id) < s.len() ==> s[id_pos(s, id)].id == Some(id),
        forall|j: int| 0 <= j < id_pos(s, id) ==> (#[trigger] s[j].id) != Some(id),
    decreases s.len(),
{
    if s.len() > 0 && s[0].id != Some(id) {
        let t = s.skip(1);
        lemma_id_pos(t, id);
        let p = id_pos(s, id);
        if id_pos(t, id) < t.len() {
            assert(t[id_pos(t, id)] == s[p]);
            assert(s[p].id == Some(id));
        } else if has_id(s, id) {
            let w = choose|i: int| 0 <= i < s.len() && (#[trigger] s[i].id) == Some(id);
            assert(t[w - 1] == s[w]);
            assert(t[w - 1].id == Some(id));
            assert(has_id(t, id));
        }
        assert forall|j: int| 0 <= j < p implies (#[trigger] s[j].id) != Some(id) by {
            if j > 0 {
                assert(t[j - 1] == s[j]);
                assert(t[j - 1].id != Some(id));
            }
        }
    }
}

/// `dir_pos` is the first match and a witness for `has_dir`.
pub proof fn lemma_dir_pos(s: Seq<StdRow>, d: Seq<char>)
    ensures
        0 <= dir_pos(s, d) <= s.len(),
        has_dir(s, d) <==> dir_pos(s, d) < s.len(),
        dir_pos(s, d) < s.len() ==> s[dir_pos(s, d)].directory@ == d,
        forall|j: int| 0 <= j < dir_pos(s, d) ==> (#[trigger] s[j].directory@) != d,
    decreases s.len(),
{
    if s.len() > 0 && s[0].directory@ != d {
        let t = s.skip(1);
        lemma_dir_pos(t, d);
        let p = dir_pos(s, d);
        if dir_pos(t, d) < t.len() {
            assert(t[dir_pos(t, d)] == s[p]);
            assert(s[p].directory@ == d);
        } else if has_dir(s, d) {
            let w = choose|i: int| 0 <= i < s.len() && (#[trigger] s[i].directory@) == d;
            assert(t[w - 1] == s[w]);
            assert(t[w - 1].directory@ == d);
            assert(has_dir(t, d));
        }
        assert forall|j: int| 0 <= j < p implies (#[trigger] s[j].directory@) != d by {
            if j > 0 {
                assert(t[j - 1] == s[j]);
                assert(t[j - 1].directory@ != d);
            }
        }
    }
}

/// `alias_pos` is the first match and a witness for `has_alias`.
pub proof fn lemma_alias_pos(s: Seq<StdRow>, a: Seq<char>)
    ensures
        0 <= alias_pos(s, a) <= s.len(),
        has_alias(s, a) <==> alias_pos(s, a) < s.len(),
        alias_pos(s, a) < s.len() ==> s[alias_pos(s, a)].alias@ == a,
        forall|j: int| 0 <= j < alias_pos(s, a) ==> (#[trigger] s[j].alias@) != a,
    decreases s.len(),
{
    if s.len() > 0 && s[0].alias@ != a {
        let t = s.skip(1);
        lemma_alias_pos(t, a);
        let p = alias_pos(s, a);
        if alias_pos(t, a) < t.len() {
            assert(t[alias_pos(t, a)] == s[p]);
            assert(s[p].alias@ == a);
        } else if has_alias(s, a) {
            let w = choose|i: int| 0 <= i < s.len() && (#[trigger] s[i].alias@) == a;
            assert(t[w - 1] == s[w]);
            assert(t[w - 1].alias@ == a);
            assert(has_alias(t, a));
        }
        assert forall|j: int| 0 <= j < p implies (#[trigger] s[j].alias@) != a by {
            if j > 0 {
                assert(t[j - 1] == s[j]);
                assert(t[j - 1].alias@ != a);
            }
        }
    }
}

/// In a sorted table, `idx_insert_pos` splits the rows into a strictly
/// smaller prefix and a no-smaller suffix.
pub proof fn lemma_idx_insert_pos(s: Seq<StdRow>, idx: u32)
    requires
        sorted_by_idx(s),
    ensures
        0 <= idx_insert_pos(s, idx) <= s.len(),
        forall|j: int| 0 <= j < idx_insert_pos(s, idx) ==> (#[trigger] s[j].idx) < idx,
        forall|j: int| idx_insert_pos(s, idx) <= j < s.len() ==> (#[trigger] s[j].idx) >= idx,
    decreases s.len(),
{
    if s.len() > 0 {
        let t = s.skip(1);
        assert forall|i: int, j: int|
            0 <= i < j < t.len() implies (#[trigger] t[i].idx) < (#[trigger] t[j].idx) by {
            assert(t[i] == s[i + 1]);
            assert(t[j] == s[j + 1]);
        }
        let p = idx_insert_pos(s, idx);
        if s[0].idx < idx {
            lemma_idx_insert_pos(t, idx);
            assert forall|j: int| 0 <= j < p implies (#[trigger] s[j].idx) < idx by {
                if j > 0 {
                    assert(t[j - 1] == s[j]);
                    assert(t[j - 1].idx < idx);
                }
            }
            assert forall|j: int| p <= j < s.len() implies (#[trigger] s[j].idx) >= idx by {
                assert(t[j - 1] == s[j]);
                assert(t[j - 1].idx >= idx);
            }
        } else {
            assert forall|j: int| p <= j < s.len() implies (#[trigger] s[j].idx) >= idx by {
                if j > 0 {
                    assert(s[0].idx < s[j].idx);
                }
            }
        }
    }
}

/// Element-wise view of `insert`: unchanged prefix, the new row at `p`,
/// the old suffix shifted right.
proof fn lemma_insert_elems(s: Seq<StdRow>, p: int, r: StdRow)
    requires
        0 <= p <= s.len(),
    ensures
        s.insert(p, r).len() == s.len() + 1,
        forall|i: int| 0 <= i < p ==> #[trigger] s.insert(p, r)[i] == s[i],
        s.insert(p, r)[p] == r,
        forall|i: int| p < i < s.len() + 1 ==> #[trigger] s.insert(p, r)[i] == s[i - 1],
{
    s.insert_ensures(p, r);
    assert forall|i: int| p < i < s.len() + 1 implies #[trigger] s.insert(p, r)[i] == s[i - 1] by {
        assert(s.insert(p, r)[(i - 1) + 1] == s[i - 1]);
    }
}

/// Element-wise view of `remove`: unchanged prefix, the old suffix shifted
/// left.
proof fn lemma_remove_elems(s: Seq<StdRow>, p: int)
    requires
        0 <= p < s.len(),
    ensures
        s.remove(p).len() == s.len() - 1,
        forall|i: int| 0 <= i < p ==> #[trigger] s.remove(p)[i] == s[i],
        forall|i: int| p <= i < s.len() - 1 ==> #[trigger] s.remove(p)[i] == s[i + 1],
{
    s.remove_ensures(p);
}

/// Inserting between the smaller prefix and the larger suffix keeps the
/// rows sorted.
proof fn lemma_sorted_insert(s: Seq<StdRow>, p: int, r: StdRow)
    requires
        sorted_by_idx(s),
        0 <= p <= s.len(),
        forall|j: int| 0 <= j < p ==> (#[trigger] s[j].idx) < r.idx,
        forall|j: int| p <= j < s.len() ==> (#[trigger] s[j].idx) > r.idx,
    ensures
        sorted_by_idx(s.insert(p, r)),
{
    lemma_insert_elems(s, p, r);
    let ns = s.insert(p, r);
    assert forall|i: int, j: int|
        0 <= i < j < ns.len() implies (#[trigger] ns[i].idx) < (#[trigger] ns[j].idx) by {
        if i < p {
            assert(ns[i] == s[i]);
        } else if i == p {
            assert(ns[i] == r);
        } else {
            assert(ns[i] == s[i - 1]);
        }
        if j < p {
            assert(ns[j] == s[j]);
        } else if j == p {
            assert(ns[j] == r);
        } else {
            assert(ns[j] == s[j - 1]);
        }
    }
}

/// Removing a row keeps the remainder sorted.
proof fn lemma_sorted_remove(s: Seq<StdRow>, p: int)
    requires
        sorted_by_idx(s),
        0 <= p < s.len(),
    ensures
        sorted_by_idx(s.remove(p)),
{
    lemma_remove_elems(s, p);
    let ns = s.remove(p);
    assert forall|i: int, j: int|
        0 <= i < j < ns.len() implies (#[trigger] ns[i].idx) < (#[trigger] ns[j].idx) by {
        if i < p {
            assert(ns[i] == s[i]);
        } else {
            assert(ns[i] == s[i + 1]);
        }
        if j < p {
            assert(ns[j] == s[j]);
        } else {
            assert(ns[j] == s[j + 1]);
        }
    }
}

/// `r`, reindexed under `n`.
pub open spec fn row_with_idx(r: StdRow, n: u32) -> StdRow {
    StdRow { id: r.id, idx: n, directory: r.directory, alias: r.alias }
}

/// `r`, with its alias replaced by `a`.
pub open spec fn row_with_alias(r: StdRow, a: String) -> StdRow {
    StdRow { id: r.id, idx: r.idx, directory: r.directory, alias: a }
}

/// The effective idx of an insertion request: the caller's, or one past the
/// table's maximum.
pub open spec fn effective_idx(s: Seq<StdRow>, idx: Option<u32>) -> u32 {
    match idx {
        Some(i) => i,
        None => (max_idx_spec(s) + 1) as u32,
    }
}

/// Inserting a fresh, unique row between the smaller and the larger `idx`
/// run preserves every conjunct of the table invariant.
proof fn lemma_wf_parts_insert(s: Seq<StdRow>, bound: u64, p: int, r: StdRow)
    requires
        sorted_by_idx(s),
        forall|i: int| 0 <= i < s.len() ==> ((#[trigger] s[i].id) matches Some(v) && v < bound),
        forall|i: int, j: int|
            0 <= i < j < s.len() ==> (#[trigger] s[i].id) != (#[trigger] s[j].id),
        forall|i: int, j: int|
            0 <= i < j < s.len() && s[i].alias@.len() > 0 ==> (#[trigger] s[i].alias@) != (
            #[trigger] s[j].alias@),
        0 <= p <= s.len(),
        forall|j: int| 0 <= j < p ==> (#[trigger] s[j].idx) < r.idx,
        forall|j: int| p <= j < s.len() ==> (#[trigger] s[j].idx) > r.idx,
        r.id matches Some(v) && v < bound,
        forall|j: int| 0 <= j < s.len() ==> (#[trigger] s[j].id) != r.id,
        r.alias@.len() > 0 ==> !has_alias(s, r.alias@),
    ensures
        sorted_by_idx(s.insert(p, r)),
        forall|i: int|
            0 <= i < s.insert(p, r).len() ==> ((#[trigger] s.insert(p, r)[i].id) matches Some(v)
                && v < bound),
        forall|i: int, j: int|
            0 <= i < j < s.insert(p, r).len() ==> (#[trigger] s.insert(p, r)[i].id) != (
            #[trigger] s.insert(p, r)[j].id),
        forall|i: int, j: int|
            0 <= i < j < s.insert(p, r).len() && s.insert(p, r)[i].alias@.len() > 0 ==> (
            #[trigger] s.insert(p, r)[i].alias@) != (#[trigger] s.insert(p, r)[j].alias@),
{
    lemma_insert_elems(s, p, r);
    lemma_sorted_insert(s, p, r);
    let ns = s.insert(p, r);
    assert forall|i: int|
        0 <= i < ns.len() implies ((#[trigger] ns[i].id) matches Some(v) && v < bound) by {
        if i < p {
            assert(ns[i] == s[i]);
        } else if i == p {
            assert(ns[i] == r);
        } else {
            assert(ns[i] == s[i - 1]);
        }
    }
    assert forall|i: int, j: int|
        0 <= i < j < ns.len() implies (#[trigger] ns[i].id) != (#[trigger] ns[j].id) by {
        if i < p {
            assert(ns[i] == s[i]);
        } else if i == p {
            assert(ns[i] == r);
        } else {
            assert(ns[i] == s[i - 1]);
        }
        if j < p {
            assert(ns[j] == s[j]);
        } else if j == p {
            assert(ns[j] == r);
        } else {
            assert(ns[j] == s[j - 1]);
        }
    }
    assert forall|i: int, j: int|
        0 <= i < j < ns.len() && ns[i].alias@.len() > 0 implies (#[trigger] ns[i].alias@) != (
    #[trigger] ns[j].alias@) by {
        if i < p {
            assert(ns[i] == s[i]);
        } else if i == p {
            assert(ns[i] == r);
        } else {
            assert(ns[i] == s[i - 1]);
        }
        if j < p {
            assert(ns[j] == s[j]);
        } else if j == p {
            assert(ns[j] == r);
        } else {
            assert(ns[j] == s[j - 1]);
        }
        if i == p && r.alias@.len() > 0 && j > p && ns[j].alias@ == r.alias@ {
            assert(has_alias(s, r.alias@));
        }
        if j == p && ns[i].alias@.len() > 0 && ns[i].alias@ == r.alias@ {
            assert(has_alias(s, r.alias@));
        }
    }
}

// ---------------------------------------------------------------------------
// The table.
// ---------------------------------------------------------------------------

/// Clones one row field by field.
fn clone_row(r: &StdRow) -> (c: StdRow)
    ensures
        c == *r,
{
    StdRow { id: r.id, idx: r.idx, directory: r.directory.clone(), alias: r.alias.clone() }
}

impl StdTable {
    /// The table's invariant: rows strictly sorted by `idx`, every row under
    /// a surrogate id below `next_id`, ids unique, non-empty aliases unique.
    pub open spec fn wf(self) -> bool {
        &&& sorted_by_idx(self.rows@)
        &&& forall|i: int|
            0 <= i < self.rows@.len() ==> ((#[trigger] self.rows@[i].id) matches Some(v) && v
                < self.next_id)
        &&& forall|i: int, j: int|
            0 <= i < j < self.rows@.len() ==> (#[trigger] self.rows@[i].id) != (
            #[trigger] self.rows@[j].id)
        &&& forall|i: int, j: int|
            0 <= i < j < self.rows@.len() && self.rows@[i].alias@.len() > 0 ==> (
            #[trigger] self.rows@[i].alias@) != (#[trigger] self.rows@[j].alias@)
    }

    /// An empty table; surrogate ids start at one.
    pub fn new() -> (t: Self)
        ensures
            t.wf(),
            t.rows@.len() == 0,
            t.next_id == 1,
    {
        StdTable { rows: Vec::new(), next_id: 1 }
    }

    /// Returns the largest value found in column 'idx', or zero when the
    /// table is empty (an empty table is not an error).
    pub fn get_max_idx(&self) -> (r: Result<u32, QcdError>)
        requires
            self.wf(),
        ensures
            r == Ok::<u32, QcdError>(max_idx_spec(self.rows@)),
            self.rows@.len() == 0 ==> r == Ok::<u32, QcdError>(0u32),
            forall|i: int|
                0 <= i < self.rows@.len() ==> (#[trigger] self.rows@[i].idx) <= max_idx_spec(
                    self.rows@,
                ),
            self.rows@.len() > 0 ==> has_idx(self.rows@, max_idx_spec(self.rows@)),
    {
        let n = self.rows.len();
        if n == 0 {
            Ok(0)
        } else {
            proof {
                assert(forall|i: int|
                    0 <= i < self.rows@.len() - 1 ==> (#[trigger] self.rows@[i].idx)
                        < self.rows@[self.rows@.len() - 1].idx);
            }
            Ok(self.rows[n - 1].idx)
        }
    }

    /// Checks if `idx` can be found in the table.
    pub fn contains_idx(&self, idx: u32) -> (r: Result<bool, QcdError>)
        requires
            self.wf(),
        ensures
            r == Ok::<bool, QcdError>(has_idx(self.rows@, idx)),
    {
        let mut i: usize = 0;
        while i < self.rows.len()
            invariant
                0 <= i <= self.rows@.len(),
                forall|j: int| 0 <= j < i ==> (#[trigger] self.rows@[j].idx) != idx,
            decreases self.rows@.len() - i,
        {
            if self.rows[i].idx == idx {
                return Ok(true);
            }
            i = i + 1;
        }
        Ok(false)
    }

    /// Checks if exactly this alias can be found in the table.
    pub fn contains_alias(&self, alias: &str) -> (r: Result<bool, QcdError>)
        requires
            self.wf(),
        ensures
            r == Ok::<bool, QcdError>(has_alias(self.rows@, alias@)),
    {
        let mut i: usize = 0;
        while i < self.rows.len()
            invariant
                0 <= i <= self.rows@.len(),
                forall|j: int| 0 <= j < i ==> (#[trigger] self.rows@[j].alias@) != alias@,
            decreases self.rows@.len() - i,
        {
            if str_eq(self.rows[i].alias.as_str(), alias) {
                return Ok(true);
            }
            i = i + 1;
        }
        Ok(false)
    }

    /// Add one row to the table.  Fails with DuplicateIdx if the row's `idx`
    /// is already present, and with DuplicateAlias if its alias is non-empty
    /// and already present; an empty alias never collides.  On success the
    /// stored `idx` is returned and the row gets the next surrogate id.
    #[verifier::loop_isolation(false)]
    pub fn add_std_dir(&mut self, entry: &StdRow) -> (r: Result<u32, QcdError>)
        requires
            old(self).wf(),
            old(self).next_id < u64::MAX,
        ensures
            has_idx(old(self).rows@, entry.idx) ==> r == Err::<u32, QcdError>(
                QcdError::DuplicateIdx(entry.idx),
            ) && same_table(*old(self), *final(self)),
            !has_idx(old(self).rows@, entry.idx) && entry.alias@.len() > 0 && has_alias(
                old(self).rows@,
                entry.alias@,
            ) ==> (r matches Err(e) && e matches QcdError::DuplicateAlias(a) && a@ == entry.alias@)
                && same_table(*old(self), *final(self)),
            !has_idx(old(self).rows@, entry.idx) && (entry.alias@.len() == 0 || !has_alias(
                old(self).rows@,
                entry.alias@,
            )) ==> r == Ok::<u32, QcdError>(entry.idx) && final(self).rows@ == old(self).rows@.insert(
                idx_insert_pos(old(self).rows@, entry.idx),
                stored_row(old(self).next_id, *entry),
            ) && final(self).next_id == old(self).next_id + 1 && final(self).wf(),
    {
        let dup_idx = match self.contains_idx(entry.idx) {
            Ok(b) => b,
            Err(e) => return Err(e),
        };
        if dup_idx {
            return Err(QcdError::DuplicateIdx(entry.idx));
        }
        if !entry.alias.as_str().is_empty() {
            let dup_alias = match self.contains_alias(entry.alias.as_str()) {
                Ok(b) => b,
                Err(e) => return Err(e),
            };
            if dup_alias {
                return Err(QcdError::DuplicateAlias(entry.alias.clone()));
            }
        }
        let ghost s = self.rows@;
        let mut p: usize = 0;
        while p < self.rows.len() && self.rows[p].idx < entry.idx
            invariant
                *self == *old(self),
                s == self.rows@,
                0 <= p <= s.len(),
                forall|j: int| 0 <= j < p ==> (#[trigger] s[j].idx) < entry.idx,
            decreases s.len() - p,
        {
            p = p + 1;
        }
        proof {
            lemma_idx_insert_pos(s, entry.idx);
            let ip = idx_insert_pos(s, entry.idx);
            if (p as int) < ip {
                assert(s[p as int].idx < entry.idx);
                assert(false);
            }
            if (p as int) > ip {
                assert(s[ip].idx < entry.idx);
                assert(s[ip].idx >= entry.idx);
                assert(false);
            }
        }
        let row = StdRow {
            id: Some(self.next_id),
            idx: entry.idx,
            directory: entry.directory.clone(),
            alias: entry.alias.clone(),
        };
        self.rows.insert(p, row);
        self.next_id = self.next_id + 1;
        proof {
            let pi = p as int;
            let nr = stored_row(old(self).next_id, *entry);
            lemma_insert_elems(s, pi, nr);
            let ns = self.rows@;
            assert(ns == s.insert(pi, nr));
            assert forall|j: int| pi <= j < s.len() implies (#[trigger] s[j].idx) > entry.idx by {
                if s[j].idx == entry.idx {
                    assert(has_idx(s, entry.idx));
                }
            }
            lemma_sorted_insert(s, pi, nr);
            assert forall|i: int|
                0 <= i < ns.len() implies ((#[trigger] ns[i].id) matches Some(v) && v
                < self.next_id) by {
                if i < pi {
                    assert(ns[i] == s[i]);
                } else if i == pi {
                    assert(ns[i] == nr);
                } else {
                    assert(ns[i] == s[i - 1]);
                }
            }
            assert forall|i: int, j: int|
                0 <= i < j < ns.len() implies (#[trigger] ns[i].id) != (#[trigger] ns[j].id) by {
                if i < pi {
                    assert(ns[i] == s[i]);
                } else if i == pi {
                    assert(ns[i] == nr);
                } else {
                    assert(ns[i] == s[i - 1]);
                }
                if j < pi {
                    assert(ns[j] == s[j]);
                } else if j == pi {
                    assert(ns[j] == nr);
                } else {
                    assert(ns[j] == s[j - 1]);
                }
            }
            assert forall|i: int, j: int|
                0 <= i < j < ns.len() && ns[i].alias@.len() > 0 implies (#[trigger] ns[i].alias@)
                != (#[trigger] ns[j].alias@) by {
                if i < pi {
                    assert(ns[i] == s[i]);
                } else if i == pi {
                    assert(ns[i] == nr);
                } else {
                    assert(ns[i] == s[i - 1]);
                }
                if j < pi {
                    assert(ns[j] == s[j]);
                } else if j == pi {
                    assert(ns[j] == nr);
                } else {
                    assert(ns[j] == s[j - 1]);
                }
                if i == pi && nr.alias@.len() > 0 && j > pi && ns[j].alias@ == nr.alias@ {
                    assert(has_alias(s, entry.alias@));
                }
                if j == pi && ns[i].alias@.len() > 0 && ns[i].alias@ == nr.alias@ {
                    assert(has_alias(s, entry.alias@));
                }
            }
        }
        Ok(entry.idx)
    }

    /// Removes the row with the given surrogate id (not its `idx`).  Removing
    /// an id that is not present is not an error; at most one row goes.
    #[verifier::loop_isolation(false)]
    pub fn rm_std_dir(&mut self, id: u64) -> (r: Result<(), QcdError>)
        requires
            old(self).wf(),
        ensures
            r == Ok::<(), QcdError>(()),
            final(self).wf(),
            final(self).next_id == old(self).next_id,
            !has_id(old(self).rows@, id) ==> final(self).rows@ == old(self).rows@,
            has_id(old(self).rows@, id) ==> final(self).rows@ == old(self).rows@.remove(
                id_pos(old(self).rows@, id),
            ) && final(self).rows@.len() == old(self).rows@.len() - 1 && !has_id(
                final(self).rows@,
                id,
            ),
    {
        let ghost s = self.rows@;
        let mut i: usize = 0;
        while i < self.rows.len()
            invariant
                *self == *old(self),
                s == self.rows@,
                0 <= i <= s.len(),
                forall|j: int| 0 <= j < i ==> (#[trigger] s[j].id) != Some(id),
            decreases s.len() - i,
        {
            let hit = match self.rows[i].id {
                Some(v) => v == id,
                None => false,
            };
            if hit {
                proof {
                    lemma_id_pos(s, id);
                    let ip = id_pos(s, id);
                    assert(has_id(s, id));
                    if ip < i as int {
                        assert(s[ip].id != Some(id));
                        assert(false);
                    }
                    if ip > i as int {
                        assert(s[i as int].id != Some(id));
                        assert(false);
                    }
                }
                self.rows.remove(i);
                proof {
                    let pi = i as int;
                    lemma_remove_elems(s, pi);
                    lemma_sorted_remove(s, pi);
                    let ns = self.rows@;
                    assert(ns == s.remove(pi));
                    assert forall|k: int|
                        0 <= k < ns.len() implies ((#[trigger] ns[k].id) matches Some(v) && v
                        < self.next_id) && ns[k].id != Some(id) by {
                        if k < pi {
                            assert(ns[k] == s[k]);
                            if s[k].id == Some(id) {
                                assert(s[k].id != s[pi].id);
                                assert(false);
                            }
                        } else {
                            assert(ns[k] == s[k + 1]);
                            if s[k + 1].id == Some(id) {
                                assert(s[pi].id != s[k + 1].id);
                                assert(false);
                            }
                        }
                    }
                    assert forall|k: int, l: int|
                        0 <= k < l < ns.len() implies (#[trigger] ns[k].id) != (
                        #[trigger] ns[l].id) by {
                        if k < pi {
                            assert(ns[k] == s[k]);
                        } else {
                            assert(ns[k] == s[k + 1]);
                        }
                        if l < pi {
                            assert(ns[l] == s[l]);
                        } else {
                            assert(ns[l] == s[l + 1]);
                        }
                    }
                    assert forall|k: int, l: int|
                        0 <= k < l < ns.len() && ns[k].alias@.len() > 0 implies (
                        #[trigger] ns[k].alias@) != (#[trigger] ns[l].alias@) by {
                        if k < pi {
                            assert(ns[k] == s[k]);
                        } else {
                            assert(ns[k] == s[k + 1]);
                        }
                        if l < pi {
                            assert(ns[l] == s[l]);
                        } else {
                            assert(ns[l] == s[l + 1]);
                        }
                    }
                    if has_id(ns, id) {
                        let w = choose|k: int| 0 <= k < ns.len() && (#[trigger] ns[k].id) == Some(
                            id,
                        );
                        assert(ns[w].id != Some(id));
                        assert(false);
                    }
                }
                return Ok(());
            }
            i = i + 1;
        }
        proof {
            lemma_id_pos(s, id);
        }
        Ok(())
    }

    /// The position of the row carrying `idx`, if any.
    #[verifier::loop_isolation(false)]
    fn find_by_idx(&self, idx: u32) -> (r: Option<usize>)
        requires
            self.wf(),
        ensures
            has_idx(self.rows@, idx) ==> (r matches Some(p) && p as int == idx_pos(
                self.rows@,
                idx,
            ) && p < self.rows@.len()),
            !has_idx(self.rows@, idx) ==> r is None,
    {
        let ghost s = self.rows@;
        let mut i: usize = 0;
        while i < self.rows.len()
            invariant
                0 <= i <= s.len(),
                forall|j: int| 0 <= j < i ==> (#[trigger] s[j].idx) != idx,
            decreases s.len() - i,
        {
            if self.rows[i].idx == idx {
                proof {
                    lemma_idx_pos(s, idx);
                    let ip = idx_pos(s, idx);
                    assert(has_idx(s, idx));
                    if ip < i as int {
                        assert(s[ip].idx != idx);
                        assert(false);
                    }
                    if ip > i as int {
                        assert(s[i as int].idx != idx);
                        assert(false);
                    }
                }
                return Some(i);
            }
            i = i + 1;
        }
        proof {
            lemma_idx_pos(s, idx);
        }
        None
    }

    /// Fuzzy alias lookup: scan for aliases that extend the token; an alias
    /// equal to the token wins immediately; otherwise succeed only when the
    /// prefix match is unique.
    #[verifier::loop_isolation(false)]
    fn query_alias_fuzzy(&self, alias: &str) -> (r: Result<StdRow, QcdError>)
        requires
            self.wf(),
        ensures
            fuzzy_post(self.rows@, alias@, r),
    {
        let ghost s = self.rows@;
        let ghost a = alias@;
        proof {
            reveal(Seq::filter);
            assert(s.take(0) =~= Seq::<StdRow>::empty());
        }
        let mut count: usize = 0;
        let mut last: usize = 0;
        let mut i: usize = 0;
        while i < self.rows.len()
            invariant
                0 <= i <= s.len(),
                forall|j: int| 0 <= j < i ==> (#[trigger] s[j].alias@) != a,
                count == prefix_matches(s.take(i as int), a).len(),
                count <= i,
                count > 0 ==> 0 <= last < i && s[last as int] == prefix_matches(
                    s.take(i as int),
                    a,
                ).last(),
            decreases s.len() - i,
        {
            let is_pref = str_is_prefix(alias, self.rows[i].alias.as_str());
            if is_pref {
                let is_exact = str_eq(self.rows[i].alias.as_str(), alias);
                if is_exact {
                    proof {
                        lemma_alias_pos(s, a);
                        let ap = alias_pos(s, a);
                        assert(has_alias(s, a));
                        if ap < i as int {
                            assert(s[ap].alias@ != a);
                            assert(false);
                        }
                        if ap > i as int {
                            assert(s[i as int].alias@ != a);
                            assert(false);
                        }
                    }
                    return Ok(clone_row(&self.rows[i]));
                }
            }
            proof {
                reveal(Seq::filter);
                let t1 = s.take(i as int);
                let t2 = s.take(i + 1);
                assert(t2.drop_last() =~= t1);
                assert(t2.last() == s[i as int]);
                if a.is_prefix_of(s[i as int].alias@) {
                    assert(prefix_matches(t2, a) == prefix_matches(t1, a).push(s[i as int]));
                } else {
                    assert(prefix_matches(t2, a) == prefix_matches(t1, a));
                }
            }
            if is_pref {
                count = count + 1;
                last = i;
            }
            i = i + 1;
        }
        proof {
            assert(s.take(s.len() as int) =~= s);
            lemma_alias_pos(s, a);
            assert(!has_alias(s, a));
        }
        if count == 1 {
            proof {
                let m = prefix_matches(s, a);
                assert(s[last as int] == m.last());
                assert(m.last() == m[0]);
            }
            Ok(clone_row(&self.rows[last]))
        } else if count == 0 {
            Err(QcdError::NotFound)
        } else {
            Err(QcdError::Ambiguous)
        }
    }

    /// Search for an entry where either the idx or the alias is specified:
    /// an idx query is an exact match, an alias query is fuzzy.
    pub fn find_entry(&self, entry: &IdxAlias) -> (r: Result<StdRow, QcdError>)
        requires
            self.wf(),
        ensures
            (entry matches IdxAlias::Idx(i) ==> {
                &&& has_idx(self.rows@, *i) ==> (r matches Ok(row) && row == self.rows@[idx_pos(
                    self.rows@,
                    *i,
                )])
                &&& !has_idx(self.rows@, *i) ==> r == Err::<StdRow, QcdError>(QcdError::NotFound)
            }),
            (entry matches IdxAlias::Alias(al) ==> fuzzy_post(self.rows@, al@, r)),
    {
        match entry {
            IdxAlias::Idx(i) => {
                match self.find_by_idx(*i) {
                    Some(p) => Ok(clone_row(&self.rows[p])),
                    None => Err(QcdError::NotFound),
                }
            },
            IdxAlias::Alias(al) => self.query_alias_fuzzy(al.as_str()),
        }
    }

    /// Search for the first row with exactly this directory.
    #[verifier::loop_isolation(false)]
    pub fn search_dir(&self, directory: &str) -> (r: Result<StdRow, QcdError>)
        requires
            self.wf(),
        ensures
            has_dir(self.rows@, directory@) ==> (r matches Ok(row) && row == self.rows@[dir_pos(
                self.rows@,
                directory@,
            )]),
            !has_dir(self.rows@, directory@) ==> r == Err::<StdRow, QcdError>(QcdError::NotFound),
    {
        let ghost s = self.rows@;
        let ghost d = directory@;
        let mut i: usize = 0;
        while i < self.rows.len()
            invariant
                0 <= i <= s.len(),
                forall|j: int| 0 <= j < i ==> (#[trigger] s[j].directory@) != d,
            decreases s.len() - i,
        {
            if str_eq(self.rows[i].directory.as_str(), directory) {
                proof {
                    lemma_dir_pos(s, d);
                    let dp = dir_pos(s, d);
                    assert(has_dir(s, d));
                    if dp < i as int {
                        assert(s[dp].directory@ != d);
                        assert(false);
                    }
                    if dp > i as int {
                        assert(s[i as int].directory@ != d);
                        assert(false);
                    }
                }
                return Ok(clone_row(&self.rows[i]));
            }
            i = i + 1;
        }
        proof {
            lemma_dir_pos(s, d);
        }
        Err(QcdError::NotFound)
    }

    /// Sets a new idx or alias for the row currently carrying `idx`.
    /// A new value equal to the current one succeeds with no write, even
    /// though it trivially "collides with itself"; otherwise uniqueness is
    /// re-checked across the whole table before the one column is rewritten.
    #[verifier::loop_isolation(false)]
    pub fn update_entry(&mut self, idx: u32, entry: &IdxAlias) -> (r: Result<(), QcdError>)
        requires
            old(self).wf(),
        ensures
            !has_idx(old(self).rows@, idx) ==> r == Err::<(), QcdError>(QcdError::NotFound)
                && same_table(*old(self), *final(self)),
            has_idx(old(self).rows@, idx) ==> {
                let s = old(self).rows@;
                let i = idx_pos(s, idx);
                let row = s[i];
                &&& (entry matches IdxAlias::Idx(n) ==> {
                    &&& *n == idx ==> r == Ok::<(), QcdError>(()) && same_table(
                        *old(self),
                        *final(self),
                    )
                    &&& *n != idx && has_idx(s, *n) ==> r == Err::<(), QcdError>(
                        QcdError::DuplicateIdx(*n),
                    ) && same_table(*old(self), *final(self))
                    &&& *n != idx && !has_idx(s, *n) ==> r == Ok::<(), QcdError>(()) && final(self).rows@ == s.remove(i).insert(
                        idx_insert_pos(s.remove(i), *n),
                        row_with_idx(row, *n),
                    ) && final(self).next_id == old(self).next_id && final(self).wf()
                })
                &&& (entry matches IdxAlias::Alias(na) ==> {
                    &&& na@ == row.alias@ ==> r == Ok::<(), QcdError>(()) && same_table(
                        *old(self),
                        *final(self),
                    )
                    &&& na@ != row.alias@ && has_alias(s, na@) ==> (r matches Err(e)
                        && e matches QcdError::DuplicateAlias(a) && a@ == na@) && same_table(
                        *old(self),
                        *final(self),
                    )
                    &&& na@ != row.alias@ && !has_alias(s, na@) ==> r == Ok::<(), QcdError>(())
                        && final(self).rows@ == s.update(i, row_with_alias(row, *na)) && final(self).next_id == old(self).next_id && final(self).wf()
                })
            },
    {
        let ghost s = self.rows@;
        let pos = match self.find_by_idx(idx) {
            Some(p) => p,
            None => return Err(QcdError::NotFound),
        };
        proof {
            lemma_idx_pos(s, idx);
        }
        match entry {
            IdxAlias::Idx(nr) => {
                let n = *nr;
                if n == self.rows[pos].idx {
                    return Ok(());
                }
                let dup = match self.contains_idx(n) {
                    Ok(b) => b,
                    Err(e) => return Err(e),
                };
                if dup {
                    return Err(QcdError::DuplicateIdx(n));
                }
                let mut row = self.rows.remove(pos);
                proof {
                    lemma_remove_elems(s, pos as int);
                    lemma_sorted_remove(s, pos as int);
                }
                row.idx = n;
                let ghost rem = self.rows@;
                let ghost nrow = row_with_idx(s[pos as int], n);
                let mut p: usize = 0;
                while p < self.rows.len() && self.rows[p].idx < n
                    invariant
                        self.rows@ == rem,
                        0 <= p <= rem.len(),
                        forall|j: int| 0 <= j < p ==> (#[trigger] rem[j].idx) < n,
                    decreases rem.len() - p,
                {
                    p = p + 1;
                }
                proof {
                    lemma_idx_insert_pos(rem, n);
                    let ip = idx_insert_pos(rem, n);
                    if (p as int) < ip {
                        assert(rem[p as int].idx < n);
                        assert(false);
                    }
                    if (p as int) > ip {
                        assert(rem[ip].idx < n);
                        assert(rem[ip].idx >= n);
                        assert(false);
                    }
                }
                self.rows.insert(p, row);
                proof {
                    let pi = p as int;
                    assert forall|j: int| pi <= j < rem.len() implies (#[trigger] rem[j].idx)
                        > n by {
                        if rem[j].idx == n {
                            if j < pos as int {
                                assert(rem[j] == s[j]);
                            } else {
                                assert(rem[j] == s[j + 1]);
                            }
                            assert(has_idx(s, n));
                            assert(false);
                        }
                    }
                    assert forall|j: int| 0 <= j < rem.len() implies (#[trigger] rem[j].id)
                        != nrow.id by {
                        if j < pos as int {
                            assert(rem[j] == s[j]);
                            assert(s[j].id != s[pos as int].id);
                        } else {
                            assert(rem[j] == s[j + 1]);
                            assert(s[pos as int].id != s[j + 1].id);
                        }
                    }
                    if nrow.alias@.len() > 0 {
                        if has_alias(rem, nrow.alias@) {
                            let w = choose|k: int|
                                0 <= k < rem.len() && (#[trigger] rem[k].alias@) == nrow.alias@;
                            if w < pos as int {
                                assert(rem[w] == s[w]);
                                assert(s[w].alias@ != s[pos as int].alias@);
                            } else {
                                assert(rem[w] == s[w + 1]);
                                assert(s[pos as int].alias@ != s[w + 1].alias@);
                            }
                            assert(false);
                        }
                    }
                    lemma_wf_parts_insert(rem, self.next_id, pi, nrow);
                }
                Ok(())
            },
            IdxAlias::Alias(na) => {
                let same = str_eq(na.as_str(), self.rows[pos].alias.as_str());
                if same {
                    return Ok(());
                }
                let dup = match self.contains_alias(na.as_str()) {
                    Ok(b) => b,
                    Err(e) => return Err(e),
                };
                if dup {
                    return Err(QcdError::DuplicateAlias(na.clone()));
                }
                let mut row = self.rows.remove(pos);
                row.alias = na.clone();
                self.rows.insert(pos, row);
                proof {
                    let pi = pos as int;
                    let nrow = row_with_alias(s[pi], *na);
                    lemma_remove_elems(s, pi);
                    s.remove(pi).insert_ensures(pi, nrow);
                    lemma_insert_elems(s.remove(pi), pi, nrow);
                    let ns = self.rows@;
                    assert forall|k: int| 0 <= k < ns.len() implies #[trigger] ns[k] == s.update(
                        pi,
                        nrow,
                    )[k] by {
                        if k < pi {
                            assert(ns[k] == s.remove(pi)[k]);
                            assert(s.remove(pi)[k] == s[k]);
                        } else if k == pi {
                            assert(ns[k] == nrow);
                        } else {
                            assert(ns[k] == s.remove(pi)[k - 1]);
                            assert(s.remove(pi)[(k - 1)] == s[k]);
                        }
                    }
                    assert(ns =~= s.update(pi, nrow));
                    assert forall|i: int, j: int|
                        0 <= i < j < ns.len() implies (#[trigger] ns[i].idx) < (
                    #[trigger] ns[j].idx) by {
                        assert(ns[i].idx == s[i].idx);
                        assert(ns[j].idx == s[j].idx);
                    }
                    assert forall|i: int|
                        0 <= i < ns.len() implies ((#[trigger] ns[i].id) matches Some(v) && v
                        < self.next_id) by {
                        assert(ns[i].id == s[i].id);
                    }
                    assert forall|i: int, j: int|
                        0 <= i < j < ns.len() implies (#[trigger] ns[i].id) != (
                    #[trigger] ns[j].id) by {
                        assert(ns[i].id == s[i].id);
                        assert(ns[j].id == s[j].id);
                    }
                    assert forall|i: int, j: int|
                        0 <= i < j < ns.len() && ns[i].alias@.len() > 0 implies (
                    #[trigger] ns[i].alias@) != (#[trigger] ns[j].alias@) by {
                        if i != pi && j != pi {
                            assert(ns[i].alias@ == s[i].alias@);
                            assert(ns[j].alias@ == s[j].alias@);
                        } else if i == pi {
                            assert(ns[j].alias@ == s[j].alias@);
                            if ns[j].alias@ == na@ {
                                assert(has_alias(s, na@));
                                assert(false);
                            }
                        } else {
                            assert(ns[i].alias@ == s[i].alias@);
                            if ns[i].alias@ == na@ {
                                assert(has_alias(s, na@));
                                assert(false);
                            }
                        }
                    }
                }
                Ok(())
            },
        }
    }

    /// The insertion entry point of the boundary: chooses the default idx
    /// (one past the current maximum) and the default alias (none), then
    /// inserts.
    pub fn add_row(&mut self, idx: Option<u32>, directory: String, alias: Option<String>) -> (r:
        Result<u32, QcdError>)
        requires
            old(self).wf(),
            old(self).next_id < u64::MAX,
            idx is None ==> max_idx_spec(old(self).rows@) < u32::MAX,
        ensures
            ({
                let s = old(self).rows@;
                let eff = effective_idx(s, idx);
                &&& has_idx(s, eff) ==> r == Err::<u32, QcdError>(QcdError::DuplicateIdx(eff))
                    && same_table(*old(self), *final(self))
                &&& !has_idx(s, eff) && (alias matches Some(a) && a@.len() > 0 && has_alias(s, a@))
                    ==> (r matches Err(e) && e matches QcdError::DuplicateAlias(dup) && alias
                    matches Some(a) && dup@ == a@) && same_table(*old(self), *final(self))
                &&& !has_idx(s, eff) && (alias matches Some(a) ==> a@.len() == 0 || !has_alias(
                    s,
                    a@,
                )) ==> {
                    &&& r == Ok::<u32, QcdError>(eff)
                    &&& final(self).next_id == old(self).next_id + 1
                    &&& final(self).wf()
                    &&& final(self).rows@.len() == s.len() + 1
                    &&& final(self).rows@ == s.insert(
                        idx_insert_pos(s, eff),
                        final(self).rows@[idx_insert_pos(s, eff)],
                    )
                    &&& final(self).rows@[idx_insert_pos(s, eff)].id == Some(old(self).next_id)
                    &&& final(self).rows@[idx_insert_pos(s, eff)].idx == eff
                    &&& final(self).rows@[idx_insert_pos(s, eff)].directory == directory
                    &&& final(self).rows@[idx_insert_pos(s, eff)].alias@ == (match alias {
                        Some(a) => a@,
                        None => Seq::<char>::empty(),
                    })
                }
            }),
    {
        let eff: u32 = match idx {
            Some(i) => i,
            None => {
                let m = match self.get_max_idx() {
                    Ok(m) => m,
                    Err(e) => return Err(e),
                };
                m + 1
            },
        };
        let al: String = match alias {
            Some(a) => a,
            None => String::new(),
        };
        let entry = StdRow { id: None, idx: eff, directory, alias: al };
        let r = self.add_std_dir(&entry);
        proof {
            lemma_idx_insert_pos(old(self).rows@, eff);
            if !has_idx(old(self).rows@, eff) && (entry.alias@.len() == 0 || !has_alias(
                old(self).rows@,
                entry.alias@,
            )) {
                lemma_insert_elems(
                    old(self).rows@,
                    idx_insert_pos(old(self).rows@, eff),
                    stored_row(old(self).next_id, entry),
                );
            }
        }
        r
    }

    /// Returns a copy of all rows, in ascending `idx` order.
    pub fn get_std_rows(&self) -> (r: Result<Vec<StdRow>, QcdError>)
        requires
            self.wf(),
        ensures
            r matches Ok(v) && v@ == self.rows@ && sorted_by_idx(v@),
    {
        let mut out: Vec<StdRow> = Vec::new();
        let mut i: usize = 0;
        while i < self.rows.len()
            invariant
                0 <= i <= self.rows@.len(),
                out@ == self.rows@.subrange(0, i as int),
            decreases self.rows@.len() - i,
        {
            out.push(clone_row(&self.rows[i]));
            proof {
                assert(out@ =~= self.rows@.subrange(0, i + 1));
            }
            i = i + 1;
        }
        proof {
            assert(out@ =~= self.rows@);
        }
        Ok(out)
    }
}

} // verus!
