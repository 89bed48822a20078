//! The code table: share codes mapped to root paths, with lazy expiration
//! and hit counting.

use vstd::prelude::*;

use crate::data::{CodePath, CodeRow};
use crate::errors::HFMError;
use crate::utils::{code_alphabet, generate_code, CODE_LEN};

verus! {

/// Some row of `rows` has this code.
pub open spec fn has_code(rows: Seq<CodeRow>, code: Seq<char>) -> bool {
    exists|i: int| 0 <= i < rows.len() && #[trigger] rows[i].code == code
}

/// No two rows share a code.
pub open spec fn unique_codes(rows: Seq<CodeRow>) -> bool {
    forall|i: int, j: int|
        0 <= i < rows.len() && 0 <= j < rows.len() && i != j ==> #[trigger] rows[i].code
            != #[trigger] rows[j].code
}

/// The position of the row with this code.
pub open spec fn index_of(rows: Seq<CodeRow>, code: Seq<char>) -> int {
    choose|i: int| 0 <= i < rows.len() && #[trigger] rows[i].code == code
}

/// The row with this code, expired or not.
pub open spec fn row_of(rows: Seq<CodeRow>, code: Seq<char>) -> Option<CodeRow> {
    if has_code(rows, code) {
        Some(rows[index_of(rows, code)])
    } else {
        None
    }
}

/// A row resolves at time `now` unless its expiration is at or before `now`.
pub open spec fn is_live(row: CodeRow, now: i64) -> bool {
    match row.expiration {
        None => true,
        Some(e) => now < e,
    }
}

/// The row with this code as a read at time `now` sees it: absent and
/// expired rows look the same.
pub open spec fn live_row(rows: Seq<CodeRow>, code: Seq<char>, now: i64) -> Option<CodeRow> {
    match row_of(rows, code) {
        Some(r) => if is_live(r, now) {
            Some(r)
        } else {
            None
        },
        None => None,
    }
}

/// The table after a successful create.
pub open spec fn after_insert(
    rows: Seq<CodeRow>,
    code: Seq<char>,
    path: Seq<char>,
    expiration: Option<i64>,
) -> Seq<CodeRow> {
    rows.push(CodeRow { code, path, expiration, hits: 0 })
}

/// The table after deleting a code.
pub open spec fn after_delete(rows: Seq<CodeRow>, code: Seq<char>) -> Seq<CodeRow> {
    if has_code(rows, code) {
        rows.remove(index_of(rows, code))
    } else {
        rows
    }
}

/// How many rows deleting a code removes.
pub open spec fn deleted_count(rows: Seq<CodeRow>, code: Seq<char>) -> u64 {
    if has_code(rows, code) {
        1
    } else {
        0
    }
}

/// The table, and the new count, after counting one hit at time `now`. A
/// code that is absent or expired, or whose count is at its maximum, leaves
/// the table as it is and reports no count.
pub open spec fn after_increment(rows: Seq<CodeRow>, code: Seq<char>, now: i64) -> (
    Seq<CodeRow>,
    Option<u64>,
) {
    match live_row(rows, code, now) {
        Some(r) => if r.hits < u64::MAX {
            (
                rows.update(index_of(rows, code), CodeRow { hits: (r.hits + 1) as u64, ..r }),
                Some((r.hits + 1) as u64),
            )
        } else {
            (rows, None)
        },
        None => (rows, None),
    }
}

/// The table after one hit is counted at each of `times`, in order.
pub open spec fn after_increments(rows: Seq<CodeRow>, code: Seq<char>, times: Seq<i64>) -> Seq<
    CodeRow,
>
    decreases times.len(),
{
    if times.len() == 0 {
        rows
    } else {
        after_increment(after_increments(rows, code, times.drop_last()), code, times.last()).0
    }
}

pub open spec fn row_views(v: Seq<CodePath>) -> Seq<CodeRow> {
    v.map_values(|r: CodePath| r@)
}

pub open spec fn opt_row_view(o: Option<CodePath>) -> Option<CodeRow> {
    match o {
        Some(c) => Some(c@),
        None => None,
    }
}

/// Relies on chrono's `Utc::now`: the current time, in whole seconds since
/// the Unix epoch. Nothing is promised of its value.
#[verifier::external_body]
pub(crate) fn now_timestamp() -> (r: i64) {
    chrono::Utc::now().timestamp()
}

/// How many codes a create with a generated code draws before giving up.
pub const CODE_ATTEMPTS: usize = 16;

/// The schema version this library reads and writes.
pub const DB_VERSION: i64 = 1;

/// The schema versions that bring a store from version `from` up to
/// `DB_VERSION`, in order.
pub open spec fn migrations_from(from: i64) -> Seq<i64> {
    Seq::new((DB_VERSION - from) as nat, |k: int| (from + 1 + k) as i64)
}

/// The migrations a store needs, keyed by the schema version it records
/// (`None` for a fresh store, which starts from version 0). Running each
/// listed version's migration once, in order, and recording the last one
/// brings the store up to date, so running the plan again finds nothing to
/// do. A recorded version below 0 or above `DB_VERSION` is refused.
pub fn pending_migrations(stored: Option<i64>) -> (r: Result<Vec<i64>, HFMError>)
    ensures
        stored matches Some(v) && (v < 0 || v > DB_VERSION) ==> r matches Err(
            HFMError::StorageError(_),
        ),
        stored is None ==> (r matches Ok(l) && l@ == migrations_from(0)),
        stored is Some && 0 <= stored->0 <= DB_VERSION ==> (r matches Ok(l) && l@
            == migrations_from(stored->0)),
{
    let from: i64 = match stored {
        None => 0,
        Some(v) => {
            if v < 0 || v > DB_VERSION {
                return Err(HFMError::StorageError("unsupported schema version".to_owned()));
            }
            v
        },
    };
    let mut plan: Vec<i64> = Vec::new();
    let mut next: i64 = from;
    while next < DB_VERSION
        invariant
            0 <= from <= next <= DB_VERSION,
            plan@ == migrations_from(from).subrange(0, next - from),
        decreases DB_VERSION - next,
    {
        next = next + 1;
        plan.push(next);
        proof {
            assert(plan@ =~= migrations_from(from).subrange(0, next - from));
        }
    }
    assert(migrations_from(from).subrange(0, DB_VERSION - from) =~= migrations_from(from));
    Ok(plan)
}

/// The code table. Codes are unique across all rows, live or expired.
#[derive(Debug)]
pub struct DB {
    rows: Vec<CodePath>,
}

impl View for DB {
    type V = Seq<CodeRow>;

    closed spec fn view(&self) -> Seq<CodeRow> {
        row_views(self.rows@)
    }
}

pub proof fn lemma_index_of(rows: Seq<CodeRow>, code: Seq<char>, i: int)
    requires
        unique_codes(rows),
        0 <= i < rows.len(),
        rows[i].code == code,
    ensures
        has_code(rows, code),
        index_of(rows, code) == i,
        row_of(rows, code) == Some(rows[i]),
{
    assert(has_code(rows, code));
    let j = index_of(rows, code);
    assert(rows[j].code == code);
}

impl DB {
    /// Well-formed: no two rows share a code.
    pub open spec fn wf(&self) -> bool {
        unique_codes(self@)
    }

    /// An empty table.
    pub fn open_in_memory() -> (r: DB)
        ensures
            r.wf(),
            r@ == Seq::<CodeRow>::empty(),
    {
        let r = DB { rows: Vec::new() };
        assert(r@ =~= Seq::<CodeRow>::empty());
        r
    }

    /// The position of the row with `code`.
    fn find(&self, code: &str) -> (r: Option<usize>)
        requires
            self.wf(),
        ensures
            r matches Some(i) ==> i < self@.len() && index_of(self@, code@) == i && has_code(
                self@,
                code@,
            ),
            r is None ==> !has_code(self@, code@),
    {
        let key = code.to_owned();
        let mut i: usize = 0;
        while i < self.rows.len()
            invariant
                i <= self@.len(),
                self@.len() == self.rows@.len(),
                key@ == code@,
                unique_codes(self@),
                forall|k: int| 0 <= k < i ==> self@[k].code != code@,
            decreases self@.len() - i,
        {
            if self.rows[i].code == key {
                proof {
                    assert(self@[i as int].code == code@);
                    lemma_index_of(self@, code@, i as int);
                }
                return Some(i);
            }
            proof {
                assert(self@[i as int] == self.rows@[i as int]@);
            }
            i += 1;
        }
        None
    }

    /// Loads a table from rows, refusing them when two share a code.
    pub fn from_rows(rows: Vec<CodePath>) -> (r: Result<DB, HFMError>)
        ensures
            unique_codes(row_views(rows@)) ==> (r matches Ok(db) && db.wf() && db@ == row_views(rows@)),
            !unique_codes(row_views(rows@)) ==> r == Err::<DB, HFMError>(HFMError::DuplicateCode),
    {
        let ghost v = row_views(rows@);
        let mut i: usize = 0;
        while i < rows.len()
            invariant
                i <= rows@.len(),
                v == row_views(rows@),
                forall|a: int, b: int| 0 <= a < i && 0 <= b < v.len() && a != b ==> v[a].code != v[b].code,
            decreases rows@.len() - i,
        {
            let mut j: usize = 0;
            while j < rows.len()
                invariant
                    i < rows@.len(),
                    j <= rows@.len(),
                    v == row_views(rows@),
                    forall|a: int, b: int| 0 <= a < i && 0 <= b < v.len() && a != b ==> v[a].code != v[b].code,
                    forall|b: int| 0 <= b < j && b != i ==> v[i as int].code != v[b].code,
                decreases rows@.len() - j,
            {
                if j != i && rows[i].code == rows[j].code {
                    assert(v[i as int].code == rows@[i as int].code@);
                    assert(v[j as int].code == rows@[j as int].code@);
                    assert(v[i as int].code == v[j as int].code);
                    assert(!unique_codes(v));
                    return Err(HFMError::DuplicateCode);
                }
                proof {
                    assert(v[i as int].code == rows@[i as int].code@);
                    assert(v[j as int].code == rows@[j as int].code@);
                }
                j += 1;
            }
            i += 1;
        }
        let db = DB { rows };
        Ok(db)
    }

    /// Creates a share with no hits. Fails, leaving the table as it is, when
    /// the code is already taken by a row, live or expired.
    pub fn insert_code_path(&mut self, code: &str, path: &str, expiration: Option<i64>) -> (r: Result<
        (),
        HFMError,
    >)
        requires
            old(self).wf(),
        ensures
            final(self).wf(),
            has_code(old(self)@, code@) ==> r == Err::<(), HFMError>(HFMError::DuplicateCode)
                && final(self)@ == old(self)@,
            !has_code(old(self)@, code@) ==> r is Ok && final(self)@ == after_insert(
                old(self)@,
                code@,
                path@,
                expiration,
            ),
    {
        if self.find(code).is_some() {
            return Err(HFMError::DuplicateCode);
        }
        let row = CodePath { code: code.to_owned(), path: path.to_owned(), expiration, hits: 0 };
        let ghost before = self@;
        proof {
            assert(row_views(self.rows@.push(row)) =~= after_insert(before, code@, path@, expiration));
            lemma_insert_unique(before, code@, path@, expiration);
        }
        self.rows.push(row);
        Ok(())
    }

    /// Creates a share under a freshly generated code, drawing again while
    /// the drawn code is taken, and returns the code. After `CODE_ATTEMPTS`
    /// taken codes it gives up, leaving the table as it is.
    pub fn insert_with_generated_code(&mut self, path: &str, expiration: Option<i64>) -> (r: Result<
        String,
        HFMError,
    >)
        requires
            old(self).wf(),
        ensures
            final(self).wf(),
            r matches Ok(code) ==> !has_code(old(self)@, code@) && final(self)@ == after_insert(
                old(self)@,
                code@,
                path@,
                expiration,
            ) && code@.len() == CODE_LEN && forall|i: int|
                0 <= i < code@.len() ==> code_alphabet().contains(#[trigger] code@[i]),
            r is Err ==> r == Err::<String, HFMError>(HFMError::DuplicateCode) && final(self)@ == old(
                self,
            )@,
            (forall|i: int| 0 <= i < old(self)@.len() ==> #[trigger] old(self)@[i].code.len() != CODE_LEN)
                ==> r is Ok,
    {
        let mut attempt: usize = 0;
        while attempt < CODE_ATTEMPTS
            invariant
                self.wf(),
                self@ == old(self)@,
                attempt <= CODE_ATTEMPTS,
                attempt > 0 ==> exists|i: int|
                    0 <= i < old(self)@.len() && #[trigger] old(self)@[i].code.len() == CODE_LEN,
            decreases CODE_ATTEMPTS - attempt,
        {
            let code = generate_code();
            match self.insert_code_path(code.as_str(), path, expiration) {
                Ok(()) => return Ok(code),
                Err(_) => {
                    assert(has_code(old(self)@, code@));
                    let ghost i = choose|i: int| 0 <= i < old(self)@.len() && #[trigger] old(self)@[i].code == code@;
                    assert(old(self)@[i].code.len() == CODE_LEN);
                },
            }
            attempt += 1;
        }
        Err(HFMError::DuplicateCode)
    }

    /// The row with `code` as seen at time `now`: `None` when the code is
    /// absent, or when its expiration is at or before `now`.
    pub fn get_code_path_at(&self, code: &str, now: i64) -> (r: Option<CodePath>)
        requires
            self.wf(),
        ensures
            opt_row_view(r) == live_row(self@, code@, now),
    {
        match self.find(code) {
            Some(i) => {
                let row = &self.rows[i];
                proof {
                    assert(self@[i as int] == row@);
                }
                let live = match row.expiration {
                    None => true,
                    Some(e) => now < e,
                };
                if live {
                    Some(row.duplicate())
                } else {
                    None
                }
            },
            None => None,
        }
    }

    /// The row with `code` as seen now.
    pub fn get_code_path(&self, code: &str) -> (r: Option<CodePath>)
        requires
            self.wf(),
        ensures
            exists|now: i64| opt_row_view(r) == live_row(self@, code@, now),
    {
        let now = now_timestamp();
        self.get_code_path_at(code, now)
    }

    /// Every row, expired ones included, in storage order.
    pub fn get_all_code_paths(&self) -> (r: Vec<CodePath>)
        ensures
            row_views(r@) == self@,
    {
        let mut out: Vec<CodePath> = Vec::new();
        let mut i: usize = 0;
        while i < self.rows.len()
            invariant
                i <= self.rows@.len(),
                row_views(out@) == self@.subrange(0, i as int),
                self@ == row_views(self.rows@),
            decreases self.rows@.len() - i,
        {
            let ghost before = out@;
            out.push(self.rows[i].duplicate());
            proof {
                assert(row_views(out@) =~= row_views(before).push(self@[i as int]));
                assert(self@.subrange(0, i + 1) =~= self@.subrange(0, i as int).push(
                    self@[i as int],
                ));
            }
            i += 1;
        }
        assert(self@.subrange(0, self@.len() as int) =~= self@);
        out
    }

    /// Removes the row with `code`, live or expired, and says how many rows
    /// went: 1 or 0.
    pub fn delete_code_path(&mut self, code: &str) -> (r: u64)
        requires
            old(self).wf(),
        ensures
            final(self).wf(),
            r == deleted_count(old(self)@, code@),
            final(self)@ == after_delete(old(self)@, code@),
    {
        match self.find(code) {
            Some(i) => {
                let ghost before = self@;
                let ghost raw = self.rows@;
                proof {
                    assert(row_views(raw.remove(i as int)) =~= before.remove(i as int));
                    assert forall|a: int, b: int|
                        0 <= a < before.len() - 1 && 0 <= b < before.len() - 1 && a != b implies #[trigger] before.remove(i as int)[a].code != #[trigger] before.remove(i as int)[b].code by {
                        let a2 = if a < i { a } else { a + 1 };
                        let b2 = if b < i { b } else { b + 1 };
                        assert(before.remove(i as int)[a] == before[a2]);
                        assert(before.remove(i as int)[b] == before[b2]);
                    }
                }
                self.rows.remove(i);
                1
            },
            None => 0,
        }
    }

    /// Counts one hit on the share with `code` as seen at time `now`, and
    /// returns the new count.
    pub fn increment_hit_count_at(&mut self, code: &str, now: i64) -> (r: Option<u64>)
        requires
            old(self).wf(),
        ensures
            final(self).wf(),
            (final(self)@, r) == after_increment(old(self)@, code@, now),
    {
        match self.find(code) {
            Some(i) => {
                let ghost before = self@;
                let row = &self.rows[i];
                proof {
                    assert(before[i as int] == row@);
                }
                let live = match row.expiration {
                    None => true,
                    Some(e) => now < e,
                };
                if !live || row.hits == u64::MAX {
                    return None;
                }
                let hits = row.hits + 1;
                let mut updated = row.duplicate();
                updated.hits = hits;
                let ghost raw = self.rows@;
                proof {
                    assert(row_views(raw.update(i as int, updated)) =~= before.update(
                        i as int,
                        CodeRow { hits: hits, ..before[i as int] },
                    ));
                    lemma_increment_one(before, code@, now);
                }
                self.rows.set(i, updated);
                Some(hits)
            },
            None => None,
        }
    }

    /// Counts one hit on the share with `code` as seen now.
    pub fn increment_hit_count(&mut self, code: &str) -> (r: Option<u64>)
        requires
            old(self).wf(),
        ensures
            final(self).wf(),
            exists|now: i64| (final(self)@, r) == after_increment(old(self)@, code@, now),
    {
        let now = now_timestamp();
        self.increment_hit_count_at(code, now)
    }
}

/// A create on a code that no row has keeps the codes unique.
pub proof fn lemma_insert_unique(
    rows: Seq<CodeRow>,
    code: Seq<char>,
    path: Seq<char>,
    expiration: Option<i64>,
)
    requires
        unique_codes(rows),
        !has_code(rows, code),
    ensures
        unique_codes(after_insert(rows, code, path, expiration)),
{
    let after = after_insert(rows, code, path, expiration);
    assert forall|i: int, j: int|
        0 <= i < after.len() && 0 <= j < after.len() && i != j implies #[trigger] after[i].code
        != #[trigger] after[j].code by {
        if i < rows.len() && j == rows.len() {
            assert(rows[i].code != code);
        }
        if j < rows.len() && i == rows.len() {
            assert(rows[j].code != code);
        }
    }
}

/// Counting a hit keeps the codes unique, and when it counts, the row keeps
/// everything but its count, which goes up by one.
pub proof fn lemma_increment_one(rows: Seq<CodeRow>, code: Seq<char>, now: i64)
    requires
        unique_codes(rows),
    ensures
        unique_codes(after_increment(rows, code, now).0),
        after_increment(rows, code, now).1 is None ==> after_increment(rows, code, now).0 == rows,
        after_increment(rows, code, now).1 matches Some(n) ==> row_of(
            after_increment(rows, code, now).0,
            code,
        ) == Some(CodeRow { hits: n, ..row_of(rows, code)->0 }) && n == row_of(rows, code)->0.hits
            + 1,
{
    if let Some(r) = live_row(rows, code, now) {
        if r.hits < u64::MAX {
            let i = index_of(rows, code);
            let after = after_increment(rows, code, now).0;
            assert(rows[i].code == code);
            assert forall|a: int, b: int|
                0 <= a < after.len() && 0 <= b < after.len() && a != b implies #[trigger] after[a].code
                != #[trigger] after[b].code by {
                assert(after[a].code == rows[a].code);
                assert(after[b].code == rows[b].code);
            }
            lemma_index_of(after, code, i);
        }
    }
}

/// Creating a share that never expires and then reading its code, at any
/// time, gives back the path it was created with.
pub proof fn lemma_create_then_get(rows: Seq<CodeRow>, code: Seq<char>, path: Seq<char>, now: i64)
    requires
        unique_codes(rows),
        !has_code(rows, code),
    ensures
        live_row(after_insert(rows, code, path, None), code, now) matches Some(r) && r.path == path,
{
    let after = after_insert(rows, code, path, None);
    lemma_insert_unique(rows, code, path, None);
    lemma_index_of(after, code, rows.len() as int);
}

/// A share whose expiration is at or before `now` is invisible to reads and
/// to hit counting at `now`, while the table still holds its row.
pub proof fn lemma_expired_invisible(rows: Seq<CodeRow>, code: Seq<char>, now: i64)
    requires
        unique_codes(rows),
        row_of(rows, code) matches Some(r) && (r.expiration matches Some(e) && e <= now),
    ensures
        live_row(rows, code, now) is None,
        after_increment(rows, code, now) == (rows, None::<u64>),
        rows.contains(row_of(rows, code)->0),
{
    let i = index_of(rows, code);
    assert(rows[i] == row_of(rows, code)->0);
}

/// Deleting is idempotent: once a code is deleted, deleting it again
/// removes nothing and changes nothing.
pub proof fn lemma_delete_idempotent(rows: Seq<CodeRow>, code: Seq<char>)
    requires
        unique_codes(rows),
    ensures
        deleted_count(after_delete(rows, code), code) == 0,
        after_delete(after_delete(rows, code), code) == after_delete(rows, code),
{
    if has_code(rows, code) {
        let i = index_of(rows, code);
        let after = rows.remove(i);
        assert(rows[i].code == code);
        if has_code(after, code) {
            let j = choose|j: int| 0 <= j < after.len() && #[trigger] after[j].code == code;
            let j2 = if j < i { j } else { j + 1 };
            assert(after[j] == rows[j2]);
        }
    }
}

/// Counting hits one after another, at times when the share is live, adds
/// exactly one to its count per call.
pub proof fn lemma_increments_count(rows: Seq<CodeRow>, code: Seq<char>, times: Seq<i64>)
    requires
        unique_codes(rows),
        row_of(rows, code) matches Some(r) && r.hits + times.len() <= u64::MAX && (forall|k: int|
            0 <= k < times.len() ==> is_live(r, #[trigger] times[k])),
    ensures
        unique_codes(after_increments(rows, code, times)),
        row_of(after_increments(rows, code, times), code) == Some(
            CodeRow { hits: (row_of(rows, code)->0.hits + times.len()) as u64, ..row_of(rows, code)->0 },
        ),
    decreases times.len(),
{
    let r = row_of(rows, code)->0;
    if times.len() == 0 {
        assert(CodeRow { hits: (r.hits + 0) as u64, ..r } == r);
    } else {
        let prev_times = times.drop_last();
        assert forall|k: int| 0 <= k < prev_times.len() implies is_live(r, #[trigger] prev_times[k]) by {
            assert(prev_times[k] == times[k]);
        }
        lemma_increments_count(rows, code, prev_times);
        let prev = after_increments(rows, code, prev_times);
        assert(is_live(r, times[times.len() - 1]));
        lemma_increment_one(prev, code, times.last());
    }
}

/// A share created and then hit once per call, at times when it is live,
/// has a count equal to the number of calls.
pub proof fn lemma_create_then_count_hits(
    rows: Seq<CodeRow>,
    code: Seq<char>,
    path: Seq<char>,
    expiration: Option<i64>,
    times: Seq<i64>,
)
    requires
        unique_codes(rows),
        !has_code(rows, code),
        times.len() <= u64::MAX,
        forall|k: int|
            0 <= k < times.len() ==> is_live(
                CodeRow { code, path, expiration, hits: 0 },
                #[trigger] times[k],
            ),
    ensures
        row_of(after_increments(after_insert(rows, code, path, expiration), code, times), code) matches Some(r)
            && r.hits == times.len(),
{
    let created = after_insert(rows, code, path, expiration);
    lemma_insert_unique(rows, code, path, expiration);
    lemma_index_of(created, code, rows.len() as int);
    lemma_increments_count(created, code, times);
}

} // verus!
