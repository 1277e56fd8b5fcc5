//! Recording catalog: the durable index of completed sessions.
//!
//! The catalog owns uniqueness, ordering and reconciliation: one row per
//! mix artifact, keyed by its path; re-inserting an existing path is a
//! silent no-op, never an error; listing orders rows by capture timestamp,
//! most recent first, ties broken by insertion order. The host process
//! mirrors every change into the backing store file; the logic here is
//! what that store is required to behave like.

use vstd::prelude::*;
use vstd::seq_lib::group_seq_properties;
use vstd::seq_lib::group_to_multiset_ensures;

use crate::paths::{copy_bytes, file_name, file_name_of};
use crate::scanner::{created_ms_of, file_created_ms, is_candidate, ScanEntry};

verus! {

broadcast use group_seq_properties, group_to_multiset_ensures;

/// One catalog row, keyed by `file_path`.
#[derive(Debug)]
pub struct RecordingRow {
    /// Surrogate key, assigned by the catalog in insertion order.
    pub id: i64,
    /// Display name; defaults to the mix file's name.
    pub name: Vec<u8>,
    /// Absolute path of the mix artifact; unique across all rows.
    pub file_path: Vec<u8>,
    /// Byte length of the artifact at insertion time.
    pub file_size_bytes: i64,
    /// Capture completion timestamp, milliseconds since the epoch.
    pub created_at_ms: i64,
}

/// The mathematical shadow of a row.
pub ghost struct RowModel {
    pub id: int,
    pub name: Seq<u8>,
    pub file_path: Seq<u8>,
    pub file_size_bytes: int,
    pub created_at_ms: int,
}

impl View for RecordingRow {
    type V = RowModel;

    open spec fn view(&self) -> RowModel {
        RowModel {
            id: self.id as int,
            name: self.name@,
            file_path: self.file_path@,
            file_size_bytes: self.file_size_bytes as int,
            created_at_ms: self.created_at_ms as int,
        }
    }
}

/// The models of a sequence of rows, in order.
pub open spec fn rows_view(rows: Seq<RecordingRow>) -> Seq<RowModel> {
    rows.map_values(|r: RecordingRow| r@)
}

/// Some row of `rows` has `path` as its file path.
pub open spec fn contains_path(rows: Seq<RowModel>, path: Seq<u8>) -> bool {
    exists|i: int| 0 <= i < rows.len() && rows[i].file_path == path
}

/// No two rows of `rows` share a file path.
pub open spec fn paths_unique(rows: Seq<RowModel>) -> bool {
    forall|i: int, j: int|
        0 <= i < j < rows.len() ==> (#[trigger] rows[i]).file_path != (#[trigger] rows[j]).file_path
}

/// What inserting a row does to the catalog's contents: nothing when the
/// path is already present, else one appended row carrying the given id.
pub open spec fn insert_result(
    rows: Seq<RowModel>,
    id: int,
    name: Seq<u8>,
    path: Seq<u8>,
    size: int,
    ts: int,
) -> Seq<RowModel> {
    if contains_path(rows, path) {
        rows
    } else {
        rows.push(
            RowModel { id: id, name: name, file_path: path, file_size_bytes: size, created_at_ms: ts },
        )
    }
}

/// Keep the rows whose path differs from `path`.
pub open spec fn path_differs(path: Seq<u8>) -> spec_fn(RowModel) -> bool {
    |r: RowModel| r.file_path != path
}

/// `a` strictly precedes `b` in the listing order: strictly newer, or as
/// new and inserted earlier (smaller id).
pub open spec fn row_before(a: RowModel, b: RowModel) -> bool {
    a.created_at_ms > b.created_at_ms || (a.created_at_ms == b.created_at_ms && a.id < b.id)
}

/// `x` placed into `s` right before the first element it strictly
/// precedes.
pub open spec fn insert_sorted(x: RowModel, s: Seq<RowModel>) -> Seq<RowModel>
    decreases s.len(),
{
    if s.len() == 0 {
        seq![x]
    } else if row_before(x, s[0]) {
        seq![x] + s
    } else {
        seq![s[0]] + insert_sorted(x, s.drop_first())
    }
}

/// The rows of `s` in listing order: newest first, ties broken by
/// insertion order. A stable insertion sort of `s` under `row_before`.
pub open spec fn sorted_rows(s: Seq<RowModel>) -> Seq<RowModel>
    decreases s.len(),
{
    if s.len() == 0 {
        s
    } else {
        insert_sorted(s.last(), sorted_rows(s.drop_last()))
    }
}

/// The catalog: rows in insertion order, plus the next surrogate key.
pub struct Catalog {
    rows: Vec<RecordingRow>,
    next_id: i64,
}

impl View for Catalog {
    type V = Seq<RowModel>;

    closed spec fn view(&self) -> Seq<RowModel> {
        rows_view(self.rows@)
    }
}

/// Why a store operation failed.
#[derive(Clone, Copy, Debug, PartialEq, Eq, Structural)]
pub enum StoreError {
    /// The file's metadata could not be read, so no row can be derived.
    MissingMetadata,
}

impl Catalog {
    /// The key the next inserted row will receive.
    pub closed spec fn next_row_id(&self) -> int {
        self.next_id as int
    }

    /// Catalog well-formedness: keys grow with insertion order and stay
    /// below `next_row_id`, and no two rows share a file path.
    pub closed spec fn wf(&self) -> bool {
        &&& 1 <= self.next_id
        &&& self.rows@.len() < self.next_id
        &&& forall|i: int, j: int|
            0 <= i < j < self.rows@.len() ==> (#[trigger] self.rows@[i])@.id < (
            #[trigger] self.rows@[j])@.id
        &&& forall|i: int|
            0 <= i < self.rows@.len() ==> 1 <= (#[trigger] self.rows@[i])@.id < self.next_id
        &&& paths_unique(self@)
    }

    /// A fresh, empty catalog.
    pub fn new() -> (c: Catalog)
        ensures
            c.wf(),
            c@ == Seq::<RowModel>::empty(),
            c.next_row_id() == 1,
    {
        let c = Catalog { rows: Vec::new(), next_id: 1 };
        proof {
            assert(c@ =~= Seq::<RowModel>::empty());
        }
        c
    }

    /// Index of the row holding `path`, if any.
    fn index_of_path(&self, path: &[u8]) -> (r: Option<usize>)
        ensures
            match r {
                Some(i) => 0 <= i < self@.len() && self@[i as int].file_path == path@,
                None => !contains_path(self@, path@),
            },
    {
        let n: usize = self.rows.len();
        let mut i: usize = 0;
        while i < n
            invariant
                n == self.rows@.len(),
                self@ == rows_view(self.rows@),
                0 <= i <= n,
                forall|j: int| 0 <= j < i ==> (#[trigger] self@[j]).file_path != path@,
            decreases n - i,
        {
            if crate::paths::bytes_eq(self.rows[i].file_path.as_slice(), path) {
                return Some(i);
            }
            i = i + 1;
        }
        None
    }

    /// Whether the store can still assign `more` fresh surrogate keys.
    /// The key space is a machine limit of the store; callers probe it
    /// before inserting.
    pub fn has_id_headroom(&self, more: i64) -> (r: bool)
        requires
            self.wf(),
            more >= 0,
        ensures
            r == (self.next_row_id() + more <= i64::MAX),
    {
        self.next_id <= i64::MAX - more
    }

    /// Number of rows.
    pub fn count(&self) -> (r: i64)
        requires
            self.wf(),
        ensures
            r == self@.len(),
    {
        self.rows.len() as i64
    }

    /// Insert a row for `file_path`. A silent no-op when a row with that
    /// path already exists, never an error. The surrogate key space is the
    /// store's machine limit: the caller keeps headroom for one more key.
    pub fn insert_recording(
        &mut self,
        name: &[u8],
        file_path: &[u8],
        file_size_bytes: i64,
        created_at_ms: i64,
    )
        requires
            old(self).wf(),
            old(self).next_row_id() < i64::MAX,
        ensures
            final(self).wf(),
            final(self)@ == insert_result(
                old(self)@,
                old(self).next_row_id(),
                name@,
                file_path@,
                file_size_bytes as int,
                created_at_ms as int,
            ),
            contains_path(final(self)@, file_path@),
            final(self).next_row_id() == old(self).next_row_id() + (
            if contains_path(old(self)@, file_path@) {
                0int
            } else {
                1int
            }),
    {
        match self.index_of_path(file_path) {
            Some(i) => {
                proof {
                    assert(self@[i as int].file_path == file_path@);
                }
            },
            None => {
                let row = RecordingRow {
                    id: self.next_id,
                    name: copy_bytes(name),
                    file_path: copy_bytes(file_path),
                    file_size_bytes: file_size_bytes,
                    created_at_ms: created_at_ms,
                };
                self.rows.push(row);
                self.next_id = self.next_id + 1;
                proof {
                    assert(self@[self@.len() - 1].file_path == file_path@);
                    assert(self@ =~= old(self)@.push(
                        RowModel {
                            id: old(self).next_row_id(),
                            name: name@,
                            file_path: file_path@,
                            file_size_bytes: file_size_bytes as int,
                            created_at_ms: created_at_ms as int,
                        },
                    ));
                    let rows = self@;
                    let n = rows.len() as int;
                    assert forall|i: int, j: int| 0 <= i < j < n implies (
                    #[trigger] rows[i]).file_path != (#[trigger] rows[j]).file_path by {
                        if j == n - 1 {
                            assert(!contains_path(old(self)@, file_path@));
                            assert(old(self)@[i].file_path != file_path@);
                        }
                    }
                }
            },
        }
    }

    /// Remove the row whose `file_path` equals `path` exactly, if one
    /// exists; by path uniqueness there is at most one. No
    /// canonicalization happens here: callers pass the canonical form.
    pub fn delete_by_path(&mut self, path: &[u8])
        requires
            old(self).wf(),
        ensures
            final(self).wf(),
            final(self)@ == old(self)@.filter(path_differs(path@)),
            !contains_path(final(self)@, path@),
            final(self).next_row_id() == old(self).next_row_id(),
    {
        match self.index_of_path(path) {
            None => {
                proof {
                    lemma_filter_keeps_all(self@, path@);
                }
            },
            Some(i) => {
                proof {
                    lemma_filter_removes_one(self@, path@, i as int);
                }
                self.rows.remove(i);
                proof {
                    assert(self@ =~= old(self)@.remove(i as int));
                    let rows = self@;
                    let oldr = old(self)@;
                    let ii = i as int;
                    assert forall|a: int, b: int| 0 <= a < b < rows.len() implies (
                    #[trigger] rows[a]).file_path != (#[trigger] rows[b]).file_path by {
                        let a0 = if a < ii { a } else { a + 1 };
                        let b0 = if b < ii { b } else { b + 1 };
                        assert(rows[a] == oldr[a0] && rows[b] == oldr[b0]);
                    }
                    assert forall|a: int, b: int|
                        0 <= a < b < rows.len() implies (#[trigger] rows[a]).id < (
                    #[trigger] rows[b]).id by {
                        let a0 = if a < ii { a } else { a + 1 };
                        let b0 = if b < ii { b } else { b + 1 };
                        assert(rows[a] == oldr[a0] && rows[b] == oldr[b0]);
                    }
                    assert forall|k: int| 0 <= k < rows.len() implies !(
                    (#[trigger] rows[k]).file_path == path@) by {
                        let k0 = if k < ii { k } else { k + 1 };
                        assert(rows[k] == oldr[k0]);
                    }
                }
            },
        }
    }

    /// All rows, ordered by `created_at_ms` descending, ties broken by
    /// insertion order.
    pub fn list(&self) -> (r: Vec<RecordingRow>)
        requires
            self.wf(),
        ensures
            rows_view(r@) == sorted_rows(self@),
    {
        let n: usize = self.rows.len();
        let mut out: Vec<RecordingRow> = Vec::new();
        let mut i: usize = 0;
        proof {
            assert(self@.subrange(0, 0) =~= Seq::<RowModel>::empty());
            assert(rows_view(out@) =~= Seq::<RowModel>::empty());
        }
        while i < n
            invariant
                n == self.rows@.len(),
                self@ == rows_view(self.rows@),
                0 <= i <= n,
                rows_view(out@) == sorted_rows(self@.subrange(0, i as int)),
                out@.len() == i,
            decreases n - i,
        {
            let row = clone_row(&self.rows[i]);
            let mut j: usize = 0;
            while j < out.len() && !row_before_exec(&row, &out[j])
                invariant
                    row@ == self.rows@[i as int]@,
                    0 <= j <= out@.len(),
                    forall|k: int| 0 <= k < j ==> !row_before(row@, rows_view(out@)[k]),
                decreases out@.len() - j,
            {
                j = j + 1;
            }
            proof {
                lemma_insert_sorted_position(row@, rows_view(out@), j as int);
                let ext = self@.subrange(0, i + 1);
                assert(ext.drop_last() =~= self@.subrange(0, i as int));
                assert(ext.last() == self@[i as int]);
                assert(self@[i as int] == row@);
            }
            let ghost pre = rows_view(out@);
            out.insert(j, row);
            proof {
                assert(rows_view(out@) =~= pre.insert(j as int, row@));
            }
            i = i + 1;
        }
        proof {
            assert(self@.subrange(0, n as int) =~= self@);
        }
        out
    }

    /// Insert a row derived from a scanned entry: the name is the file's
    /// name, the size saturates into the store's integer, the timestamp
    /// follows the scanner's rule. Fails, changing nothing, exactly when
    /// the entry's metadata could not be read.
    pub fn insert_recording_from_path(&mut self, entry: &ScanEntry) -> (r: Result<(), StoreError>)
        requires
            old(self).wf(),
            old(self).next_row_id() < i64::MAX,
        ensures
            final(self).wf(),
            entry.meta is None ==> r == Err::<(), StoreError>(StoreError::MissingMetadata)
                && final(self)@ == old(self)@ && final(self).next_row_id() == old(
                self,
            ).next_row_id(),
            entry.meta is Some ==> r == Ok::<(), StoreError>(()) && final(self)@ == insert_result(
                old(self)@,
                old(self).next_row_id(),
                file_name(entry.path@),
                entry.path@,
                size_to_i64(entry.meta->0.size_bytes) as int,
                created_ms_of(entry.meta->0) as int,
            ) && final(self).next_row_id() == old(self).next_row_id() + (
            if contains_path(old(self)@, entry.path@) {
                0int
            } else {
                1int
            }),
    {
        match &entry.meta {
            None => Err(StoreError::MissingMetadata),
            Some(meta) => {
                let name = file_name_of(entry.path.as_slice());
                let size: i64 = if meta.size_bytes > i64::MAX as u64 {
                    i64::MAX
                } else {
                    meta.size_bytes as i64
                };
                let ts = file_created_ms(meta);
                self.insert_recording(name.as_slice(), entry.path.as_slice(), size, ts);
                Ok(())
            },
        }
    }

    /// Bulk reconciliation: when — and only when — the catalog is empty,
    /// insert a row for every candidate mix artifact among the scanned
    /// entries. Self-healing after the catalog has been reset while
    /// artifacts persisted on disk; a no-op on a non-empty catalog.
    pub fn seed_if_empty(&mut self, entries: &Vec<ScanEntry>)
        requires
            old(self).wf(),
            old(self).next_row_id() + entries@.len() <= i64::MAX,
        ensures
            final(self).wf(),
            old(self)@.len() > 0 ==> final(self)@ == old(self)@ && final(self).next_row_id()
                == old(self).next_row_id(),
            old(self)@.len() == 0 ==> (final(self)@, final(self).next_row_id()) == seed_fold(
                old(self)@,
                old(self).next_row_id(),
                entries@,
            ),
    {
        if self.count() > 0 {
            return;
        }
        let n: usize = entries.len();
        let mut i: usize = 0;
        proof {
            assert(entries@.subrange(0, 0) =~= Seq::<ScanEntry>::empty());
        }
        while i < n
            invariant
                n == entries@.len(),
                0 <= i <= n,
                self.wf(),
                (self@, self.next_row_id()) == seed_fold(
                    old(self)@,
                    old(self).next_row_id(),
                    entries@.subrange(0, i as int),
                ),
                self.next_row_id() <= old(self).next_row_id() + i,
                old(self).next_row_id() + n <= i64::MAX,
            decreases n - i,
        {
            let e = &entries[i];
            if crate::paths::is_mix_path(e.path.as_slice()) {
                match &e.meta {
                    Some(_) => {
                        let _ = self.insert_recording_from_path(e);
                    },
                    None => {},
                }
            }
            proof {
                let ext = entries@.subrange(0, i + 1);
                assert(ext.drop_last() =~= entries@.subrange(0, i as int));
                assert(ext.last() == entries@[i as int]);
            }
            i = i + 1;
        }
        proof {
            assert(entries@.subrange(0, n as int) =~= entries@);
        }
    }
}

/// What reconciling one scanned entry does: a candidate is inserted under
/// the catalog's insert rule, anything else changes nothing.
pub open spec fn seed_step(rows: Seq<RowModel>, next_id: int, e: ScanEntry) -> (Seq<RowModel>, int) {
    if is_candidate(e) {
        (
            insert_result(
                rows,
                next_id,
                file_name(e.path@),
                e.path@,
                size_to_i64(e.meta->0.size_bytes) as int,
                created_ms_of(e.meta->0) as int,
            ),
            if contains_path(rows, e.path@) {
                next_id
            } else {
                next_id + 1
            },
        )
    } else {
        (rows, next_id)
    }
}

/// Reconciling the scanned entries in order, see `seed_step`.
pub open spec fn seed_fold(
    rows: Seq<RowModel>,
    next_id: int,
    entries: Seq<ScanEntry>,
) -> (Seq<RowModel>, int)
    decreases entries.len(),
{
    if entries.len() == 0 {
        (rows, next_id)
    } else {
        let p = seed_fold(rows, next_id, entries.drop_last());
        seed_step(p.0, p.1, entries.last())
    }
}

/// A file length saturated into the store's signed integer.
pub open spec fn size_to_i64(n: u64) -> i64 {
    if n <= i64::MAX as u64 {
        n as i64
    } else {
        i64::MAX
    }
}

/// `a` in listing order before `b`, see `row_before`.
pub fn row_before_exec(a: &RecordingRow, b: &RecordingRow) -> (r: bool)
    ensures
        r == row_before(a@, b@),
{
    a.created_at_ms > b.created_at_ms || (a.created_at_ms == b.created_at_ms && a.id < b.id)
}

/// A fresh copy of a row.
fn clone_row(r: &RecordingRow) -> (c: RecordingRow)
    ensures
        c@ == r@,
{
    RecordingRow {
        id: r.id,
        name: copy_bytes(r.name.as_slice()),
        file_path: copy_bytes(r.file_path.as_slice()),
        file_size_bytes: r.file_size_bytes,
        created_at_ms: r.created_at_ms,
    }
}

/// Filtering away a path that no row holds keeps every row.
proof fn lemma_filter_keeps_all(rows: Seq<RowModel>, path: Seq<u8>)
    requires
        !contains_path(rows, path),
    ensures
        rows.filter(path_differs(path)) == rows,
    decreases rows.len(),
{
    reveal(Seq::filter);
    if rows.len() > 0 {
        assert(!contains_path(rows.drop_last(), path)) by {
            assert(forall|i: int|
                0 <= i < rows.len() - 1 ==> #[trigger] rows.drop_last()[i] == rows[i]);
        }
        lemma_filter_keeps_all(rows.drop_last(), path);
        assert(rows[rows.len() - 1].file_path != path);
        assert(rows.drop_last().push(rows.last()) =~= rows);
    } else {
        assert(rows.filter(path_differs(path)) =~= rows);
    }
}

/// Filtering away the one path held only by the row at `i` removes
/// exactly that row.
proof fn lemma_filter_removes_one(rows: Seq<RowModel>, path: Seq<u8>, i: int)
    requires
        0 <= i < rows.len(),
        rows[i].file_path == path,
        forall|j: int| 0 <= j < rows.len() && j != i ==> (#[trigger] rows[j]).file_path != path,
    ensures
        rows.filter(path_differs(path)) == rows.remove(i),
{
    let pred = path_differs(path);
    let front = rows.subrange(0, i);
    let one = rows.subrange(i, i + 1);
    let back = rows.subrange(i + 1, rows.len() as int);
    assert(rows =~= front + one + back);
    Seq::filter_distributes_over_add(front + one, back, pred);
    Seq::filter_distributes_over_add(front, one, pred);
    assert(!contains_path(front, path));
    lemma_filter_keeps_all(front, path);
    assert(!contains_path(back, path)) by {
        assert(forall|j: int|
            0 <= j < back.len() ==> #[trigger] back[j] == rows[j + i + 1]);
    }
    lemma_filter_keeps_all(back, path);
    assert(one.filter(pred) =~= Seq::<RowModel>::empty()) by {
        reveal_with_fuel(Seq::filter, 3);
        assert(one.drop_last() =~= Seq::<RowModel>::empty());
        assert(one.drop_last().filter(pred) =~= Seq::<RowModel>::empty());
        assert(!pred(one.last()));
    }
    assert(rows.filter(pred) == (front + one).filter(pred) + back.filter(pred));
    assert(rows.filter(pred) =~= front + back);
    assert(rows.remove(i) =~= front + back);
}

/// `s` is in listing order: no later row strictly precedes an earlier
/// one, so timestamps fall and ties keep ascending ids.
pub open spec fn rows_ordered(s: Seq<RowModel>) -> bool {
    forall|i: int, j: int|
        0 <= i < j < s.len() ==> !row_before(#[trigger] s[j], #[trigger] s[i])
}

/// The position `insert_sorted` gives `x` in `s`.
pub open spec fn insert_position(x: RowModel, s: Seq<RowModel>) -> int
    decreases s.len(),
{
    if s.len() == 0 {
        0
    } else if row_before(x, s[0]) {
        0
    } else {
        1 + insert_position(x, s.drop_first())
    }
}

/// `insert_sorted` drops `x` at the first position whose element `x`
/// strictly precedes, leaving everything else in place.
proof fn lemma_insert_position_props(x: RowModel, s: Seq<RowModel>)
    ensures
        0 <= insert_position(x, s) <= s.len(),
        forall|k: int| 0 <= k < insert_position(x, s) ==> !row_before(x, #[trigger] s[k]),
        insert_position(x, s) < s.len() ==> row_before(x, s[insert_position(x, s)]),
        insert_sorted(x, s) == s.insert(insert_position(x, s), x),
    decreases s.len(),
{
    let j = insert_position(x, s);
    if s.len() == 0 {
        assert(s.insert(0, x) =~= seq![x]);
    } else if row_before(x, s[0]) {
        assert(s.insert(0, x) =~= seq![x] + s);
    } else {
        let rest = s.drop_first();
        lemma_insert_position_props(x, rest);
        assert(forall|k: int| 0 <= k < rest.len() ==> #[trigger] rest[k] == s[k + 1]);
        assert forall|k: int| 0 <= k < j implies !row_before(x, #[trigger] s[k]) by {
            if k > 0 {
                assert(rest[k - 1] == s[k]);
                assert(!row_before(x, rest[k - 1]));
            }
        }
        assert(seq![s[0]] + rest.insert(j - 1, x) =~= s.insert(j, x));
    }
}

/// Inserting into an ordered sequence keeps it ordered, grows it by one,
/// and adds exactly `x` to its contents.
proof fn lemma_insert_sorted_ordered(x: RowModel, s: Seq<RowModel>)
    requires
        rows_ordered(s),
    ensures
        insert_sorted(x, s).len() == s.len() + 1,
        insert_sorted(x, s).to_multiset() == s.to_multiset().insert(x),
        rows_ordered(insert_sorted(x, s)),
{
    lemma_insert_position_props(x, s);
    let j = insert_position(x, s);
    let out = s.insert(j, x);
    assert forall|a: int, b: int| 0 <= a < b < out.len() implies !row_before(
        #[trigger] out[b],
        #[trigger] out[a],
    ) by {
        if a == j && b > j {
            assert(out[b] == s[b - 1]);
            if j < s.len() {
                assert(row_before(x, s[j]));
                if b - 1 > j {
                    assert(!row_before(s[b - 1], s[j]));
                }
            }
        } else if b == j && a < j {
            assert(out[a] == s[a]);
            assert(!row_before(x, s[a]));
        } else if a != j && b != j {
            let a0 = if a < j { a } else { a - 1 };
            let b0 = if b < j { b } else { b - 1 };
            assert(out[a] == s[a0] && out[b] == s[b0]);
        }
    }
}

/// Law: the listing order. `sorted_rows` keeps exactly the catalog's rows
/// — same length, same multiset of rows — and orders them by
/// `created_at_ms` descending, rows of equal timestamp by ascending id,
/// that is, in insertion order.
pub proof fn lemma_sorted_rows_ordered(s: Seq<RowModel>)
    ensures
        sorted_rows(s).len() == s.len(),
        sorted_rows(s).to_multiset() == s.to_multiset(),
        rows_ordered(sorted_rows(s)),
        forall|i: int, j: int|
            0 <= i < j < s.len() ==> (#[trigger] sorted_rows(s)[i]).created_at_ms >= (
            #[trigger] sorted_rows(s)[j]).created_at_ms,
    decreases s.len(),
{
    if s.len() > 0 {
        lemma_sorted_rows_ordered(s.drop_last());
        lemma_insert_sorted_ordered(s.last(), sorted_rows(s.drop_last()));
        assert(s.drop_last().push(s.last()) =~= s);
    }
}

/// Law: idempotent insert. After inserting `path`, the catalog holds a
/// row with it; inserting `path` again — whatever key, name, size or
/// timestamp would come with the second insert — changes nothing; and
/// path uniqueness is kept, so exactly one row holds `path`: at least one
/// row because it is present, at most one because paths stay unique.
pub proof fn lemma_insert_idempotent(
    rows: Seq<RowModel>,
    id: int,
    name: Seq<u8>,
    path: Seq<u8>,
    size: int,
    ts: int,
    id2: int,
    name2: Seq<u8>,
    size2: int,
    ts2: int,
)
    requires
        paths_unique(rows),
    ensures
        contains_path(insert_result(rows, id, name, path, size, ts), path),
        insert_result(
            insert_result(rows, id, name, path, size, ts),
            id2,
            name2,
            path,
            size2,
            ts2,
        ) == insert_result(rows, id, name, path, size, ts),
        paths_unique(insert_result(rows, id, name, path, size, ts)),
{
    let r1 = insert_result(rows, id, name, path, size, ts);
    if !contains_path(rows, path) {
        assert(r1[r1.len() - 1].file_path == path);
        assert forall|i: int, j: int| 0 <= i < j < r1.len() implies (
        #[trigger] r1[i]).file_path != (#[trigger] r1[j]).file_path by {
            if j == r1.len() - 1 {
                assert(rows[i].file_path != path);
            }
        }
    }
    assert(contains_path(r1, path));
}

/// Law: bulk reconciliation fills an empty catalog completely. Folding
/// candidate entries with pairwise distinct paths over an empty catalog
/// inserts one row per entry, and the rows' paths are exactly the
/// entries' paths.
pub proof fn lemma_seed_fold_count(entries: Seq<ScanEntry>, next_id: int)
    requires
        forall|i: int| 0 <= i < entries.len() ==> is_candidate(#[trigger] entries[i]),
        forall|i: int, j: int|
            0 <= i < j < entries.len() ==> (#[trigger] entries[i]).path@ != (
            #[trigger] entries[j]).path@,
    ensures
        seed_fold(Seq::<RowModel>::empty(), next_id, entries).0.len() == entries.len(),
        forall|q: Seq<u8>|
            #[trigger] contains_path(seed_fold(Seq::<RowModel>::empty(), next_id, entries).0, q)
                <==> exists|k: int|
                0 <= k < entries.len() && (#[trigger] entries[k]).path@ == q,
    decreases entries.len(),
{
    let fold = seed_fold(Seq::<RowModel>::empty(), next_id, entries);
    if entries.len() == 0 {
        assert forall|q: Seq<u8>| !(#[trigger] contains_path(fold.0, q)) by {}
    } else {
        let pre = entries.drop_last();
        let e = entries.last();
        assert(forall|i: int| 0 <= i < pre.len() ==> #[trigger] pre[i] == entries[i]);
        lemma_seed_fold_count(pre, next_id);
        let pf = seed_fold(Seq::<RowModel>::empty(), next_id, pre);
        assert(!contains_path(pf.0, e.path@)) by {
            if contains_path(pf.0, e.path@) {
                let k = choose|k: int| 0 <= k < pre.len() && (#[trigger] pre[k]).path@ == e.path@;
                assert(entries[k].path@ == entries[entries.len() - 1].path@);
            }
        }
        assert(fold.0 == pf.0.push(
            RowModel {
                id: pf.1,
                name: file_name(e.path@),
                file_path: e.path@,
                file_size_bytes: size_to_i64(e.meta->0.size_bytes) as int,
                created_at_ms: created_ms_of(e.meta->0) as int,
            },
        ));
        assert forall|q: Seq<u8>| #[trigger] contains_path(fold.0, q) implies exists|k: int|
            0 <= k < entries.len() && (#[trigger] entries[k]).path@ == q by {
            let m = choose|m: int| 0 <= m < fold.0.len() && fold.0[m].file_path == q;
            if m < fold.0.len() - 1 {
                assert(contains_path(pf.0, q));
                let k = choose|k: int| 0 <= k < pre.len() && (#[trigger] pre[k]).path@ == q;
                assert(entries[k].path@ == q);
            } else {
                assert(entries[entries.len() - 1].path@ == q);
            }
        }
        assert forall|q: Seq<u8>| (exists|k: int|
            0 <= k < entries.len() && (#[trigger] entries[k]).path@ == q) implies #[trigger] contains_path(
            fold.0,
            q,
        ) by {
            let k = choose|k: int| 0 <= k < entries.len() && (#[trigger] entries[k]).path@ == q;
            if k < entries.len() - 1 {
                assert(pre[k].path@ == q);
                assert(contains_path(pf.0, q));
                let m = choose|m: int| 0 <= m < pf.0.len() && pf.0[m].file_path == q;
                assert(fold.0[m].file_path == q);
            } else {
                assert(fold.0[fold.0.len() - 1].file_path == q);
            }
        }
    }
}

/// `insert_sorted` places `x` at the first position whose element it
/// strictly precedes.
proof fn lemma_insert_sorted_position(x: RowModel, s: Seq<RowModel>, j: int)
    requires
        0 <= j <= s.len(),
        forall|k: int| 0 <= k < j ==> !row_before(x, #[trigger] s[k]),
        j < s.len() ==> row_before(x, s[j]),
    ensures
        insert_sorted(x, s) == s.insert(j, x),
    decreases s.len(),
{
    if s.len() == 0 {
        assert(s.insert(0, x) =~= seq![x]);
    } else if row_before(x, s[0]) {
        assert(j == 0);
        assert(s.insert(0, x) =~= seq![x] + s);
    } else {
        assert(j >= 1);
        let rest = s.drop_first();
        assert(forall|k: int| 0 <= k < j - 1 ==> #[trigger] rest[k] == s[k + 1]);
        lemma_insert_sorted_position(x, rest, j - 1);
        assert(seq![s[0]] + rest.insert(j - 1, x) =~= s.insert(j, x));
    }
}

} // verus!
