//! Filesystem scanner.
//!
//! The scanner works on a snapshot of the storage root's direct entries
//! (the scan itself is not recursive), taken by the host process. A
//! candidate artifact is an entry whose metadata could be read and whose
//! name is a mix artifact. Each candidate's timestamp is its modification
//! time, falling back to its creation time, falling back to `0`.

use vstd::prelude::*;

use crate::paths::{copy_bytes, is_mix_artifact};

verus! {

/// Metadata of one directory entry, reduced to what the scanner reads:
/// the byte length and the two file times, in milliseconds since the
/// epoch, each absent where the filesystem could not provide it.
#[derive(Clone, Copy, Debug)]
pub struct FileMeta {
    pub size_bytes: u64,
    pub modified_ms: Option<i64>,
    pub created_ms: Option<i64>,
}

/// One direct entry of the storage root: its path and its metadata, the
/// latter absent where the stat call failed.
#[derive(Debug)]
pub struct ScanEntry {
    pub path: Vec<u8>,
    pub meta: Option<FileMeta>,
}

/// The timestamp rule: modification time, else creation time, else `0`.
pub open spec fn created_ms_of(m: FileMeta) -> i64 {
    match m.modified_ms {
        Some(t) => t,
        None => match m.created_ms {
            Some(t) => t,
            None => 0,
        },
    }
}

/// Timestamp of a file per the scanner's rule, see `created_ms_of`.
pub fn file_created_ms(meta: &FileMeta) -> (r: i64)
    ensures
        r == created_ms_of(*meta),
{
    match meta.modified_ms {
        Some(t) => t,
        None => match meta.created_ms {
            Some(t) => t,
            None => 0,
        },
    }
}

/// An entry that takes part in the selection: its metadata was readable
/// and its name is a mix artifact.
pub open spec fn is_candidate(e: ScanEntry) -> bool {
    e.meta is Some && is_mix_artifact(e.path@)
}

/// Timestamp of a candidate entry.
pub open spec fn entry_ts(e: ScanEntry) -> i64 {
    created_ms_of(e.meta->0)
}

/// Index and timestamp of the winning candidate among `entries`, walking
/// them in order: a later candidate replaces the current winner only when
/// its timestamp is strictly greater, so ties keep the earliest-encountered
/// candidate. `None` when there is no candidate at all.
pub open spec fn best_of(entries: Seq<ScanEntry>) -> Option<(int, i64)>
    decreases entries.len(),
{
    if entries.len() == 0 {
        None
    } else {
        let prev = best_of(entries.drop_last());
        let e = entries.last();
        if !is_candidate(e) {
            prev
        } else {
            match prev {
                None => Some((entries.len() - 1int, entry_ts(e))),
                Some(b) => if entry_ts(e) <= b.1 {
                    prev
                } else {
                    Some((entries.len() - 1int, entry_ts(e)))
                },
            }
        }
    }
}

/// What `best_of` picks: the first candidate whose timestamp equals the
/// maximum over all candidates. Every candidate's timestamp is at most the
/// winner's, and every earlier candidate's is strictly below it — so the
/// winner is determined by the entries alone, and two mix candidates with
/// identical timestamps resolve to the earlier-encountered one on every
/// call.
pub proof fn lemma_best_of_first_max(entries: Seq<ScanEntry>)
    ensures
        (best_of(entries) is None) == (forall|j: int|
            0 <= j < entries.len() ==> !is_candidate(#[trigger] entries[j])),
        best_of(entries) matches Some(b) ==> {
            &&& 0 <= b.0 < entries.len()
            &&& is_candidate(entries[b.0])
            &&& entry_ts(entries[b.0]) == b.1
            &&& forall|j: int|
                0 <= j < entries.len() && is_candidate(#[trigger] entries[j]) ==> entry_ts(
                    entries[j],
                ) <= b.1
            &&& forall|j: int|
                0 <= j < b.0 && is_candidate(#[trigger] entries[j]) ==> entry_ts(entries[j])
                    < b.1
        },
    decreases entries.len(),
{
    if entries.len() > 0 {
        let pre = entries.drop_last();
        let e = entries.last();
        let n = entries.len() as int;
        lemma_best_of_first_max(pre);
        assert(forall|j: int| 0 <= j < n - 1 ==> entries[j] == #[trigger] pre[j]);
        assert(entries[n - 1] == e);
        if !is_candidate(e) {
            assert(best_of(entries) == best_of(pre));
            match best_of(pre) {
                None => {
                    assert forall|j: int| 0 <= j < n implies !is_candidate(
                        #[trigger] entries[j],
                    ) by {
                        if j < n - 1 {
                            assert(entries[j] == pre[j]);
                        }
                    }
                },
                Some(b) => {
                    assert(is_candidate(entries[b.0]) && entry_ts(entries[b.0]) == b.1);
                    assert forall|j: int|
                        0 <= j < n && is_candidate(#[trigger] entries[j]) implies entry_ts(
                        entries[j],
                    ) <= b.1 by {
                        if j < n - 1 {
                            assert(entries[j] == pre[j]);
                        }
                    }
                    assert forall|j: int|
                        0 <= j < b.0 && is_candidate(#[trigger] entries[j]) implies entry_ts(
                        entries[j],
                    ) < b.1 by {
                        assert(entries[j] == pre[j]);
                    }
                },
            }
        } else {
            match best_of(pre) {
                None => {
                    assert(best_of(entries) == Some((n - 1, entry_ts(e))));
                    assert forall|j: int|
                        0 <= j < n && is_candidate(#[trigger] entries[j]) implies entry_ts(
                        entries[j],
                    ) <= entry_ts(e) by {
                        if j < n - 1 {
                            assert(entries[j] == pre[j]);
                            assert(!is_candidate(pre[j]));
                        }
                    }
                    assert forall|j: int|
                        0 <= j < n - 1 && is_candidate(#[trigger] entries[j]) implies entry_ts(
                        entries[j],
                    ) < entry_ts(e) by {
                        assert(entries[j] == pre[j]);
                        assert(!is_candidate(pre[j]));
                    }
                },
                Some(b) => {
                    if entry_ts(e) <= b.1 {
                        assert(best_of(entries) == Some(b));
                        assert forall|j: int|
                            0 <= j < n && is_candidate(#[trigger] entries[j]) implies entry_ts(
                            entries[j],
                        ) <= b.1 by {
                            if j < n - 1 {
                                assert(entries[j] == pre[j]);
                            }
                        }
                        assert forall|j: int|
                            0 <= j < b.0 && is_candidate(#[trigger] entries[j]) implies entry_ts(
                            entries[j],
                        ) < b.1 by {
                            assert(entries[j] == pre[j]);
                        }
                    } else {
                        assert(best_of(entries) == Some((n - 1, entry_ts(e))));
                        assert forall|j: int|
                            0 <= j < n && is_candidate(#[trigger] entries[j]) implies entry_ts(
                            entries[j],
                        ) <= entry_ts(e) by {
                            if j < n - 1 {
                                assert(entries[j] == pre[j]);
                            }
                        }
                        assert forall|j: int|
                            0 <= j < n - 1 && is_candidate(#[trigger] entries[j]) implies entry_ts(
                            entries[j],
                        ) < entry_ts(e) by {
                            assert(entries[j] == pre[j]);
                        }
                    }
                },
            }
        }
    }
}

/// Index of the most recently produced mix artifact among `entries`, or
/// `None` where no entry qualifies. Ties keep the earliest-encountered
/// candidate, see `best_of`.
pub fn find_latest_mix_index(entries: &Vec<ScanEntry>) -> (r: Option<usize>)
    ensures
        r is None ==> best_of(entries@) is None,
        r matches Some(i) ==> best_of(entries@) matches Some(b) && b.0 == i as int
            && 0 <= b.0 < entries@.len(),
{
    let n: usize = entries.len();
    let mut best_idx: usize = 0;
    let mut best_ts: i64 = 0;
    let mut found: bool = false;
    let mut i: usize = 0;
    while i < n
        invariant
            n == entries@.len(),
            0 <= i <= n,
            !found ==> best_of(entries@.subrange(0, i as int)) is None,
            found ==> best_idx < i && best_of(entries@.subrange(0, i as int)) == Some::<
                (int, i64),
            >((best_idx as int, best_ts)),
        decreases n - i,
    {
        let prefix_snap: Ghost<Seq<ScanEntry>> = Ghost(entries@.subrange(0, i as int));
        let e = &entries[i];
        let candidate = match &e.meta {
            Some(_) => crate::paths::is_mix_path(e.path.as_slice()),
            None => false,
        };
        if candidate {
            let meta = match &e.meta {
                Some(m) => *m,
                None => FileMeta { size_bytes: 0, modified_ms: None, created_ms: None },
            };
            let ts = file_created_ms(&meta);
            if !found || ts > best_ts {
                best_idx = i;
                best_ts = ts;
                found = true;
            }
        }
        proof {
            let ext = entries@.subrange(0, i + 1);
            assert(ext.drop_last() =~= prefix_snap@);
            assert(ext.last() == entries@[i as int]);
        }
        i = i + 1;
    }
    proof {
        assert(entries@.subrange(0, n as int) =~= entries@);
    }
    if found {
        Some(best_idx)
    } else {
        None
    }
}

/// Path of the most recently produced mix artifact among `entries`, or
/// `None` where no entry qualifies, see `find_latest_mix_index`.
pub fn find_latest_mix_file(entries: &Vec<ScanEntry>) -> (r: Option<Vec<u8>>)
    ensures
        r is None ==> best_of(entries@) is None,
        r matches Some(p) ==> best_of(entries@) matches Some(b) && 0 <= b.0 < entries@.len()
            && p@ == entries@[b.0].path@,
{
    match find_latest_mix_index(entries) {
        None => None,
        Some(i) => Some(copy_bytes(entries[i].path.as_slice())),
    }
}

} // verus!
