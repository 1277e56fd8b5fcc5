//! Recording services: listing for display, and deletion of a session's
//! artifacts.
//!
//! Deletion works on whole sessions: from any one sibling artifact the
//! three sibling paths are derived and handed back for removal, and the
//! catalog row of the mix artifact — the only catalog-visible sibling —
//! is removed.

use vstd::prelude::*;

use crate::catalog::{path_differs, sorted_rows, Catalog, RowModel};
use crate::paths::{
    copy_bytes, copy_range, ends_with, file_name, file_name_of, last_sep, lemma_last_sep,
    mic_suffix, mic_suffix_vec, mix_suffix, mix_suffix_vec, push_all, rfind_sep,
    slice_ends_with, wav_suffix, wav_suffix_vec,
};
use crate::sandbox::{authorize, is_strictly_under, AccessError};

verus! {

/// One recording as shown to a client: its path, its display name, its
/// capture timestamp.
#[derive(Debug)]
pub struct RecordingItem {
    pub path: Vec<u8>,
    pub file_name: Vec<u8>,
    pub created_at_ms: i64,
}

/// The mathematical shadow of a listed recording.
pub ghost struct ItemModel {
    pub path: Seq<u8>,
    pub file_name: Seq<u8>,
    pub created_at_ms: int,
}

impl View for RecordingItem {
    type V = ItemModel;

    open spec fn view(&self) -> ItemModel {
        ItemModel {
            path: self.path@,
            file_name: self.file_name@,
            created_at_ms: self.created_at_ms as int,
        }
    }
}

/// The item shown for one catalog row.
pub open spec fn item_of(r: RowModel) -> ItemModel {
    ItemModel { path: r.file_path, file_name: r.name, created_at_ms: r.created_at_ms }
}

/// The models of a sequence of items, in order.
pub open spec fn items_view(items: Seq<RecordingItem>) -> Seq<ItemModel> {
    items.map_values(|it: RecordingItem| it@)
}

/// The items shown for a sequence of rows, in order.
pub open spec fn items_of(rows: Seq<RowModel>) -> Seq<ItemModel> {
    rows.map_values(|r: RowModel| item_of(r))
}

/// All recordings, in listing order: `created_at_ms` descending, ties in
/// insertion order.
pub fn list_recordings(cat: &Catalog) -> (r: Vec<RecordingItem>)
    requires
        cat.wf(),
    ensures
        items_view(r@) == items_of(sorted_rows(cat@)),
{
    let rows = cat.list();
    let n: usize = rows.len();
    let mut out: Vec<RecordingItem> = Vec::new();
    let mut i: usize = 0;
    while i < n
        invariant
            n == rows@.len(),
            crate::catalog::rows_view(rows@) == sorted_rows(cat@),
            0 <= i <= n,
            out@.len() == i,
            items_view(out@) == items_of(sorted_rows(cat@)).subrange(0, i as int),
        decreases n - i,
    {
        let row = &rows[i];
        let item = RecordingItem {
            path: copy_bytes(row.file_path.as_slice()),
            file_name: copy_bytes(row.name.as_slice()),
            created_at_ms: row.created_at_ms,
        };
        proof {
            assert(*row == rows@[i as int]);
            assert(item@ == item_of(rows@[i as int]@));
        }
        let ghost prev_out = out@;
        out.push(item);
        proof {
            let s = sorted_rows(cat@);
            assert(crate::catalog::rows_view(rows@)[i as int] == rows@[i as int]@);
            assert(s[i as int] == rows@[i as int]@);
            assert(out@ == prev_out.push(item));
            assert(prev_out.len() == i);
            assert forall|k: int| 0 <= k < i + 1 implies items_view(out@)[k] == items_of(
                s,
            ).subrange(0, i + 1)[k] by {
                if k < i {
                    assert(out@[k] == prev_out[k]);
                    assert(items_view(prev_out)[k] == items_of(s).subrange(0, i as int)[k]);
                } else {
                    assert(out@[k] == item);
                    assert(item@ == item_of(s[k]));
                }
            }
            assert(items_view(out@) =~= items_of(s).subrange(0, i + 1));
        }
        i = i + 1;
    }
    proof {
        assert(items_of(sorted_rows(cat@)).subrange(0, n as int) =~= items_of(sorted_rows(cat@)));
    }
    out
}

/// The three sibling artifact paths of one session, ready for removal.
#[derive(Debug)]
pub struct DeletePlan {
    /// `<stem>.wav`, the primary track.
    pub app_path: Vec<u8>,
    /// `<stem>-mic.wav`, the microphone track.
    pub mic_path: Vec<u8>,
    /// `<stem>-mix.wav`, the mixed track; the catalog-visible sibling.
    pub mix_path: Vec<u8>,
}

/// The session stem of a file name: the name with the first matching of
/// the suffixes `-mix.wav`, `-mic.wav`, `.wav` — checked in that priority
/// order — stripped; the whole name when none matches.
pub open spec fn session_stem(name: Seq<u8>) -> Seq<u8> {
    if ends_with(name, mix_suffix()) {
        name.subrange(0, name.len() - mix_suffix().len())
    } else if ends_with(name, mic_suffix()) {
        name.subrange(0, name.len() - mic_suffix().len())
    } else if ends_with(name, wav_suffix()) {
        name.subrange(0, name.len() - wav_suffix().len())
    } else {
        name
    }
}

/// The sibling of `p` carrying `suffix`: same directory, the session stem
/// of `p`'s file name, then `suffix`.
pub open spec fn sibling_of(p: Seq<u8>, suffix: Seq<u8>) -> Seq<u8> {
    p.subrange(0, last_sep(p) + 1) + session_stem(file_name(p)) + suffix
}

/// Derive the three sibling artifact paths from one canonical sibling
/// path. Fails exactly when the path carries no file name.
pub fn sibling_paths(canon_target: &[u8]) -> (r: Result<DeletePlan, AccessError>)
    ensures
        file_name(canon_target@).len() == 0 ==> r == Err::<DeletePlan, AccessError>(
            AccessError::InvalidFileName,
        ),
        file_name(canon_target@).len() > 0 ==> (r matches Ok(plan) && plan.app_path@
            == sibling_of(canon_target@, wav_suffix()) && plan.mic_path@ == sibling_of(
            canon_target@,
            mic_suffix(),
        ) && plan.mix_path@ == sibling_of(canon_target@, mix_suffix())),
{
    proof {
        lemma_last_sep(canon_target@);
    }
    let name = file_name_of(canon_target);
    if name.len() == 0 {
        return Err(AccessError::InvalidFileName);
    }
    let tn: usize = canon_target.len();
    let start: usize = match rfind_sep(canon_target) {
        Some(i) => {
            assert(i < tn);
            i + 1
        },
        None => 0,
    };
    let mixv = mix_suffix_vec();
    let micv = mic_suffix_vec();
    let wavv = wav_suffix_vec();
    let nl: usize = name.len();
    let stem_len: usize = if slice_ends_with(name.as_slice(), mixv.as_slice()) {
        nl - 8
    } else if slice_ends_with(name.as_slice(), micv.as_slice()) {
        nl - 8
    } else if slice_ends_with(name.as_slice(), wavv.as_slice()) {
        nl - 4
    } else {
        nl
    };
    assert(name@.subrange(0, stem_len as int) == session_stem(file_name(canon_target@)));
    let stem = copy_range(name.as_slice(), 0, stem_len);
    let mut app_path = copy_range(canon_target, 0, start);
    push_all(&mut app_path, stem.as_slice());
    push_all(&mut app_path, wavv.as_slice());
    let mut mic_path = copy_range(canon_target, 0, start);
    push_all(&mut mic_path, stem.as_slice());
    push_all(&mut mic_path, micv.as_slice());
    let mut mix_path = copy_range(canon_target, 0, start);
    push_all(&mut mix_path, stem.as_slice());
    push_all(&mut mix_path, mixv.as_slice());
    Ok(DeletePlan { app_path, mic_path, mix_path })
}

/// Law: deletion completeness for a mix artifact. A path that names a mix
/// artifact reconstructs itself as its own mix sibling — stripping
/// `-mix.wav` and appending it again gives the path back — so deleting
/// that recording removes the catalog row of exactly the requested path,
/// and the derived primary and microphone siblings share its stem.
pub proof fn lemma_mix_sibling_roundtrip(p: Seq<u8>)
    requires
        crate::paths::is_mix_artifact(p),
    ensures
        sibling_of(p, mix_suffix()) == p,
{
    lemma_last_sep(p);
    let ls = last_sep(p);
    let n = p.len() as int;
    assert(mix_suffix().len() == 8);
    assert(ends_with(p, mix_suffix()));
    assert forall|k: int| n - 8 <= k < n implies p[k] != crate::paths::sep_byte() by {
        assert(p.subrange(n - 8, n) == mix_suffix());
        assert(p[k] == mix_suffix()[k - (n - 8)]);
    }
    assert(ls < n - 8) by {
        if ls >= n - 8 {
            assert(p[ls] == crate::paths::sep_byte());
        }
    }
    let name = file_name(p);
    assert(name.len() == n - ls - 1 >= 8);
    assert(ends_with(name, mix_suffix())) by {
        assert(name.subrange(name.len() - 8, name.len() as int) =~= p.subrange(n - 8, n));
    }
    assert(sibling_of(p, mix_suffix()) =~= p);
}

/// Delete one recording. The requested path is authorized against the
/// sandbox (no extension check: any sibling may be named), the three
/// sibling paths are derived, and the catalog row holding the mix sibling
/// is removed. The returned plan names the three files the host process
/// then removes from disk, each independently and best-effort: a sibling
/// may legitimately not exist, and no removal failure fails this
/// operation, which succeeds whenever authorization did.
pub fn delete_recording(
    cat: &mut Catalog,
    canon_base: &Option<Vec<u8>>,
    canon_target: &Option<Vec<u8>>,
) -> (r: Result<DeletePlan, AccessError>)
    requires
        old(cat).wf(),
    ensures
        final(cat).wf(),
        r is Err ==> final(cat)@ == old(cat)@,
        canon_base is None ==> r == Err::<DeletePlan, AccessError>(AccessError::InvalidBase),
        canon_base is Some && canon_target is None ==> r == Err::<DeletePlan, AccessError>(
            AccessError::InvalidPath,
        ),
        canon_base is Some && canon_target is Some && !is_strictly_under(
            canon_base->0@,
            canon_target->0@,
        ) ==> r == Err::<DeletePlan, AccessError>(AccessError::PathNotAllowed),
        canon_base is Some && canon_target is Some && is_strictly_under(
            canon_base->0@,
            canon_target->0@,
        ) && file_name(canon_target->0@).len() == 0 ==> r == Err::<DeletePlan, AccessError>(
            AccessError::InvalidFileName,
        ),
        canon_base is Some && canon_target is Some && is_strictly_under(
            canon_base->0@,
            canon_target->0@,
        ) && file_name(canon_target->0@).len() > 0 ==> (r matches Ok(plan) && {
            &&& plan.app_path@ == sibling_of(canon_target->0@, wav_suffix())
            &&& plan.mic_path@ == sibling_of(canon_target->0@, mic_suffix())
            &&& plan.mix_path@ == sibling_of(canon_target->0@, mix_suffix())
            &&& final(cat)@ == old(cat)@.filter(
                path_differs(sibling_of(canon_target->0@, mix_suffix())),
            )
        }),
{
    let authorized = match authorize(canon_base, canon_target, false) {
        Err(e) => {
            return Err(e);
        },
        Ok(p) => p,
    };
    let plan = match sibling_paths(authorized.as_slice()) {
        Err(e) => {
            return Err(e);
        },
        Ok(plan) => plan,
    };
    cat.delete_by_path(plan.mix_path.as_slice());
    Ok(plan)
}

} // verus!
