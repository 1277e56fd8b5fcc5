//! Path sandbox validator.
//!
//! Every path that is about to be read, served or deleted is checked here
//! first. The caller canonicalizes both the storage root and the requested
//! path (resolving symlinks and `..`); a failed resolution is handed in as
//! `None` and is itself an error, never treated as "outside the sandbox".
//! The check runs per request and caches nothing.

use vstd::prelude::*;

use crate::paths::{copy_bytes, has_wav_extension, is_wav_path, sep_byte};

verus! {

/// Why a requested path was rejected.
#[derive(Clone, Copy, Debug, PartialEq, Eq, Structural)]
pub enum AccessError {
    /// The storage root could not be canonicalized.
    InvalidBase,
    /// The requested path could not be canonicalized; it may not exist.
    InvalidPath,
    /// The canonical path does not lie strictly inside the storage root.
    PathNotAllowed,
    /// The path lies inside the sandbox but does not carry the expected
    /// audio extension.
    UnsupportedFileType,
    /// The path has no file name to derive sibling artifacts from.
    InvalidFileName,
}

/// The canonical root `root` is a strict path prefix of the canonical path
/// `p`: `p` is longer, starts with `root`'s bytes, and the first byte after
/// the prefix sits on a component boundary.
pub open spec fn is_strictly_under(root: Seq<u8>, p: Seq<u8>) -> bool {
    &&& root.len() < p.len()
    &&& p.subrange(0, root.len() as int) == root
    &&& ((root.len() > 0 && root[root.len() - 1] == sep_byte()) || p[root.len() as int]
        == sep_byte())
}

/// Whether the canonical path `p` lies strictly inside the canonical root.
pub fn strictly_under(root: &[u8], p: &[u8]) -> (r: bool)
    ensures
        r == is_strictly_under(root@, p@),
{
    let rn: usize = root.len();
    if rn >= p.len() {
        return false;
    }
    let mut i: usize = 0;
    while i < rn
        invariant
            rn == root@.len(),
            rn < p@.len(),
            0 <= i <= rn,
            forall|j: int| 0 <= j < i ==> p@[j] == root@[j],
        decreases rn - i,
    {
        if p[i] != root[i] {
            assert(p@.subrange(0, rn as int)[i as int] != root@[i as int]);
            return false;
        }
        i = i + 1;
    }
    assert(p@.subrange(0, rn as int) =~= root@);
    if rn > 0 && root[rn - 1] == 47u8 {
        true
    } else {
        p[rn] == 47u8
    }
}

/// Authorize one request against the sandbox.
///
/// `canon_base` and `canon_path` are the canonical forms of the storage
/// root and of the requested path, or `None` where canonicalization failed.
/// With `require_wav` set (read and serve operations) the path must also
/// carry the `.wav` extension. On success the canonical path is returned;
/// every failure names its reason, and no data is ever partially served.
pub fn authorize(
    canon_base: &Option<Vec<u8>>,
    canon_path: &Option<Vec<u8>>,
    require_wav: bool,
) -> (r: Result<Vec<u8>, AccessError>)
    ensures
        canon_base is None ==> r == Err::<Vec<u8>, AccessError>(AccessError::InvalidBase),
        canon_base is Some && canon_path is None ==> r == Err::<Vec<u8>, AccessError>(
            AccessError::InvalidPath,
        ),
        canon_base is Some && canon_path is Some && !is_strictly_under(
            canon_base->0@,
            canon_path->0@,
        ) ==> r == Err::<Vec<u8>, AccessError>(AccessError::PathNotAllowed),
        canon_base is Some && canon_path is Some && is_strictly_under(
            canon_base->0@,
            canon_path->0@,
        ) && require_wav && !has_wav_extension(canon_path->0@) ==> r == Err::<
            Vec<u8>,
            AccessError,
        >(AccessError::UnsupportedFileType),
        canon_base is Some && canon_path is Some && is_strictly_under(
            canon_base->0@,
            canon_path->0@,
        ) && (!require_wav || has_wav_extension(canon_path->0@)) ==> (r matches Ok(c)
            && c@ == canon_path->0@),
{
    match canon_base {
        None => Err(AccessError::InvalidBase),
        Some(base) => match canon_path {
            None => Err(AccessError::InvalidPath),
            Some(path) => {
                if !strictly_under(base.as_slice(), path.as_slice()) {
                    Err(AccessError::PathNotAllowed)
                } else if require_wav && !is_wav_path(path.as_slice()) {
                    Err(AccessError::UnsupportedFileType)
                } else {
                    Ok(copy_bytes(path.as_slice()))
                }
            },
        },
    }
}

} // verus!
