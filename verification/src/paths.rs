//! Helpers over byte-string paths.
//!
//! A path is a sequence of UTF-8 bytes, already canonicalized by the caller
//! where canonical form matters. The helpers here never touch the
//! filesystem: they only inspect and assemble byte strings.

use vstd::prelude::*;

verus! {

/// The path separator byte, `/`.
pub open spec fn sep_byte() -> u8 {
    47u8
}

/// The artifact extension, `.wav`, as a byte suffix.
pub open spec fn wav_suffix() -> Seq<u8> {
    seq![46u8, 119u8, 97u8, 118u8]
}

/// The suffix carried by a session's mix artifact, `-mix.wav`.
pub open spec fn mix_suffix() -> Seq<u8> {
    seq![45u8, 109u8, 105u8, 120u8] + wav_suffix()
}

/// The suffix carried by a session's microphone artifact, `-mic.wav`.
pub open spec fn mic_suffix() -> Seq<u8> {
    seq![45u8, 109u8, 105u8, 99u8] + wav_suffix()
}

/// The bytes of `.wav` as a vector.
pub fn wav_suffix_vec() -> (r: Vec<u8>)
    ensures
        r@ == wav_suffix(),
{
    let mut v: Vec<u8> = Vec::new();
    v.push(46u8);
    v.push(119u8);
    v.push(97u8);
    v.push(118u8);
    assert(v@ =~= wav_suffix());
    v
}

/// The bytes of `-mix.wav` as a vector.
pub fn mix_suffix_vec() -> (r: Vec<u8>)
    ensures
        r@ == mix_suffix(),
{
    let mut v: Vec<u8> = Vec::new();
    v.push(45u8);
    v.push(109u8);
    v.push(105u8);
    v.push(120u8);
    v.push(46u8);
    v.push(119u8);
    v.push(97u8);
    v.push(118u8);
    assert(v@ =~= mix_suffix());
    v
}

/// The bytes of `-mic.wav` as a vector.
pub fn mic_suffix_vec() -> (r: Vec<u8>)
    ensures
        r@ == mic_suffix(),
{
    let mut v: Vec<u8> = Vec::new();
    v.push(45u8);
    v.push(109u8);
    v.push(105u8);
    v.push(99u8);
    v.push(46u8);
    v.push(119u8);
    v.push(97u8);
    v.push(118u8);
    assert(v@ =~= mic_suffix());
    v
}

/// A fresh copy of `s[a..b]`.
pub fn copy_range(s: &[u8], a: usize, b: usize) -> (r: Vec<u8>)
    requires
        a <= b <= s@.len(),
    ensures
        r@ == s@.subrange(a as int, b as int),
{
    let mut v: Vec<u8> = Vec::new();
    let mut j: usize = a;
    while j < b
        invariant
            a <= j <= b <= s@.len(),
            v@ == s@.subrange(a as int, j as int),
        decreases b - j,
    {
        let ghost prev = v@;
        v.push(s[j]);
        assert(prev.push(s@[j as int]) =~= s@.subrange(a as int, j + 1));
        j = j + 1;
    }
    v
}

/// `s` ends with `suffix`.
pub open spec fn ends_with(s: Seq<u8>, suffix: Seq<u8>) -> bool {
    suffix.len() <= s.len() && s.subrange(s.len() - suffix.len(), s.len() as int) == suffix
}

/// Whether `r` tells that `a` and `b` hold the same bytes.
pub fn bytes_eq(a: &[u8], b: &[u8]) -> (r: bool)
    ensures
        r == (a@ == b@),
{
    if a.len() != b.len() {
        assert(a@.len() != b@.len());
        return false;
    }
    let n: usize = a.len();
    let mut i: usize = 0;
    while i < n
        invariant
            n == a@.len() && n == b@.len(),
            0 <= i <= n,
            forall|j: int| 0 <= j < i ==> a@[j] == b@[j],
        decreases n - i,
    {
        if a[i] != b[i] {
            assert(a@ != b@);
            return false;
        }
        i = i + 1;
    }
    assert(a@ =~= b@);
    true
}

/// Whether `s` ends with the bytes of `suffix`.
pub fn slice_ends_with(s: &[u8], suffix: &[u8]) -> (r: bool)
    ensures
        r == ends_with(s@, suffix@),
{
    if suffix.len() > s.len() {
        return false;
    }
    let sn: usize = s.len();
    let start: usize = sn - suffix.len();
    let n: usize = suffix.len();
    let mut i: usize = 0;
    while i < n
        invariant
            n == suffix@.len(),
            sn == s@.len(),
            start + n == sn,
            0 <= i <= n,
            forall|j: int| 0 <= j < i ==> s@[start + j] == suffix@[j],
        decreases n - i,
    {
        if s[start + i] != suffix[i] {
            assert(s@.subrange(start as int, s@.len() as int)[i as int] != suffix@[i as int]);
            return false;
        }
        i = i + 1;
    }
    assert(s@.subrange(start as int, s@.len() as int) =~= suffix@);
    true
}

/// Index of the last separator in `p`, or `-1` if there is none.
pub open spec fn last_sep(p: Seq<u8>) -> int
    decreases p.len(),
{
    if p.len() == 0 {
        -1
    } else if p[p.len() - 1] == sep_byte() {
        p.len() - 1
    } else {
        last_sep(p.drop_last())
    }
}

/// `last_sep` points at a separator, and nothing after it is one.
pub proof fn lemma_last_sep(p: Seq<u8>)
    ensures
        -1 <= last_sep(p) < p.len(),
        last_sep(p) >= 0 ==> p[last_sep(p)] == sep_byte(),
        forall|i: int| last_sep(p) < i < p.len() ==> p[i] != sep_byte(),
    decreases p.len(),
{
    if p.len() > 0 && p[p.len() - 1] != sep_byte() {
        lemma_last_sep(p.drop_last());
        assert forall|i: int| last_sep(p) < i < p.len() implies p[i] != sep_byte() by {
            if i < p.len() - 1 {
                assert(p.drop_last()[i] == p[i]);
                assert(p.drop_last()[i] != sep_byte());
            }
        }
        if last_sep(p) >= 0 {
            assert(p.drop_last()[last_sep(p)] == p[last_sep(p)]);
        }
    }
}

/// Position of the last separator of `p`, if any.
pub fn rfind_sep(p: &[u8]) -> (r: Option<usize>)
    ensures
        match r {
            Some(i) => last_sep(p@) == i,
            None => last_sep(p@) == -1,
        },
{
    proof {
        lemma_last_sep(p@);
    }
    let mut i: usize = p.len();
    while i > 0
        invariant
            i <= p@.len(),
            last_sep(p@) < i as int,
            -1 <= last_sep(p@) < p@.len(),
            last_sep(p@) >= 0 ==> p@[last_sep(p@)] == sep_byte(),
            forall|j: int| last_sep(p@) < j < p@.len() ==> p@[j] != sep_byte(),
        decreases i,
    {
        i = i - 1;
        if p[i] == 47u8 {
            assert(last_sep(p@) == i as int);
            return Some(i);
        }
    }
    None
}

/// Bytes of the file name of `p`: everything after the last separator.
pub open spec fn file_name(p: Seq<u8>) -> Seq<u8> {
    p.subrange(last_sep(p) + 1, p.len() as int)
}

/// The file name of `p` as a fresh byte vector, see `file_name`.
pub fn file_name_of(p: &[u8]) -> (r: Vec<u8>)
    ensures
        r@ == file_name(p@),
{
    proof {
        lemma_last_sep(p@);
    }
    let n: usize = p.len();
    let start: usize = match rfind_sep(p) {
        Some(i) => {
            assert(i < n);
            i + 1
        },
        None => 0,
    };
    let mut v: Vec<u8> = Vec::new();
    let mut j: usize = start;
    while j < n
        invariant
            n == p@.len(),
            start <= j <= n,
            v@ == p@.subrange(start as int, j as int),
        decreases n - j,
    {
        let ghost prev = v@;
        v.push(p[j]);
        assert(prev.push(p@[j as int]) =~= p@.subrange(start as int, j + 1));
        j = j + 1;
    }
    assert(v@ =~= file_name(p@));
    v
}

/// `p` names a `.wav` file: it ends in `.wav` and the dot is neither the
/// first byte of the file name nor absent. This is the extension rule of
/// operating-system paths, fixed to the one allowed audio extension: a bare
/// `.wav` file name is a dotfile and has no extension.
pub open spec fn has_wav_extension(p: Seq<u8>) -> bool {
    ends_with(p, wav_suffix()) && file_name(p).len() > wav_suffix().len()
}

/// Whether `p` names a `.wav` file, per `has_wav_extension`.
pub fn is_wav_path(p: &[u8]) -> (r: bool)
    ensures
        r == has_wav_extension(p@),
{
    let suffix = wav_suffix_vec();
    if !slice_ends_with(p, suffix.as_slice()) {
        return false;
    }
    proof {
        lemma_last_sep(p@);
    }
    let name_len: usize = match rfind_sep(p) {
        Some(i) => p.len() - (i + 1),
        None => p.len(),
    };
    assert(name_len == file_name(p@).len());
    name_len > 4
}

/// `p` names a session's mix artifact: a `.wav` file whose stem ends in
/// `-mix`. Because `-mix.wav` holds no separator and its dot sits after the
/// `-mix` stem bytes, this is the same as the path ending in `-mix.wav`.
pub open spec fn is_mix_artifact(p: Seq<u8>) -> bool {
    ends_with(p, mix_suffix())
}

/// Whether `p` names a mix artifact, per `is_mix_artifact`.
pub fn is_mix_path(p: &[u8]) -> (r: bool)
    ensures
        r == is_mix_artifact(p@),
{
    let suffix = mix_suffix_vec();
    slice_ends_with(p, suffix.as_slice())
}

/// Append all of `s` to `v`.
pub fn push_all(v: &mut Vec<u8>, s: &[u8])
    ensures
        final(v)@ == old(v)@ + s@,
{
    let n: usize = s.len();
    let mut i: usize = 0;
    while i < n
        invariant
            n == s@.len(),
            0 <= i <= n,
            v@ == old(v)@ + s@.subrange(0, i as int),
        decreases n - i,
    {
        v.push(s[i]);
        assert(old(v)@ + s@.subrange(0, i as int) + seq![s@[i as int]]
            =~= old(v)@ + s@.subrange(0, i + 1));
        i = i + 1;
    }
    assert(old(v)@ + s@.subrange(0, n as int) =~= old(v)@ + s@);
}

/// A fresh copy of the bytes of `s`.
pub fn copy_bytes(s: &[u8]) -> (r: Vec<u8>)
    ensures
        r@ == s@,
{
    let mut v: Vec<u8> = Vec::new();
    push_all(&mut v, s);
    assert(v@ =~= s@);
    v
}

/// The catalog store's file name, `scribo.sqlite3`.
pub open spec fn db_file_name() -> Seq<u8> {
    seq![
        115u8, 99u8, 114u8, 105u8, 98u8, 111u8, 46u8, 115u8, 113u8, 108u8, 105u8, 116u8,
        101u8, 51u8,
    ]
}

/// `name` appended to the directory `dir`, with a separator between them
/// unless `dir` is empty or already ends with one.
pub open spec fn join(dir: Seq<u8>, name: Seq<u8>) -> Seq<u8> {
    if dir.len() == 0 || dir[dir.len() - 1] == sep_byte() {
        dir + name
    } else {
        dir + seq![sep_byte()] + name
    }
}

/// Path of the catalog store file inside the storage root `base_dir`.
pub fn db_path(base_dir: &[u8]) -> (r: Vec<u8>)
    ensures
        r@ == join(base_dir@, db_file_name()),
{
    let mut v: Vec<u8> = copy_bytes(base_dir);
    if base_dir.len() > 0 && base_dir[base_dir.len() - 1] != 47u8 {
        v.push(47u8);
    }
    let mut name: Vec<u8> = Vec::new();
    name.push(115u8);
    name.push(99u8);
    name.push(114u8);
    name.push(105u8);
    name.push(98u8);
    name.push(111u8);
    name.push(46u8);
    name.push(115u8);
    name.push(113u8);
    name.push(108u8);
    name.push(105u8);
    name.push(116u8);
    name.push(101u8);
    name.push(51u8);
    assert(name@ =~= db_file_name());
    push_all(&mut v, name.as_slice());
    proof {
        if base_dir@.len() == 0 || base_dir@[base_dir@.len() - 1] == sep_byte() {
            assert(v@ =~= base_dir@ + db_file_name());
        } else {
            assert(v@ =~= base_dir@ + seq![sep_byte()] + db_file_name());
        }
    }
    v
}

} // verus!
