//! Capture session controller.
//!
//! The controller mirrors the engine's "currently capturing" flag as an
//! explicit session state, and performs the post-stop reconciliation:
//! after a stop, the freshest mix artifact found in the storage root is
//! inserted into the catalog. The engine calls themselves are made by the
//! host process, which hands their outcomes in; reconciliation is
//! best-effort and never fails the stop itself.

use vstd::prelude::*;

use crate::catalog::{contains_path, insert_result, size_to_i64, Catalog};
use crate::paths::file_name;
use crate::scanner::{best_of, created_ms_of, find_latest_mix_index, lemma_best_of_first_max,
    ScanEntry};

verus! {

/// Whether a capture session is running.
#[derive(Clone, Copy, Debug, PartialEq, Eq, Structural)]
pub enum SessionState {
    Idle,
    Capturing,
}

/// The managed mirror of the engine's session state: one controller per
/// session owner, no process-wide flag.
pub struct SessionController {
    state: SessionState,
}

impl SessionController {
    /// The mirrored state.
    pub closed spec fn state(&self) -> SessionState {
        self.state
    }

    /// A fresh controller; no session runs yet.
    pub fn new() -> (c: SessionController)
        ensures
            c.state() == SessionState::Idle,
    {
        SessionController { state: SessionState::Idle }
    }

    /// Whether a session is mirrored as running.
    pub fn is_capturing(&self) -> (r: bool)
        ensures
            r == (self.state() == SessionState::Capturing),
    {
        match self.state {
            SessionState::Capturing => true,
            SessionState::Idle => false,
        }
    }

    /// Record the engine's answer to a start request: on success the
    /// session is capturing; on failure the state is unchanged and the
    /// caller surfaces the engine's message verbatim.
    pub fn start_capture(&mut self, engine_ok: bool)
        ensures
            engine_ok ==> final(self).state() == SessionState::Capturing,
            !engine_ok ==> final(self).state() == old(self).state(),
    {
        if engine_ok {
            self.state = SessionState::Capturing;
        }
    }

    /// Stop: the engine has been told to stop — unconditionally, whatever
    /// state was mirrored — so the session is idle again. Then post-stop
    /// reconciliation: the freshest mix artifact among the scanned
    /// entries, if any, is inserted into the catalog. The insert's
    /// outcome is deliberately dropped: reconciliation failure never
    /// fails the stop.
    pub fn stop_capture(&mut self, cat: &mut Catalog, entries: &Vec<ScanEntry>)
        requires
            old(cat).wf(),
            old(cat).next_row_id() < i64::MAX,
        ensures
            final(self).state() == SessionState::Idle,
            final(cat).wf(),
            best_of(entries@) is None ==> final(cat)@ == old(cat)@ && final(cat).next_row_id()
                == old(cat).next_row_id(),
            best_of(entries@) matches Some(b) ==> final(cat)@ == insert_result(
                old(cat)@,
                old(cat).next_row_id(),
                file_name(entries@[b.0].path@),
                entries@[b.0].path@,
                size_to_i64(entries@[b.0].meta->0.size_bytes) as int,
                created_ms_of(entries@[b.0].meta->0) as int,
            ) && final(cat).next_row_id() == old(cat).next_row_id() + (
            if contains_path(old(cat)@, entries@[b.0].path@) {
                0int
            } else {
                1int
            }),
    {
        self.state = SessionState::Idle;
        match find_latest_mix_index(entries) {
            None => {},
            Some(i) => {
                proof {
                    lemma_best_of_first_max(entries@);
                }
                let _ = cat.insert_recording_from_path(&entries[i]);
            },
        }
    }
}

} // verus!
