//! The operations that the host offers its user interface, where they do more
//! than forward a call to the store.
use vstd::prelude::*;

use crate::clipboard::{draft_error, payload_of, ClipboardDraft, DraftError};
use crate::db::{
    after_upsert, opt_chars, retained, upsert_index, upsert_possible, ClipItem, ClipKind, ClipView,
    DbState, StoreError, StoreView, edited,
};
use crate::hash::{compute_content_hash, content_hash_of};
use crate::runtime_config::RuntimePreferences;
use crate::state::{after_mark, AppStatus, StatusView};

verus! {

/// Why a command failed.
#[derive(Clone, Copy, Debug, PartialEq, Eq, Structural)]
pub enum CommandError {
    /// Listening is paused, so nothing is recorded.
    Paused,
    /// The draft is not valid for its kind.
    Draft(DraftError),
    /// The store refused the operation.
    Store(StoreError),
    /// The kind discriminator names no kind.
    UnknownKind(u8),
}

/// Records a draft that the user interface submits, at time `now`, and
/// applies the retention policy. Refused while listening is paused.
pub fn insert_clip(
    status: &AppStatus,
    prefs: &RuntimePreferences,
    store: &mut DbState,
    draft: ClipboardDraft,
    now: i64,
) -> (r: Result<ClipItem, CommandError>)
    requires
        old(store).wf(),
    ensures
        final(store).wf(),
        !status@.listening ==> r == Err::<ClipItem, CommandError>(CommandError::Paused)
            && final(store)@ == old(store)@,
        status@.listening && draft_error(draft@) is Some ==> r == Err::<ClipItem, CommandError>(
            CommandError::Draft(draft_error(draft@).unwrap()),
        ) && final(store)@ == old(store)@,
        status@.listening && draft_error(draft@) is None ==> {
            let p = payload_of(draft@);
            if upsert_possible(old(store)@, p) {
                let written = after_upsert(old(store)@, p, now);
                &&& r matches Ok(item) && item@ == written.records[upsert_index(old(store)@, p)]
                &&& retained(written, prefs.retention, now, final(store)@)
            } else {
                &&& r == Err::<ClipItem, CommandError>(CommandError::Store(StoreError::IdsExhausted))
                &&& final(store)@ == old(store)@
            }
        },
{
    if !status.listening() {
        return Err(CommandError::Paused);
    }
    let payload = match draft.into_payload() {
        Ok(p) => p,
        Err(e) => return Err(CommandError::Draft(e)),
    };
    match store.upsert(payload, now) {
        Ok(item) => {
            store.apply_retention(&prefs.retention, now);
            Ok(item)
        },
        Err(e) => Err(CommandError::Store(e)),
    }
}

/// Replaces the content of record `id` with that of a draft, at time `now`:
/// the draft is validated for its kind first, and its preview replaces the
/// record's.
pub fn update_clip_content(store: &mut DbState, id: i64, draft: ClipboardDraft, now: i64) -> (r:
    Result<(), CommandError>)
    requires
        old(store).wf(),
    ensures
        final(store).wf(),
        draft_error(draft@) is Some ==> r == Err::<(), CommandError>(
            CommandError::Draft(draft_error(draft@).unwrap()),
        ) && final(store)@ == old(store)@,
        draft_error(draft@) is None ==> {
            let p = payload_of(draft@);
            if crate::db::has_id(old(store)@.records, id) {
                &&& r is Ok
                &&& final(store)@ == (StoreView {
                    records: old(store)@.records.map_values(
                        |c: ClipView|
                            if c.id == id {
                                edited(c, p.content, p.preview, now)
                            } else {
                                c
                            },
                    ),
                    next_id: old(store)@.next_id,
                })
            } else {
                &&& r == Err::<(), CommandError>(CommandError::Store(StoreError::NotFound))
                &&& final(store)@ == old(store)@
            }
        },
{
    let payload = match draft.into_payload() {
        Ok(p) => p,
        Err(e) => return Err(CommandError::Draft(e)),
    };
    match store.update_content(id, payload.content, payload.preview, now) {
        Ok(()) => Ok(()),
        Err(e) => Err(CommandError::Store(e)),
    }
}

/// Marks the next capture of a clip as this application's own copy: by its
/// hash when one is given and not empty, else by the hash of `kind` and
/// `content` when both are given. An unknown kind is refused.
pub fn ignore_next_clipboard_capture(
    status: &mut AppStatus,
    hash: Option<String>,
    kind: Option<u8>,
    content: Option<String>,
) -> (r: Result<(), CommandError>)
    requires
        old(status).wf(),
    ensures
        final(status).wf(),
        match opt_chars(hash) {
            Some(h) if h.len() > 0 => r is Ok && final(status)@ == (StatusView {
                self_copies: after_mark(old(status)@.self_copies, h),
                ..old(status)@
            }),
            _ => match (kind, opt_chars(content)) {
                (Some(t), Some(c)) => if 1 <= t <= 3 {
                    let k = if t == 1 {
                        ClipKind::Text
                    } else if t == 2 {
                        ClipKind::Image
                    } else {
                        ClipKind::File
                    };
                    r is Ok && final(status)@ == (StatusView {
                        self_copies: after_mark(old(status)@.self_copies, content_hash_of(k, c)),
                        ..old(status)@
                    })
                } else {
                    r == Err::<(), CommandError>(CommandError::UnknownKind(t)) && final(status)@
                        == old(status)@
                },
                _ => r is Ok && final(status)@ == old(status)@,
            },
        },
{
    match hash {
        Some(h) => {
            if !h.as_str().is_empty() {
                status.mark_self_copy(h);
                return Ok(());
            }
        },
        None => {},
    }
    match (kind, content) {
        (Some(t), Some(c)) => match ClipKind::from_tag(t) {
            Some(k) => {
                let h = compute_content_hash(k, c.as_str());
                status.mark_self_copy(h);
                Ok(())
            },
            None => Err(CommandError::UnknownKind(t)),
        },
        _ => Ok(()),
    }
}

} // verus!
