//! The clip store: records keyed by id, upsert by content hash, flag and
//! content updates, listing, import and export, and pruning.
use vstd::prelude::*;

use crate::hash::{compute_content_hash, content_hash_of};
use crate::runtime_config::RetentionPolicy;
use crate::text::{
    chars_of, contains_chars, lower_of, lowercase, occurs_in, string_of, trim_chars, trimmed,
};

verus! {

/// What a clip holds.
#[derive(Clone, Copy, Debug, PartialEq, Eq, Structural)]
pub enum ClipKind {
    Text,
    Image,
    File,
}

impl ClipKind {
    /// The stored discriminator of each kind.
    pub open spec fn tag_spec(self) -> u8 {
        match self {
            ClipKind::Text => 1,
            ClipKind::Image => 2,
            ClipKind::File => 3,
        }
    }

    pub fn tag(self) -> (r: u8)
        ensures
            r == self.tag_spec(),
    {
        match self {
            ClipKind::Text => 1,
            ClipKind::Image => 2,
            ClipKind::File => 3,
        }
    }

    /// The kind stored as `tag`, if `tag` is one.
    pub fn from_tag(tag: u8) -> (r: Option<ClipKind>)
        ensures
            r matches Some(k) ==> k.tag_spec() == tag,
            r is None <==> !(1 <= tag <= 3),
    {
        if tag == 1 {
            Some(ClipKind::Text)
        } else if tag == 2 {
            Some(ClipKind::Image)
        } else if tag == 3 {
            Some(ClipKind::File)
        } else {
            None
        }
    }
}


/// The characters of an optional string.
pub open spec fn opt_chars(o: Option<String>) -> Option<Seq<char>> {
    match o {
        Some(s) => Some(s@),
        None => None,
    }
}

pub fn clone_opt(o: &Option<String>) -> (r: Option<String>)
    ensures
        opt_chars(r) == opt_chars(*o),
{
    match o {
        Some(s) => Some(s.clone()),
        None => None,
    }
}

/// A validated clip ready to be stored.
#[derive(Clone, Debug)]
pub struct ClipPayload {
    pub kind: ClipKind,
    pub content: String,
    pub preview: Option<String>,
    pub extra: Option<String>,
    pub content_hash: Option<String>,
    pub is_pinned: bool,
    pub is_favorite: bool,
}

pub struct PayloadView {
    pub kind: ClipKind,
    pub content: Seq<char>,
    pub preview: Option<Seq<char>>,
    pub extra: Option<Seq<char>>,
    pub content_hash: Option<Seq<char>>,
    pub is_pinned: bool,
    pub is_favorite: bool,
}

impl View for ClipPayload {
    type V = PayloadView;

    open spec fn view(&self) -> PayloadView {
        PayloadView {
            kind: self.kind,
            content: self.content@,
            preview: opt_chars(self.preview),
            extra: opt_chars(self.extra),
            content_hash: opt_chars(self.content_hash),
            is_pinned: self.is_pinned,
            is_favorite: self.is_favorite,
        }
    }
}

/// A stored clip. Timestamps are seconds since the Unix epoch.
#[derive(Clone, Debug)]
pub struct ClipItem {
    pub id: i64,
    pub kind: ClipKind,
    pub content: String,
    pub content_hash: String,
    pub preview: Option<String>,
    pub extra: Option<String>,
    pub is_pinned: bool,
    pub is_favorite: bool,
    pub created_at: i64,
    pub updated_at: i64,
}

pub struct ClipView {
    pub id: i64,
    pub kind: ClipKind,
    pub content: Seq<char>,
    pub content_hash: Seq<char>,
    pub preview: Option<Seq<char>>,
    pub extra: Option<Seq<char>>,
    pub is_pinned: bool,
    pub is_favorite: bool,
    pub created_at: i64,
    pub updated_at: i64,
}

impl View for ClipItem {
    type V = ClipView;

    open spec fn view(&self) -> ClipView {
        ClipView {
            id: self.id,
            kind: self.kind,
            content: self.content@,
            content_hash: self.content_hash@,
            preview: opt_chars(self.preview),
            extra: opt_chars(self.extra),
            is_pinned: self.is_pinned,
            is_favorite: self.is_favorite,
            created_at: self.created_at,
            updated_at: self.updated_at,
        }
    }
}

impl ClipItem {
    /// A field-for-field copy.
    pub fn snapshot(&self) -> (r: ClipItem)
        ensures
            r@ == self@,
    {
        ClipItem {
            id: self.id,
            kind: self.kind,
            content: self.content.clone(),
            content_hash: self.content_hash.clone(),
            preview: clone_opt(&self.preview),
            extra: clone_opt(&self.extra),
            is_pinned: self.is_pinned,
            is_favorite: self.is_favorite,
            created_at: self.created_at,
            updated_at: self.updated_at,
        }
    }
}

/// Why a store operation failed.
#[derive(Clone, Copy, Debug, PartialEq, Eq, Structural)]
pub enum StoreError {
    /// No record has the requested id.
    NotFound,
    /// An imported record's id is already taken.
    DuplicateId,
    /// Every id up to the largest `i64` has been handed out.
    IdsExhausted,
}

/// The abstract state of the store: its records in insertion order, and the
/// id that the next insertion receives.
pub struct StoreView {
    pub records: Seq<ClipView>,
    pub next_id: int,
}

/// The store's invariant: ids are distinct and below `next_id`, and every
/// record carries a hash.
pub open spec fn store_wf(s: StoreView) -> bool {
    &&& 1 <= s.next_id <= i64::MAX + 1
    &&& forall|i: int| 0 <= i < s.records.len() ==> #[trigger] s.records[i].id < s.next_id
    &&& forall|i: int, j: int|
        0 <= i < s.records.len() && 0 <= j < s.records.len() && i != j ==> #[trigger] s.records[i].id
            != #[trigger] s.records[j].id
    &&& forall|i: int| 0 <= i < s.records.len() ==> #[trigger] s.records[i].content_hash.len() > 0
}

/// The hash a payload is stored under: its own when it carries a non-empty
/// one, else the one computed from its kind and content.
pub open spec fn payload_hash(p: PayloadView) -> Seq<char> {
    match p.content_hash {
        Some(h) => if h.len() > 0 {
            h
        } else {
            content_hash_of(p.kind, p.content)
        },
        None => content_hash_of(p.kind, p.content),
    }
}

/// Holds when `i` is the first record with hash `h`.
pub open spec fn first_with_hash(s: Seq<ClipView>, h: Seq<char>, i: int) -> bool {
    0 <= i < s.len() && s[i].content_hash == h && forall|j: int|
        0 <= j < i ==> #[trigger] s[j].content_hash != h
}

/// The index of the record an upsert of hash `h` replaces, or -1 when none has it.
pub open spec fn upsert_target(s: Seq<ClipView>, h: Seq<char>) -> int {
    if exists|i: int| first_with_hash(s, h, i) {
        choose|i: int| first_with_hash(s, h, i)
    } else {
        -1
    }
}

/// A record refreshed by an upsert: new content and hash, the preview and
/// extra kept where the payload has none, and a new `updated_at`.
pub open spec fn refreshed(r: ClipView, p: PayloadView, h: Seq<char>, now: i64) -> ClipView {
    ClipView {
        content: p.content,
        content_hash: h,
        preview: match p.preview {
            Some(v) => Some(v),
            None => r.preview,
        },
        extra: match p.extra {
            Some(v) => Some(v),
            None => r.extra,
        },
        updated_at: now,
        ..r
    }
}

/// A record created by an upsert.
pub open spec fn inserted(id: i64, p: PayloadView, h: Seq<char>, now: i64) -> ClipView {
    ClipView {
        id,
        kind: p.kind,
        content: p.content,
        content_hash: h,
        preview: p.preview,
        extra: p.extra,
        is_pinned: p.is_pinned,
        is_favorite: p.is_favorite,
        created_at: now,
        updated_at: now,
    }
}

/// Holds when an upsert of `p` into `s` can succeed: a record to refresh
/// exists, or an id is left.
pub open spec fn upsert_possible(s: StoreView, p: PayloadView) -> bool {
    upsert_target(s.records, payload_hash(p)) >= 0 || s.next_id <= i64::MAX
}

/// The store after a successful upsert of `p` at time `now`.
pub open spec fn after_upsert(s: StoreView, p: PayloadView, now: i64) -> StoreView {
    let h = payload_hash(p);
    let i = upsert_target(s.records, h);
    if i >= 0 {
        StoreView { records: s.records.update(i, refreshed(s.records[i], p, h, now)), ..s }
    } else {
        StoreView {
            records: s.records.push(inserted(s.next_id as i64, p, h, now)),
            next_id: s.next_id + 1,
        }
    }
}

/// Where the record written by an upsert stands afterwards.
pub open spec fn upsert_index(s: StoreView, p: PayloadView) -> int {
    let i = upsert_target(s.records, payload_hash(p));
    if i >= 0 {
        i
    } else {
        s.records.len() as int
    }
}

/// A record after a flag update.
pub open spec fn flagged(r: ClipView, pinned: Option<bool>, favorite: Option<bool>, now: i64) -> ClipView {
    ClipView {
        is_pinned: match pinned {
            Some(b) => b,
            None => r.is_pinned,
        },
        is_favorite: match favorite {
            Some(b) => b,
            None => r.is_favorite,
        },
        updated_at: now,
        ..r
    }
}

/// A record after a content edit.
pub open spec fn edited(r: ClipView, content: Seq<char>, preview: Option<Seq<char>>, now: i64) -> ClipView {
    ClipView {
        content,
        content_hash: content_hash_of(r.kind, content),
        preview,
        updated_at: now,
        ..r
    }
}

pub open spec fn has_id(s: Seq<ClipView>, id: i64) -> bool {
    exists|i: int| 0 <= i < s.len() && #[trigger] s[i].id == id
}

/// The clip history.
pub struct DbState {
    items: Vec<ClipItem>,
    next_id: i128,
}

impl View for DbState {
    type V = StoreView;

    closed spec fn view(&self) -> StoreView {
        StoreView {
            records: self.items@.map_values(|c: ClipItem| c@),
            next_id: self.next_id as int,
        }
    }
}

impl DbState {
    pub open spec fn wf(&self) -> bool {
        store_wf(self@)
    }

    /// An empty store whose first record gets id 1.
    pub fn new() -> (r: DbState)
        ensures
            r.wf(),
            r@.records.len() == 0,
            r@.next_id == 1,
    {
        let r = DbState { items: Vec::new(), next_id: 1 };
        assert(r@.records =~= Seq::<ClipView>::empty());
        r
    }

    /// An independent copy of the store: the host takes it under its lock and
    /// hands it to another thread, which saves or reads it without the lock.
    pub fn clone_for_thread(&self) -> (r: DbState)
        ensures
            r@ == self@,
    {
        let mut items: Vec<ClipItem> = Vec::new();
        let mut i: usize = 0;
        while i < self.items.len()
            invariant
                i <= self.items@.len(),
                items@.len() == i,
                forall|k: int| 0 <= k < i ==> #[trigger] items@[k]@ == self.items@[k]@,
            decreases self.items@.len() - i,
        {
            items.push(self.items[i].snapshot());
            i = i + 1;
        }
        let r = DbState { items, next_id: self.next_id };
        assert(r@.records =~= self@.records);
        r
    }

    /// The number of records.
    pub fn len(&self) -> (r: usize)
        ensures
            r == self@.records.len(),
    {
        self.items.len()
    }

    /// The record with id `id`, if there is one.
    pub fn get(&self, id: i64) -> (r: Option<ClipItem>)
        requires
            self.wf(),
        ensures
            r is None <==> !has_id(self@.records, id),
            r matches Some(item) ==> exists|i: int|
                0 <= i < self@.records.len() && self@.records[i].id == id && #[trigger] self@.records[i]
                    == item@,
    {
        let mut i: usize = 0;
        while i < self.items.len()
            invariant
                i <= self.items@.len(),
                forall|k: int| 0 <= k < i ==> #[trigger] self@.records[k].id != id,
            decreases self.items@.len() - i,
        {
            if self.items[i].id == id {
                let item = self.items[i].snapshot();
                assert(self@.records[i as int] == item@);
                assert(self@.records[i as int].id == id);
                return Some(item);
            }
            i = i + 1;
        }
        None
    }

    /// Stores `payload`: the first record with the same hash is refreshed in
    /// place, keeping its id, kind, flags and `created_at`; when none has it, a
    /// new record is appended under the next id. Returns the record written.
    pub fn upsert(&mut self, payload: ClipPayload, now: i64) -> (r: Result<ClipItem, StoreError>)
        requires
            old(self).wf(),
        ensures
            final(self).wf(),
            upsert_possible(old(self)@, payload@) ==> {
                &&& r is Ok
                &&& final(self)@ == after_upsert(old(self)@, payload@, now)
                &&& r->Ok_0@ == final(self)@.records[upsert_index(old(self)@, payload@)]
            },
            !upsert_possible(old(self)@, payload@) ==> r == Err::<ClipItem, StoreError>(
                StoreError::IdsExhausted,
            ) && final(self)@ == old(self)@,
    {
        let ghost p = payload@;
        let ghost s = self@;
        let ClipPayload { kind, content, preview, extra, content_hash, is_pinned, is_favorite } =
            payload;
        let hash = match content_hash {
            Some(h) => if !h.as_str().is_empty() {
                h
            } else {
                compute_content_hash(kind, content.as_str())
            },
            None => compute_content_hash(kind, content.as_str()),
        };
        assert(hash@ == payload_hash(p));
        let mut i: usize = 0;
        while i < self.items.len() && self.items[i].content_hash != hash
            invariant
                self@ == s,
                i <= self.items@.len(),
                forall|k: int| 0 <= k < i ==> #[trigger] s.records[k].content_hash != hash@,
            decreases self.items@.len() - i,
        {
            i = i + 1;
        }
        if i < self.items.len() {
            proof {
                assert(first_with_hash(s.records, hash@, i as int));
                assert forall|j: int| first_with_hash(s.records, hash@, j) implies j
                    == i by {}
            }
            let ghost old_rec = s.records[i as int];
            let preview = match preview {
                Some(v) => Some(v),
                None => clone_opt(&self.items[i].preview),
            };
            let extra = match extra {
                Some(v) => Some(v),
                None => clone_opt(&self.items[i].extra),
            };
            let updated = ClipItem {
                id: self.items[i].id,
                kind: self.items[i].kind,
                content,
                content_hash: hash,
                preview,
                extra,
                is_pinned: self.items[i].is_pinned,
                is_favorite: self.items[i].is_favorite,
                created_at: self.items[i].created_at,
                updated_at: now,
            };
            assert(updated@ == refreshed(old_rec, p, payload_hash(p), now));
            self.items.set(i, updated);
            proof {
                assert(self@.records =~= s.records.update(
                    i as int,
                    refreshed(old_rec, p, payload_hash(p), now),
                ));
            }
            return Ok(self.items[i].snapshot());
        }
        assert(!exists|j: int| first_with_hash(s.records, hash@, j));
        if self.next_id > i64::MAX as i128 {
            return Err(StoreError::IdsExhausted);
        }
        let id = self.next_id as i64;
        let item = ClipItem {
            id,
            kind,
            content,
            content_hash: hash,
            preview,
            extra,
            is_pinned,
            is_favorite,
            created_at: now,
            updated_at: now,
        };
        let out = item.snapshot();
        self.items.push(item);
        self.next_id = self.next_id + 1;
        assert(self@.records =~= s.records.push(inserted(id, p, payload_hash(p), now)));
        Ok(out)
    }

    /// The position of the record with id `id`, if any.
    fn position_of(&self, id: i64) -> (r: Option<usize>)
        requires
            self.wf(),
        ensures
            r is None <==> !has_id(self@.records, id),
            r matches Some(i) ==> i < self@.records.len() && self@.records[i as int].id == id,
    {
        let mut i: usize = 0;
        while i < self.items.len() && self.items[i].id != id
            invariant
                i <= self.items@.len(),
                forall|k: int| 0 <= k < i ==> #[trigger] self@.records[k].id != id,
            decreases self.items@.len() - i,
        {
            i = i + 1;
        }
        if i < self.items.len() {
            assert(self@.records[i as int].id == id);
            Some(i)
        } else {
            None
        }
    }

    /// Sets the flags that are given on the record with id `id` and refreshes
    /// its `updated_at`; the other flag is kept. Nothing changes when neither
    /// flag is given or no record has that id.
    pub fn update_flags(&mut self, id: i64, pinned: Option<bool>, favorite: Option<bool>, now: i64)
        requires
            old(self).wf(),
        ensures
            final(self).wf(),
            final(self)@.next_id == old(self)@.next_id,
            pinned is None && favorite is None ==> final(self)@ == old(self)@,
            pinned is Some || favorite is Some ==> final(self)@.records == old(self)@.records.map_values(
                |c: ClipView|
                    if c.id == id {
                        flagged(c, pinned, favorite, now)
                    } else {
                        c
                    },
            ),
    {
        if pinned.is_none() && favorite.is_none() {
            return;
        }
        let ghost s = self@;
        match self.position_of(id) {
            None => {
                assert(self@.records =~= s.records.map_values(
                    |c: ClipView|
                        if c.id == id {
                            flagged(c, pinned, favorite, now)
                        } else {
                            c
                        },
                )) by {
                    assert forall|k: int| 0 <= k < s.records.len() implies s.records[k].id != id by {
                        if s.records[k].id == id {
                            assert(has_id(s.records, id));
                        }
                    }
                }
            },
            Some(i) => {
                let is_pinned = match pinned {
                    Some(b) => b,
                    None => self.items[i].is_pinned,
                };
                let is_favorite = match favorite {
                    Some(b) => b,
                    None => self.items[i].is_favorite,
                };
                self.items[i].is_pinned = is_pinned;
                self.items[i].is_favorite = is_favorite;
                self.items[i].updated_at = now;
                assert(self@.records =~= s.records.map_values(
                    |c: ClipView|
                        if c.id == id {
                            flagged(c, pinned, favorite, now)
                        } else {
                            c
                        },
                ));
            },
        }
    }

    /// Replaces the content and preview of the record with id `id`, recomputes
    /// its hash from its kind, and refreshes its `updated_at`. Fails with
    /// `NotFound` when no record has that id.
    pub fn update_content(&mut self, id: i64, content: String, preview: Option<String>, now: i64) -> (r: Result<(), StoreError>)
        requires
            old(self).wf(),
        ensures
            final(self).wf(),
            r is Err <==> !has_id(old(self)@.records, id),
            r is Err ==> r == Err::<(), StoreError>(StoreError::NotFound) && final(self)@ == old(self)@,
            r is Ok ==> final(self)@ == (StoreView {
                records: old(self)@.records.map_values(
                    |c: ClipView|
                        if c.id == id {
                            edited(c, content@, opt_chars(preview), now)
                        } else {
                            c
                        },
                ),
                next_id: old(self)@.next_id,
            }),
    {
        let ghost s = self@;
        let ghost pv = opt_chars(preview);
        match self.position_of(id) {
            None => Err(StoreError::NotFound),
            Some(i) => {
                let hash = compute_content_hash(self.items[i].kind, content.as_str());
                self.items[i].content = content;
                self.items[i].content_hash = hash;
                self.items[i].preview = preview;
                self.items[i].updated_at = now;
                assert(self@.records =~= s.records.map_values(
                    |c: ClipView|
                        if c.id == id {
                            edited(c, content@, pv, now)
                        } else {
                            c
                        },
                ));
                Ok(())
            },
        }
    }

    /// Removes the record with id `id`, if there is one.
    pub fn delete(&mut self, id: i64)
        requires
            old(self).wf(),
        ensures
            final(self).wf(),
            final(self)@.next_id == old(self)@.next_id,
            final(self)@.records == old(self)@.records.filter(|c: ClipView| c.id != id),
    {
        let ghost s = self@;
        match self.position_of(id) {
            None => {
                assert(s.records.filter(|c: ClipView| c.id != id) =~= s.records) by {
                    lemma_filter_keeps_all(s.records, |c: ClipView| c.id != id);
                }
            },
            Some(i) => {
                self.items.remove(i);
                assert(self@.records =~= s.records.remove(i as int));
                proof {
                    lemma_filter_drops_one(s.records, id, i as int);
                }
            },
        }
    }

    /// Removes every record. Ids are not handed out again.
    pub fn clear(&mut self)
        requires
            old(self).wf(),
        ensures
            final(self).wf(),
            final(self)@.records.len() == 0,
            final(self)@.next_id == old(self)@.next_id,
    {
        self.items = Vec::new();
        assert(self@.records =~= Seq::<ClipView>::empty());
    }

    /// Brings the store up to date: every record stored without a hash gets
    /// the one computed from its kind and content, so that afterwards every
    /// record has a hash.
    pub fn migrate(&mut self)
        ensures
            final(self)@.next_id == old(self)@.next_id,
            final(self)@.records == old(self)@.records.map_values(|c: ClipView| with_hash(c)),
            forall|i: int|
                0 <= i < final(self)@.records.len() ==> #[trigger] final(self)@.records[i].content_hash.len() > 0,
            old(self).wf() ==> final(self).wf(),
    {
        self.populate_missing_hashes();
    }

    fn populate_missing_hashes(&mut self)
        ensures
            final(self)@.next_id == old(self)@.next_id,
            final(self)@.records == old(self)@.records.map_values(|c: ClipView| with_hash(c)),
            forall|i: int|
                0 <= i < final(self)@.records.len() ==> #[trigger] final(self)@.records[i].content_hash.len() > 0,
            old(self).wf() ==> final(self).wf(),
    {
        let ghost orig = self.items@;
        let mut i: usize = 0;
        while i < self.items.len()
            invariant
                self@.next_id == old(self)@.next_id,
                self.items@.len() == orig.len(),
                i <= orig.len(),
                forall|k: int| 0 <= k < i ==> #[trigger] self.items@[k]@ == with_hash(orig[k]@),
                forall|k: int| 0 <= k < i ==> #[trigger] self.items@[k]@.content_hash.len() > 0,
                forall|k: int| i <= k < orig.len() ==> #[trigger] self.items@[k] == orig[k],
            decreases orig.len() - i,
        {
            if self.items[i].content_hash.as_str().is_empty() {
                let hash = compute_content_hash(self.items[i].kind, self.items[i].content.as_str());
                let mut item = self.items[i].snapshot();
                item.content_hash = hash;
                self.items.set(i, item);
            }
            i = i + 1;
        }
        assert(self@.records =~= old(self)@.records.map_values(|c: ClipView| with_hash(c)));
        assert forall|k: int| 0 <= k < self@.records.len() implies #[trigger] self@.records[k].content_hash.len() > 0 by {
            assert(self@.records[k] == self.items@[k]@);
        }
    }
}

/// Once every record has a hash, migrating again changes nothing.
pub proof fn lemma_migrate_twice(s: Seq<ClipView>)
    requires
        forall|i: int| 0 <= i < s.len() ==> #[trigger] s[i].content_hash.len() > 0,
    ensures
        s.map_values(|c: ClipView| with_hash(c)) == s,
{
    assert(s.map_values(|c: ClipView| with_hash(c)) =~= s);
}

/// A record with its hash filled in when it has none.
pub open spec fn with_hash(c: ClipView) -> ClipView {
    if c.content_hash.len() == 0 {
        ClipView { content_hash: content_hash_of(c.kind, c.content), ..c }
    } else {
        c
    }
}

proof fn lemma_filter_keeps_all(s: Seq<ClipView>, p: spec_fn(ClipView) -> bool)
    requires
        forall|k: int| 0 <= k < s.len() ==> p(#[trigger] s[k]),
    ensures
        s.filter(p) == s,
    decreases s.len(),
{
    reveal(Seq::filter);
    if s.len() > 0 {
        lemma_filter_keeps_all(s.drop_last(), p);
        assert(s.drop_last().push(s.last()) =~= s);
    }
}

proof fn lemma_filter_drops_one(s: Seq<ClipView>, id: i64, i: int)
    requires
        0 <= i < s.len(),
        s[i].id == id,
        forall|k: int| 0 <= k < s.len() && k != i ==> #[trigger] s[k].id != id,
    ensures
        s.filter(|c: ClipView| c.id != id) == s.remove(i),
    decreases s.len(),
{
    reveal(Seq::filter);
    let p = |c: ClipView| c.id != id;
    if i == s.len() - 1 {
        lemma_filter_keeps_all(s.drop_last(), p);
        assert(s.remove(i) =~= s.drop_last());
    } else {
        lemma_filter_drops_one(s.drop_last(), id, i);
        assert(s.remove(i) =~= s.drop_last().remove(i).push(s.last()));
    }
}


/// `a` is listed before `b`: favourites first (when `favorites_first`), then
/// pinned records, then the most recently updated, then the highest id.
pub open spec fn ranks_before(a: ClipView, b: ClipView, favorites_first: bool) -> bool {
    if favorites_first && a.is_favorite != b.is_favorite {
        a.is_favorite
    } else if a.is_pinned != b.is_pinned {
        a.is_pinned
    } else if a.updated_at != b.updated_at {
        a.updated_at > b.updated_at
    } else {
        a.id > b.id
    }
}

/// `x` placed in `s` just before the first record it ranks before.
pub open spec fn insert_ranked(s: Seq<ClipView>, x: ClipView, ff: bool) -> Seq<ClipView>
    decreases s.len(),
{
    if s.len() == 0 {
        seq![x]
    } else if ranks_before(x, s[0], ff) {
        seq![x] + s
    } else {
        seq![s[0]] + insert_ranked(s.drop_first(), x, ff)
    }
}

/// `s` in listing order.
pub open spec fn ranked(s: Seq<ClipView>, ff: bool) -> Seq<ClipView>
    decreases s.len(),
{
    if s.len() == 0 {
        s
    } else {
        insert_ranked(ranked(s.drop_last(), ff), s.last(), ff)
    }
}

/// The lowercased search term of a query, or `None` when it is absent or blank.
pub open spec fn search_term(q: Option<Seq<char>>) -> Option<Seq<char>> {
    match q {
        Some(t) => if trimmed(t, false).len() > 0 {
            Some(lower_of(trimmed(t, false)))
        } else {
            None
        },
        None => None,
    }
}

/// A record matches a search term when the term occurs, ignoring case, in its
/// content or its preview.
pub open spec fn matches_term(c: ClipView, term: Option<Seq<char>>) -> bool {
    match term {
        None => true,
        Some(n) => occurs_in(n, lower_of(c.content)) || occurs_in(
            n,
            lower_of(
                match c.preview {
                    Some(p) => p,
                    None => Seq::empty(),
                },
            ),
        ),
    }
}

/// The page of `s` that starts at `offset` and holds at most `limit` records.
pub open spec fn page(s: Seq<ClipView>, offset: nat, limit: Option<u32>) -> Seq<ClipView> {
    let start = if offset <= s.len() {
        offset as int
    } else {
        s.len() as int
    };
    let end = match limit {
        Some(l) => if start + l <= s.len() {
            start + l
        } else {
            s.len() as int
        },
        None => s.len() as int,
    };
    s.subrange(start, end)
}

/// What `list` returns.
pub open spec fn listing(
    s: Seq<ClipView>,
    query: Option<Seq<char>>,
    limit: Option<u32>,
    offset: nat,
    ff: bool,
) -> Seq<ClipView> {
    page(ranked(s.filter(|c: ClipView| matches_term(c, search_term(query))), ff), offset, limit)
}

/// The records of `v`, viewed.
pub open spec fn views(v: Seq<ClipItem>) -> Seq<ClipView> {
    v.map_values(|c: ClipItem| c@)
}

/// The next id after importing `s` into a store whose next id is `n`.
pub open spec fn next_after(n: int, s: Seq<ClipView>) -> int
    decreases s.len(),
{
    if s.len() == 0 {
        n
    } else {
        let m = next_after(n, s.drop_last());
        if s.last().id + 1 > m {
            s.last().id + 1
        } else {
            m
        }
    }
}

/// Some imported record takes an id that is already present, or that another
/// imported record takes.
pub open spec fn ids_clash(existing: Seq<ClipView>, new: Seq<ClipView>) -> bool {
    (exists|i: int, j: int|
        0 <= i < new.len() && 0 <= j < existing.len() && #[trigger] new[i].id
            == #[trigger] existing[j].id) || (exists|i: int, j: int|
        0 <= i < new.len() && 0 <= j < new.len() && i != j && #[trigger] new[i].id
            == #[trigger] new[j].id)
}

/// The number of records updated at or after `t`.
pub open spec fn count_since(s: Seq<ClipView>, t: int) -> nat {
    s.filter(|c: ClipView| c.updated_at >= t).len()
}

/// `t` is the `updated_at` of the `keep`-th most recently updated record
/// (counting equal timestamps separately): the latest timestamp of a record
/// that has at least `keep` records updated at or after it.
pub open spec fn is_keep_threshold(s: Seq<ClipView>, keep: nat, t: int) -> bool {
    &&& exists|i: int| 0 <= i < s.len() && #[trigger] s[i].updated_at == t
    &&& count_since(s, t) >= keep
    &&& forall|j: int|
        0 <= j < s.len() && count_since(s, #[trigger] s[j].updated_at as int) >= keep
            ==> s[j].updated_at <= t
}

proof fn lemma_insert_ranked_at(t: Seq<ClipView>, x: ClipView, ff: bool, j: int)
    requires
        0 <= j <= t.len(),
        forall|k: int| 0 <= k < j ==> !ranks_before(x, #[trigger] t[k], ff),
        j == t.len() || ranks_before(x, t[j], ff),
    ensures
        insert_ranked(t, x, ff) == t.insert(j, x),
    decreases t.len(),
{
    if t.len() == 0 {
        assert(t.insert(j, x) =~= seq![x]);
    } else if j == 0 {
        assert(t.insert(j, x) =~= seq![x] + t);
    } else {
        assert(!ranks_before(x, t[0], ff));
        lemma_insert_ranked_at(t.drop_first(), x, ff, j - 1);
        assert(t.insert(j, x) =~= seq![t[0]] + t.drop_first().insert(j - 1, x));
    }
}

proof fn lemma_filter_step<A>(s: Seq<A>, i: int, p: spec_fn(A) -> bool)
    requires
        0 <= i < s.len(),
    ensures
        s.subrange(0, i + 1).filter(p) == if p(s[i]) {
            s.subrange(0, i).filter(p).push(s[i])
        } else {
            s.subrange(0, i).filter(p)
        },
{
    reveal(Seq::filter);
    assert(s.subrange(0, i + 1).drop_last() =~= s.subrange(0, i));
}

proof fn lemma_filter_member<A>(s: Seq<A>, p: spec_fn(A) -> bool, a: int)
    requires
        0 <= a < s.filter(p).len(),
    ensures
        exists|k: int| 0 <= k < s.len() && s[k] == s.filter(p)[a] && p(s[k]),
    decreases s.len(),
{
    reveal(Seq::filter);
    if s.len() > 0 {
        let f = s.drop_last().filter(p);
        if a < f.len() {
            lemma_filter_member(s.drop_last(), p, a);
            let k = choose|k: int| 0 <= k < s.drop_last().len() && s.drop_last()[k] == f[a] && p(s.drop_last()[k]);
            assert(s[k] == s.filter(p)[a]);
        } else {
            assert(s[s.len() - 1] == s.filter(p)[a]);
        }
    }
}

impl DbState {
    /// A page of the records in listing order, keeping those whose content
    /// or preview contains the trimmed `query`, ignoring case.
    pub fn list(&self, query: Option<String>, limit: Option<u32>, offset: u32, include_favorites_first: bool) -> (r: Vec<ClipItem>)
        requires
            self.wf(),
        ensures
            views(r@) == listing(self@.records, opt_chars(query), limit, offset as nat, include_favorites_first),
            sorted_by(views(r@), include_favorites_first),
            forall|i: int|
                0 <= i < r@.len() ==> self@.records.contains(#[trigger] views(r@)[i]) && matches_term(
                    views(r@)[i],
                    search_term(opt_chars(query)),
                ),
    {
        proof {
            lemma_listing_sorted(self@, opt_chars(query), limit, offset as nat, include_favorites_first);
        }
        let ghost term_spec = search_term(opt_chars(query));
        let term: Option<Vec<char>> = match &query {
            Some(q) => {
                let t = trim_chars(&chars_of(q.as_str()), false);
                if t.len() > 0 {
                    Some(chars_of(lowercase(string_of(&t).as_str()).as_str()))
                } else {
                    None
                }
            },
            None => None,
        };
        assert(term_spec == match term { Some(t) => Some(t@), None => None::<Seq<char>> });
        let ghost pred = |c: ClipView| matches_term(c, term_spec);
        let mut matched: Vec<ClipItem> = Vec::new();
        let mut i: usize = 0;
        while i < self.items.len()
            invariant
                i <= self.items@.len(),
                term_spec == match term { Some(t) => Some(t@), None => None::<Seq<char>> },
                pred == (|c: ClipView| matches_term(c, term_spec)),
                views(matched@) == self@.records.subrange(0, i as int).filter(pred),
            decreases self.items@.len() - i,
        {
            proof {
                lemma_filter_step(self@.records, i as int, pred);
            }
            let keep = match &term {
                None => true,
                Some(n) => {
                    let content = chars_of(lowercase(self.items[i].content.as_str()).as_str());
                    if contains_chars(&content, n) {
                        true
                    } else {
                        let preview = match &self.items[i].preview {
                            Some(p) => chars_of(lowercase(p.as_str()).as_str()),
                            None => chars_of(lowercase("").as_str()),
                        };
                        proof {
                            reveal_strlit("");
                            assert(""@ =~= Seq::<char>::empty());
                        }
                        contains_chars(&preview, n)
                    }
                },
            };
            assert(self@.records[i as int] == self.items@[i as int]@);
            assert(keep == pred(self@.records[i as int]));
            if keep {
                matched.push(self.items[i].snapshot());
            }
            i = i + 1;
            assert(views(matched@) =~= self@.records.subrange(0, i as int).filter(pred));
        }
        assert(self@.records.subrange(0, i as int) =~= self@.records);
        let ghost m = views(matched@);
        let mut sorted: Vec<ClipItem> = Vec::new();
        let mut i: usize = 0;
        while i < matched.len()
            invariant
                i <= matched@.len(),
                m == views(matched@),
                views(sorted@) == ranked(m.subrange(0, i as int), include_favorites_first),
            decreases matched@.len() - i,
        {
            let ghost before = views(sorted@);
            let x = matched[i].snapshot();
            let mut j: usize = 0;
            while j < sorted.len() && !self.ranks_before_exec(&x, &sorted[j], include_favorites_first)
                invariant
                    j <= sorted@.len(),
                    before == views(sorted@),
                    forall|k: int| 0 <= k < j ==> !ranks_before(x@, #[trigger] before[k], include_favorites_first),
                decreases sorted@.len() - j,
            {
                j = j + 1;
            }
            proof {
                lemma_insert_ranked_at(before, x@, include_favorites_first, j as int);
                assert(m.subrange(0, i as int + 1).drop_last() =~= m.subrange(0, i as int));
            }
            sorted.insert(j, x);
            i = i + 1;
            assert(views(sorted@) =~= before.insert(j as int, m[i - 1]));
        }
        assert(m.subrange(0, i as int) =~= m);
        let ghost full = views(sorted@);
        let n = sorted.len();
        let start: usize = if (offset as usize) <= n { offset as usize } else { n };
        let end: usize = match limit {
            Some(l) => if (l as usize) <= n - start { start + l as usize } else { n },
            None => n,
        };
        let mut out: Vec<ClipItem> = Vec::new();
        let mut k: usize = start;
        while k < end
            invariant
                start <= k <= end <= sorted@.len(),
                full == views(sorted@),
                views(out@) == full.subrange(start as int, k as int),
            decreases end - k,
        {
            assert(full[k as int] == sorted@[k as int]@);
            let ghost prev = out@;
            let item = sorted[k].snapshot();
            out.push(item);
            assert(out@ == prev.push(item));
            assert(views(out@) =~= views(prev).push(full[k as int]));
            k = k + 1;
            assert(views(out@) =~= full.subrange(start as int, k as int));
        }
        out
    }

    fn ranks_before_exec(&self, a: &ClipItem, b: &ClipItem, ff: bool) -> (r: bool)
        ensures
            r == ranks_before(a@, b@, ff),
    {
        if ff && a.is_favorite != b.is_favorite {
            a.is_favorite
        } else if a.is_pinned != b.is_pinned {
            a.is_pinned
        } else if a.updated_at != b.updated_at {
            a.updated_at > b.updated_at
        } else {
            a.id > b.id
        }
    }

    /// Every record, favourites first, for backup.
    pub fn export_all(&self) -> (r: Vec<ClipItem>)
        requires
            self.wf(),
        ensures
            views(r@) == ranked(self@.records, true),
    {
        let r = self.list(None, None, 0, true);
        proof {
            let pred = |c: ClipView| matches_term(c, search_term(None));
            lemma_filter_keeps_all(self@.records, pred);
            let full = ranked(self@.records, true);
            assert(full.subrange(0, full.len() as int) =~= full);
        }
        r
    }
}


proof fn lemma_next_after_bounds(n: int, s: Seq<ClipView>)
    ensures
        next_after(n, s) >= n,
        forall|k: int| 0 <= k < s.len() ==> #[trigger] s[k].id + 1 <= next_after(n, s),
        next_after(n, s) <= n || next_after(n, s) <= i64::MAX + 1,
    decreases s.len(),
{
    if s.len() > 0 {
        lemma_next_after_bounds(n, s.drop_last());
        assert forall|k: int| 0 <= k < s.len() implies #[trigger] s[k].id + 1 <= next_after(n, s) by {
            if k < s.len() - 1 {
                assert(s[k] == s.drop_last()[k]);
            }
        }
    }
}

proof fn lemma_filter_wf(s: StoreView, p: spec_fn(ClipView) -> bool)
    requires
        store_wf(s),
    ensures
        store_wf(StoreView { records: s.records.filter(p), ..s }),
    decreases s.records.len(),
{
    reveal(Seq::filter);
    let f = s.records.filter(p);
    assert forall|a: int| 0 <= a < f.len() implies exists|k: int|
        0 <= k < s.records.len() && s.records[k] == #[trigger] f[a] by {
        lemma_filter_member(s.records, p, a);
    }
    if s.records.len() > 0 {
        let d = StoreView { records: s.records.drop_last(), ..s };
        lemma_filter_wf(d, p);
        let fd = d.records.filter(p);
        assert forall|a: int| 0 <= a < fd.len() implies #[trigger] fd[a].id != s.records.last().id by {
            lemma_filter_member(d.records, p, a);
            let k = choose|k: int| 0 <= k < d.records.len() && d.records[k] == fd[a] && p(d.records[k]);
            assert(s.records[k] == d.records[k]);
        }
    }
}

impl DbState {
    /// Appends the records of `items` as they are, keeping their ids and
    /// timestamps, with a hash computed for each record that has none. Fails
    /// with `DuplicateId`, importing nothing, when an id is already taken or
    /// taken twice. Returns the number of records imported.
    pub fn import_many(&mut self, items: Vec<ClipItem>) -> (r: Result<usize, StoreError>)
        requires
            old(self).wf(),
        ensures
            final(self).wf(),
            ids_clash(old(self)@.records, views(items@)) ==> r == Err::<usize, StoreError>(
                StoreError::DuplicateId,
            ) && final(self)@ == old(self)@,
            !ids_clash(old(self)@.records, views(items@)) ==> r == Ok::<usize, StoreError>(
                items@.len() as usize,
            ) && final(self)@ == (StoreView {
                records: old(self)@.records + views(items@).map_values(|c: ClipView| with_hash(c)),
                next_id: next_after(old(self)@.next_id, views(items@)),
            }),
    {
        let ghost s = self@;
        let ghost new = views(items@);
        let mut i: usize = 0;
        while i < items.len()
            invariant
                self@ == s,
                store_wf(s),
                new == views(items@),
                i <= items@.len(),
                forall|a: int, b: int|
                    0 <= a < i && 0 <= b < s.records.len() ==> #[trigger] new[a].id
                        != #[trigger] s.records[b].id,
                forall|a: int, b: int|
                    0 <= a < i && 0 <= b < i && a != b ==> #[trigger] new[a].id != #[trigger] new[b].id,
            decreases items@.len() - i,
        {
            let mut j: usize = 0;
            while j < self.items.len()
                invariant
                    self@ == s,
                    store_wf(s),
                    new == views(items@),
                    i < items@.len(),
                    j <= s.records.len(),
                    forall|b: int| 0 <= b < j ==> new[i as int].id != #[trigger] s.records[b].id,
                decreases s.records.len() - j,
            {
                if items[i].id == self.items[j].id {
                    assert(new[i as int].id == s.records[j as int].id);
                    return Err(StoreError::DuplicateId);
                }
                j = j + 1;
            }
            let mut k: usize = 0;
            while k < i
                invariant
                    self@ == s,
                    store_wf(s),
                    new == views(items@),
                    i < items@.len(),
                    k <= i,
                    forall|b: int| 0 <= b < k ==> new[i as int].id != #[trigger] new[b].id,
                decreases i - k,
            {
                if items[k].id == items[i].id {
                    assert(new[i as int].id == new[k as int].id);
                    return Err(StoreError::DuplicateId);
                }
                k = k + 1;
            }
            i = i + 1;
        }
        assert(!ids_clash(s.records, new));
        proof {
            lemma_next_after_bounds(s.next_id, new);
        }
        let mut i: usize = 0;
        while i < items.len()
            invariant
                new == views(items@),
                !ids_clash(s.records, new),
                store_wf(s),
                i <= items@.len(),
                self@.records == s.records + new.subrange(0, i as int).map_values(
                    |c: ClipView| with_hash(c),
                ),
                self@.next_id == next_after(s.next_id, new.subrange(0, i as int)),
                forall|k: int| 0 <= k < s.records.len() + i ==> #[trigger] self@.records[k].content_hash.len() > 0,
            decreases items@.len() - i,
        {
            let mut item = items[i].snapshot();
            if item.content_hash.as_str().is_empty() {
                item.content_hash = compute_content_hash(item.kind, item.content.as_str());
            }
            let next = (item.id as i128) + 1;
            if next > self.next_id {
                self.next_id = next;
            }
            let ghost prev = self@.records;
            self.items.push(item);
            proof {
                assert(new.subrange(0, i as int + 1).drop_last() =~= new.subrange(0, i as int));
                assert(new.subrange(0, i as int + 1).map_values(|c: ClipView| with_hash(c))
                    =~= new.subrange(0, i as int).map_values(|c: ClipView| with_hash(c)).push(
                    with_hash(new[i as int]),
                ));
                assert(self@.records =~= prev.push(item@));
            }
            i = i + 1;
        }
        proof {
            assert(new.subrange(0, i as int) =~= new);
            let recs = self@.records;
            lemma_next_after_bounds(s.next_id, new);
            assert forall|a: int| 0 <= a < recs.len() implies #[trigger] recs[a].id < self@.next_id by {
                if a >= s.records.len() {
                    assert(recs[a].id == new[a - s.records.len()].id);
                }
            }
            assert forall|a: int, b: int|
                0 <= a < recs.len() && 0 <= b < recs.len() && a != b implies #[trigger] recs[a].id
                != #[trigger] recs[b].id by {
                let n = s.records.len() as int;
                if a >= n && b >= n {
                    assert(recs[a].id == new[a - n].id);
                    assert(recs[b].id == new[b - n].id);
                } else if a >= n {
                    assert(recs[a].id == new[a - n].id);
                    assert(recs[b] == s.records[b]);
                } else if b >= n {
                    assert(recs[b].id == new[b - n].id);
                    assert(recs[a] == s.records[a]);
                } else {
                    assert(recs[a] == s.records[a]);
                    assert(recs[b] == s.records[b]);
                }
            }
        }
        Ok(items.len())
    }

    /// The number of records updated at or after `t`.
    fn count_since_exec(&self, t: i64) -> (r: usize)
        ensures
            r == count_since(self@.records, t as int),
    {
        let ghost pred = |c: ClipView| c.updated_at >= t as int;
        let mut n: usize = 0;
        let mut i: usize = 0;
        while i < self.items.len()
            invariant
                i <= self.items@.len(),
                pred == (|c: ClipView| c.updated_at >= t as int),
                n == self@.records.subrange(0, i as int).filter(pred).len(),
                n <= i,
            decreases self.items@.len() - i,
        {
            proof {
                lemma_filter_step(self@.records, i as int, pred);
            }
            if self.items[i].updated_at >= t {
                n = n + 1;
            }
            i = i + 1;
        }
        assert(self@.records.subrange(0, i as int) =~= self@.records);
        n
    }

    /// Keeps the records updated at or after `t`; returns how many went.
    fn retain_since(&mut self, t: i128) -> (removed: usize)
        requires
            old(self).wf(),
        ensures
            final(self).wf(),
            final(self)@.next_id == old(self)@.next_id,
            final(self)@.records == old(self)@.records.filter(|c: ClipView| c.updated_at >= t),
            removed == old(self)@.records.len() - final(self)@.records.len(),
    {
        let ghost s = self@;
        let ghost pred = |c: ClipView| c.updated_at >= t;
        let mut kept: Vec<ClipItem> = Vec::new();
        let mut i: usize = 0;
        while i < self.items.len()
            invariant
                self@ == s,
                i <= self.items@.len(),
                pred == (|c: ClipView| c.updated_at >= t),
                views(kept@) == s.records.subrange(0, i as int).filter(pred),
                kept@.len() <= i,
            decreases self.items@.len() - i,
        {
            proof {
                lemma_filter_step(s.records, i as int, pred);
            }
            if (self.items[i].updated_at as i128) >= t {
                let ghost prev = kept@;
                let item = self.items[i].snapshot();
                kept.push(item);
                assert(views(kept@) =~= views(prev).push(s.records[i as int]));
            }
            i = i + 1;
        }
        assert(s.records.subrange(0, i as int) =~= s.records);
        let removed = self.items.len() - kept.len();
        self.items = kept;
        proof {
            lemma_filter_wf(s, pred);
        }
        removed
    }

    /// Keeps the `keep_latest` most recently updated records: every record
    /// updated strictly before the `keep_latest`-th most recent one goes, so
    /// records that share its timestamp stay. Nothing goes when `keep_latest`
    /// is zero or exceeds the number of records. Returns how many went.
    pub fn prune_older_than(&mut self, keep_latest: usize) -> (r: usize)
        requires
            old(self).wf(),
        ensures
            final(self).wf(),
            pruned_to(old(self)@, keep_latest as nat, final(self)@),
            r == old(self)@.records.len() - final(self)@.records.len(),
    {
        if keep_latest == 0 || keep_latest > self.items.len() {
            return 0;
        }
        let ghost s = self@.records;
        let mut best: Option<i64> = None;
        let mut min_idx: usize = 0;
        let mut i: usize = 0;
        while i < self.items.len()
            invariant
                self@.records == s,
                self.wf(),
                0 < keep_latest <= s.len(),
                i <= s.len(),
                min_idx < s.len(),
                i > 0 ==> min_idx < i,
                forall|k: int| 0 <= k < i ==> s[min_idx as int].updated_at <= #[trigger] s[k].updated_at,
                best matches Some(b) ==> exists|k: int|
                    0 <= k < i && #[trigger] s[k].updated_at == b && count_since(s, b as int)
                        >= keep_latest,
                forall|k: int|
                    0 <= k < i && count_since(s, #[trigger] s[k].updated_at as int) >= keep_latest
                        ==> (best matches Some(b) && s[k].updated_at <= b),
            decreases s.len() - i,
        {
            let t = self.items[i].updated_at;
            assert(s[i as int].updated_at == t);
            if i == 0 || t < self.items[min_idx].updated_at {
                min_idx = i;
            }
            let n = self.count_since_exec(t);
            if n >= keep_latest {
                match best {
                    Some(b) => if t > b {
                        best = Some(t);
                    },
                    None => {
                        best = Some(t);
                    },
                }
            }
            i = i + 1;
        }
        proof {
            let lo = s[min_idx as int].updated_at;
            lemma_filter_keeps_all(s, |c: ClipView| c.updated_at >= lo as int);
            assert(count_since(s, s[min_idx as int].updated_at as int) >= keep_latest);
        }
        match best {
            Some(b) => {
                assert(is_keep_threshold(s, keep_latest as nat, b as int));
                let r = self.retain_since(b as i128);
                assert(self@ == (StoreView {
                    records: s.filter(|c: ClipView| c.updated_at >= b as int),
                    ..old(self)@
                }));
                r
            },
            None => 0,
        }
    }
}


/// `after` is `s` trimmed to its `keep` most recently updated records: those
/// updated before the `keep`-th most recent one are gone. Nothing goes when
/// `keep` is zero or exceeds the number of records.
pub open spec fn pruned_to(s: StoreView, keep: nat, after: StoreView) -> bool {
    if keep == 0 || keep > s.records.len() {
        after == s
    } else {
        exists|t: int|
            is_keep_threshold(s.records, keep, t) && after == (StoreView {
                records: s.records.filter(|c: ClipView| c.updated_at >= t),
                ..s
            })
    }
}

/// The first timestamp that a record must reach to survive an age limit of
/// `days` days at time `now`.
pub open spec fn age_cutoff(now: i64, days: u32) -> int {
    now - days * 86400
}

/// `mid` is `s` after the count limit of `policy`.
pub open spec fn count_limited(s: StoreView, policy: RetentionPolicy, mid: StoreView) -> bool {
    match policy.max_entries {
        Some(k) => pruned_to(s, k as nat, mid),
        None => mid == s,
    }
}

/// `after` is `mid` after the age limit of `policy` at time `now`.
pub open spec fn age_limited(mid: StoreView, policy: RetentionPolicy, now: i64, after: StoreView) -> bool {
    match policy.max_age_days {
        Some(d) => after == (StoreView {
            records: mid.records.filter(|c: ClipView| c.updated_at >= age_cutoff(now, d)),
            ..mid
        }),
        None => after == mid,
    }
}

/// `after` is `s` with the retention policy applied at time `now`: first the
/// count limit, then the age limit.
pub open spec fn retained(s: StoreView, policy: RetentionPolicy, now: i64, after: StoreView) -> bool {
    exists|mid: StoreView| #[trigger] count_limited(s, policy, mid) && age_limited(mid, policy, now, after)
}

impl DbState {
    /// Applies the retention policy at time `now`: keeps at most
    /// `max_entries` of the most recently updated records, then drops those
    /// older than `max_age_days`. Returns how many went.
    pub fn apply_retention(&mut self, policy: &RetentionPolicy, now: i64) -> (r: usize)
        requires
            old(self).wf(),
        ensures
            final(self).wf(),
            retained(old(self)@, *policy, now, final(self)@),
            r == old(self)@.records.len() - final(self)@.records.len(),
    {
        let ghost s = self@;
        let n0 = self.items.len();
        assert(s.records.len() == n0);
        let mut removed: usize = 0;
        match policy.max_entries {
            Some(k) => {
                removed = self.prune_older_than(k);
            },
            None => {},
        }
        let ghost mid = self@;
        assert(removed as int == s.records.len() - mid.records.len());
        match policy.max_age_days {
            Some(d) => {
                let cutoff: i128 = now as i128 - (d as i128) * 86400;
                let more = self.retain_since(cutoff);
                removed = removed + more;
            },
            None => {},
        }
        assert(count_limited(s, *policy, mid));
        assert(retained(s, *policy, now, self@)) by {
            match policy.max_age_days {
                Some(d) => {
                    assert(self@ == (StoreView {
                        records: mid.records.filter(|c: ClipView| c.updated_at >= age_cutoff(now, d)),
                        ..mid
                    }));
                },
                None => {},
            }
        }
        removed
    }
}


/// At most one record carries hash `h`.
pub open spec fn hash_at_most_once(s: Seq<ClipView>, h: Seq<char>) -> bool {
    forall|i: int, j: int|
        0 <= i < s.len() && 0 <= j < s.len() && #[trigger] s[i].content_hash == h
            && #[trigger] s[j].content_hash == h ==> i == j
}

proof fn lemma_upsert_target_is(s: Seq<ClipView>, h: Seq<char>, i: int)
    requires
        first_with_hash(s, h, i),
    ensures
        upsert_target(s, h) == i,
{
    assert forall|k: int| first_with_hash(s, h, k) implies k == i by {
        if k < i {
            assert(s[k].content_hash != h);
        } else if k > i {
            assert(s[i].content_hash != h);
        }
    }
}

proof fn lemma_no_upsert_target(s: Seq<ClipView>, h: Seq<char>)
    requires
        forall|k: int| 0 <= k < s.len() ==> #[trigger] s[k].content_hash != h,
    ensures
        upsert_target(s, h) == -1,
{
}

/// Upserting an unchanged payload twice leaves exactly one record with its
/// hash: the second upsert refreshes the record that the first wrote, keeping
/// its id and `created_at` and moving its `updated_at`.
pub proof fn lemma_upsert_twice(s: StoreView, p: PayloadView, t1: i64, t2: i64)
    requires
        store_wf(s),
        upsert_possible(s, p),
        hash_at_most_once(s.records, payload_hash(p)),
    ensures
        ({
            let h = payload_hash(p);
            let s1 = after_upsert(s, p, t1);
            let s2 = after_upsert(s1, p, t2);
            let i = upsert_index(s, p);
            &&& upsert_possible(s1, p)
            &&& upsert_index(s1, p) == i
            &&& s2.records.len() == s1.records.len()
            &&& 0 <= i < s2.records.len()
            &&& s2.records[i].content_hash == h
            &&& forall|j: int| 0 <= j < s2.records.len() && j != i ==> #[trigger] s2.records[j].content_hash != h
            &&& s2.records[i].id == s1.records[i].id
            &&& s2.records[i].created_at == s1.records[i].created_at
            &&& s2.records[i].updated_at == t2
        }),
{
    let h = payload_hash(p);
    let s1 = after_upsert(s, p, t1);
    if exists|i: int| first_with_hash(s.records, h, i) {
        let i = choose|i: int| first_with_hash(s.records, h, i);
        lemma_upsert_target_is(s.records, h, i);
        assert forall|j: int| 0 <= j < s.records.len() && j != i implies #[trigger] s.records[j].content_hash
            != h by {
            if s.records[j].content_hash == h {
                assert(s.records[i].content_hash == h);
            }
        }
        assert(first_with_hash(s1.records, h, i));
        lemma_upsert_target_is(s1.records, h, i);
    } else {
        assert forall|k: int| 0 <= k < s.records.len() implies #[trigger] s.records[k].content_hash
            != h by {
            if s.records[k].content_hash == h {
                let k0 = choose|k0: int| 0 <= k0 < s.records.len() && s.records[k0].content_hash == h && forall|m: int| 0 <= m < k0 ==> s.records[m].content_hash != h;
                assert(first_with_hash(s.records, h, k0));
            }
        }
        lemma_no_upsert_target(s.records, h);
        let i = s.records.len() as int;
        assert(first_with_hash(s1.records, h, i));
        lemma_upsert_target_is(s1.records, h, i);
    }
}


/// No two records share an `updated_at`.
pub open spec fn distinct_updates(s: Seq<ClipView>) -> bool {
    forall|i: int, j: int|
        0 <= i < s.len() && 0 <= j < s.len() && i != j ==> #[trigger] s[i].updated_at
            != #[trigger] s[j].updated_at
}

proof fn lemma_filter_split(
    s: Seq<ClipView>,
    p: spec_fn(ClipView) -> bool,
    q: spec_fn(ClipView) -> bool,
    r: spec_fn(ClipView) -> bool,
)
    requires
        forall|k: int| 0 <= k < s.len() ==> (p(#[trigger] s[k]) <==> (q(s[k]) || r(s[k]))),
        forall|k: int| 0 <= k < s.len() ==> !(q(#[trigger] s[k]) && r(s[k])),
    ensures
        s.filter(p).len() == s.filter(q).len() + s.filter(r).len(),
    decreases s.len(),
{
    reveal(Seq::filter);
    if s.len() > 0 {
        lemma_filter_split(s.drop_last(), p, q, r);
        assert(p(s.last()) <==> (q(s.last()) || r(s.last())));
        assert(!(q(s.last()) && r(s.last())));
    }
}

proof fn lemma_count_at(s: Seq<ClipView>, t: int)
    requires
        distinct_updates(s),
    ensures
        s.filter(|c: ClipView| c.updated_at == t).len() == if exists|i: int|
            0 <= i < s.len() && #[trigger] s[i].updated_at == t {
            1int
        } else {
            0int
        },
    decreases s.len(),
{
    reveal(Seq::filter);
    if s.len() > 0 {
        let d = s.drop_last();
        assert(distinct_updates(d)) by {
            assert forall|i: int, j: int|
                0 <= i < d.len() && 0 <= j < d.len() && i != j implies #[trigger] d[i].updated_at
                != #[trigger] d[j].updated_at by {
                assert(d[i] == s[i] && d[j] == s[j]);
            }
        }
        lemma_count_at(d, t);
        if s.last().updated_at == t {
            assert forall|i: int| 0 <= i < d.len() implies #[trigger] d[i].updated_at != t by {
                assert(d[i] == s[i]);
                assert(s[i].updated_at != s[s.len() - 1].updated_at);
            }
        } else {
            if exists|i: int| 0 <= i < s.len() && #[trigger] s[i].updated_at == t {
                let i = choose|i: int| 0 <= i < s.len() && #[trigger] s[i].updated_at == t;
                assert(d[i] == s[i]);
            }
            if exists|i: int| 0 <= i < d.len() && #[trigger] d[i].updated_at == t {
                let i = choose|i: int| 0 <= i < d.len() && #[trigger] d[i].updated_at == t;
                assert(d[i] == s[i]);
            }
        }
    }
}

proof fn lemma_least_above(s: Seq<ClipView>, t: int) -> (m: int)
    requires
        exists|k: int| 0 <= k < s.len() && #[trigger] s[k].updated_at > t,
    ensures
        0 <= m < s.len(),
        s[m].updated_at > t,
        forall|k: int| 0 <= k < s.len() && #[trigger] s[k].updated_at > t ==> s[k].updated_at >= s[m].updated_at,
    decreases s.len(),
{
    let d = s.drop_last();
    if exists|k: int| 0 <= k < d.len() && #[trigger] d[k].updated_at > t {
        let m0 = lemma_least_above(d, t);
        assert(d[m0] == s[m0]);
        let last = s.len() - 1;
        let m = if s[last].updated_at > t && s[last].updated_at < s[m0].updated_at {
            last
        } else {
            m0
        };
        assert forall|k: int| 0 <= k < s.len() && #[trigger] s[k].updated_at > t implies s[k].updated_at
            >= s[m].updated_at by {
            if k < last {
                assert(d[k] == s[k]);
            }
        }
        m
    } else {
        let last = s.len() - 1;
        assert forall|k: int| 0 <= k < s.len() && #[trigger] s[k].updated_at > t implies k == last by {
            if k < last {
                assert(d[k] == s[k]);
            }
        }
        last
    }
}

proof fn lemma_filter_same(s: Seq<ClipView>, p: spec_fn(ClipView) -> bool, q: spec_fn(ClipView) -> bool)
    requires
        forall|k: int| 0 <= k < s.len() ==> (p(#[trigger] s[k]) <==> q(s[k])),
    ensures
        s.filter(p) == s.filter(q),
    decreases s.len(),
{
    reveal(Seq::filter);
    if s.len() > 0 {
        lemma_filter_same(s.drop_last(), p, q);
        assert(p(s.last()) <==> q(s.last()));
    }
}

/// When no two records share an `updated_at`, pruning `s` to `keep` of its
/// records, fewer than it has, leaves exactly `keep`, and every record kept
/// was updated later than every record removed.
pub proof fn lemma_prune_keeps_latest(s: StoreView, keep: nat, after: StoreView)
    requires
        distinct_updates(s.records),
        0 < keep < s.records.len(),
        pruned_to(s, keep, after),
    ensures
        after.records.len() == keep,
        forall|x: ClipView, y: ClipView|
            after.records.contains(x) && s.records.contains(y) && !after.records.contains(y)
                ==> y.updated_at < x.updated_at,
{
    broadcast use Seq::lemma_filter_contains_rev;
    let r = s.records;
    let t = choose|t: int|
        is_keep_threshold(r, keep, t) && after == (StoreView {
            records: r.filter(|c: ClipView| c.updated_at >= t),
            ..s
        });
    let ge_t = |c: ClipView| c.updated_at >= t;
    let gt_t = |c: ClipView| c.updated_at > t;
    let eq_t = |c: ClipView| c.updated_at == t;
    lemma_filter_split(r, ge_t, gt_t, eq_t);
    lemma_count_at(r, t);
    assert(r.filter(eq_t).len() == 1);
    let c = r.filter(ge_t).len();
    assert(c == count_since(r, t));
    if c > keep {
        assert(r.filter(gt_t).len() >= 1);
        assert(r.filter(gt_t).contains(r.filter(gt_t)[0]));
        let y0 = r.filter(gt_t)[0];
        assert(r.contains(y0));
        broadcast use Seq::lemma_filter_pred;
        assert(gt_t(r.filter(gt_t)[0]));
        let k0 = choose|k: int| 0 <= k < r.len() && r[k] == y0;
        assert(r[k0].updated_at > t);
        let m = lemma_least_above(r, t);
        let w = r[m].updated_at as int;
        let ge_w = |c: ClipView| c.updated_at >= w;
        lemma_filter_same(r, gt_t, ge_w);
        assert(count_since(r, w) == r.filter(ge_w).len());
        assert(count_since(r, r[m].updated_at as int) >= keep);
        assert(r[m].updated_at <= t);
    }
    assert forall|x: ClipView, y: ClipView|
        after.records.contains(x) && r.contains(y) && !after.records.contains(y) implies y.updated_at
        < x.updated_at by {
        let a = choose|a: int| 0 <= a < after.records.len() && after.records[a] == x;
        assert(ge_t(r.filter(ge_t)[a]));
        let k = choose|k: int| 0 <= k < r.len() && r[k] == y;
        if y.updated_at >= t {
            r.lemma_filter_contains(ge_t, k);
        }
    }
}


/// No record of `t` ranks before an earlier one.
pub open spec fn sorted_by(t: Seq<ClipView>, ff: bool) -> bool {
    forall|i: int, j: int| 0 <= i < j < t.len() ==> !ranks_before(#[trigger] t[j], #[trigger] t[i], ff)
}

pub open spec fn distinct_ids(t: Seq<ClipView>) -> bool {
    forall|i: int, j: int|
        0 <= i < t.len() && 0 <= j < t.len() && i != j ==> #[trigger] t[i].id != #[trigger] t[j].id
}

proof fn lemma_insert_shape(t: Seq<ClipView>, x: ClipView, ff: bool) -> (j: int)
    ensures
        0 <= j <= t.len(),
        insert_ranked(t, x, ff) == t.insert(j, x),
        forall|k: int| 0 <= k < j ==> !ranks_before(x, #[trigger] t[k], ff),
        j == t.len() || ranks_before(x, t[j], ff),
    decreases t.len(),
{
    if t.len() == 0 {
        assert(t.insert(0, x) =~= seq![x]);
        0
    } else if ranks_before(x, t[0], ff) {
        assert(t.insert(0, x) =~= seq![x] + t);
        0
    } else {
        let tail = t.drop_first();
        let j = lemma_insert_shape(tail, x, ff);
        assert(seq![t[0]] + tail.insert(j, x) =~= t.insert(j + 1, x));
        assert forall|k: int| 0 <= k < j + 1 implies !ranks_before(x, #[trigger] t[k], ff) by {
            if k > 0 {
                assert(t[k] == tail[k - 1]);
            }
        }
        j + 1
    }
}

/// Ranking records with distinct ids keeps exactly those records, with
/// distinct ids.
pub proof fn lemma_ranked_perm(s: Seq<ClipView>, ff: bool)
    requires
        distinct_ids(s),
    ensures
        ranked(s, ff).len() == s.len(),
        distinct_ids(ranked(s, ff)),
        forall|i: int| 0 <= i < s.len() ==> ranked(s, ff).contains(#[trigger] s[i]),
        forall|i: int| 0 <= i < s.len() ==> s.contains(#[trigger] ranked(s, ff)[i]),
    decreases s.len(),
{
    if s.len() > 0 {
        let d = s.drop_last();
        let x = s.last();
        assert(distinct_ids(d)) by {
            assert forall|i: int, j: int|
                0 <= i < d.len() && 0 <= j < d.len() && i != j implies #[trigger] d[i].id
                != #[trigger] d[j].id by {
                assert(d[i] == s[i] && d[j] == s[j]);
            }
        }
        lemma_ranked_perm(d, ff);
        let rd = ranked(d, ff);
        let j = lemma_insert_shape(rd, x, ff);
        let r = ranked(s, ff);
        assert(r == rd.insert(j, x));
        assert forall|a: int| 0 <= a < rd.len() implies #[trigger] rd[a].id != x.id by {
            assert(d.contains(rd[a]));
            let k = choose|k: int| 0 <= k < d.len() && d[k] == rd[a];
            assert(d[k] == s[k]);
        }
        assert forall|a: int, b: int|
            0 <= a < r.len() && 0 <= b < r.len() && a != b implies #[trigger] r[a].id
            != #[trigger] r[b].id by {
            if a < j && b < j {
                assert(r[a] == rd[a] && r[b] == rd[b]);
            } else if a < j && b > j {
                assert(r[a] == rd[a] && r[b] == rd[b - 1]);
            } else if a > j && b < j {
                assert(r[a] == rd[a - 1] && r[b] == rd[b]);
            } else if a > j && b > j {
                assert(r[a] == rd[a - 1] && r[b] == rd[b - 1]);
            } else if a == j {
                if b < j {
                    assert(r[b] == rd[b]);
                } else {
                    assert(r[b] == rd[b - 1]);
                }
            } else {
                if a < j {
                    assert(r[a] == rd[a]);
                } else {
                    assert(r[a] == rd[a - 1]);
                }
            }
        }
        assert forall|i: int| 0 <= i < s.len() implies r.contains(#[trigger] s[i]) by {
            if i == s.len() - 1 {
                assert(r[j] == x);
            } else {
                assert(s[i] == d[i]);
                assert(rd.contains(d[i]));
                let a = choose|a: int| 0 <= a < rd.len() && rd[a] == d[i];
                if a < j {
                    assert(r[a] == rd[a]);
                } else {
                    assert(r[a + 1] == rd[a]);
                }
            }
        }
        assert forall|i: int| 0 <= i < s.len() implies s.contains(#[trigger] r[i]) by {
            if i == j {
                assert(s[s.len() - 1] == x);
            } else {
                let a = if i < j {
                    i
                } else {
                    i - 1
                };
                assert(r[i] == rd[a]);
                assert(d.contains(rd[a]));
                let k = choose|k: int| 0 <= k < d.len() && d[k] == rd[a];
                assert(s[k] == d[k]);
            }
        }
    }
}

/// Ranked records are in listing order: none ranks before an earlier one.
pub proof fn lemma_ranked_sorted(s: Seq<ClipView>, ff: bool)
    ensures
        sorted_by(ranked(s, ff), ff),
    decreases s.len(),
{
    if s.len() > 0 {
        let d = s.drop_last();
        let x = s.last();
        lemma_ranked_sorted(d, ff);
        let rd = ranked(d, ff);
        let j = lemma_insert_shape(rd, x, ff);
        let r = ranked(s, ff);
        assert forall|a: int, b: int| 0 <= a < b < r.len() implies !ranks_before(
            #[trigger] r[b],
            #[trigger] r[a],
            ff,
        ) by {
            if b < j {
                assert(r[a] == rd[a] && r[b] == rd[b]);
            } else if a > j {
                assert(r[a] == rd[a - 1] && r[b] == rd[b - 1]);
            } else if a < j && b > j {
                assert(r[a] == rd[a] && r[b] == rd[b - 1]);
            } else if b == j {
                assert(r[a] == rd[a]);
            } else {
                assert(a == j);
                assert(r[b] == rd[b - 1]);
                if b - 1 > j {
                    assert(!ranks_before(rd[b - 1], rd[j], ff));
                }
            }
        }
    }
}

/// Ranking records already in listing order leaves them as they are.
pub proof fn lemma_ranked_fixed(t: Seq<ClipView>, ff: bool)
    requires
        sorted_by(t, ff),
    ensures
        ranked(t, ff) == t,
    decreases t.len(),
{
    if t.len() > 0 {
        let d = t.drop_last();
        assert(sorted_by(d, ff)) by {
            assert forall|i: int, j: int| 0 <= i < j < d.len() implies !ranks_before(
                #[trigger] d[j],
                #[trigger] d[i],
                ff,
            ) by {
                assert(d[i] == t[i] && d[j] == t[j]);
            }
        }
        lemma_ranked_fixed(d, ff);
        let j = lemma_insert_shape(d, t.last(), ff);
        if j < d.len() {
            assert(d[j] == t[j]);
            assert(!ranks_before(t[t.len() - 1], t[j], ff));
        }
        assert(d.insert(d.len() as int, t.last()) =~= t);
    }
}

/// Exporting a store and importing the export into an empty store succeeds
/// (no ids clash) and reproduces the store: the same records, ids, hashes,
/// flags and timestamps, and the new store exports exactly what the old one
/// did.
pub proof fn lemma_export_import(s: StoreView)
    requires
        store_wf(s),
    ensures
        ({
            let e = ranked(s.records, true);
            let imported = Seq::<ClipView>::empty() + e.map_values(|c: ClipView| with_hash(c));
            &&& !ids_clash(Seq::<ClipView>::empty(), e)
            &&& imported == e
            &&& ranked(imported, true) == e
            &&& e.len() == s.records.len()
            &&& forall|i: int| 0 <= i < s.records.len() ==> e.contains(#[trigger] s.records[i])
            &&& forall|i: int| 0 <= i < e.len() ==> s.records.contains(#[trigger] e[i])
        }),
{
    let r = s.records;
    assert(distinct_ids(r));
    lemma_ranked_perm(r, true);
    lemma_ranked_sorted(r, true);
    let e = ranked(r, true);
    lemma_ranked_fixed(e, true);
    let imported = Seq::<ClipView>::empty() + e.map_values(|c: ClipView| with_hash(c));
    assert forall|i: int| 0 <= i < e.len() implies #[trigger] e[i].content_hash.len() > 0 by {
        assert(r.contains(e[i]));
        let k = choose|k: int| 0 <= k < r.len() && r[k] == e[i];
    }
    assert(imported =~= e);
}


/// Two sequences in listing order, each with distinct ids, that hold the same
/// records are equal: the listing order of a set of records is unique.
pub proof fn lemma_ranked_unique(a: Seq<ClipView>, b: Seq<ClipView>, ff: bool)
    requires
        sorted_by(a, ff),
        sorted_by(b, ff),
        distinct_ids(a),
        distinct_ids(b),
        forall|x: ClipView| a.contains(x) <==> b.contains(x),
    ensures
        a == b,
    decreases a.len(),
{
    if a.len() == 0 {
        if b.len() > 0 {
            assert(b.contains(b[0]));
        }
        assert(a =~= b);
    } else {
        assert(a.contains(a[0]));
        assert(b.len() > 0);
        assert(b.contains(b[0]));
        let k = choose|k: int| 0 <= k < b.len() && b[k] == a[0];
        let m = choose|m: int| 0 <= m < a.len() && a[m] == b[0];
        if a[0] != b[0] {
            assert(k != 0 && m != 0);
            assert(!ranks_before(b[k], b[0], ff));
            assert(!ranks_before(a[m], a[0], ff));
            assert(b[k].id != b[0].id);
        }
        let a1 = a.drop_first();
        let b1 = b.drop_first();
        assert(sorted_by(a1, ff)) by {
            assert forall|i: int, j: int| 0 <= i < j < a1.len() implies !ranks_before(#[trigger] a1[j], #[trigger] a1[i], ff) by {
                assert(a1[i] == a[i + 1] && a1[j] == a[j + 1]);
            }
        }
        assert(sorted_by(b1, ff)) by {
            assert forall|i: int, j: int| 0 <= i < j < b1.len() implies !ranks_before(#[trigger] b1[j], #[trigger] b1[i], ff) by {
                assert(b1[i] == b[i + 1] && b1[j] == b[j + 1]);
            }
        }
        assert(distinct_ids(a1)) by {
            assert forall|i: int, j: int| 0 <= i < a1.len() && 0 <= j < a1.len() && i != j implies #[trigger] a1[i].id != #[trigger] a1[j].id by {
                assert(a1[i] == a[i + 1] && a1[j] == a[j + 1]);
            }
        }
        assert(distinct_ids(b1)) by {
            assert forall|i: int, j: int| 0 <= i < b1.len() && 0 <= j < b1.len() && i != j implies #[trigger] b1[i].id != #[trigger] b1[j].id by {
                assert(b1[i] == b[i + 1] && b1[j] == b[j + 1]);
            }
        }
        assert forall|x: ClipView| a1.contains(x) <==> b1.contains(x) by {
            if a1.contains(x) {
                let i = choose|i: int| 0 <= i < a1.len() && a1[i] == x;
                assert(a[i + 1] == x);
                assert(a.contains(x));
                assert(x != a[0]);
                let j = choose|j: int| 0 <= j < b.len() && b[j] == x;
                assert(j != 0);
                assert(b1[j - 1] == x);
            }
            if b1.contains(x) {
                let i = choose|i: int| 0 <= i < b1.len() && b1[i] == x;
                assert(b[i + 1] == x);
                assert(b.contains(x));
                assert(x != b[0]);
                let j = choose|j: int| 0 <= j < a.len() && a[j] == x;
                assert(j != 0);
                assert(a1[j - 1] == x);
            }
        }
        lemma_ranked_unique(a1, b1, ff);
        assert(a =~= seq![a[0]] + a1);
        assert(b =~= seq![b[0]] + b1);
    }
}

proof fn lemma_filter_same_members(a: Seq<ClipView>, b: Seq<ClipView>, p: spec_fn(ClipView) -> bool)
    requires
        forall|x: ClipView| a.contains(x) <==> b.contains(x),
    ensures
        forall|x: ClipView| a.filter(p).contains(x) <==> b.filter(p).contains(x),
{
    broadcast use Seq::lemma_filter_contains_rev;
    assert forall|x: ClipView| a.filter(p).contains(x) implies b.filter(p).contains(x) by {
        let i = choose|i: int| 0 <= i < a.filter(p).len() && a.filter(p)[i] == x;
        a.lemma_filter_pred(p, i);
        let j = choose|j: int| 0 <= j < b.len() && b[j] == x;
        b.lemma_filter_contains(p, j);
    }
    assert forall|x: ClipView| b.filter(p).contains(x) implies a.filter(p).contains(x) by {
        let i = choose|i: int| 0 <= i < b.filter(p).len() && b.filter(p)[i] == x;
        b.lemma_filter_pred(p, i);
        let j = choose|j: int| 0 <= j < a.len() && a[j] == x;
        a.lemma_filter_contains(p, j);
    }
}

proof fn lemma_ranked_members(s: Seq<ClipView>, ff: bool)
    requires
        distinct_ids(s),
    ensures
        forall|x: ClipView| ranked(s, ff).contains(x) <==> s.contains(x),
{
    lemma_ranked_perm(s, ff);
    let r = ranked(s, ff);
    assert forall|x: ClipView| r.contains(x) <==> s.contains(x) by {
        if r.contains(x) {
            let i = choose|i: int| 0 <= i < r.len() && r[i] == x;
            assert(s.contains(r[i]));
        }
        if s.contains(x) {
            let i = choose|i: int| 0 <= i < s.len() && s[i] == x;
            assert(r.contains(s[i]));
        }
    }
}

/// Importing the export of a store into an empty store gives a store whose
/// `list` returns what the first store's `list` returns, for every query,
/// limit, offset and ordering.
pub proof fn lemma_export_import_lists(
    s: StoreView,
    query: Option<Seq<char>>,
    limit: Option<u32>,
    offset: nat,
    ff: bool,
)
    requires
        store_wf(s),
    ensures
        ({
            let e = ranked(s.records, true);
            let imported = Seq::<ClipView>::empty() + e.map_values(|c: ClipView| with_hash(c));
            listing(imported, query, limit, offset, ff) == listing(s.records, query, limit, offset, ff)
        }),
{
    lemma_export_import(s);
    let e = ranked(s.records, true);
    lemma_ranked_perm(s.records, true);
    lemma_ranked_members(s.records, true);
    let p = |c: ClipView| matches_term(c, search_term(query));
    let se = StoreView { records: e, ..s };
    assert(store_wf(se)) by {
        assert forall|i: int| 0 <= i < e.len() implies #[trigger] e[i].id < s.next_id && e[i].content_hash.len() > 0 by {
            assert(s.records.contains(e[i]));
        }
    }
    lemma_filter_wf(se, p);
    lemma_filter_wf(s, p);
    let fe = e.filter(p);
    let fs = s.records.filter(p);
    lemma_filter_same_members(e, s.records, p);
    lemma_ranked_members(fe, ff);
    lemma_ranked_members(fs, ff);
    lemma_ranked_perm(fe, ff);
    lemma_ranked_perm(fs, ff);
    lemma_ranked_sorted(fe, ff);
    lemma_ranked_sorted(fs, ff);
    lemma_ranked_unique(ranked(fe, ff), ranked(fs, ff), ff);
}


/// A listing is in listing order, and each record in it is a stored record
/// that matches the query.
pub proof fn lemma_listing_sorted(
    s: StoreView,
    query: Option<Seq<char>>,
    limit: Option<u32>,
    offset: nat,
    ff: bool,
)
    requires
        store_wf(s),
    ensures
        ({
            let l = listing(s.records, query, limit, offset, ff);
            &&& sorted_by(l, ff)
            &&& forall|i: int|
                0 <= i < l.len() ==> s.records.contains(#[trigger] l[i]) && matches_term(
                    l[i],
                    search_term(query),
                )
        }),
{
    broadcast use Seq::lemma_filter_contains_rev;
    let p = |c: ClipView| matches_term(c, search_term(query));
    let f = s.records.filter(p);
    lemma_filter_wf(s, p);
    lemma_ranked_sorted(f, ff);
    lemma_ranked_perm(f, ff);
    let r = ranked(f, ff);
    let l = listing(s.records, query, limit, offset, ff);
    let start = if offset <= r.len() { offset as int } else { r.len() as int };
    assert(l == page(r, offset, limit));
    assert forall|i: int, j: int| 0 <= i < j < l.len() implies !ranks_before(#[trigger] l[j], #[trigger] l[i], ff) by {
        assert(l[i] == r[start + i] && l[j] == r[start + j]);
    }
    assert forall|i: int| 0 <= i < l.len() implies s.records.contains(#[trigger] l[i]) && matches_term(l[i], search_term(query)) by {
        assert(l[i] == r[start + i]);
        assert(f.contains(r[start + i]));
        let k = choose|k: int| 0 <= k < f.len() && f[k] == r[start + i];
        s.records.lemma_filter_pred(p, k);
    }
}


/// Records updated strictly later along the sequence.
pub open spec fn ascending_updates(w: Seq<ClipView>) -> bool {
    forall|i: int, j: int| 0 <= i < j < w.len() ==> #[trigger] w[i].updated_at < #[trigger] w[j].updated_at
}

proof fn lemma_suffix_filter(w: Seq<ClipView>, m: int, t: int)
    requires
        ascending_updates(w),
        0 <= m < w.len(),
        t == w[m].updated_at,
    ensures
        w.filter(|c: ClipView| c.updated_at >= t) == w.subrange(m, w.len() as int),
    decreases w.len(),
{
    reveal(Seq::filter);
    let d = w.drop_last();
    let p = |c: ClipView| c.updated_at >= t;
    if m == w.len() - 1 {
        assert forall|k: int| 0 <= k < d.len() implies !p(#[trigger] d[k]) by {
            assert(d[k] == w[k]);
        }
        d.lemma_all_neg_filter_empty(p);
        assert(w.filter(p) =~= seq![w.last()]);
        assert(w.subrange(m, w.len() as int) =~= seq![w.last()]);
    } else {
        assert(ascending_updates(d)) by {
            assert forall|i: int, j: int| 0 <= i < j < d.len() implies #[trigger] d[i].updated_at < #[trigger] d[j].updated_at by {
                assert(d[i] == w[i] && d[j] == w[j]);
            }
        }
        assert(d[m] == w[m]);
        lemma_suffix_filter(d, m, t);
        assert(w[m].updated_at < w[w.len() - 1].updated_at);
        assert(w.subrange(m, w.len() as int) =~= d.subrange(m, d.len() as int).push(w.last()));
    }
}

/// The record that the `j`-th capture of a run inserts.
pub open spec fn tick_record(ps: Seq<PayloadView>, ts: Seq<i64>, j: int) -> ClipView {
    inserted((j + 1) as i64, ps[j], payload_hash(ps[j]), ts[j])
}

/// The records of the last `min(n, k)` captures of a run, oldest first.
pub open spec fn last_window(ps: Seq<PayloadView>, ts: Seq<i64>, n: int, k: int) -> Seq<ClipView> {
    let m = if n < k {
        n
    } else {
        k
    };
    Seq::new(m as nat, |x: int| tick_record(ps, ts, n - m + x))
}

/// The conditions of a run of captures: each store is the one before after an
/// upsert of the next payload at the next time and the retention policy.
pub open spec fn retention_run(
    ps: Seq<PayloadView>,
    ts: Seq<i64>,
    stores: Seq<StoreView>,
    policy: RetentionPolicy,
) -> bool {
    &&& ps.len() == ts.len()
    &&& stores.len() == ps.len() + 1
    &&& stores[0].records.len() == 0
    &&& stores[0].next_id == 1
    &&& forall|i: int, j: int| 0 <= i < j < ts.len() ==> #[trigger] ts[i] < #[trigger] ts[j]
    &&& forall|i: int, j: int|
        0 <= i < ps.len() && 0 <= j < ps.len() && i != j ==> payload_hash(#[trigger] ps[i])
            != payload_hash(#[trigger] ps[j])
    &&& forall|i: int|
        0 <= i < ps.len() ==> retained(
            after_upsert(#[trigger] stores[i], ps[i], ts[i]),
            policy,
            ts[i],
            stores[i + 1],
        )
}

/// Pruning records whose updates rise along the sequence keeps its last
/// `keep` records.
proof fn lemma_prune_ascending(written: StoreView, keep: nat, after: StoreView)
    requires
        keep >= 1,
        ascending_updates(written.records),
        pruned_to(written, keep, after),
    ensures
        after.next_id == written.next_id,
        after.records == if keep >= written.records.len() {
            written.records
        } else {
            written.records.subrange(written.records.len() - keep, written.records.len() as int)
        },
{
    let w2 = written.records;
    if keep > w2.len() {
    } else {
        let t = choose|t: int|
            is_keep_threshold(w2, keep, t) && after == (StoreView {
                records: w2.filter(|c: ClipView| c.updated_at >= t),
                ..written
            });
        let q = choose|q: int| 0 <= q < w2.len() && #[trigger] w2[q].updated_at == t;
        lemma_suffix_filter(w2, q, t);
        let q0 = w2.len() - keep;
        let t0 = w2[q0].updated_at as int;
        lemma_suffix_filter(w2, q0, t0);
        assert(count_since(w2, w2[q0].updated_at as int) >= keep);
        assert(w2[q0].updated_at <= t);
        if q < q0 {
            assert(w2[q].updated_at < w2[q0].updated_at);
        }
        assert(q == q0);
        if keep == w2.len() {
            assert(w2.subrange(0, w2.len() as int) =~= w2);
        }
    }
}

proof fn lemma_retention_prefix(
    ps: Seq<PayloadView>,
    ts: Seq<i64>,
    stores: Seq<StoreView>,
    policy: RetentionPolicy,
    k: usize,
    i: int,
)
    requires
        k >= 1,
        policy.max_entries == Some(k),
        policy.max_age_days is None,
        retention_run(ps, ts, stores, policy),
        0 <= i <= ps.len(),
    ensures
        stores[i].records == last_window(ps, ts, i, k as int),
        stores[i].next_id == i + 1,
    decreases i,
{
    if i == 0 {
        assert(last_window(ps, ts, 0, k as int) =~= Seq::<ClipView>::empty());
        assert(stores[0].records =~= Seq::<ClipView>::empty());
    } else {
        let j = i - 1;
        lemma_retention_prefix(ps, ts, stores, policy, k, j);
        let s = stores[j];
        let w = s.records;
        let m = if j < k as int { j } else { k as int };
        let h = payload_hash(ps[j]);
        assert forall|x: int| 0 <= x < w.len() implies #[trigger] w[x].content_hash != h by {
            assert(w[x] == tick_record(ps, ts, j - m + x));
        }
        lemma_no_upsert_target(w, h);
        let written = after_upsert(s, ps[j], ts[j]);
        let w2 = written.records;
        assert(w2 =~= Seq::new((m + 1) as nat, |x: int| tick_record(ps, ts, j - m + x)));
        assert(ascending_updates(w2)) by {
            assert forall|a: int, b: int| 0 <= a < b < w2.len() implies #[trigger] w2[a].updated_at < #[trigger] w2[b].updated_at by {
                assert(ts[j - m + a] < ts[j - m + b]);
            }
        }
        assert(retained(written, policy, ts[j], stores[i]));
        let mid = choose|mid: StoreView| #[trigger] count_limited(written, policy, mid) && age_limited(mid, policy, ts[j], stores[i]);
        lemma_prune_ascending(written, k as nat, mid);
        assert(stores[i].records =~= last_window(ps, ts, i, k as int));
    }
}

/// Retention over a run of captures: starting from an empty store, after
/// `n` captures of distinct contents at rising times, each followed by the
/// retention policy with a count limit `k`, exactly the records of the last
/// `min(n, k)` captures remain, oldest first: the `k` most recently updated.
pub proof fn lemma_retention_run(
    ps: Seq<PayloadView>,
    ts: Seq<i64>,
    stores: Seq<StoreView>,
    policy: RetentionPolicy,
    k: usize,
)
    requires
        k >= 1,
        policy.max_entries == Some(k),
        policy.max_age_days is None,
        retention_run(ps, ts, stores, policy),
    ensures
        forall|i: int| 0 <= i <= ps.len() ==> (#[trigger] stores[i]).records == last_window(ps, ts, i, k as int),
        stores[ps.len() as int].records.len() == if ps.len() < k {
            ps.len()
        } else {
            k as nat
        },
{
    assert forall|i: int| 0 <= i <= ps.len() implies (#[trigger] stores[i]).records == last_window(ps, ts, i, k as int) by {
        lemma_retention_prefix(ps, ts, stores, policy, k, i);
    }
}

} // verus!
