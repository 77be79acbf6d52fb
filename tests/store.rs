use vibeclip::db::{ClipItem, ClipKind, ClipPayload, DbState, StoreError};
use vibeclip::hash::compute_content_hash;
use vibeclip::runtime_config::RetentionPolicy;

fn text_payload(content: &str) -> ClipPayload {
    ClipPayload {
        kind: ClipKind::Text,
        content: content.to_string(),
        preview: None,
        extra: None,
        content_hash: None,
        is_pinned: false,
        is_favorite: false,
    }
}

fn ids(items: &[ClipItem]) -> Vec<i64> {
    items.iter().map(|c| c.id).collect()
}

#[test]
fn hash_is_deterministic_and_kind_sensitive() {
    let a = compute_content_hash(ClipKind::Text, "hello");
    let b = compute_content_hash(ClipKind::Text, "hello");
    let c = compute_content_hash(ClipKind::File, "hello");
    let d = compute_content_hash(ClipKind::Text, "hello!");
    assert_eq!(a, b);
    assert_ne!(a, c);
    assert_ne!(a, d);
    assert_eq!(a.len(), 64);
    assert!(a.chars().all(|ch| ch.is_ascii_hexdigit() && !ch.is_ascii_uppercase()));
    assert_ne!(a, "hello");
}

#[test]
fn upsert_inserts_with_fresh_ids() {
    let mut db = DbState::new();
    let a = db.upsert(text_payload("alpha"), 100).unwrap();
    let b = db.upsert(text_payload("beta"), 101).unwrap();
    assert_eq!(a.id, 1);
    assert_eq!(b.id, 2);
    assert_eq!(a.created_at, 100);
    assert_eq!(a.updated_at, 100);
    assert_eq!(a.content_hash, compute_content_hash(ClipKind::Text, "alpha"));
    assert_eq!(db.len(), 2);
}

#[test]
fn upsert_twice_keeps_one_record() {
    let mut db = DbState::new();
    let first = db.upsert(text_payload("same"), 10).unwrap();
    let second = db.upsert(text_payload("same"), 20).unwrap();
    assert_eq!(db.len(), 1);
    assert_eq!(first.id, second.id);
    assert_eq!(second.created_at, 10);
    assert_eq!(second.updated_at, 20);
}

#[test]
fn upsert_keeps_preview_and_extra_when_absent() {
    let mut db = DbState::new();
    let mut p = text_payload("keep");
    p.preview = Some("first preview".to_string());
    p.extra = Some("first extra".to_string());
    db.upsert(p, 1).unwrap();
    let item = db.upsert(text_payload("keep"), 2).unwrap();
    assert_eq!(item.preview.as_deref(), Some("first preview"));
    assert_eq!(item.extra.as_deref(), Some("first extra"));
    let mut second_payload = text_payload("keep");
    second_payload.preview = Some("second".to_string());
    let item2 = db.upsert(second_payload, 3).unwrap();
    assert_eq!(item2.preview.as_deref(), Some("second"));
    assert_eq!(item2.extra.as_deref(), Some("first extra"));
}

#[test]
fn upsert_uses_a_given_hash() {
    let mut db = DbState::new();
    let mut p = text_payload("x");
    p.content_hash = Some("custom".to_string());
    let item = db.upsert(p, 1).unwrap();
    assert_eq!(item.content_hash, "custom");
    let mut q = text_payload("y");
    q.content_hash = Some("custom".to_string());
    let again = db.upsert(q, 2).unwrap();
    assert_eq!(again.id, item.id);
    assert_eq!(again.content, "y");
    assert_eq!(db.len(), 1);
}

#[test]
fn get_finds_by_id() {
    let mut db = DbState::new();
    let a = db.upsert(text_payload("a"), 1).unwrap();
    assert_eq!(db.get(a.id).unwrap().content, "a");
    assert!(db.get(99).is_none());
}

#[test]
fn update_flags_is_partial() {
    let mut db = DbState::new();
    let a = db.upsert(text_payload("a"), 1).unwrap();
    db.update_flags(a.id, Some(true), None, 5);
    let got = db.get(a.id).unwrap();
    assert!(got.is_pinned);
    assert!(!got.is_favorite);
    assert_eq!(got.updated_at, 5);
    db.update_flags(a.id, None, Some(true), 6);
    let got = db.get(a.id).unwrap();
    assert!(got.is_pinned);
    assert!(got.is_favorite);
    db.update_flags(a.id, None, None, 7);
    assert_eq!(db.get(a.id).unwrap().updated_at, 6);
    db.update_flags(42, Some(true), Some(true), 8);
    assert_eq!(db.len(), 1);
}

#[test]
fn update_content_recomputes_hash() {
    let mut db = DbState::new();
    let mut p = text_payload("old");
    p.kind = ClipKind::File;
    let a = db.upsert(p, 1).unwrap();
    db.update_flags(a.id, Some(true), None, 2);
    db.update_content(a.id, "new".to_string(), None, 3).unwrap();
    let got = db.get(a.id).unwrap();
    assert_eq!(got.content, "new");
    assert_eq!(got.kind, ClipKind::File);
    assert_eq!(got.content_hash, compute_content_hash(ClipKind::File, "new"));
    assert_eq!(got.preview, None);
    assert!(got.is_pinned);
    assert_eq!(got.updated_at, 3);
    assert_eq!(db.update_content(77, "x".to_string(), None, 4), Err(StoreError::NotFound));
}

#[test]
fn delete_and_clear() {
    let mut db = DbState::new();
    let a = db.upsert(text_payload("a"), 1).unwrap();
    db.upsert(text_payload("b"), 2).unwrap();
    db.delete(a.id);
    assert!(db.get(a.id).is_none());
    assert_eq!(db.len(), 1);
    db.delete(a.id);
    assert_eq!(db.len(), 1);
    db.clear();
    assert_eq!(db.len(), 0);
    let c = db.upsert(text_payload("c"), 3).unwrap();
    assert_eq!(c.id, 3);
}

#[test]
fn list_orders_favorites_then_pinned_then_recent() {
    let mut db = DbState::new();
    let a = db.upsert(text_payload("a"), 10).unwrap();
    let b = db.upsert(text_payload("b"), 20).unwrap();
    let c = db.upsert(text_payload("c"), 30).unwrap();
    let d = db.upsert(text_payload("d"), 40).unwrap();
    db.update_flags(a.id, None, Some(true), 5);
    db.update_flags(b.id, Some(true), None, 6);
    let fav_first = db.list(None, None, 0, true);
    assert_eq!(ids(&fav_first), vec![a.id, b.id, d.id, c.id]);
    let pinned_first = db.list(None, None, 0, false);
    assert_eq!(ids(&pinned_first), vec![b.id, d.id, c.id, a.id]);
}

#[test]
fn list_ties_break_by_id() {
    let mut db = DbState::new();
    let a = db.upsert(text_payload("a"), 10).unwrap();
    let b = db.upsert(text_payload("b"), 10).unwrap();
    assert_eq!(ids(&db.list(None, None, 0, true)), vec![b.id, a.id]);
}

#[test]
fn list_searches_ignoring_case() {
    let mut db = DbState::new();
    let a = db.upsert(text_payload("Hello World"), 1).unwrap();
    db.upsert(text_payload("other"), 2).unwrap();
    let mut p = text_payload("zzz");
    p.preview = Some("WORLD map".to_string());
    let c = db.upsert(p, 3).unwrap();
    let found = db.list(Some("  world ".to_string()), None, 0, true);
    assert_eq!(ids(&found), vec![c.id, a.id]);
    let all = db.list(Some("   ".to_string()), None, 0, true);
    assert_eq!(all.len(), 3);
    assert!(db.list(Some("absent".to_string()), None, 0, true).is_empty());
}

#[test]
fn list_pages() {
    let mut db = DbState::new();
    for i in 0..5 {
        db.upsert(text_payload(&format!("item {i}")), 100 + i).unwrap();
    }
    assert_eq!(ids(&db.list(None, Some(2), 0, true)), vec![5, 4]);
    assert_eq!(ids(&db.list(None, Some(2), 2, true)), vec![3, 2]);
    assert_eq!(ids(&db.list(None, Some(10), 4, true)), vec![1]);
    assert!(db.list(None, None, 9, true).is_empty());
    assert_eq!(db.list(None, Some(0), 0, true).len(), 0);
}

#[test]
fn export_then_import_round_trips() {
    let mut db = DbState::new();
    let a = db.upsert(text_payload("a"), 10).unwrap();
    db.upsert(text_payload("b"), 20).unwrap();
    db.upsert(text_payload("c"), 30).unwrap();
    db.update_flags(a.id, Some(true), Some(true), 40);
    let exported = db.export_all();
    let mut fresh = DbState::new();
    assert_eq!(fresh.import_many(exported.clone()), Ok(3));
    let again = fresh.export_all();
    assert_eq!(exported.len(), again.len());
    for (x, y) in exported.iter().zip(again.iter()) {
        assert_eq!(x.id, y.id);
        assert_eq!(x.kind, y.kind);
        assert_eq!(x.content, y.content);
        assert_eq!(x.content_hash, y.content_hash);
        assert_eq!(x.preview, y.preview);
        assert_eq!(x.is_pinned, y.is_pinned);
        assert_eq!(x.is_favorite, y.is_favorite);
        assert_eq!(x.created_at, y.created_at);
        assert_eq!(x.updated_at, y.updated_at);
    }
    assert_eq!(ids(&db.list(None, None, 0, false)), ids(&fresh.list(None, None, 0, false)));
    let next = fresh.upsert(text_payload("d"), 50).unwrap();
    assert_eq!(next.id, 4);
}

#[test]
fn import_rejects_taken_ids() {
    let mut db = DbState::new();
    let a = db.upsert(text_payload("a"), 1).unwrap();
    let clash = vec![a.clone()];
    assert_eq!(db.import_many(clash), Err(StoreError::DuplicateId));
    let mut twice = a.clone();
    twice.id = 9;
    assert_eq!(db.import_many(vec![twice.clone(), twice]), Err(StoreError::DuplicateId));
    assert_eq!(db.len(), 1);
}

#[test]
fn import_fills_missing_hash_and_moves_next_id() {
    let mut db = DbState::new();
    let item = ClipItem {
        id: 40,
        kind: ClipKind::Text,
        content: "imported".to_string(),
        content_hash: String::new(),
        preview: None,
        extra: None,
        is_pinned: false,
        is_favorite: true,
        created_at: 5,
        updated_at: 6,
    };
    assert_eq!(db.import_many(vec![item]), Ok(1));
    let got = db.get(40).unwrap();
    assert_eq!(got.content_hash, compute_content_hash(ClipKind::Text, "imported"));
    assert_eq!(got.created_at, 5);
    let next = db.upsert(text_payload("new"), 7).unwrap();
    assert_eq!(next.id, 41);
}

#[test]
fn migrate_backfills_hashes() {
    let mut db = DbState::new();
    let item = ClipItem {
        id: 3,
        kind: ClipKind::Image,
        content: "aGk=".to_string(),
        content_hash: String::new(),
        preview: None,
        extra: None,
        is_pinned: false,
        is_favorite: false,
        created_at: 1,
        updated_at: 1,
    };
    db.import_many(vec![item]).unwrap();
    db.migrate();
    assert_eq!(db.get(3).unwrap().content_hash, compute_content_hash(ClipKind::Image, "aGk="));
}

#[test]
fn prune_keeps_the_most_recent() {
    let mut db = DbState::new();
    for i in 0..5 {
        db.upsert(text_payload(&format!("n{i}")), 100 + i).unwrap();
    }
    assert_eq!(db.prune_older_than(3), 2);
    assert_eq!(db.len(), 3);
    let left = db.list(None, None, 0, false);
    assert_eq!(ids(&left), vec![5, 4, 3]);
}

#[test]
fn prune_noop_cases() {
    let mut db = DbState::new();
    db.upsert(text_payload("a"), 1).unwrap();
    db.upsert(text_payload("b"), 2).unwrap();
    assert_eq!(db.prune_older_than(0), 0);
    assert_eq!(db.prune_older_than(5), 0);
    assert_eq!(db.prune_older_than(2), 0);
    assert_eq!(db.len(), 2);
}

#[test]
fn prune_keeps_ties_with_threshold() {
    let mut db = DbState::new();
    db.upsert(text_payload("a"), 1).unwrap();
    db.upsert(text_payload("b"), 5).unwrap();
    db.upsert(text_payload("c"), 5).unwrap();
    db.upsert(text_payload("d"), 9).unwrap();
    assert_eq!(db.prune_older_than(2), 1);
    assert_eq!(db.len(), 3);
}

#[test]
fn retention_applies_count_then_age() {
    let mut db = DbState::new();
    for i in 0..6 {
        db.upsert(text_payload(&format!("r{i}")), i * 86_400).unwrap();
    }
    let policy = RetentionPolicy { max_entries: Some(4), max_age_days: Some(2), vacuum_on_start: false };
    let removed = db.apply_retention(&policy, 5 * 86_400);
    assert_eq!(removed, 3);
    assert_eq!(ids(&db.list(None, None, 0, true)), vec![6, 5, 4]);
    let default = RetentionPolicy::default();
    assert_eq!(default.max_entries, Some(500));
    assert_eq!(db.apply_retention(&default, 0), 0);
}

#[test]
fn clone_for_thread_copies_records() {
    let mut db = DbState::new();
    db.upsert(text_payload("a"), 1).unwrap();
    let copy = db.clone_for_thread();
    assert_eq!(copy.len(), 1);
    assert_eq!(copy.get(1).unwrap().content, "a");
}

#[test]
fn migrate_twice_changes_nothing() {
    let mut db = DbState::new();
    let item = ClipItem {
        id: 8,
        kind: ClipKind::Text,
        content: "legacy".to_string(),
        content_hash: String::new(),
        preview: None,
        extra: None,
        is_pinned: true,
        is_favorite: false,
        created_at: 2,
        updated_at: 3,
    };
    db.import_many(vec![item]).unwrap();
    db.migrate();
    let once = db.get(8).unwrap();
    db.migrate();
    let twice = db.get(8).unwrap();
    assert_eq!(once.content_hash, twice.content_hash);
    assert_eq!(twice.content_hash, compute_content_hash(ClipKind::Text, "legacy"));
    assert!(twice.is_pinned);
    assert_eq!(twice.updated_at, 3);
}
