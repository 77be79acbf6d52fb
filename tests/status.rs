use vibeclip::ai_client::{build_prompts, prepare_endpoint, AiActionKind, RequestError};
use vibeclip::clipboard::{ClipboardDraft, DraftError};
use vibeclip::commands::{
    ignore_next_clipboard_capture, insert_clip, update_clip_content, CommandError,
};
use vibeclip::db::{ClipKind, DbState, StoreError};
use vibeclip::hash::compute_content_hash;
use vibeclip::runtime_config::{RuntimeConfigState, RuntimePreferences};
use vibeclip::state::AppStatus;

fn text_draft(s: &str) -> ClipboardDraft {
    ClipboardDraft {
        kind: ClipKind::Text,
        text: Some(s.to_string()),
        image_base64: None,
        file_path: None,
        preview: None,
        extra: None,
        is_pinned: false,
        is_favorite: false,
    }
}

#[test]
fn status_flags_toggle() {
    let mut s = AppStatus::default();
    assert!(s.listening());
    assert!(!s.offline());
    assert!(!s.toggle_listening());
    assert!(!s.listening());
    assert!(s.toggle_offline());
    s.set_listening(true);
    s.set_offline(false);
    assert!(s.listening());
    assert!(!s.offline());
}

#[test]
fn self_copies_are_consumed_once() {
    let mut s = AppStatus::default();
    s.mark_self_copy("h1".to_string());
    s.mark_self_copy("h1".to_string());
    assert!(s.consume_self_copy("h1"));
    assert!(s.consume_self_copy("h1"));
    assert!(!s.consume_self_copy("h1"));
    assert!(!s.consume_self_copy("other"));
}

#[test]
fn self_copies_forget_the_oldest_past_capacity() {
    let mut s = AppStatus::default();
    for i in 0..33 {
        s.mark_self_copy(format!("h{i}"));
    }
    assert!(!s.consume_self_copy("h0"));
    assert!(s.consume_self_copy("h1"));
    assert!(s.consume_self_copy("h32"));
}

#[test]
fn preferences_defaults_and_update() {
    let d = RuntimePreferences::default();
    assert!(d.dedupe_enabled);
    assert_eq!(d.debounce_interval_ms, 320);
    assert!(d.ignore_self_copies);
    assert!(d.ignored_keywords.is_empty());
    assert_eq!(d.retention.max_entries, Some(500));
    assert_eq!(d.retention.max_age_days, None);
    assert!(d.retention.vacuum_on_start);
    assert_eq!(d.log_level, "info");
    let mut state = RuntimeConfigState::default();
    let mut p = state.get();
    p.dedupe_enabled = false;
    p.ignored_keywords = vec!["x".to_string()];
    state.update(p);
    let got = state.get();
    assert!(!got.dedupe_enabled);
    assert_eq!(got.ignored_keywords, vec!["x".to_string()]);
}

#[test]
fn insert_clip_respects_listening() {
    let mut status = AppStatus::default();
    let prefs = RuntimePreferences::default();
    let mut db = DbState::new();
    let item = insert_clip(&status, &prefs, &mut db, text_draft("hello"), 5).unwrap();
    assert_eq!(item.content, "hello");
    assert_eq!(item.preview.as_deref(), Some("hello"));
    assert_eq!(
        insert_clip(&status, &prefs, &mut db, text_draft(""), 6).err(),
        Some(CommandError::Draft(DraftError::MissingText))
    );
    status.set_listening(false);
    assert_eq!(
        insert_clip(&status, &prefs, &mut db, text_draft("x"), 7).err(),
        Some(CommandError::Paused)
    );
    assert_eq!(db.len(), 1);
}

#[test]
fn update_clip_content_validates_draft() {
    let status = AppStatus::default();
    let prefs = RuntimePreferences::default();
    let mut db = DbState::new();
    let item = insert_clip(&status, &prefs, &mut db, text_draft("old"), 1).unwrap();
    update_clip_content(&mut db, item.id, text_draft("new"), 2).unwrap();
    let got = db.get(item.id).unwrap();
    assert_eq!(got.content, "new");
    assert_eq!(got.preview.as_deref(), Some("new"));
    assert_eq!(
        update_clip_content(&mut db, 99, text_draft("x"), 3),
        Err(CommandError::Store(StoreError::NotFound))
    );
}

#[test]
fn ignore_next_capture_marks_hash() {
    let mut s = AppStatus::default();
    ignore_next_clipboard_capture(&mut s, Some("abc".to_string()), None, None).unwrap();
    assert!(s.consume_self_copy("abc"));
    ignore_next_clipboard_capture(&mut s, Some(String::new()), Some(3), Some("/x".to_string())).unwrap();
    assert!(s.consume_self_copy(&compute_content_hash(ClipKind::File, "/x")));
    assert_eq!(
        ignore_next_clipboard_capture(&mut s, None, Some(7), Some("x".to_string())),
        Err(CommandError::UnknownKind(7))
    );
    ignore_next_clipboard_capture(&mut s, None, Some(1), None).unwrap();
    assert!(!s.consume_self_copy(&compute_content_hash(ClipKind::Text, "x")));
}

#[test]
fn prompts_per_action() {
    let (sys, user) = build_prompts(AiActionKind::Translate, "  hola  ", &Some(" en ".to_string()), &None);
    assert_eq!(sys, "You are VibeClip Pro, a precise multilingual translator.\nRespond in en with a natural translation.");
    assert_eq!(user, "hola");
    let (sys, user) = build_prompts(AiActionKind::Summarize, "text", &None, &None);
    assert_eq!(sys, "You are VibeClip Pro, an expert summarizer.\nSummaries must be concise bullet points in zh-CN.");
    assert_eq!(user, "Summarize the following content:\ntext");
    let (_, user) = build_prompts(AiActionKind::Polish, "t", &Some("  ".to_string()), &None);
    assert_eq!(user, "Improve the following content:\nt");
    let (sys, user) = build_prompts(AiActionKind::Jsonify, "a=1", &None, &None);
    assert_eq!(sys, "You are VibeClip Pro, a data formatter returning strict JSON.");
    assert_eq!(user, "Convert the following content into valid JSON. Use lowercase keys.\na=1");
    let (sys, _) = build_prompts(AiActionKind::Custom, "x", &None, &Some("Be brief.".to_string()));
    assert_eq!(sys, "Be brief.");
    let (sys, _) = build_prompts(AiActionKind::Custom, "x", &None, &None);
    assert_eq!(sys, "You are VibeClip Pro, a helpful assistant.");
}

#[test]
fn endpoint_checks() {
    assert_eq!(prepare_endpoint("  ", "https://x"), Err(RequestError::MissingApiKey));
    assert_eq!(prepare_endpoint("k", " // "), Err(RequestError::MissingBaseUrl));
    let (k, u) = prepare_endpoint(" key ", " https://api.example.com/ ").unwrap();
    assert_eq!(k, "key");
    assert_eq!(u, "https://api.example.com/v1/chat/completions");
}
