use vibeclip::clipboard::{finalize_payload, preview_text, ClipboardDraft, DraftError};
use vibeclip::clipboard_watcher::{
    backoff_ms, build_image_payload, capture_clipboard, file_segments, is_path_like,
    path_candidates, poll_interval_ms, should_ignore, try_build_file_payload, CaptureLoop,
    ImageCapture,
};
use vibeclip::db::{ClipKind, ClipPayload, DbState};
use vibeclip::hash::compute_content_hash;
use vibeclip::runtime_config::RuntimePreferences;
use vibeclip::state::AppStatus;

fn draft(kind: ClipKind) -> ClipboardDraft {
    ClipboardDraft {
        kind,
        text: None,
        image_base64: None,
        file_path: None,
        preview: None,
        extra: None,
        is_pinned: false,
        is_favorite: false,
    }
}

fn text_draft(s: &str) -> ClipboardDraft {
    let mut d = draft(ClipKind::Text);
    d.text = Some(s.to_string());
    d
}

fn prefs() -> RuntimePreferences {
    RuntimePreferences::default()
}

fn capture_text(text: &str, prefs: &RuntimePreferences) -> Option<ClipboardDraft> {
    let on_disk = vec![false; path_candidates(text).len()];
    capture_clipboard(None, Some(text.to_string()), &on_disk, prefs)
}

#[test]
fn text_draft_becomes_payload_with_preview() {
    let long: String = std::iter::repeat("abcdé").take(240).collect();
    assert_eq!(long.chars().count(), 1200);
    let payload = text_draft(&long).into_payload().unwrap();
    assert_eq!(payload.kind, ClipKind::Text);
    assert_eq!(payload.content, long);
    let preview = payload.preview.clone().unwrap();
    assert_eq!(preview.chars().count(), 120);
    assert_eq!(preview, long.chars().take(120).collect::<String>());
    assert_eq!(payload.content_hash, Some(compute_content_hash(ClipKind::Text, &long)));
}

#[test]
fn long_text_end_to_end() {
    let long: String = std::iter::repeat("0123456789").take(120).collect();
    let d = capture_text(&long, &prefs()).unwrap();
    assert_eq!(d.kind, ClipKind::Text);
    assert_eq!(d.preview.as_deref().map(|p| p.chars().count()), Some(120));
    let payload = d.into_payload().unwrap();
    assert_eq!(payload.content, long);
    assert_eq!(payload.content_hash, Some(compute_content_hash(ClipKind::Text, &long)));
    let mut db = DbState::new();
    let item = db.upsert(payload, 1).unwrap();
    let got = db.get(item.id).unwrap();
    assert_eq!(got.preview.unwrap().chars().count(), 120);
}

#[test]
fn draft_errors_by_kind() {
    assert_eq!(draft(ClipKind::Text).into_payload().err(), Some(DraftError::MissingText));
    assert_eq!(text_draft("").into_payload().err(), Some(DraftError::MissingText));
    assert_eq!(draft(ClipKind::Image).into_payload().err(), Some(DraftError::MissingImage));
    let mut bad = draft(ClipKind::Image);
    bad.image_base64 = Some("not base64!".to_string());
    assert_eq!(bad.into_payload().err(), Some(DraftError::InvalidBase64));
    assert_eq!(draft(ClipKind::File).into_payload().err(), Some(DraftError::MissingFilePath));
    let mut empty_path = draft(ClipKind::File);
    empty_path.file_path = Some(String::new());
    assert_eq!(empty_path.into_payload().err(), Some(DraftError::MissingFilePath));
}

#[test]
fn image_and_file_drafts_get_default_previews() {
    let mut img = draft(ClipKind::Image);
    img.image_base64 = Some(" aGVsbG8= ".to_string());
    let p = img.into_payload().unwrap();
    assert_eq!(p.preview.as_deref(), Some("Image"));
    assert_eq!(p.content, " aGVsbG8= ");
    let mut file = draft(ClipKind::File);
    file.file_path = Some("/tmp/x.txt".to_string());
    file.extra = Some("/tmp/x.txt".to_string());
    file.is_pinned = true;
    let p = file.into_payload().unwrap();
    assert_eq!(p.preview.as_deref(), Some("/tmp/x.txt"));
    assert_eq!(p.extra.as_deref(), Some("/tmp/x.txt"));
    assert!(p.is_pinned);
    let mut own = text_draft("abc");
    own.preview = Some("mine".to_string());
    assert_eq!(own.into_payload().unwrap().preview.as_deref(), Some("mine"));
}

#[test]
fn finalize_keeps_or_computes_hash() {
    let p = ClipPayload {
        kind: ClipKind::Text,
        content: "c".to_string(),
        preview: None,
        extra: None,
        content_hash: None,
        is_pinned: false,
        is_favorite: false,
    };
    let f = finalize_payload(p.clone());
    assert_eq!(f.content_hash, Some(compute_content_hash(ClipKind::Text, "c")));
    let mut q = p;
    q.content_hash = Some("given".to_string());
    assert_eq!(finalize_payload(q).content_hash.as_deref(), Some("given"));
}

#[test]
fn preview_text_is_char_aware() {
    assert_eq!(preview_text("short"), "short");
    let s: String = std::iter::repeat('é').take(130).collect();
    assert_eq!(preview_text(&s).chars().count(), 120);
}

#[test]
fn two_existing_paths_become_a_file_draft() {
    let text = "/home/user/a.png\n/home/user/b.png";
    let segs = path_candidates(text);
    assert_eq!(segs, vec!["/home/user/a.png".to_string(), "/home/user/b.png".to_string()]);
    let on_disk = vec![true, true];
    let d = capture_clipboard(None, Some(text.to_string()), &on_disk, &prefs()).unwrap();
    assert_eq!(d.kind, ClipKind::File);
    assert_eq!(d.file_path.as_deref(), Some("/home/user/a.png\n/home/user/b.png"));
    assert_eq!(d.preview.as_deref(), Some("2 items"));
    assert_eq!(d.extra.as_deref(), Some("/home/user/a.png"));
}

#[test]
fn ignored_keyword_discards_capture() {
    let mut p = prefs();
    p.ignored_keywords = vec!["password".to_string()];
    assert!(capture_text("My password: 1234", &p).is_none());
    assert!(should_ignore("My PASSWORD: 1234", &p));
    assert!(!should_ignore("nothing here", &p));
    let mut status = AppStatus::default();
    let mut db = DbState::new();
    let mut lp = CaptureLoop::new();
    let d = capture_text("My password: 1234", &p);
    let out = lp.on_capture(&mut status, &p, &mut db, d, 1);
    assert!(out.captured.is_none());
    assert_eq!(db.len(), 0);
}

#[test]
fn blank_keywords_match_nothing() {
    let mut p = prefs();
    p.ignored_keywords = vec!["   ".to_string(), String::new()];
    assert!(!should_ignore("anything", &p));
    p.ignored_keywords = vec!["  Secret ".to_string()];
    assert!(should_ignore("my secret", &p));
}

#[test]
fn segments_split_trim_and_unquote() {
    let segs = file_segments("  \"C:\\a b.txt\"  \r\n\n ~/notes \r");
    assert_eq!(segs, vec!["C:\\a b.txt".to_string(), "~/notes".to_string()]);
    assert!(file_segments(" \n \r ").is_empty());
}

#[test]
fn path_likeness() {
    assert!(is_path_like("/a", false));
    assert!(is_path_like("a\\b", false));
    assert!(is_path_like("C:", false));
    assert!(is_path_like("~x", false));
    assert!(is_path_like("plain", true));
    assert!(!is_path_like("plain", false));
    assert!(!is_path_like("", true));
}

#[test]
fn single_path_previews_its_file_name() {
    let f = try_build_file_payload("/home/user/report.pdf", &vec![false]).unwrap();
    assert_eq!(f.preview, "report.pdf");
    assert_eq!(f.content, "/home/user/report.pdf");
    assert_eq!(f.first, "/home/user/report.pdf");
    let dir = try_build_file_payload("/home/user/", &vec![false]).unwrap();
    assert_eq!(dir.preview, "user");
    let up = try_build_file_payload("a/..", &vec![false]).unwrap();
    assert_eq!(up.preview, "a/..");
    assert!(try_build_file_payload("hello world", &vec![false]).is_none());
    assert!(try_build_file_payload("/a\nplain", &vec![false, false]).is_none());
}

#[test]
fn plain_text_capture() {
    let d = capture_text("hello\0 world", &prefs()).unwrap();
    assert_eq!(d.kind, ClipKind::Text);
    assert_eq!(d.text.as_deref(), Some("hello world"));
    assert_eq!(d.preview.as_deref(), Some("hello world"));
    assert!(capture_text(" \0 \n", &prefs()).is_none());
    assert!(capture_clipboard(None, None, &vec![], &prefs()).is_none());
}

#[test]
fn image_capture_encodes_png_as_base64() {
    let img = ImageCapture { rgba: vec![255, 0, 0, 255, 0, 255, 0, 255], width: 2, height: 1 };
    let d = build_image_payload(&img).unwrap();
    assert_eq!(d.kind, ClipKind::Image);
    assert_eq!(d.preview.as_deref(), Some("2 × 1 image"));
    let data = d.image_base64.clone().unwrap();
    assert!(data.starts_with("iVBORw0KGgo"));
    let payload = d.into_payload().unwrap();
    assert_eq!(payload.kind, ClipKind::Image);
    let img2 = ImageCapture { rgba: vec![1, 2, 3, 4], width: 1, height: 1 };
    let from_clip = capture_clipboard(Some(img2), Some("text".to_string()), &vec![false], &prefs()).unwrap();
    assert_eq!(from_clip.kind, ClipKind::Image);
}

#[test]
fn poll_and_backoff_values() {
    let mut p = prefs();
    assert_eq!(poll_interval_ms(&p), 320);
    p.debounce_interval_ms = 50;
    assert_eq!(poll_interval_ms(&p), 200);
    p.debounce_interval_ms = 5000;
    assert_eq!(poll_interval_ms(&p), 800);
    assert_eq!(backoff_ms(320, 1), 640);
    assert_eq!(backoff_ms(320, 3), 1280);
    assert_eq!(backoff_ms(800, 9), 3000);
    assert_eq!(backoff_ms(200, 0), 200);
}

#[test]
fn dedup_across_ticks() {
    let p = prefs();
    let mut status = AppStatus::default();
    let mut db = DbState::new();
    let mut lp = CaptureLoop::new();
    let t1 = lp.on_capture(&mut status, &p, &mut db, Some(text_draft("first")), 1);
    assert!(t1.captured.is_some());
    let t2 = lp.on_capture(&mut status, &p, &mut db, Some(text_draft("first")), 2);
    assert!(t2.captured.is_none());
    let t3 = lp.on_capture(&mut status, &p, &mut db, Some(text_draft("second")), 3);
    assert!(t3.captured.is_some());
    let t4 = lp.on_capture(&mut status, &p, &mut db, Some(text_draft("first")), 4);
    let item = t4.captured.unwrap();
    assert_eq!(item.id, t1.captured.unwrap().id);
    assert_eq!(item.updated_at, 4);
    assert_eq!(db.len(), 2);
    assert_eq!(t4.sleep_ms, 320);
}

#[test]
fn self_copy_is_suppressed_once() {
    let p = prefs();
    let mut status = AppStatus::default();
    let mut db = DbState::new();
    let mut lp = CaptureLoop::new();
    status.mark_self_copy(compute_content_hash(ClipKind::Text, "mine"));
    let t1 = lp.on_capture(&mut status, &p, &mut db, Some(text_draft("mine")), 1);
    assert!(t1.captured.is_none());
    assert_eq!(db.len(), 0);
    let t2 = lp.on_capture(&mut status, &p, &mut db, Some(text_draft("mine")), 2);
    assert!(t2.captured.is_some());
    assert_eq!(db.len(), 1);
}

#[test]
fn failures_back_off_and_reset() {
    let p = prefs();
    let mut status = AppStatus::default();
    let mut db = DbState::new();
    let mut lp = CaptureLoop::new();
    assert_eq!(lp.on_read_error(&p), 640);
    let bad = lp.on_capture(&mut status, &p, &mut db, Some(draft(ClipKind::Text)), 1);
    assert_eq!(lp.consecutive_failures(), 2);
    assert_eq!(bad.sleep_ms, 960);
    let empty = lp.on_capture(&mut status, &p, &mut db, None, 2);
    assert_eq!(empty.sleep_ms, 320);
    assert_eq!(lp.consecutive_failures(), 0);
}

#[test]
fn retention_runs_after_capture() {
    let mut p = prefs();
    p.retention.max_entries = Some(2);
    let mut status = AppStatus::default();
    let mut db = DbState::new();
    let mut lp = CaptureLoop::new();
    for (i, s) in ["a", "b", "c", "d"].iter().enumerate() {
        lp.on_capture(&mut status, &p, &mut db, Some(text_draft(s)), i as i64);
    }
    assert_eq!(db.len(), 2);
    let left: Vec<String> = db.list(None, None, 0, true).into_iter().map(|c| c.content).collect();
    assert_eq!(left, vec!["d".to_string(), "c".to_string()]);
}

#[test]
fn empty_image_falls_back_to_text() {
    let empty = ImageCapture { rgba: vec![], width: 0, height: 3 };
    assert!(build_image_payload(&empty).is_none());
    let empty = ImageCapture { rgba: vec![], width: 0, height: 3 };
    let d = capture_clipboard(Some(empty), Some("plain words".to_string()), &vec![false], &prefs()).unwrap();
    assert_eq!(d.kind, ClipKind::Text);
    assert_eq!(d.text.as_deref(), Some("plain words"));
    let empty = ImageCapture { rgba: vec![], width: 2, height: 0 };
    assert!(capture_clipboard(Some(empty), Some("  ".to_string()), &vec![], &prefs()).is_none());
}

#[test]
fn contains_any_matches_lowercased_needles() {
    let hay: Vec<char> = "my password: 1234".chars().collect();
    let needles: Vec<Vec<char>> = vec!["token".chars().collect(), "password".chars().collect()];
    assert!(vibeclip::clipboard_watcher::contains_any(&hay, &needles));
    let other: Vec<Vec<char>> = vec!["secret".chars().collect()];
    assert!(!vibeclip::clipboard_watcher::contains_any(&hay, &other));
    assert!(!vibeclip::clipboard_watcher::contains_any(&hay, &vec![]));
}

#[test]
fn idle_wait_while_paused() {
    let lp = CaptureLoop::new();
    let mut status = AppStatus::default();
    assert_eq!(lp.idle_wait(&status), None);
    status.set_listening(false);
    assert_eq!(lp.idle_wait(&status), Some(320));
}
