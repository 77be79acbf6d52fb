//! Clipboard drafts: unvalidated, kind-tagged observations, and their
//! conversion into storable payloads.
use vstd::prelude::*;

use base64::Engine;

use crate::db::{opt_chars, ClipKind, ClipPayload, PayloadView};
use crate::hash::{compute_content_hash, content_hash_of};
use crate::text::{chars_of, slice_chars, string_of, trim_chars, trimmed};

verus! {

/// How many characters of a text clip its default preview keeps.
pub const PREVIEW_CHARS: usize = 120;

/// Whether base64's standard engine accepts `s` for decoding.
pub uninterp spec fn decodes_as_base64(s: Seq<char>) -> bool;

/// Relies on base64's `STANDARD` engine `decode`: whether it decodes `s`
/// without error.
#[verifier::external_body]
fn standard_base64_decodes(s: &str) -> (r: bool)
    ensures
        r == decodes_as_base64(s@),
{
    base64::engine::general_purpose::STANDARD.decode(s).is_ok()
}

/// A raw observation of the clipboard, tagged with the kind it claims to be.
#[derive(Clone, Debug)]
pub struct ClipboardDraft {
    pub kind: ClipKind,
    pub text: Option<String>,
    pub image_base64: Option<String>,
    pub file_path: Option<String>,
    pub preview: Option<String>,
    pub extra: Option<String>,
    pub is_pinned: bool,
    pub is_favorite: bool,
}

pub struct DraftView {
    pub kind: ClipKind,
    pub text: Option<Seq<char>>,
    pub image_base64: Option<Seq<char>>,
    pub file_path: Option<Seq<char>>,
    pub preview: Option<Seq<char>>,
    pub extra: Option<Seq<char>>,
    pub is_pinned: bool,
    pub is_favorite: bool,
}

impl View for ClipboardDraft {
    type V = DraftView;

    open spec fn view(&self) -> DraftView {
        DraftView {
            kind: self.kind,
            text: opt_chars(self.text),
            image_base64: opt_chars(self.image_base64),
            file_path: opt_chars(self.file_path),
            preview: opt_chars(self.preview),
            extra: opt_chars(self.extra),
            is_pinned: self.is_pinned,
            is_favorite: self.is_favorite,
        }
    }
}

/// Why a draft cannot become a payload.
#[derive(Clone, Copy, Debug, PartialEq, Eq, Structural)]
pub enum DraftError {
    /// A text draft without text, or with empty text.
    MissingText,
    /// An image draft without image data.
    MissingImage,
    /// Image data that is not valid base64.
    InvalidBase64,
    /// A file draft without a path, or with an empty one.
    MissingFilePath,
}

/// The default preview of a text clip: its first characters.
pub open spec fn text_preview(s: Seq<char>) -> Seq<char> {
    if s.len() <= PREVIEW_CHARS {
        s
    } else {
        s.subrange(0, PREVIEW_CHARS as int)
    }
}

/// The default preview of an image clip.
pub open spec fn image_label() -> Seq<char> {
    seq!['I', 'm', 'a', 'g', 'e']
}

/// The error a draft is rejected with, if any.
pub open spec fn draft_error(d: DraftView) -> Option<DraftError> {
    match d.kind {
        ClipKind::Text => match d.text {
            Some(t) => if t.len() > 0 {
                None
            } else {
                Some(DraftError::MissingText)
            },
            None => Some(DraftError::MissingText),
        },
        ClipKind::Image => match d.image_base64 {
            Some(b) => if decodes_as_base64(trimmed(b, false)) {
                None
            } else {
                Some(DraftError::InvalidBase64)
            },
            None => Some(DraftError::MissingImage),
        },
        ClipKind::File => match d.file_path {
            Some(p) => if p.len() > 0 {
                None
            } else {
                Some(DraftError::MissingFilePath)
            },
            None => Some(DraftError::MissingFilePath),
        },
    }
}

/// The content that a draft carries for its kind.
pub open spec fn draft_content(d: DraftView) -> Seq<char> {
    match d.kind {
        ClipKind::Text => d.text.unwrap(),
        ClipKind::Image => d.image_base64.unwrap(),
        ClipKind::File => d.file_path.unwrap(),
    }
}

/// The preview a payload gets when the draft brings none.
pub open spec fn default_preview(kind: ClipKind, content: Seq<char>) -> Seq<char> {
    match kind {
        ClipKind::Text => text_preview(content),
        ClipKind::Image => image_label(),
        ClipKind::File => content,
    }
}

/// The payload that a valid draft becomes: its content for its kind, its own
/// preview or the default one, its extra and flags, and its hash.
pub open spec fn payload_of(d: DraftView) -> PayloadView {
    let content = draft_content(d);
    PayloadView {
        kind: d.kind,
        content,
        preview: match d.preview {
            Some(p) => Some(p),
            None => Some(default_preview(d.kind, content)),
        },
        extra: d.extra,
        content_hash: Some(content_hash_of(d.kind, content)),
        is_pinned: d.is_pinned,
        is_favorite: d.is_favorite,
    }
}

/// The payload with its hash computed when it has none.
pub open spec fn finalized(p: PayloadView) -> PayloadView {
    match p.content_hash {
        Some(_) => p,
        None => PayloadView { content_hash: Some(content_hash_of(p.kind, p.content)), ..p },
    }
}

/// Ensures that a payload carries its hash, computing it from the kind and
/// the content when it is missing.
pub fn finalize_payload(payload: ClipPayload) -> (r: ClipPayload)
    ensures
        r@ == finalized(payload@),
{
    let mut payload = payload;
    if payload.content_hash.is_none() {
        payload.content_hash = Some(compute_content_hash(payload.kind, payload.content.as_str()));
    }
    payload
}

/// Checks that `data`, without surrounding white space, decodes as base64.
fn validate_base64(data: &str) -> (r: Result<(), DraftError>)
    ensures
        r is Ok <==> decodes_as_base64(trimmed(data@, false)),
        r is Err ==> r == Err::<(), DraftError>(DraftError::InvalidBase64),
{
    let t = trim_chars(&chars_of(data), false);
    if standard_base64_decodes(string_of(&t).as_str()) {
        Ok(())
    } else {
        Err(DraftError::InvalidBase64)
    }
}

/// The first `PREVIEW_CHARS` characters of `s`.
pub fn preview_text(s: &str) -> (r: String)
    ensures
        r@ == text_preview(s@),
{
    let cs = chars_of(s);
    let n = if cs.len() <= PREVIEW_CHARS {
        cs.len()
    } else {
        PREVIEW_CHARS
    };
    let head = slice_chars(&cs, 0, n);
    assert(cs@.len() <= PREVIEW_CHARS ==> cs@.subrange(0, n as int) =~= cs@);
    string_of(&head)
}

impl ClipboardDraft {
    /// Validates the draft for its kind and turns it into a payload whose
    /// hash is computed.
    pub fn into_payload(self) -> (r: Result<ClipPayload, DraftError>)
        ensures
            match draft_error(self@) {
                Some(e) => r == Err::<ClipPayload, DraftError>(e),
                None => r matches Ok(p) && p@ == payload_of(self@),
            },
    {
        let ghost d = self@;
        let ClipboardDraft { kind, text, image_base64, file_path, preview, extra, is_pinned, is_favorite } = self;
        let content = match kind {
            ClipKind::Text => match text {
                Some(t) => if t.as_str().is_empty() {
                    return Err(DraftError::MissingText);
                } else {
                    t
                },
                None => return Err(DraftError::MissingText),
            },
            ClipKind::Image => match image_base64 {
                Some(b) => {
                    match validate_base64(b.as_str()) {
                        Ok(()) => {},
                        Err(e) => return Err(e),
                    }
                    b
                },
                None => return Err(DraftError::MissingImage),
            },
            ClipKind::File => match file_path {
                Some(p) => if p.as_str().is_empty() {
                    return Err(DraftError::MissingFilePath);
                } else {
                    p
                },
                None => return Err(DraftError::MissingFilePath),
            },
        };
        assert(content@ == draft_content(d));
        let preview = match preview {
            Some(p) => Some(p),
            None => match kind {
                ClipKind::Text => Some(preview_text(content.as_str())),
                ClipKind::Image => {
                    let label = "Image".to_owned();
                    proof {
                        reveal_strlit("Image");
                    }
                    assert(label@ =~= image_label());
                    Some(label)
                },
                ClipKind::File => Some(content.clone()),
            },
        };
        Ok(
            finalize_payload(
                ClipPayload {
                    kind,
                    content,
                    preview,
                    extra,
                    content_hash: None,
                    is_pinned,
                    is_favorite,
                },
            ),
        )
    }
}

} // verus!
