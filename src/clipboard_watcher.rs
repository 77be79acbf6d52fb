//! What the capture loop decides: how a clipboard read becomes a draft, which
//! drafts are ignored, suppressed or stored, and how long to wait.
use vstd::prelude::*;

use base64::Engine;
use image::ImageEncoder;

use crate::clipboard::{
    draft_error, payload_of, text_preview, ClipboardDraft, DraftView, preview_text,
};
use crate::db::{
    after_upsert, opt_chars, payload_hash, retained, upsert_index, upsert_possible, ClipItem,
    ClipKind, DbState,
};
use crate::runtime_config::RuntimePreferences;
use crate::state::{after_consume, after_mark, first_at, AppStatus, StatusView, SELF_COPY_CAPACITY};
use crate::text::{
    chars_of, contains_chars, decimal_of, lower_of, lowercase, occurs_in, push_all, push_decimal,
    slice_chars, string_of, strip_nulls, trim_chars, trimmed, without_nulls,
};

verus! {

/// The PNG encoding, by the image crate, of an RGBA8 bitmap.
pub uninterp spec fn png_of(rgba: Seq<u8>, width: u32, height: u32) -> Seq<u8>;

/// The standard, padded base64 encoding of `bytes`.
pub uninterp spec fn base64_of(bytes: Seq<u8>) -> Seq<char>;

/// Relies on the image crate's `PngEncoder::write_image` with `Rgba8` pixels,
/// which panics unless the buffer holds four bytes per pixel, fails only on a
/// zero width or height (the png crate's `Writer::init`; writing into a `Vec`
/// cannot fail), and otherwise writes the encoding.
#[verifier::external_body]
fn encode_png(rgba: &Vec<u8>, width: u32, height: u32) -> (r: Option<Vec<u8>>)
    requires
        rgba@.len() == 4 * (width as int) * (height as int),
    ensures
        r is Some <==> (width > 0 && height > 0),
        r matches Some(b) ==> b@ == png_of(rgba@, width, height),
{
    let mut buffer: Vec<u8> = Vec::new();
    let encoder = image::codecs::png::PngEncoder::new(&mut buffer);
    match encoder.write_image(rgba, width, height, image::ExtendedColorType::Rgba8) {
        Ok(()) => Some(buffer),
        Err(_) => None,
    }
}

/// Relies on base64's `STANDARD` engine `encode`.
#[verifier::external_body]
fn encode_base64(bytes: &Vec<u8>) -> (r: String)
    ensures
        r@ == base64_of(bytes@),
{
    base64::engine::general_purpose::STANDARD.encode(bytes)
}

/// How long the loop sleeps while listening is paused.
pub const IDLE_INTERVAL_MS: u64 = 320;

pub const MIN_POLL_MS: u64 = 200;

pub const MAX_POLL_MS: u64 = 800;

/// The longest wait after failures.
pub const MAX_BACKOFF_MS: u64 = 3000;

/// A bitmap read from the clipboard: RGBA8 pixels, row by row.
pub struct ImageCapture {
    pub rgba: Vec<u8>,
    pub width: u32,
    pub height: u32,
}

pub open spec fn image_fits(img: ImageCapture) -> bool {
    img.rgba@.len() == 4 * (img.width as int) * (img.height as int)
}

// ---- ignored keywords ----

/// A keyword counts when it is not blank; it matches, ignoring case, when its
/// trimmed form occurs in the content.
pub open spec fn keyword_hits(keyword: Seq<char>, content: Seq<char>) -> bool {
    trimmed(keyword, false).len() > 0 && occurs_in(
        lower_of(trimmed(keyword, false)),
        lower_of(content),
    )
}

/// `content` contains one of the ignored keywords.
pub open spec fn is_ignored(content: Seq<char>, keywords: Seq<Seq<char>>) -> bool {
    exists|i: int| 0 <= i < keywords.len() && keyword_hits(#[trigger] keywords[i], content)
}

/// Holds when one of the `needles` occurs in `hay`.
pub open spec fn any_occurs(needles: Seq<Seq<char>>, hay: Seq<char>) -> bool {
    exists|i: int| 0 <= i < needles.len() && occurs_in(#[trigger] needles[i], hay)
}

pub open spec fn char_vecs_view(v: Seq<Vec<char>>) -> Seq<Seq<char>> {
    v.map_values(|n: Vec<char>| n@)
}

/// Whether one of `needles` occurs in `hay`: the matching of ignored
/// keywords, once the content and the keywords are lowercased.
pub fn contains_any(hay: &Vec<char>, needles: &Vec<Vec<char>>) -> (r: bool)
    ensures
        r == any_occurs(char_vecs_view(needles@), hay@),
{
    let ghost nv = char_vecs_view(needles@);
    let mut i: usize = 0;
    while i < needles.len()
        invariant
            nv == char_vecs_view(needles@),
            i <= needles@.len(),
            forall|k: int| 0 <= k < i ==> !occurs_in(#[trigger] nv[k], hay@),
        decreases needles@.len() - i,
    {
        if contains_chars(hay, &needles[i]) {
            assert(occurs_in(nv[i as int], hay@));
            return true;
        }
        i = i + 1;
    }
    false
}

/// Whether a capture of `content` is dropped for holding an ignored keyword.
pub fn should_ignore(content: &str, prefs: &RuntimePreferences) -> (r: bool)
    ensures
        r == is_ignored(content@, prefs@.ignored_keywords),
{
    let ghost kws = prefs@.ignored_keywords;
    let lower = chars_of(lowercase(content).as_str());
    let mut needles: Vec<Vec<char>> = Vec::new();
    let ghost mut from: Seq<int> = Seq::empty();
    let mut i: usize = 0;
    while i < prefs.ignored_keywords.len()
        invariant
            kws == prefs@.ignored_keywords,
            i <= kws.len(),
            from.len() == needles@.len(),
            forall|j: int|
                0 <= j < from.len() ==> 0 <= #[trigger] from[j] < i && trimmed(kws[from[j]], false).len() > 0
                    && needles@[j]@ == lower_of(trimmed(kws[from[j]], false)),
            forall|k: int|
                0 <= k < i && trimmed(#[trigger] kws[k], false).len() > 0 ==> exists|j: int|
                    0 <= j < from.len() && #[trigger] from[j] == k,
        decreases kws.len() - i,
    {
        let ghost before = from;
        assert(kws[i as int] == prefs.ignored_keywords@[i as int]@);
        let t = trim_chars(&chars_of(prefs.ignored_keywords[i].as_str()), false);
        if t.len() > 0 {
            let needle = chars_of(lowercase(string_of(&t).as_str()).as_str());
            needles.push(needle);
            proof {
                from = from.push(i as int);
                assert(from[from.len() - 1] == i as int);
            }
        }
        assert forall|k: int|
            0 <= k <= i && trimmed(#[trigger] kws[k], false).len() > 0 implies exists|j: int|
                0 <= j < from.len() && #[trigger] from[j] == k by {
            if k < i {
                let j = choose|j: int| 0 <= j < before.len() && #[trigger] before[j] == k;
                assert(from[j] == before[j]);
            } else {
                assert(from[from.len() - 1] == k);
            }
        }
        i = i + 1;
    }
    let r = contains_any(&lower, &needles);
    proof {
        let nv = char_vecs_view(needles@);
        if r {
            let j = choose|j: int| 0 <= j < nv.len() && occurs_in(#[trigger] nv[j], lower@);
            assert(keyword_hits(kws[from[j]], content@));
        } else {
            assert forall|k: int| 0 <= k < kws.len() implies !keyword_hits(#[trigger] kws[k], content@) by {
                if keyword_hits(kws[k], content@) {
                    let j = choose|j: int| 0 <= j < from.len() && from[j] == k;
                    assert(occurs_in(nv[j], lower@));
                }
            }
        }
    }
    r
}

// ---- file paths ----

pub open spec fn is_line_break(c: char) -> bool {
    c == '\n' || c == '\r'
}

/// The pieces of `s` between line breaks, as `str::split` yields them.
pub open spec fn lines_of(s: Seq<char>) -> Seq<Seq<char>>
    decreases s.len(),
{
    if s.len() == 0 {
        seq![Seq::<char>::empty()]
    } else {
        let rest = lines_of(s.drop_last());
        if is_line_break(s.last()) {
            rest.push(Seq::empty())
        } else {
            rest.drop_last().push(rest.last().push(s.last()))
        }
    }
}

/// The candidate taken from one line: trimmed, and unquoted when not blank.
pub open spec fn segment_step(acc: Seq<Seq<char>>, line: Seq<char>) -> Seq<Seq<char>> {
    if trimmed(line, false).len() > 0 {
        acc.push(trimmed(trimmed(line, false), true))
    } else {
        acc
    }
}

pub open spec fn segments_from(lines: Seq<Seq<char>>) -> Seq<Seq<char>>
    decreases lines.len(),
{
    if lines.len() == 0 {
        Seq::empty()
    } else {
        segment_step(segments_from(lines.drop_last()), lines.last())
    }
}

/// The path candidates of a text: each non-blank line, trimmed and unquoted.
pub open spec fn segments_of(s: Seq<char>) -> Seq<Seq<char>> {
    segments_from(lines_of(s))
}

pub open spec fn strings_view(v: Seq<String>) -> Seq<Seq<char>> {
    v.map_values(|s: String| s@)
}

/// The path candidates of `text`, each line trimmed and unquoted, blank lines
/// left out.
pub fn file_segments(text: &str) -> (r: Vec<String>)
    ensures
        strings_view(r@) == segments_of(text@),
{
    let cs = chars_of(text);
    let mut out: Vec<String> = Vec::new();
    let mut cur: Vec<char> = Vec::new();
    let ghost done: Seq<Seq<char>> = Seq::empty();
    let mut i: usize = 0;
    assert(cs@.subrange(0, 0) =~= Seq::<char>::empty());
    while i < cs.len()
        invariant
            i <= cs@.len(),
            lines_of(cs@.subrange(0, i as int)) == done.push(cur@),
            strings_view(out@) == segments_from(done),
        decreases cs@.len() - i,
    {
        let c = cs[i];
        proof {
            assert(cs@.subrange(0, i as int + 1).drop_last() =~= cs@.subrange(0, i as int));
        }
        if c == '\n' || c == '\r' {
            let ghost prev = out@;
            let t = trim_chars(&cur, false);
            if t.len() > 0 {
                out.push(string_of(&trim_chars(&t, true)));
                assert(strings_view(out@) =~= strings_view(prev).push(trimmed(trimmed(cur@, false), true)));
            }
            proof {
                assert(done.push(cur@).drop_last() =~= done);
                done = done.push(cur@);
            }
            cur = Vec::new();
            assert(lines_of(cs@.subrange(0, i as int + 1)) =~= done.push(cur@));
        } else {
            proof {
                assert(done.push(cur@).drop_last() =~= done);
            }
            cur.push(c);
            assert(lines_of(cs@.subrange(0, i as int + 1)) =~= done.push(cur@));
        }
        i = i + 1;
    }
    assert(cs@.subrange(0, i as int) =~= text@);
    let ghost prev = out@;
    let t = trim_chars(&cur, false);
    if t.len() > 0 {
        out.push(string_of(&trim_chars(&t, true)));
        assert(strings_view(out@) =~= strings_view(prev).push(trimmed(trimmed(cur@, false), true)));
    }
    assert(done.push(cur@).drop_last() =~= done);
    out
}

/// A candidate looks like a path: it is not empty, and it exists, holds a
/// separator or a drive colon, or starts with a home shorthand.
pub open spec fn path_like(value: Seq<char>, on_disk: bool) -> bool {
    value.len() > 0 && (on_disk || value.contains('/') || value.contains('\\') || value.contains(
        ':',
    ) || value[0] == '~')
}

/// Whether `value` looks like a path; `on_disk` tells whether the file system
/// has it.
pub fn is_path_like(value: &str, on_disk: bool) -> (r: bool)
    ensures
        r == path_like(value@, on_disk),
{
    let cs = chars_of(value);
    if cs.len() == 0 {
        return false;
    }
    if on_disk || cs[0] == '~' {
        return true;
    }
    let mut i: usize = 0;
    while i < cs.len()
        invariant
            i <= cs@.len(),
            cs@ == value@,
            forall|k: int| 0 <= k < i ==> !(#[trigger] cs@[k] == '/' || cs@[k] == '\\' || cs@[k] == ':'),
        decreases cs@.len() - i,
    {
        if cs[i] == '/' || cs[i] == '\\' || cs[i] == ':' {
            assert(cs@[i as int] == '/' ==> value@.contains('/'));
            assert(cs@[i as int] == '\\' ==> value@.contains('\\'));
            assert(cs@[i as int] == ':' ==> value@.contains(':'));
            return true;
        }
        i = i + 1;
    }
    false
}

/// `s` joined with line feeds.
pub open spec fn joined(s: Seq<Seq<char>>) -> Seq<char>
    decreases s.len(),
{
    if s.len() == 0 {
        Seq::empty()
    } else if s.len() == 1 {
        s[0]
    } else {
        joined(s.drop_last()) + seq!['\n'] + s.last()
    }
}

pub open spec fn is_separator(c: char) -> bool {
    c == '/' || c == '\\'
}

/// `e` ends `s` without its trailing separators.
pub open spec fn stem_end(s: Seq<char>, e: int) -> bool {
    0 <= e <= s.len() && (e == 0 || !is_separator(s[e - 1])) && forall|k: int|
        e <= k < s.len() ==> is_separator(#[trigger] s[k])
}

/// `b` starts the last component of `s.subrange(0, e)`.
pub open spec fn name_start(s: Seq<char>, e: int, b: int) -> bool {
    0 <= b <= e && (b == 0 || is_separator(s[b - 1])) && forall|k: int|
        b <= k < e ==> !is_separator(#[trigger] s[k])
}

/// The last component of a path, trailing separators ignored; the whole path
/// when that component is empty or `..`. This is the preview rule of this
/// library, not `std::path::Path::file_name`: both `/` and a backslash separate
/// components on every platform, and a final `.` component is kept as the
/// name (`foo/.` gives `.`), where std would normalise it away.
pub open spec fn file_name(s: Seq<char>) -> Seq<char> {
    let e = choose|e: int| stem_end(s, e);
    let b = choose|b: int| name_start(s, e, b);
    let name = s.subrange(b, e);
    if name.len() == 0 || name == seq!['.', '.'] {
        s
    } else {
        name
    }
}

/// The preview of a file capture: the file name of a single path, or the
/// number of paths.
pub open spec fn files_preview(segs: Seq<Seq<char>>) -> Seq<char> {
    if segs.len() == 1 {
        file_name(segs[0])
    } else {
        decimal_of(segs.len()) + seq![' ', 'i', 't', 'e', 'm', 's']
    }
}

/// The last component of `s`, as `file_name` states.
pub fn file_name_of(s: &Vec<char>) -> (r: Vec<char>)
    ensures
        r@ == file_name(s@),
{
    let n = s.len();
    let mut e: usize = n;
    while e > 0 && (s[e - 1] == '/' || s[e - 1] == '\\')
        invariant
            e <= n == s@.len(),
            forall|k: int| e <= k < n ==> is_separator(#[trigger] s@[k]),
        decreases e,
    {
        e = e - 1;
    }
    assert(stem_end(s@, e as int));
    assert forall|e2: int| stem_end(s@, e2) implies e2 == e by {
        if e2 < e {
            assert(is_separator(s@[e - 1]));
        } else if e2 > e {
            assert(is_separator(s@[e2 - 1]));
        }
    }
    let mut b: usize = e;
    while b > 0 && !(s[b - 1] == '/' || s[b - 1] == '\\')
        invariant
            b <= e <= n == s@.len(),
            forall|k: int| b <= k < e ==> !is_separator(#[trigger] s@[k]),
        decreases b,
    {
        b = b - 1;
    }
    assert(name_start(s@, e as int, b as int));
    assert forall|b2: int| name_start(s@, e as int, b2) implies b2 == b by {
        if b2 < b {
            assert(is_separator(s@[b - 1]));
        } else if b2 > b {
            assert(is_separator(s@[b2 - 1]));
        }
    }
    let name = slice_chars(s, b, e);
    if name.len() == 0 || (name.len() == 2 && name[0] == '.' && name[1] == '.') {
        assert(name@.len() == 2 && name@[0] == '.' && name@[1] == '.' ==> name@ =~= seq!['.', '.']);
        slice_chars(s, 0, n)
    } else {
        assert(name@ == seq!['.', '.'] ==> name@[0] == '.' && name@[1] == '.');
        name
    }
}

/// The text joined from path candidates, with its preview and its first path.
pub struct FileCapture {
    pub content: String,
    pub preview: String,
    pub first: String,
}

/// Every candidate looks like a path.
pub open spec fn all_path_like(segs: Seq<Seq<char>>, on_disk: Seq<bool>) -> bool {
    forall|i: int| 0 <= i < segs.len() ==> path_like(#[trigger] segs[i], on_disk[i])
}

/// Reads `text` as a list of paths when it has at least one candidate and
/// every candidate looks like a path; `on_disk[i]` tells whether the `i`-th
/// candidate exists on the file system.
pub fn try_build_file_payload(text: &str, on_disk: &Vec<bool>) -> (r: Option<FileCapture>)
    requires
        on_disk@.len() == segments_of(text@).len(),
    ensures
        ({
            let segs = segments_of(text@);
            if segs.len() > 0 && all_path_like(segs, on_disk@) {
                r matches Some(f) && f.content@ == joined(segs) && f.preview@ == files_preview(segs)
                    && f.first@ == segs[0]
            } else {
                r is None
            }
        }),
{
    let segs = file_segments(text);
    let ghost sv = strings_view(segs@);
    if segs.len() == 0 {
        return None;
    }
    let mut i: usize = 0;
    while i < segs.len()
        invariant
            sv == strings_view(segs@),
            sv == segments_of(text@),
            on_disk@.len() == sv.len(),
            i <= sv.len(),
            forall|k: int| 0 <= k < i ==> path_like(#[trigger] sv[k], on_disk@[k]),
        decreases sv.len() - i,
    {
        assert(segs@[i as int]@ == sv[i as int]);
        if !is_path_like(segs[i].as_str(), on_disk[i]) {
            assert(!path_like(sv[i as int], on_disk@[i as int]));
            assert(!all_path_like(sv, on_disk@));
            return None;
        }
        i = i + 1;
    }
    let first = chars_of(segs[0].as_str());
    let mut content: Vec<char> = first.clone();
    let mut k: usize = 1;
    assert(sv.subrange(0, 1) =~= seq![sv[0]]);
    while k < segs.len()
        invariant
            sv == strings_view(segs@),
            1 <= k <= sv.len(),
            content@ == joined(sv.subrange(0, k as int)),
        decreases sv.len() - k,
    {
        content.push('\n');
        let part = chars_of(segs[k].as_str());
        push_all(&mut content, &part);
        assert(sv.subrange(0, k as int + 1).drop_last() =~= sv.subrange(0, k as int));
        k = k + 1;
    }
    assert(sv.subrange(0, k as int) =~= sv);
    let preview = if segs.len() == 1 {
        file_name_of(&first)
    } else {
        let mut p: Vec<char> = Vec::new();
        push_decimal(segs.len() as u64, &mut p);
        p.push(' ');
        p.push('i');
        p.push('t');
        p.push('e');
        p.push('m');
        p.push('s');
        assert(p@ =~= decimal_of(sv.len()) + seq![' ', 'i', 't', 'e', 'm', 's']);
        p
    };
    Some(
        FileCapture {
            content: string_of(&content),
            preview: string_of(&preview),
            first: string_of(&first),
        },
    )
}

// ---- images ----

/// The preview of a `width` by `height` image.
pub open spec fn image_preview(width: u32, height: u32) -> Seq<char> {
    decimal_of(width as nat) + seq![' ', '×', ' '] + decimal_of(height as nat) + seq![
        ' ',
        'i',
        'm',
        'a',
        'g',
        'e',
    ]
}

/// The draft of an image: the base64 of its PNG encoding, previewed by its
/// size.
pub open spec fn image_draft(image: ImageCapture) -> DraftView {
    DraftView {
        kind: ClipKind::Image,
        text: None,
        image_base64: Some(base64_of(png_of(image.rgba@, image.width, image.height))),
        file_path: None,
        preview: Some(image_preview(image.width, image.height)),
        extra: None,
        is_pinned: false,
        is_favorite: false,
    }
}

/// A bitmap can be encoded when it has pixels.
pub open spec fn encodable(image: ImageCapture) -> bool {
    image.width > 0 && image.height > 0
}

/// The draft of a bitmap, or `None` when it has no pixels and so cannot be
/// encoded.
pub fn build_image_payload(image: &ImageCapture) -> (r: Option<ClipboardDraft>)
    requires
        image_fits(*image),
    ensures
        r is Some <==> encodable(*image),
        r matches Some(d) ==> d@ == image_draft(*image),
{
    let png = match encode_png(&image.rgba, image.width, image.height) {
        Some(b) => b,
        None => return None,
    };
    let data = encode_base64(&png);
    let mut p: Vec<char> = Vec::new();
    push_decimal(image.width as u64, &mut p);
    p.push(' ');
    p.push('×');
    p.push(' ');
    push_decimal(image.height as u64, &mut p);
    p.push(' ');
    p.push('i');
    p.push('m');
    p.push('a');
    p.push('g');
    p.push('e');
    assert(p@ =~= image_preview(image.width, image.height));
    Some(
        ClipboardDraft {
            kind: ClipKind::Image,
            text: None,
            image_base64: Some(data),
            file_path: None,
            preview: Some(string_of(&p)),
            extra: None,
            is_pinned: false,
            is_favorite: false,
        },
    )
}


// ---- one capture ----

/// The draft that a clipboard text `t` gives, if any: nothing when it is
/// blank once nulls are stripped; a file draft when its lines all look like
/// paths; else a text draft. Either is dropped when it holds an ignored
/// keyword.
pub open spec fn text_draft(t: Seq<char>, on_disk: Seq<bool>, keywords: Seq<Seq<char>>) -> Option<DraftView> {
    let s = without_nulls(t);
    let segs = segments_of(s);
    if trimmed(s, false).len() == 0 {
        None
    } else if segs.len() > 0 && all_path_like(segs, on_disk) {
        if is_ignored(joined(segs), keywords) {
            None
        } else {
            Some(DraftView {
                kind: ClipKind::File,
                text: None,
                image_base64: None,
                file_path: Some(joined(segs)),
                preview: Some(files_preview(segs)),
                extra: Some(segs[0]),
                is_pinned: false,
                is_favorite: false,
            })
        }
    } else if is_ignored(s, keywords) {
        None
    } else {
        Some(DraftView {
            kind: ClipKind::Text,
            text: Some(s),
            image_base64: None,
            file_path: None,
            preview: Some(text_preview(s)),
            extra: None,
            is_pinned: false,
            is_favorite: false,
        })
    }
}

pub open spec fn draft_view(d: Option<ClipboardDraft>) -> Option<DraftView> {
    match d {
        Some(x) => Some(x@),
        None => None,
    }
}

/// The path candidates of a clipboard text once its nulls are stripped: the
/// host tells for each whether it exists before calling `capture_clipboard`.
pub fn path_candidates(text: &str) -> (r: Vec<String>)
    ensures
        strings_view(r@) == segments_of(without_nulls(text@)),
{
    let s = string_of(&strip_nulls(&chars_of(text)));
    file_segments(s.as_str())
}

/// Turns what was read from the clipboard into a draft. A bitmap that
/// encodes wins; else the text is read as paths or as plain text.
/// `on_disk[i]` tells whether the `i`-th path candidate of the text exists.
pub fn capture_clipboard(
    image: Option<ImageCapture>,
    text: Option<String>,
    on_disk: &Vec<bool>,
    prefs: &RuntimePreferences,
) -> (r: Option<ClipboardDraft>)
    requires
        image matches Some(img) ==> image_fits(img),
        text matches Some(t) ==> on_disk@.len() == segments_of(without_nulls(t@)).len(),
    ensures
        ({
            let from_text = match text {
                Some(t) => text_draft(t@, on_disk@, prefs@.ignored_keywords),
                None => None,
            };
            match image {
                Some(img) => if encodable(img) {
                    r matches Some(d) && d@ == image_draft(img)
                } else {
                    draft_view(r) == from_text
                },
                None => draft_view(r) == from_text,
            }
        }),
{
    match &image {
        Some(img) => match build_image_payload(img) {
            Some(d) => return Some(d),
            None => {},
        },
        None => {},
    }
    let t = match text {
        Some(t) => t,
        None => return None,
    };
    let ghost tv = t@;
    let sanitized_chars = strip_nulls(&chars_of(t.as_str()));
    if trim_chars(&sanitized_chars, false).len() == 0 {
        return None;
    }
    let sanitized = string_of(&sanitized_chars);
    match try_build_file_payload(sanitized.as_str(), on_disk) {
        Some(f) => {
            if should_ignore(f.content.as_str(), prefs) {
                return None;
            }
            let d = ClipboardDraft {
                kind: ClipKind::File,
                text: None,
                image_base64: None,
                file_path: Some(f.content),
                preview: Some(f.preview),
                extra: Some(f.first),
                is_pinned: false,
                is_favorite: false,
            };
            Some(d)
        },
        None => {
            if should_ignore(sanitized.as_str(), prefs) {
                return None;
            }
            let preview = preview_text(sanitized.as_str());
            Some(
                ClipboardDraft {
                    kind: ClipKind::Text,
                    text: Some(sanitized),
                    image_base64: None,
                    file_path: None,
                    preview: Some(preview),
                    extra: None,
                    is_pinned: false,
                    is_favorite: false,
                },
            )
        },
    }
}

// ---- the loop ----

/// The poll interval: the configured debounce clamped to its bounds.
pub open spec fn poll_ms(debounce: u64) -> u64 {
    if debounce < MIN_POLL_MS {
        MIN_POLL_MS
    } else if debounce > MAX_POLL_MS {
        MAX_POLL_MS
    } else {
        debounce
    }
}

/// The wait after `failures` consecutive failures: the poll interval times
/// one more than the failures (at most five counted), capped.
pub open spec fn backoff(poll: u64, failures: u32) -> int {
    let f = if failures < 5 {
        failures as int
    } else {
        5
    };
    let w = poll * (f + 1);
    if w < MAX_BACKOFF_MS {
        w
    } else {
        MAX_BACKOFF_MS as int
    }
}

pub fn poll_interval_ms(prefs: &RuntimePreferences) -> (r: u64)
    ensures
        r == poll_ms(prefs.debounce_interval_ms),
{
    let d = prefs.debounce_interval_ms;
    if d < MIN_POLL_MS {
        MIN_POLL_MS
    } else if d > MAX_POLL_MS {
        MAX_POLL_MS
    } else {
        d
    }
}

pub fn backoff_ms(poll: u64, failures: u32) -> (r: u64)
    ensures
        r == backoff(poll, failures),
{
    let f: u128 = if failures < 5 {
        failures as u128
    } else {
        5
    };
    assert((poll as u128) * (f + 1) <= 6 * (u64::MAX as u128)) by (nonlinear_arith)
        requires
            f + 1 <= 6,
    ;
    let w: u128 = (poll as u128) * (f + 1);
    if w < MAX_BACKOFF_MS as u128 {
        w as u64
    } else {
        MAX_BACKOFF_MS
    }
}

/// What happens to a capture whose hash is `h`.
#[derive(Clone, Copy, Debug, PartialEq, Eq, Structural)]
pub enum Verdict {
    /// It is stored.
    Store,
    /// It is this application's own copy, and is dropped.
    SelfCopy,
    /// It is what was stored last, and is dropped.
    Duplicate,
}

/// The verdict on a capture of hash `h`: an own copy is dropped when
/// suppression is on and `h` is marked; a repeat of the last stored hash is
/// dropped when dedup is on; anything else is stored.
pub open spec fn verdict(
    ignore_self_copies: bool,
    dedupe: bool,
    marked: bool,
    last: Option<Seq<char>>,
    h: Seq<char>,
) -> Verdict {
    if ignore_self_copies && marked {
        Verdict::SelfCopy
    } else if dedupe && last == Some(h) {
        Verdict::Duplicate
    } else {
        Verdict::Store
    }
}

/// The pending self-copies after a capture of hash `h` was checked.
pub open spec fn copies_after(q: Seq<Seq<char>>, ignore_self_copies: bool, h: Seq<char>) -> Seq<Seq<char>> {
    if ignore_self_copies {
        after_consume(q, h)
    } else {
        q
    }
}

pub struct LoopView {
    pub last_hash: Option<Seq<char>>,
    pub consecutive_failures: u32,
}

/// What the host does after a capture: wait `sleep_ms`, and announce the
/// record that was written, if one was.
pub struct TickOutcome {
    pub sleep_ms: u64,
    pub captured: Option<ClipItem>,
}

/// The state that the capture loop keeps between ticks: the hash it stored
/// last, and how many ticks in a row failed.
pub struct CaptureLoop {
    last_hash: Option<String>,
    consecutive_failures: u32,
}

impl View for CaptureLoop {
    type V = LoopView;

    closed spec fn view(&self) -> LoopView {
        LoopView { last_hash: opt_chars(self.last_hash), consecutive_failures: self.consecutive_failures }
    }
}

pub open spec fn bump(n: u32) -> u32 {
    if n < u32::MAX {
        (n + 1) as u32
    } else {
        n
    }
}

impl CaptureLoop {
    pub fn new() -> (r: CaptureLoop)
        ensures
            r@.last_hash is None,
            r@.consecutive_failures == 0,
    {
        CaptureLoop { last_hash: None, consecutive_failures: 0 }
    }

    pub fn consecutive_failures(&self) -> (r: u32)
        ensures
            r == self@.consecutive_failures,
    {
        self.consecutive_failures
    }

    /// The first step of a tick: while listening is paused, the loop reads
    /// nothing and waits the idle interval; otherwise it goes on to capture.
    pub fn idle_wait(&self, status: &AppStatus) -> (r: Option<u64>)
        ensures
            status@.listening ==> r is None,
            !status@.listening ==> r == Some(IDLE_INTERVAL_MS),
    {
        if status.listening() {
            None
        } else {
            Some(IDLE_INTERVAL_MS)
        }
    }

    /// Records a failed clipboard read; returns how long to wait.
    pub fn on_read_error(&mut self, prefs: &RuntimePreferences) -> (r: u64)
        ensures
            final(self)@ == (LoopView {
                consecutive_failures: bump(old(self)@.consecutive_failures),
                ..old(self)@
            }),
            r == backoff(poll_ms(prefs.debounce_interval_ms), bump(old(self)@.consecutive_failures)),
    {
        self.consecutive_failures = if self.consecutive_failures < u32::MAX {
            self.consecutive_failures + 1
        } else {
            self.consecutive_failures
        };
        backoff_ms(poll_interval_ms(prefs), self.consecutive_failures)
    }

    /// Handles one capture read from the clipboard at time `now`: validates
    /// it, drops an own copy or a repeat, else stores it and applies the
    /// retention policy. Returns how long to wait and the record written.
    pub fn on_capture(
        &mut self,
        status: &mut AppStatus,
        prefs: &RuntimePreferences,
        store: &mut DbState,
        draft: Option<ClipboardDraft>,
        now: i64,
    ) -> (r: TickOutcome)
        requires
            old(status).wf(),
            old(store).wf(),
        ensures
            final(status).wf(),
            final(store).wf(),
            ({
                let poll = poll_ms(prefs.debounce_interval_ms);
                let calm = LoopView { consecutive_failures: 0, ..old(self)@ };
                let failed = LoopView {
                    consecutive_failures: bump(old(self)@.consecutive_failures),
                    ..old(self)@
                };
                match draft_view(draft) {
                    None => final(store)@ == old(store)@ && final(status)@ == old(status)@
                        && final(self)@ == calm && r.captured is None && r.sleep_ms == poll,
                    Some(d) => match draft_error(d) {
                        Some(_) => final(store)@ == old(store)@ && final(status)@ == old(status)@
                            && final(self)@ == failed && r.captured is None && r.sleep_ms
                            == backoff(poll, failed.consecutive_failures),
                        None => {
                            let p = payload_of(d);
                            let h = payload_hash(p);
                            let v = verdict(
                                prefs.ignore_self_copies,
                                prefs.dedupe_enabled,
                                old(status)@.self_copies.contains(h),
                                old(self)@.last_hash,
                                h,
                            );
                            &&& final(status)@ == (StatusView {
                                self_copies: copies_after(
                                    old(status)@.self_copies,
                                    prefs.ignore_self_copies,
                                    h,
                                ),
                                ..old(status)@
                            })
                            &&& v != Verdict::Store ==> final(store)@ == old(store)@ && final(self)@
                                == calm && r.captured is None && r.sleep_ms == poll
                            &&& v == Verdict::Store && upsert_possible(old(store)@, p) ==> {
                                let written = after_upsert(old(store)@, p, now);
                                &&& r.captured matches Some(item) && item@ == written.records[upsert_index(
                                    old(store)@,
                                    p,
                                )]
                                &&& retained(written, prefs.retention, now, final(store)@)
                                &&& final(self)@ == (LoopView {
                                    last_hash: Some(h),
                                    consecutive_failures: 0,
                                })
                                &&& r.sleep_ms == poll
                            }
                            &&& v == Verdict::Store && !upsert_possible(old(store)@, p) ==> {
                                &&& final(store)@ == old(store)@
                                &&& final(self)@ == failed
                                &&& r.captured is None
                                &&& r.sleep_ms == backoff(poll, failed.consecutive_failures)
                            }
                        },
                    },
                }
            }),
    {
        let poll = poll_interval_ms(prefs);
        let d = match draft {
            Some(d) => d,
            None => {
                self.consecutive_failures = 0;
                return TickOutcome { sleep_ms: poll, captured: None };
            },
        };
        let ghost dv = d@;
        let payload = match d.into_payload() {
            Ok(p) => p,
            Err(_) => {
                let sleep_ms = self.on_read_error(prefs);
                return TickOutcome { sleep_ms, captured: None };
            },
        };
        let hash = match &payload.content_hash {
            Some(h) => if !h.as_str().is_empty() {
                h.clone()
            } else {
                crate::hash::compute_content_hash(payload.kind, payload.content.as_str())
            },
            None => crate::hash::compute_content_hash(payload.kind, payload.content.as_str()),
        };
        assert(hash@ == payload_hash(payload_of(dv)));
        if prefs.ignore_self_copies {
            if status.consume_self_copy(hash.as_str()) {
                self.consecutive_failures = 0;
                return TickOutcome { sleep_ms: poll, captured: None };
            }
        }
        let repeat = match &self.last_hash {
            Some(last) => *last == hash,
            None => false,
        };
        if prefs.dedupe_enabled && repeat {
            self.consecutive_failures = 0;
            return TickOutcome { sleep_ms: poll, captured: None };
        }
        match store.upsert(payload, now) {
            Ok(item) => {
                store.apply_retention(&prefs.retention, now);
                self.last_hash = Some(hash);
                self.consecutive_failures = 0;
                TickOutcome { sleep_ms: poll, captured: Some(item) }
            },
            Err(_) => {
                let sleep_ms = self.on_read_error(prefs);
                TickOutcome { sleep_ms, captured: None }
            },
        }
    }
}


/// The hash the loop remembers as stored last after a verdict on `h`, when a
/// store succeeds.
pub open spec fn last_after(v: Verdict, last: Option<Seq<char>>, h: Seq<char>) -> Option<Seq<char>> {
    if v == Verdict::Store {
        Some(h)
    } else {
        last
    }
}

/// With dedup on and no own copy pending, two ticks that capture the same
/// content store it once; a tick with other content stores that, and a tick
/// that goes back to the first content stores it again.
pub proof fn lemma_dedup_ticks(
    ignore_self_copies: bool,
    last: Option<Seq<char>>,
    a: Seq<char>,
    b: Seq<char>,
)
    requires
        a != b,
        last != Some(a),
    ensures
        ({
            let v1 = verdict(ignore_self_copies, true, false, last, a);
            let l1 = last_after(v1, last, a);
            let v2 = verdict(ignore_self_copies, true, false, l1, a);
            let l2 = last_after(v2, l1, a);
            let v3 = verdict(ignore_self_copies, true, false, l2, b);
            let l3 = last_after(v3, l2, b);
            let v4 = verdict(ignore_self_copies, true, false, l3, a);
            &&& v1 == Verdict::Store
            &&& v2 == Verdict::Duplicate
            &&& v3 == Verdict::Store
            &&& v4 == Verdict::Store
        }),
{
}

proof fn lemma_consume_marked(q: Seq<Seq<char>>, h: Seq<char>)
    requires
        !q.contains(h),
        q.len() <= SELF_COPY_CAPACITY,
    ensures
        after_mark(q, h).contains(h),
        !after_consume(after_mark(q, h), h).contains(h),
{
    let q1 = after_mark(q, h);
    let n = q1.len() - 1;
    assert(q1[n] == h);
    assert forall|j: int| 0 <= j < n implies #[trigger] q1[j] != h by {
        if q.len() + 1 > SELF_COPY_CAPACITY {
            assert(q1[j] == q[j + 1]);
        } else {
            assert(q1[j] == q[j]);
        }
    }
    assert(first_at(q1, h, n));
    assert forall|k: int| first_at(q1, h, k) implies k == n by {}
    let q2 = after_consume(q1, h);
    assert(q2 =~= q1.remove(n));
    assert forall|j: int| 0 <= j < q2.len() implies q2[j] != h by {
        assert(q2[j] == q1[j]);
    }
}

/// With suppression on, a hash marked as an own copy and then captured is
/// dropped once; the next capture of it, the mark being consumed, is stored
/// unless it repeats the last stored hash under dedup.
pub proof fn lemma_self_copy_once(
    q: Seq<Seq<char>>,
    h: Seq<char>,
    dedupe: bool,
    last: Option<Seq<char>>,
)
    requires
        !q.contains(h),
        q.len() <= SELF_COPY_CAPACITY,
        !(dedupe && last == Some(h)),
    ensures
        ({
            let q1 = after_mark(q, h);
            let q2 = copies_after(q1, true, h);
            &&& verdict(true, dedupe, q1.contains(h), last, h) == Verdict::SelfCopy
            &&& verdict(true, dedupe, q2.contains(h), last, h) == Verdict::Store
        }),
{
    lemma_consume_marked(q, h);
}

} // verus!
