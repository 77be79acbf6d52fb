//! The prompts and endpoint of a text transformation request to an
//! OpenAI-compatible chat service.
use vstd::prelude::*;

use crate::text::{chars_of, push_all, string_of, trim_chars, trimmed};

verus! {

/// The transformation asked for.
#[derive(Clone, Copy, Debug, PartialEq, Eq, Structural)]
pub enum AiActionKind {
    Translate,
    Summarize,
    Polish,
    Jsonify,
    Custom,
}

/// The language used when the request names none.
pub open spec fn default_language() -> Seq<char> {
    "zh-CN"@
}

/// The requested language, trimmed, or the default when it is absent or blank.
pub open spec fn language_of(language: Option<Seq<char>>) -> Seq<char> {
    match language {
        Some(l) => if trimmed(l, false).len() > 0 {
            trimmed(l, false)
        } else {
            default_language()
        },
        None => default_language(),
    }
}

/// The system prompt of an action.
pub open spec fn system_prompt(
    action: AiActionKind,
    lang: Seq<char>,
    custom_prompt: Option<Seq<char>>,
) -> Seq<char> {
    match action {
        AiActionKind::Translate => "You are VibeClip Pro, a precise multilingual translator.\nRespond in "@
            + lang + " with a natural translation."@,
        AiActionKind::Summarize => "You are VibeClip Pro, an expert summarizer.\nSummaries must be concise bullet points in "@
            + lang + "."@,
        AiActionKind::Polish => "You are VibeClip Pro, a writing assistant who enhances clarity.\nKeep the meaning but improve fluency in "@
            + lang + "."@,
        AiActionKind::Jsonify => "You are VibeClip Pro, a data formatter returning strict JSON."@,
        AiActionKind::Custom => match custom_prompt {
            Some(p) => p,
            None => "You are VibeClip Pro, a helpful assistant."@,
        },
    }
}

/// The user prompt of an action: the trimmed input, after an instruction for
/// the actions that take one.
pub open spec fn user_prompt(action: AiActionKind, input: Seq<char>) -> Seq<char> {
    let body = trimmed(input, false);
    match action {
        AiActionKind::Summarize => "Summarize the following content:\n"@ + body,
        AiActionKind::Polish => "Improve the following content:\n"@ + body,
        AiActionKind::Jsonify => "Convert the following content into valid JSON. Use lowercase keys.\n"@
            + body,
        _ => body,
    }
}

/// `a` followed by the characters of `b`.
fn append_str(a: &mut Vec<char>, b: &str)
    ensures
        final(a)@ == old(a)@ + b@,
{
    let cs = chars_of(b);
    push_all(a, &cs);
}

/// The system and user prompts of a request.
pub fn build_prompts(
    action: AiActionKind,
    input: &str,
    language: &Option<String>,
    custom_prompt: &Option<String>,
) -> (r: (String, String))
    ensures
        r.0@ == system_prompt(
            action,
            language_of(crate::db::opt_chars(*language)),
            crate::db::opt_chars(*custom_prompt),
        ),
        r.1@ == user_prompt(action, input@),
{
    let ghost lang_spec = language_of(crate::db::opt_chars(*language));
    let lang: Vec<char> = match language {
        Some(l) => {
            let t = trim_chars(&chars_of(l.as_str()), false);
            if t.len() > 0 {
                t
            } else {
                chars_of("zh-CN")
            }
        },
        None => chars_of("zh-CN"),
    };
    assert(lang@ == lang_spec);
    let body = trim_chars(&chars_of(input), false);
    let mut system: Vec<char> = Vec::new();
    let mut user: Vec<char> = Vec::new();
    match action {
        AiActionKind::Translate => {
            append_str(&mut system, "You are VibeClip Pro, a precise multilingual translator.\nRespond in ");
            push_all(&mut system, &lang);
            append_str(&mut system, " with a natural translation.");
        },
        AiActionKind::Summarize => {
            append_str(&mut system, "You are VibeClip Pro, an expert summarizer.\nSummaries must be concise bullet points in ");
            push_all(&mut system, &lang);
            append_str(&mut system, ".");
            append_str(&mut user, "Summarize the following content:\n");
        },
        AiActionKind::Polish => {
            append_str(&mut system, "You are VibeClip Pro, a writing assistant who enhances clarity.\nKeep the meaning but improve fluency in ");
            push_all(&mut system, &lang);
            append_str(&mut system, ".");
            append_str(&mut user, "Improve the following content:\n");
        },
        AiActionKind::Jsonify => {
            append_str(&mut system, "You are VibeClip Pro, a data formatter returning strict JSON.");
            append_str(&mut user, "Convert the following content into valid JSON. Use lowercase keys.\n");
        },
        AiActionKind::Custom => match custom_prompt {
            Some(p) => {
                append_str(&mut system, p.as_str());
            },
            None => {
                append_str(&mut system, "You are VibeClip Pro, a helpful assistant.");
            },
        },
    }
    push_all(&mut user, &body);
    assert(system@ =~= system_prompt(action, lang_spec, crate::db::opt_chars(*custom_prompt)));
    assert(user@ =~= user_prompt(action, input@));
    (string_of(&system), string_of(&user))
}

/// Why a request cannot be sent.
#[derive(Clone, Copy, Debug, PartialEq, Eq, Structural)]
pub enum RequestError {
    /// The API key is blank.
    MissingApiKey,
    /// The base URL is blank, or only slashes.
    MissingBaseUrl,
}

/// `s` without its trailing slashes.
pub open spec fn strip_slashes(s: Seq<char>) -> Seq<char>
    decreases s.len(),
{
    if s.len() > 0 && s.last() == '/' {
        strip_slashes(s.drop_last())
    } else {
        s
    }
}

/// The chat completions endpoint under a base URL.
pub open spec fn endpoint_of(base_url: Seq<char>) -> Seq<char> {
    strip_slashes(trimmed(base_url, false)) + "/v1/chat/completions"@
}

/// The trimmed API key and the endpoint to call, or why the request cannot
/// be sent.
pub fn prepare_endpoint(api_key: &str, base_url: &str) -> (r: Result<(String, String), RequestError>)
    ensures
        trimmed(api_key@, false).len() == 0 ==> r == Err::<(String, String), RequestError>(
            RequestError::MissingApiKey,
        ),
        trimmed(api_key@, false).len() > 0 && strip_slashes(trimmed(base_url@, false)).len() == 0
            ==> r == Err::<(String, String), RequestError>(RequestError::MissingBaseUrl),
        trimmed(api_key@, false).len() > 0 && strip_slashes(trimmed(base_url@, false)).len() > 0
            ==> (r matches Ok((k, u)) && k@ == trimmed(api_key@, false) && u@ == endpoint_of(base_url@)),
{
    let key = trim_chars(&chars_of(api_key), false);
    if key.len() == 0 {
        return Err(RequestError::MissingApiKey);
    }
    let base = trim_chars(&chars_of(base_url), false);
    let mut n = base.len();
    assert(base@.subrange(0, n as int) =~= base@);
    while n > 0 && base[n - 1] == '/'
        invariant
            n <= base@.len(),
            strip_slashes(base@) == strip_slashes(base@.subrange(0, n as int)),
        decreases n,
    {
        assert(base@.subrange(0, n as int).drop_last() =~= base@.subrange(0, n as int - 1));
        n = n - 1;
    }
    assert(strip_slashes(base@) == base@.subrange(0, n as int));
    if n == 0 {
        return Err(RequestError::MissingBaseUrl);
    }
    let mut url = crate::text::slice_chars(&base, 0, n);
    append_str(&mut url, "/v1/chat/completions");
    Ok((string_of(&key), string_of(&url)))
}

} // verus!
