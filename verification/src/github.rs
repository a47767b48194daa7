//! The template repository: its coordinates, decoding of fetched file
//! payloads, friendly fetch-failure messages, and the built-in fallback
//! templates.
//!
//! The network fetch itself is an outside concern; the library only decodes
//! what a fetch returned.

use vstd::prelude::*;
use base64::Engine;
use crate::strutil::{str_to_chars, chars_to_string, chars_contains, seq_has};
use crate::errors::ForgeError;

verus! {

// ---------------------------------------------------------------------------
// Repository coordinates
// ---------------------------------------------------------------------------

/// Where templates are fetched from.
pub struct TemplateRepository {
    pub owner: String,
    pub repo: String,
    pub branch: String,
}

impl TemplateRepository {
    /// The standard template repository.
    pub fn standard() -> (r: TemplateRepository)
        ensures
            r.owner@ == "mcp-forge"@,
            r.repo@ == "templates"@,
            r.branch@ == "main"@,
    {
        TemplateRepository {
            owner: String::from_str("mcp-forge"),
            repo: String::from_str("templates"),
            branch: String::from_str("main"),
        }
    }
}

impl Default for TemplateRepository {
    /// The standard template repository.
    fn default() -> (r: TemplateRepository)
        ensures
            r.owner@ == "mcp-forge"@,
            r.repo@ == "templates"@,
            r.branch@ == "main"@,
    {
        TemplateRepository::standard()
    }
}

/// What the repository reports about itself.
pub struct RepositoryInfo {
    pub name: String,
    pub description: Option<String>,
    pub stars: u32,
    pub updated_at: String,
    pub html_url: String,
}

// ---------------------------------------------------------------------------
// Payload decoding
// ---------------------------------------------------------------------------

/// What standard-alphabet base64 decoding yields for a text; a function of
/// the text alone.
pub uninterp spec fn b64_decode_of(s: Seq<char>) -> Option<Seq<u8>>;

/// Relies on base64's Engine::decode with the standard alphabet: decodes the
/// text into the bytes it encodes, refusing ill-formed input.
#[verifier::external_body]
fn decode_base64(s: &str) -> (r: Option<Vec<u8>>)
    ensures
        (r is Some) == (b64_decode_of(s@) is Some),
        r matches Some(v) ==> b64_decode_of(s@) == Some(v@),
{
    base64::engine::general_purpose::STANDARD.decode(s).ok()
}

/// What UTF-8 decoding yields for a byte sequence; a function of the bytes
/// alone.
pub uninterp spec fn utf8_decode_of(bytes: Seq<u8>) -> Option<Seq<char>>;

/// Relies on String::from_utf8: decodes the bytes as UTF-8 text, refusing
/// invalid byte sequences.
#[verifier::external_body]
fn bytes_to_utf8(bytes: Vec<u8>) -> (r: Option<String>)
    ensures
        (r is Some) == (utf8_decode_of(bytes@) is Some),
        r matches Some(t) ==> utf8_decode_of(bytes@) == Some(t@),
{
    String::from_utf8(bytes).ok()
}

/// The payload text without the newlines the transport wraps lines with.
pub open spec fn strip_newlines(s: Seq<char>) -> Seq<char> {
    s.filter(|c: char| c != '\n')
}

/// What decoding a fetched file's base64 payload yields.
pub open spec fn payload_text_spec(s: Seq<char>) -> Option<Seq<char>> {
    match b64_decode_of(strip_newlines(s)) {
        Some(bytes) => utf8_decode_of(bytes),
        None => None,
    }
}

fn filter_newlines(v: &Vec<char>) -> (r: Vec<char>)
    ensures
        r@ == strip_newlines(v@),
{
    let mut r: Vec<char> = Vec::new();
    let mut i: usize = 0;
    proof {
        assert(v@.take(0) =~= Seq::<char>::empty());
        assert(v@.take(0).filter(|c: char| c != '\n') =~= Seq::<char>::empty());
    }
    while i < v.len()
        invariant
            i <= v@.len(),
            r@ == v@.take(i as int).filter(|c: char| c != '\n'),
        decreases v@.len() - i,
    {
        let c = v[i];
        let ghost f = |c: char| c != '\n';
        proof {
            assert(v@.take(i + 1) =~= v@.take(i as int).push(v@[i as int]));
            lemma_filter_push_nl(v@.take(i as int), v@[i as int], f);
        }
        if c != '\n' {
            r.push(c);
        }
        i = i + 1;
    }
    proof {
        assert(v@.take(v@.len() as int) =~= v@);
    }
    r
}

proof fn lemma_filter_push_nl(s: Seq<char>, x: char, f: spec_fn(char) -> bool)
    ensures
        s.push(x).filter(f) == if f(x) {
            s.filter(f).push(x)
        } else {
            s.filter(f)
        },
{
    reveal(Seq::filter);
    assert(s.push(x).drop_last() =~= s);
}

/// Decodes a fetched file's base64 payload into its text, dropping the
/// transport's line breaks first.
pub fn decode_payload(content: &str) -> (r: Result<String, ForgeError>)
    ensures
        (r is Ok) == (payload_text_spec(content@) is Some),
        r matches Ok(t) ==> payload_text_spec(content@) == Some(t@),
        r matches Err(e) ==> e is Parse,
{
    let chars = str_to_chars(content);
    let stripped = filter_newlines(&chars);
    let text = chars_to_string(&stripped);
    match decode_base64(text.as_str()) {
        None => Err(ForgeError::Parse(String::from_str("payload is not valid base64"))),
        Some(bytes) => match bytes_to_utf8(bytes) {
            None => Err(ForgeError::Parse(String::from_str("payload is not valid UTF-8"))),
            Some(t) => Ok(t),
        },
    }
}

// ---------------------------------------------------------------------------
// Fetch-failure messages
// ---------------------------------------------------------------------------

/// Which advice a fetch failure deserves, judged from its message text.
pub open spec fn error_message_kind(e: Seq<char>) -> int {
    if seq_has(e, "rate limit"@) {
        0
    } else if seq_has(e, "not found"@) || seq_has(e, "404"@) {
        1
    } else if seq_has(e, "network"@) || seq_has(e, "timeout"@) {
        2
    } else {
        3
    }
}

/// Turns a raw fetch failure into advice: rate-limit errors suggest waiting
/// or using the cache, missing-repository errors suggest a refresh, network
/// errors suggest the offline cache, and anything else is reported verbatim
/// with the cache as a fallback.
pub fn create_github_error_message(error_text: &str) -> (r: String)
    ensures
        error_message_kind(error_text@) == 0 ==> seq_has(r@, "Rate Limit"@) && seq_has(
            r@,
            "cached templates"@,
        ),
        error_message_kind(error_text@) == 1 ==> seq_has(r@, "Not Found"@),
        error_message_kind(error_text@) == 2 ==> seq_has(r@, "Network"@),
        error_message_kind(error_text@) == 3 ==> seq_has(r@, error_text@),
{
    let e = str_to_chars(error_text);
    let rate = str_to_chars("rate limit");
    let nf = str_to_chars("not found");
    let nf2 = str_to_chars("404");
    let net = str_to_chars("network");
    let to = str_to_chars("timeout");
    if chars_contains(&e, &rate) {
        let r = String::from_str(
            "GitHub API Rate Limit Exceeded. Wait a few minutes and try again, or keep working from cached templates; the limit resets every hour.",
        );
        proof {
            reveal_strlit(
                "GitHub API Rate Limit Exceeded. Wait a few minutes and try again, or keep working from cached templates; the limit resets every hour.",
            );
            reveal_strlit("Rate Limit");
            reveal_strlit("cached templates");
            assert(r@.subrange(11, 21) =~= "Rate Limit"@);
            assert(crate::strutil::matches_at(r@, "Rate Limit"@, 11));
            assert(r@.subrange(87, 103) =~= "cached templates"@);
            assert(crate::strutil::matches_at(r@, "cached templates"@, 87));
        }
        r
    } else if chars_contains(&e, &nf) || chars_contains(&e, &nf2) {
        let r = String::from_str(
            "Template Repository Not Found. The repository may still be being set up, or its address changed; try a forced template refresh.",
        );
        proof {
            reveal_strlit(
                "Template Repository Not Found. The repository may still be being set up, or its address changed; try a forced template refresh.",
            );
            reveal_strlit("Not Found");
            assert(r@.subrange(20, 29) =~= "Not Found"@);
            assert(crate::strutil::matches_at(r@, "Not Found"@, 20));
        }
        r
    } else if chars_contains(&e, &net) || chars_contains(&e, &to) {
        let r = String::from_str(
            "Network Connection Issue. Check the connection and try again, or list templates offline from the cache.",
        );
        proof {
            reveal_strlit(
                "Network Connection Issue. Check the connection and try again, or list templates offline from the cache.",
            );
            reveal_strlit("Network");
            assert(r@.subrange(0, 7) =~= "Network"@);
            assert(crate::strutil::matches_at(r@, "Network"@, 0));
        }
        r
    } else {
        let mut r = String::from_str("GitHub Integration Error. Details: ");
        r.append(error_text);
        r.append(". Cached templates remain usable; try clearing and refreshing the cache.");
        proof {
            assert(crate::strutil::matches_at(
                r@,
                error_text@,
                "GitHub Integration Error. Details: "@.len() as int,
            )) by {
                reveal_strlit("GitHub Integration Error. Details: ");
                assert(r@.subrange(
                    "GitHub Integration Error. Details: "@.len() as int,
                    "GitHub Integration Error. Details: "@.len() + error_text@.len() as int,
                ) =~= error_text@);
            }
        }
        r
    }
}

} // verus!
