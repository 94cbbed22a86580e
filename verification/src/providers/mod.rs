//! Search providers: keyless direct engines and the optional SearXNG adapter.
//!
//! Each provider module holds the pure part of an adapter: the request
//! parameters it sends, how it classifies the HTTP status it gets back, and
//! how it turns the page into compact results. The transport itself lives in
//! `app/`.

pub mod bing;
pub mod brave;
pub mod duckduckgo;
pub mod fanout;
pub mod searxng;

use vstd::prelude::*;
use crate::error::{ArgosError, ArgosErrorV};
use crate::types::{SearchResult, SearchResultV, results_view};
use crate::limits::{truncate_source, SNIPPET_MAX_CHARS, SOURCE_MAX_CHARS, TITLE_MAX_CHARS};
use crate::text::{
    chars_of, trim, trim_chars, decimal, decimal_string, string_of, trim_start_str, trim_start_str_chars, truncated,
};
use crate::web::{parse_url_host, url_host};

verus! {

/// The characters of `s` before its first `c`.
pub open spec fn before_char(s: Seq<char>, c: char) -> Seq<char>
    decreases s.len(),
{
    if s.len() == 0 || s[0] == c {
        Seq::<char>::empty()
    } else {
        seq![s[0]] + before_char(s.drop_first(), c)
    }
}

/// The host a URL names when the URL parser rejects it: scheme prefixes
/// removed, everything from the first `/` dropped.
pub open spec fn fallback_host(url: Seq<char>) -> Seq<char> {
    before_char(trim_start_str(trim_start_str(url, "https://"@), "http://"@), '/')
}

/// Compact hostname for a URL: no scheme, no path, no leading `www.`,
/// truncated to [`SOURCE_MAX_CHARS`].
pub open spec fn compact_source_of(url: Seq<char>) -> Seq<char> {
    let host = match url_host(url) {
        Some(h) => h,
        None => fallback_host(url),
    };
    truncated(trim_start_str(host, "www."@), SOURCE_MAX_CHARS as nat)
}

proof fn lemma_before_char_index(s: Seq<char>, c: char, j: int)
    requires
        0 <= j <= s.len(),
        forall|k: int| 0 <= k < j ==> s[k] != c,
        j == s.len() || s[j] == c,
    ensures
        before_char(s, c) == s.take(j),
    decreases j,
{
    if j > 0 {
        lemma_before_char_index(s.drop_first(), c, j - 1);
        assert(seq![s[0]] + s.drop_first().take(j - 1) =~= s.take(j));
    } else {
        assert(s.take(0) =~= Seq::<char>::empty());
    }
}

pub fn before_char_exec(s: &Vec<char>, c: char) -> (r: Vec<char>)
    ensures
        r@ == before_char(s@, c),
{
    let mut j: usize = 0;
    while j < s.len() && s[j] != c
        invariant
            j <= s.len(),
            forall|k: int| 0 <= k < j ==> s@[k] != c,
        decreases s.len() - j,
    {
        j = j + 1;
    }
    proof {
        lemma_before_char_index(s@, c, j as int);
    }
    crate::text::slice_chars(s, 0, j)
}

/// Compact hostname for the `source` field (no scheme, no path, no `www.`).
/// Falls back to a manual split when the URL parser rejects the input.
pub fn compact_source(url: &str) -> (r: String)
    ensures
        r@ == compact_source_of(url@),
{
    let host: Vec<char> = match parse_url_host(url) {
        Some(h) => chars_of(h.as_str()),
        None => {
            let cs = chars_of(url);
            let a = trim_start_str_chars(&cs, &chars_of("https://"));
            let b = trim_start_str_chars(&a, &chars_of("http://"));
            before_char_exec(&b, '/')
        },
    };
    let trimmed = trim_start_str_chars(&host, &chars_of("www."));
    if trimmed.len() == 0 {
        String::new()
    } else {
        let t = string_of(trimmed.as_slice());
        truncate_source(t.as_str())
    }
}

/// The error for a request that never got an HTTP answer.
pub fn transport_error(host: &str, cause: String) -> (r: ArgosError)
    ensures
        r@ == (crate::error::ArgosErrorV::Unreachable { origin: host@, cause: cause@ }),
{
    ArgosError::Unreachable { origin: String::from_str(host), cause }
}

/// `HTTP <status>`, the cause given for an unexpected status.
pub open spec fn http_cause(status: u16) -> Seq<char> {
    "HTTP "@ + decimal(status as nat)
}

/// How an HTML provider answers an HTTP status: `Ok(())` for 200 (the body
/// is to be parsed), a rate-limit error for the statuses in `limit_codes`, and
/// an unreachable error naming the status for all others.
pub open spec fn status_verdict(
    status: u16,
    limit_codes: Seq<u16>,
    engine: Seq<char>,
    host: Seq<char>,
) -> Result<(), crate::error::ArgosErrorV> {
    if status == 200 {
        Ok(())
    } else if limit_codes.contains(status) {
        Err(crate::error::ArgosErrorV::RateLimited { engine, status })
    } else {
        Err(crate::error::ArgosErrorV::Unreachable { origin: host, cause: http_cause(status) })
    }
}

pub open spec fn unit_result_view(r: Result<(), ArgosError>) -> Result<(), crate::error::ArgosErrorV> {
    match r {
        Ok(()) => Ok(()),
        Err(e) => Err(e@),
    }
}

/// Classify an HTTP status as [`status_verdict`] describes.
pub fn classify_status(status: u16, limit_codes: &[u16], engine: &str, host: &str) -> (r: Result<
    (),
    ArgosError,
>)
    ensures
        unit_result_view(r) == status_verdict(status, limit_codes@, engine@, host@),
{
    if status == 200 {
        return Ok(());
    }
    let mut i: usize = 0;
    while i < limit_codes.len()
        invariant
            i <= limit_codes.len(),
            status != 200,
            forall|k: int| 0 <= k < i ==> limit_codes@[k] != status,
        decreases limit_codes.len() - i,
    {
        if limit_codes[i] == status {
            assert(limit_codes@.contains(status)) by {
                assert(limit_codes@[i as int] == status);
            }
            return Err(ArgosError::RateLimited { engine: String::from_str(engine), status });
        }
        i = i + 1;
    }
    let mut cause = String::from_str("HTTP ");
    let d = decimal_string(status as u64);
    cause.append(d.as_str());
    Err(ArgosError::Unreachable { origin: String::from_str(host), cause })
}

pub open spec fn params_view(v: Seq<(String, String)>) -> Seq<(Seq<char>, Seq<char>)> {
    v.map_values(|p: (String, String)| (p.0@, p.1@))
}

pub open spec fn text_or_empty(o: Option<Seq<char>>) -> Seq<char> {
    match o {
        Some(s) => s,
        None => Seq::<char>::empty(),
    }
}

pub open spec fn selector_error() -> Seq<char> {
    "result selectors do not parse"@
}

pub open spec fn page_view(r: Result<Vec<SearchResult>, ArgosError>) -> Result<
    Seq<SearchResultV>,
    ArgosErrorV,
> {
    match r {
        Ok(v) => Ok(results_view(v@)),
        Err(e) => Err(e@),
    }
}

/// The trimmed text of an optional node.
pub fn trimmed_text(o: &Option<String>) -> (r: Vec<char>)
    ensures
        r@ == trim(text_or_empty(crate::types::opt_view(*o))),
{
    match o {
        Some(s) => {
            let cs = chars_of(s.as_str());
            trim_chars(&cs)
        },
        None => {
            let v: Vec<char> = Vec::new();
            assert(trim(Seq::<char>::empty()) =~= Seq::<char>::empty());
            v
        },
    }
}

/// A result within the payload budgets: a title of at most
/// [`TITLE_MAX_CHARS`] characters and a snippet of at most
/// [`SNIPPET_MAX_CHARS`], each plus the `...` that marks a cut.
pub open spec fn within_budgets(r: SearchResultV) -> bool {
    &&& r.title.len() <= TITLE_MAX_CHARS + 3
    &&& r.snippet.len() <= SNIPPET_MAX_CHARS + 3
}

/// A result an HTML provider may hand out: within the budgets, with a
/// non-empty title, and naming `engine` as the engine that produced it.
pub open spec fn well_formed_result(r: SearchResultV, engine: Seq<char>) -> bool {
    &&& within_budgets(r)
    &&& r.title.len() > 0
    &&& r.engine == Some(engine)
}

/// `r` is `text` within a budget of `max` characters: `text` itself when it
/// fits, else its first `max` characters followed by `...`.
pub open spec fn cut_from(r: Seq<char>, text: Seq<char>, max: nat) -> bool {
    &&& text.len() <= max ==> r == text
    &&& text.len() > max ==> r == text.take(max as int) + seq!['.', '.', '.']
}

/// The title and snippet an HTML provider makes of the trimmed texts it found.
pub(crate) proof fn lemma_cut_texts(title: Seq<char>, snippet: Seq<char>)
    requires
        title.len() > 0,
    ensures
        truncated(title, TITLE_MAX_CHARS as nat).len() > 0,
        truncated(title, TITLE_MAX_CHARS as nat).len() <= TITLE_MAX_CHARS + 3,
        truncated(snippet, SNIPPET_MAX_CHARS as nat).len() <= SNIPPET_MAX_CHARS + 3,
{
    crate::text::law_truncation_budget(title, TITLE_MAX_CHARS as nat);
    crate::text::law_truncation_budget(snippet, SNIPPET_MAX_CHARS as nat);
}

/// The first `limit` results of a page, as a search call returns them.
pub open spec fn limited<T>(s: Seq<T>, limit: nat) -> Seq<T> {
    if s.len() <= limit {
        s
    } else {
        s.take(limit as int)
    }
}

} // verus!
