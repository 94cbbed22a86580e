//! Local SearXNG JSON API provider (optional adapter, requires the WSL2 stack).

use vstd::prelude::*;
use crate::config::Config;
use crate::error::{ArgosError, ArgosErrorV};
use crate::limits::{SNIPPET_MAX_CHARS, TITLE_MAX_CHARS};
use crate::providers::{
    compact_source, compact_source_of, limited, page_view, params_view, within_budgets,
};
use crate::text::{decimal, decimal_string, truncate_string, truncated};
use crate::types::{SearchResult, SearchResultV, copy_opt_string, opt_view, results_view};

verus! {

/// One result as the SearXNG JSON API returns it (missing text fields are empty).
#[derive(Clone, Debug)]
pub struct RawResult {
    pub url: String,
    pub title: String,
    pub content: String,
    pub engine: Option<String>,
}

/// The hint given when SearXNG answers with an error status.
pub open spec fn json_api_hint() -> Seq<char> {
    "JSON API disabled? Ensure searxng/settings.yml sets search.formats: [html, json] and restart the container."@
}

/// SearXNG-backed provider.
pub struct SearxNgProvider {
    /// The configuration the provider was created with.
    pub config: Config,
}

impl SearxNgProvider {
    /// Create a provider for the given configuration.
    pub fn new(config: Config) -> (r: Self)
        ensures
            r.config == config,
    {
        Self { config }
    }

    /// The search endpoint: the configured base URL followed by `/search`.
    pub fn search_url(&self) -> (r: String)
        ensures
            r@ == self.config.searxng_url@ + "/search"@,
    {
        let mut u = self.config.searxng_url.clone();
        u.append("/search");
        u
    }
}

/// The query parameters of a SearXNG request.
pub open spec fn searxng_params(query: Seq<char>, page: nat) -> Seq<(Seq<char>, Seq<char>)> {
    seq![("q"@, query), ("format"@, "json"@), ("page"@, decimal(page)), ("safesearch"@, "0"@)]
}

/// The query parameters of a SearXNG request.
pub fn search_params(query: &str, page: usize) -> (r: Vec<(String, String)>)
    ensures
        params_view(r@) == searxng_params(query@, page as nat),
{
    let mut params: Vec<(String, String)> = Vec::new();
    params.push((String::from_str("q"), String::from_str(query)));
    params.push((String::from_str("format"), String::from_str("json")));
    params.push((String::from_str("page"), decimal_string(page as u64)));
    params.push((String::from_str("safesearch"), String::from_str("0")));
    assert(params_view(params@) =~= searxng_params(query@, page as nat));
    params
}

/// A transport failure against the instance: nothing listening means the
/// stack is down, anything else is an unreachable endpoint.
pub open spec fn transport_failure(connect_refused: bool, base: Seq<char>, cause: Seq<char>) -> ArgosErrorV {
    if connect_refused {
        ArgosErrorV::Down { base }
    } else {
        ArgosErrorV::Unreachable { origin: "SearXNG at "@ + base, cause }
    }
}

/// Classify a transport failure against the instance.
pub fn classify(connect_refused: bool, base: &str, cause: String) -> (r: ArgosError)
    ensures
        r@ == transport_failure(connect_refused, base@, cause@),
{
    if connect_refused {
        ArgosError::Down { base: String::from_str(base) }
    } else {
        let mut origin = String::from_str("SearXNG at ");
        origin.append(base);
        ArgosError::Unreachable { origin, cause }
    }
}

/// The error for a non-success HTTP status.
pub fn http_error(status: u16) -> (r: ArgosError)
    ensures
        r@ == (ArgosErrorV::Http { status, hint: json_api_hint() }),
{
    ArgosError::Http {
        status,
        hint: String::from_str(
            "JSON API disabled? Ensure searxng/settings.yml sets search.formats: [html, json] and restart the container.",
        ),
    }
}

/// Whether a failed request should boot the stack and retry: only when
/// nothing was listening and on-demand start is enabled.
pub open spec fn boots_stack(connect_refused: bool, auto_start: bool) -> bool {
    connect_refused && auto_start
}

/// Whether a failed request should boot the stack and retry.
pub fn should_boot(connect_refused: bool, config: &Config) -> (r: bool)
    ensures
        r == boots_stack(connect_refused, config.auto_start),
{
    connect_refused && config.auto_start
}

pub struct RawResultV {
    pub url: Seq<char>,
    pub title: Seq<char>,
    pub content: Seq<char>,
    pub engine: Option<Seq<char>>,
}

impl View for RawResult {
    type V = RawResultV;

    open spec fn view(&self) -> RawResultV {
        RawResultV {
            url: self.url@,
            title: self.title@,
            content: self.content@,
            engine: opt_view(self.engine),
        }
    }
}

/// The compact result one raw SearXNG result becomes.
pub open spec fn compact_result(r: RawResultV) -> SearchResultV {
    SearchResultV {
        url: r.url,
        source: compact_source_of(r.url),
        title: truncated(r.title, TITLE_MAX_CHARS as nat),
        snippet: truncated(r.content, SNIPPET_MAX_CHARS as nat),
        engine: r.engine,
    }
}

/// What a payload becomes: its results made compact, or a decode error
/// carrying the parser's message.
pub open spec fn searxng_page(payload: Result<Seq<RawResultV>, Seq<char>>) -> Result<
    Seq<SearchResultV>,
    ArgosErrorV,
> {
    match payload {
        Ok(raw) => Ok(raw.map_values(|r: RawResultV| compact_result(r))),
        Err(msg) => Err(ArgosErrorV::Decode(msg)),
    }
}

pub open spec fn payload_view(p: Result<Vec<RawResult>, String>) -> Result<Seq<RawResultV>, Seq<char>> {
    match p {
        Ok(v) => Ok(v@.map_values(|r: RawResult| r@)),
        Err(m) => Err(m@),
    }
}

/// Turn a decoded SearXNG payload into compact, truncated results (no I/O).
/// `Err` carries the JSON parser's message.
pub fn parse_results(payload: Result<Vec<RawResult>, String>) -> (r: Result<Vec<SearchResult>, ArgosError>)
    ensures
        page_view(r) == searxng_page(payload_view(payload)),
{
    let raw = match payload {
        Ok(raw) => raw,
        Err(msg) => return Err(ArgosError::Decode(msg)),
    };
    let ghost rv = raw@.map_values(|r: RawResult| r@);
    let mut out: Vec<SearchResult> = Vec::new();
    let mut i: usize = 0;
    while i < raw.len()
        invariant
            i <= raw.len(),
            rv == raw@.map_values(|r: RawResult| r@),
            out.len() == i,
            forall|k: int| 0 <= k < i ==> (#[trigger] out@[k])@ == compact_result(rv[k]),
        decreases raw.len() - i,
    {
        let x = &raw[i];
        assert(rv[i as int] == x@);
        out.push(
            SearchResult {
                url: x.url.clone(),
                source: compact_source(x.url.as_str()),
                title: truncate_string(x.title.as_str(), TITLE_MAX_CHARS),
                snippet: truncate_string(x.content.as_str(), SNIPPET_MAX_CHARS),
                engine: copy_opt_string(&x.engine),
            },
        );
        i = i + 1;
    }
    assert(results_view(out@) =~= rv.map_values(|r: RawResultV| compact_result(r)));
    Ok(out)
}

/// A decoded payload's results, at most `limit` of them.
pub fn page_results(payload: Result<Vec<RawResult>, String>, limit: usize) -> (r: Result<
    Vec<SearchResult>,
    ArgosError,
>)
    ensures
        page_view(r) == match searxng_page(payload_view(payload)) {
            Ok(v) => Ok(limited(v, limit as nat)),
            Err(e) => Err(e),
        },
{
    let ghost pv = payload_view(payload);
    match parse_results(payload) {
        Ok(mut results) => {
            results.truncate(limit);
            assert(results_view(results@) =~= limited(
                match searxng_page(pv) {
                    Ok(v) => v,
                    Err(_) => Seq::<SearchResultV>::empty(),
                },
                limit as nat,
            ));
            Ok(results)
        },
        Err(e) => Err(e),
    }
}

/// Every result of a decoded SearXNG payload keeps its URL and engine, and
/// its title and snippet stay within their budgets; one result comes out per
/// raw result, in order.
pub proof fn law_searxng_results_within_budgets(raw: Seq<RawResultV>)
    ensures
        searxng_page(Ok(raw)) matches Ok(rs) && rs.len() == raw.len() && forall|i: int|
            0 <= i < rs.len() ==> within_budgets(#[trigger] rs[i]) && rs[i].url == raw[i].url
                && rs[i].engine == raw[i].engine,
{
    assert forall|i: int| 0 <= i < raw.len() implies within_budgets(
        #[trigger] compact_result(raw[i]),
    ) by {
        crate::text::law_truncation_budget(raw[i].title, TITLE_MAX_CHARS as nat);
        crate::text::law_truncation_budget(raw[i].content, SNIPPET_MAX_CHARS as nat);
    }
}


/// Each compact SearXNG result keeps its raw result's URL and engine, takes
/// its title from the raw title and its snippet from the raw content: the
/// text itself when it fits the budget, else its first budget characters
/// followed by `...`. One result comes out per raw result, in order.
pub proof fn law_searxng_results_from_raw(raw: Seq<RawResultV>)
    ensures
        searxng_page(Ok(raw)) matches Ok(rs) && rs.len() == raw.len() && forall|i: int|
            0 <= i < rs.len() ==> {
                &&& (#[trigger] rs[i]).url == raw[i].url
                &&& rs[i].engine == raw[i].engine
                &&& raw[i].title.len() <= TITLE_MAX_CHARS ==> rs[i].title == raw[i].title
                &&& raw[i].title.len() > TITLE_MAX_CHARS ==> rs[i].title == raw[i].title.take(
                    TITLE_MAX_CHARS as int,
                ) + seq!['.', '.', '.']
                &&& raw[i].content.len() <= SNIPPET_MAX_CHARS ==> rs[i].snippet == raw[i].content
                &&& raw[i].content.len() > SNIPPET_MAX_CHARS ==> rs[i].snippet == raw[i].content.take(
                    SNIPPET_MAX_CHARS as int,
                ) + seq!['.', '.', '.']
            },
{
}

} // verus!
