//! Direct client of the local SearXNG JSON API: its base URL, the texts of
//! its failures and the compact results it hands back. The requests
//! themselves are sent from `app/`.

use vstd::prelude::*;
use crate::limits::{SNIPPET_MAX_CHARS, TITLE_MAX_CHARS};
use crate::providers::searxng::{json_api_hint, RawResult, RawResultV};
use crate::text::{truncate_string, truncated};
use crate::types::{copy_opt_string, opt_view};

verus! {

/// Where the local instance listens unless configured otherwise.
pub const DEFAULT_BASE_URL: &'static str = "http://127.0.0.1:8080";

/// The base URL of the instance: the configured value (`ARGOS_SEARXNG_URL`)
/// as it stands, else [`DEFAULT_BASE_URL`].
pub fn base_url(configured: Option<String>) -> (r: String)
    ensures
        r@ == match configured {
            Some(v) => v@,
            None => "http://127.0.0.1:8080"@,
        },
{
    match configured {
        Some(v) => v,
        None => String::from_str(DEFAULT_BASE_URL),
    }
}

/// Why a direct search failed.
#[derive(Clone, Debug)]
pub enum SearchFailure {
    /// The HTTP client could not be built.
    Client { cause: String },
    /// The request got no HTTP answer.
    Unreachable { base: String, cause: String },
    /// The instance answered with a non-success status, rendered as text
    /// (code and reason phrase).
    Http { status: String },
    /// The answer was not the expected JSON payload.
    Payload { cause: String },
}

/// The message of a failure.
pub open spec fn failure_message(f: SearchFailure) -> Seq<char> {
    match f {
        SearchFailure::Client { cause } => "failed to build HTTP client: "@ + cause@,
        SearchFailure::Unreachable { base, cause } => "SearXNG unreachable at "@ + base@ + ": "@
            + cause@ + ". Start it with: docker compose -f searxng/docker-compose.yml up -d"@,
        SearchFailure::Http { status } => "SearXNG returned HTTP "@ + status@,
        SearchFailure::Payload { cause } => "SearXNG sent an unexpected payload: "@ + cause@,
    }
}

impl SearchFailure {
    /// The message the tool error carries.
    pub fn message(&self) -> (r: String)
        ensures
            r@ == failure_message(*self),
    {
        let (head, tail): (&str, &str) = match self {
            SearchFailure::Client { .. } => ("failed to build HTTP client: ", ""),
            SearchFailure::Unreachable { .. } => (
                "SearXNG unreachable at ",
                ". Start it with: docker compose -f searxng/docker-compose.yml up -d",
            ),
            SearchFailure::Http { .. } => ("SearXNG returned HTTP ", ""),
            SearchFailure::Payload { .. } => ("SearXNG sent an unexpected payload: ", ""),
        };
        let mut r = String::from_str(head);
        match self {
            SearchFailure::Unreachable { base, cause } => {
                r.append(base.as_str());
                r.append(": ");
                r.append(cause.as_str());
            },
            SearchFailure::Client { cause } => r.append(cause.as_str()),
            SearchFailure::Http { status } => r.append(status.as_str()),
            SearchFailure::Payload { cause } => r.append(cause.as_str()),
        }
        r.append(tail);
        proof {
            reveal_strlit("");
        }
        r
    }

    /// The operator hint in the error data: only an error status has one.
    pub fn hint(&self) -> (r: Option<String>)
        ensures
            match r {
                Some(h) => (*self is Http) && h@ == json_api_hint(),
                None => !(*self is Http),
            },
    {
        match self {
            SearchFailure::Http { .. } => Some(String::from_str(
                "JSON API disabled? Ensure searxng/settings.yml sets search.formats: [html, json] and restart the container.",
            )),
            _ => None,
        }
    }
}

/// A compact result of a direct search (no source host).
#[derive(Clone, Debug)]
pub struct PlainResult {
    pub url: String,
    pub title: String,
    pub snippet: String,
    pub engine: Option<String>,
}

/// What one raw result becomes: title and snippet cut to their budgets.
pub open spec fn plain_result_of(r: RawResultV, p: PlainResult) -> bool {
    &&& p.url@ == r.url
    &&& p.title@ == truncated(r.title, TITLE_MAX_CHARS as nat)
    &&& p.snippet@ == truncated(r.content, SNIPPET_MAX_CHARS as nat)
    &&& opt_view(p.engine) == r.engine
}

/// The first `limit` raw results, each made compact.
pub fn plain_results(raw: &Vec<RawResult>, limit: usize) -> (r: Vec<PlainResult>)
    ensures
        r.len() == if raw.len() < limit {
            raw.len()
        } else {
            limit
        },
        forall|i: int| 0 <= i < r.len() ==> plain_result_of(raw@[i]@, #[trigger] r@[i]),
{
    let n = if raw.len() < limit {
        raw.len()
    } else {
        limit
    };
    let mut out: Vec<PlainResult> = Vec::new();
    let mut i: usize = 0;
    while i < n
        invariant
            i <= n <= raw.len(),
            out.len() == i,
            forall|k: int| 0 <= k < i ==> plain_result_of(raw@[k]@, #[trigger] out@[k]),
        decreases n - i,
    {
        let x = &raw[i];
        out.push(
            PlainResult {
                url: x.url.clone(),
                title: truncate_string(x.title.as_str(), TITLE_MAX_CHARS),
                snippet: truncate_string(x.content.as_str(), SNIPPET_MAX_CHARS),
                engine: copy_opt_string(&x.engine),
            },
        );
        i = i + 1;
    }
    out
}

} // verus!
