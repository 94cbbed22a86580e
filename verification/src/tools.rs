//! The decisions of the MCP tools, before and around the network.

use vstd::prelude::*;
use crate::error::{ArgosError, ArgosErrorV};
use crate::limits::{clamp_limit, clamp_page, clamped_limit};
use crate::quality::{domains_outcome, normalize_domains, opt_strings_view, scoped, scoped_query};
use crate::text::{chars_of, string_of, trim, trim_chars};
use crate::types::strings_view;

verus! {

/// A validated search request, ready for the router.
#[derive(Clone, Debug)]
pub struct SearchRequest {
    /// The query sent to providers, with `site:` hints for the domains.
    pub provider_query: String,
    /// The trimmed query the relevance gate checks results against.
    pub relevance_query: String,
    /// Results wanted, clamped into `[1, 50]`.
    pub limit: usize,
    /// Page wanted, at least 1.
    pub page: usize,
    /// The normalized domain allowlist.
    pub domains: Vec<String>,
}

pub open spec fn empty_query_message() -> Seq<char> {
    "query must not be empty"@
}

/// What the search tool makes of its arguments before any provider is asked.
pub open spec fn request_verdict(
    query: Seq<char>,
    limit: Option<usize>,
    page: Option<usize>,
    domains: Option<Seq<Seq<char>>>,
) -> Result<(Seq<char>, Seq<char>, Seq<Seq<char>>), ArgosErrorV> {
    let q = trim(query);
    if q.len() == 0 {
        Err(ArgosErrorV::InvalidQuery(empty_query_message()))
    } else {
        match domains_outcome(domains) {
            Err(e) => Err(e),
            Ok(d) => Ok((scoped(q, d), q, d)),
        }
    }
}

/// Validate the search tool's arguments: the query must not be blank, the
/// domains must be a valid allowlist, and limit and page are clamped.
pub fn prepare_search(
    query: &str,
    limit: Option<usize>,
    page: Option<usize>,
    domains: Option<&[String]>,
) -> (r: Result<SearchRequest, ArgosError>)
    ensures
        match r {
            Ok(req) => {
                &&& request_verdict(query@, limit, page, opt_strings_view(domains)) == Ok::<
                    (Seq<char>, Seq<char>, Seq<Seq<char>>),
                    ArgosErrorV,
                >((req.provider_query@, req.relevance_query@, strings_view(req.domains@)))
                &&& req.limit == clamped_limit(limit)
                &&& req.page == match page {
                    Some(p) => if p < 1 {
                        1
                    } else {
                        p
                    },
                    None => 1,
                }
            },
            Err(e) => request_verdict(query@, limit, page, opt_strings_view(domains)) == Err::<
                (Seq<char>, Seq<char>, Seq<Seq<char>>),
                ArgosErrorV,
            >(e@),
        },
{
    let cs = chars_of(query);
    let t = trim_chars(&cs);
    if t.len() == 0 {
        return Err(ArgosError::InvalidQuery(String::from_str("query must not be empty")));
    }
    let relevance_query = string_of(t.as_slice());
    let domains = match normalize_domains(domains) {
        Ok(d) => d,
        Err(e) => return Err(e),
    };
    let provider_query = scoped_query(relevance_query.as_str(), domains.as_slice());
    Ok(
        SearchRequest {
            provider_query,
            relevance_query,
            limit: clamp_limit(limit),
            page: clamp_page(page),
            domains,
        },
    )
}

} // verus!
