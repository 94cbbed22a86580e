//! Brave Search html provider (keyless, independent index).

use vstd::prelude::*;
use crate::config::Config;
use crate::error::{ArgosError, ArgosErrorV};
use crate::limits::{SNIPPET_MAX_CHARS, TITLE_MAX_CHARS};
use crate::providers::{
    compact_source, compact_source_of, cut_from, lemma_cut_texts, limited, page_view, params_view,
    selector_error, text_or_empty, trimmed_text, well_formed_result,
};
use crate::text::{
    chars_of, decimal, decimal_string, starts_with, starts_with_chars, string_of, trim,
    truncate_string, truncated,
};
use crate::types::{SearchResult, SearchResultV, opt_view, results_view};
use crate::web::{ScrapedBlock, ScrapedBlockV, blocks_view, scrape_blocks, scraped};

verus! {

/// Engine name reported on every result.
pub const ENGINE: &'static str = "brave";

/// Search endpoint.
pub const ENDPOINT: &'static str = "https://search.brave.com/search";

/// Host named in transport errors.
pub const HOST: &'static str = "search.brave.com";

/// Statuses Brave answers when it throttles this IP.
pub const RATE_LIMIT_STATUSES: [u16; 2] = [403, 429];

/// Brave html provider: an independent crawler index (unlike DDG/Bing),
/// which gives the fanout true index diversity on top of separate rate budgets.
pub struct BraveProvider {
    /// The configuration the provider was created with.
    pub config: Config,
}

impl BraveProvider {
    /// Create the provider for the given configuration.
    pub fn new(config: Config) -> (r: Self)
        ensures
            r.config == config,
    {
        Self { config }
    }
}

/// The query parameters of a Brave request: `q`, `source=web`, and the
/// zero-based page `offset` beyond the first page.
pub open spec fn brave_params(query: Seq<char>, page: nat) -> Seq<(Seq<char>, Seq<char>)> {
    let base = seq![("q"@, query), ("source"@, "web"@)];
    if page > 1 {
        base.push(("offset"@, decimal((page - 1) as nat)))
    } else {
        base
    }
}

/// The query parameters of a Brave request.
pub fn search_params(query: &str, page: usize) -> (r: Vec<(String, String)>)
    ensures
        params_view(r@) == brave_params(query@, page as nat),
{
    let mut params: Vec<(String, String)> = Vec::new();
    params.push((String::from_str("q"), String::from_str(query)));
    params.push((String::from_str("source"), String::from_str("web")));
    if page > 1 {
        params.push((String::from_str("offset"), decimal_string((page - 1) as u64)));
    }
    assert(params_view(params@) =~= brave_params(query@, page as nat));
    params
}

/// The organic result one `div[data-type="web"]` block yields, if any: only
/// HTTP links count, the title comes from `div.title` (else the link text),
/// blocks without a title are skipped, and title and snippet are cut to
/// their budgets.
#[verifier::opaque]
pub open spec fn brave_item(b: ScrapedBlockV) -> Option<SearchResultV> {
    match b.href {
        None => None,
        Some(href) => {
            let raw_title = match b.title_text {
                Some(t) => t,
                None => text_or_empty(b.link_text),
            };
            let title = trim(raw_title);
            if !starts_with(href, "http"@) || title.len() == 0 {
                None
            } else {
                Some(
                    SearchResultV {
                        url: href,
                        source: compact_source_of(href),
                        title: truncated(title, TITLE_MAX_CHARS as nat),
                        snippet: truncated(trim(text_or_empty(b.snippet_text)), SNIPPET_MAX_CHARS as nat),
                        engine: Some("brave"@),
                    },
                )
            }
        },
    }
}

/// The organic results of the blocks, in the order the blocks come.
pub open spec fn brave_items(blocks: Seq<ScrapedBlockV>) -> Seq<SearchResultV>
    decreases blocks.len(),
{
    if blocks.len() == 0 {
        Seq::<SearchResultV>::empty()
    } else {
        let r = brave_items(blocks.drop_last());
        match brave_item(blocks.last()) {
            Some(x) => r.push(x),
            None => r,
        }
    }
}

/// What a Brave results page parses to. Only organic web blocks count: ads
/// carry other `data-type` values.
pub open spec fn brave_page(html: Seq<char>) -> Result<Seq<SearchResultV>, ArgosErrorV> {
    match scraped(
        html,
        "div[data-type=\"web\"]"@,
        "a[href]"@,
        "div.title"@,
        ".generic-snippet .content"@,
    ) {
        None => Err(ArgosErrorV::Decode(selector_error())),
        Some(blocks) => Ok(brave_items(blocks)),
    }
}

fn item_for(b: &ScrapedBlock) -> (r: Option<SearchResult>)
    ensures
        match r {
            Some(x) => brave_item(b@) == Some(x@),
            None => brave_item(b@) is None,
        },
{
    reveal(brave_item);
    let href = match &b.href {
        Some(h) => h,
        None => return None,
    };
    let hc = chars_of(href.as_str());
    let title = match &b.title_text {
        Some(_) => trimmed_text(&b.title_text),
        None => trimmed_text(&b.link_text),
    };
    if !starts_with_chars(&hc, &chars_of("http")) || title.len() == 0 {
        return None;
    }
    let snippet = trimmed_text(&b.snippet_text);
    let t = string_of(title.as_slice());
    let s = string_of(snippet.as_slice());
    Some(
        SearchResult {
            source: compact_source(href.as_str()),
            url: href.clone(),
            title: truncate_string(t.as_str(), TITLE_MAX_CHARS),
            snippet: truncate_string(s.as_str(), SNIPPET_MAX_CHARS),
            engine: Some(String::from_str("brave")),
        },
    )
}

/// Parse a Brave results page (pure: fixture-testable, no I/O). The page
/// always parses; a page without web blocks yields no results.
pub fn parse_results(html: &str) -> (r: Result<Vec<SearchResult>, ArgosError>)
    ensures
        page_view(r) == brave_page(html@),
        r is Ok,
{
    let blocks = match scrape_blocks(
        html,
        "div[data-type=\"web\"]",
        "a[href]",
        "div.title",
        ".generic-snippet .content",
    ) {
        Some(b) => b,
        None => return Err(ArgosError::Decode(String::from_str("result selectors do not parse"))),
    };
    let ghost bv = blocks_view(blocks@);
    let mut results: Vec<SearchResult> = Vec::new();
    let mut i: usize = 0;
    while i < blocks.len()
        invariant
            i <= blocks.len(),
            bv == blocks_view(blocks@),
            results_view(results@) == brave_items(bv.take(i as int)),
        decreases blocks.len() - i,
    {
        proof {
            assert(bv.take(i + 1).drop_last() =~= bv.take(i as int));
            assert(bv.take(i + 1).last() == blocks@[i as int]@);
        }
        let ghost old_r = results@;
        match item_for(&blocks[i]) {
            Some(x) => {
                results.push(x);
                assert(results_view(results@) =~= results_view(old_r).push(x@));
            },
            None => {},
        }
        i = i + 1;
    }
    assert(bv.take(blocks.len() as int) =~= bv);
    Ok(results)
}

/// Parse a page and keep at most `limit` results.
pub fn page_results(html: &str, limit: usize) -> (r: Result<Vec<SearchResult>, ArgosError>)
    ensures
        page_view(r) == match brave_page(html@) {
            Ok(v) => Ok(limited(v, limit as nat)),
            Err(e) => Err(e),
        },
        r is Ok,
{
    match parse_results(html) {
        Ok(mut results) => {
            results.truncate(limit);
            assert(results_view(results@) =~= limited(
                match brave_page(html@) {
                    Ok(v) => v,
                    Err(_) => Seq::<SearchResultV>::empty(),
                },
                limit as nat,
            ));
            Ok(results)
        },
        Err(e) => Err(e),
    }
}

/// Every result a Brave page yields links over HTTP(S), has a non-empty
/// title, keeps title and snippet within their budgets, and names Brave as
/// its engine.
pub proof fn law_brave_results_well_formed(html: Seq<char>)
    ensures
        brave_page(html) matches Ok(rs) ==> forall|i: int|
            0 <= i < rs.len() ==> well_formed_result(#[trigger] rs[i], "brave"@) && starts_with(
                rs[i].url,
                "http"@,
            ),
{
    match scraped(
        html,
        "div[data-type=\"web\"]"@,
        "a[href]"@,
        "div.title"@,
        ".generic-snippet .content"@,
    ) {
        Some(blocks) => lemma_brave_items(blocks),
        None => {},
    }
}

proof fn lemma_brave_items(blocks: Seq<ScrapedBlockV>)
    ensures
        forall|i: int|
            0 <= i < brave_items(blocks).len() ==> well_formed_result(
                #[trigger] brave_items(blocks)[i],
                "brave"@,
            ) && starts_with(brave_items(blocks)[i].url, "http"@),
    decreases blocks.len(),
{
    if blocks.len() > 0 {
        lemma_brave_items(blocks.drop_last());
        reveal(brave_item);
        let b = blocks.last();
        let raw_title = match b.title_text {
            Some(t) => t,
            None => text_or_empty(b.link_text),
        };
        if brave_item(b) is Some {
            lemma_cut_texts(trim(raw_title), trim(text_or_empty(b.snippet_text)));
        }
    }
}


/// `x` is what the web block `b` yields: its HTTP(S) link as URL, the
/// `div.title` text (else the link text) as title, and the snippet content,
/// each trimmed and cut to its budget.
pub open spec fn brave_result_of_block(x: SearchResultV, b: ScrapedBlockV) -> bool {
    let raw_title = match b.title_text {
        Some(t) => t,
        None => text_or_empty(b.link_text),
    };
    &&& b.href == Some(x.url)
    &&& starts_with(x.url, "http"@)
    &&& trim(raw_title).len() > 0
    &&& cut_from(x.title, trim(raw_title), TITLE_MAX_CHARS as nat)
    &&& cut_from(x.snippet, trim(text_or_empty(b.snippet_text)), SNIPPET_MAX_CHARS as nat)
    &&& x.source == compact_source_of(x.url)
    &&& x.engine == Some("brave"@)
}

/// `x` is what one of the blocks yields.
pub open spec fn from_some_block(x: SearchResultV, blocks: Seq<ScrapedBlockV>) -> bool {
    exists|j: int| 0 <= j < blocks.len() && #[trigger] brave_result_of_block(x, blocks[j])
}

proof fn lemma_brave_items_from(blocks: Seq<ScrapedBlockV>)
    ensures
        forall|i: int|
            0 <= i < brave_items(blocks).len() ==> #[trigger] from_some_block(brave_items(blocks)[i], blocks),
    decreases blocks.len(),
{
    if blocks.len() > 0 {
        let p = blocks.drop_last();
        lemma_brave_items_from(p);
        reveal(brave_item);
        let r = brave_items(blocks);
        let rp = brave_items(p);
        assert forall|i: int| 0 <= i < r.len() implies #[trigger] from_some_block(r[i], blocks) by {
            if i < rp.len() {
                assert(r[i] == rp[i]);
                assert(from_some_block(rp[i], p));
                let j = choose|j: int| 0 <= j < p.len() && #[trigger] brave_result_of_block(rp[i], p[j]);
                assert(blocks[j] == p[j]);
                assert(brave_result_of_block(r[i], blocks[j]));
            } else {
                assert(blocks[blocks.len() - 1] == blocks.last());
                assert(brave_result_of_block(r[i], blocks[blocks.len() - 1]));
            }
        }
    }
}

/// Every result of a Brave page comes from one of its web blocks: the
/// block's HTTP(S) link, with the block title (else the link text) as title
/// and the snippet content as snippet, both trimmed and cut to budget.
pub proof fn law_brave_results_from_blocks(html: Seq<char>)
    ensures
        scraped(html, "div[data-type=\"web\"]"@, "a[href]"@, "div.title"@, ".generic-snippet .content"@) matches Some(blocks) ==> forall|i: int|
            0 <= i < brave_items(blocks).len() ==> #[trigger] from_some_block(brave_items(blocks)[i], blocks),
{
    if let Some(blocks) = scraped(html, "div[data-type=\"web\"]"@, "a[href]"@, "div.title"@, ".generic-snippet .content"@) {
        lemma_brave_items_from(blocks);
    }
}

} // verus!
