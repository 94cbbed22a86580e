//! DuckDuckGo html endpoint provider (keyless, no VM).

use vstd::prelude::*;
use crate::config::Config;
use crate::error::{ArgosError, ArgosErrorV};
use crate::limits::{SNIPPET_MAX_CHARS, TITLE_MAX_CHARS};
use crate::providers::{
    before_char, before_char_exec, compact_source, compact_source_of, cut_from, lemma_cut_texts,
    limited, page_view, params_view, selector_error, text_or_empty, trimmed_text,
    well_formed_result,
};
use crate::text::{
    chars_of, contains, contains_chars, decimal, decimal_string, extend_chars, find_chars,
    first_at, lemma_first_at, occurs_at, slice_chars, starts_with, starts_with_chars, string_of,
    trim, truncate_string, truncated,
};
use crate::types::{SearchResult, SearchResultV, opt_view, results_view};
use crate::web::{
    ScrapedBlock, ScrapedBlockV, blocks_view, percent_decode, percent_decoded, scrape_blocks,
    scraped,
};

verus! {

/// Engine name reported on every result.
pub const ENGINE: &'static str = "duckduckgo";

/// Search endpoint (POST form).
pub const ENDPOINT: &'static str = "https://html.duckduckgo.com/html/";

/// Host named in transport errors.
pub const HOST: &'static str = "html.duckduckgo.com";

/// 202 is DDG's classic "slow down", 403 means blocked: both observed live.
pub const RATE_LIMIT_STATUSES: [u16; 3] = [202, 403, 429];

/// DuckDuckGo html provider: POST form endpoint, `div.result` blocks.
pub struct DuckDuckGoProvider {
    /// The configuration the provider was created with.
    pub config: Config,
}

impl DuckDuckGoProvider {
    /// Create the provider for the given configuration.
    pub fn new(config: Config) -> (r: Self)
        ensures
            r.config == config,
    {
        Self { config }
    }
}

/// The form fields of a DDG request: `q`, empty `b`, `l=us-en`, and the
/// `s` offset beyond the first page (10 results, then 15 per page).
pub open spec fn ddg_params(query: Seq<char>, page: nat) -> Seq<(Seq<char>, Seq<char>)> {
    let base = seq![("q"@, query), ("b"@, Seq::<char>::empty()), ("l"@, "us-en"@)];
    if page > 1 {
        base.push(("s"@, decimal((10 + (page - 2) * 15) as nat)))
    } else {
        base
    }
}

/// The form fields of a DDG request.
pub fn search_params(query: &str, page: usize) -> (r: Vec<(String, String)>)
    requires
        page <= 1 || 10 + (page - 2) * 15 <= usize::MAX,
    ensures
        params_view(r@) == ddg_params(query@, page as nat),
{
    let mut params: Vec<(String, String)> = Vec::new();
    params.push((String::from_str("q"), String::from_str(query)));
    params.push((String::from_str("b"), String::new()));
    params.push((String::from_str("l"), String::from_str("us-en")));
    if page > 1 {
        let offset: usize = 10 + (page - 2) * 15;
        params.push((String::from_str("s"), decimal_string(offset as u64)));
    }
    assert(params_view(params@) =~= ddg_params(query@, page as nat));
    params
}

/// The target of a `//duckduckgo.com/l/?uddg=<percent-encoded>` redirect,
/// when the decoded value is an HTTP URL.
pub open spec fn uddg_target(href: Seq<char>) -> Option<Seq<char>> {
    if !contains(href, "uddg="@) {
        None
    } else {
        let value = href.skip(first_at(href, "uddg="@) + 5);
        match percent_decoded(before_char(value, '&')) {
            Some(d) => if starts_with(d, "http"@) {
                Some(d)
            } else {
                None
            },
            None => None,
        }
    }
}

/// Where a result link points: the redirect target, else the link with
/// `https:` added to a scheme-relative `//` form, else the link itself.
pub open spec fn ddg_target(href: Seq<char>) -> Seq<char> {
    match uddg_target(href) {
        Some(d) => d,
        None => if starts_with(href, "//"@) {
            "https://"@ + href.skip(2)
        } else {
            href
        },
    }
}

/// Unwrap `//duckduckgo.com/l/?uddg=<percent-encoded>` redirects to the target URL.
pub fn unwrap_href(href: &str) -> (r: String)
    ensures
        r@ == ddg_target(href@),
{
    let cs = chars_of(href);
    let key = chars_of("uddg=");
    proof {
        reveal_strlit("uddg=");
    }
    match find_chars(&cs, &key) {
        Some(pos) => {
            proof {
                lemma_first_at(cs@, key@, pos as int);
            }
            let value = slice_chars(&cs, pos + 5, cs.len());
            assert(value@ =~= cs@.skip(pos + 5));
            let piece = before_char_exec(&value, '&');
            let ps = string_of(piece.as_slice());
            match percent_decode(ps.as_str()) {
                Some(d) => {
                    let dc = chars_of(d.as_str());
                    if starts_with_chars(&dc, &chars_of("http")) {
                        return d;
                    }
                },
                None => {},
            }
        },
        None => {},
    }
    let slashes = chars_of("//");
    proof {
        reveal_strlit("//");
    }
    if starts_with_chars(&cs, &slashes) {
        let rest = slice_chars(&cs, 2, cs.len());
        let mut out = chars_of("https://");
        extend_chars(&mut out, &rest);
        assert(rest@ =~= cs@.skip(2));
        return string_of(out.as_slice());
    }
    String::from_str(href)
}

/// The organic result one `div.result` block yields, if any: ads and
/// internal links are dropped, redirects are unwrapped, blocks without a
/// title are skipped, and title and snippet are cut to their budgets.
#[verifier::opaque]
pub open spec fn ddg_item(b: ScrapedBlockV) -> Option<SearchResultV> {
    match b.href {
        None => None,
        Some(href) => {
            let title = trim(text_or_empty(b.link_text));
            if contains(href, "/y.js"@) || contains(href, "duckduckgo.com/?q="@) || title.len()
                == 0 {
                None
            } else {
                let url = ddg_target(href);
                Some(
                    SearchResultV {
                        url,
                        source: compact_source_of(url),
                        title: truncated(title, TITLE_MAX_CHARS as nat),
                        snippet: truncated(trim(text_or_empty(b.snippet_text)), SNIPPET_MAX_CHARS as nat),
                        engine: Some("duckduckgo"@),
                    },
                )
            }
        },
    }
}

/// The organic results of the blocks, in the order the blocks come.
pub open spec fn ddg_items(blocks: Seq<ScrapedBlockV>) -> Seq<SearchResultV>
    decreases blocks.len(),
{
    if blocks.len() == 0 {
        Seq::<SearchResultV>::empty()
    } else {
        let r = ddg_items(blocks.drop_last());
        match ddg_item(blocks.last()) {
            Some(x) => r.push(x),
            None => r,
        }
    }
}

/// What a DDG html results page parses to.
pub open spec fn ddg_page(html: Seq<char>) -> Result<Seq<SearchResultV>, ArgosErrorV> {
    match scraped(html, "div.result"@, "a.result__a"@, "a.result__a"@, "a.result__snippet"@) {
        None => Err(ArgosErrorV::Decode(selector_error())),
        Some(blocks) => Ok(ddg_items(blocks)),
    }
}

fn item_for(b: &ScrapedBlock) -> (r: Option<SearchResult>)
    ensures
        match r {
            Some(x) => ddg_item(b@) == Some(x@),
            None => ddg_item(b@) is None,
        },
{
    reveal(ddg_item);
    let href = match &b.href {
        Some(h) => h,
        None => return None,
    };
    let hc = chars_of(href.as_str());
    let title = trimmed_text(&b.link_text);
    if contains_chars(&hc, &chars_of("/y.js")) || contains_chars(&hc, &chars_of("duckduckgo.com/?q="))
        || title.len() == 0 {
        return None;
    }
    let url = unwrap_href(href.as_str());
    let snippet = trimmed_text(&b.snippet_text);
    let t = string_of(title.as_slice());
    let s = string_of(snippet.as_slice());
    Some(
        SearchResult {
            source: compact_source(url.as_str()),
            url,
            title: truncate_string(t.as_str(), TITLE_MAX_CHARS),
            snippet: truncate_string(s.as_str(), SNIPPET_MAX_CHARS),
            engine: Some(String::from_str("duckduckgo")),
        },
    )
}

/// Parse a DDG html results page (pure: fixture-testable, no I/O). The page
/// always parses; a page without result blocks yields no results.
pub fn parse_results(html: &str) -> (r: Result<Vec<SearchResult>, ArgosError>)
    ensures
        page_view(r) == ddg_page(html@),
        r is Ok,
{
    let blocks = match scrape_blocks(
        html,
        "div.result",
        "a.result__a",
        "a.result__a",
        "a.result__snippet",
    ) {
        Some(b) => b,
        None => return Err(ArgosError::Decode(String::from_str("result selectors do not parse"))),
    };
    let ghost bv = blocks_view(blocks@);
    let mut results: Vec<SearchResult> = Vec::new();
    let mut i: usize = 0;
    while i < blocks.len()
        invariant
            i <= blocks.len(),
            bv == blocks_view(blocks@),
            results_view(results@) == ddg_items(bv.take(i as int)),
        decreases blocks.len() - i,
    {
        proof {
            assert(bv.take(i + 1).drop_last() =~= bv.take(i as int));
            assert(bv.take(i + 1).last() == blocks@[i as int]@);
        }
        let ghost old_r = results@;
        match item_for(&blocks[i]) {
            Some(x) => {
                results.push(x);
                assert(results_view(results@) =~= results_view(old_r).push(x@));
            },
            None => {},
        }
        i = i + 1;
    }
    assert(bv.take(blocks.len() as int) =~= bv);
    Ok(results)
}

/// Parse a page and keep at most `limit` results.
pub fn page_results(html: &str, limit: usize) -> (r: Result<Vec<SearchResult>, ArgosError>)
    ensures
        page_view(r) == match ddg_page(html@) {
            Ok(v) => Ok(limited(v, limit as nat)),
            Err(e) => Err(e),
        },
        r is Ok,
{
    match parse_results(html) {
        Ok(mut results) => {
            results.truncate(limit);
            assert(results_view(results@) =~= limited(
                match ddg_page(html@) {
                    Ok(v) => v,
                    Err(_) => Seq::<SearchResultV>::empty(),
                },
                limit as nat,
            ));
            Ok(results)
        },
        Err(e) => Err(e),
    }
}

/// Every result a DuckDuckGo page yields has a non-empty title, keeps title
/// and snippet within their budgets, and names DuckDuckGo as its engine.
pub proof fn law_ddg_results_well_formed(html: Seq<char>)
    ensures
        ddg_page(html) matches Ok(rs) ==> forall|i: int|
            0 <= i < rs.len() ==> well_formed_result(#[trigger] rs[i], "duckduckgo"@),
{
    match scraped(html, "div.result"@, "a.result__a"@, "a.result__a"@, "a.result__snippet"@) {
        Some(blocks) => lemma_ddg_items(blocks),
        None => {},
    }
}

proof fn lemma_ddg_items(blocks: Seq<ScrapedBlockV>)
    ensures
        forall|i: int|
            0 <= i < ddg_items(blocks).len() ==> well_formed_result(
                #[trigger] ddg_items(blocks)[i],
                "duckduckgo"@,
            ),
    decreases blocks.len(),
{
    if blocks.len() > 0 {
        lemma_ddg_items(blocks.drop_last());
        reveal(ddg_item);
        let b = blocks.last();
        let title = trim(text_or_empty(b.link_text));
        let snippet = trim(text_or_empty(b.snippet_text));
        match ddg_item(b) {
            Some(x) => {
                lemma_cut_texts(title, snippet);
                assert(x.title == truncated(title, TITLE_MAX_CHARS as nat));
                assert(x.snippet == truncated(snippet, SNIPPET_MAX_CHARS as nat));
                assert(well_formed_result(x, "duckduckgo"@));
            },
            None => {},
        }
        let r = ddg_items(blocks.drop_last());
        assert forall|i: int| 0 <= i < ddg_items(blocks).len() implies well_formed_result(
            #[trigger] ddg_items(blocks)[i],
            "duckduckgo"@,
        ) by {
            if i < r.len() {
                assert(ddg_items(blocks)[i] == r[i]);
            }
        }
    }
}


/// `x` is what the block `b` yields: a link that is neither an ad nor an
/// internal search link, unwrapped from DDG's redirect, with the link text
/// as title and the snippet link's text as snippet, each trimmed and cut to
/// its budget.
pub open spec fn ddg_result_of_block(x: SearchResultV, b: ScrapedBlockV) -> bool {
    &&& b.href matches Some(h) && !contains(h, "/y.js"@) && !contains(h, "duckduckgo.com/?q="@)
        && x.url == ddg_target(h)
    &&& trim(text_or_empty(b.link_text)).len() > 0
    &&& cut_from(x.title, trim(text_or_empty(b.link_text)), TITLE_MAX_CHARS as nat)
    &&& cut_from(x.snippet, trim(text_or_empty(b.snippet_text)), SNIPPET_MAX_CHARS as nat)
    &&& x.source == compact_source_of(x.url)
    &&& x.engine == Some("duckduckgo"@)
}

/// `x` is what one of the blocks yields.
pub open spec fn from_some_block(x: SearchResultV, blocks: Seq<ScrapedBlockV>) -> bool {
    exists|j: int| 0 <= j < blocks.len() && #[trigger] ddg_result_of_block(x, blocks[j])
}

proof fn lemma_ddg_items_from(blocks: Seq<ScrapedBlockV>)
    ensures
        forall|i: int|
            0 <= i < ddg_items(blocks).len() ==> #[trigger] from_some_block(ddg_items(blocks)[i], blocks),
    decreases blocks.len(),
{
    if blocks.len() > 0 {
        let p = blocks.drop_last();
        lemma_ddg_items_from(p);
        reveal(ddg_item);
        let r = ddg_items(blocks);
        let rp = ddg_items(p);
        assert forall|i: int| 0 <= i < r.len() implies #[trigger] from_some_block(r[i], blocks) by {
            if i < rp.len() {
                assert(r[i] == rp[i]);
                assert(from_some_block(rp[i], p));
                let j = choose|j: int| 0 <= j < p.len() && #[trigger] ddg_result_of_block(rp[i], p[j]);
                assert(blocks[j] == p[j]);
                assert(ddg_result_of_block(r[i], blocks[j]));
            } else {
                assert(blocks[blocks.len() - 1] == blocks.last());
                assert(ddg_result_of_block(r[i], blocks[blocks.len() - 1]));
            }
        }
    }
}

/// Every result of a DuckDuckGo page comes from one of its `div.result`
/// blocks: a link that is no ad, unwrapped from the redirect, with the link
/// text as title and the snippet text as snippet, both trimmed and cut to
/// budget.
pub proof fn law_ddg_results_from_blocks(html: Seq<char>)
    ensures
        scraped(html, "div.result"@, "a.result__a"@, "a.result__a"@, "a.result__snippet"@) matches Some(blocks) ==> forall|i: int|
            0 <= i < ddg_items(blocks).len() ==> #[trigger] from_some_block(ddg_items(blocks)[i], blocks),
{
    if let Some(blocks) = scraped(html, "div.result"@, "a.result__a"@, "a.result__a"@, "a.result__snippet"@) {
        lemma_ddg_items_from(blocks);
    }
}

} // verus!
