//! Bing html endpoint provider (keyless, no VM).

use vstd::prelude::*;
use crate::config::Config;
use crate::error::{ArgosError, ArgosErrorV};
use crate::limits::{SNIPPET_MAX_CHARS, TITLE_MAX_CHARS, truncate_source};
use crate::providers::{
    compact_source, compact_source_of, cut_from, lemma_cut_texts, limited, page_view, params_view,
    selector_error, text_or_empty, trimmed_text, well_formed_result,
};
use crate::text::{
    chars_of, chars_view, contains, contains_chars, decimal, decimal_string, extend_chars,
    lemma_utf8_len_at_least, split_chars, split_on, starts_with, starts_with_chars, string_of,
    trim, trim_chars, truncate_string, truncated, utf8_len, utf8_len_mod4, utf8_width,
    utf8_width_exec,
};
use crate::types::{SearchResult, SearchResultV, results_view};
use crate::web::{
    ScrapedBlock, ScrapedBlockV, base64_url_decoded, blocks_view, decode_base64_url, scrape_blocks,
    scraped, utf8_decoded, utf8_string,
};

verus! {

/// Engine name reported on every result.
pub const ENGINE: &'static str = "bing";

/// Search endpoint.
pub const ENDPOINT: &'static str = "https://www.bing.com/search";

/// Host named in transport errors.
pub const HOST: &'static str = "www.bing.com";

/// Cookies that pin the market and UI language to en-US.
pub const EDGE_COOKIES: &'static str = "_EDGE_CD=m=en-us&u=en-us; _EDGE_S=mkt=en-us&ui=en-us";

/// Statuses Bing answers under automated load: the classic anti-bot answers.
pub const RATE_LIMIT_STATUSES: [u16; 2] = [403, 429];

/// Bing html provider: `li.b_algo` blocks with `u=a1<base64url>` wrapped links.
pub struct BingProvider {
    /// The configuration the provider was created with.
    pub config: Config,
}

impl BingProvider {
    /// Create the provider for the given configuration.
    pub fn new(config: Config) -> (r: Self)
        ensures
            r.config == config,
    {
        Self { config }
    }
}

// ---------------------------------------------------------------------------
// Request
// ---------------------------------------------------------------------------

/// The query parameters of a Bing request: `q`, `pq`, `cc=en`, and the
/// `first` offset (ten results per page) beyond the first page.
pub open spec fn bing_params(query: Seq<char>, page: nat) -> Seq<(Seq<char>, Seq<char>)> {
    let base = seq![("q"@, query), ("pq"@, query), ("cc"@, "en"@)];
    if page > 1 {
        base.push(("first"@, decimal(((page - 1) * 10) as nat)))
    } else {
        base
    }
}

/// The query parameters of a Bing request.
pub fn search_params(query: &str, page: usize) -> (r: Vec<(String, String)>)
    requires
        page <= 1 || (page - 1) * 10 <= usize::MAX,
    ensures
        params_view(r@) == bing_params(query@, page as nat),
{
    let mut params: Vec<(String, String)> = Vec::new();
    params.push((String::from_str("q"), String::from_str(query)));
    params.push((String::from_str("pq"), String::from_str(query)));
    params.push((String::from_str("cc"), String::from_str("en")));
    if page > 1 {
        let offset: usize = (page - 1) * 10;
        params.push((String::from_str("first"), decimal_string(offset as u64)));
    }
    assert(params_view(params@) =~= bing_params(query@, page as nat));
    params
}

// ---------------------------------------------------------------------------
// Wrapped links
// ---------------------------------------------------------------------------

/// The `=` padding that brings a base64 text of `n` bytes to a multiple of four.
pub open spec fn padding(n: nat) -> Seq<char> {
    Seq::new(((4 - n % 4) % 4) as nat, |i: int| '=')
}

/// The value of the first `u=` parameter among `pieces`.
pub open spec fn first_u_value(pieces: Seq<Seq<char>>) -> Option<Seq<char>>
    decreases pieces.len(),
{
    if pieces.len() == 0 {
        None
    } else if starts_with(pieces[0], "u="@) {
        Some(pieces[0].skip(2))
    } else {
        first_u_value(pieces.drop_first())
    }
}

/// The `u=` value of a Bing `ck/a?` wrapped link, when `href` is one.
pub open spec fn ck_value(href: Seq<char>) -> Option<Seq<char>> {
    if !contains(href, "bing.com/ck/a?"@) {
        None
    } else {
        let parts = split_on(href, '?');
        if parts.len() < 2 {
            None
        } else {
            first_u_value(split_on(parts[1], '&'))
        }
    }
}

/// What follows the first two bytes of `enc` (the `a1` marker), when the
/// second byte ends a character.
pub open spec fn after_two_bytes(enc: Seq<char>) -> Option<Seq<char>> {
    if enc.len() >= 1 && utf8_width(enc[0]) == 2 {
        Some(enc.skip(1))
    } else if enc.len() >= 2 && utf8_width(enc[0]) == 1 && utf8_width(enc[1]) == 1 {
        Some(enc.skip(2))
    } else {
        None
    }
}

/// Unwrapping `href` would cut a character in two: its `u=` value is longer
/// than two bytes and its second byte does not end a character.
pub open spec fn ck_splits_char(href: Seq<char>) -> bool {
    match ck_value(href) {
        Some(enc) => utf8_len(enc) > 2 && after_two_bytes(enc) is None,
        None => false,
    }
}

/// The target of a Bing `ck/a?u=a1<base64url>` wrapped URL, when `href` is
/// one: the `u=` value without its first two bytes, padded with `=` to a
/// multiple of four bytes, base64url-decoded and read as UTF-8.
pub open spec fn ck_target(href: Seq<char>) -> Option<Seq<char>> {
    match ck_value(href) {
        None => None,
        Some(enc) => if utf8_len(enc) <= 2 {
            None
        } else {
            match after_two_bytes(enc) {
                None => None,
                Some(b) => match base64_url_decoded(b + padding(utf8_len(b))) {
                    None => None,
                    Some(bytes) => utf8_decoded(bytes),
                },
            }
        },
    }
}

fn first_u_value_exec(pieces: &Vec<Vec<char>>) -> (r: Option<Vec<char>>)
    ensures
        match r {
            Some(v) => first_u_value(chars_view(pieces@)) == Some(v@),
            None => first_u_value(chars_view(pieces@)) is None,
        },
{
    let ghost pv = chars_view(pieces@);
    let u = chars_of("u=");
    proof {
        reveal_strlit("u=");
    }
    assert(u@.len() == 2);
    let mut i: usize = 0;
    assert(pv.skip(0) =~= pv);
    while i < pieces.len()
        invariant
            i <= pieces.len(),
            pv == chars_view(pieces@),
            u@ == "u="@,
            u@.len() == 2,
            first_u_value(pv) == first_u_value(pv.skip(i as int)),
        decreases pieces.len() - i,
    {
        let ghost rest = pv.skip(i as int);
        assert(rest[0] == pieces@[i as int]@);
        if starts_with_chars(&pieces[i], &u) {
            let p = &pieces[i];
            return Some(crate::text::slice_chars(p, 2, p.len()));
        }
        assert(rest.drop_first() =~= pv.skip(i + 1));
        i = i + 1;
    }
    None
}

fn ck_value_exec(cs: &Vec<char>) -> (r: Option<Vec<char>>)
    ensures
        match r {
            Some(v) => ck_value(cs@) == Some(v@),
            None => ck_value(cs@) is None,
        },
{
    if !contains_chars(cs, &chars_of("bing.com/ck/a?")) {
        return None;
    }
    let parts = split_chars(cs, '?');
    if parts.len() < 2 {
        return None;
    }
    let amp = split_chars(&parts[1], '&');
    first_u_value_exec(&amp)
}

/// Whether `enc` is longer than two bytes.
fn longer_than_two_bytes(enc: &Vec<char>) -> (r: bool)
    ensures
        r == (utf8_len(enc@) > 2),
{
    proof {
        lemma_utf8_len_at_least(enc@);
        let e = enc@;
        if e.len() == 1 {
            assert(utf8_len(e.drop_last()) == 0);
            assert(utf8_len(e) == utf8_width(e[0]));
        } else if e.len() == 2 {
            let d = e.drop_last();
            assert(d.len() == 1 && d[0] == e[0]);
            assert(utf8_len(d.drop_last()) == 0);
            assert(utf8_len(d) == utf8_width(e[0]));
            assert(utf8_len(e) == utf8_width(e[0]) + utf8_width(e[1]));
        }
    }
    if enc.len() == 0 {
        false
    } else if enc.len() == 1 {
        utf8_width_exec(enc[0]) > 2
    } else if enc.len() == 2 {
        utf8_width_exec(enc[0]) + utf8_width_exec(enc[1]) > 2
    } else {
        true
    }
}

fn after_two_bytes_exec(enc: &Vec<char>) -> (r: Option<Vec<char>>)
    ensures
        match r {
            Some(v) => after_two_bytes(enc@) == Some(v@),
            None => after_two_bytes(enc@) is None,
        },
{
    if enc.len() >= 1 && utf8_width_exec(enc[0]) == 2 {
        let v = crate::text::slice_chars(enc, 1, enc.len());
        assert(v@ =~= enc@.skip(1));
        Some(v)
    } else if enc.len() >= 2 && utf8_width_exec(enc[0]) == 1 && utf8_width_exec(enc[1]) == 1 {
        let v = crate::text::slice_chars(enc, 2, enc.len());
        assert(v@ =~= enc@.skip(2));
        Some(v)
    } else {
        None
    }
}

/// Whether unwrapping `href` would cut a character in two.
pub fn ck_would_split(href: &str) -> (r: bool)
    ensures
        r == ck_splits_char(href@),
{
    let cs = chars_of(href);
    match ck_value_exec(&cs) {
        Some(enc) => longer_than_two_bytes(&enc) && after_two_bytes_exec(&enc).is_none(),
        None => false,
    }
}

/// Decode Bing's `ck/a?u=a1<base64url>` wrapped URL to the target it wraps.
/// A link whose `u=` value has a multi-byte character across its second
/// byte cannot be cut there and is left out.
pub fn unwrap_ck(href: &str) -> (r: Option<String>)
    requires
        !ck_splits_char(href@),
    ensures
        match r {
            Some(s) => ck_target(href@) == Some(s@),
            None => ck_target(href@) is None,
        },
{
    let cs = chars_of(href);
    let enc = match ck_value_exec(&cs) {
        Some(e) => e,
        None => return None,
    };
    if !longer_than_two_bytes(&enc) {
        return None;
    }
    let mut b = match after_two_bytes_exec(&enc) {
        Some(b) => b,
        None => return None,
    };
    let ghost b0 = b@;
    let m = utf8_len_mod4(&b);
    let pad: usize = (4 - m) % 4;
    let mut k: usize = 0;
    while k < pad
        invariant
            k <= pad,
            pad == (4 - utf8_len(b0) % 4) % 4,
            b@ == b0 + Seq::new(k as nat, |i: int| '='),
        decreases pad - k,
    {
        b.push('=');
        k = k + 1;
        assert(b@ =~= b0 + Seq::new(k as nat, |i: int| '='));
    }
    assert(b@ =~= b0 + padding(utf8_len(b0)));
    let padded = string_of(b.as_slice());
    match decode_base64_url(padded.as_str()) {
        Some(bytes) => utf8_string(bytes),
        None => None,
    }
}

// ---------------------------------------------------------------------------
// Page parsing
// ---------------------------------------------------------------------------

/// The organic result one `li.b_algo` block yields, if any: ads and
/// non-HTTP links are dropped, wrapped links are unwrapped, blocks without a
/// title are skipped, and title and snippet are cut to their budgets.
#[verifier::opaque]
pub open spec fn bing_item(b: ScrapedBlockV) -> Option<SearchResultV> {
    match b.href {
        None => None,
        Some(href) => if contains(href, "bing.com/aclick?"@) {
            None
        } else {
            let url = match ck_target(href) {
                Some(u) => u,
                None => href,
            };
            let title = trim(text_or_empty(b.link_text));
            if !starts_with(url, "http"@) || title.len() == 0 {
                None
            } else {
                Some(
                    SearchResultV {
                        url,
                        source: compact_source_of(url),
                        title: truncated(title, TITLE_MAX_CHARS as nat),
                        snippet: truncated(trim(text_or_empty(b.snippet_text)), SNIPPET_MAX_CHARS as nat),
                        engine: Some("bing"@),
                    },
                )
            }
        },
    }
}

/// The organic results of the blocks, in the order the blocks come.
pub open spec fn bing_items(blocks: Seq<ScrapedBlockV>) -> Seq<SearchResultV>
    decreases blocks.len(),
{
    if blocks.len() == 0 {
        Seq::<SearchResultV>::empty()
    } else {
        let r = bing_items(blocks.drop_last());
        match bing_item(blocks.last()) {
            Some(x) => r.push(x),
            None => r,
        }
    }
}

/// What a Bing results page parses to.
pub open spec fn bing_page(html: Seq<char>) -> Result<Seq<SearchResultV>, ArgosErrorV> {
    match scraped(html, "li.b_algo"@, "h2 a"@, "h2 a"@, "p"@) {
        None => Err(ArgosErrorV::Decode(selector_error())),
        Some(blocks) => Ok(bing_items(blocks)),
    }
}

/// An organic block whose wrapped link cannot be cut after its `a1` marker
/// without cutting a character in two.
pub open spec fn block_splits_char(b: ScrapedBlockV) -> bool {
    b.href matches Some(h) && !contains(h, "bing.com/aclick?"@) && ck_splits_char(h)
}

/// Every block of the page can be read: no organic link would be cut across
/// a character.
pub open spec fn bing_page_readable(html: Seq<char>) -> bool {
    match scraped(html, "li.b_algo"@, "h2 a"@, "h2 a"@, "p"@) {
        Some(blocks) => forall|i: int|
            0 <= i < blocks.len() ==> !block_splits_char(#[trigger] blocks[i]),
        None => true,
    }
}

fn block_readable(b: &ScrapedBlock) -> (r: bool)
    ensures
        r == !block_splits_char(b@),
{
    match &b.href {
        None => true,
        Some(h) => {
            let hc = chars_of(h.as_str());
            if contains_chars(&hc, &chars_of("bing.com/aclick?")) {
                true
            } else {
                !ck_would_split(h.as_str())
            }
        },
    }
}

fn item_for(b: &ScrapedBlock) -> (r: Option<SearchResult>)
    requires
        !block_splits_char(b@),
    ensures
        match r {
            Some(x) => bing_item(b@) == Some(x@),
            None => bing_item(b@) is None,
        },
{
    reveal(bing_item);
    let href = match &b.href {
        Some(h) => h,
        None => return None,
    };
    let hc = chars_of(href.as_str());
    if contains_chars(&hc, &chars_of("bing.com/aclick?")) {
        return None;
    }
    let url = match unwrap_ck(href.as_str()) {
        Some(u) => u,
        None => href.clone(),
    };
    let uc = chars_of(url.as_str());
    let title = trimmed_text(&b.link_text);
    if !starts_with_chars(&uc, &chars_of("http")) || title.len() == 0 {
        return None;
    }
    let snippet = trimmed_text(&b.snippet_text);
    let t = string_of(title.as_slice());
    let s = string_of(snippet.as_slice());
    Some(
        SearchResult {
            source: compact_source(url.as_str()),
            url,
            title: truncate_string(t.as_str(), TITLE_MAX_CHARS),
            snippet: truncate_string(s.as_str(), SNIPPET_MAX_CHARS),
            engine: Some(String::from_str("bing")),
        },
    )
}

/// Parse a Bing results page (pure: fixture-testable, no I/O). The page
/// always parses; a page without result blocks yields no results.
pub fn parse_results(html: &str) -> (r: Result<Vec<SearchResult>, ArgosError>)
    requires
        bing_page_readable(html@),
    ensures
        page_view(r) == bing_page(html@),
        r is Ok,
{
    let blocks = match scrape_blocks(html, "li.b_algo", "h2 a", "h2 a", "p") {
        Some(b) => b,
        None => return Err(ArgosError::Decode(String::from_str("result selectors do not parse"))),
    };
    let ghost bv = blocks_view(blocks@);
    let mut results: Vec<SearchResult> = Vec::new();
    let mut i: usize = 0;
    while i < blocks.len()
        invariant
            i <= blocks.len(),
            bv == blocks_view(blocks@),
            forall|k: int| 0 <= k < bv.len() ==> !block_splits_char(#[trigger] bv[k]),
            results_view(results@) == bing_items(bv.take(i as int)),
        decreases blocks.len() - i,
    {
        proof {
            assert(bv.take(i + 1).drop_last() =~= bv.take(i as int));
            assert(bv.take(i + 1).last() == blocks@[i as int]@);
            assert(!block_splits_char(bv[i as int]));
        }
        let ghost old_r = results@;
        match item_for(&blocks[i]) {
            Some(x) => {
                results.push(x);
                assert(results_view(results@) =~= results_view(old_r).push(x@));
            },
            None => {},
        }
        i = i + 1;
    }
    assert(bv.take(blocks.len() as int) =~= bv);
    Ok(results)
}

/// Parse a page and keep at most `limit` results.
pub fn page_results(html: &str, limit: usize) -> (r: Result<Vec<SearchResult>, ArgosError>)
    requires
        bing_page_readable(html@),
    ensures
        page_view(r) == match bing_page(html@) {
            Ok(v) => Ok(limited(v, limit as nat)),
            Err(e) => Err(e),
        },
        r is Ok,
{
    match parse_results(html) {
        Ok(mut results) => {
            results.truncate(limit);
            assert(results_view(results@) =~= limited(
                match bing_page(html@) {
                    Ok(v) => v,
                    Err(_) => Seq::<SearchResultV>::empty(),
                },
                limit as nat,
            ));
            Ok(results)
        },
        Err(e) => Err(e),
    }
}

/// Parse a page and keep at most `limit` results, when every block of it
/// can be read; `None` for a page with a wrapped link that cannot be cut
/// after its `a1` marker.
pub fn try_page_results(html: &str, limit: usize) -> (r: Option<Result<Vec<SearchResult>, ArgosError>>)
    ensures
        r is None <==> !bing_page_readable(html@),
        r matches Some(x) ==> x is Ok && page_view(x) == match bing_page(html@) {
            Ok(v) => Ok(limited(v, limit as nat)),
            Err(e) => Err(e),
        },
{
    match scrape_blocks(html, "li.b_algo", "h2 a", "h2 a", "p") {
        Some(blocks) => {
            let ghost bv = blocks_view(blocks@);
            let mut i: usize = 0;
            while i < blocks.len()
                invariant
                    i <= blocks.len(),
                    bv == blocks_view(blocks@),
                    scraped(html@, "li.b_algo"@, "h2 a"@, "h2 a"@, "p"@) == Some(bv),
                    forall|k: int| 0 <= k < i ==> !block_splits_char(#[trigger] bv[k]),
                decreases blocks.len() - i,
            {
                if !block_readable(&blocks[i]) {
                    proof {
                        assert(bv[i as int] == blocks@[i as int]@);
                        assert(block_splits_char(bv[i as int]));
                        assert(scraped(html@, "li.b_algo"@, "h2 a"@, "h2 a"@, "p"@) == Some(bv));
                    }
                    return None;
                }
                i = i + 1;
            }
        },
        None => {},
    }
    Some(page_results(html, limit))
}

/// Every result a Bing page yields links over HTTP(S), has a non-empty title,
/// keeps title and snippet within their budgets, and names Bing as its engine.
pub proof fn law_bing_results_well_formed(html: Seq<char>)
    ensures
        bing_page(html) matches Ok(rs) ==> forall|i: int|
            0 <= i < rs.len() ==> well_formed_result(#[trigger] rs[i], "bing"@) && starts_with(
                rs[i].url,
                "http"@,
            ),
{
    match scraped(html, "li.b_algo"@, "h2 a"@, "h2 a"@, "p"@) {
        Some(blocks) => lemma_bing_items(blocks),
        None => {},
    }
}

proof fn lemma_bing_items(blocks: Seq<ScrapedBlockV>)
    ensures
        forall|i: int|
            0 <= i < bing_items(blocks).len() ==> well_formed_result(
                #[trigger] bing_items(blocks)[i],
                "bing"@,
            ) && starts_with(bing_items(blocks)[i].url, "http"@),
    decreases blocks.len(),
{
    if blocks.len() > 0 {
        lemma_bing_items(blocks.drop_last());
        reveal(bing_item);
        let b = blocks.last();
        match bing_item(b) {
            Some(x) => {
                lemma_cut_texts(trim(text_or_empty(b.link_text)), trim(text_or_empty(b.snippet_text)));
            },
            None => {},
        }
    }
}


/// `x` is what the block `b` yields: an organic HTTP(S) link, unwrapped when
/// Bing wrapped it, with the link text as title and the paragraph as
/// snippet, each trimmed and cut to its budget.
pub open spec fn bing_result_of_block(x: SearchResultV, b: ScrapedBlockV) -> bool {
    &&& b.href matches Some(h) && !contains(h, "bing.com/aclick?"@) && x.url == match ck_target(h) {
        Some(u) => u,
        None => h,
    }
    &&& starts_with(x.url, "http"@)
    &&& trim(text_or_empty(b.link_text)).len() > 0
    &&& cut_from(x.title, trim(text_or_empty(b.link_text)), TITLE_MAX_CHARS as nat)
    &&& cut_from(x.snippet, trim(text_or_empty(b.snippet_text)), SNIPPET_MAX_CHARS as nat)
    &&& x.source == compact_source_of(x.url)
    &&& x.engine == Some("bing"@)
}

/// `x` is what one of the blocks yields.
pub open spec fn from_some_block(x: SearchResultV, blocks: Seq<ScrapedBlockV>) -> bool {
    exists|j: int| 0 <= j < blocks.len() && #[trigger] bing_result_of_block(x, blocks[j])
}

proof fn lemma_bing_items_from(blocks: Seq<ScrapedBlockV>)
    ensures
        forall|i: int|
            0 <= i < bing_items(blocks).len() ==> #[trigger] from_some_block(bing_items(blocks)[i], blocks),
    decreases blocks.len(),
{
    if blocks.len() > 0 {
        let p = blocks.drop_last();
        lemma_bing_items_from(p);
        reveal(bing_item);
        let r = bing_items(blocks);
        let rp = bing_items(p);
        assert forall|i: int| 0 <= i < r.len() implies #[trigger] from_some_block(r[i], blocks) by {
            if i < rp.len() {
                assert(r[i] == rp[i]);
                assert(from_some_block(rp[i], p));
                let j = choose|j: int| 0 <= j < p.len() && #[trigger] bing_result_of_block(rp[i], p[j]);
                assert(blocks[j] == p[j]);
                assert(bing_result_of_block(r[i], blocks[j]));
            } else {
                assert(blocks[blocks.len() - 1] == blocks.last());
                assert(bing_result_of_block(r[i], blocks[blocks.len() - 1]));
            }
        }
    }
}

/// Every result of a Bing page comes from one of its `li.b_algo` blocks:
/// an organic link (unwrapped when wrapped) whose link text is the title
/// and whose paragraph is the snippet, both trimmed and cut to budget.
pub proof fn law_bing_results_from_blocks(html: Seq<char>)
    ensures
        scraped(html, "li.b_algo"@, "h2 a"@, "h2 a"@, "p"@) matches Some(blocks) ==> forall|i: int|
            0 <= i < bing_items(blocks).len() ==> #[trigger] from_some_block(bing_items(blocks)[i], blocks),
{
    if let Some(blocks) = scraped(html, "li.b_algo"@, "h2 a"@, "h2 a"@, "p"@) {
        lemma_bing_items_from(blocks);
    }
}

} // verus!
