//! Calls into the outside crates that understand URLs, encodings and HTML.
//!
//! Each function here makes one outside call and converts its result to plain
//! values. What the call returns is named by a spec function without a body:
//! the result depends on the arguments alone, and the library's contracts
//! speak of it through that name.

use vstd::prelude::*;
use crate::types::opt_view;
use base64::Engine;
use scraper::{ElementRef, Html, Selector};

verus! {

/// The host of `url` as `url::Url::parse(url)` followed by `host_str()`
/// yields it; `None` when the URL does not parse or has no host.
pub uninterp spec fn url_host(url: Seq<char>) -> Option<Seq<char>>;

/// The bytes that the URL-safe, padded base64 engine decodes `s` to; `None`
/// when `s` is not valid base64 of that alphabet.
pub uninterp spec fn base64_url_decoded(s: Seq<char>) -> Option<Seq<u8>>;

/// The string whose UTF-8 encoding is `bytes`; `None` when the bytes are not
/// valid UTF-8 (`String::from_utf8`).
pub uninterp spec fn utf8_decoded(bytes: Seq<u8>) -> Option<Seq<char>>;

/// `percent_encoding::percent_decode_str(s).decode_utf8()`: `s` with `%XX`
/// escapes decoded; `None` when the decoded bytes are not valid UTF-8.
pub uninterp spec fn percent_decoded(s: Seq<char>) -> Option<Seq<char>>;

/// The text that `scraper` finds in `html`: for each element matching
/// `block`, in the order `Html::select` walks the parsed tree, the first
/// descendant matching `link` (its
/// `href` attribute and its text), and the text of the first descendants
/// matching `title` and `snippet`. `None` when a selector does not parse.
pub uninterp spec fn scraped(
    html: Seq<char>,
    block: Seq<char>,
    link: Seq<char>,
    title: Seq<char>,
    snippet: Seq<char>,
) -> Option<Seq<ScrapedBlockV>>;

/// `url::Url::parse(url)` and `host_str()`: the host of a URL.
#[verifier::external_body]
pub(crate) fn parse_url_host(url: &str) -> (r: Option<String>)
    ensures
        opt_view(r) == url_host(url@),
{
    url::Url::parse(url).ok().and_then(|parsed| parsed.host_str().map(|h| h.to_string()))
}

/// `base64::engine::general_purpose::URL_SAFE.decode(s)`.
#[verifier::external_body]
pub(crate) fn decode_base64_url(s: &str) -> (r: Option<Vec<u8>>)
    ensures
        match r {
            Some(v) => base64_url_decoded(s@) == Some(v@),
            None => base64_url_decoded(s@) is None,
        },
{
    base64::engine::general_purpose::URL_SAFE.decode(s).ok()
}

/// `String::from_utf8(bytes)`.
#[verifier::external_body]
pub(crate) fn utf8_string(bytes: Vec<u8>) -> (r: Option<String>)
    ensures
        opt_view(r) == utf8_decoded(bytes@),
{
    String::from_utf8(bytes).ok()
}

/// `percent_encoding::percent_decode_str(s).decode_utf8()`.
#[verifier::external_body]
pub(crate) fn percent_decode(s: &str) -> (r: Option<String>)
    ensures
        opt_view(r) == percent_decoded(s@),
{
    percent_encoding::percent_decode_str(s).decode_utf8().ok().map(|d| d.to_string())
}

/// What the scraper found in one result block of a page.
#[derive(Clone, Debug)]
pub struct ScrapedBlock {
    /// The `href` of the first element matching the link selector, if any.
    pub href: Option<String>,
    /// The text of the first element matching the link selector, if any.
    pub link_text: Option<String>,
    /// The text of the first element matching the title selector, if any.
    pub title_text: Option<String>,
    /// The text of the first element matching the snippet selector, if any.
    pub snippet_text: Option<String>,
}

pub struct ScrapedBlockV {
    pub href: Option<Seq<char>>,
    pub link_text: Option<Seq<char>>,
    pub title_text: Option<Seq<char>>,
    pub snippet_text: Option<Seq<char>>,
}

impl View for ScrapedBlock {
    type V = ScrapedBlockV;

    open spec fn view(&self) -> ScrapedBlockV {
        ScrapedBlockV {
            href: opt_view(self.href),
            link_text: opt_view(self.link_text),
            title_text: opt_view(self.title_text),
            snippet_text: opt_view(self.snippet_text),
        }
    }
}

pub open spec fn blocks_view(v: Seq<ScrapedBlock>) -> Seq<ScrapedBlockV> {
    v.map_values(|b: ScrapedBlock| b@)
}

/// The CSS selectors the providers read their pages with. Each is a plain
/// type, class, attribute or descendant selector, which `Selector::parse`
/// accepts.
pub open spec fn provider_selector(s: Seq<char>) -> bool {
    s == "li.b_algo"@ || s == "h2 a"@ || s == "p"@ || s == "div[data-type=\"web\"]"@ || s
        == "a[href]"@ || s == "div.title"@ || s == ".generic-snippet .content"@ || s
        == "div.result"@ || s == "a.result__a"@ || s == "a.result__snippet"@
}

/// `scraper::Html::parse_document`, `Selector::parse` and `select`: the
/// result blocks of a page, with the link, title and snippet text of each.
/// Parsing a document never fails; the call fails only when a selector does
/// not parse, which the providers' selectors always do.
#[verifier::external_body]
pub(crate) fn scrape_blocks(html: &str, block: &str, link: &str, title: &str, snippet: &str) -> (r:
    Option<Vec<ScrapedBlock>>)
    ensures
        match r {
            Some(v) => scraped(html@, block@, link@, title@, snippet@) == Some(blocks_view(v@)),
            None => scraped(html@, block@, link@, title@, snippet@) is None,
        },
        provider_selector(block@) && provider_selector(link@) && provider_selector(title@)
            && provider_selector(snippet@) ==> r is Some,
{
    let p = |s: &str| Selector::parse(s).ok();
    let (b, l, t, s) = (p(block)?, p(link)?, p(title)?, p(snippet)?);
    let text = |e: ElementRef| String::from_iter(e.text());
    Some(Html::parse_document(html).select(&b).map(|i| {
        let a = i.select(&l).next();
        ScrapedBlock {
            href: a.and_then(|a| a.attr("href")).map(String::from),
            link_text: a.map(text),
            title_text: i.select(&t).next().map(text),
            snippet_text: i.select(&s).next().map(text),
        }
    }).collect())
}


} // verus!
