use base64::Engine;

use argos_engine::error::ArgosError;
use argos_engine::limits::{SNIPPET_MAX_CHARS, TITLE_MAX_CHARS};
use argos_engine::providers::searxng::{self, RawResult, SearxNgProvider};
use argos_engine::providers::{bing, brave, classify_status, compact_source, duckduckgo, transport_error};
use argos_engine::config::Config;

#[test]
fn unwraps_ck_wrapped_urls() {
    // "https://example.com" in base64url, prefixed the way Bing does (u=a1...).
    let target = "https://example.com";
    let b64 = base64::engine::general_purpose::URL_SAFE.encode(target);
    let href = format!("https://www.bing.com/ck/a?u=a1{b64}&ntb=1");
    assert_eq!(bing::unwrap_ck(&href).as_deref(), Some(target));
    assert_eq!(
        bing::unwrap_ck("https://example.org/plain"),
        None,
        "plain URLs are not wrapped"
    );
}

#[test]
fn unwraps_ck_urls_without_padding() {
    // Bing strips the `=` padding; the decoder puts it back.
    let target = "https://example.com/ab";
    let b64 = base64::engine::general_purpose::URL_SAFE_NO_PAD.encode(target);
    let href = format!("https://www.bing.com/ck/a?!&&p=x&u=a1{b64}&ntb=1");
    assert_eq!(bing::unwrap_ck(&href).as_deref(), Some(target));
    assert_eq!(bing::unwrap_ck("https://www.bing.com/ck/a?u=a1%%%"), None);
    assert_eq!(bing::unwrap_ck("https://www.bing.com/ck/a?x=1"), None);
}

#[test]
fn unwraps_redirect_hrefs() {
    assert_eq!(
        duckduckgo::unwrap_href(
            "//duckduckgo.com/l/?uddg=https%3A%2F%2Fexample.com%2Fx%3Fa%3D1&rut=abc"
        ),
        "https://example.com/x?a=1"
    );
    assert_eq!(
        duckduckgo::unwrap_href("https://direct.example/page"),
        "https://direct.example/page"
    );
    assert_eq!(duckduckgo::unwrap_href("//example.com/abs"), "https://example.com/abs");
}

#[test]
fn bing_rejects_garbage_html_gracefully() {
    let results = bing::parse_results("<html><body>challenge</body></html>").expect("parses");
    assert!(results.is_empty());
}

#[test]
fn brave_rejects_garbage_html_gracefully() {
    let results =
        brave::parse_results("<html><body>429 too many requests</body></html>").expect("parses");
    assert!(results.is_empty());
}

#[test]
fn duckduckgo_rejects_garbage_html_gracefully() {
    let results =
        duckduckgo::parse_results("<html><body>captcha page</body></html>").expect("parses");
    assert!(results.is_empty());
}

fn bing_block(href: &str, title: &str, snippet: &str) -> String {
    format!("<li class=\"b_algo\"><h2><a href=\"{href}\">{title}</a></h2><p>{snippet}</p></li>")
}

#[test]
fn bing_page_keeps_organic_results_and_drops_ads() {
    let wrapped = format!(
        "https://www.bing.com/ck/a?u=a1{}&ntb=1",
        base64::engine::general_purpose::URL_SAFE.encode("https://wrapped.test/page")
    );
    let long_snippet = "x".repeat(SNIPPET_MAX_CHARS + 50);
    let html = format!(
        "<html><body><ol>{}{}{}{}{}</ol></body></html>",
        bing_block("https://www.rust-lang.org/", " Rust ", "A language"),
        bing_block("https://www.bing.com/aclick?ld=1", "Ad", "buy"),
        bing_block(&wrapped, "Wrapped", &long_snippet),
        bing_block("/relative", "Relative", "skip"),
        bing_block("https://no-title.test/", "  ", "skip"),
    );
    let results = bing::parse_results(&html).expect("page parses");
    assert_eq!(results.len(), 2);
    assert_eq!(results[0].url, "https://www.rust-lang.org/");
    assert_eq!(results[0].title, "Rust");
    assert_eq!(results[0].source, "rust-lang.org");
    assert_eq!(results[0].engine.as_deref(), Some("bing"));
    assert_eq!(results[1].url, "https://wrapped.test/page");
    assert_eq!(results[1].snippet.chars().count(), SNIPPET_MAX_CHARS + 3);
    assert!(results[1].snippet.ends_with("..."));
    for r in &results {
        assert!(r.url.starts_with("http"));
        assert!(!r.url.contains("bing.com/aclick?"));
    }
    let one = bing::page_results(&html, 1).expect("page parses");
    assert_eq!(one.len(), 1);
}

#[test]
fn brave_page_reads_web_blocks_only() {
    let long_title = "T".repeat(TITLE_MAX_CHARS + 10);
    let html = format!(
        "<html><body>\
         <div data-type=\"web\"><a href=\"https://rust-lang.org/\"><div class=\"title\">Rust</div></a>\
           <div class=\"generic-snippet\"><div class=\"content\"> Fast and safe </div></div></div>\
         <div data-type=\"ad\"><a href=\"https://ads.test/\"><div class=\"title\">Ad</div></a></div>\
         <div data-type=\"web\"><a href=\"https://long.test/\">{long_title}</a></div>\
         <div data-type=\"web\"><a href=\"ftp://files.test/\"><div class=\"title\">Ftp</div></a></div>\
         </body></html>"
    );
    let results = brave::parse_results(&html).expect("page parses");
    assert_eq!(results.len(), 2);
    assert_eq!(results[0].url, "https://rust-lang.org/");
    assert_eq!(results[0].title, "Rust");
    assert_eq!(results[0].snippet, "Fast and safe");
    assert_eq!(results[0].engine.as_deref(), Some("brave"));
    assert_eq!(results[1].title.chars().count(), TITLE_MAX_CHARS + 3);
    assert_eq!(results[1].snippet, "");
}

#[test]
fn duckduckgo_page_unwraps_links_and_drops_ads() {
    let html = "<html><body>\
        <div class=\"result\"><a class=\"result__a\" href=\"//duckduckgo.com/l/?uddg=https%3A%2F%2Fexample.com%2Fa&rut=1\">Example A</a>\
          <a class=\"result__snippet\">Snippet A</a></div>\
        <div class=\"result\"><a class=\"result__a\" href=\"https://duckduckgo.com/y.js?ad=1\">Ad</a></div>\
        <div class=\"result\"><a class=\"result__a\" href=\"https://duckduckgo.com/?q=more\">More</a></div>\
        <div class=\"result\"><a class=\"result__a\" href=\"https://direct.test/b\">Direct B</a></div>\
        </body></html>";
    let results = duckduckgo::parse_results(html).expect("page parses");
    assert_eq!(results.len(), 2);
    assert_eq!(results[0].url, "https://example.com/a");
    assert_eq!(results[0].title, "Example A");
    assert_eq!(results[0].snippet, "Snippet A");
    assert_eq!(results[0].source, "example.com");
    assert_eq!(results[1].url, "https://direct.test/b");
    for r in &results {
        assert!(!r.url.contains("/y.js"));
        assert_eq!(r.engine.as_deref(), Some("duckduckgo"));
    }
}

fn raw(url: &str, title: &str, content: &str, engine: Option<&str>) -> RawResult {
    RawResult {
        url: url.into(),
        title: title.into(),
        content: content.into(),
        engine: engine.map(String::from),
    }
}

// The JSON decoding happens before the library sees the payload: a payload
// that is not JSON arrives as the parser's message, one without `results`
// as an empty list.
#[test]
fn rejects_invalid_payload() {
    assert!(searxng::parse_results(Err("expected value at line 1 column 1".into())).is_err());
    assert!(searxng::parse_results(Ok(vec![])).is_ok_and(|r| r.is_empty()));
}

#[test]
fn parses_fixture_contract() {
    let payload = vec![
        raw("https://www.rust-lang.org/", "Rust", "A language", Some("google")),
        raw("https://doc.rust-lang.org/book/", "The Book", "Learn Rust", Some("duckduckgo")),
    ];
    let results = searxng::parse_results(Ok(payload)).expect("payload parses");
    assert_eq!(results.len(), 2);
    assert_eq!(results[0].url, "https://www.rust-lang.org/");
    assert_eq!(results[0].engine.as_deref(), Some("google"));
    assert_eq!(results[1].engine.as_deref(), Some("duckduckgo"));
    assert_eq!(results[0].source, "rust-lang.org");
}

#[test]
fn truncates_long_snippets_to_budget() {
    let payload = vec![
        raw("https://a.test/", "A", "short", None),
        raw("https://b.test/", "B", &"lorem ipsum ".repeat(60), Some("duckduckgo")),
    ];
    let results = searxng::parse_results(Ok(payload)).expect("payload parses");
    let len = results[1].snippet.chars().count();
    assert!(len <= SNIPPET_MAX_CHARS + 3, "snippet must respect the token budget, got {len}");
    assert_eq!(len, SNIPPET_MAX_CHARS + 3);
    assert!(results[1].snippet.ends_with("..."));
    assert_eq!(results[0].snippet, "short");
}

#[test]
fn searxng_errors_and_requests() {
    match searxng::parse_results(Err("bad".into())) {
        Err(ArgosError::Decode(m)) => assert_eq!(m, "bad"),
        other => panic!("unexpected {other:?}"),
    }
    match searxng::classify(true, "http://127.0.0.1:8080", "refused".into()) {
        ArgosError::Down { base } => assert_eq!(base, "http://127.0.0.1:8080"),
        other => panic!("unexpected {other:?}"),
    }
    match searxng::classify(false, "http://h", "timeout".into()) {
        ArgosError::Unreachable { origin, cause } => {
            assert_eq!(origin, "SearXNG at http://h");
            assert_eq!(cause, "timeout");
        }
        other => panic!("unexpected {other:?}"),
    }
    match searxng::http_error(500) {
        ArgosError::Http { status, hint } => {
            assert_eq!(status, 500);
            assert!(hint.contains("search.formats"));
        }
        other => panic!("unexpected {other:?}"),
    }
    let provider = SearxNgProvider::new(Config::default());
    assert_eq!(provider.search_url(), "http://127.0.0.1:8080/search");
    let params = searxng::search_params("rust", 2);
    assert_eq!(
        params,
        vec![
            ("q".to_string(), "rust".to_string()),
            ("format".to_string(), "json".to_string()),
            ("page".to_string(), "2".to_string()),
            ("safesearch".to_string(), "0".to_string()),
        ]
    );
    assert!(searxng::should_boot(true, &Config::default()));
    assert!(!searxng::should_boot(false, &Config::default()));
    let limited = searxng::page_results(
        Ok(vec![raw("https://a.test", "a", "", None), raw("https://b.test", "b", "", None)]),
        1,
    )
    .expect("ok");
    assert_eq!(limited.len(), 1);
}

#[test]
fn request_parameters_page_offsets() {
    let b = bing::search_params("q", 3);
    assert_eq!(b.last().expect("first").clone(), ("first".to_string(), "20".to_string()));
    assert_eq!(bing::search_params("q", 1).len(), 3);
    let d = duckduckgo::search_params("q", 3);
    assert_eq!(d.last().expect("s").clone(), ("s".to_string(), "25".to_string()));
    assert_eq!(duckduckgo::search_params("q", 1).len(), 3);
    let v = brave::search_params("q", 4);
    assert_eq!(v.last().expect("offset").clone(), ("offset".to_string(), "3".to_string()));
}

#[test]
fn statuses_are_classified() {
    assert!(classify_status(200, &[202, 403, 429], "duckduckgo", "html.duckduckgo.com").is_ok());
    match classify_status(202, &[202, 403, 429], "duckduckgo", "html.duckduckgo.com") {
        Err(ArgosError::RateLimited { engine, status }) => {
            assert_eq!(engine, "duckduckgo");
            assert_eq!(status, 202);
        }
        other => panic!("unexpected {other:?}"),
    }
    match classify_status(503, &[403, 429], "bing", "www.bing.com") {
        Err(ArgosError::Unreachable { origin, cause }) => {
            assert_eq!(origin, "www.bing.com");
            assert_eq!(cause, "HTTP 503");
        }
        other => panic!("unexpected {other:?}"),
    }
    match transport_error("search.brave.com", "reset".into()) {
        ArgosError::Unreachable { origin, cause } => {
            assert_eq!(origin, "search.brave.com");
            assert_eq!(cause, "reset");
        }
        other => panic!("unexpected {other:?}"),
    }
}

#[test]
fn compact_source_strips_scheme_path_and_www() {
    assert_eq!(compact_source("https://www.example.com/a/b?c"), "example.com");
    assert_eq!(compact_source("http://sub.example.org"), "sub.example.org");
    // Not a URL the parser accepts: the manual split takes over.
    assert_eq!(compact_source("www.plain.test/path"), "plain.test");
    let long = format!("https://{}.test/", "a".repeat(40));
    assert_eq!(compact_source(&long).chars().count(), 35);
}

#[test]
fn unwraps_ck_urls_by_bytes() {
    // The two-byte marker is one two-byte character here.
    assert_eq!(
        bing::unwrap_ck("https://www.bing.com/ck/a?u=éaHR0cHM6Ly9leGFtcGxlLmNvbQ==").as_deref(),
        Some("https://example.com")
    );
    // Padding counts bytes: "aHR0cHM6Ly9leGFtcGxlLmNvbQ" is 26 bytes, two `=` added.
    assert_eq!(
        bing::unwrap_ck("https://www.bing.com/ck/a?u=a1aHR0cHM6Ly9leGFtcGxlLmNvbQ").as_deref(),
        Some("https://example.com")
    );
    assert!(!bing::ck_would_split("https://www.bing.com/ck/a?u=éaHR0"));
    assert!(bing::ck_would_split("https://www.bing.com/ck/a?u=a€HR0"));
    // Two bytes or fewer: nothing to cut.
    assert!(!bing::ck_would_split("https://www.bing.com/ck/a?u=é"));
}

#[test]
fn bing_page_with_a_link_cut_inside_a_character_cannot_be_read() {
    let html = bing_block("https://www.bing.com/ck/a?u=a€xyz&ntb=1", "Cut", "x");
    assert!(bing::try_page_results(&format!("<ol>{html}</ol>"), 10).is_none());
    let fine = bing_block("https://www.rust-lang.org/", "Rust", "x");
    let results = bing::try_page_results(&format!("<ol>{fine}</ol>"), 10)
        .expect("readable")
        .expect("parses");
    assert_eq!(results.len(), 1);
}

fn bing_synthetic_page() -> String {
    let mut blocks = String::new();
    for i in 0..10 {
        let snippet = format!("Result {i} {}", "lorem ipsum ".repeat(40));
        blocks.push_str(&bing_block(&format!("https://site{i}.test/page"), &format!("Title {i}"), &snippet));
    }
    blocks.push_str(&bing_block("https://www.bing.com/aclick?ld=ad", "Sponsored", "buy"));
    format!("<html><body><ol id=\"b_results\">{blocks}</ol></body></html>")
}

#[test]
fn bing_parses_real_fixture_without_ads() {
    let results = bing::parse_results(&bing_synthetic_page()).expect("page must parse");
    assert!(results.len() >= 8, "expected the page's organic results, got {}", results.len());
    for result in &results {
        assert!(result.url.starts_with("http"));
        assert!(!result.title.is_empty());
        assert!(!result.url.contains("bing.com/aclick?"), "ad leaked");
        assert_eq!(result.engine.as_deref(), Some("bing"));
    }
}

#[test]
fn bing_truncates_to_token_budget() {
    let results = bing::parse_results(&bing_synthetic_page()).expect("page must parse");
    for result in &results {
        assert!(result.snippet.chars().count() <= SNIPPET_MAX_CHARS + 3);
    }
}

fn brave_synthetic_page() -> String {
    let mut blocks = String::from(
        "<div data-type=\"web\"><a href=\"https://rust-lang.org/\"><div class=\"title\">Rust Programming Language</div></a>\
         <div class=\"generic-snippet\"><div class=\"content\">A language empowering everyone</div></div></div>",
    );
    for i in 1..10 {
        let title = "T".repeat(150 + 10 * i);
        let snippet = "word ".repeat(80);
        blocks.push_str(&format!(
            "<div data-type=\"web\"><a href=\"https://site{i}.test/\"><div class=\"title\">{title}</div></a>\
             <div class=\"generic-snippet\"><div class=\"content\">{snippet}</div></div></div>"
        ));
    }
    blocks.push_str("<div data-type=\"ad\"><a href=\"https://ads.test/\">Ad</a></div>");
    format!("<html><body>{blocks}</body></html>")
}

#[test]
fn parses_real_fixture() {
    let results = brave::parse_results(&brave_synthetic_page()).expect("page must parse");
    assert!(results.len() >= 8, "expected the page's organic results, got {}", results.len());
    for result in &results {
        assert!(result.url.starts_with("http"));
        assert!(!result.title.is_empty());
        assert_eq!(result.engine.as_deref(), Some("brave"));
    }
    assert_eq!(results[0].url, "https://rust-lang.org/");
}

#[test]
fn brave_truncates_to_token_budget() {
    let results = brave::parse_results(&brave_synthetic_page()).expect("page must parse");
    for result in &results {
        assert!(result.snippet.chars().count() <= SNIPPET_MAX_CHARS + 3);
        assert!(result.title.chars().count() <= TITLE_MAX_CHARS + 3);
    }
}

fn ddg_synthetic_page() -> String {
    let mut blocks = String::from(
        "<div class=\"result\"><a class=\"result__a\" href=\"https://duckduckgo.com/y.js?ad_domain=x\">Ad</a></div>",
    );
    for i in 0..10 {
        let title = format!("Result {i} {}", "t".repeat(250));
        let snippet = "snippet text ".repeat(40);
        blocks.push_str(&format!(
            "<div class=\"result\"><a class=\"result__a\" href=\"//duckduckgo.com/l/?uddg=https%3A%2F%2Fsite{i}.test%2F&rut=x\">{title}</a>\
             <a class=\"result__snippet\">{snippet}</a></div>"
        ));
    }
    format!("<html><body>{blocks}</body></html>")
}

#[test]
fn duckduckgo_parses_real_fixture_without_ads() {
    let results = duckduckgo::parse_results(&ddg_synthetic_page()).expect("page must parse");
    assert!(results.len() >= 8, "expected the page's organic results, got {}", results.len());
    for result in &results {
        assert!(!result.url.is_empty());
        assert!(!result.title.is_empty());
        assert!(!result.url.contains("/y.js"), "ad leaked into results");
        assert_eq!(result.engine.as_deref(), Some("duckduckgo"));
    }
}

#[test]
fn duckduckgo_truncates_to_token_budget() {
    let results = duckduckgo::parse_results(&ddg_synthetic_page()).expect("page must parse");
    for result in &results {
        assert!(result.snippet.chars().count() <= SNIPPET_MAX_CHARS + 3);
        assert!(result.title.chars().count() <= TITLE_MAX_CHARS + 3);
    }
}
