# Argos Engine

A token-efficient, keyless web metasearch server for MCP clients: DuckDuckGo,
Bing and Brave (and an optional local SearXNG instance) are queried in waves,
their answers are merged fairly, deduplicated by URL, filtered by domain scope
and lexical relevance, and every provider's fate is reported back.

The decisions of the engine are written in Verus and proved against their
specifications; the network, process and protocol plumbing around them is
ordinary Rust.

## Layout

- `src/` — the verified library.
  - `text.rs`: character-level string helpers with exact specifications
    (trimming, case folding, splitting, decimal rendering, `u64` parsing,
    token-budget truncation).
  - `config.rs`: defaults and environment overrides.
  - `limits.rs`: payload budgets and request clamping.
  - `quality.rs`: domain allowlists, `site:` scoping, host matching and the
    relevance gate.
  - `providers/`: request parameters, status classification and page parsing
    for each provider; `fanout.rs` merges provider replies.
  - `metasearch.rs`: provider manifests, runtime health with cooldowns and
    exponential backoff, wave selection, and the router's state machine.
  - `searxng.rs`: the direct SearXNG client's base URL, failure texts and
    compact results.
  - `stack.rs`: decisions of the on-demand WSL2 stack lifecycle.
  - `tools.rs`: validation of a search request.
  - `error.rs`, `types.rs`: typed errors with their messages and hints, and
    the result contracts.
  - `web.rs`: the calls into `url`, `base64`, `percent-encoding` and
    `scraper`, with the names their results are specified by.
- `app/` — the MCP server binary: HTTP transport, process spawning, the
  router loop, the idle watchdog and serializable copies of the result types.
- `tests/` — tests of the library on concrete values.

Properties that span several calls (cooldowns end when they say, backoff is
bounded, a fanout reports every provider, merged results are deduplicated and
within the limit, parsed results respect the payload budgets, ...) are stated
as `law_*` proof functions next to the code they are about.
