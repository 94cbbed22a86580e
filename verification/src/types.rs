//! Public result contracts shared by tools and providers, with their views.

use vstd::prelude::*;

verus! {

/// Normalized, compact search result (token-efficient payload).
#[derive(Clone, Debug)]
pub struct SearchResult {
    /// Result URL
    pub url: String,
    /// Compact hostname the result points at (no scheme, no path, no `www.`)
    pub source: String,
    /// Page title (truncated)
    pub title: String,
    /// Short snippet, already truncated to keep payloads small
    pub snippet: String,
    /// Engine that produced the result (duckduckgo, bing, brave, ...)
    pub engine: Option<String>,
}

/// The mathematical model of a [`SearchResult`].
pub struct SearchResultV {
    pub url: Seq<char>,
    pub source: Seq<char>,
    pub title: Seq<char>,
    pub snippet: Seq<char>,
    pub engine: Option<Seq<char>>,
}

pub open spec fn opt_view(o: Option<String>) -> Option<Seq<char>> {
    match o {
        Some(s) => Some(s@),
        None => None,
    }
}

impl View for SearchResult {
    type V = SearchResultV;

    open spec fn view(&self) -> SearchResultV {
        SearchResultV {
            url: self.url@,
            source: self.source@,
            title: self.title@,
            snippet: self.snippet@,
            engine: opt_view(self.engine),
        }
    }
}

/// The models of a sequence of results.
pub open spec fn results_view(v: Seq<SearchResult>) -> Seq<SearchResultV> {
    v.map_values(|r: SearchResult| r@)
}

pub fn copy_opt_string(o: &Option<String>) -> (r: Option<String>)
    ensures
        r == *o,
{
    match o {
        Some(s) => Some(s.clone()),
        None => None,
    }
}

impl SearchResult {
    /// A field-by-field copy.
    pub fn duplicate(&self) -> (r: SearchResult)
        ensures
            r == *self,
    {
        SearchResult {
            url: self.url.clone(),
            source: self.source.clone(),
            title: self.title.clone(),
            snippet: self.snippet.clone(),
            engine: copy_opt_string(&self.engine),
        }
    }
}

/// What happened with one provider during a single search call.
#[derive(Clone, Debug)]
pub enum ProviderStatus {
    /// Provider returned this many usable results.
    Success { count: usize },
    /// Provider answered with HTTP 200 but yielded no organic results.
    Empty,
    /// Provider returned results, but none passed the domain/relevance gates.
    Filtered { returned: usize },
    /// Provider returned an anti-bot rate-limit response.
    RateLimited { status: u16 },
    /// Provider could not be reached (transport error, timeout, ...).
    Unreachable { message: String },
}

/// The mathematical model of a [`ProviderStatus`].
pub enum ProviderStatusV {
    Success { count: nat },
    Empty,
    Filtered { returned: nat },
    RateLimited { status: u16 },
    Unreachable { message: Seq<char> },
}

impl View for ProviderStatus {
    type V = ProviderStatusV;

    open spec fn view(&self) -> ProviderStatusV {
        match self {
            ProviderStatus::Success { count } => ProviderStatusV::Success { count: *count as nat },
            ProviderStatus::Empty => ProviderStatusV::Empty,
            ProviderStatus::Filtered { returned } => ProviderStatusV::Filtered {
                returned: *returned as nat,
            },
            ProviderStatus::RateLimited { status } => ProviderStatusV::RateLimited {
                status: *status,
            },
            ProviderStatus::Unreachable { message } => ProviderStatusV::Unreachable {
                message: message@,
            },
        }
    }
}

/// `(provider name, status)` row in [`SearchOutcome::providers`].
#[derive(Clone, Debug)]
pub struct ProviderEntry {
    /// Provider name (duckduckgo, bing, brave, ...).
    pub name: String,
    /// What happened with this provider during the call.
    pub status: ProviderStatus,
}

pub struct ProviderEntryV {
    pub name: Seq<char>,
    pub status: ProviderStatusV,
}

impl View for ProviderEntry {
    type V = ProviderEntryV;

    open spec fn view(&self) -> ProviderEntryV {
        ProviderEntryV { name: self.name@, status: self.status@ }
    }
}

pub open spec fn entries_view(v: Seq<ProviderEntry>) -> Seq<ProviderEntryV> {
    v.map_values(|e: ProviderEntry| e@)
}

pub open spec fn strings_view(v: Seq<String>) -> Seq<Seq<char>> {
    v.map_values(|s: String| s@)
}

/// The merged answer of one search call.
#[derive(Clone, Debug)]
pub struct SearchOutcome {
    /// Merged organic results, deduplicated by URL.
    pub results: Vec<SearchResult>,
    /// One entry per provider, in fanout order.
    pub providers: Vec<ProviderEntry>,
    /// Human-readable warnings, one per degraded provider.
    pub warnings: Vec<String>,
}

pub struct SearchOutcomeV {
    pub results: Seq<SearchResultV>,
    pub providers: Seq<ProviderEntryV>,
    pub warnings: Seq<Seq<char>>,
}

impl View for SearchOutcome {
    type V = SearchOutcomeV;

    open spec fn view(&self) -> SearchOutcomeV {
        SearchOutcomeV {
            results: results_view(self.results@),
            providers: entries_view(self.providers@),
            warnings: strings_view(self.warnings@),
        }
    }
}

/// Engine health and configuration status.
#[derive(Clone, Debug)]
pub struct Status {
    /// Engine name
    pub name: String,
    /// Engine version
    pub version: String,
    /// Configured SearXNG base URL (optional adapter)
    pub searxng_url: String,
    /// Whether the optional SearXNG instance answered a health probe
    pub searxng_reachable: bool,
    /// Configured search providers and their reachability
    pub providers: Vec<ProviderHealth>,
}

/// Reachability report for one configured provider.
#[derive(Clone, Debug)]
pub struct ProviderHealth {
    /// Provider name (duckduckgo, bing, searxng, ...)
    pub name: String,
    /// Whether the provider answered the transport probe
    pub reachable: bool,
}

} // verus!
