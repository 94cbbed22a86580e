//! Fanout over the providers: fair merge, URL dedup, full visibility.
//!
//! The fanout never silently hides a provider failure: every queried engine
//! is reported in [`SearchOutcome::providers`] with a typed
//! [`ProviderStatus`], and any degradation surfaces in
//! [`SearchOutcome::warnings`]. When every provider rate-limited, the search
//! is upgraded to [`ArgosError::AllProvidersRateLimited`] so the agent knows
//! the empty result came from anti-bot pressure, not from an empty topic.

use vstd::prelude::*;
use crate::config::Config;
use crate::metasearch::{builtin_manifest, known_provider, registered};
use crate::error::{ArgosError, ArgosErrorV, error_message, limited_view};
use crate::quality::{in_scope, is_relevant, matches_domains, relevant};
use crate::text::{
    chars_eq, chars_list_contains, chars_of, chars_view, decimal, decimal_string, starts_with, str_is,
    string_of, trim, trim_chars,
    trim_end_char, trim_end_char_chars, trim_start_str, trim_start_str_chars,
};
use crate::types::{
    ProviderEntry, ProviderEntryV, ProviderStatus, ProviderStatusV, SearchOutcome,
    SearchOutcomeV, SearchResult, SearchResultV, entries_view, results_view, strings_view,
};

verus! {

// ---------------------------------------------------------------------------
// Provider replies
// ---------------------------------------------------------------------------

/// What one provider answered to the fanned-out query.
#[derive(Debug)]
pub struct ProviderReply {
    /// Provider name.
    pub name: String,
    /// Its results, or why it produced none.
    pub outcome: Result<Vec<SearchResult>, ArgosError>,
}

pub struct ProviderReplyV {
    pub name: Seq<char>,
    pub outcome: Result<Seq<SearchResultV>, ArgosErrorV>,
}

impl View for ProviderReply {
    type V = ProviderReplyV;

    open spec fn view(&self) -> ProviderReplyV {
        ProviderReplyV {
            name: self.name@,
            outcome: match self.outcome {
                Ok(v) => Ok(results_view(v@)),
                Err(e) => Err(e@),
            },
        }
    }
}

pub open spec fn replies_view(v: Seq<ProviderReply>) -> Seq<ProviderReplyV> {
    v.map_values(|r: ProviderReply| r@)
}

// ---------------------------------------------------------------------------
// When every provider failed
// ---------------------------------------------------------------------------

pub open spec fn all_failed(replies: Seq<ProviderReplyV>) -> bool {
    forall|i: int| 0 <= i < replies.len() ==> (#[trigger] replies[i]).outcome is Err
}

/// `(name, status)` of every provider that answered with a rate limit, in order.
pub open spec fn rate_limited_pairs(replies: Seq<ProviderReplyV>) -> Seq<(Seq<char>, u16)>
    decreases replies.len(),
{
    if replies.len() == 0 {
        Seq::<(Seq<char>, u16)>::empty()
    } else {
        let p = rate_limited_pairs(replies.drop_last());
        match replies.last().outcome {
            Err(ArgosErrorV::RateLimited { status, .. }) => p.push((replies.last().name, status)),
            _ => p,
        }
    }
}

/// The first rate-limit error among the replies.
pub open spec fn first_rate_limited(replies: Seq<ProviderReplyV>) -> Option<ArgosErrorV>
    decreases replies.len(),
{
    if replies.len() == 0 {
        None
    } else {
        match first_rate_limited(replies.drop_last()) {
            Some(e) => Some(e),
            None => match replies.last().outcome {
                Err(e) => if e is RateLimited {
                    Some(e)
                } else {
                    None
                },
                Ok(_) => None,
            },
        }
    }
}

/// The first error among the replies.
pub open spec fn first_error(replies: Seq<ProviderReplyV>) -> Option<ArgosErrorV>
    decreases replies.len(),
{
    if replies.len() == 0 {
        None
    } else {
        match first_error(replies.drop_last()) {
            Some(e) => Some(e),
            None => match replies.last().outcome {
                Err(e) => Some(e),
                Ok(_) => None,
            },
        }
    }
}

/// The error reported when every provider failed: the dedicated
/// all-rate-limited error when every cause is a rate limit, otherwise the
/// most actionable individual error (a rate limit before anything else).
pub open spec fn failure_error(replies: Seq<ProviderReplyV>) -> ArgosErrorV {
    if rate_limited_pairs(replies).len() == replies.len() {
        ArgosErrorV::AllProvidersRateLimited { providers: rate_limited_pairs(replies) }
    } else {
        match first_rate_limited(replies) {
            Some(e) => e,
            None => match first_error(replies) {
                Some(e) => e,
                None => ArgosErrorV::InvalidQuery("no providers configured"@),
            },
        }
    }
}

// ---------------------------------------------------------------------------
// Quality-gated views of the answering providers
// ---------------------------------------------------------------------------

/// A result survives the gates when it lies in scope and is relevant.
pub open spec fn accepted(r: SearchResultV, query: Seq<char>, domains: Seq<Seq<char>>) -> bool {
    in_scope(r.url, domains) && relevant(query, r)
}

/// The results that survive the gates, in order.
pub open spec fn accepted_of(rs: Seq<SearchResultV>, query: Seq<char>, domains: Seq<Seq<char>>) -> Seq<
    SearchResultV,
>
    decreases rs.len(),
{
    if rs.len() == 0 {
        Seq::<SearchResultV>::empty()
    } else {
        let a = accepted_of(rs.drop_last(), query, domains);
        if accepted(rs.last(), query, domains) {
            a.push(rs.last())
        } else {
            a
        }
    }
}

/// One provider's contribution after the quality gates.
pub struct ProviderViewV {
    pub name: Seq<char>,
    pub results: Seq<SearchResultV>,
    pub error: Option<ArgosErrorV>,
    pub returned: nat,
    pub rejected: nat,
}

pub open spec fn view_of(reply: ProviderReplyV, query: Seq<char>, domains: Seq<Seq<char>>) -> ProviderViewV {
    match reply.outcome {
        Err(e) => ProviderViewV {
            name: reply.name,
            results: Seq::<SearchResultV>::empty(),
            error: Some(e),
            returned: 0,
            rejected: 0,
        },
        Ok(rs) => ProviderViewV {
            name: reply.name,
            results: accepted_of(rs, query, domains),
            error: None,
            returned: rs.len(),
            rejected: (rs.len() - accepted_of(rs, query, domains).len()) as nat,
        },
    }
}

pub open spec fn views_of(replies: Seq<ProviderReplyV>, query: Seq<char>, domains: Seq<Seq<char>>) -> Seq<
    ProviderViewV,
> {
    replies.map_values(|r: ProviderReplyV| view_of(r, query, domains))
}

// ---------------------------------------------------------------------------
// Fair merge with URL dedup
// ---------------------------------------------------------------------------

/// Dedup key: scheme, `www.` and trailing-slash differences must not split a hit.
pub open spec fn url_key(url: Seq<char>) -> Seq<char> {
    trim_end_char(
        trim_start_str(trim_start_str(trim_start_str(trim(url), "https://"@), "http://"@), "www."@),
        '/',
    )
}

pub open spec fn keys_of(rs: Seq<SearchResultV>) -> Seq<Seq<char>> {
    rs.map_values(|r: SearchResultV| url_key(r.url))
}

/// The results whose URL key did not occur earlier, in order.
pub open spec fn dedup_by_url(rs: Seq<SearchResultV>) -> Seq<SearchResultV>
    decreases rs.len(),
{
    if rs.len() == 0 {
        Seq::<SearchResultV>::empty()
    } else {
        let d = dedup_by_url(rs.drop_last());
        if keys_of(d).contains(url_key(rs.last().url)) {
            d
        } else {
            d.push(rs.last())
        }
    }
}

/// The results at position `rank` of each list that is long enough, in list order.
pub open spec fn column(lists: Seq<Seq<SearchResultV>>, rank: int) -> Seq<SearchResultV>
    decreases lists.len(),
{
    if lists.len() == 0 {
        Seq::<SearchResultV>::empty()
    } else {
        let c = column(lists.drop_last(), rank);
        if rank < lists.last().len() {
            c.push(lists.last()[rank])
        } else {
            c
        }
    }
}

/// Round-robin order: rank 0 of every list, then rank 1, and so on, for `n` ranks.
pub open spec fn interleave(lists: Seq<Seq<SearchResultV>>, n: nat) -> Seq<SearchResultV>
    decreases n,
{
    if n == 0 {
        Seq::<SearchResultV>::empty()
    } else {
        interleave(lists, (n - 1) as nat) + column(lists, n - 1)
    }
}

/// The length of the longest list.
pub open spec fn depth(lists: Seq<Seq<SearchResultV>>) -> nat
    decreases lists.len(),
{
    if lists.len() == 0 {
        0
    } else {
        let d = depth(lists.drop_last());
        if lists.last().len() > d {
            lists.last().len()
        } else {
            d
        }
    }
}

/// How many merged results a limit admits: the limit, but never fewer than one.
pub open spec fn result_cap(limit: nat) -> nat {
    if limit < 1 {
        1
    } else {
        limit
    }
}

/// The fair merge: round-robin over the lists, duplicates (by URL key)
/// dropped, cut to the limit.
pub open spec fn merged(lists: Seq<Seq<SearchResultV>>, limit: nat) -> Seq<SearchResultV> {
    let d = dedup_by_url(interleave(lists, depth(lists)));
    if d.len() <= result_cap(limit) {
        d
    } else {
        d.take(result_cap(limit) as int)
    }
}

pub open spec fn result_lists(views: Seq<ProviderViewV>) -> Seq<Seq<SearchResultV>> {
    views.map_values(|v: ProviderViewV| v.results)
}

// ---------------------------------------------------------------------------
// Per-provider status and warnings
// ---------------------------------------------------------------------------

/// The status reported for one provider.
pub open spec fn status_of(v: ProviderViewV) -> ProviderStatusV {
    match v.error {
        Some(ArgosErrorV::RateLimited { status, .. }) => ProviderStatusV::RateLimited { status },
        Some(ArgosErrorV::Unreachable { origin, cause }) => ProviderStatusV::Unreachable {
            message: origin + ": "@ + cause,
        },
        Some(other) => ProviderStatusV::Unreachable { message: error_message(other) },
        None => if v.results.len() == 0 && v.rejected == 0 {
            ProviderStatusV::Empty
        } else if v.results.len() == 0 {
            ProviderStatusV::Filtered { returned: v.returned }
        } else {
            ProviderStatusV::Success { count: v.results.len() }
        },
    }
}

/// The human-readable warning for a degraded provider status.
pub open spec fn status_warning(name: Seq<char>, status: ProviderStatusV) -> Option<Seq<char>> {
    match status {
        ProviderStatusV::RateLimited { status: code } => Some(
            name + ": rate-limited (HTTP "@ + decimal(code as nat)
                + "); back off or rotate ARGOS_PROVIDERS"@,
        ),
        ProviderStatusV::Filtered { returned } => Some(
            name + ": returned "@ + decimal(returned)
                + " result(s), but none passed Argos' domain/relevance gate"@,
        ),
        ProviderStatusV::Unreachable { message } => Some(name + ": unreachable ("@ + message + ")"@),
        _ => None,
    }
}

/// The warnings one provider contributes: its status warning, then a note
/// on results filtered out when the status does not already say so.
pub open spec fn view_warnings(v: ProviderViewV) -> Seq<Seq<char>> {
    let st = status_of(v);
    let first = match status_warning(v.name, st) {
        Some(w) => seq![w],
        None => Seq::<Seq<char>>::empty(),
    };
    if v.rejected > 0 && !(st is Filtered) {
        first.push(
            v.name + ": filtered "@ + decimal(v.rejected)
                + " result(s) outside the requested domain or query terms"@,
        )
    } else {
        first
    }
}

pub open spec fn all_warnings(views: Seq<ProviderViewV>) -> Seq<Seq<char>>
    decreases views.len(),
{
    if views.len() == 0 {
        Seq::<Seq<char>>::empty()
    } else {
        all_warnings(views.drop_last()) + view_warnings(views.last())
    }
}

pub open spec fn entries_of(views: Seq<ProviderViewV>) -> Seq<ProviderEntryV> {
    views.map_values(|v: ProviderViewV| ProviderEntryV { name: v.name, status: status_of(v) })
}

pub open spec fn total_returned(views: Seq<ProviderViewV>) -> nat
    decreases views.len(),
{
    if views.len() == 0 {
        0
    } else {
        total_returned(views.drop_last()) + views.last().returned
    }
}

pub open spec fn total_rejected(views: Seq<ProviderViewV>) -> nat
    decreases views.len(),
{
    if views.len() == 0 {
        0
    } else {
        total_rejected(views.drop_last()) + views.last().rejected
    }
}

// ---------------------------------------------------------------------------
// The whole merge
// ---------------------------------------------------------------------------

/// What a fanout call answers, given every provider's reply.
pub open spec fn fanout_outcome(
    replies: Seq<ProviderReplyV>,
    query: Seq<char>,
    limit: nat,
    domains: Seq<Seq<char>>,
) -> Result<SearchOutcomeV, ArgosErrorV> {
    if all_failed(replies) {
        Err(failure_error(replies))
    } else {
        let views = views_of(replies, query, domains);
        let m = merged(result_lists(views), limit);
        if m.len() == 0 {
            Err(
                ArgosErrorV::NoUsableResults {
                    returned: total_returned(views),
                    rejected: total_rejected(views),
                },
            )
        } else {
            Ok(
                SearchOutcomeV {
                    results: m,
                    providers: entries_of(views),
                    warnings: all_warnings(views),
                },
            )
        }
    }
}

pub open spec fn outcome_view(r: Result<SearchOutcome, ArgosError>) -> Result<
    SearchOutcomeV,
    ArgosErrorV,
> {
    match r {
        Ok(o) => Ok(o@),
        Err(e) => Err(e@),
    }
}

/// The number of results all providers returned together.
pub open spec fn total_results(replies: Seq<ProviderReplyV>) -> nat
    decreases replies.len(),
{
    if replies.len() == 0 {
        0
    } else {
        total_results(replies.drop_last()) + match replies.last().outcome {
            Ok(rs) => rs.len(),
            Err(_) => 0,
        }
    }
}


pub open spec fn opt_error_view(o: Option<ArgosError>) -> Option<ArgosErrorV> {
    match o {
        Some(e) => Some(e@),
        None => None,
    }
}

/// The error to report when every provider failed; `None` when at least one answered.
pub fn failure_of(replies: &Vec<ProviderReply>) -> (r: Option<ArgosError>)
    ensures
        all_failed(replies_view(replies@)) ==> opt_error_view(r) == Some(
            failure_error(replies_view(replies@)),
        ),
        !all_failed(replies_view(replies@)) ==> r is None,
{
    let ghost rv = replies_view(replies@);
    let mut all = true;
    let mut pairs: Vec<(String, u16)> = Vec::new();
    let mut first_rl: Option<ArgosError> = None;
    let mut first_err: Option<ArgosError> = None;
    let mut i: usize = 0;
    while i < replies.len()
        invariant
            i <= replies.len(),
            rv == replies_view(replies@),
            all == all_failed(rv.take(i as int)),
            limited_view(pairs@) == rate_limited_pairs(rv.take(i as int)),
            pairs.len() <= i,
            opt_error_view(first_rl) == first_rate_limited(rv.take(i as int)),
            opt_error_view(first_err) == first_error(rv.take(i as int)),
        decreases replies.len() - i,
    {
        let ghost pre = rv.take(i as int);
        let ghost nxt = rv.take(i + 1);
        proof {
            assert(nxt.drop_last() =~= pre);
            assert(nxt.last() == replies@[i as int]@);
        }
        match &replies[i].outcome {
            Ok(_) => {
                all = false;
                assert(!all_failed(nxt)) by {
                    assert(!(nxt[i as int].outcome is Err));
                }
            },
            Err(e) => {
                proof {
                    if all {
                        assert forall|k: int| 0 <= k < nxt.len() implies (
                        #[trigger] nxt[k]).outcome is Err by {
                            if k < i {
                                assert(nxt[k] == pre[k]);
                            }
                        }
                    } else {
                        let k = choose|k: int| 0 <= k < pre.len() && !(pre[k].outcome is Err);
                        assert(nxt[k] == pre[k]);
                    }
                }
                match e {
                    ArgosError::RateLimited { status, .. } => {
                        let ghost old_pairs = pairs@;
                        pairs.push((replies[i].name.clone(), *status));
                        assert(limited_view(pairs@) =~= limited_view(old_pairs).push(
                            (replies@[i as int].name@, *status),
                        ));
                        if first_rl.is_none() {
                            first_rl = Some(e.duplicate());
                        }
                    },
                    _ => {},
                }
                if first_err.is_none() {
                    first_err = Some(e.duplicate());
                }
            },
        }
        i = i + 1;
    }
    assert(rv.take(replies.len() as int) =~= rv);
    if !all {
        return None;
    }
    if pairs.len() == replies.len() {
        return Some(ArgosError::AllProvidersRateLimited { providers: pairs });
    }
    match first_rl {
        Some(e) => Some(e),
        None => match first_err {
            Some(e) => Some(e),
            None => Some(ArgosError::InvalidQuery(String::from_str("no providers configured"))),
        },
    }
}

proof fn lemma_accepted_len(rs: Seq<SearchResultV>, q: Seq<char>, d: Seq<Seq<char>>)
    ensures
        accepted_of(rs, q, d).len() <= rs.len(),
    decreases rs.len(),
{
    if rs.len() > 0 {
        lemma_accepted_len(rs.drop_last(), q, d);
    }
}

/// The results that pass the domain scope and the relevance gate, in order.
pub fn accepted_results(rs: &Vec<SearchResult>, query: &str, domains: &[String]) -> (r: Vec<
    SearchResult,
>)
    ensures
        results_view(r@) == accepted_of(results_view(rs@), query@, strings_view(domains@)),
        r.len() <= rs.len(),
{
    let ghost rv = results_view(rs@);
    let ghost dv = strings_view(domains@);
    let mut out: Vec<SearchResult> = Vec::new();
    let mut i: usize = 0;
    while i < rs.len()
        invariant
            i <= rs.len(),
            rv == results_view(rs@),
            dv == strings_view(domains@),
            results_view(out@) == accepted_of(rv.take(i as int), query@, dv),
        decreases rs.len() - i,
    {
        let result = &rs[i];
        proof {
            assert(rv.take(i + 1).drop_last() =~= rv.take(i as int));
            assert(rv.take(i + 1).last() == result@);
        }
        let in_scope = matches_domains(result.url.as_str(), domains);
        let rel = is_relevant(query, result);
        if in_scope && rel {
            let ghost old_out = out@;
            out.push(result.duplicate());
            assert(results_view(out@) =~= results_view(old_out).push(result@));
        }
        i = i + 1;
    }
    assert(rv.take(rs.len() as int) =~= rv);
    proof {
        lemma_accepted_len(rv, query@, dv);
    }
    out
}

/// One provider's contribution after the quality gates.
struct ProviderView {
    name: String,
    results: Vec<SearchResult>,
    error: Option<ArgosError>,
    returned: usize,
    rejected: usize,
}

impl View for ProviderView {
    type V = ProviderViewV;

    closed spec fn view(&self) -> ProviderViewV {
        ProviderViewV {
            name: self.name@,
            results: results_view(self.results@),
            error: opt_error_view(self.error),
            returned: self.returned as nat,
            rejected: self.rejected as nat,
        }
    }
}

spec fn pviews(v: Seq<ProviderView>) -> Seq<ProviderViewV> {
    v.map_values(|x: ProviderView| x@)
}

fn view_for(reply: &ProviderReply, query: &str, domains: &[String]) -> (r: ProviderView)
    ensures
        r@ == view_of(reply@, query@, strings_view(domains@)),
{
    match &reply.outcome {
        Err(e) => {
            let v = ProviderView {
                name: reply.name.clone(),
                results: Vec::new(),
                error: Some(e.duplicate()),
                returned: 0,
                rejected: 0,
            };
            assert(results_view(v.results@) =~= Seq::<SearchResultV>::empty());
            v
        },
        Ok(rs) => {
            let accepted = accepted_results(rs, query, domains);
            let returned = rs.len();
            let rejected = returned - accepted.len();
            ProviderView { name: reply.name.clone(), results: accepted, error: None, returned, rejected }
        },
    }
}

/// Dedup key of a URL as characters.
fn url_key_chars(url: &str) -> (r: Vec<char>)
    ensures
        r@ == url_key(url@),
{
    let cs = chars_of(url);
    let t = trim_chars(&cs);
    let a = trim_start_str_chars(&t, &chars_of("https://"));
    let b = trim_start_str_chars(&a, &chars_of("http://"));
    let c = trim_start_str_chars(&b, &chars_of("www."));
    trim_end_char_chars(&c, '/')
}

/// Dedup key: scheme, `www.` and trailing slash differences must not split a hit.
pub fn normalize_url(url: &str) -> (r: String)
    ensures
        r@ == url_key(url@),
{
    let k = url_key_chars(url);
    string_of(k.as_slice())
}

pub open spec fn is_prefix<T>(a: Seq<T>, b: Seq<T>) -> bool {
    a.len() <= b.len() && b.take(a.len() as int) == a
}

proof fn lemma_prefix_trans<T>(a: Seq<T>, b: Seq<T>, c: Seq<T>)
    requires
        is_prefix(a, b),
        is_prefix(b, c),
    ensures
        is_prefix(a, c),
{
    assert(c.take(a.len() as int) =~= b.take(a.len() as int));
}

proof fn lemma_dedup_prefix(p: Seq<SearchResultV>, s: Seq<SearchResultV>)
    requires
        is_prefix(p, s),
    ensures
        is_prefix(dedup_by_url(p), dedup_by_url(s)),
    decreases s.len(),
{
    if p.len() == s.len() {
        assert(s.take(p.len() as int) =~= s);
        assert(p =~= s);
        let d = dedup_by_url(s);
        assert(d.take(d.len() as int) =~= d);
    } else {
        assert(is_prefix(p, s.drop_last())) by {
            assert(s.drop_last().take(p.len() as int) =~= s.take(p.len() as int));
        }
        lemma_dedup_prefix(p, s.drop_last());
        let d = dedup_by_url(s.drop_last());
        assert(is_prefix(d, dedup_by_url(s))) by {
            assert(d.push(s.last()).take(d.len() as int) =~= d);
            assert(d.take(d.len() as int) =~= d);
        }
        lemma_prefix_trans(dedup_by_url(p), d, dedup_by_url(s));
    }
}

proof fn lemma_column_prefix(lists: Seq<Seq<SearchResultV>>, j: int, rank: int)
    requires
        0 <= j <= lists.len(),
    ensures
        is_prefix(column(lists.take(j), rank), column(lists, rank)),
    decreases lists.len() - j,
{
    if j == lists.len() {
        assert(lists.take(j) =~= lists);
        let c = column(lists, rank);
        assert(c.take(c.len() as int) =~= c);
    } else {
        lemma_column_prefix(lists, j + 1, rank);
        let a = column(lists.take(j), rank);
        assert(lists.take(j + 1).drop_last() =~= lists.take(j));
        assert(is_prefix(a, column(lists.take(j + 1), rank))) by {
            assert(a.take(a.len() as int) =~= a);
            assert(a.push(lists[j][rank]).take(a.len() as int) =~= a);
        }
        lemma_prefix_trans(a, column(lists.take(j + 1), rank), column(lists, rank));
    }
}

proof fn lemma_interleave_prefix(lists: Seq<Seq<SearchResultV>>, a: nat, b: nat)
    requires
        a <= b,
    ensures
        is_prefix(interleave(lists, a), interleave(lists, b)),
    decreases b,
{
    if a == b {
        let x = interleave(lists, a);
        assert(x.take(x.len() as int) =~= x);
    } else {
        lemma_interleave_prefix(lists, a, (b - 1) as nat);
        let y = interleave(lists, (b - 1) as nat);
        assert(is_prefix(y, interleave(lists, b))) by {
            assert((y + column(lists, b - 1)).take(y.len() as int) =~= y);
        }
        lemma_prefix_trans(interleave(lists, a), y, interleave(lists, b));
    }
}

/// The merge processed up to rank `rank` and list `vi` is a prefix of the whole order.
proof fn lemma_progress_prefix(lists: Seq<Seq<SearchResultV>>, rank: nat, vi: int)
    requires
        rank < depth(lists),
        0 <= vi <= lists.len(),
    ensures
        is_prefix(
            interleave(lists, rank) + column(lists.take(vi), rank as int),
            interleave(lists, depth(lists)),
        ),
{
    let i = interleave(lists, rank);
    let a = column(lists.take(vi), rank as int);
    let c = column(lists, rank as int);
    lemma_column_prefix(lists, vi, rank as int);
    assert(is_prefix(i + a, i + c)) by {
        assert((i + c).take((i + a).len() as int) =~= i + a);
    }
    assert(interleave(lists, rank + 1) == i + c);
    lemma_interleave_prefix(lists, rank + 1, depth(lists));
    lemma_prefix_trans(i + a, i + c, interleave(lists, depth(lists)));
}

proof fn lemma_depth_bound(lists: Seq<Seq<SearchResultV>>, k: int)
    requires
        0 <= k < lists.len(),
    ensures
        lists[k].len() <= depth(lists),
    decreases lists.len(),
{
    if k < lists.len() - 1 {
        lemma_depth_bound(lists.drop_last(), k);
    }
}

/// Round-robin merge of the accepted lists with URL dedup, cut to the limit.
fn merge_views(views: &Vec<ProviderView>, limit: usize) -> (r: Vec<SearchResult>)
    ensures
        results_view(r@) == merged(result_lists(pviews(views@)), limit as nat),
{
    let ghost lists = result_lists(pviews(views@));
    let n = views.len();
    let mut dep: usize = 0;
    let mut i: usize = 0;
    while i < n
        invariant
            i <= n == views.len(),
            lists == result_lists(pviews(views@)),
            dep == depth(lists.take(i as int)),
        decreases n - i,
    {
        proof {
            assert(lists.take(i + 1).drop_last() =~= lists.take(i as int));
            assert(lists.take(i + 1).last() == results_view(views@[i as int].results@));
        }
        if views[i].results.len() > dep {
            dep = views[i].results.len();
        }
        i = i + 1;
    }
    assert(lists.take(n as int) =~= lists);
    let cap: usize = if limit < 1 {
        1
    } else {
        limit
    };
    let mut out: Vec<SearchResult> = Vec::new();
    let mut seen: Vec<Vec<char>> = Vec::new();
    let mut done = false;
    let mut rank: usize = 0;
    assert(results_view(out@) =~= dedup_by_url(interleave(lists, 0)));
    assert(chars_view(seen@) =~= keys_of(results_view(out@)));
    while rank < dep && !done
        invariant
            n == views.len(),
            lists == result_lists(pviews(views@)),
            dep == depth(lists),
            cap == result_cap(limit as nat),
            rank <= dep,
            chars_view(seen@) == keys_of(results_view(out@)),
            !done ==> results_view(out@) == dedup_by_url(interleave(lists, rank as nat)),
            !done ==> out.len() < cap,
            done ==> results_view(out@) == merged(lists, limit as nat),
        decreases dep - rank,
    {
        let mut vi: usize = 0;
        assert(lists.take(0) =~= Seq::<Seq<SearchResultV>>::empty());
        assert(interleave(lists, rank as nat) + column(lists.take(0), rank as int) =~= interleave(
            lists,
            rank as nat,
        ));
        while vi < n && !done
            invariant
                n == views.len(),
                lists == result_lists(pviews(views@)),
                dep == depth(lists),
                cap == result_cap(limit as nat),
                rank < dep,
                vi <= n,
                chars_view(seen@) == keys_of(results_view(out@)),
                !done ==> results_view(out@) == dedup_by_url(
                    interleave(lists, rank as nat) + column(lists.take(vi as int), rank as int),
                ),
                !done ==> out.len() < cap,
                done ==> results_view(out@) == merged(lists, limit as nat),
            decreases n - vi,
        {
            let ghost processed = interleave(lists, rank as nat) + column(
                lists.take(vi as int),
                rank as int,
            );
            proof {
                assert(lists.take(vi + 1).drop_last() =~= lists.take(vi as int));
                assert(lists.take(vi + 1).last() == lists[vi as int]);
                assert(lists[vi as int] == results_view(views@[vi as int].results@));
            }
            if rank < views[vi].results.len() {
                let result = &views[vi].results[rank];
                let ghost x = result@;
                let ghost next = processed.push(x);
                assert(interleave(lists, rank as nat) + column(lists.take(vi + 1), rank as int)
                    =~= next);
                assert(next.drop_last() =~= processed);
                let key = url_key_chars(result.url.as_str());
                if !chars_list_contains(&seen, &key) {
                    let ghost old_out = out@;
                    let ghost old_seen = seen@;
                    out.push(result.duplicate());
                    seen.push(key);
                    proof {
                        assert(results_view(out@) =~= results_view(old_out).push(x));
                        assert(chars_view(seen@) =~= chars_view(old_seen).push(url_key(x.url)));
                        assert(keys_of(results_view(out@)) =~= keys_of(results_view(old_out)).push(
                            url_key(x.url),
                        ));
                        assert(results_view(out@) == dedup_by_url(next));
                    }
                    if out.len() >= cap {
                        done = true;
                        proof {
                            lemma_progress_prefix(lists, rank as nat, vi + 1);
                            let total = interleave(lists, depth(lists));
                            lemma_dedup_prefix(next, total);
                            let d = dedup_by_url(total);
                            assert(d.take(cap as int) =~= results_view(out@));
                        }
                    }
                }
            } else {
                assert(interleave(lists, rank as nat) + column(lists.take(vi + 1), rank as int)
                    =~= processed);
            }
            vi = vi + 1;
        }
        proof {
            if !done {
                assert(lists.take(n as int) =~= lists);
            }
        }
        rank = rank + 1;
    }
    out
}

/// The status reported for one provider.
fn status_for(v: &ProviderView) -> (r: ProviderStatus)
    ensures
        r@ == status_of(v@),
{
    match &v.error {
        Some(ArgosError::RateLimited { status, .. }) => ProviderStatus::RateLimited { status: *status },
        Some(ArgosError::Unreachable { origin, cause }) => {
            let mut m = origin.clone();
            m.append(": ");
            m.append(cause.as_str());
            ProviderStatus::Unreachable { message: m }
        },
        Some(other) => ProviderStatus::Unreachable { message: other.message() },
        None => if v.results.len() == 0 && v.rejected == 0 {
            ProviderStatus::Empty
        } else if v.results.len() == 0 {
            ProviderStatus::Filtered { returned: v.returned }
        } else {
            ProviderStatus::Success { count: v.results.len() }
        },
    }
}

pub open spec fn opt_string_view(o: Option<String>) -> Option<Seq<char>> {
    match o {
        Some(s) => Some(s@),
        None => None,
    }
}

/// Render the human-readable warning for a degraded provider status.
pub fn warnings_for(name: &str, status: &ProviderStatus) -> (r: Option<String>)
    ensures
        opt_string_view(r) == status_warning(name@, status@),
{
    match status {
        ProviderStatus::RateLimited { status: code } => {
            let mut w = String::from_str(name);
            w.append(": rate-limited (HTTP ");
            let d = decimal_string(*code as u64);
            w.append(d.as_str());
            w.append("); back off or rotate ARGOS_PROVIDERS");
            Some(w)
        },
        ProviderStatus::Filtered { returned } => {
            let mut w = String::from_str(name);
            w.append(": returned ");
            let d = decimal_string(*returned as u64);
            w.append(d.as_str());
            w.append(" result(s), but none passed Argos' domain/relevance gate");
            Some(w)
        },
        ProviderStatus::Unreachable { message } => {
            let mut w = String::from_str(name);
            w.append(": unreachable (");
            w.append(message.as_str());
            w.append(")");
            Some(w)
        },
        _ => None,
    }
}

/// Merge every provider's reply into one answer.
///
/// When every provider failed, the dedicated all-rate-limited error comes
/// back if every cause was a rate limit, otherwise the first rate-limit
/// error, otherwise the first error. Otherwise each answering provider's
/// results pass the domain and relevance gates, the survivors are merged
/// round-robin (rank 0 of every provider, then rank 1, ...) with
/// duplicates by URL key dropped and the list cut to `limit`, every
/// provider gets a status row, and degradations become warnings. An empty
/// merge is reported as [`ArgosError::NoUsableResults`], never as success.
pub fn merge_replies(
    replies: &Vec<ProviderReply>,
    relevance_query: &str,
    limit: usize,
    domains: &[String],
) -> (r: Result<SearchOutcome, ArgosError>)
    requires
        total_results(replies_view(replies@)) <= usize::MAX,
    ensures
        outcome_view(r) == fanout_outcome(
            replies_view(replies@),
            relevance_query@,
            limit as nat,
            strings_view(domains@),
        ),
{
    let ghost rv = replies_view(replies@);
    let ghost dv = strings_view(domains@);
    match failure_of(replies) {
        Some(e) => return Err(e),
        None => {},
    }
    let ghost vv = views_of(rv, relevance_query@, dv);
    let mut views: Vec<ProviderView> = Vec::new();
    let mut tr: usize = 0;
    let mut tj: usize = 0;
    let mut i: usize = 0;
    while i < replies.len()
        invariant
            i <= replies.len(),
            rv == replies_view(replies@),
            dv == strings_view(domains@),
            vv == views_of(rv, relevance_query@, dv),
            total_results(rv) <= usize::MAX,
            views.len() == i,
            forall|k: int| 0 <= k < i ==> (#[trigger] views@[k])@ == vv[k],
            tr == total_returned(vv.take(i as int)),
            tj == total_rejected(vv.take(i as int)),
            tj <= tr,
            tr <= total_results(rv.take(i as int)),
        decreases replies.len() - i,
    {
        let v = view_for(&replies[i], relevance_query, domains);
        proof {
            assert(vv.take(i + 1).drop_last() =~= vv.take(i as int));
            assert(rv.take(i + 1).drop_last() =~= rv.take(i as int));
            assert(rv[i as int] == replies@[i as int]@);
            lemma_total_results_mono(rv, i + 1);
            match rv[i as int].outcome {
                Ok(rs) => lemma_accepted_len(rs, relevance_query@, dv),
                Err(_) => {},
            }
        }
        tr = tr + v.returned;
        tj = tj + v.rejected;
        views.push(v);
        i = i + 1;
    }
    assert(pviews(views@) =~= vv);
    assert(vv.take(replies.len() as int) =~= vv);
    let results = merge_views(&views, limit);
    if results.len() == 0 {
        return Err(ArgosError::NoUsableResults { returned: tr, rejected: tj });
    }
    let mut providers: Vec<ProviderEntry> = Vec::new();
    let mut warnings: Vec<String> = Vec::new();
    let mut k: usize = 0;
    while k < views.len()
        invariant
            k <= views.len(),
            pviews(views@) == vv,
            providers.len() == k,
            forall|m: int| 0 <= m < k ==> (#[trigger] providers@[m])@ == entries_of(vv)[m],
            strings_view(warnings@) == all_warnings(vv.take(k as int)),
        decreases views.len() - k,
    {
        let v = &views[k];
        let ghost vk = vv[k as int];
        assert(v@ == vk);
        let status = status_for(v);
        let ghost old_w = warnings@;
        match warnings_for(v.name.as_str(), &status) {
            Some(w) => warnings.push(w),
            None => {},
        }
        let is_filtered = match status {
            ProviderStatus::Filtered { .. } => true,
            _ => false,
        };
        if v.rejected > 0 && !is_filtered {
            let mut w = v.name.clone();
            w.append(": filtered ");
            let d = decimal_string(v.rejected as u64);
            w.append(d.as_str());
            w.append(" result(s) outside the requested domain or query terms");
            warnings.push(w);
        }
        proof {
            assert(vv.take(k + 1).drop_last() =~= vv.take(k as int));
            assert(vv.take(k + 1).last() == vk);
            assert(strings_view(warnings@) =~= strings_view(old_w) + view_warnings(vk));
        }
        providers.push(ProviderEntry { name: v.name.clone(), status });
        k = k + 1;
    }
    assert(vv.take(views.len() as int) =~= vv);
    assert(entries_view(providers@) =~= entries_of(vv));
    Ok(SearchOutcome { results, providers, warnings })
}

proof fn lemma_total_results_mono(rv: Seq<ProviderReplyV>, k: int)
    requires
        0 <= k <= rv.len(),
    ensures
        total_results(rv.take(k)) <= total_results(rv),
    decreases rv.len() - k,
{
    if k < rv.len() {
        lemma_total_results_mono(rv, k + 1);
        assert(rv.take(k + 1).drop_last() =~= rv.take(k));
    } else {
        assert(rv.take(k) =~= rv);
    }
}

// ---------------------------------------------------------------------------
// Which providers take part
// ---------------------------------------------------------------------------

/// The providers a fanout is built from: the configured ones that have an
/// adapter, each once, in configured order; the default keyless trio when
/// none is left, so that a search can never silently do nothing.
pub open spec fn fanout_names(configured: Seq<Seq<char>>) -> Seq<Seq<char>> {
    if registered(configured).len() == 0 {
        seq!["duckduckgo"@, "bing"@, "brave"@]
    } else {
        registered(configured)
    }
}

/// The providers a fanout is built from.
pub fn fanout_members(config: &Config) -> (r: Vec<String>)
    ensures
        strings_view(r@) == fanout_names(strings_view(config.providers@)),
{
    let ghost ids = strings_view(config.providers@);
    let mut members: Vec<String> = Vec::new();
    let mut i: usize = 0;
    while i < config.providers.len()
        invariant
            i <= config.providers.len(),
            ids == strings_view(config.providers@),
            strings_view(members@) == registered(ids.take(i as int)),
        decreases config.providers.len() - i,
    {
        let id = &config.providers[i];
        let ghost m = registered(ids.take(i as int));
        proof {
            assert(ids.take(i + 1).drop_last() =~= ids.take(i as int));
            assert(ids.take(i + 1).last() == id@);
        }
        let known = match builtin_manifest(id.as_str()) {
            Some(_) => true,
            None => false,
        };
        if known {
            let mut found = false;
            let mut k: usize = 0;
            while k < members.len()
                invariant
                    k <= members.len(),
                    found == exists|j: int| 0 <= j < k && members@[j]@ == id@,
                decreases members.len() - k,
            {
                if members[k] == *id {
                    found = true;
                }
                k = k + 1;
            }
            proof {
                if found {
                    let j = choose|j: int| 0 <= j < members.len() && members@[j]@ == id@;
                    assert(m[j] == id@);
                } else {
                    assert forall|j: int| 0 <= j < m.len() implies m[j] != id@ by {
                        assert(m[j] == members@[j]@);
                    }
                }
            }
            if !found {
                let ghost old_m = members@;
                members.push(id.clone());
                assert(strings_view(members@) =~= strings_view(old_m).push(id@));
            }
        }
        i = i + 1;
    }
    assert(ids.take(config.providers.len() as int) =~= ids);
    if members.len() == 0 {
        let mut d: Vec<String> = Vec::new();
        d.push(String::from_str("duckduckgo"));
        d.push(String::from_str("bing"));
        d.push(String::from_str("brave"));
        assert(strings_view(d@) =~= seq!["duckduckgo"@, "bing"@, "brave"@]);
        return d;
    }
    members
}

/// The positions of the providers a call fans out to: every provider, or
/// only the selected ones, in fanout order.
pub open spec fn active_positions(names: Seq<Seq<char>>, selected: Option<Seq<Seq<char>>>) -> Seq<
    nat,
>
    decreases names.len(),
{
    if names.len() == 0 {
        Seq::<nat>::empty()
    } else {
        let p = active_positions(names.drop_last(), selected);
        let keep = match selected {
            None => true,
            Some(sel) => sel.contains(names.last()),
        };
        if keep {
            p.push((names.len() - 1) as nat)
        } else {
            p
        }
    }
}

/// The positions of the providers a call fans out to.
pub fn active_indices(names: &Vec<String>, selected: Option<&Vec<String>>) -> (r: Vec<usize>)
    ensures
        r@.map_values(|i: usize| i as nat) == active_positions(
            strings_view(names@),
            match selected {
                Some(s) => Some(strings_view(s@)),
                None => None,
            },
        ),
{
    let ghost nv = strings_view(names@);
    let ghost sv = match selected {
        Some(s) => Some(strings_view(s@)),
        None => None,
    };
    let mut out: Vec<usize> = Vec::new();
    let mut i: usize = 0;
    while i < names.len()
        invariant
            i <= names.len(),
            nv == strings_view(names@),
            sv == match selected {
                Some(s) => Some(strings_view(s@)),
                None => None,
            },
            out@.map_values(|i: usize| i as nat) == active_positions(nv.take(i as int), sv),
        decreases names.len() - i,
    {
        proof {
            assert(nv.take(i + 1).drop_last() =~= nv.take(i as int));
            assert(nv.take(i + 1).last() == names@[i as int]@);
        }
        let keep = match selected {
            None => true,
            Some(sel) => {
                let mut found = false;
                let mut k: usize = 0;
                while k < sel.len()
                    invariant
                        k <= sel.len(),
                        i < names.len(),
                        found == exists|j: int| 0 <= j < k && sel@[j]@ == names@[i as int]@,
                    decreases sel.len() - k,
                {
                    if sel[k] == names[i] {
                        found = true;
                    }
                    k = k + 1;
                }
                proof {
                    let ss = strings_view(sel@);
                    if found {
                        let j = choose|j: int| 0 <= j < sel.len() && sel@[j]@ == names@[i as int]@;
                        assert(ss[j] == names@[i as int]@);
                    } else {
                        assert forall|j: int| 0 <= j < ss.len() implies ss[j] != names@[i as int]@ by {
                            assert(ss[j] == sel@[j]@);
                        }
                    }
                }
                found
            },
        };
        if keep {
            let ghost old_out = out@;
            out.push(i);
            assert(out@.map_values(|i: usize| i as nat) =~= old_out.map_values(|i: usize| i as nat).push(
                i as nat,
            ));
        }
        i = i + 1;
    }
    assert(nv.take(names.len() as int) =~= nv);
    out
}

// ---------------------------------------------------------------------------
// Laws of the fanout
// ---------------------------------------------------------------------------

pub open spec fn keys_distinct(rs: Seq<SearchResultV>) -> bool {
    forall|i: int, j: int| 0 <= i < j < rs.len() ==> url_key(rs[i].url) != url_key(rs[j].url)
}

pub open spec fn all_accepted(rs: Seq<SearchResultV>, query: Seq<char>, domains: Seq<Seq<char>>) -> bool {
    forall|i: int| 0 <= i < rs.len() ==> accepted(#[trigger] rs[i], query, domains)
}

proof fn lemma_dedup_distinct(rs: Seq<SearchResultV>)
    ensures
        keys_distinct(dedup_by_url(rs)),
        forall|i: int|
            0 <= i < dedup_by_url(rs).len() ==> rs.contains(#[trigger] dedup_by_url(rs)[i]),
    decreases rs.len(),
{
    if rs.len() > 0 {
        lemma_dedup_distinct(rs.drop_last());
        let d = dedup_by_url(rs.drop_last());
        let x = rs.last();
        if !keys_of(d).contains(url_key(x.url)) {
            let e = d.push(x);
            assert forall|i: int, j: int| 0 <= i < j < e.len() implies url_key(e[i].url) != url_key(
                e[j].url,
            ) by {
                if j == d.len() {
                    assert(keys_of(d)[i] == url_key(d[i].url));
                }
            }
        }
        assert forall|i: int|
            0 <= i < dedup_by_url(rs).len() implies rs.contains(#[trigger] dedup_by_url(rs)[i]) by {
            let y = dedup_by_url(rs)[i];
            if i < d.len() {
                assert(y == d[i]);
                let k = choose|k: int| 0 <= k < rs.drop_last().len() && rs.drop_last()[k] == y;
                assert(rs[k] == y);
            } else {
                assert(rs[rs.len() - 1] == y);
            }
        }
    }
}

proof fn lemma_column_accepted(lists: Seq<Seq<SearchResultV>>, rank: int, q: Seq<char>, d: Seq<Seq<char>>)
    requires
        rank >= 0,
        forall|i: int| 0 <= i < lists.len() ==> all_accepted(#[trigger] lists[i], q, d),
    ensures
        all_accepted(column(lists, rank), q, d),
    decreases lists.len(),
{
    if lists.len() > 0 {
        assert forall|i: int| 0 <= i < lists.drop_last().len() implies all_accepted(
            #[trigger] lists.drop_last()[i],
            q,
            d,
        ) by {
            assert(lists.drop_last()[i] == lists[i]);
        }
        lemma_column_accepted(lists.drop_last(), rank, q, d);
        let l = lists.last();
        assert(all_accepted(l, q, d)) by {
            assert(l == lists[lists.len() - 1]);
        }
        let c = column(lists.drop_last(), rank);
        if rank < l.len() {
            assert(accepted(l[rank], q, d));
            assert forall|i: int| 0 <= i < c.push(l[rank]).len() implies accepted(
                #[trigger] c.push(l[rank])[i],
                q,
                d,
            ) by {
                if i < c.len() {
                    assert(c.push(l[rank])[i] == c[i]);
                }
            }
        }
    }
}

proof fn lemma_interleave_accepted(lists: Seq<Seq<SearchResultV>>, n: nat, q: Seq<char>, d: Seq<Seq<char>>)
    requires
        forall|i: int| 0 <= i < lists.len() ==> all_accepted(#[trigger] lists[i], q, d),
    ensures
        all_accepted(interleave(lists, n), q, d),
    decreases n,
{
    if n > 0 {
        lemma_interleave_accepted(lists, (n - 1) as nat, q, d);
        lemma_column_accepted(lists, n - 1, q, d);
        let a = interleave(lists, (n - 1) as nat);
        let c = column(lists, n - 1);
        assert forall|i: int| 0 <= i < (a + c).len() implies accepted(#[trigger] (a + c)[i], q, d) by {
            if i < a.len() {
                assert((a + c)[i] == a[i]);
            } else {
                assert((a + c)[i] == c[i - a.len()]);
            }
        }
    }
}

proof fn lemma_accepted_of_accepted(rs: Seq<SearchResultV>, q: Seq<char>, d: Seq<Seq<char>>)
    ensures
        all_accepted(accepted_of(rs, q, d), q, d),
    decreases rs.len(),
{
    if rs.len() > 0 {
        lemma_accepted_of_accepted(rs.drop_last(), q, d);
    }
}

/// Every result of a successful fanout passed the domain scope and the
/// relevance gate, no two share a URL key, and there are at least one and
/// at most `max(limit, 1)` of them.
pub proof fn law_fanout_results_clean(
    replies: Seq<ProviderReplyV>,
    query: Seq<char>,
    limit: nat,
    domains: Seq<Seq<char>>,
)
    ensures
        fanout_outcome(replies, query, limit, domains) matches Ok(o) ==> {
            &&& all_accepted(o.results, query, domains)
            &&& keys_distinct(o.results)
            &&& 1 <= o.results.len() <= result_cap(limit)
        },
{
    if !all_failed(replies) {
        let views = views_of(replies, query, domains);
        let lists = result_lists(views);
        assert forall|i: int| 0 <= i < lists.len() implies all_accepted(#[trigger] lists[i], query, domains) by {
            assert(lists[i] == views[i].results);
            assert(views[i] == view_of(replies[i], query, domains));
            match replies[i].outcome {
                Ok(rs) => lemma_accepted_of_accepted(rs, query, domains),
                Err(_) => {},
            }
        }
        let all = interleave(lists, depth(lists));
        lemma_interleave_accepted(lists, depth(lists), query, domains);
        lemma_dedup_distinct(all);
        let dd = dedup_by_url(all);
        assert(all_accepted(dd, query, domains)) by {
            assert forall|i: int| 0 <= i < dd.len() implies accepted(#[trigger] dd[i], query, domains) by {
                assert(all.contains(dd[i]));
                let k = choose|k: int| 0 <= k < all.len() && all[k] == dd[i];
                assert(accepted(all[k], query, domains));
            }
        }
        let m = merged(lists, limit);
        assert forall|i: int| 0 <= i < m.len() implies m[i] == dd[i] by {}
    }
}

/// A successful fanout reports one status row per provider, in fanout
/// order and under the provider's name: no provider is silently hidden.
pub proof fn law_fanout_reports_every_provider(
    replies: Seq<ProviderReplyV>,
    query: Seq<char>,
    limit: nat,
    domains: Seq<Seq<char>>,
)
    ensures
        fanout_outcome(replies, query, limit, domains) matches Ok(o) ==> {
            &&& o.providers.len() == replies.len()
            &&& forall|i: int| 0 <= i < replies.len() ==> (#[trigger] o.providers[i]).name == replies[i].name
        },
{
}

/// The status of a rate-limit answer.
pub open spec fn limit_status(o: Result<Seq<SearchResultV>, ArgosErrorV>) -> u16 {
    match o {
        Err(ArgosErrorV::RateLimited { status, .. }) => status,
        _ => 0,
    }
}

proof fn lemma_pairs_all(replies: Seq<ProviderReplyV>)
    requires
        forall|i: int| 0 <= i < replies.len() ==> (#[trigger] replies[i]).outcome matches Err(
            ArgosErrorV::RateLimited { .. },
        ),
    ensures
        rate_limited_pairs(replies).len() == replies.len(),
        forall|i: int|
            0 <= i < replies.len() ==> #[trigger] rate_limited_pairs(replies)[i] == (
                replies[i].name,
                limit_status(replies[i].outcome),
            ),
    decreases replies.len(),
{
    if replies.len() > 0 {
        let p = replies.drop_last();
        assert forall|i: int| 0 <= i < p.len() implies (#[trigger] p[i]).outcome matches Err(
            ArgosErrorV::RateLimited { .. },
        ) by {
            assert(p[i] == replies[i]);
        }
        lemma_pairs_all(p);
        assert(replies.last() == replies[replies.len() - 1]);
        assert forall|i: int| 0 <= i < replies.len() implies #[trigger] rate_limited_pairs(
            replies,
        )[i] == (replies[i].name, limit_status(replies[i].outcome)) by {
            if i < p.len() {
                assert(p[i] == replies[i]);
                assert(rate_limited_pairs(replies)[i] == rate_limited_pairs(p)[i]);
            }
        }
    }
}

proof fn lemma_column_nonempty(lists: Seq<Seq<SearchResultV>>, k: int)
    requires
        0 <= k < lists.len(),
        lists[k].len() > 0,
    ensures
        column(lists, 0).len() > 0,
    decreases lists.len(),
{
    if k < lists.len() - 1 {
        lemma_column_nonempty(lists.drop_last(), k);
    }
}

proof fn lemma_dedup_nonempty(rs: Seq<SearchResultV>)
    requires
        rs.len() > 0,
    ensures
        dedup_by_url(rs).len() > 0,
    decreases rs.len(),
{
    if rs.len() > 1 {
        lemma_dedup_nonempty(rs.drop_last());
    }
}

/// Failover: when at least one provider answers with a result that passes
/// the domain and relevance gates, the search succeeds, whatever the other
/// providers did (rate limits, timeouts, empty pages).
pub proof fn law_failover(
    replies: Seq<ProviderReplyV>,
    query: Seq<char>,
    limit: nat,
    domains: Seq<Seq<char>>,
    k: int,
)
    requires
        0 <= k < replies.len(),
        replies[k].outcome matches Ok(rs) && accepted_of(rs, query, domains).len() > 0,
    ensures
        fanout_outcome(replies, query, limit, domains) matches Ok(o) && o.results.len() > 0,
{
    assert(!all_failed(replies)) by {
        assert(replies[k].outcome is Ok);
    }
    let views = views_of(replies, query, domains);
    let lists = result_lists(views);
    assert(views[k] == view_of(replies[k], query, domains));
    assert(lists[k] == views[k].results);
    lemma_column_nonempty(lists, k);
    lemma_depth_bound(lists, k);
    let n = depth(lists);
    lemma_interleave_prefix(lists, 1, n);
    assert(interleave(lists, 1) =~= column(lists, 0)) by {
        assert(interleave(lists, 0) =~= Seq::<SearchResultV>::empty());
    }
    lemma_dedup_nonempty(interleave(lists, n));
}

proof fn lemma_dedup_keeps_keys(rs: Seq<SearchResultV>, j: int)
    requires
        0 <= j < rs.len(),
    ensures
        keys_of(dedup_by_url(rs)).contains(url_key(rs[j].url)),
    decreases rs.len(),
{
    let d = dedup_by_url(rs.drop_last());
    if j < rs.len() - 1 {
        lemma_dedup_keeps_keys(rs.drop_last(), j);
        assert(rs.drop_last()[j] == rs[j]);
    }
    let key = url_key(rs[j].url);
    if !keys_of(d).contains(url_key(rs.last().url)) {
        let e = d.push(rs.last());
        assert(keys_of(e) =~= keys_of(d).push(url_key(rs.last().url)));
        if j < rs.len() - 1 {
            let i = choose|i: int| 0 <= i < keys_of(d).len() && keys_of(d)[i] == key;
            assert(keys_of(e)[i] == key);
        } else {
            assert(keys_of(e)[d.len() as int] == key);
        }
    }
}

proof fn lemma_column_has(lists: Seq<Seq<SearchResultV>>, k: int, r: int)
    requires
        0 <= k < lists.len(),
        0 <= r < lists[k].len(),
    ensures
        column(lists, r).contains(lists[k][r]),
    decreases lists.len(),
{
    let c = column(lists.drop_last(), r);
    if k < lists.len() - 1 {
        lemma_column_has(lists.drop_last(), k, r);
        assert(lists.drop_last()[k] == lists[k]);
        let i = choose|i: int| 0 <= i < c.len() && c[i] == lists[k][r];
        assert(column(lists, r)[i] == lists[k][r]);
    } else {
        assert(column(lists, r) == c.push(lists[k][r]));
        assert(column(lists, r)[c.len() as int] == lists[k][r]);
    }
}

proof fn lemma_interleave_has(lists: Seq<Seq<SearchResultV>>, n: nat, r: int, x: SearchResultV)
    requires
        0 <= r < n,
        column(lists, r).contains(x),
    ensures
        interleave(lists, n).contains(x),
    decreases n,
{
    let prev = interleave(lists, (n - 1) as nat);
    let c = column(lists, n - 1);
    if r < n - 1 {
        lemma_interleave_has(lists, (n - 1) as nat, r, x);
        let i = choose|i: int| 0 <= i < prev.len() && prev[i] == x;
        assert((prev + c)[i] == x);
    } else {
        let i = choose|i: int| 0 <= i < c.len() && c[i] == x;
        assert((prev + c)[prev.len() + i] == x);
    }
}

/// Nothing usable is dropped below the limit: when a successful fanout
/// returned fewer results than the limit admits, every result that a
/// provider returned and that passed the gates is among them, or one with
/// the same URL key.
pub proof fn law_fanout_complete(
    replies: Seq<ProviderReplyV>,
    query: Seq<char>,
    limit: nat,
    domains: Seq<Seq<char>>,
    k: int,
    j: int,
)
    requires
        0 <= k < replies.len(),
        replies[k].outcome matches Ok(rs) && 0 <= j < accepted_of(rs, query, domains).len(),
    ensures
        fanout_outcome(replies, query, limit, domains) matches Ok(o) && (o.results.len()
            < result_cap(limit) ==> keys_of(o.results).contains(
            url_key(accepted_of(replies[k].outcome->Ok_0, query, domains)[j].url),
        )),
{
    law_failover(replies, query, limit, domains, k);
    let acc = accepted_of(replies[k].outcome->Ok_0, query, domains);
    let views = views_of(replies, query, domains);
    let lists = result_lists(views);
    assert(views[k] == view_of(replies[k], query, domains));
    assert(lists[k] == acc);
    lemma_depth_bound(lists, k);
    let n = depth(lists);
    lemma_column_has(lists, k, j);
    lemma_interleave_has(lists, n, j, acc[j]);
    let all = interleave(lists, n);
    let i = choose|i: int| 0 <= i < all.len() && all[i] == acc[j];
    lemma_dedup_keeps_keys(all, i);
}

/// `x` stands at some rank of some list.
pub open spec fn in_some_list(lists: Seq<Seq<SearchResultV>>, x: SearchResultV) -> bool {
    exists|k: int, r: int| 0 <= k < lists.len() && 0 <= r < lists[k].len() && #[trigger] lists[k][r] == x
}

proof fn lemma_column_from(lists: Seq<Seq<SearchResultV>>, rank: int, i: int)
    requires
        0 <= rank,
        0 <= i < column(lists, rank).len(),
    ensures
        in_some_list(lists, column(lists, rank)[i]),
    decreases lists.len(),
{
    let c = column(lists.drop_last(), rank);
    let x = column(lists, rank)[i];
    if i < c.len() {
        lemma_column_from(lists.drop_last(), rank, i);
        assert(column(lists, rank)[i] == c[i]);
        let (k, r) = choose|k: int, r: int|
            0 <= k < lists.drop_last().len() && 0 <= r < lists.drop_last()[k].len()
                && #[trigger] lists.drop_last()[k][r] == c[i];
        assert(lists.drop_last()[k] == lists[k]);
        assert(lists[k][r] == x);
    } else {
        let k = lists.len() - 1;
        assert(rank < lists.last().len());
        assert(column(lists, rank) == c.push(lists.last()[rank]));
        assert(lists[k][rank] == x);
    }
}

proof fn lemma_interleave_from(lists: Seq<Seq<SearchResultV>>, n: nat, i: int)
    requires
        0 <= i < interleave(lists, n).len(),
    ensures
        in_some_list(lists, interleave(lists, n)[i]),
    decreases n,
{
    let prev = interleave(lists, (n - 1) as nat);
    if i < prev.len() {
        lemma_interleave_from(lists, (n - 1) as nat, i);
        assert(interleave(lists, n)[i] == prev[i]);
    } else {
        lemma_column_from(lists, n - 1, i - prev.len());
        assert(interleave(lists, n)[i] == column(lists, n - 1)[i - prev.len()]);
    }
}

proof fn lemma_dedup_from(rs: Seq<SearchResultV>, i: int)
    requires
        0 <= i < dedup_by_url(rs).len(),
    ensures
        rs.contains(dedup_by_url(rs)[i]),
    decreases rs.len(),
{
    let d = dedup_by_url(rs.drop_last());
    if i < d.len() {
        lemma_dedup_from(rs.drop_last(), i);
        assert(dedup_by_url(rs)[i] == d[i]);
        let m = choose|m: int| 0 <= m < rs.drop_last().len() && rs.drop_last()[m] == d[i];
        assert(rs[m] == d[i]);
    } else {
        assert(dedup_by_url(rs)[i] == rs.last());
        assert(rs[rs.len() - 1] == rs.last());
    }
}

/// The results of provider `k` that passed the gates (none when it failed).
pub open spec fn accepted_at(
    replies: Seq<ProviderReplyV>,
    query: Seq<char>,
    domains: Seq<Seq<char>>,
    k: int,
) -> Seq<SearchResultV> {
    match replies[k].outcome {
        Ok(rs) => accepted_of(rs, query, domains),
        Err(_) => Seq::<SearchResultV>::empty(),
    }
}

/// `x` is a result that one of the providers returned and that passed the gates.
pub open spec fn from_provider(
    replies: Seq<ProviderReplyV>,
    query: Seq<char>,
    domains: Seq<Seq<char>>,
    x: SearchResultV,
) -> bool {
    exists|k: int, j: int|
        0 <= k < replies.len() && 0 <= j < accepted_at(replies, query, domains, k).len()
            && #[trigger] accepted_at(replies, query, domains, k)[j] == x
}

/// Every result of a successful fanout is a result that one of the
/// providers returned and that passed the gates.
pub proof fn law_fanout_results_come_from_providers(
    replies: Seq<ProviderReplyV>,
    query: Seq<char>,
    limit: nat,
    domains: Seq<Seq<char>>,
)
    ensures
        fanout_outcome(replies, query, limit, domains) matches Ok(o) ==> forall|i: int|
            0 <= i < o.results.len() ==> #[trigger] from_provider(replies, query, domains, o.results[i]),
{
    if !all_failed(replies) {
        let views = views_of(replies, query, domains);
        let lists = result_lists(views);
        let all = interleave(lists, depth(lists));
        let d = dedup_by_url(all);
        let m = merged(lists, limit);
        assert forall|i: int| 0 <= i < m.len() implies #[trigger] from_provider(
            replies,
            query,
            domains,
            m[i],
        ) by {
            assert(m[i] == d[i]);
            lemma_dedup_from(all, i);
            let p = choose|p: int| 0 <= p < all.len() && all[p] == d[i];
            lemma_interleave_from(lists, depth(lists), p);
            let (k, r) = choose|k: int, r: int|
                0 <= k < lists.len() && 0 <= r < lists[k].len() && #[trigger] lists[k][r] == all[p];
            assert(views[k] == view_of(replies[k], query, domains));
            assert(lists[k] == accepted_at(replies, query, domains, k));
            assert(accepted_at(replies, query, domains, k)[r] == m[i]);
        }
    }
}

/// The reply is a rate-limit answer.
pub open spec fn is_rate_limit(o: Result<Seq<SearchResultV>, ArgosErrorV>) -> bool {
    o matches Err(ArgosErrorV::RateLimited { .. })
}

proof fn lemma_pairs_short(replies: Seq<ProviderReplyV>, k: int)
    requires
        0 <= k < replies.len(),
        !is_rate_limit(replies[k].outcome),
    ensures
        rate_limited_pairs(replies).len() < replies.len(),
    decreases replies.len(),
{
    let p = replies.drop_last();
    lemma_pairs_len(p);
    if k < replies.len() - 1 {
        assert(p[k] == replies[k]);
        lemma_pairs_short(p, k);
    }
}

proof fn lemma_pairs_len(replies: Seq<ProviderReplyV>)
    ensures
        rate_limited_pairs(replies).len() <= replies.len(),
    decreases replies.len(),
{
    if replies.len() > 0 {
        lemma_pairs_len(replies.drop_last());
    }
}

proof fn lemma_first_rate_limited_at(replies: Seq<ProviderReplyV>, k: int)
    requires
        0 <= k <= replies.len(),
        forall|i: int| 0 <= i < k ==> !is_rate_limit(#[trigger] replies[i].outcome),
        k < replies.len() ==> is_rate_limit(replies[k].outcome),
    ensures
        k < replies.len() ==> first_rate_limited(replies) == Some(replies[k].outcome->Err_0),
        k == replies.len() ==> first_rate_limited(replies) is None,
    decreases replies.len(),
{
    if replies.len() > 0 {
        let p = replies.drop_last();
        assert forall|i: int| 0 <= i < (if k < p.len() { k } else { p.len() as int }) implies !is_rate_limit(
            #[trigger] p[i].outcome,
        ) by {
            assert(p[i] == replies[i]);
        }
        if k < p.len() {
            assert(p[k] == replies[k]);
            lemma_first_rate_limited_at(p, k);
        } else {
            lemma_first_rate_limited_at(p, p.len() as int);
            if k == p.len() {
                assert(replies.last() == replies[k]);
            } else {
                assert(!is_rate_limit(replies[replies.len() - 1].outcome));
            }
        }
    }
}

proof fn lemma_first_error_is_first(replies: Seq<ProviderReplyV>)
    requires
        replies.len() > 0,
        replies[0].outcome is Err,
    ensures
        first_error(replies) == Some(replies[0].outcome->Err_0),
    decreases replies.len(),
{
    if replies.len() > 1 {
        let p = replies.drop_last();
        assert(p[0] == replies[0]);
        lemma_first_error_is_first(p);
    } else {
        assert(replies.drop_last().len() == 0);
        assert(first_error(replies.drop_last()) is None);
        assert(replies.last() == replies[0]);
        assert(replies.last().outcome is Err);
    }
}

/// When every provider failed, and not all of them with a rate limit, the
/// fanout fails with the first rate limit in fanout order if there is one,
/// and with the first provider's error otherwise.
pub proof fn law_all_failed_error(
    replies: Seq<ProviderReplyV>,
    query: Seq<char>,
    limit: nat,
    domains: Seq<Seq<char>>,
    k: int,
)
    requires
        all_failed(replies),
        0 <= k < replies.len(),
        !is_rate_limit(replies[k].outcome),
    ensures
        forall|j: int|
            0 <= j < replies.len() && is_rate_limit(#[trigger] replies[j].outcome) && (forall|i: int|
                0 <= i < j ==> !is_rate_limit(#[trigger] replies[i].outcome)) ==> fanout_outcome(
                replies,
                query,
                limit,
                domains,
            ) == Err::<SearchOutcomeV, ArgosErrorV>(replies[j].outcome->Err_0),
        (forall|i: int| 0 <= i < replies.len() ==> !is_rate_limit(#[trigger] replies[i].outcome))
            ==> fanout_outcome(replies, query, limit, domains) == Err::<SearchOutcomeV, ArgosErrorV>(
            replies[0].outcome->Err_0,
        ),
{
    lemma_pairs_short(replies, k);
    assert forall|j: int|
        0 <= j < replies.len() && is_rate_limit(#[trigger] replies[j].outcome) && (forall|i: int|
            0 <= i < j ==> !is_rate_limit(#[trigger] replies[i].outcome)) implies fanout_outcome(
            replies,
            query,
            limit,
            domains,
        ) == Err::<SearchOutcomeV, ArgosErrorV>(replies[j].outcome->Err_0) by {
        lemma_first_rate_limited_at(replies, j);
    }
    if forall|i: int| 0 <= i < replies.len() ==> !is_rate_limit(#[trigger] replies[i].outcome) {
        lemma_first_rate_limited_at(replies, replies.len() as int);
        assert(replies[0].outcome is Err);
        lemma_first_error_is_first(replies);
    }
}

/// The status a provider's reply is reported with: its rate limit; for any
/// other failure "unreachable" with the origin and cause (or the error's
/// message); "empty" when it returned nothing; "filtered" when nothing it
/// returned passed the gates; otherwise how many results did.
pub open spec fn reply_status(reply: ProviderReplyV, query: Seq<char>, domains: Seq<Seq<char>>) -> ProviderStatusV {
    match reply.outcome {
        Err(ArgosErrorV::RateLimited { status, .. }) => ProviderStatusV::RateLimited { status },
        Err(ArgosErrorV::Unreachable { origin, cause }) => ProviderStatusV::Unreachable {
            message: origin + ": "@ + cause,
        },
        Err(e) => ProviderStatusV::Unreachable { message: error_message(e) },
        Ok(rs) => if rs.len() == 0 {
            ProviderStatusV::Empty
        } else if accepted_of(rs, query, domains).len() == 0 {
            ProviderStatusV::Filtered { returned: rs.len() }
        } else {
            ProviderStatusV::Success { count: accepted_of(rs, query, domains).len() }
        },
    }
}

/// How many of a reply's results the gates rejected.
pub open spec fn reply_rejected(reply: ProviderReplyV, query: Seq<char>, domains: Seq<Seq<char>>) -> nat {
    match reply.outcome {
        Ok(rs) => (rs.len() - accepted_of(rs, query, domains).len()) as nat,
        Err(_) => 0,
    }
}

/// The warnings a reply contributes: the warning of a degraded status, then
/// a note on the results filtered out when the status does not say so.
pub open spec fn reply_warnings(reply: ProviderReplyV, query: Seq<char>, domains: Seq<Seq<char>>) -> Seq<Seq<char>> {
    let st = reply_status(reply, query, domains);
    let rej = reply_rejected(reply, query, domains);
    let first = match status_warning(reply.name, st) {
        Some(w) => seq![w],
        None => Seq::<Seq<char>>::empty(),
    };
    if rej > 0 && !(st is Filtered) {
        first.push(
            reply.name + ": filtered "@ + decimal(rej)
                + " result(s) outside the requested domain or query terms"@,
        )
    } else {
        first
    }
}

/// The warnings of all replies, in fanout order.
pub open spec fn replies_warnings(replies: Seq<ProviderReplyV>, query: Seq<char>, domains: Seq<Seq<char>>) -> Seq<Seq<char>>
    decreases replies.len(),
{
    if replies.len() == 0 {
        Seq::<Seq<char>>::empty()
    } else {
        replies_warnings(replies.drop_last(), query, domains) + reply_warnings(replies.last(), query, domains)
    }
}

/// How many results the gates rejected across all replies.
pub open spec fn total_rejected_of(replies: Seq<ProviderReplyV>, query: Seq<char>, domains: Seq<Seq<char>>) -> nat
    decreases replies.len(),
{
    if replies.len() == 0 {
        0
    } else {
        total_rejected_of(replies.drop_last(), query, domains) + reply_rejected(replies.last(), query, domains)
    }
}

proof fn lemma_view_status(reply: ProviderReplyV, query: Seq<char>, domains: Seq<Seq<char>>)
    ensures
        status_of(view_of(reply, query, domains)) == reply_status(reply, query, domains),
        view_of(reply, query, domains).rejected == reply_rejected(reply, query, domains),
        view_warnings(view_of(reply, query, domains)) == reply_warnings(reply, query, domains),
{
    match reply.outcome {
        Ok(rs) => lemma_accepted_len(rs, query, domains),
        Err(_) => {},
    }
}

proof fn lemma_views_totals(replies: Seq<ProviderReplyV>, query: Seq<char>, domains: Seq<Seq<char>>)
    ensures
        total_returned(views_of(replies, query, domains)) == total_results(replies),
        total_rejected(views_of(replies, query, domains)) == total_rejected_of(replies, query, domains),
        all_warnings(views_of(replies, query, domains)) == replies_warnings(replies, query, domains),
    decreases replies.len(),
{
    if replies.len() > 0 {
        let p = replies.drop_last();
        lemma_views_totals(p, query, domains);
        let v = views_of(replies, query, domains);
        assert(v.drop_last() =~= views_of(p, query, domains));
        assert(v.last() == view_of(replies.last(), query, domains));
        lemma_view_status(replies.last(), query, domains);
    }
}

/// Each provider's status row, the warnings, and the totals of "no usable
/// results" are what the replies make of them: a successful fanout reports
/// every provider under its name with [`reply_status`] and lists
/// [`reply_warnings`] provider by provider; when providers answered but no
/// result passed the gates, the error counts every returned result and
/// every rejected one.
pub proof fn law_fanout_statuses(
    replies: Seq<ProviderReplyV>,
    query: Seq<char>,
    limit: nat,
    domains: Seq<Seq<char>>,
)
    ensures
        fanout_outcome(replies, query, limit, domains) matches Ok(o) ==> {
            &&& o.providers.len() == replies.len()
            &&& forall|i: int|
                0 <= i < replies.len() ==> (#[trigger] o.providers[i]).name == replies[i].name
                    && o.providers[i].status == reply_status(replies[i], query, domains)
            &&& o.warnings == replies_warnings(replies, query, domains)
        },
        !all_failed(replies) && (forall|i: int|
            0 <= i < replies.len() ==> #[trigger] accepted_at(replies, query, domains, i).len() == 0)
            ==> fanout_outcome(replies, query, limit, domains) == Err::<SearchOutcomeV, ArgosErrorV>(
            ArgosErrorV::NoUsableResults {
                returned: total_results(replies),
                rejected: total_rejected_of(replies, query, domains),
            },
        ),
{
    lemma_views_totals(replies, query, domains);
    let views = views_of(replies, query, domains);
    assert forall|i: int| 0 <= i < replies.len() implies entries_of(views)[i].status == reply_status(
        replies[i],
        query,
        domains,
    ) by {
        assert(views[i] == view_of(replies[i], query, domains));
        lemma_view_status(replies[i], query, domains);
    }
    if !all_failed(replies) && (forall|i: int|
        0 <= i < replies.len() ==> #[trigger] accepted_at(replies, query, domains, i).len() == 0) {
        assert forall|i: int| 0 <= i < views.len() implies (#[trigger] views[i]).results.len() == 0 by {
            assert(views[i] == view_of(replies[i], query, domains));
            assert(accepted_at(replies, query, domains, i).len() == 0);
        }
        lemma_no_results_lists(views);
        assert(interleave(result_lists(views), 0) =~= Seq::<SearchResultV>::empty());
    }
}

/// `x` stands at rank `r` of list `a`.
pub open spec fn placed(lists: Seq<Seq<SearchResultV>>, x: SearchResultV, r: int, a: int) -> bool {
    0 <= a < lists.len() && 0 <= r < lists[a].len() && lists[a][r] == x
}

/// `x` stands before `y` in rank-major order: at a lower rank, or at the
/// same rank in an earlier list.
pub open spec fn ordered_in(lists: Seq<Seq<SearchResultV>>, x: SearchResultV, y: SearchResultV) -> bool {
    exists|r: int, a: int, s: int, b: int|
        #[trigger] placed(lists, x, r, a) && #[trigger] placed(lists, y, s, b) && (r < s || (r == s
            && a < b))
}

proof fn lemma_column_placed(lists: Seq<Seq<SearchResultV>>, k: int, p: int)
    requires
        0 <= k,
        0 <= p < column(lists, k).len(),
    ensures
        exists|a: int| #[trigger] placed(lists, column(lists, k)[p], k, a),
    decreases lists.len(),
{
    let l2 = lists.drop_last();
    let c = column(l2, k);
    if p < c.len() {
        lemma_column_placed(l2, k, p);
        let a = choose|a: int| #[trigger] placed(l2, c[p], k, a);
        assert(l2[a] == lists[a]);
        assert(column(lists, k)[p] == c[p]);
        assert(placed(lists, column(lists, k)[p], k, a));
    } else {
        assert(k < lists.last().len());
        assert(column(lists, k) == c.push(lists.last()[k]));
        assert(placed(lists, column(lists, k)[p], k, lists.len() - 1));
    }
}

proof fn lemma_column_order(lists: Seq<Seq<SearchResultV>>, k: int, p: int, q: int)
    requires
        0 <= k,
        0 <= p < q < column(lists, k).len(),
    ensures
        exists|a: int, b: int|
            #[trigger] placed(lists, column(lists, k)[p], k, a) && #[trigger] placed(
                lists,
                column(lists, k)[q],
                k,
                b,
            ) && a < b,
    decreases lists.len(),
{
    let l2 = lists.drop_last();
    let c = column(l2, k);
    let col = column(lists, k);
    if q < c.len() {
        lemma_column_order(l2, k, p, q);
        let (a, b) = choose|a: int, b: int|
            #[trigger] placed(l2, c[p], k, a) && #[trigger] placed(l2, c[q], k, b) && a < b;
        assert(l2[a] == lists[a]);
        assert(l2[b] == lists[b]);
        assert(col[p] == c[p] && col[q] == c[q]);
        assert(placed(lists, col[p], k, a) && placed(lists, col[q], k, b));
    } else {
        assert(k < lists.last().len());
        assert(col == c.push(lists.last()[k]));
        lemma_column_placed(l2, k, p);
        let a = choose|a: int| #[trigger] placed(l2, c[p], k, a);
        assert(l2[a] == lists[a]);
        assert(col[p] == c[p]);
        assert(placed(lists, col[p], k, a));
        assert(placed(lists, col[q], k, lists.len() - 1));
    }
}

proof fn lemma_interleave_placed(lists: Seq<Seq<SearchResultV>>, n: nat, p: int)
    requires
        0 <= p < interleave(lists, n).len(),
    ensures
        exists|r: int, a: int| r < n && #[trigger] placed(lists, interleave(lists, n)[p], r, a),
    decreases n,
{
    let prev = interleave(lists, (n - 1) as nat);
    if p < prev.len() {
        lemma_interleave_placed(lists, (n - 1) as nat, p);
        let (r, a) = choose|r: int, a: int| r < n - 1 && #[trigger] placed(lists, prev[p], r, a);
        assert(interleave(lists, n)[p] == prev[p]);
        assert(placed(lists, interleave(lists, n)[p], r, a));
    } else {
        lemma_column_placed(lists, n - 1, p - prev.len());
        assert(interleave(lists, n)[p] == column(lists, n - 1)[p - prev.len()]);
        let a = choose|a: int| #[trigger] placed(lists, column(lists, n - 1)[p - prev.len()], n - 1, a);
        assert(placed(lists, interleave(lists, n)[p], n - 1, a));
    }
}

proof fn lemma_interleave_order(lists: Seq<Seq<SearchResultV>>, n: nat, p: int, q: int)
    requires
        0 <= p < q < interleave(lists, n).len(),
    ensures
        ordered_in(lists, interleave(lists, n)[p], interleave(lists, n)[q]),
    decreases n,
{
    let prev = interleave(lists, (n - 1) as nat);
    let col = column(lists, n - 1);
    let all = interleave(lists, n);
    assert(all == prev + col);
    if q < prev.len() {
        lemma_interleave_order(lists, (n - 1) as nat, p, q);
        assert(all[p] == prev[p] && all[q] == prev[q]);
    } else if p < prev.len() {
        lemma_interleave_placed(lists, (n - 1) as nat, p);
        let (r, a) = choose|r: int, a: int| r < n - 1 && #[trigger] placed(lists, prev[p], r, a);
        lemma_column_placed(lists, n - 1, q - prev.len());
        let b = choose|b: int| #[trigger] placed(lists, col[q - prev.len()], n - 1, b);
        assert(all[p] == prev[p] && all[q] == col[q - prev.len()]);
        assert(placed(lists, all[p], r, a) && placed(lists, all[q], n - 1, b));
    } else {
        lemma_column_order(lists, n - 1, p - prev.len(), q - prev.len());
        let (a, b) = choose|a: int, b: int|
            #[trigger] placed(lists, col[p - prev.len()], n - 1, a) && #[trigger] placed(
                lists,
                col[q - prev.len()],
                n - 1,
                b,
            ) && a < b;
        assert(all[p] == col[p - prev.len()] && all[q] == col[q - prev.len()]);
        assert(placed(lists, all[p], n - 1, a) && placed(lists, all[q], n - 1, b));
    }
}

proof fn lemma_dedup_order(rs: Seq<SearchResultV>, i: int, j: int)
    requires
        0 <= i < j < dedup_by_url(rs).len(),
    ensures
        exists|p: int, q: int|
            0 <= p < q < rs.len() && #[trigger] rs[p] == dedup_by_url(rs)[i] && #[trigger] rs[q]
                == dedup_by_url(rs)[j],
    decreases rs.len(),
{
    let p0 = rs.drop_last();
    let d = dedup_by_url(p0);
    if j < d.len() {
        lemma_dedup_order(p0, i, j);
        let (p, q) = choose|p: int, q: int|
            0 <= p < q < p0.len() && #[trigger] p0[p] == d[i] && #[trigger] p0[q] == d[j];
        assert(dedup_by_url(rs)[i] == d[i] && dedup_by_url(rs)[j] == d[j]);
        assert(rs[p] == p0[p] && rs[q] == p0[q]);
    } else {
        assert(dedup_by_url(rs) == d.push(rs.last()));
        lemma_dedup_from(p0, i);
        let p = choose|p: int| 0 <= p < p0.len() && p0[p] == d[i];
        assert(rs[p] == p0[p]);
        assert(rs[rs.len() - 1] == dedup_by_url(rs)[j]);
        assert(dedup_by_url(rs)[i] == d[i]);
    }
}

/// Results come in rank-major order: of two results of a successful
/// fanout, the earlier one stands at a lower rank of its provider's
/// accepted results, or at the same rank of a provider earlier in fanout
/// order.
pub proof fn law_fanout_rank_major(
    replies: Seq<ProviderReplyV>,
    query: Seq<char>,
    limit: nat,
    domains: Seq<Seq<char>>,
)
    ensures
        fanout_outcome(replies, query, limit, domains) matches Ok(o) ==> forall|i: int, j: int|
            0 <= i < j < o.results.len() ==> #[trigger] ordered_in(
                result_lists(views_of(replies, query, domains)),
                o.results[i],
                o.results[j],
            ),
        forall|a: int|
            0 <= a < replies.len() ==> #[trigger] result_lists(views_of(replies, query, domains))[a]
                == accepted_at(replies, query, domains, a),
{
    let views = views_of(replies, query, domains);
    let lists = result_lists(views);
    assert forall|a: int| 0 <= a < replies.len() implies #[trigger] lists[a] == accepted_at(
        replies,
        query,
        domains,
        a,
    ) by {
        assert(views[a] == view_of(replies[a], query, domains));
    }
    if !all_failed(replies) {
        let all = interleave(lists, depth(lists));
        let d = dedup_by_url(all);
        let m = merged(lists, limit);
        assert forall|i: int, j: int| 0 <= i < j < m.len() implies #[trigger] ordered_in(lists, m[i], m[j]) by {
            assert(m[i] == d[i] && m[j] == d[j]);
            lemma_dedup_order(all, i, j);
            let (p, q) = choose|p: int, q: int|
                0 <= p < q < all.len() && #[trigger] all[p] == d[i] && #[trigger] all[q] == d[j];
            lemma_interleave_order(lists, depth(lists), p, q);
        }
    }
}

proof fn lemma_strip_prefix(pre: Seq<char>, rest: Seq<char>)
    requires
        pre.len() > 0,
        !starts_with(rest, pre),
    ensures
        trim_start_str(pre + rest, pre) == rest,
        trim_start_str(rest, pre) == rest,
{
    assert(trim_start_str(rest, pre) == rest);
    assert((pre + rest).take(pre.len() as int) =~= pre);
    assert((pre + rest).skip(pre.len() as int) =~= rest);
    assert(trim_start_str(pre + rest, pre) == trim_start_str(rest, pre));
}

proof fn lemma_slash_no_prefix(p: Seq<char>, pre: Seq<char>)
    requires
        pre.len() >= 2,
        pre.last() != '/' || pre[pre.len() - 2] == '/',
        !starts_with(p, pre),
        p.len() > 0 ==> p.last() != '/',
    ensures
        !starts_with(p + seq!['/'], pre),
{
    let q = p + seq!['/'];
    let n = pre.len() as int;
    if starts_with(q, pre) {
        if p.len() >= n {
            assert(q.take(n) =~= p.take(n));
        } else {
            assert(q.len() == n);
            assert(q.take(n) =~= q);
            assert(q[n - 1] == '/');
            assert(pre[n - 1] == '/');
            assert(q[n - 2] == p.last());
        }
    }
}

/// The dedup key of a page address drops only what does not tell two pages
/// apart: an `https://` or `http://` scheme, a leading `www.` and trailing
/// slashes. Everything else (host, path, query string, fragment) is kept as
/// it stands, so addresses that differ there stay apart.
pub proof fn law_url_key(p: Seq<char>)
    requires
        !starts_with(p, "https://"@),
        !starts_with(p, "http://"@),
        !starts_with(p, "www."@),
        p.len() > 0 ==> p.last() != '/',
    ensures
        trim(p) == p ==> url_key(p) == p,
        trim("https://"@ + p) == "https://"@ + p ==> url_key("https://"@ + p) == p,
        trim("http://"@ + p) == "http://"@ + p ==> url_key("http://"@ + p) == p,
        trim("https://www."@ + p) == "https://www."@ + p ==> url_key("https://www."@ + p) == p,
        trim("https://"@ + p + "/"@) == "https://"@ + p + "/"@ ==> url_key("https://"@ + p + "/"@)
            == p,
{
    reveal_strlit("https://");
    reveal_strlit("http://");
    reveal_strlit("www.");
    reveal_strlit("https://www.");
    reveal_strlit("/");
    let hs = "https://"@;
    let h = "http://"@;
    let w = "www."@;
    assert(trim_end_char(p, '/') == p);
    lemma_strip_prefix(hs, p);
    lemma_strip_prefix(h, p);
    lemma_strip_prefix(w, p);
    // http:// does not start like https://, and www. starts like neither.
    assert(!starts_with(h + p, hs)) by {
        assert((h + p)[4] == ':');
    }
    assert(!starts_with(w + p, hs)) by {
        assert((w + p)[0] == 'w');
    }
    assert(!starts_with(w + p, h)) by {
        assert((w + p)[0] == 'w');
    }
    assert("https://www."@ =~= hs + w);
    assert(hs + p + "/"@ =~= hs + (p + "/"@));
    assert(hs + w + p =~= hs + (w + p));
    lemma_strip_prefix(hs, w + p);
    assert(trim_start_str(h + p, hs) == h + p);
    assert(trim_start_str(w + p, h) == w + p);
    let q = p + "/"@;
    assert("/"@ =~= seq!['/']);
    lemma_slash_no_prefix(p, hs);
    lemma_slash_no_prefix(p, h);
    lemma_slash_no_prefix(p, w);
    lemma_strip_prefix(hs, q);
    lemma_strip_prefix(h, q);
    lemma_strip_prefix(w, q);
    assert(q.drop_last() =~= p);
    assert(trim_end_char(q, '/') == trim_end_char(p, '/'));
}

/// When every provider answered with a rate limit, the fanout fails with
/// the dedicated all-rate-limited error listing every provider and its
/// status, in order: the empty answer is explained by anti-bot pressure.
pub proof fn law_all_rate_limited(
    replies: Seq<ProviderReplyV>,
    query: Seq<char>,
    limit: nat,
    domains: Seq<Seq<char>>,
)
    requires
        forall|i: int| 0 <= i < replies.len() ==> (#[trigger] replies[i]).outcome matches Err(
            ArgosErrorV::RateLimited { .. },
        ),
    ensures
        fanout_outcome(replies, query, limit, domains) matches Err(
            ArgosErrorV::AllProvidersRateLimited { providers },
        ) && providers.len() == replies.len() && forall|i: int|
            0 <= i < replies.len() ==> #[trigger] providers[i] == (
                replies[i].name,
                limit_status(replies[i].outcome),
            ),
{
    lemma_pairs_all(replies);
    assert(all_failed(replies)) by {
        assert forall|i: int| 0 <= i < replies.len() implies (#[trigger] replies[i]).outcome is Err by {
            assert(replies[i].outcome matches Err(ArgosErrorV::RateLimited { .. }));
        }
    }
}

proof fn lemma_first_rate_limited_found(replies: Seq<ProviderReplyV>, k: int)
    requires
        0 <= k < replies.len(),
        replies[k].outcome matches Err(ArgosErrorV::RateLimited { .. }),
    ensures
        first_rate_limited(replies) matches Some(e) && e is RateLimited,
    decreases replies.len(),
{
    if k < replies.len() - 1 {
        lemma_first_rate_limited_found(replies.drop_last(), k);
    } else {
        match first_rate_limited(replies.drop_last()) {
            Some(e) => {
                lemma_first_rate_limited_is(replies.drop_last());
            },
            None => {},
        }
    }
}

proof fn lemma_first_rate_limited_is(replies: Seq<ProviderReplyV>)
    ensures
        first_rate_limited(replies) matches Some(e) ==> e is RateLimited,
    decreases replies.len(),
{
    if replies.len() > 0 {
        lemma_first_rate_limited_is(replies.drop_last());
    }
}

/// When every provider failed for mixed reasons and at least one was rate
/// limited, the fanout reports a rate limit: it explains the failure
/// better than a timeout.
pub proof fn law_rate_limit_preferred(
    replies: Seq<ProviderReplyV>,
    query: Seq<char>,
    limit: nat,
    domains: Seq<Seq<char>>,
    k: int,
)
    requires
        all_failed(replies),
        0 <= k < replies.len(),
        replies[k].outcome matches Err(ArgosErrorV::RateLimited { .. }),
    ensures
        fanout_outcome(replies, query, limit, domains) matches Err(e) && (e is RateLimited
            || e is AllProvidersRateLimited),
{
    lemma_first_rate_limited_found(replies, k);
}

proof fn lemma_no_results_lists(views: Seq<ProviderViewV>)
    requires
        forall|i: int| 0 <= i < views.len() ==> (#[trigger] views[i]).results.len() == 0,
    ensures
        depth(result_lists(views)) == 0,
    decreases views.len(),
{
    if views.len() > 0 {
        let p = views.drop_last();
        assert forall|i: int| 0 <= i < p.len() implies (#[trigger] p[i]).results.len() == 0 by {
            assert(p[i] == views[i]);
        }
        lemma_no_results_lists(p);
        assert(result_lists(views).drop_last() =~= result_lists(p));
    }
}

proof fn lemma_totals_zero(views: Seq<ProviderViewV>)
    requires
        forall|i: int| 0 <= i < views.len() ==> (#[trigger] views[i]).returned == 0 && views[i].rejected
            == 0,
    ensures
        total_returned(views) == 0,
        total_rejected(views) == 0,
    decreases views.len(),
{
    if views.len() > 0 {
        let p = views.drop_last();
        assert forall|i: int| 0 <= i < p.len() implies (#[trigger] p[i]).returned == 0
            && p[i].rejected == 0 by {
            assert(p[i] == views[i]);
        }
        lemma_totals_zero(p);
    }
}

/// When the providers answered but none returned anything, the fanout
/// fails with "no usable results" (nothing returned, nothing rejected)
/// instead of reporting an empty success.
pub proof fn law_empty_is_not_success(
    replies: Seq<ProviderReplyV>,
    query: Seq<char>,
    limit: nat,
    domains: Seq<Seq<char>>,
)
    requires
        replies.len() > 0,
        forall|i: int|
            0 <= i < replies.len() ==> (#[trigger] replies[i]).outcome == Ok::<
                Seq<SearchResultV>,
                ArgosErrorV,
            >(Seq::<SearchResultV>::empty()),
    ensures
        fanout_outcome(replies, query, limit, domains) == Err::<SearchOutcomeV, ArgosErrorV>(
            ArgosErrorV::NoUsableResults { returned: 0, rejected: 0 },
        ),
{
    assert(!all_failed(replies)) by {
        assert(replies[0].outcome is Ok);
    }
    let views = views_of(replies, query, domains);
    assert forall|i: int| 0 <= i < views.len() implies (#[trigger] views[i]).results.len() == 0
        && views[i].returned == 0 && views[i].rejected == 0 by {
        assert(views[i] == view_of(replies[i], query, domains));
        match replies[i].outcome {
            Ok(rs) => {
                assert(rs.len() == 0);
                assert(accepted_of(rs, query, domains) =~= Seq::<SearchResultV>::empty());
            },
            Err(_) => {},
        }
    }
    lemma_no_results_lists(views);
    lemma_totals_zero(views);
    assert(interleave(result_lists(views), 0) =~= Seq::<SearchResultV>::empty());
}

} // verus!
