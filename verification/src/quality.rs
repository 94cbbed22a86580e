//! Quality gates for provider results: validated domain scope and query relevance.
//!
//! Upstream search pages are not a contract. These checks are deliberately
//! conservative: they remove obvious scope leaks and results with no
//! meaningful query term, and the fanout reports what was removed.

use vstd::prelude::*;
use crate::error::{ArgosError, ArgosErrorV};
use crate::text::{
    chars_list_contains, chars_view,
    ascii_alphanumeric, chars_eq, chars_of, contains, contains_chars, debug_rendering,
    debug_string, ends_with, extend_chars, is_alphanumeric, lower, str_is, string_of, to_lower,
    trim, trim_chars, trim_end_char, trim_end_char_chars, unicode_alphanumeric, is_upper_ascii,
    lower_char,
};
use crate::types::{SearchResult, SearchResultV, opt_view, strings_view};
use crate::web::{parse_url_host, url_host};

verus! {

/// At most this many domains may scope one search.
pub const MAX_DOMAINS: usize = 8;

/// Query words shorter than this do not count as terms.
pub const MIN_TERM_CHARS: usize = 2;

// ---------------------------------------------------------------------------
// Domain allowlists
// ---------------------------------------------------------------------------

/// A raw domain value, trimmed, without trailing dots, ASCII-lowercased.
pub open spec fn domain_key(v: Seq<char>) -> Seq<char> {
    lower(trim_end_char(trim(v), '.'))
}

pub open spec fn domain_char(c: char) -> bool {
    ascii_alphanumeric(c) || c == '-' || c == '.'
}

/// A hostname suffix: dotted, no empty label at either end or inside, and
/// made of ASCII letters, digits, `-` and `.` only.
pub open spec fn valid_domain(d: Seq<char>) -> bool {
    &&& d.len() > 0
    &&& d.contains('.')
    &&& d[0] != '.'
    &&& d.last() != '.'
    &&& !contains(d, seq!['.', '.'])
    &&& forall|i: int| 0 <= i < d.len() ==> domain_char(#[trigger] d[i])
}

/// The allowlist that `raw` normalizes to, or the first offending raw value.
pub open spec fn normalized_domains(raw: Seq<Seq<char>>) -> Result<Seq<Seq<char>>, Seq<char>>
    decreases raw.len(),
{
    if raw.len() == 0 {
        Ok(Seq::<Seq<char>>::empty())
    } else {
        match normalized_domains(raw.drop_last()) {
            Err(v) => Err(v),
            Ok(acc) => {
                let d = domain_key(raw.last());
                if !valid_domain(d) {
                    Err(raw.last())
                } else if acc.contains(d) {
                    Ok(acc)
                } else {
                    Ok(acc.push(d))
                }
            },
        }
    }
}

pub open spec fn too_many_domains_message() -> Seq<char> {
    "domains accepts at most 8 entries"@
}

pub open spec fn invalid_domain_message(v: Seq<char>) -> Seq<char> {
    "invalid domain scope: "@ + debug_rendering(v) + "; pass a hostname such as kvrforums.com"@
}

/// What `normalize_domains` answers.
pub open spec fn domains_outcome(raw: Option<Seq<Seq<char>>>) -> Result<
    Seq<Seq<char>>,
    ArgosErrorV,
> {
    match raw {
        None => Ok(Seq::<Seq<char>>::empty()),
        Some(raw) => if raw.len() > MAX_DOMAINS {
            Err(ArgosErrorV::InvalidQuery(too_many_domains_message()))
        } else {
            match normalized_domains(raw) {
                Ok(d) => Ok(d),
                Err(v) => Err(ArgosErrorV::InvalidQuery(invalid_domain_message(v))),
            }
        },
    }
}

pub open spec fn domains_result_view(r: Result<Vec<String>, ArgosError>) -> Result<
    Seq<Seq<char>>,
    ArgosErrorV,
> {
    match r {
        Ok(v) => Ok(strings_view(v@)),
        Err(e) => Err(e@),
    }
}

pub open spec fn opt_strings_view(raw: Option<&[String]>) -> Option<Seq<Seq<char>>> {
    match raw {
        Some(v) => Some(strings_view(v@)),
        None => None,
    }
}

fn is_domain_char(c: char) -> (r: bool)
    ensures
        r == domain_char(c),
{
    let u = c as u32;
    (97 <= u && u <= 122) || (65 <= u && u <= 90) || (48 <= u && u <= 57) || c == '-' || c
        == '.'
}

fn valid_domain_exec(d: &Vec<char>) -> (r: bool)
    ensures
        r == valid_domain(d@),
{
    if d.len() == 0 {
        return false;
    }
    let mut has_dot = false;
    let mut i: usize = 0;
    while i < d.len()
        invariant
            i <= d.len(),
            has_dot == exists|k: int| 0 <= k < i && d@[k] == '.',
            forall|k: int| 0 <= k < i ==> domain_char(#[trigger] d@[k]),
        decreases d.len() - i,
    {
        if !is_domain_char(d[i]) {
            return false;
        }
        if d[i] == '.' {
            has_dot = true;
        }
        i = i + 1;
    }
    if !has_dot {
        assert(!d@.contains('.'));
        return false;
    }
    proof {
        let k = choose|k: int| 0 <= k < d.len() && d@[k] == '.';
        assert(d@.contains('.')) by {
            assert(d@[k] == '.');
        }
    }
    if d[0] == '.' || d[d.len() - 1] == '.' {
        return false;
    }
    let mut dd: Vec<char> = Vec::new();
    dd.push('.');
    dd.push('.');
    assert(dd@ =~= seq!['.', '.']);
    !contains_chars(d, &dd)
}

/// Validate and normalize an optional domain allowlist.
///
/// Domains are host suffixes, not arbitrary query fragments: query syntax is
/// rejected here so that `domains` cannot inject operators into the
/// `site:` hints built from them.
pub fn normalize_domains(raw: Option<&[String]>) -> (r: Result<Vec<String>, ArgosError>)
    ensures
        domains_result_view(r) == domains_outcome(opt_strings_view(raw)),
{
    let values = match raw {
        None => {
            let v: Vec<String> = Vec::new();
            assert(strings_view(v@) =~= Seq::<Seq<char>>::empty());
            return Ok(v);
        },
        Some(values) => values,
    };
    if values.len() > MAX_DOMAINS {
        return Err(ArgosError::InvalidQuery(String::from_str("domains accepts at most 8 entries")));
    }
    let ghost rv = strings_view(values@);
    let mut out: Vec<String> = Vec::new();
    let mut seen: Vec<Vec<char>> = Vec::new();
    let mut i: usize = 0;
    assert(rv.take(0) =~= Seq::<Seq<char>>::empty());
    assert(strings_view(out@) =~= Seq::<Seq<char>>::empty());
    assert(chars_view(seen@) =~= Seq::<Seq<char>>::empty());
    while i < values.len()
        invariant
            i <= values.len(),
            values.len() <= MAX_DOMAINS,
            raw == Some(values),
            rv == strings_view(values@),
            normalized_domains(rv.take(i as int)) == Ok::<Seq<Seq<char>>, Seq<char>>(
                strings_view(out@),
            ),
            strings_view(out@) == chars_view(seen@),
        decreases values.len() - i,
    {
        let value = &values[i];
        let cs = chars_of(value.as_str());
        let t = trim_chars(&cs);
        let u = trim_end_char_chars(&t, '.');
        let d = to_lower(&u);
        proof {
            assert(rv.take(i + 1).drop_last() =~= rv.take(i as int));
            assert(rv.take(i + 1).last() == value@);
            assert(rv[i as int] == value@);
        }
        if !valid_domain_exec(&d) {
            let mut msg = String::from_str("invalid domain scope: ");
            let dbg = debug_string(value.as_str());
            msg.append(dbg.as_str());
            msg.append("; pass a hostname such as kvrforums.com");
            proof {
                assert(normalized_domains(rv.take(i + 1)) == Err::<Seq<Seq<char>>, Seq<char>>(
                    value@,
                ));
                lemma_normalized_err_sticks(rv, (i + 1) as int);
            }
            return Err(ArgosError::InvalidQuery(msg));
        }
        let ghost old_out = out@;
        let ghost old_seen = seen@;
        if !chars_list_contains(&seen, &d) {
            let s = string_of(d.as_slice());
            out.push(s);
            seen.push(d);
            proof {
                assert(strings_view(out@) =~= strings_view(old_out).push(d@));
                assert(chars_view(seen@) =~= chars_view(old_seen).push(d@));
            }
        }
        i = i + 1;
    }
    assert(rv.take(values.len() as int) =~= rv);
    Ok(out)
}

/// Once a prefix of the raw values fails, every longer prefix fails with the same value.
proof fn lemma_normalized_err_sticks(raw: Seq<Seq<char>>, k: int)
    requires
        0 <= k <= raw.len(),
        normalized_domains(raw.take(k)) is Err,
    ensures
        normalized_domains(raw) == normalized_domains(raw.take(k)),
    decreases raw.len() - k,
{
    if k < raw.len() {
        assert(raw.take(k + 1).drop_last() =~= raw.take(k));
        lemma_normalized_err_sticks(raw, k + 1);
    } else {
        assert(raw.take(k) =~= raw);
    }
}

/// Every normalized domain is a valid hostname suffix, and none repeats.
pub proof fn law_normalized_domains_clean(raw: Seq<Seq<char>>)
    ensures
        normalized_domains(raw) matches Ok(d) ==> {
            &&& forall|i: int| 0 <= i < d.len() ==> valid_domain(#[trigger] d[i])
            &&& forall|i: int, j: int| 0 <= i < j < d.len() ==> d[i] != d[j]
        },
    decreases raw.len(),
{
    if raw.len() > 0 {
        law_normalized_domains_clean(raw.drop_last());
        if let Ok(acc) = normalized_domains(raw.drop_last()) {
            let d = domain_key(raw.last());
            if valid_domain(d) && !acc.contains(d) {
                let r = acc.push(d);
                assert forall|i: int, j: int| 0 <= i < j < r.len() implies r[i] != r[j] by {
                    if j == acc.len() {
                        assert(acc[i] == r[i]);
                    }
                }
            }
        }
    }
}

/// Lowercasing twice is lowercasing once.
proof fn lemma_lower_idempotent(s: Seq<char>)
    ensures
        lower(lower(s)) == lower(s),
{
    assert forall|i: int| 0 <= i < s.len() implies lower_char(lower_char(s[i])) == lower_char(s[i]) by {
        let c = s[i];
        if is_upper_ascii(c) {
            assert(((c as u32) + 32) as char as u32 == (c as u32) + 32);
        }
    }
    assert(lower(lower(s)) =~= lower(s));
}

proof fn lemma_normalized_refused(raw: Seq<Seq<char>>)
    ensures
        normalized_domains(raw) is Err <==> exists|i: int|
            0 <= i < raw.len() && !valid_domain(domain_key(#[trigger] raw[i])),
    decreases raw.len(),
{
    if raw.len() > 0 {
        let p = raw.drop_last();
        lemma_normalized_refused(p);
        if exists|i: int| 0 <= i < p.len() && !valid_domain(domain_key(#[trigger] p[i])) {
            let i = choose|i: int| 0 <= i < p.len() && !valid_domain(domain_key(#[trigger] p[i]));
            assert(raw[i] == p[i]);
        }
        if exists|i: int| 0 <= i < raw.len() && !valid_domain(domain_key(#[trigger] raw[i])) {
            let i = choose|i: int| 0 <= i < raw.len() && !valid_domain(domain_key(#[trigger] raw[i]));
            if i < p.len() {
                assert(p[i] == raw[i]);
            }
        }
        assert(raw[raw.len() - 1] == raw.last());
    }
}

/// A domain allowlist is refused exactly when it has more than
/// [`MAX_DOMAINS`] entries or one of them is no hostname suffix.
pub proof fn law_domains_refused(raw: Seq<Seq<char>>)
    ensures
        domains_outcome(Some(raw)) is Err <==> (raw.len() > MAX_DOMAINS || exists|i: int|
            0 <= i < raw.len() && !valid_domain(domain_key(#[trigger] raw[i]))),
{
    lemma_normalized_refused(raw);
}

/// `x` is the normalized form of one of the given values.
pub open spec fn key_of_some(raw: Seq<Seq<char>>, x: Seq<char>) -> bool {
    exists|j: int| 0 <= j < raw.len() && #[trigger] domain_key(raw[j]) == x
}

proof fn lemma_normalized_shape(raw: Seq<Seq<char>>)
    ensures
        normalized_domains(raw) matches Ok(d) ==> {
            &&& d.len() <= raw.len()
            &&& forall|i: int| 0 <= i < d.len() ==> lower(#[trigger] d[i]) == d[i]
            &&& forall|i: int| 0 <= i < d.len() ==> #[trigger] key_of_some(raw, d[i])
        },
    decreases raw.len(),
{
    if raw.len() > 0 {
        let p = raw.drop_last();
        lemma_normalized_shape(p);
        if let Ok(acc) = normalized_domains(p) {
            let k = domain_key(raw.last());
            lemma_lower_idempotent(trim_end_char(trim(raw.last()), '.'));
            if let Ok(d) = normalized_domains(raw) {
                assert forall|i: int| 0 <= i < d.len() implies lower(#[trigger] d[i]) == d[i]
                    && key_of_some(raw, d[i]) by {
                    if i < acc.len() {
                        assert(d[i] == acc[i]);
                        assert(key_of_some(p, acc[i]));
                        assert(lower(acc[i]) == acc[i]);
                        let j = choose|j: int| 0 <= j < p.len() && #[trigger] domain_key(p[j]) == acc[i];
                        assert(raw[j] == p[j]);
                        assert(domain_key(raw[j]) == d[i]);
                    } else {
                        assert(d[i] == k);
                        assert(raw[raw.len() - 1] == raw.last());
                        assert(domain_key(raw[raw.len() - 1]) == d[i]);
                    }
                }
            }
        }
    }
}

proof fn lemma_key_fixed(x: Seq<char>)
    requires
        valid_domain(x),
        lower(x) == x,
        trim(x) == x,
    ensures
        domain_key(x) == x,
{
    assert(trim_end_char(x, '.') == x);
}

proof fn lemma_normalized_fixed(d: Seq<Seq<char>>, n: int)
    requires
        0 <= n <= d.len(),
        forall|i: int| 0 <= i < d.len() ==> domain_key(#[trigger] d[i]) == d[i] && valid_domain(d[i]),
        forall|i: int, j: int| 0 <= i < j < d.len() ==> d[i] != d[j],
    ensures
        normalized_domains(d.take(n)) == Ok::<Seq<Seq<char>>, Seq<char>>(d.take(n)),
    decreases n,
{
    if n > 0 {
        lemma_normalized_fixed(d, n - 1);
        let t = d.take(n);
        assert(t.drop_last() =~= d.take(n - 1));
        assert(t.last() == d[n - 1]);
        assert(domain_key(d[n - 1]) == d[n - 1]);
        assert(!d.take(n - 1).contains(d[n - 1])) by {
            if d.take(n - 1).contains(d[n - 1]) {
                let j = choose|j: int| 0 <= j < n - 1 && #[trigger] d.take(n - 1)[j] == d[n - 1];
                assert(d[j] == d.take(n - 1)[j]);
            }
        }
        assert(d.take(n - 1).push(d[n - 1]) =~= t);
    } else {
        assert(d.take(0) =~= Seq::<Seq<char>>::empty());
    }
}

/// A normalized allowlist is no longer than what was given (so at most
/// [`MAX_DOMAINS`]), holds lowercase hostname suffixes, each once, each the
/// normalized form of a given value; and normalizing it again gives it back
/// (where `str::trim` leaves its entries as they are, which it does for the
/// ASCII characters a hostname is made of).
pub proof fn law_domains_normalized(raw: Seq<Seq<char>>)
    ensures
        domains_outcome(Some(raw)) matches Ok(d) ==> {
            &&& d.len() <= raw.len() <= MAX_DOMAINS
            &&& forall|i: int| 0 <= i < d.len() ==> valid_domain(#[trigger] d[i]) && lower(d[i]) == d[i]
            &&& forall|i: int, j: int| 0 <= i < j < d.len() ==> d[i] != d[j]
            &&& forall|i: int| 0 <= i < d.len() ==> #[trigger] key_of_some(raw, d[i])
            &&& (forall|i: int| 0 <= i < d.len() ==> trim(#[trigger] d[i]) == d[i])
                ==> domains_outcome(Some(d)) == Ok::<Seq<Seq<char>>, ArgosErrorV>(d)
        },
{
    law_normalized_domains_clean(raw);
    lemma_normalized_shape(raw);
    if let Ok(d) = domains_outcome(Some(raw)) {
        if forall|i: int| 0 <= i < d.len() ==> trim(#[trigger] d[i]) == d[i] {
            assert forall|i: int| 0 <= i < d.len() implies domain_key(#[trigger] d[i]) == d[i]
                && valid_domain(d[i]) by {
                lemma_key_fixed(d[i]);
            }
            lemma_normalized_fixed(d, d.len() as int);
            assert(d.take(d.len() as int) =~= d);
        }
    }
}

// ---------------------------------------------------------------------------
// Scoped queries
// ---------------------------------------------------------------------------

/// `site:d1 OR site:d2 ...`
pub open spec fn site_operators(domains: Seq<Seq<char>>) -> Seq<char>
    decreases domains.len(),
{
    if domains.len() == 0 {
        Seq::<char>::empty()
    } else if domains.len() == 1 {
        "site:"@ + domains[0]
    } else {
        site_operators(domains.drop_last()) + " OR site:"@ + domains.last()
    }
}

/// The query with `site:` operators appended for providers that understand them.
pub open spec fn scoped(query: Seq<char>, domains: Seq<Seq<char>>) -> Seq<char> {
    if domains.len() == 0 {
        query
    } else {
        query + " ("@ + site_operators(domains) + ")"@
    }
}

/// Append validated `site:` operators for providers that understand them.
pub fn scoped_query(query: &str, domains: &[String]) -> (r: String)
    ensures
        r@ == scoped(query@, strings_view(domains@)),
{
    let ghost dv = strings_view(domains@);
    if domains.len() == 0 {
        return String::from_str(query);
    }
    let mut sites = String::from_str("site:");
    sites.append(domains[0].as_str());
    let mut i: usize = 1;
    assert(dv.take(1).drop_last() =~= Seq::<Seq<char>>::empty());
    assert(sites@ == site_operators(dv.take(1)));
    while i < domains.len()
        invariant
            1 <= i <= domains.len(),
            dv == strings_view(domains@),
            sites@ == site_operators(dv.take(i as int)),
        decreases domains.len() - i,
    {
        sites.append(" OR site:");
        sites.append(domains[i].as_str());
        assert(dv.take(i + 1).drop_last() =~= dv.take(i as int));
        i = i + 1;
    }
    assert(dv.take(domains.len() as int) =~= dv);
    let mut r = String::from_str(query);
    r.append(" (");
    r.append(sites.as_str());
    r.append(")");
    r
}

// ---------------------------------------------------------------------------
// Domain scope
// ---------------------------------------------------------------------------

/// The lowercase host of a URL, when it has one.
pub open spec fn host_of(url: Seq<char>) -> Option<Seq<char>> {
    match url_host(url) {
        Some(h) => Some(lower(h)),
        None => None,
    }
}

/// `host` is `domain` or a subdomain of it.
pub open spec fn host_in_domain(host: Seq<char>, domain: Seq<char>) -> bool {
    host == domain || (host.len() > domain.len() && ends_with(host, domain) && host[host.len()
        - domain.len() - 1] == '.')
}

/// Whether a URL lies inside the allowlist (an empty allowlist admits everything).
pub open spec fn in_scope(url: Seq<char>, domains: Seq<Seq<char>>) -> bool {
    if domains.len() == 0 {
        true
    } else {
        match host_of(url) {
            None => false,
            Some(h) => exists|i: int| 0 <= i < domains.len() && host_in_domain(h, #[trigger] domains[i]),
        }
    }
}

/// The lowercase host of a URL.
pub fn host_for(url: &str) -> (r: Option<Vec<char>>)
    ensures
        match r {
            Some(h) => host_of(url@) == Some(h@),
            None => host_of(url@) is None,
        },
{
    match parse_url_host(url) {
        Some(h) => {
            let cs = chars_of(h.as_str());
            Some(to_lower(&cs))
        },
        None => None,
    }
}

fn host_in_domain_exec(host: &Vec<char>, domain: &Vec<char>) -> (r: bool)
    ensures
        r == host_in_domain(host@, domain@),
{
    if chars_eq(host, domain) {
        return true;
    }
    if host.len() > domain.len() && crate::text::ends_with_chars(host, domain) {
        host[host.len() - domain.len() - 1] == '.'
    } else {
        false
    }
}

/// Whether a result URL belongs to one of the requested host suffixes.
pub fn matches_domains(url: &str, domains: &[String]) -> (r: bool)
    ensures
        r == in_scope(url@, strings_view(domains@)),
{
    let ghost dv = strings_view(domains@);
    if domains.len() == 0 {
        return true;
    }
    let host = match host_for(url) {
        Some(h) => h,
        None => return false,
    };
    let mut i: usize = 0;
    while i < domains.len()
        invariant
            i <= domains.len(),
            dv == strings_view(domains@),
            host_of(url@) == Some(host@),
            forall|k: int| 0 <= k < i ==> !host_in_domain(host@, #[trigger] dv[k]),
        decreases domains.len() - i,
    {
        let d = chars_of(domains[i].as_str());
        assert(dv[i as int] == domains@[i as int]@);
        if host_in_domain_exec(&host, &d) {
            assert(host_in_domain(host@, dv[i as int]));
            assert(host_of(url@) == Some(host@));
            assert(exists|k: int| 0 <= k < dv.len() && host_in_domain(host@, #[trigger] dv[k]));
            return true;
        }
        i = i + 1;
    }
    false
}

// ---------------------------------------------------------------------------
// Relevance
// ---------------------------------------------------------------------------

/// The maximal runs of alphanumeric characters of `s`, in order: the
/// non-empty pieces of `s` split at every non-alphanumeric character.
pub open spec fn alnum_runs(s: Seq<char>) -> Seq<Seq<char>>
    decreases s.len(),
{
    if s.len() == 0 {
        Seq::<Seq<char>>::empty()
    } else {
        let r = alnum_runs(s.drop_last());
        let c = s.last();
        if !unicode_alphanumeric(c) {
            r
        } else if s.len() >= 2 && unicode_alphanumeric(s[s.len() - 2]) {
            r.update(r.len() - 1, r.last().push(c))
        } else {
            r.push(seq![c])
        }
    }
}

/// Words that never count as meaningful query terms on their own.
pub open spec fn is_generic(t: Seq<char>) -> bool {
    t == "a"@ || t == "an"@ || t == "and"@ || t == "are"@ || t == "as"@ || t == "at"@ || t
        == "be"@ || t == "best"@ || t == "by"@ || t == "for"@ || t == "free"@ || t == "from"@
        || t == "how"@ || t == "in"@ || t == "into"@ || t == "is"@ || t == "it"@ || t == "of"@
        || t == "on"@ || t == "or"@ || t == "review"@ || t == "the"@ || t == "to"@ || t
        == "top"@ || t == "tutorial"@ || t == "with"@
}

/// The meaningful terms among the given words: long enough, lowercased,
/// not generic, each kept once in first-occurrence order.
pub open spec fn terms_of(words: Seq<Seq<char>>) -> Seq<Seq<char>>
    decreases words.len(),
{
    if words.len() == 0 {
        Seq::<Seq<char>>::empty()
    } else {
        terms_step(terms_of(words.drop_last()), words.last())
    }
}

/// One word added to the terms found so far.
pub open spec fn terms_step(acc: Seq<Seq<char>>, word: Seq<char>) -> Seq<Seq<char>> {
    let t = lower(word);
    if word.len() >= MIN_TERM_CHARS && !is_generic(t) && !acc.contains(t) {
        acc.push(t)
    } else {
        acc
    }
}

/// The meaningful terms of a query.
pub open spec fn meaningful(query: Seq<char>) -> Seq<Seq<char>> {
    terms_of(alnum_runs(query))
}

/// The text a result is searched in: title, snippet and URL, lowercased.
pub open spec fn haystack(r: SearchResultV) -> Seq<char> {
    lower(r.title + " "@ + r.snippet + " "@ + r.url)
}

/// How many of `terms` occur in `hay`.
pub open spec fn count_contained(terms: Seq<Seq<char>>, hay: Seq<char>) -> nat
    decreases terms.len(),
{
    if terms.len() == 0 {
        0
    } else {
        count_contained(terms.drop_last(), hay) + if contains(hay, terms.last()) {
            1nat
        } else {
            0nat
        }
    }
}

/// A result is relevant when the query has no meaningful term, or when it
/// contains at least one of them (two, for queries with three or more).
pub open spec fn relevant(query: Seq<char>, r: SearchResultV) -> bool {
    let terms = meaningful(query);
    terms.len() == 0 || count_contained(terms, haystack(r)) >= if terms.len() >= 3 {
        2nat
    } else {
        1nat
    }
}

fn is_generic_exec(t: &Vec<char>) -> (r: bool)
    ensures
        r == is_generic(t@),
{
    str_is(t, "a") || str_is(t, "an") || str_is(t, "and") || str_is(t, "are") || str_is(t, "as")
        || str_is(t, "at") || str_is(t, "be") || str_is(t, "best") || str_is(t, "by") || str_is(
        t,
        "for",
    ) || str_is(t, "free") || str_is(t, "from") || str_is(t, "how") || str_is(t, "in")
        || str_is(t, "into") || str_is(t, "is") || str_is(t, "it") || str_is(t, "of") || str_is(
        t,
        "on",
    ) || str_is(t, "or") || str_is(t, "review") || str_is(t, "the") || str_is(t, "to")
        || str_is(t, "top") || str_is(t, "tutorial") || str_is(t, "with")
}

/// Add a finished word to the terms found so far.
fn take_word(acc: &mut Vec<Vec<char>>, word: &Vec<char>)
    ensures
        chars_view(final(acc)@) == terms_step(chars_view(old(acc)@), word@),
{
    if word.len() < MIN_TERM_CHARS {
        return;
    }
    let t = to_lower(word);
    if is_generic_exec(&t) {
        return;
    }
    if chars_list_contains(acc, &t) {
        return;
    }
    acc.push(t);
    assert(chars_view(acc@) =~= chars_view(old(acc)@).push(t@));
}

proof fn lemma_runs_nonempty(s: Seq<char>)
    requires
        s.len() > 0,
        unicode_alphanumeric(s.last()),
    ensures
        alnum_runs(s).len() > 0,
        alnum_runs(s).last().len() > 0,
    decreases s.len(),
{
    if s.len() >= 2 && unicode_alphanumeric(s[s.len() - 2]) {
        assert(s.drop_last().last() == s[s.len() - 2]);
        lemma_runs_nonempty(s.drop_last());
    }
}

proof fn lemma_terms_push(words: Seq<Seq<char>>, w: Seq<char>)
    ensures
        terms_of(words.push(w)) == terms_step(terms_of(words), w),
{
    assert(words.push(w).drop_last() =~= words);
}

/// The meaningful terms of a query: its alphanumeric words of at least
/// [`MIN_TERM_CHARS`] characters, lowercased, without generic words, each once.
pub fn meaningful_terms(query: &str) -> (r: Vec<String>)
    ensures
        strings_view(r@) == meaningful(query@),
{
    let v = meaningful_term_chars(query);
    let mut r: Vec<String> = Vec::new();
    let mut i: usize = 0;
    while i < v.len()
        invariant
            i <= v.len(),
            strings_view(r@) == chars_view(v@).take(i as int),
        decreases v.len() - i,
    {
        let ghost old_r = r@;
        r.push(string_of(v[i].as_slice()));
        assert(strings_view(r@) =~= strings_view(old_r).push(v@[i as int]@));
        i = i + 1;
        assert(strings_view(r@) =~= chars_view(v@).take(i as int));
    }
    assert(chars_view(v@).take(v.len() as int) =~= chars_view(v@));
    r
}

fn meaningful_term_chars(query: &str) -> (r: Vec<Vec<char>>)
    ensures
        chars_view(r@) == meaningful(query@),
{
    let s = chars_of(query);
    let mut acc: Vec<Vec<char>> = Vec::new();
    let mut cur: Vec<char> = Vec::new();
    let mut i: usize = 0;
    assert(s@.take(0) =~= Seq::<char>::empty());
    assert(chars_view(acc@) =~= Seq::<Seq<char>>::empty());
    while i < s.len()
        invariant
            i <= s.len(),
            s@ == query@,
            (i > 0 && unicode_alphanumeric(s@[i - 1])) <==> cur.len() > 0,
            cur.len() > 0 ==> {
                &&& alnum_runs(s@.take(i as int)).len() > 0
                &&& alnum_runs(s@.take(i as int)).last() == cur@
                &&& chars_view(acc@) == terms_of(alnum_runs(s@.take(i as int)).drop_last())
            },
            cur.len() == 0 ==> chars_view(acc@) == terms_of(alnum_runs(s@.take(i as int))),
        decreases s.len() - i,
    {
        let c = s[i];
        let ghost pre = s@.take(i as int);
        let ghost runs = alnum_runs(pre);
        proof {
            assert(s@.take(i + 1).drop_last() =~= pre);
            assert(s@.take(i + 1).last() == c);
            if i > 0 {
                assert(s@.take(i + 1)[i - 1] == s@[i - 1]);
            }
        }
        if is_alphanumeric(c) {
            if cur.len() > 0 {
                cur.push(c);
                proof {
                    let nr = alnum_runs(s@.take(i + 1));
                    assert(nr == runs.update(runs.len() - 1, runs.last().push(c)));
                    assert(nr.drop_last() =~= runs.drop_last());
                }
            } else {
                cur.push(c);
                proof {
                    let nr = alnum_runs(s@.take(i + 1));
                    assert(nr == runs.push(seq![c]));
                    assert(nr.drop_last() =~= runs);
                    assert(cur@ =~= seq![c]);
                }
            }
        } else {
            if cur.len() > 0 {
                let ghost before = chars_view(acc@);
                take_word(&mut acc, &cur);
                proof {
                    assert(runs =~= runs.drop_last().push(runs.last()));
                    lemma_terms_push(runs.drop_last(), runs.last());
                }
                cur = Vec::new();
            }
        }
        i = i + 1;
    }
    assert(s@.take(s.len() as int) =~= s@);
    if cur.len() > 0 {
        let ghost runs = alnum_runs(s@);
        take_word(&mut acc, &cur);
        proof {
            assert(runs =~= runs.drop_last().push(runs.last()));
            lemma_terms_push(runs.drop_last(), runs.last());
        }
    }
    acc
}

proof fn lemma_count_push(terms: Seq<Seq<char>>, t: Seq<char>, hay: Seq<char>)
    ensures
        count_contained(terms.push(t), hay) == count_contained(terms, hay) + if contains(hay, t) {
            1nat
        } else {
            0nat
        },
{
    assert(terms.push(t).drop_last() =~= terms);
}

/// Conservative lexical relevance gate for a normalized result.
///
/// A result is rejected only when it contains none of the query's
/// meaningful terms; queries with three or more terms need two matches.
pub fn is_relevant(query: &str, result: &SearchResult) -> (r: bool)
    ensures
        r == relevant(query@, result@),
{
    let terms = meaningful_term_chars(query);
    if terms.len() == 0 {
        return true;
    }
    let mut hay_raw = chars_of(result.title.as_str());
    hay_raw.push(' ');
    let sn = chars_of(result.snippet.as_str());
    extend_chars(&mut hay_raw, &sn);
    hay_raw.push(' ');
    let u = chars_of(result.url.as_str());
    extend_chars(&mut hay_raw, &u);
    assert(hay_raw@ =~= result.title@ + " "@ + result.snippet@ + " "@ + result.url@) by {
        reveal_strlit(" ");
    }
    let hay = to_lower(&hay_raw);
    let ghost tv = chars_view(terms@);
    let mut matches: usize = 0;
    let mut i: usize = 0;
    while i < terms.len()
        invariant
            i <= terms.len(),
            tv == chars_view(terms@),
            matches == count_contained(tv.take(i as int), hay@),
            matches <= i,
        decreases terms.len() - i,
    {
        proof {
            assert(tv.take(i + 1) =~= tv.take(i as int).push(tv[i as int]));
            lemma_count_push(tv.take(i as int), tv[i as int], hay@);
        }
        if contains_chars(&hay, &terms[i]) {
            matches = matches + 1;
        }
        i = i + 1;
    }
    assert(tv.take(terms.len() as int) =~= tv);
    let minimum: usize = if terms.len() >= 3 {
        2
    } else {
        1
    };
    matches >= minimum
}


/// `x` is one of the query's alphanumeric words, lowercased.
pub open spec fn word_of(query: Seq<char>, x: Seq<char>) -> bool {
    exists|j: int| 0 <= j < alnum_runs(query).len() && #[trigger] lower(alnum_runs(query)[j]) == x
}

proof fn lemma_terms_of(words: Seq<Seq<char>>)
    ensures
        forall|i: int, j: int| 0 <= i < j < terms_of(words).len() ==> terms_of(words)[i] != terms_of(words)[j],
        forall|i: int|
            0 <= i < terms_of(words).len() ==> {
                &&& (#[trigger] terms_of(words)[i]).len() >= MIN_TERM_CHARS
                &&& lower(terms_of(words)[i]) == terms_of(words)[i]
                &&& !is_generic(terms_of(words)[i])
                &&& exists|j: int| 0 <= j < words.len() && #[trigger] lower(words[j]) == terms_of(words)[i]
            },
    decreases words.len(),
{
    if words.len() > 0 {
        let p = words.drop_last();
        lemma_terms_of(p);
        let acc = terms_of(p);
        let w = words.last();
        let t = terms_of(words);
        lemma_lower_idempotent(w);
        assert forall|i: int| 0 <= i < t.len() implies {
            &&& (#[trigger] t[i]).len() >= MIN_TERM_CHARS
            &&& lower(t[i]) == t[i]
            &&& !is_generic(t[i])
            &&& exists|j: int| 0 <= j < words.len() && #[trigger] lower(words[j]) == t[i]
        } by {
            if i < acc.len() {
                assert(t[i] == acc[i]);
                let j = choose|j: int| 0 <= j < p.len() && #[trigger] lower(p[j]) == acc[i];
                assert(words[j] == p[j]);
                assert(lower(words[j]) == t[i]);
            } else {
                assert(t[i] == lower(w));
                assert(words[words.len() - 1] == w);
                assert(lower(words[words.len() - 1]) == t[i]);
            }
        }
        assert forall|i: int, j: int| 0 <= i < j < t.len() implies t[i] != t[j] by {
            if j >= acc.len() {
                assert(t[i] == acc[i]);
            }
        }
    }
}

/// The meaningful terms of a query are distinct, lowercase, at least
/// [`MIN_TERM_CHARS`] characters long, never generic, and each is one of
/// the query's alphanumeric words, lowercased.
pub proof fn law_meaningful_terms(query: Seq<char>)
    ensures
        forall|i: int, j: int|
            0 <= i < j < meaningful(query).len() ==> meaningful(query)[i] != meaningful(query)[j],
        forall|i: int|
            0 <= i < meaningful(query).len() ==> {
                &&& (#[trigger] meaningful(query)[i]).len() >= MIN_TERM_CHARS
                &&& lower(meaningful(query)[i]) == meaningful(query)[i]
                &&& !is_generic(meaningful(query)[i])
                &&& word_of(query, meaningful(query)[i])
            },
{
    lemma_terms_of(alnum_runs(query));
}

proof fn lemma_count_bounds(terms: Seq<Seq<char>>, hay: Seq<char>)
    ensures
        (forall|i: int| 0 <= i < terms.len() ==> !contains(hay, #[trigger] terms[i])) ==> count_contained(terms, hay) == 0,
        (forall|i: int| 0 <= i < terms.len() ==> contains(hay, #[trigger] terms[i])) ==> count_contained(terms, hay) == terms.len(),
    decreases terms.len(),
{
    if terms.len() > 0 {
        let p = terms.drop_last();
        lemma_count_bounds(p, hay);
        if forall|i: int| 0 <= i < terms.len() ==> !contains(hay, #[trigger] terms[i]) {
            assert forall|i: int| 0 <= i < p.len() implies !contains(hay, #[trigger] p[i]) by {
                assert(p[i] == terms[i]);
            }
            assert(!contains(hay, terms[terms.len() - 1]));
        }
        if forall|i: int| 0 <= i < terms.len() ==> contains(hay, #[trigger] terms[i]) {
            assert forall|i: int| 0 <= i < p.len() implies contains(hay, #[trigger] p[i]) by {
                assert(p[i] == terms[i]);
            }
            assert(contains(hay, terms[terms.len() - 1]));
        }
    }
}

/// The relevance gate: a query without meaningful terms admits every
/// result; a result that contains none of the query's terms is rejected;
/// a result that contains all of them is admitted.
pub proof fn law_relevance(query: Seq<char>, r: SearchResultV)
    ensures
        meaningful(query).len() == 0 ==> relevant(query, r),
        meaningful(query).len() > 0 && (forall|i: int|
            0 <= i < meaningful(query).len() ==> !contains(haystack(r), #[trigger] meaningful(query)[i]))
            ==> !relevant(query, r),
        (forall|i: int|
            0 <= i < meaningful(query).len() ==> contains(haystack(r), #[trigger] meaningful(query)[i]))
            ==> relevant(query, r),
{
    lemma_count_bounds(meaningful(query), haystack(r));
}


/// `t` occurs in `hay`: a named predicate, so that quantifiers over terms
/// have something to trigger on.
pub open spec fn term_in(hay: Seq<char>, t: Seq<char>) -> bool {
    contains(hay, t)
}

proof fn lemma_count_one_two(terms: Seq<Seq<char>>, hay: Seq<char>)
    ensures
        count_contained(terms, hay) >= 1 <==> exists|i: int|
            0 <= i < terms.len() && #[trigger] term_in(hay, terms[i]),
        count_contained(terms, hay) >= 2 <==> exists|i: int, j: int|
            0 <= i < j < terms.len() && #[trigger] term_in(hay, terms[i]) && #[trigger] term_in(
                hay,
                terms[j],
            ),
    decreases terms.len(),
{
    if terms.len() > 0 {
        let p = terms.drop_last();
        lemma_count_one_two(p, hay);
        let n = terms.len() - 1;
        assert(terms[n] == terms.last());
        if term_in(hay, terms.last()) {
            assert(term_in(hay, terms[n]));
        }
        if exists|i: int| 0 <= i < p.len() && #[trigger] term_in(hay, p[i]) {
            let i = choose|i: int| 0 <= i < p.len() && #[trigger] term_in(hay, p[i]);
            assert(terms[i] == p[i]);
            assert(term_in(hay, terms[i]));
        }
        if exists|i: int| 0 <= i < terms.len() && #[trigger] term_in(hay, terms[i]) {
            let i = choose|i: int| 0 <= i < terms.len() && #[trigger] term_in(hay, terms[i]);
            if i < p.len() {
                assert(p[i] == terms[i]);
                assert(term_in(hay, p[i]));
            }
        }
        if exists|i: int, j: int|
            0 <= i < j < p.len() && #[trigger] term_in(hay, p[i]) && #[trigger] term_in(hay, p[j]) {
            let (i, j) = choose|i: int, j: int|
                0 <= i < j < p.len() && #[trigger] term_in(hay, p[i]) && #[trigger] term_in(hay, p[j]);
            assert(terms[i] == p[i] && terms[j] == p[j]);
            assert(term_in(hay, terms[i]) && term_in(hay, terms[j]));
        }
        if exists|i: int| 0 <= i < p.len() && #[trigger] term_in(hay, p[i]) {
            if term_in(hay, terms.last()) {
                let i = choose|i: int| 0 <= i < p.len() && #[trigger] term_in(hay, p[i]);
                assert(terms[i] == p[i]);
                assert(term_in(hay, terms[i]) && term_in(hay, terms[n]));
            }
        }
        if exists|i: int, j: int|
            0 <= i < j < terms.len() && #[trigger] term_in(hay, terms[i]) && #[trigger] term_in(
                hay,
                terms[j],
            ) {
            let (i, j) = choose|i: int, j: int|
                0 <= i < j < terms.len() && #[trigger] term_in(hay, terms[i]) && #[trigger] term_in(
                    hay,
                    terms[j],
                );
            assert(p[i] == terms[i]);
            assert(term_in(hay, p[i]));
            if j < p.len() {
                assert(p[j] == terms[j]);
                assert(term_in(hay, p[j]));
            }
        }
    }
}

/// How many terms a result must contain: with one or two meaningful
/// terms, any one of them admits the result; with three or more, it takes
/// two different ones. A result is thus rejected only when it contains none
/// of the terms of a short query.
pub proof fn law_relevance_threshold(query: Seq<char>, r: SearchResultV)
    ensures
        0 < meaningful(query).len() < 3 ==> (relevant(query, r) <==> exists|i: int|
            0 <= i < meaningful(query).len() && #[trigger] term_in(haystack(r), meaningful(query)[i])),
        meaningful(query).len() >= 3 ==> (relevant(query, r) <==> exists|i: int, j: int|
            0 <= i < j < meaningful(query).len() && #[trigger] term_in(haystack(r), meaningful(query)[i])
                && #[trigger] term_in(haystack(r), meaningful(query)[j])),
{
    lemma_count_one_two(meaningful(query), haystack(r));
}

/// `host` lies in `domain`'s scope exactly when it is `domain` itself or
/// ends with `.` followed by `domain`: any subdomain, at any depth, and no
/// host that merely ends with the same letters.
pub proof fn law_host_in_domain(host: Seq<char>, domain: Seq<char>)
    ensures
        host_in_domain(host, domain) <==> (host == domain || ends_with(host, seq!['.'] + domain)),
{
    let dd = seq!['.'] + domain;
    if host.len() > domain.len() && ends_with(host, domain) && host[host.len() - domain.len() - 1] == '.' {
        assert(host.skip(host.len() - dd.len()) =~= dd) by {
            assert forall|i: int| 0 <= i < dd.len() implies host.skip(host.len() - dd.len())[i] == dd[i] by {
                if i > 0 {
                    assert(host.skip(host.len() - domain.len())[i - 1] == domain[i - 1]);
                }
            }
        }
    }
    if ends_with(host, dd) {
        assert(host.skip(host.len() - domain.len()) =~= domain) by {
            assert forall|i: int| 0 <= i < domain.len() implies host.skip(host.len() - domain.len())[i]
                == domain[i] by {
                assert(host.skip(host.len() - dd.len())[i + 1] == dd[i + 1]);
            }
        }
        assert(host.skip(host.len() - dd.len())[0] == dd[0]);
    }
}

/// A URL is in scope exactly when its host is one of the domains or a
/// subdomain of one (`sub.d` for domain `d`); an empty allowlist admits
/// every URL, and a URL without a host is out of every non-empty scope.
pub proof fn law_scope(url: Seq<char>, domains: Seq<Seq<char>>)
    ensures
        domains.len() == 0 ==> in_scope(url, domains),
        domains.len() > 0 && host_of(url) is None ==> !in_scope(url, domains),
        host_of(url) matches Some(h) ==> (domains.len() > 0 ==> (in_scope(url, domains) <==> exists|i: int|
            0 <= i < domains.len() && (h == #[trigger] domains[i] || ends_with(h, seq!['.'] + domains[i])))),
{
    if let Some(h) = host_of(url) {
        assert forall|i: int| 0 <= i < domains.len() implies host_in_domain(h, #[trigger] domains[i])
            <==> (h == domains[i] || ends_with(h, seq!['.'] + domains[i])) by {
            law_host_in_domain(h, domains[i]);
        }
    }
}

} // verus!
