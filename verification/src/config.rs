//! Centralized configuration: defaults, and the environment overrides applied to them.

use vstd::prelude::*;
use crate::text::{
    is_upper_ascii, lower_char,
    chars_of, lower, split_on, parse_u64, parse_u64_chars, str_is, string_of, to_lower, trim, trim_chars,
    trim_end_char, trim_end_char_chars,
};
use crate::types::strings_view;

verus! {

/// Runtime configuration for Argos Engine. Durations are whole seconds.
#[derive(Clone, Debug)]
pub struct Config {
    /// Base URL of the local SearXNG instance.
    pub searxng_url: String,
    /// Timeout for search requests.
    pub request_timeout_secs: u64,
    /// Timeout for health probes.
    pub ping_timeout_secs: u64,
    /// Boot the WSL2 stack on demand when the instance is down (`ARGOS_AUTO_START`).
    pub auto_start: bool,
    /// Budget for a cold stack boot (`ARGOS_BOOT_TIMEOUT_SECS`).
    pub boot_timeout_secs: u64,
    /// Terminate the stack after this much idle time (`ARGOS_IDLE_STOP_SECS`, `0` = keep).
    pub idle_stop_secs: u64,
    /// WSL distro hosting the stack (`ARGOS_WSL_DISTRO`).
    pub wsl_distro: String,
    /// Path to `wsl-setup.sh` (`ARGOS_STACK_SCRIPT`).
    pub stack_script: String,
    /// Enabled providers in fanout order (`ARGOS_PROVIDERS`, comma-separated).
    pub providers: Vec<String>,
    /// Most providers the metasearch router asks in one wave (default 3, so
    /// that the default keyless trio fits in the first wave).
    pub metasearch_initial: usize,
    /// Upper bound on providers asked per wave, and on the number of waves
    /// of one search (default 5).
    pub metasearch_total: usize,
}

/// The stack script used when the executable's location is unknown.
pub open spec fn fallback_stack_script() -> Seq<char> {
    "searxng/wsl-setup.sh"@
}

/// The defaults, with the given stack script path.
pub open spec fn is_default_config(c: Config, stack_script: Seq<char>) -> bool {
    &&& c.searxng_url@ == "http://127.0.0.1:8080"@
    &&& c.request_timeout_secs == 15
    &&& c.ping_timeout_secs == 2
    &&& c.auto_start
    &&& c.boot_timeout_secs == 60
    &&& c.idle_stop_secs == 300
    &&& c.wsl_distro@ == "Ubuntu"@
    &&& c.stack_script@ == stack_script
    &&& strings_view(c.providers@) == seq!["duckduckgo"@, "bing"@]
    &&& c.metasearch_initial == 3
    &&& c.metasearch_total == 5
}

impl Config {
    /// The defaults, with the stack script at `stack_script`.
    pub fn default_with_script(stack_script: String) -> (r: Config)
        ensures
            is_default_config(r, stack_script@),
    {
        let mut providers: Vec<String> = Vec::new();
        providers.push(String::from_str("duckduckgo"));
        providers.push(String::from_str("bing"));
        let r = Config {
            searxng_url: String::from_str("http://127.0.0.1:8080"),
            request_timeout_secs: 15,
            ping_timeout_secs: 2,
            auto_start: true,
            boot_timeout_secs: 60,
            idle_stop_secs: 300,
            wsl_distro: String::from_str("Ubuntu"),
            stack_script,
            providers,
            metasearch_initial: 3,
            metasearch_total: 5,
        };
        assert(strings_view(r.providers@) =~= seq!["duckduckgo"@, "bing"@]);
        r
    }
}

impl Default for Config {
    /// The defaults, with the stack script at `searxng/wsl-setup.sh`.
    fn default() -> (r: Config)
        ensures
            is_default_config(r, fallback_stack_script()),
    {
        Config::default_with_script(String::from_str("searxng/wsl-setup.sh"))
    }
}

/// `raw`, trimmed and ASCII-lowercased.
pub open spec fn folded(raw: Seq<char>) -> Seq<char> {
    lower(trim(raw))
}

/// The boolean an environment value spells, or `default` when it spells none.
pub open spec fn parsed_bool(raw: Seq<char>, default: bool) -> bool {
    let v = folded(raw);
    if v == "1"@ || v == "true"@ || v == "yes"@ || v == "on"@ {
        true
    } else if v == "0"@ || v == "false"@ || v == "no"@ || v == "off"@ {
        false
    } else {
        default
    }
}

/// Parse a forgiving boolean (`1/true/yes/on`, `0/false/no/off`, any case,
/// surrounding whitespace ignored); anything else yields `default`.
pub fn parse_bool(raw: &str, default: bool) -> (r: bool)
    ensures
        r == parsed_bool(raw@, default),
{
    let cs = chars_of(raw);
    let t = trim_chars(&cs);
    let v = to_lower(&t);
    if str_is(&v, "1") || str_is(&v, "true") || str_is(&v, "yes") || str_is(&v, "on") {
        true
    } else if str_is(&v, "0") || str_is(&v, "false") || str_is(&v, "no") || str_is(&v, "off") {
        false
    } else {
        default
    }
}

/// Each piece trimmed and lowercased; the empty ones dropped.
pub open spec fn clean_names(pieces: Seq<Seq<char>>) -> Seq<Seq<char>>
    decreases pieces.len(),
{
    if pieces.len() == 0 {
        Seq::<Seq<char>>::empty()
    } else {
        let r = clean_names(pieces.drop_last());
        let t = folded(pieces.last());
        if t.len() > 0 {
            r.push(t)
        } else {
            r
        }
    }
}

/// The provider names a comma-separated list spells.
pub open spec fn provider_names(raw: Seq<char>) -> Seq<Seq<char>> {
    clean_names(split_on(raw, ','))
}

proof fn lemma_clean_push(pieces: Seq<Seq<char>>, p: Seq<char>)
    ensures
        clean_names(pieces.push(p)) == if folded(p).len() > 0 {
            clean_names(pieces).push(folded(p))
        } else {
            clean_names(pieces)
        },
{
    assert(pieces.push(p).drop_last() =~= pieces);
}

/// Split a comma-separated provider list into normalized lowercase names.
pub fn parse_providers(raw: &str) -> (r: Vec<String>)
    ensures
        strings_view(r@) == provider_names(raw@),
{
    let cs = chars_of(raw);
    let mut out: Vec<String> = Vec::new();
    let mut cur: Vec<char> = Vec::new();
    let mut i: usize = 0;
    let ghost mut pieces: Seq<Seq<char>> = seq![Seq::<char>::empty()];
    assert(cur@ =~= Seq::<char>::empty());
    while i < cs.len()
        invariant
            i <= cs.len(),
            cs@ == raw@,
            pieces == split_on(cs@.take(i as int), ','),
            pieces.len() >= 1,
            pieces.last() == cur@,
            strings_view(out@) == clean_names(pieces.drop_last()),
        decreases cs.len() - i,
    {
        let c = cs[i];
        let ghost prev = pieces;
        proof {
            assert(cs@.take(i + 1).drop_last() =~= cs@.take(i as int));
            assert(cs@.take(i + 1).last() == c);
        }
        if c == ',' {
            let t = trim_chars(&cur);
            let v = to_lower(&t);
            if v.len() > 0 {
                out.push(string_of(v.as_slice()));
            }
            cur = Vec::new();
            proof {
                pieces = prev.push(Seq::<char>::empty());
                assert(pieces.drop_last() =~= prev);
                assert(prev =~= prev.drop_last().push(prev.last()));
                lemma_clean_push(prev.drop_last(), prev.last());
                assert(strings_view(out@) =~= clean_names(pieces.drop_last()));
            }
        } else {
            cur.push(c);
            proof {
                pieces = prev.update(prev.len() - 1, prev.last().push(c));
                assert(pieces.drop_last() =~= prev.drop_last());
            }
        }
        i = i + 1;
    }
    proof {
        assert(cs@.take(cs.len() as int) =~= cs@);
    }
    let t = trim_chars(&cur);
    let v = to_lower(&t);
    let ghost before = out@;
    if v.len() > 0 {
        out.push(string_of(v.as_slice()));
    }
    proof {
        assert(pieces =~= pieces.drop_last().push(pieces.last()));
        lemma_clean_push(pieces.drop_last(), pieces.last());
        assert(strings_view(out@) =~= clean_names(pieces));
    }
    out
}

/// Overrides read from the process environment; `None` where a variable is unset.
#[derive(Clone, Debug)]
pub struct EnvOverrides {
    /// `ARGOS_SEARXNG_URL`
    pub searxng_url: Option<String>,
    /// `ARGOS_AUTO_START`
    pub auto_start: Option<String>,
    /// `ARGOS_WSL_DISTRO`
    pub wsl_distro: Option<String>,
    /// `ARGOS_STACK_SCRIPT`
    pub stack_script: Option<String>,
    /// `ARGOS_BOOT_TIMEOUT_SECS`
    pub boot_timeout_secs: Option<String>,
    /// `ARGOS_IDLE_STOP_SECS`
    pub idle_stop_secs: Option<String>,
    /// `ARGOS_PROVIDERS`
    pub providers: Option<String>,
}

/// A text override: the trimmed value when it is non-empty, else `current`.
pub open spec fn text_override(raw: Option<String>, current: Seq<char>) -> Seq<char> {
    match raw {
        Some(v) => if trim(v@).len() > 0 {
            trim(v@)
        } else {
            current
        },
        None => current,
    }
}

/// A seconds override: the value when it parses as a `u64`, else `current`.
pub open spec fn secs_override(raw: Option<String>, current: u64) -> u64 {
    match raw {
        Some(v) => match parse_u64(trim(v@)) {
            Some(n) => n,
            None => current,
        },
        None => current,
    }
}

/// The URL override: trimmed, trailing slashes removed, used when non-empty.
pub open spec fn url_override(raw: Option<String>, current: Seq<char>) -> Seq<char> {
    match raw {
        Some(v) => if trim_end_char(trim(v@), '/').len() > 0 {
            trim_end_char(trim(v@), '/')
        } else {
            current
        },
        None => current,
    }
}

pub open spec fn bool_override(raw: Option<String>, current: bool) -> bool {
    match raw {
        Some(v) => parsed_bool(v@, current),
        None => current,
    }
}

pub open spec fn providers_override(raw: Option<String>, current: Seq<Seq<char>>) -> Seq<
    Seq<char>,
> {
    match raw {
        Some(v) => if provider_names(v@).len() > 0 {
            provider_names(v@)
        } else {
            current
        },
        None => current,
    }
}

fn apply_text(raw: &Option<String>, current: String) -> (r: String)
    ensures
        r@ == text_override(*raw, current@),
{
    match raw {
        Some(v) => {
            let cs = chars_of(v.as_str());
            let t = trim_chars(&cs);
            if t.len() > 0 {
                string_of(t.as_slice())
            } else {
                current
            }
        },
        None => current,
    }
}

fn apply_secs(raw: &Option<String>, current: u64) -> (r: u64)
    ensures
        r == secs_override(*raw, current),
{
    match raw {
        Some(v) => {
            let cs = chars_of(v.as_str());
            let t = trim_chars(&cs);
            match parse_u64_chars(&t) {
                Some(n) => n,
                None => current,
            }
        },
        None => current,
    }
}

impl Config {
    /// Apply environment overrides: non-empty trimmed text values replace the
    /// defaults (the URL also loses trailing slashes), booleans and seconds
    /// are parsed forgivingly, and a provider list replaces the default only
    /// when it names at least one provider.
    pub fn apply_env(self, env: &EnvOverrides) -> (r: Config)
        ensures
            r.searxng_url@ == url_override(env.searxng_url, self.searxng_url@),
            r.auto_start == bool_override(env.auto_start, self.auto_start),
            r.wsl_distro@ == text_override(env.wsl_distro, self.wsl_distro@),
            r.stack_script@ == text_override(env.stack_script, self.stack_script@),
            r.boot_timeout_secs == secs_override(env.boot_timeout_secs, self.boot_timeout_secs),
            r.idle_stop_secs == secs_override(env.idle_stop_secs, self.idle_stop_secs),
            strings_view(r.providers@) == providers_override(
                env.providers,
                strings_view(self.providers@),
            ),
            r.request_timeout_secs == self.request_timeout_secs,
            r.ping_timeout_secs == self.ping_timeout_secs,
            r.metasearch_initial == self.metasearch_initial,
            r.metasearch_total == self.metasearch_total,
    {
        let mut config = self;
        match &env.searxng_url {
            Some(url) => {
                let cs = chars_of(url.as_str());
                let t = trim_chars(&cs);
                let u = trim_end_char_chars(&t, '/');
                if u.len() > 0 {
                    config.searxng_url = string_of(u.as_slice());
                }
            },
            None => {},
        }
        match &env.auto_start {
            Some(raw) => {
                config.auto_start = parse_bool(raw.as_str(), config.auto_start);
            },
            None => {},
        }
        config.wsl_distro = apply_text(&env.wsl_distro, config.wsl_distro);
        config.stack_script = apply_text(&env.stack_script, config.stack_script);
        config.boot_timeout_secs = apply_secs(&env.boot_timeout_secs, config.boot_timeout_secs);
        config.idle_stop_secs = apply_secs(&env.idle_stop_secs, config.idle_stop_secs);
        match &env.providers {
            Some(raw) => {
                let providers = parse_providers(raw.as_str());
                if providers.len() > 0 {
                    config.providers = providers;
                }
            },
            None => {},
        }
        config
    }
}

/// Every provider name parsed from a list is non-empty and has no ASCII
/// capital: names are compared in lowercase whatever case the user typed.
pub proof fn law_provider_names_clean(raw: Seq<char>)
    ensures
        forall|i: int|
            0 <= i < provider_names(raw).len() ==> (#[trigger] provider_names(raw)[i]).len() > 0
                && forall|k: int|
                0 <= k < provider_names(raw)[i].len() ==> !is_upper_ascii(
                    #[trigger] provider_names(raw)[i][k],
                ),
{
    lemma_clean_names_clean(split_on(raw, ','));
}

proof fn lemma_clean_names_clean(pieces: Seq<Seq<char>>)
    ensures
        forall|i: int|
            0 <= i < clean_names(pieces).len() ==> (#[trigger] clean_names(pieces)[i]).len() > 0
                && forall|k: int|
                0 <= k < clean_names(pieces)[i].len() ==> !is_upper_ascii(
                    #[trigger] clean_names(pieces)[i][k],
                ),
    decreases pieces.len(),
{
    if pieces.len() > 0 {
        lemma_clean_names_clean(pieces.drop_last());
        let r = clean_names(pieces.drop_last());
        let t = folded(pieces.last());
        assert forall|k: int| 0 <= k < t.len() implies !is_upper_ascii(#[trigger] t[k]) by {
            let c = trim(pieces.last())[k];
            assert(t[k] == lower_char(c));
        }
        let c = clean_names(pieces);
        assert forall|i: int| 0 <= i < c.len() implies (#[trigger] c[i]).len() > 0 && forall|k: int|
            0 <= k < c[i].len() ==> !is_upper_ascii(#[trigger] c[i][k]) by {
            if i < r.len() {
                assert(c[i] == r[i]);
            }
        }
    }
}

} // verus!
