//! Typed errors, their messages and the operator hints they carry.
//!
//! Every failure carries a real message and, when useful, an operator hint:
//! never a generic "error executing tool".

use vstd::prelude::*;
use crate::text::{decimal, decimal_string};

verus! {

/// All failures that can surface from Argos Engine tools.
#[derive(Clone, Debug)]
pub enum ArgosError {
    /// Caller supplied an unusable query.
    InvalidQuery(String),
    /// The instance exists but nothing is listening (connection refused).
    Down { base: String },
    /// A provider did not answer within the timeout or transport failed.
    Unreachable { origin: String, cause: String },
    /// The provider answered with an anti-bot rate-limit status.
    RateLimited { engine: String, status: u16 },
    /// Every provider rate-limited this IP: nothing came back because of
    /// anti-bot pressure, not because the topic has no hits.
    AllProvidersRateLimited { providers: Vec<(String, u16)> },
    /// Providers answered, but every result was rejected by the quality gates.
    NoUsableResults { returned: usize, rejected: usize },
    /// No configured provider is currently eligible.
    NoEligibleProviders { providers: Vec<String> },
    /// SearXNG answered with a non-200 status.
    Http { status: u16, hint: String },
    /// The payload did not match the expected contract.
    Decode(String),
    /// The on-demand stack boot failed before the budget elapsed.
    StackBoot { detail: String },
    /// The stack is still booting after the configured budget.
    StackStarting { secs: u64 },
}

/// The mathematical model of an [`ArgosError`].
pub enum ArgosErrorV {
    InvalidQuery(Seq<char>),
    Down { base: Seq<char> },
    Unreachable { origin: Seq<char>, cause: Seq<char> },
    RateLimited { engine: Seq<char>, status: u16 },
    AllProvidersRateLimited { providers: Seq<(Seq<char>, u16)> },
    NoUsableResults { returned: nat, rejected: nat },
    NoEligibleProviders { providers: Seq<Seq<char>> },
    Http { status: u16, hint: Seq<char> },
    Decode(Seq<char>),
    StackBoot { detail: Seq<char> },
    StackStarting { secs: u64 },
}

pub open spec fn limited_view(v: Seq<(String, u16)>) -> Seq<(Seq<char>, u16)> {
    v.map_values(|p: (String, u16)| (p.0@, p.1))
}

impl View for ArgosError {
    type V = ArgosErrorV;

    open spec fn view(&self) -> ArgosErrorV {
        match self {
            ArgosError::InvalidQuery(s) => ArgosErrorV::InvalidQuery(s@),
            ArgosError::Down { base } => ArgosErrorV::Down { base: base@ },
            ArgosError::Unreachable { origin, cause } => ArgosErrorV::Unreachable {
                origin: origin@,
                cause: cause@,
            },
            ArgosError::RateLimited { engine, status } => ArgosErrorV::RateLimited {
                engine: engine@,
                status: *status,
            },
            ArgosError::AllProvidersRateLimited { providers } =>
                ArgosErrorV::AllProvidersRateLimited { providers: limited_view(providers@) },
            ArgosError::NoUsableResults { returned, rejected } => ArgosErrorV::NoUsableResults {
                returned: *returned as nat,
                rejected: *rejected as nat,
            },
            ArgosError::NoEligibleProviders { providers } => ArgosErrorV::NoEligibleProviders {
                providers: providers@.map_values(|s: String| s@),
            },
            ArgosError::Http { status, hint } => ArgosErrorV::Http { status: *status, hint: hint@ },
            ArgosError::Decode(s) => ArgosErrorV::Decode(s@),
            ArgosError::StackBoot { detail } => ArgosErrorV::StackBoot { detail: detail@ },
            ArgosError::StackStarting { secs } => ArgosErrorV::StackStarting { secs: *secs },
        }
    }
}

/// The human-readable message of an error (what `Display` prints).
pub open spec fn error_message(e: ArgosErrorV) -> Seq<char> {
    match e {
        ArgosErrorV::InvalidQuery(s) => "invalid query: "@ + s,
        ArgosErrorV::Down { base } => "SearXNG is not running at "@ + base,
        ArgosErrorV::Unreachable { origin, cause } => origin + " unreachable: "@ + cause,
        ArgosErrorV::RateLimited { engine, status } => engine + " rate-limited this IP (HTTP "@
            + decimal(status as nat) + ")"@,
        ArgosErrorV::AllProvidersRateLimited { .. } => "all providers rate-limited this IP"@,
        ArgosErrorV::NoUsableResults { .. } =>
            "providers returned no usable results after quality filtering"@,
        ArgosErrorV::NoEligibleProviders { .. } => "no search providers are currently eligible"@,
        ArgosErrorV::Http { status, .. } => "SearXNG returned HTTP "@ + decimal(status as nat),
        ArgosErrorV::Decode(s) => "unexpected payload: "@ + s,
        ArgosErrorV::StackBoot { detail } => "SearXNG stack failed to start: "@ + detail,
        ArgosErrorV::StackStarting { secs } => "SearXNG stack is still starting after "@
            + decimal(secs as nat) + "s"@,
    }
}

/// How a tool failure is classified for the MCP client.
#[derive(Clone, Copy, Debug, PartialEq, Eq, Structural)]
pub enum ToolErrorKind {
    /// The caller's parameters were unusable.
    InvalidParams,
    /// The engine failed while serving a valid request.
    Internal,
}

pub open spec fn error_kind(e: ArgosErrorV) -> ToolErrorKind {
    match e {
        ArgosErrorV::InvalidQuery(_) => ToolErrorKind::InvalidParams,
        _ => ToolErrorKind::Internal,
    }
}

pub open spec fn hint_down() -> Seq<char> {
    "Auto-start is enabled by default (ARGOS_AUTO_START=1). If the one-time provisioning is missing, run searxng\\wsl-setup.bat once as admin; afterwards searxng\\wsl-up.bat starts the stack manually."@
}

pub open spec fn hint_unreachable() -> Seq<char> {
    "Network problem with this provider. Providers are independent: the fanout keeps going if another one answers - check ARGOS_PROVIDERS."@
}

pub open spec fn hint_rate_limited() -> Seq<char> {
    "This engine flagged your IP (202/403/429 are the classic anti-bot answers). Wait it out, and raise the ceiling by enabling more providers via ARGOS_PROVIDERS - the fanout spreads load across independent rate budgets."@
}

pub open spec fn hint_all_rate_limited() -> Seq<char> {
    "Every configured provider answered with an anti-bot status. The search returned nothing because your IP was throttled, not because the topic has no hits."@
}

pub open spec fn hint_no_usable() -> Seq<char> {
    "Providers answered, but no result passed Argos' domain or lexical relevance gate. Inspect the query, narrow the domains, or use another research formulation."@
}

pub open spec fn hint_no_eligible() -> Seq<char> {
    "All configured providers are temporarily unavailable. Argos will retry them after their cooldown; inspect provider status or add another configured provider."@
}

pub open spec fn hint_stack_boot() -> Seq<char> {
    "Run searxng\\wsl-setup.bat once as admin to provision the optional SearXNG stack, or start manually with searxng\\wsl-up.bat to see the full output."@
}

pub open spec fn hint_stack_starting() -> Seq<char> {
    "Boot continues in the background; retry the search in a few seconds."@
}

/// The operator hint attached to an error, if any.
pub open spec fn error_hint(e: ArgosErrorV) -> Option<Seq<char>> {
    match e {
        ArgosErrorV::InvalidQuery(_) => None,
        ArgosErrorV::Down { .. } => Some(hint_down()),
        ArgosErrorV::Unreachable { .. } => Some(hint_unreachable()),
        ArgosErrorV::RateLimited { .. } => Some(hint_rate_limited()),
        ArgosErrorV::AllProvidersRateLimited { .. } => Some(hint_all_rate_limited()),
        ArgosErrorV::NoUsableResults { .. } => Some(hint_no_usable()),
        ArgosErrorV::NoEligibleProviders { .. } => Some(hint_no_eligible()),
        ArgosErrorV::Http { hint, .. } => Some(hint),
        ArgosErrorV::Decode(_) => None,
        ArgosErrorV::StackBoot { .. } => Some(hint_stack_boot()),
        ArgosErrorV::StackStarting { .. } => Some(hint_stack_starting()),
    }
}

fn lit(s: &str) -> (r: String)
    ensures
        r@ == s@,
{
    String::from_str(s)
}

impl ArgosError {
    /// The error message: what `Display` renders for the error.
    pub fn message(&self) -> (r: String)
        ensures
            r@ == error_message(self@),
    {
        match self {
            ArgosError::InvalidQuery(s) => {
                let mut r = lit("invalid query: ");
                r.append(s.as_str());
                r
            },
            ArgosError::Down { base } => {
                let mut r = lit("SearXNG is not running at ");
                r.append(base.as_str());
                r
            },
            ArgosError::Unreachable { origin, cause } => {
                let mut r = origin.clone();
                r.append(" unreachable: ");
                r.append(cause.as_str());
                r
            },
            ArgosError::RateLimited { engine, status } => {
                let mut r = engine.clone();
                r.append(" rate-limited this IP (HTTP ");
                let d = decimal_string(*status as u64);
                r.append(d.as_str());
                r.append(")");
                r
            },
            ArgosError::AllProvidersRateLimited { .. } => lit("all providers rate-limited this IP"),
            ArgosError::NoUsableResults { .. } => lit(
                "providers returned no usable results after quality filtering",
            ),
            ArgosError::NoEligibleProviders { .. } => lit(
                "no search providers are currently eligible",
            ),
            ArgosError::Http { status, .. } => {
                let mut r = lit("SearXNG returned HTTP ");
                let d = decimal_string(*status as u64);
                r.append(d.as_str());
                r
            },
            ArgosError::Decode(s) => {
                let mut r = lit("unexpected payload: ");
                r.append(s.as_str());
                r
            },
            ArgosError::StackBoot { detail } => {
                let mut r = lit("SearXNG stack failed to start: ");
                r.append(detail.as_str());
                r
            },
            ArgosError::StackStarting { secs } => {
                let mut r = lit("SearXNG stack is still starting after ");
                let d = decimal_string(*secs);
                r.append(d.as_str());
                r.append("s");
                r
            },
        }
    }

    /// Whether the MCP client should see invalid parameters or an internal failure.
    pub fn tool_kind(&self) -> (r: ToolErrorKind)
        ensures
            r == error_kind(self@),
    {
        match self {
            ArgosError::InvalidQuery(_) => ToolErrorKind::InvalidParams,
            _ => ToolErrorKind::Internal,
        }
    }

    /// The actionable operator hint carried in the error data, if any.
    pub fn hint(&self) -> (r: Option<String>)
        ensures
            opt_seq(r) == error_hint(self@),
    {
        match self {
            ArgosError::InvalidQuery(_) => None,
            ArgosError::Down { .. } => Some(lit(
                "Auto-start is enabled by default (ARGOS_AUTO_START=1). If the one-time provisioning is missing, run searxng\\wsl-setup.bat once as admin; afterwards searxng\\wsl-up.bat starts the stack manually.",
            )),
            ArgosError::Unreachable { .. } => Some(lit(
                "Network problem with this provider. Providers are independent: the fanout keeps going if another one answers - check ARGOS_PROVIDERS.",
            )),
            ArgosError::RateLimited { .. } => Some(lit(
                "This engine flagged your IP (202/403/429 are the classic anti-bot answers). Wait it out, and raise the ceiling by enabling more providers via ARGOS_PROVIDERS - the fanout spreads load across independent rate budgets.",
            )),
            ArgosError::AllProvidersRateLimited { .. } => Some(lit(
                "Every configured provider answered with an anti-bot status. The search returned nothing because your IP was throttled, not because the topic has no hits.",
            )),
            ArgosError::NoUsableResults { .. } => Some(lit(
                "Providers answered, but no result passed Argos' domain or lexical relevance gate. Inspect the query, narrow the domains, or use another research formulation.",
            )),
            ArgosError::NoEligibleProviders { .. } => Some(lit(
                "All configured providers are temporarily unavailable. Argos will retry them after their cooldown; inspect provider status or add another configured provider.",
            )),
            ArgosError::Http { hint, .. } => Some(hint.clone()),
            ArgosError::Decode(_) => None,
            ArgosError::StackBoot { .. } => Some(lit(
                "Run searxng\\wsl-setup.bat once as admin to provision the optional SearXNG stack, or start manually with searxng\\wsl-up.bat to see the full output.",
            )),
            ArgosError::StackStarting { .. } => Some(lit(
                "Boot continues in the background; retry the search in a few seconds.",
            )),
        }
    }

    /// A field-by-field copy.
    pub fn duplicate(&self) -> (r: ArgosError)
        ensures
            r@ == self@,
    {
        match self {
            ArgosError::InvalidQuery(s) => ArgosError::InvalidQuery(s.clone()),
            ArgosError::Down { base } => ArgosError::Down { base: base.clone() },
            ArgosError::Unreachable { origin, cause } => ArgosError::Unreachable {
                origin: origin.clone(),
                cause: cause.clone(),
            },
            ArgosError::RateLimited { engine, status } => ArgosError::RateLimited {
                engine: engine.clone(),
                status: *status,
            },
            ArgosError::AllProvidersRateLimited { providers } => {
                let mut v: Vec<(String, u16)> = Vec::new();
                let mut i: usize = 0;
                while i < providers.len()
                    invariant
                        i <= providers.len(),
                        v.len() == i,
                        forall|k: int|
                            0 <= k < i ==> #[trigger] v@[k].0@ == providers@[k].0@ && v@[k].1
                                == providers@[k].1,
                    decreases providers.len() - i,
                {
                    let p = &providers[i];
                    v.push((p.0.clone(), p.1));
                    i = i + 1;
                }
                assert(limited_view(v@) =~= limited_view(providers@));
                ArgosError::AllProvidersRateLimited { providers: v }
            },
            ArgosError::NoUsableResults { returned, rejected } => ArgosError::NoUsableResults {
                returned: *returned,
                rejected: *rejected,
            },
            ArgosError::NoEligibleProviders { providers } => {
                let v = copy_strings(providers);
                ArgosError::NoEligibleProviders { providers: v }
            },
            ArgosError::Http { status, hint } => ArgosError::Http {
                status: *status,
                hint: hint.clone(),
            },
            ArgosError::Decode(s) => ArgosError::Decode(s.clone()),
            ArgosError::StackBoot { detail } => ArgosError::StackBoot { detail: detail.clone() },
            ArgosError::StackStarting { secs } => ArgosError::StackStarting { secs: *secs },
        }
    }
}

pub open spec fn opt_seq(o: Option<String>) -> Option<Seq<char>> {
    match o {
        Some(s) => Some(s@),
        None => None,
    }
}

/// A copy of a vector of strings.
pub fn copy_strings(v: &Vec<String>) -> (r: Vec<String>)
    ensures
        r@ == v@,
{
    let mut r: Vec<String> = Vec::new();
    let mut i: usize = 0;
    while i < v.len()
        invariant
            i <= v.len(),
            r@ == v@.take(i as int),
        decreases v.len() - i,
    {
        r.push(v[i].clone());
        i = i + 1;
        assert(r@ =~= v@.take(i as int));
    }
    assert(v@.take(v.len() as int) =~= v@);
    r
}

} // verus!
