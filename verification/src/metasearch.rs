//! Native metasearch registry, runtime state and provider selection.
//!
//! Manifests describe what a provider is, runtime state remembers cooldowns,
//! and the selector chooses a bounded set of eligible providers instead of
//! launching every engine. Time is a monotonic clock in milliseconds, read
//! by the caller; quality is kept in thousandths.

use vstd::prelude::*;
use crate::config::Config;
use crate::error::{ArgosError, ArgosErrorV, copy_strings, error_message};
use crate::text::{chars_of, decimal, decimal_string, str_is};
use crate::types::{
    ProviderEntry, ProviderEntryV, ProviderStatus, ProviderStatusV, SearchOutcome,
    SearchOutcomeV, entries_view, strings_view,
};

verus! {

// ---------------------------------------------------------------------------
// Manifests
// ---------------------------------------------------------------------------

/// The broad provider categories used by profiles and benchmarks.
#[derive(Clone, Copy, Debug, PartialEq, Eq, Structural)]
pub enum ProviderCategory {
    General,
    Academic,
    Code,
    News,
    Knowledge,
    Local,
}

/// The transport family of a provider adapter.
#[derive(Clone, Copy, Debug, PartialEq, Eq, Structural)]
pub enum ProviderKind {
    Html,
    Api,
    Aggregator,
    Local,
}

/// How an adapter authenticates.
#[derive(Clone, Copy, Debug, PartialEq, Eq, Structural)]
pub enum AuthKind {
    Keyless,
    Optional,
    Required,
}

/// Operational policy for an adapter.
#[derive(Clone, Copy, Debug, PartialEq, Eq, Structural)]
pub enum ProviderPolicy {
    Default,
    PublicApi,
    Vertical,
    UserKey,
    Paid,
    HtmlBeta,
    LocalOnly,
}

/// Cost class. This is metadata, not a promise that a free tier will persist.
#[derive(Clone, Copy, Debug, PartialEq, Eq, Structural)]
pub enum CostClass {
    Free,
    FreeTier,
    Paid,
    UserInfrastructure,
}

/// Static description of one provider adapter.
#[derive(Clone, Debug)]
pub struct ProviderManifest {
    pub id: String,
    pub kind: ProviderKind,
    pub auth: AuthKind,
    pub auth_env: Option<String>,
    pub policy: ProviderPolicy,
    pub cost: CostClass,
    pub index_family: String,
    pub categories: Vec<ProviderCategory>,
    pub priority: i32,
    pub supports_domains: bool,
    pub supports_freshness: bool,
}

/// A bounded set of providers selected for a query category.
#[derive(Clone, Debug)]
pub struct ProviderProfile {
    pub id: String,
    pub members: Vec<String>,
    pub max_initial: usize,
    pub max_total: usize,
}

/// The providers with an adapter.
pub open spec fn known_provider(id: Seq<char>) -> bool {
    id == "duckduckgo"@ || id == "bing"@ || id == "brave"@ || id == "searxng"@
}

/// Selection priority of a known provider.
pub open spec fn builtin_priority(id: Seq<char>) -> i32 {
    if id == "duckduckgo"@ {
        70
    } else if id == "bing"@ {
        30
    } else if id == "brave"@ {
        60
    } else {
        80
    }
}

/// The manifest of a known provider, field by field.
pub open spec fn is_builtin_manifest(m: ProviderManifest, id: Seq<char>) -> bool {
    &&& m.id@ == id
    &&& m.auth == AuthKind::Keyless
    &&& m.auth_env is None
    &&& m.priority == builtin_priority(id)
    &&& m.supports_domains
    &&& !m.supports_freshness
    &&& if id == "searxng"@ {
        &&& m.kind == ProviderKind::Aggregator
        &&& m.policy == ProviderPolicy::LocalOnly
        &&& m.cost == CostClass::UserInfrastructure
        &&& m.index_family@ == "multi"@
        &&& m.categories@ == seq![ProviderCategory::General, ProviderCategory::Local]
    } else {
        &&& m.kind == ProviderKind::Html
        &&& m.policy == ProviderPolicy::HtmlBeta
        &&& m.cost == CostClass::Free
        &&& m.index_family@ == (if id == "duckduckgo"@ {
            "ddg_mixed"@
        } else {
            id
        })
        &&& m.categories@ == seq![ProviderCategory::General]
    }
}

fn manifest(
    id: &str,
    kind: ProviderKind,
    policy: ProviderPolicy,
    cost: CostClass,
    family: &str,
    priority: i32,
    categories: Vec<ProviderCategory>,
) -> (r: ProviderManifest)
    ensures
        r.id@ == id@,
        r.kind == kind,
        r.auth == AuthKind::Keyless,
        r.auth_env is None,
        r.policy == policy,
        r.cost == cost,
        r.index_family@ == family@,
        r.categories == categories,
        r.priority == priority,
        r.supports_domains,
        !r.supports_freshness,
{
    ProviderManifest {
        id: String::from_str(id),
        kind,
        auth: AuthKind::Keyless,
        auth_env: None,
        policy,
        cost,
        index_family: String::from_str(family),
        categories,
        priority,
        supports_domains: true,
        supports_freshness: false,
    }
}

/// The built-in manifest of a provider; `None` for providers without an adapter.
pub fn builtin_manifest(id: &str) -> (r: Option<ProviderManifest>)
    ensures
        match r {
            Some(m) => known_provider(id@) && is_builtin_manifest(m, id@),
            None => !known_provider(id@),
        },
{
    let v = chars_of(id);
    proof {
        reveal_strlit("duckduckgo");
        reveal_strlit("bing");
        reveal_strlit("brave");
        reveal_strlit("searxng");
    }
    let mut general: Vec<ProviderCategory> = Vec::new();
    general.push(ProviderCategory::General);
    assert(general@ =~= seq![ProviderCategory::General]);
    if str_is(&v, "duckduckgo") {
        let m = manifest(id, ProviderKind::Html, ProviderPolicy::HtmlBeta, CostClass::Free, "ddg_mixed", 70, general);
        assert(m.id@ == id@);
        assert(m.priority == builtin_priority(id@));
        assert(m.index_family@ == "ddg_mixed"@);
        assert(m.categories@ == seq![ProviderCategory::General]);
        assert(is_builtin_manifest(m, id@));
        Some(m)
    } else if str_is(&v, "bing") {
        let m = manifest(id, ProviderKind::Html, ProviderPolicy::HtmlBeta, CostClass::Free, "bing", 30, general);
        assert(id@ != "duckduckgo"@ && id@ != "searxng"@) by {
            assert(id@.len() != "duckduckgo"@.len());
            assert(id@.len() != "searxng"@.len());
        }
        assert(m.priority == builtin_priority(id@));
        assert(m.index_family@ == id@);
        assert(m.categories@ == seq![ProviderCategory::General]);
        assert(is_builtin_manifest(m, id@));
        Some(m)
    } else if str_is(&v, "brave") {
        let m = manifest(id, ProviderKind::Html, ProviderPolicy::HtmlBeta, CostClass::Free, "brave", 60, general);
        assert(id@ != "duckduckgo"@ && id@ != "searxng"@) by {
            assert(id@.len() != "duckduckgo"@.len());
            assert(id@.len() != "searxng"@.len());
        }
        assert(m.priority == builtin_priority(id@));
        assert(m.index_family@ == id@);
        assert(m.categories@ == seq![ProviderCategory::General]);
        assert(is_builtin_manifest(m, id@));
        Some(m)
    } else if str_is(&v, "searxng") {
        let mut cats: Vec<ProviderCategory> = Vec::new();
        cats.push(ProviderCategory::General);
        cats.push(ProviderCategory::Local);
        assert(cats@ =~= seq![ProviderCategory::General, ProviderCategory::Local]);
        Some(
            manifest(
                id,
                ProviderKind::Aggregator,
                ProviderPolicy::LocalOnly,
                CostClass::UserInfrastructure,
                "multi",
                80,
                cats,
            ),
        )
    } else {
        None
    }
}

// ---------------------------------------------------------------------------
// Runtime state
// ---------------------------------------------------------------------------

/// Runtime health of one provider.
#[derive(Clone, Copy, Debug, PartialEq, Eq, Structural)]
pub enum ProviderRuntimeStatus {
    Healthy,
    Cooldown,
    QuotaExhausted,
    AuthMissing,
    Filtered,
    Degraded,
    Unreachable,
}

/// Mutable, process-local provider state. Instants are milliseconds on a
/// monotonic clock; quality is in thousandths (`0..=1000`).
#[derive(Clone, Copy, Debug)]
pub struct ProviderState {
    pub status: ProviderRuntimeStatus,
    pub consecutive_failures: u32,
    pub cooldown_until: Option<u64>,
    pub last_status_code: Option<u16>,
    pub last_quality: Option<u32>,
    pub last_success: Option<u64>,
}

/// First cooldown after a transport failure: 30 s.
pub const COOLDOWN_BASE_MS: u64 = 30_000;

/// Longest cooldown: 15 min.
pub const COOLDOWN_MAX_MS: u64 = 900_000;

/// Cooldown after a rate-limit answer: 180 s.
pub const RATE_LIMIT_COOLDOWN_MS: u64 = 180_000;

/// Instants up to which recording an event cannot overflow the clock.
pub open spec fn recordable(now: u64) -> bool {
    now <= u64::MAX - COOLDOWN_MAX_MS
}

/// The state of a provider nothing has happened to yet.
pub open spec fn initial_state() -> ProviderState {
    ProviderState {
        status: ProviderRuntimeStatus::Healthy,
        consecutive_failures: 0,
        cooldown_until: None,
        last_status_code: None,
        last_quality: None,
        last_success: None,
    }
}

/// Whether a provider in state `s` can be selected at `now`.
pub open spec fn available(s: ProviderState, now: u64) -> bool {
    match s.status {
        ProviderRuntimeStatus::Healthy | ProviderRuntimeStatus::Filtered
        | ProviderRuntimeStatus::Degraded => true,
        ProviderRuntimeStatus::Cooldown | ProviderRuntimeStatus::Unreachable => match s.cooldown_until {
            None => true,
            Some(until) => until <= now,
        },
        ProviderRuntimeStatus::QuotaExhausted | ProviderRuntimeStatus::AuthMissing => false,
    }
}

pub open spec fn pow2(e: nat) -> nat
    decreases e,
{
    if e == 0 {
        1
    } else {
        2 * pow2((e - 1) as nat)
    }
}

/// Exponential backoff: 30 s doubled per consecutive failure beyond the
/// first (at most five doublings), capped at 15 min.
pub open spec fn failure_delay(failures: u32) -> u64 {
    let e: nat = if failures <= 1 {
        0
    } else if failures - 1 > 5 {
        5
    } else {
        (failures - 1) as nat
    };
    let d = COOLDOWN_BASE_MS * pow2(e);
    if d > COOLDOWN_MAX_MS {
        COOLDOWN_MAX_MS
    } else {
        d as u64
    }
}

pub open spec fn inc_failures(n: u32) -> u32 {
    if n == u32::MAX {
        u32::MAX
    } else {
        (n + 1) as u32
    }
}

pub open spec fn after_success(s: ProviderState, now: u64, quality: u32) -> ProviderState {
    ProviderState {
        status: ProviderRuntimeStatus::Healthy,
        consecutive_failures: 0,
        cooldown_until: None,
        last_status_code: None,
        last_quality: Some(if quality > 1000 {
            1000
        } else {
            quality
        }),
        last_success: Some(now),
    }
}

pub open spec fn after_rate_limit(s: ProviderState, now: u64, status: u16) -> ProviderState {
    ProviderState {
        status: ProviderRuntimeStatus::Cooldown,
        consecutive_failures: inc_failures(s.consecutive_failures),
        cooldown_until: Some((now + RATE_LIMIT_COOLDOWN_MS) as u64),
        last_status_code: Some(status),
        last_quality: Some(0),
        ..s
    }
}

pub open spec fn after_unreachable(s: ProviderState, now: u64) -> ProviderState {
    ProviderState {
        status: ProviderRuntimeStatus::Unreachable,
        consecutive_failures: inc_failures(s.consecutive_failures),
        cooldown_until: Some(
            (now + failure_delay(inc_failures(s.consecutive_failures))) as u64,
        ),
        last_quality: Some(0),
        ..s
    }
}

pub open spec fn after_empty(s: ProviderState, now: u64) -> ProviderState {
    ProviderState {
        status: ProviderRuntimeStatus::Degraded,
        last_quality: Some(0),
        last_success: Some(now),
        ..s
    }
}

impl ProviderState {
    /// The state of a provider nothing has happened to yet.
    pub fn new() -> (r: Self)
        ensures
            r == initial_state(),
    {
        Self {
            status: ProviderRuntimeStatus::Healthy,
            consecutive_failures: 0,
            cooldown_until: None,
            last_status_code: None,
            last_quality: None,
            last_success: None,
        }
    }

    /// Whether this provider can be selected at `now`.
    pub fn available_at(&self, now: u64) -> (r: bool)
        ensures
            r == available(*self, now),
    {
        match self.status {
            ProviderRuntimeStatus::Healthy | ProviderRuntimeStatus::Filtered
            | ProviderRuntimeStatus::Degraded => true,
            ProviderRuntimeStatus::Cooldown | ProviderRuntimeStatus::Unreachable => match self.cooldown_until {
                None => true,
                Some(until) => until <= now,
            },
            ProviderRuntimeStatus::QuotaExhausted | ProviderRuntimeStatus::AuthMissing => false,
        }
    }

    fn delay_for_failure(&self) -> (r: u64)
        ensures
            r == failure_delay(self.consecutive_failures),
    {
        let e: u32 = if self.consecutive_failures <= 1 {
            0
        } else if self.consecutive_failures - 1 > 5 {
            5
        } else {
            self.consecutive_failures - 1
        };
        let mut d: u64 = COOLDOWN_BASE_MS;
        let mut k: u32 = 0;
        while k < e
            invariant
                k <= e <= 5,
                d == COOLDOWN_BASE_MS * pow2(k as nat),
            decreases e - k,
        {
            assert(pow2((k + 1) as nat) == 2 * pow2(k as nat));
            assert(pow2(k as nat) <= 16) by {
                lemma_pow2_small(k as nat);
            }
            d = d * 2;
            k = k + 1;
        }
        if d > COOLDOWN_MAX_MS {
            COOLDOWN_MAX_MS
        } else {
            d
        }
    }

    /// Record usable results and clear transient failure state. `quality`
    /// is in thousandths and is clamped to `1000`.
    pub fn record_success_at(&mut self, now: u64, quality: u32)
        ensures
            *final(self) == after_success(*old(self), now, quality),
    {
        self.status = ProviderRuntimeStatus::Healthy;
        self.consecutive_failures = 0;
        self.cooldown_until = None;
        self.last_status_code = None;
        self.last_quality = Some(if quality > 1000 {
            1000
        } else {
            quality
        });
        self.last_success = Some(now);
    }

    /// Record an anti-bot/rate-limit answer and open its circuit.
    pub fn record_rate_limited_at(&mut self, now: u64, status: u16)
        requires
            recordable(now),
        ensures
            *final(self) == after_rate_limit(*old(self), now, status),
    {
        self.consecutive_failures = self.consecutive_failures.saturating_add(1);
        self.status = ProviderRuntimeStatus::Cooldown;
        self.cooldown_until = Some(now + RATE_LIMIT_COOLDOWN_MS);
        self.last_status_code = Some(status);
        self.last_quality = Some(0);
    }

    /// Record a transport failure with exponential cooldown.
    pub fn record_unreachable_at(&mut self, now: u64)
        requires
            recordable(now),
        ensures
            *final(self) == after_unreachable(*old(self), now),
    {
        self.consecutive_failures = self.consecutive_failures.saturating_add(1);
        self.status = ProviderRuntimeStatus::Unreachable;
        let d = self.delay_for_failure();
        self.cooldown_until = Some(now + d);
        self.last_quality = Some(0);
    }

    /// Record a successful response with no usable quality, without opening
    /// a circuit: a genuinely empty topic is not an outage.
    pub fn record_empty_at(&mut self, now: u64)
        ensures
            *final(self) == after_empty(*old(self), now),
    {
        self.status = ProviderRuntimeStatus::Degraded;
        self.last_quality = Some(0);
        self.last_success = Some(now);
    }
}

proof fn lemma_pow2_small(k: nat)
    requires
        k <= 4,
    ensures
        pow2(k) <= 16,
{
    reveal_with_fuel(pow2, 5);
}

// ---------------------------------------------------------------------------
// The state table
// ---------------------------------------------------------------------------

/// Runtime state of every registered provider, keyed by provider id.
pub struct ProviderStates {
    entries: Vec<(String, ProviderState)>,
}

pub open spec fn keys_distinct(e: Seq<(String, ProviderState)>) -> bool {
    forall|i: int, j: int| 0 <= i < j < e.len() ==> e[i].0@ != e[j].0@
}

pub open spec fn has_key(e: Seq<(String, ProviderState)>, k: Seq<char>) -> bool {
    exists|i: int| 0 <= i < e.len() && (#[trigger] e[i]).0@ == k
}

/// The map an entry list stands for.
pub open spec fn table_map(e: Seq<(String, ProviderState)>) -> Map<Seq<char>, ProviderState> {
    Map::new(
        |k: Seq<char>| has_key(e, k),
        |k: Seq<char>| e[choose|i: int| 0 <= i < e.len() && (#[trigger] e[i]).0@ == k].1,
    )
}

proof fn lemma_table_at(e: Seq<(String, ProviderState)>, i: int)
    requires
        keys_distinct(e),
        0 <= i < e.len(),
    ensures
        table_map(e).contains_key(e[i].0@),
        table_map(e)[e[i].0@] == e[i].1,
{
    let k = e[i].0@;
    assert(has_key(e, k));
    let j = choose|j: int| 0 <= j < e.len() && (#[trigger] e[j]).0@ == k;
    assert(j == i);
}

impl View for ProviderStates {
    type V = Map<Seq<char>, ProviderState>;

    closed spec fn view(&self) -> Map<Seq<char>, ProviderState> {
        table_map(self.entries@)
    }
}

impl ProviderStates {
    #[verifier::type_invariant]
    closed spec fn inv(self) -> bool {
        keys_distinct(self.entries@)
    }

    /// An empty table.
    pub fn new() -> (r: Self)
        ensures
            r@ == Map::<Seq<char>, ProviderState>::empty(),
    {
        let r = ProviderStates { entries: Vec::new() };
        assert(r@ =~= Map::<Seq<char>, ProviderState>::empty());
        r
    }

    fn index_of(&self, id: &str) -> (r: Option<usize>)
        ensures
            match r {
                Some(i) => i < self.entries.len() && self.entries@[i as int].0@ == id@,
                None => !has_key(self.entries@, id@),
            },
    {
        let v = chars_of(id);
        let mut i: usize = 0;
        while i < self.entries.len()
            invariant
                i <= self.entries.len(),
                v@ == id@,
                forall|k: int| 0 <= k < i ==> (#[trigger] self.entries@[k]).0@ != id@,
            decreases self.entries.len() - i,
        {
            let k = chars_of(self.entries[i].0.as_str());
            if crate::text::chars_eq(&k, &v) {
                return Some(i);
            }
            i = i + 1;
        }
        None
    }

    /// The state of provider `id`, if registered.
    pub fn get(&self, id: &str) -> (r: Option<ProviderState>)
        ensures
            match r {
                Some(s) => self@.contains_key(id@) && self@[id@] == s,
                None => !self@.contains_key(id@),
            },
    {
        proof {
            use_type_invariant(self);
        }
        match self.index_of(id) {
            Some(i) => {
                proof {
                    lemma_table_at(self.entries@, i as int);
                }
                Some(self.entries[i].1)
            },
            None => None,
        }
    }

    /// Register `id` with a fresh state unless it is already present.
    pub fn ensure(&mut self, id: &String)
        ensures
            final(self)@ == if old(self)@.contains_key(id@) {
                old(self)@
            } else {
                old(self)@.insert(id@, initial_state())
            },
    {
        proof {
            use_type_invariant(&*self);
        }
        match self.index_of(id.as_str()) {
            Some(i) => {
                proof {
                    lemma_table_at(self.entries@, i as int);
                }
            },
            None => {
                let ghost old_e = self.entries@;
                let mut entries = Vec::new();
                std::mem::swap(&mut entries, &mut self.entries);
                entries.push((id.clone(), ProviderState::new()));
                let ghost ne = entries@;
                assert(keys_distinct(ne)) by {
                    assert forall|i: int, j: int| 0 <= i < j < ne.len() implies ne[i].0@
                        != ne[j].0@ by {
                        if j == ne.len() - 1 {
                            assert(ne[i] == old_e[i]);
                        }
                    }
                }
                self.entries = entries;
                proof {
                    assert(!has_key(old_e, id@));
                    assert forall|k: Seq<char>| #[trigger] has_key(ne, k) == (has_key(old_e, k) || k
                        == id@) by {
                        if has_key(old_e, k) {
                            let i = choose|i: int| 0 <= i < old_e.len() && (#[trigger] old_e[i]).0@
                                == k;
                            assert(ne[i] == old_e[i]);
                        }
                        if k == id@ {
                            assert(ne[ne.len() - 1].0@ == k);
                        }
                        if has_key(ne, k) {
                            let i = choose|i: int| 0 <= i < ne.len() && (#[trigger] ne[i]).0@ == k;
                            if i < old_e.len() {
                                assert(ne[i] == old_e[i]);
                            }
                        }
                    }
                    assert forall|k: Seq<char>| #[trigger] has_key(ne, k) implies table_map(ne)[k]
                        == old_e_insert(old_e, id@)[k] by {
                        if k == id@ {
                            lemma_table_at(ne, ne.len() - 1);
                        } else {
                            let i = choose|i: int| 0 <= i < old_e.len() && (#[trigger] old_e[i]).0@
                                == k;
                            assert(ne[i] == old_e[i]);
                            lemma_table_at(ne, i);
                            lemma_table_at(old_e, i);
                        }
                    }
                    assert(table_map(ne) =~= table_map(old_e).insert(id@, initial_state()));
                }
            },
        }
    }

    /// Replace the state at entry `i`.
    fn set_state(&mut self, i: usize, s: ProviderState)
        requires
            i < old(self).entries.len(),
        ensures
            final(self).entries.len() == old(self).entries.len(),
            final(self)@ == old(self)@.insert(old(self).entries@[i as int].0@, s),
    {
        proof {
            use_type_invariant(&*self);
        }
        let ghost old_e = self.entries@;
        let mut entries = Vec::new();
        std::mem::swap(&mut entries, &mut self.entries);
        let key = entries[i].0.clone();
        entries.set(i, (key, s));
        let ghost ne = entries@;
        assert(keys_distinct(ne)) by {
            assert forall|a: int, b: int| 0 <= a < b < ne.len() implies ne[a].0@ != ne[b].0@ by {
                assert(ne[a].0@ == old_e[a].0@);
                assert(ne[b].0@ == old_e[b].0@);
            }
        }
        self.entries = entries;
        proof {
            let k0 = old_e[i as int].0@;
            assert forall|k: Seq<char>| #[trigger] has_key(ne, k) == has_key(old_e, k) by {
                if has_key(ne, k) {
                    let j = choose|j: int| 0 <= j < ne.len() && (#[trigger] ne[j]).0@ == k;
                    assert(old_e[j].0@ == k);
                }
                if has_key(old_e, k) {
                    let j = choose|j: int| 0 <= j < old_e.len() && (#[trigger] old_e[j]).0@ == k;
                    assert(ne[j].0@ == k);
                }
            }
            lemma_table_at(old_e, i as int);
            assert forall|k: Seq<char>| #[trigger] has_key(ne, k) implies table_map(ne)[k]
                == table_map(old_e).insert(k0, s)[k] by {
                let j = choose|j: int| 0 <= j < ne.len() && (#[trigger] ne[j]).0@ == k;
                lemma_table_at(ne, j);
                if j != i {
                    assert(ne[j] == old_e[j]);
                    lemma_table_at(old_e, j);
                }
            }
            assert(table_map(ne) =~= table_map(old_e).insert(k0, s));
        }
    }

    /// Apply an event to the state of `id`, when `id` is registered.
    fn update_with(&mut self, id: &str, event: StateEvent, now: u64)
        requires
            recordable(now),
        ensures
            final(self)@ == if old(self)@.contains_key(id@) {
                old(self)@.insert(id@, after_event(old(self)@[id@], event, now))
            } else {
                old(self)@
            },
    {
        proof {
            use_type_invariant(&*self);
        }
        match self.index_of(id) {
            Some(i) => {
                proof {
                    lemma_table_at(self.entries@, i as int);
                }
                let mut s = self.entries[i].1;
                match event {
                    StateEvent::Success { quality } => s.record_success_at(now, quality),
                    StateEvent::Empty => s.record_empty_at(now),
                    StateEvent::RateLimited { status } => s.record_rate_limited_at(now, status),
                    StateEvent::Unreachable => s.record_unreachable_at(now),
                }
                self.set_state(i, s);
            },
            None => {},
        }
    }
}

pub open spec fn old_e_insert(e: Seq<(String, ProviderState)>, id: Seq<char>) -> Map<
    Seq<char>,
    ProviderState,
> {
    table_map(e).insert(id, initial_state())
}

/// Something that happened to a provider during a call.
#[derive(Clone, Copy, Debug)]
pub enum StateEvent {
    /// Usable results, with their quality in thousandths.
    Success { quality: u32 },
    /// An answer with nothing usable.
    Empty,
    /// An anti-bot answer.
    RateLimited { status: u16 },
    /// No answer at all.
    Unreachable,
}

pub open spec fn after_event(s: ProviderState, e: StateEvent, now: u64) -> ProviderState {
    match e {
        StateEvent::Success { quality } => after_success(s, now, quality),
        StateEvent::Empty => after_empty(s, now),
        StateEvent::RateLimited { status } => after_rate_limit(s, now, status),
        StateEvent::Unreachable => after_unreachable(s, now),
    }
}

// ---------------------------------------------------------------------------
// Registry and selection
// ---------------------------------------------------------------------------

/// The configured providers that have an adapter, each once, in configured order.
pub open spec fn registered(ids: Seq<Seq<char>>) -> Seq<Seq<char>>
    decreases ids.len(),
{
    if ids.len() == 0 {
        Seq::<Seq<char>>::empty()
    } else {
        let m = registered(ids.drop_last());
        if known_provider(ids.last()) && !m.contains(ids.last()) {
            m.push(ids.last())
        } else {
            m
        }
    }
}

/// `states` with a fresh state for every id of `ids` it lacks.
pub open spec fn with_fresh(
    states: Map<Seq<char>, ProviderState>,
    ids: Seq<Seq<char>>,
) -> Map<Seq<char>, ProviderState>
    decreases ids.len(),
{
    if ids.len() == 0 {
        states
    } else {
        let m = with_fresh(states, ids.drop_last());
        if m.contains_key(ids.last()) {
            m
        } else {
            m.insert(ids.last(), initial_state())
        }
    }
}

/// Registry of manifests and runtime states for one query profile.
pub struct ProviderRegistry {
    manifests: Vec<ProviderManifest>,
    states: ProviderStates,
    profile: ProviderProfile,
}

impl ProviderRegistry {
    #[verifier::type_invariant]
    closed spec fn inv(self) -> bool {
        &&& self.manifests.len() == self.profile.members.len()
        &&& forall|i: int|
            0 <= i < self.manifests.len() ==> is_builtin_manifest(
                #[trigger] self.manifests@[i],
                self.profile.members@[i]@,
            )
        &&& forall|i: int, j: int|
            0 <= i < j < self.profile.members.len() ==> self.profile.members@[i]@
                != self.profile.members@[j]@
    }

    /// The registered provider ids, in profile order.
    pub closed spec fn member_ids(&self) -> Seq<Seq<char>> {
        strings_view(self.profile.members@)
    }

    /// The runtime state of every registered provider.
    pub closed spec fn state_map(&self) -> Map<Seq<char>, ProviderState> {
        self.states@
    }

    pub closed spec fn initial_wave(&self) -> usize {
        self.profile.max_initial
    }

    pub closed spec fn wave_bound(&self) -> usize {
        self.profile.max_total
    }

    /// Build a registry using a fresh state table.
    pub fn from_config(config: &Config) -> (r: Self)
        ensures
            r.member_ids() == registered(strings_view(config.providers@)),
            r.state_map() == with_fresh(
                Map::<Seq<char>, ProviderState>::empty(),
                registered(strings_view(config.providers@)),
            ),
            r.initial_wave() == config.metasearch_initial,
            r.wave_bound() == config.metasearch_total,
    {
        Self::from_config_with_state(config, ProviderStates::new())
    }

    /// Build a registry around an existing state table (the process keeps
    /// one table across calls, so cooldowns outlive a single search).
    pub fn from_config_with_state(config: &Config, states: ProviderStates) -> (r: Self)
        ensures
            r.member_ids() == registered(strings_view(config.providers@)),
            r.state_map() == with_fresh(states@, registered(strings_view(config.providers@))),
            r.initial_wave() == config.metasearch_initial,
            r.wave_bound() == config.metasearch_total,
    {
        let ghost ids = strings_view(config.providers@);
        let ghost s0 = states@;
        let mut states = states;
        let mut manifests: Vec<ProviderManifest> = Vec::new();
        let mut members: Vec<String> = Vec::new();
        let mut i: usize = 0;
        while i < config.providers.len()
            invariant
                i <= config.providers.len(),
                ids == strings_view(config.providers@),
                strings_view(members@) == registered(ids.take(i as int)),
                states@ == with_fresh(s0, registered(ids.take(i as int))),
                manifests.len() == members.len(),
                forall|k: int|
                    0 <= k < manifests.len() ==> is_builtin_manifest(
                        #[trigger] manifests@[k],
                        members@[k]@,
                    ),
                forall|k: int|
                    0 <= k < members.len() ==> states@.contains_key((#[trigger] members@[k])@),
                forall|a: int, b: int| 0 <= a < b < members.len() ==> members@[a]@ != members@[b]@,
            decreases config.providers.len() - i,
        {
            let id = &config.providers[i];
            let ghost pre = ids.take(i as int);
            let ghost m = registered(pre);
            proof {
                assert(ids.take(i + 1).drop_last() =~= pre);
                assert(ids.take(i + 1).last() == id@);
            }
            match builtin_manifest(id.as_str()) {
                None => {},
                Some(manifest) => {
                    let mv = copy_strings(&members);
                    let mut found = false;
                    let mut k: usize = 0;
                    while k < mv.len()
                        invariant
                            k <= mv.len(),
                            mv@ == members@,
                            found == exists|j: int| 0 <= j < k && mv@[j]@ == id@,
                        decreases mv.len() - k,
                    {
                        if mv[k] == *id {
                            found = true;
                        }
                        k = k + 1;
                    }
                    proof {
                        if found {
                            let j = choose|j: int| 0 <= j < mv.len() && mv@[j]@ == id@;
                            assert(strings_view(members@)[j] == id@);
                        } else {
                            assert forall|j: int| 0 <= j < m.len() implies m[j] != id@ by {
                                assert(m[j] == members@[j]@);
                            }
                        }
                    }
                    if !found {
                        let ghost old_states = states@;
                        let ghost old_members = members@;
                        states.ensure(id);
                        manifests.push(manifest);
                        members.push(id.clone());
                        proof {
                            assert(strings_view(members@) =~= strings_view(old_members).push(id@));
                            assert(registered(ids.take(i + 1)) == m.push(id@));
                            assert(m.push(id@).drop_last() =~= m);
                            assert forall|k: int| 0 <= k < members.len() implies states@.contains_key(
                                (#[trigger] members@[k])@,
                            ) by {
                                if k < old_members.len() {
                                    assert(members@[k] == old_members[k]);
                                }
                            }
                        }
                    }
                },
            }
            i = i + 1;
        }
        proof {
            assert(ids.take(config.providers.len() as int) =~= ids);
        }
        let r = ProviderRegistry {
            manifests,
            states,
            profile: ProviderProfile {
                id: String::from_str("general"),
                members,
                max_initial: config.metasearch_initial,
                max_total: config.metasearch_total,
            },
        };
        r
    }

    /// The configured, implemented provider ids in profile order.
    pub fn members(&self) -> (r: Vec<String>)
        ensures
            strings_view(r@) == self.member_ids(),
    {
        copy_strings(&self.profile.members)
    }

    /// The runtime state of provider `id`, if registered.
    pub fn state_of(&self, id: &str) -> (r: Option<ProviderState>)
        ensures
            match r {
                Some(s) => self.state_map().contains_key(id@) && self.state_map()[id@] == s,
                None => !self.state_map().contains_key(id@),
            },
    {
        self.states.get(id)
    }

    /// Hand the state table back, to be kept for later calls.
    pub fn into_states(self) -> (r: ProviderStates)
        ensures
            r@ == self.state_map(),
    {
        self.states
    }
}

// ---------------------------------------------------------------------------
// Selection
// ---------------------------------------------------------------------------

/// Bonus points for past quality: `round(quality * 20)`, unknown quality counting as one half.
pub open spec fn quality_bonus(q: Option<u32>) -> int {
    let p: int = match q {
        Some(p) => p as int,
        None => 500,
    };
    (p + 25) / 50
}

pub open spec fn score_of(id: Seq<char>, s: ProviderState) -> int {
    builtin_priority(id) + quality_bonus(s.last_quality)
}

/// `(score, id)` of every member not yet attempted whose state is available at `now`.
pub open spec fn candidates(
    members: Seq<Seq<char>>,
    states: Map<Seq<char>, ProviderState>,
    attempted: Seq<Seq<char>>,
    now: u64,
) -> Seq<(int, Seq<char>)>
    decreases members.len(),
{
    if members.len() == 0 {
        Seq::<(int, Seq<char>)>::empty()
    } else {
        let c = candidates(members.drop_last(), states, attempted, now);
        let id = members.last();
        if !attempted.contains(id) && states.contains_key(id) && available(states[id], now) {
            c.push((score_of(id, states[id]), id))
        } else {
            c
        }
    }
}

/// `c` placed after every element whose score is at least its own.
pub open spec fn insert_ranked(sorted: Seq<(int, Seq<char>)>, c: (int, Seq<char>)) -> Seq<
    (int, Seq<char>),
>
    decreases sorted.len(),
{
    if sorted.len() == 0 {
        seq![c]
    } else if sorted.last().0 >= c.0 {
        sorted.push(c)
    } else {
        insert_ranked(sorted.drop_last(), c).push(sorted.last())
    }
}

/// Stable sort by descending score.
pub open spec fn ranked(cands: Seq<(int, Seq<char>)>) -> Seq<(int, Seq<char>)>
    decreases cands.len(),
{
    if cands.len() == 0 {
        Seq::<(int, Seq<char>)>::empty()
    } else {
        insert_ranked(ranked(cands.drop_last()), cands.last())
    }
}

/// The providers chosen for the next wave: the best-scoring eligible ones,
/// at most `min(max_initial, max_total)` of them.
pub open spec fn selection(
    members: Seq<Seq<char>>,
    states: Map<Seq<char>, ProviderState>,
    attempted: Seq<Seq<char>>,
    now: u64,
    max_initial: nat,
    max_total: nat,
) -> Seq<Seq<char>> {
    let r = ranked(candidates(members, states, attempted, now));
    let k = if max_initial < max_total {
        max_initial
    } else {
        max_total
    };
    let top = if r.len() <= k {
        r
    } else {
        r.take(k as int)
    };
    top.map_values(|c: (int, Seq<char>)| c.1)
}

pub open spec fn scored_view(v: Seq<(i64, String)>) -> Seq<(int, Seq<char>)> {
    v.map_values(|c: (i64, String)| (c.0 as int, c.1@))
}

/// Insert `c` into `v` the way [`insert_ranked`] describes.
fn insert_scored(v: &mut Vec<(i64, String)>, c: (i64, String))
    ensures
        scored_view(final(v)@) == insert_ranked(scored_view(old(v)@), (c.0 as int, c.1@)),
{
    let ghost cv = (c.0 as int, c.1@);
    let ghost s = scored_view(v@);
    let mut i: usize = v.len();
    assert(s.take(i as int) =~= s);
    assert(s.skip(i as int) =~= Seq::<(int, Seq<char>)>::empty());
    while i > 0 && v[i - 1].0 < c.0
        invariant
            i <= v.len(),
            s == scored_view(v@),
            cv == (c.0 as int, c.1@),
            insert_ranked(s, cv) == insert_ranked(s.take(i as int), cv) + s.skip(i as int),
        decreases i,
    {
        proof {
            let t = s.take(i as int);
            assert(t.last() == s[i - 1]);
            assert(t.drop_last() =~= s.take(i - 1));
            assert(insert_ranked(t, cv) == insert_ranked(s.take(i - 1), cv).push(s[i - 1]));
            assert(insert_ranked(s.take(i - 1), cv).push(s[i - 1]) + s.skip(i as int)
                =~= insert_ranked(s.take(i - 1), cv) + s.skip(i - 1));
        }
        i = i - 1;
    }
    proof {
        let t = s.take(i as int);
        if i > 0 {
            assert(t.last() == s[i - 1]);
        }
        assert(insert_ranked(t, cv) =~= t.push(cv));
    }
    v.insert(i, c);
    assert(scored_view(v@) =~= s.take(i as int).push(cv) + s.skip(i as int));
}

impl ProviderRegistry {
    /// Select up to the initial wave from currently eligible providers.
    pub fn select(&self, now: u64) -> (r: Vec<String>)
        ensures
            strings_view(r@) == selection(
                self.member_ids(),
                self.state_map(),
                Seq::<Seq<char>>::empty(),
                now,
                self.initial_wave() as nat,
                self.wave_bound() as nat,
            ),
    {
        let none: Vec<String> = Vec::new();
        assert(strings_view(none@) =~= Seq::<Seq<char>>::empty());
        self.select_remaining(&none, now)
    }

    /// Select the next wave, excluding providers attempted in this call.
    pub fn select_remaining(&self, attempted: &Vec<String>, now: u64) -> (r: Vec<String>)
        ensures
            strings_view(r@) == selection(
                self.member_ids(),
                self.state_map(),
                strings_view(attempted@),
                now,
                self.initial_wave() as nat,
                self.wave_bound() as nat,
            ),
    {
        proof {
            use_type_invariant(self);
        }
        let ghost mv = strings_view(self.profile.members@);
        let ghost av = strings_view(attempted@);
        let mut ranked_v: Vec<(i64, String)> = Vec::new();
        let mut i: usize = 0;
        while i < self.profile.members.len()
            invariant
                i <= self.profile.members.len(),
                mv == strings_view(self.profile.members@),
                av == strings_view(attempted@),
                self.manifests.len() == self.profile.members.len(),
                forall|k: int|
                    0 <= k < self.manifests.len() ==> is_builtin_manifest(
                        #[trigger] self.manifests@[k],
                        self.profile.members@[k]@,
                    ),
                scored_view(ranked_v@) == ranked(
                    candidates(mv.take(i as int), self.states@, av, now),
                ),
            decreases self.profile.members.len() - i,
        {
            let id = &self.profile.members[i];
            let ghost pre = mv.take(i as int);
            proof {
                assert(mv.take(i + 1).drop_last() =~= pre);
                assert(mv.take(i + 1).last() == id@);
            }
            let mut seen = false;
            let mut k: usize = 0;
            while k < attempted.len()
                invariant
                    k <= attempted.len(),
                    av == strings_view(attempted@),
                    seen == exists|j: int| 0 <= j < k && attempted@[j]@ == id@,
                decreases attempted.len() - k,
            {
                if attempted[k] == *id {
                    seen = true;
                }
                k = k + 1;
            }
            proof {
                if seen {
                    let j = choose|j: int| 0 <= j < attempted.len() && attempted@[j]@ == id@;
                    assert(av[j] == id@);
                } else {
                    assert forall|j: int| 0 <= j < av.len() implies av[j] != id@ by {
                        assert(av[j] == attempted@[j]@);
                    }
                }
            }
            if !seen {
                match self.states.get(id.as_str()) {
                    Some(state) => {
                        if state.available_at(now) {
                            let q: i64 = match state.last_quality {
                                Some(p) => p as i64,
                                None => 500,
                            };
                            let score: i64 = self.manifests[i].priority as i64 + (q + 25) / 50;
                            let ghost c = candidates(pre, self.states@, av, now);
                            insert_scored(&mut ranked_v, (score, id.clone()));
                            proof {
                                assert(candidates(mv.take(i + 1), self.states@, av, now) == c.push(
                                    (score as int, id@),
                                ));
                                assert(c.push((score as int, id@)).drop_last() =~= c);
                            }
                        }
                    },
                    None => {},
                }
            }
            i = i + 1;
        }
        proof {
            assert(mv.take(self.profile.members.len() as int) =~= mv);
        }
        let k: usize = if self.profile.max_initial < self.profile.max_total {
            self.profile.max_initial
        } else {
            self.profile.max_total
        };
        let mut out: Vec<String> = Vec::new();
        let mut j: usize = 0;
        let ghost rs = scored_view(ranked_v@);
        while j < ranked_v.len() && j < k
            invariant
                j <= ranked_v.len(),
                j <= k,
                rs == scored_view(ranked_v@),
                strings_view(out@) == rs.take(j as int).map_values(|c: (int, Seq<char>)| c.1),
            decreases ranked_v.len() - j,
        {
            let ghost old_out = out@;
            out.push(ranked_v[j].1.clone());
            proof {
                assert(rs[j as int].1 == ranked_v@[j as int].1@);
                assert(strings_view(out@) =~= strings_view(old_out).push(rs[j as int].1));
                assert(rs.take(j + 1).map_values(|c: (int, Seq<char>)| c.1) =~= rs.take(
                    j as int,
                ).map_values(|c: (int, Seq<char>)| c.1).push(rs[j as int].1));
                assert(strings_view(out@) =~= rs.take(j + 1).map_values(
                    |c: (int, Seq<char>)| c.1,
                ));
            }
            j = j + 1;
        }
        proof {
            if rs.len() <= k {
                assert(rs.take(j as int) =~= rs);
            }
        }
        out
    }
}

// ---------------------------------------------------------------------------
// Recording outcomes
// ---------------------------------------------------------------------------

/// Quality of a provider that returned `count` usable results: a tenth per
/// result, at most one (in thousandths).
pub open spec fn quality_for(count: nat) -> u32 {
    if count >= 10 {
        1000
    } else {
        (count * 100) as u32
    }
}

/// The event a provider status records.
pub open spec fn event_of(status: ProviderStatusV) -> StateEvent {
    match status {
        ProviderStatusV::Success { count } => StateEvent::Success { quality: quality_for(count) },
        ProviderStatusV::Empty => StateEvent::Empty,
        ProviderStatusV::Filtered { .. } => StateEvent::Empty,
        ProviderStatusV::RateLimited { status } => StateEvent::RateLimited { status },
        ProviderStatusV::Unreachable { .. } => StateEvent::Unreachable,
    }
}

/// One event applied to the state of `id`, when `id` has a state.
pub open spec fn apply_event(
    m: Map<Seq<char>, ProviderState>,
    id: Seq<char>,
    e: StateEvent,
    now: u64,
) -> Map<Seq<char>, ProviderState> {
    if m.contains_key(id) {
        m.insert(id, after_event(m[id], e, now))
    } else {
        m
    }
}

/// A call's provider statuses applied in order.
pub open spec fn apply_entries(
    m: Map<Seq<char>, ProviderState>,
    entries: Seq<ProviderEntryV>,
    now: u64,
) -> Map<Seq<char>, ProviderState>
    decreases entries.len(),
{
    if entries.len() == 0 {
        m
    } else {
        let e = entries.last();
        apply_event(apply_entries(m, entries.drop_last(), now), e.name, event_of(e.status), now)
    }
}

/// Rate-limit answers applied in order.
pub open spec fn apply_rate_limits(
    m: Map<Seq<char>, ProviderState>,
    limited: Seq<(Seq<char>, u16)>,
    now: u64,
) -> Map<Seq<char>, ProviderState>
    decreases limited.len(),
{
    if limited.len() == 0 {
        m
    } else {
        let p = limited.last();
        apply_event(
            apply_rate_limits(m, limited.drop_last(), now),
            p.0,
            StateEvent::RateLimited { status: p.1 },
            now,
        )
    }
}

fn event_for(status: &ProviderStatus) -> (r: StateEvent)
    ensures
        r == event_of(status@),
{
    match status {
        ProviderStatus::Success { count } => StateEvent::Success {
            quality: if *count >= 10 {
                1000
            } else {
                (*count as u32) * 100
            },
        },
        ProviderStatus::Empty => StateEvent::Empty,
        ProviderStatus::Filtered { .. } => StateEvent::Empty,
        ProviderStatus::RateLimited { status } => StateEvent::RateLimited { status: *status },
        ProviderStatus::Unreachable { .. } => StateEvent::Unreachable,
    }
}

impl ProviderRegistry {
    /// Apply one call's provider statuses to the runtime state.
    pub fn record_outcome(&mut self, outcome: &SearchOutcome, now: u64)
        requires
            recordable(now),
        ensures
            final(self).state_map() == apply_entries(
                old(self).state_map(),
                entries_view(outcome.providers@),
                now,
            ),
            final(self).member_ids() == old(self).member_ids(),
            final(self).initial_wave() == old(self).initial_wave(),
            final(self).wave_bound() == old(self).wave_bound(),
    {
        self.record_entries(&outcome.providers, now);
    }

    fn record_entries(&mut self, entries: &Vec<ProviderEntry>, now: u64)
        requires
            recordable(now),
        ensures
            final(self).state_map() == apply_entries(
                old(self).state_map(),
                entries_view(entries@),
                now,
            ),
            final(self).member_ids() == old(self).member_ids(),
            final(self).initial_wave() == old(self).initial_wave(),
            final(self).wave_bound() == old(self).wave_bound(),
    {
        let ghost ev = entries_view(entries@);
        let ghost m0 = self.states@;
        let mut i: usize = 0;
        while i < entries.len()
            invariant
                i <= entries.len(),
                recordable(now),
                ev == entries_view(entries@),
                self.states@ == apply_entries(m0, ev.take(i as int), now),
                self.profile == old(self).profile,
                self.manifests == old(self).manifests,
                m0 == old(self).states@,
            decreases entries.len() - i,
        {
            let entry = &entries[i];
            proof {
                use_type_invariant(&*self);
                assert(ev.take(i + 1).drop_last() =~= ev.take(i as int));
                assert(ev.take(i + 1).last() == entry@);
            }
            let event = event_for(&entry.status);
            self.update_state(entry.name.as_str(), event, now);
            i = i + 1;
        }
        proof {
            assert(ev.take(entries.len() as int) =~= ev);
        }
    }

    /// Apply one event to a registered provider, keeping the registry well formed.
    fn update_state(&mut self, id: &str, event: StateEvent, now: u64)
        requires
            recordable(now),
        ensures
            final(self).states@ == apply_event(old(self).states@, id@, event, now),
            final(self).profile == old(self).profile,
            final(self).manifests == old(self).manifests,
    {
        proof {
            use_type_invariant(&*self);
        }
        let mut states = ProviderStates::new();
        std::mem::swap(&mut states, &mut self.states);
        states.update_with(id, event, now);
        self.states = states;
    }

    /// Apply rate-limit answers to the runtime state.
    pub fn record_rate_limits(&mut self, providers: &Vec<(String, u16)>, now: u64)
        requires
            recordable(now),
        ensures
            final(self).state_map() == apply_rate_limits(
                old(self).state_map(),
                crate::error::limited_view(providers@),
                now,
            ),
            final(self).member_ids() == old(self).member_ids(),
            final(self).initial_wave() == old(self).initial_wave(),
            final(self).wave_bound() == old(self).wave_bound(),
    {
        let ghost lv = crate::error::limited_view(providers@);
        let ghost m0 = self.states@;
        let mut i: usize = 0;
        while i < providers.len()
            invariant
                i <= providers.len(),
                recordable(now),
                lv == crate::error::limited_view(providers@),
                self.states@ == apply_rate_limits(m0, lv.take(i as int), now),
                self.profile == old(self).profile,
                self.manifests == old(self).manifests,
                m0 == old(self).states@,
            decreases providers.len() - i,
        {
            let p = &providers[i];
            proof {
                assert(lv.take(i + 1).drop_last() =~= lv.take(i as int));
                assert(lv.take(i + 1).last() == (p.0@, p.1));
            }
            self.update_state(p.0.as_str(), StateEvent::RateLimited { status: p.1 }, now);
            i = i + 1;
        }
        proof {
            assert(lv.take(providers.len() as int) =~= lv);
        }
    }
}

// ---------------------------------------------------------------------------
// The router: waves of providers until one answers
// ---------------------------------------------------------------------------

/// The state of one routed search: which providers were tried, what went
/// wrong so far, and the warnings to hand on. The caller runs the loop:
/// it asks [`RouterRun::next_wave`] for the providers of the next wave,
/// fans the query out to them, and hands the merged answer to
/// [`RouterRun::finish_wave`], until that returns the final answer or no
/// wave is left; then [`RouterRun::give_up`] names the failure.
pub struct RouterRun {
    attempted: Vec<String>,
    warnings: Vec<String>,
    last_error: Option<ArgosError>,
    waves: usize,
}

pub struct RouterRunV {
    pub attempted: Seq<Seq<char>>,
    pub warnings: Seq<Seq<char>>,
    pub last_error: Option<ArgosErrorV>,
    pub waves: nat,
}

impl View for RouterRun {
    type V = RouterRunV;

    closed spec fn view(&self) -> RouterRunV {
        RouterRunV {
            attempted: strings_view(self.attempted@),
            warnings: strings_view(self.warnings@),
            last_error: match self.last_error {
                Some(e) => Some(e@),
                None => None,
            },
            waves: self.waves as nat,
        }
    }
}

/// Warnings for rate limits met in a wave that did not answer.
pub open spec fn earlier_wave_warnings(limited: Seq<(Seq<char>, u16)>) -> Seq<Seq<char>>
    decreases limited.len(),
{
    if limited.len() == 0 {
        Seq::<Seq<char>>::empty()
    } else {
        let p = limited.last();
        earlier_wave_warnings(limited.drop_last()).push(
            p.0 + ": rate-limited in an earlier wave (HTTP "@ + decimal(p.1 as nat) + ")"@,
        )
    }
}

/// What a finished wave does to the run: `Some` final answer when the wave
/// answered, else the run state afterwards and the state-table update.
pub open spec fn wave_warnings(e: ArgosErrorV) -> Seq<Seq<char>> {
    match e {
        ArgosErrorV::AllProvidersRateLimited { providers } => earlier_wave_warnings(providers),
        ArgosErrorV::RateLimited { engine, status } => seq![
            engine + ": rate-limited before fallback (HTTP "@ + decimal(status as nat) + ")"@,
        ],
        _ => seq!["fallback wave failed: "@ + error_message(e)],
    }
}

/// The rate limits a failed wave reports.
pub open spec fn wave_rate_limits(e: ArgosErrorV) -> Seq<(Seq<char>, u16)> {
    match e {
        ArgosErrorV::AllProvidersRateLimited { providers } => providers,
        ArgosErrorV::RateLimited { engine, status } => seq![(engine, status)],
        _ => Seq::<(Seq<char>, u16)>::empty(),
    }
}

/// The run after a wave that failed with `e`: the wave's warnings added,
/// `e` kept as the error to report.
pub open spec fn after_failed_wave(run: RouterRunV, e: ArgosErrorV) -> RouterRunV {
    RouterRunV { warnings: run.warnings + wave_warnings(e), last_error: Some(e), ..run }
}

/// The answer of a run whose current wave answered with `o`: `o` with the
/// warnings gathered in earlier waves first.
pub open spec fn answered(run: RouterRunV, o: SearchOutcomeV) -> SearchOutcomeV {
    SearchOutcomeV { warnings: run.warnings + o.warnings, ..o }
}

/// The run after waves that failed with `errs`, in order.
pub open spec fn after_failed_waves(run: RouterRunV, errs: Seq<ArgosErrorV>) -> RouterRunV
    decreases errs.len(),
{
    if errs.len() == 0 {
        run
    } else {
        after_failed_wave(after_failed_waves(run, errs.drop_last()), errs.last())
    }
}

/// The warnings of failed waves, wave by wave.
pub open spec fn waves_warnings(errs: Seq<ArgosErrorV>) -> Seq<Seq<char>>
    decreases errs.len(),
{
    if errs.len() == 0 {
        Seq::<Seq<char>>::empty()
    } else {
        waves_warnings(errs.drop_last()) + wave_warnings(errs.last())
    }
}

/// Across the waves of one search: the answer that ends it carries the
/// answering wave's results and statuses, and its warnings come after those
/// of every failed wave, wave by wave; a search whose waves all failed
/// reports the last wave's error; what was attempted is left to the waves'
/// selection.
pub proof fn law_router_waves(run: RouterRunV, errs: Seq<ArgosErrorV>, o: SearchOutcomeV, members: Seq<Seq<char>>)
    ensures
        answered(after_failed_waves(run, errs), o) == (SearchOutcomeV {
            warnings: run.warnings + waves_warnings(errs) + o.warnings,
            ..o
        }),
        errs.len() > 0 ==> give_up_error(after_failed_waves(run, errs), members) == errs.last(),
        after_failed_waves(run, errs).attempted == run.attempted,
        after_failed_waves(run, errs).waves == run.waves,
    decreases errs.len(),
{
    if errs.len() > 0 {
        law_router_waves(run, errs.drop_last(), o, members);
        let r = after_failed_waves(run, errs.drop_last());
        assert(r.warnings == run.warnings + waves_warnings(errs.drop_last())) by {
            lemma_failed_waves_warnings(run, errs.drop_last());
        }
        assert(run.warnings + waves_warnings(errs) + o.warnings =~= r.warnings + wave_warnings(
            errs.last(),
        ) + o.warnings);
    }
}

proof fn lemma_failed_waves_warnings(run: RouterRunV, errs: Seq<ArgosErrorV>)
    ensures
        after_failed_waves(run, errs).warnings == run.warnings + waves_warnings(errs),
    decreases errs.len(),
{
    if errs.len() > 0 {
        lemma_failed_waves_warnings(run, errs.drop_last());
        assert(run.warnings + waves_warnings(errs) =~= run.warnings + waves_warnings(errs.drop_last())
            + wave_warnings(errs.last()));
    } else {
        assert(run.warnings + waves_warnings(errs) =~= run.warnings);
    }
}

/// The error a run that found no answer ends with.
pub open spec fn give_up_error(run: RouterRunV, members: Seq<Seq<char>>) -> ArgosErrorV {
    match run.last_error {
        Some(e) => e,
        None => ArgosErrorV::NoEligibleProviders { providers: members },
    }
}

impl RouterRun {
    /// A run nothing has been tried in yet.
    pub fn new() -> (r: Self)
        ensures
            r@.attempted.len() == 0,
            r@.warnings.len() == 0,
            r@.last_error is None,
            r@.waves == 0,
    {
        let r = RouterRun { attempted: Vec::new(), warnings: Vec::new(), last_error: None, waves: 0 };
        assert(r@.attempted =~= Seq::<Seq<char>>::empty());
        assert(r@.warnings =~= Seq::<Seq<char>>::empty());
        r
    }

    /// The providers of the next wave: `None` once `max_total` waves ran or
    /// no eligible provider is left untried.
    pub fn next_wave(&mut self, registry: &ProviderRegistry, now: u64) -> (r: Option<Vec<String>>)
        ensures
            ({
                let sel = selection(
                    registry.member_ids(),
                    registry.state_map(),
                    old(self)@.attempted,
                    now,
                    registry.initial_wave() as nat,
                    registry.wave_bound() as nat,
                );
                if old(self)@.waves >= registry.wave_bound() || sel.len() == 0 {
                    r is None && final(self)@ == old(self)@
                } else {
                    &&& r matches Some(v) && strings_view(v@) == sel
                    &&& final(self)@ == (RouterRunV {
                        attempted: old(self)@.attempted + sel,
                        waves: old(self)@.waves + 1,
                        ..old(self)@
                    })
                }
            }),
    {
        if self.waves >= registry.profile_wave_bound() {
            return None;
        }
        let selected = registry.select_remaining(&self.attempted, now);
        if selected.len() == 0 {
            return None;
        }
        let copy = copy_strings(&selected);
        let mut i: usize = 0;
        let ghost a0 = self.attempted@;
        while i < copy.len()
            invariant
                i <= copy.len(),
                copy@ == selected@,
                self.attempted@ == a0 + copy@.take(i as int),
                self.waves == old(self).waves,
                self.warnings == old(self).warnings,
                self.last_error == old(self).last_error,
                a0 == old(self).attempted@,
            decreases copy.len() - i,
        {
            self.attempted.push(copy[i].clone());
            i = i + 1;
            assert(self.attempted@ =~= a0 + copy@.take(i as int));
        }
        assert(copy@.take(copy.len() as int) =~= copy@);
        assert(strings_view(self.attempted@) =~= strings_view(a0) + strings_view(selected@));
        self.waves = self.waves + 1;
        Some(selected)
    }

    /// Take a wave's answer. An answer ends the run: its statuses are
    /// recorded and the warnings gathered in earlier waves go first. A
    /// failure is recorded (rate limits open their providers' circuits),
    /// noted as a warning, and kept as the error to report if nothing else
    /// answers.
    pub fn finish_wave(
        &mut self,
        registry: &mut ProviderRegistry,
        result: Result<SearchOutcome, ArgosError>,
        now: u64,
    ) -> (r: Option<Result<SearchOutcome, ArgosError>>)
        requires
            recordable(now),
        ensures
            final(registry).member_ids() == old(registry).member_ids(),
            final(registry).initial_wave() == old(registry).initial_wave(),
            final(registry).wave_bound() == old(registry).wave_bound(),
            match result {
                Ok(o) => {
                    &&& r matches Some(Ok(f)) && f@ == answered(old(self)@, o@)
                    &&& final(registry).state_map() == apply_entries(
                        old(registry).state_map(),
                        o@.providers,
                        now,
                    )
                },
                Err(e) => {
                    &&& r is None
                    &&& final(registry).state_map() == apply_rate_limits(
                        old(registry).state_map(),
                        wave_rate_limits(e@),
                        now,
                    )
                    &&& final(self)@ == after_failed_wave(old(self)@, e@)
                },
            },
    {
        match result {
            Ok(outcome) => {
                registry.record_outcome(&outcome, now);
                let mut warnings = copy_strings(&self.warnings);
                let mut i: usize = 0;
                let ghost w0 = warnings@;
                while i < outcome.warnings.len()
                    invariant
                        i <= outcome.warnings.len(),
                        warnings@ == w0 + outcome.warnings@.take(i as int),
                    decreases outcome.warnings.len() - i,
                {
                    warnings.push(outcome.warnings[i].clone());
                    i = i + 1;
                    assert(warnings@ =~= w0 + outcome.warnings@.take(i as int));
                }
                assert(outcome.warnings@.take(outcome.warnings.len() as int) =~= outcome.warnings@);
                assert(strings_view(warnings@) =~= strings_view(self.warnings@) + strings_view(
                    outcome.warnings@,
                ));
                let ghost ov = outcome@;
                let f = SearchOutcome {
                    results: outcome.results,
                    providers: outcome.providers,
                    warnings,
                };
                assert(f@.results == ov.results);
                assert(f@.providers == ov.providers);
                assert(f@ == (SearchOutcomeV { warnings: strings_view(self.warnings@) + ov.warnings, ..ov }));
                Some(Ok(f))
            },
            Err(error) => {
                let ghost w0 = self.warnings@;
                match &error {
                    ArgosError::AllProvidersRateLimited { providers } => {
                        registry.record_rate_limits(providers, now);
                        let ghost lv = crate::error::limited_view(providers@);
                        let mut i: usize = 0;
                        while i < providers.len()
                            invariant
                                i <= providers.len(),
                                lv == crate::error::limited_view(providers@),
                                strings_view(self.warnings@) == strings_view(w0)
                                    + earlier_wave_warnings(lv.take(i as int)),
                                self.attempted == old(self).attempted,
                                self.waves == old(self).waves,
                                w0 == old(self).warnings@,
                            decreases providers.len() - i,
                        {
                            let p = &providers[i];
                            let mut w = p.0.clone();
                            w.append(": rate-limited in an earlier wave (HTTP ");
                            let d = decimal_string(p.1 as u64);
                            w.append(d.as_str());
                            w.append(")");
                            let ghost before = self.warnings@;
                            self.warnings.push(w);
                            proof {
                                assert(lv.take(i + 1).drop_last() =~= lv.take(i as int));
                                assert(lv.take(i + 1).last() == (p.0@, p.1));
                                assert(strings_view(self.warnings@) =~= strings_view(before).push(
                                    w@,
                                ));
                            }
                            i = i + 1;
                        }
                        assert(lv.take(providers.len() as int) =~= lv);
                    },
                    ArgosError::RateLimited { engine, status } => {
                        let mut one: Vec<(String, u16)> = Vec::new();
                        one.push((engine.clone(), *status));
                        assert(crate::error::limited_view(one@) =~= seq![(engine@, *status)]);
                        registry.record_rate_limits(&one, now);
                        let mut w = engine.clone();
                        w.append(": rate-limited before fallback (HTTP ");
                        let d = decimal_string(*status as u64);
                        w.append(d.as_str());
                        w.append(")");
                        self.warnings.push(w);
                        assert(strings_view(self.warnings@) =~= strings_view(w0) + seq![w@]);
                    },
                    _ => {
                        let mut w = String::from_str("fallback wave failed: ");
                        let m = error.message();
                        w.append(m.as_str());
                        self.warnings.push(w);
                        assert(strings_view(self.warnings@) =~= strings_view(w0) + seq![w@]);
                        assert(apply_rate_limits(
                            registry.state_map(),
                            Seq::<(Seq<char>, u16)>::empty(),
                            now,
                        ) == registry.state_map());
                    },
                }
                let ghost ev = error@;
                self.last_error = Some(error);
                proof {
                    assert(self@.warnings =~= old(self)@.warnings + wave_warnings(ev));
                    assert(self@.attempted == old(self)@.attempted);
                    assert(self@ == (RouterRunV {
                        warnings: old(self)@.warnings + wave_warnings(ev),
                        last_error: Some(ev),
                        ..old(self)@
                    }));
                }
                None
            },
        }
    }

    /// The error of a run that found no answer: the last wave's failure, or,
    /// when no wave ran, that no provider is eligible.
    pub fn give_up(&self, registry: &ProviderRegistry) -> (r: ArgosError)
        ensures
            r@ == give_up_error(self@, registry.member_ids()),
    {
        match &self.last_error {
            Some(e) => e.duplicate(),
            None => {
                let members = registry.members();
                assert(members@.map_values(|s: String| s@) =~= strings_view(members@));
                ArgosError::NoEligibleProviders { providers: members }
            },
        }
    }
}

impl ProviderRegistry {
    fn profile_wave_bound(&self) -> (r: usize)
        ensures
            r == self.wave_bound(),
    {
        self.profile.max_total
    }
}

// ---------------------------------------------------------------------------
// Laws of provider state and selection
// ---------------------------------------------------------------------------

/// A rate-limited provider is skipped until its cooldown ends, and is
/// eligible again from then on.
pub proof fn law_rate_limit_cooldown(s: ProviderState, now: u64, status: u16, t: u64)
    requires
        recordable(now),
    ensures
        available(after_rate_limit(s, now, status), t) <==> t >= now + RATE_LIMIT_COOLDOWN_MS,
{
}

proof fn lemma_pow2_mono(a: nat, b: nat)
    requires
        a <= b,
    ensures
        1 <= pow2(a) <= pow2(b),
    decreases b,
{
    if a < b {
        lemma_pow2_mono(a, (b - 1) as nat);
    } else if a > 0 {
        lemma_pow2_mono((a - 1) as nat, (a - 1) as nat);
    }
}

/// Backoff doubles with each further consecutive failure up to the cap:
/// after one failure it is 30 s, each of the next failures doubles it, and
/// from six failures on it stays at 15 min.
pub proof fn law_backoff_doubles(failures: u32)
    ensures
        failures <= 1 ==> failure_delay(failures) == COOLDOWN_BASE_MS,
        1 <= failures < 6 ==> failure_delay((failures + 1) as u32) == if 2 * failure_delay(failures)
            > COOLDOWN_MAX_MS {
            COOLDOWN_MAX_MS
        } else {
            (2 * failure_delay(failures)) as u64
        },
        failures >= 6 ==> failure_delay(failures) == COOLDOWN_MAX_MS,
{
    reveal_with_fuel(pow2, 6);
}

/// Backoff after transport failures starts at 30 s, never exceeds 15 min,
/// and never shrinks as failures accumulate.
pub proof fn law_backoff_bounded(failures: u32)
    ensures
        COOLDOWN_BASE_MS <= failure_delay(failures) <= COOLDOWN_MAX_MS,
        failures < u32::MAX ==> failure_delay(failures) <= failure_delay((failures + 1) as u32),
        failures <= 1 ==> failure_delay(failures) == COOLDOWN_BASE_MS,
{
    let e: nat = if failures <= 1 {
        0
    } else if failures - 1 > 5 {
        5
    } else {
        (failures - 1) as nat
    };
    lemma_pow2_mono(0, e);
    if failures < u32::MAX {
        let f2 = (failures + 1) as u32;
        let e2: nat = if f2 <= 1 {
            0
        } else if f2 - 1 > 5 {
            5
        } else {
            (f2 - 1) as nat
        };
        lemma_pow2_mono(e, e2);
        assert(COOLDOWN_BASE_MS * pow2(e) <= COOLDOWN_BASE_MS * pow2(e2)) by (nonlinear_arith)
            requires
                pow2(e) <= pow2(e2),
        ;
    }
    assert(COOLDOWN_BASE_MS * pow2(e) >= COOLDOWN_BASE_MS) by (nonlinear_arith)
        requires
            pow2(e) >= 1,
    ;
    reveal_with_fuel(pow2, 1);
}

/// An unreachable provider is skipped until its backoff ends and recovers
/// afterwards; the first failure backs off exactly 30 s.
pub proof fn law_unreachable_recovers(s: ProviderState, now: u64, t: u64)
    requires
        recordable(now),
    ensures
        available(after_unreachable(s, now), t) <==> t >= now + failure_delay(
            inc_failures(s.consecutive_failures),
        ),
        s.consecutive_failures == 0 ==> (available(after_unreachable(s, now), t) <==> t >= now
            + COOLDOWN_BASE_MS),
{
    law_backoff_bounded(inc_failures(s.consecutive_failures));
}

/// Usable results clear the failure count and make the provider eligible
/// at any time; an empty answer never opens a circuit.
pub proof fn law_success_and_empty_keep_eligible(s: ProviderState, now: u64, quality: u32, t: u64)
    ensures
        available(after_success(s, now, quality), t),
        after_success(s, now, quality).consecutive_failures == 0,
        after_success(s, now, quality).last_quality matches Some(q) && q <= 1000,
        available(after_empty(s, now), t),
{
}

pub open spec fn ids_of(s: Seq<(int, Seq<char>)>) -> Seq<Seq<char>> {
    s.map_values(|c: (int, Seq<char>)| c.1)
}

pub open spec fn seq_distinct<T>(s: Seq<T>) -> bool {
    forall|i: int, j: int| 0 <= i < j < s.len() ==> s[i] != s[j]
}

pub open spec fn sorted_desc(s: Seq<(int, Seq<char>)>) -> bool {
    forall|i: int, j: int| 0 <= i < j < s.len() ==> s[i].0 >= s[j].0
}

proof fn lemma_insert_ranked_elems(s: Seq<(int, Seq<char>)>, x: (int, Seq<char>))
    ensures
        insert_ranked(s, x).len() == s.len() + 1,
        forall|y: (int, Seq<char>)| #[trigger] insert_ranked(s, x).contains(y) <==> (s.contains(y) || y
            == x),
    decreases s.len(),
{
    let r = insert_ranked(s, x);
    if s.len() == 0 {
        assert forall|y: (int, Seq<char>)| #[trigger] r.contains(y) <==> (s.contains(y) || y == x) by {
            if r.contains(y) {
                let k = choose|k: int| 0 <= k < r.len() && r[k] == y;
            }
            if y == x {
                assert(r[0] == x);
            }
        }
    } else if s.last().0 >= x.0 {
        assert forall|y: (int, Seq<char>)| #[trigger] r.contains(y) <==> (s.contains(y) || y == x) by {
            if r.contains(y) {
                let k = choose|k: int| 0 <= k < r.len() && r[k] == y;
                if k < s.len() {
                    assert(s[k] == y);
                }
            }
            if s.contains(y) {
                let k = choose|k: int| 0 <= k < s.len() && s[k] == y;
                assert(r[k] == y);
            }
            if y == x {
                assert(r[s.len() as int] == x);
            }
        }
    } else {
        let p = s.drop_last();
        lemma_insert_ranked_elems(p, x);
        let inner = insert_ranked(p, x);
        assert forall|y: (int, Seq<char>)| #[trigger] r.contains(y) <==> (s.contains(y) || y == x) by {
            if r.contains(y) {
                let k = choose|k: int| 0 <= k < r.len() && r[k] == y;
                if k < inner.len() {
                    assert(inner[k] == y);
                    assert(inner.contains(y));
                    if p.contains(y) {
                        let j = choose|j: int| 0 <= j < p.len() && p[j] == y;
                        assert(s[j] == y);
                    }
                } else {
                    assert(y == s.last());
                    assert(s[s.len() - 1] == y);
                }
            }
            if s.contains(y) {
                let k = choose|k: int| 0 <= k < s.len() && s[k] == y;
                if k < p.len() {
                    assert(p[k] == y);
                    assert(inner.contains(y));
                    let j = choose|j: int| 0 <= j < inner.len() && inner[j] == y;
                    assert(r[j] == y);
                } else {
                    assert(r[r.len() - 1] == y);
                }
            }
            if y == x {
                assert(inner.contains(x));
                let j = choose|j: int| 0 <= j < inner.len() && inner[j] == x;
                assert(r[j] == x);
            }
        }
    }
}

proof fn lemma_insert_ranked_sorted(s: Seq<(int, Seq<char>)>, x: (int, Seq<char>))
    requires
        sorted_desc(s),
    ensures
        sorted_desc(insert_ranked(s, x)),
    decreases s.len(),
{
    if s.len() > 0 && s.last().0 < x.0 {
        let p = s.drop_last();
        lemma_insert_ranked_sorted(p, x);
        lemma_insert_ranked_elems(p, x);
        let inner = insert_ranked(p, x);
        let r = inner.push(s.last());
        assert forall|i: int, j: int| 0 <= i < j < r.len() implies r[i].0 >= r[j].0 by {
            if j == r.len() - 1 {
                assert(inner.contains(inner[i]));
                if p.contains(inner[i]) {
                    let k = choose|k: int| 0 <= k < p.len() && p[k] == inner[i];
                    assert(s[k] == p[k]);
                }
            }
        }
    }
}

proof fn lemma_insert_ranked_distinct(s: Seq<(int, Seq<char>)>, x: (int, Seq<char>))
    requires
        seq_distinct(ids_of(s)),
        !ids_of(s).contains(x.1),
    ensures
        seq_distinct(ids_of(insert_ranked(s, x))),
    decreases s.len(),
{
    let r = insert_ranked(s, x);
    if s.len() == 0 {
    } else if s.last().0 >= x.0 {
        assert forall|i: int, j: int| 0 <= i < j < r.len() implies ids_of(r)[i] != ids_of(r)[j] by {
            if j == s.len() {
                assert(ids_of(s)[i] == ids_of(r)[i]);
            } else {
                assert(ids_of(s)[i] == ids_of(r)[i]);
                assert(ids_of(s)[j] == ids_of(r)[j]);
            }
        }
    } else {
        let p = s.drop_last();
        assert(seq_distinct(ids_of(p))) by {
            assert forall|i: int, j: int| 0 <= i < j < p.len() implies ids_of(p)[i] != ids_of(p)[j] by {
                assert(ids_of(p)[i] == ids_of(s)[i]);
                assert(ids_of(p)[j] == ids_of(s)[j]);
            }
        }
        assert(!ids_of(p).contains(x.1)) by {
            if ids_of(p).contains(x.1) {
                let k = choose|k: int| 0 <= k < p.len() && ids_of(p)[k] == x.1;
                assert(ids_of(s)[k] == x.1);
            }
        }
        lemma_insert_ranked_distinct(p, x);
        lemma_insert_ranked_elems(p, x);
        let inner = insert_ranked(p, x);
        let last = s.last();
        assert forall|i: int, j: int| 0 <= i < j < r.len() implies ids_of(r)[i] != ids_of(r)[j] by {
            if j == r.len() - 1 {
                assert(ids_of(r)[j] == last.1);
                assert(r[i] == inner[i]);
                assert(inner.contains(inner[i]));
                if p.contains(inner[i]) {
                    let k = choose|k: int| 0 <= k < p.len() && p[k] == inner[i];
                    assert(ids_of(s)[k] == inner[i].1);
                    assert(ids_of(s)[s.len() - 1] == last.1);
                } else {
                    assert(inner[i] == x);
                    assert(ids_of(s)[s.len() - 1] == last.1);
                }
            } else {
                assert(ids_of(inner)[i] == ids_of(r)[i]);
                assert(ids_of(inner)[j] == ids_of(r)[j]);
            }
        }
    }
}

/// The facts about `ranked` the selection laws use: it is a rearrangement
/// of the candidates, sorted by descending score, and keeps ids distinct.
proof fn lemma_ranked(c: Seq<(int, Seq<char>)>)
    ensures
        ranked(c).len() == c.len(),
        forall|y: (int, Seq<char>)| #[trigger] ranked(c).contains(y) <==> c.contains(y),
        sorted_desc(ranked(c)),
        seq_distinct(ids_of(c)) ==> seq_distinct(ids_of(ranked(c))),
    decreases c.len(),
{
    if c.len() > 0 {
        let p = c.drop_last();
        lemma_ranked(p);
        lemma_insert_ranked_elems(ranked(p), c.last());
        lemma_insert_ranked_sorted(ranked(p), c.last());
        assert forall|y: (int, Seq<char>)| #[trigger] ranked(c).contains(y) <==> c.contains(y) by {
            if p.contains(y) {
                let k = choose|k: int| 0 <= k < p.len() && p[k] == y;
                assert(c[k] == y);
            }
            if c.contains(y) {
                let k = choose|k: int| 0 <= k < c.len() && c[k] == y;
                if k < p.len() {
                    assert(p[k] == y);
                }
            }
            assert(c[c.len() - 1] == c.last());
        }
        if seq_distinct(ids_of(c)) {
            assert(seq_distinct(ids_of(p))) by {
                assert forall|i: int, j: int| 0 <= i < j < p.len() implies ids_of(p)[i] != ids_of(p)[j] by {
                    assert(ids_of(p)[i] == ids_of(c)[i]);
                    assert(ids_of(p)[j] == ids_of(c)[j]);
                }
            }
            assert(!ids_of(ranked(p)).contains(c.last().1)) by {
                if ids_of(ranked(p)).contains(c.last().1) {
                    let k = choose|k: int| 0 <= k < ranked(p).len() && ids_of(ranked(p))[k] == c.last().1;
                    assert(ranked(p).contains(ranked(p)[k]));
                    let j = choose|j: int| 0 <= j < p.len() && p[j] == ranked(p)[k];
                    assert(ids_of(c)[j] == ids_of(c)[c.len() - 1]);
                }
            }
            lemma_insert_ranked_distinct(ranked(p), c.last());
        }
    }
}

/// Every candidate is an untried member available at `now`, scored from its state.
proof fn lemma_candidates(
    members: Seq<Seq<char>>,
    states: Map<Seq<char>, ProviderState>,
    attempted: Seq<Seq<char>>,
    now: u64,
)
    ensures
        forall|y: (int, Seq<char>)| #[trigger] candidates(members, states, attempted, now).contains(y)
            ==> {
            &&& members.contains(y.1)
            &&& !attempted.contains(y.1)
            &&& states.contains_key(y.1)
            &&& available(states[y.1], now)
            &&& y.0 == score_of(y.1, states[y.1])
        },
        seq_distinct(members) ==> seq_distinct(ids_of(candidates(members, states, attempted, now))),
    decreases members.len(),
{
    if members.len() > 0 {
        let p = members.drop_last();
        lemma_candidates(p, states, attempted, now);
        let c = candidates(members, states, attempted, now);
        let cp = candidates(p, states, attempted, now);
        assert forall|y: (int, Seq<char>)| #[trigger] c.contains(y) implies {
            &&& members.contains(y.1)
            &&& !attempted.contains(y.1)
            &&& states.contains_key(y.1)
            &&& available(states[y.1], now)
            &&& y.0 == score_of(y.1, states[y.1])
        } by {
            let k = choose|k: int| 0 <= k < c.len() && c[k] == y;
            if k < cp.len() {
                assert(cp[k] == y);
                assert(cp.contains(y));
                let j = choose|j: int| 0 <= j < p.len() && p[j] == y.1;
                assert(members[j] == y.1);
            } else {
                assert(members[members.len() - 1] == y.1);
            }
        }
        if seq_distinct(members) {
            assert(seq_distinct(p)) by {
                assert forall|i: int, j: int| 0 <= i < j < p.len() implies p[i] != p[j] by {
                    assert(p[i] == members[i]);
                    assert(p[j] == members[j]);
                }
            }
            let id = members.last();
            if c.len() > cp.len() {
                assert forall|i: int, j: int| 0 <= i < j < c.len() implies ids_of(c)[i] != ids_of(c)[j] by {
                    if j == c.len() - 1 {
                        assert(cp.contains(cp[i]));
                        let k = choose|k: int| 0 <= k < p.len() && p[k] == cp[i].1;
                        assert(members[k] == p[k]);
                        assert(members[members.len() - 1] == id);
                        assert(ids_of(c)[i] == cp[i].1);
                    } else {
                        assert(ids_of(c)[i] == ids_of(cp)[i]);
                        assert(ids_of(c)[j] == ids_of(cp)[j]);
                    }
                }
            }
        }
    }
}

/// A wave only contains untried members that are eligible now, each once,
/// best score first, and never more than `min(max_initial, max_total)` of them.
pub proof fn law_selection(
    members: Seq<Seq<char>>,
    states: Map<Seq<char>, ProviderState>,
    attempted: Seq<Seq<char>>,
    now: u64,
    max_initial: nat,
    max_total: nat,
)
    requires
        seq_distinct(members),
    ensures
        ({
            let sel = selection(members, states, attempted, now, max_initial, max_total);
            &&& sel.len() <= max_initial && sel.len() <= max_total
            &&& seq_distinct(sel)
            &&& forall|i: int|
                0 <= i < sel.len() ==> {
                    &&& members.contains(#[trigger] sel[i])
                    &&& !attempted.contains(sel[i])
                    &&& states.contains_key(sel[i])
                    &&& available(states[sel[i]], now)
                }
            &&& forall|i: int, j: int|
                0 <= i < j < sel.len() ==> score_of(sel[i], states[sel[i]]) >= score_of(
                    sel[j],
                    states[sel[j]],
                )
        }),
{
    let c = candidates(members, states, attempted, now);
    lemma_candidates(members, states, attempted, now);
    lemma_ranked(c);
    let r = ranked(c);
    let k = if max_initial < max_total {
        max_initial
    } else {
        max_total
    };
    let top = if r.len() <= k {
        r
    } else {
        r.take(k as int)
    };
    let sel = ids_of(top);
    assert(sel == selection(members, states, attempted, now, max_initial, max_total));
    assert forall|i: int| 0 <= i < top.len() implies #[trigger] top[i] == r[i] by {}
    assert forall|i: int|
        0 <= i < sel.len() implies {
            &&& members.contains(#[trigger] sel[i])
            &&& !attempted.contains(sel[i])
            &&& states.contains_key(sel[i])
            &&& available(states[sel[i]], now)
            &&& top[i].0 == score_of(sel[i], states[sel[i]])
        } by {
        assert(top[i] == r[i]);
        assert(r.contains(r[i]));
        assert(c.contains(r[i]));
    }
    assert forall|i: int, j: int| 0 <= i < j < sel.len() implies sel[i] != sel[j] by {
        assert(ids_of(r)[i] == sel[i]);
        assert(ids_of(r)[j] == sel[j]);
    }
    assert forall|i: int, j: int| 0 <= i < j < sel.len() implies score_of(sel[i], states[sel[i]])
        >= score_of(sel[j], states[sel[j]]) by {
        assert(top[i].0 == score_of(sel[i], states[sel[i]]));
        assert(top[j].0 == score_of(sel[j], states[sel[j]]));
        assert(r[i].0 >= r[j].0);
    }
}

/// A member that can take part in the next wave: not tried yet, with a
/// state that is available now.
pub open spec fn eligible(
    id: Seq<char>,
    states: Map<Seq<char>, ProviderState>,
    attempted: Seq<Seq<char>>,
    now: u64,
) -> bool {
    !attempted.contains(id) && states.contains_key(id) && available(states[id], now)
}

proof fn lemma_candidates_cover(
    members: Seq<Seq<char>>,
    states: Map<Seq<char>, ProviderState>,
    attempted: Seq<Seq<char>>,
    now: u64,
    a: int,
)
    requires
        0 <= a < members.len(),
        eligible(members[a], states, attempted, now),
    ensures
        candidates(members, states, attempted, now).contains(
            (score_of(members[a], states[members[a]]), members[a]),
        ),
    decreases members.len(),
{
    let p = members.drop_last();
    let c = candidates(members, states, attempted, now);
    let cp = candidates(p, states, attempted, now);
    if a < p.len() {
        assert(p[a] == members[a]);
        lemma_candidates_cover(p, states, attempted, now, a);
        let k = choose|k: int| 0 <= k < cp.len() && cp[k] == (score_of(p[a], states[p[a]]), p[a]);
        assert(c[k] == cp[k]);
    } else {
        assert(members.last() == members[a]);
        assert(c[c.len() - 1] == (score_of(members[a], states[members[a]]), members[a]));
    }
}

proof fn lemma_candidates_order(
    members: Seq<Seq<char>>,
    states: Map<Seq<char>, ProviderState>,
    attempted: Seq<Seq<char>>,
    now: u64,
    p: int,
    q: int,
)
    requires
        0 <= p < q < candidates(members, states, attempted, now).len(),
    ensures
        exists|a: int, b: int|
            0 <= a < b < members.len() && #[trigger] members[a] == candidates(
                members,
                states,
                attempted,
                now,
            )[p].1 && #[trigger] members[b] == candidates(members, states, attempted, now)[q].1,
    decreases members.len(),
{
    let pm = members.drop_last();
    let c = candidates(members, states, attempted, now);
    let cp = candidates(pm, states, attempted, now);
    if q < cp.len() {
        lemma_candidates_order(pm, states, attempted, now, p, q);
        let (a, b) = choose|a: int, b: int|
            0 <= a < b < pm.len() && #[trigger] pm[a] == cp[p].1 && #[trigger] pm[b] == cp[q].1;
        assert(members[a] == pm[a] && members[b] == pm[b]);
        assert(c[p] == cp[p] && c[q] == cp[q]);
    } else {
        lemma_candidates(pm, states, attempted, now);
        assert(cp.contains(cp[p]));
        let a = choose|a: int| 0 <= a < pm.len() && pm[a] == cp[p].1;
        assert(members[a] == pm[a]);
        assert(c[p] == cp[p]);
        assert(c[q].1 == members.last());
        assert(members[members.len() - 1] == members.last());
    }
}

proof fn lemma_insert_shape(s: Seq<(int, Seq<char>)>, x: (int, Seq<char>))
    ensures
        exists|m: int|
            0 <= m <= s.len() && insert_ranked(s, x) == s.take(m) + seq![x] + s.skip(m) && (forall|t: int|
                m <= t < s.len() ==> (#[trigger] s[t]).0 < x.0),
    decreases s.len(),
{
    if s.len() == 0 {
        assert(insert_ranked(s, x) =~= s.take(0) + seq![x] + s.skip(0));
    } else if s.last().0 >= x.0 {
        assert(insert_ranked(s, x) =~= s.take(s.len() as int) + seq![x] + s.skip(s.len() as int));
    } else {
        let p = s.drop_last();
        lemma_insert_shape(p, x);
        let m = choose|m: int|
            0 <= m <= p.len() && insert_ranked(p, x) == p.take(m) + seq![x] + p.skip(m) && (forall|t: int|
                m <= t < p.len() ==> (#[trigger] p[t]).0 < x.0);
        assert(insert_ranked(s, x) =~= s.take(m) + seq![x] + s.skip(m));
        assert forall|t: int| m <= t < s.len() implies (#[trigger] s[t]).0 < x.0 by {
            if t < p.len() {
                assert(p[t] == s[t]);
            }
        }
    }
}

/// Equal scores keep their order: two entries of the ranking with the same
/// score stand in the order in which they were candidates.
proof fn lemma_ranked_stable(c: Seq<(int, Seq<char>)>, i: int, j: int)
    requires
        0 <= i < j < ranked(c).len(),
        ranked(c)[i].0 == ranked(c)[j].0,
    ensures
        exists|p: int, q: int|
            0 <= p < q < c.len() && #[trigger] c[p] == ranked(c)[i] && #[trigger] c[q] == ranked(c)[j],
    decreases c.len(),
{
    let cp = c.drop_last();
    let x = c.last();
    let s = ranked(cp);
    lemma_ranked(cp);
    lemma_insert_shape(s, x);
    let m = choose|m: int|
        0 <= m <= s.len() && insert_ranked(s, x) == s.take(m) + seq![x] + s.skip(m) && (forall|t: int|
            m <= t < s.len() ==> (#[trigger] s[t]).0 < x.0);
    let r = ranked(c);
    assert(r == s.take(m) + seq![x] + s.skip(m));
    if i != m && j != m {
        let i2 = if i < m { i } else { i - 1 };
        let j2 = if j < m { j } else { j - 1 };
        assert(r[i] == s[i2] && r[j] == s[j2]);
        lemma_ranked_stable(cp, i2, j2);
        let (p, q) = choose|p: int, q: int|
            0 <= p < q < cp.len() && #[trigger] cp[p] == s[i2] && #[trigger] cp[q] == s[j2];
        assert(c[p] == cp[p] && c[q] == cp[q]);
    } else if i == m {
        assert(r[i] == x);
        assert(r[j] == s[j - 1]);
        assert(s[j - 1].0 < x.0);
    } else {
        assert(r[j] == x);
        assert(r[i] == s[i]);
        assert(s.contains(s[i]));
        assert(cp.contains(s[i]));
        let p = choose|p: int| 0 <= p < cp.len() && cp[p] == s[i];
        assert(c[p] == cp[p]);
        assert(c[c.len() - 1] == x);
    }
}

/// A wave takes as many eligible members as it may:
/// `min(eligible, min(max_initial, max_total))`; no eligible member left
/// out scores higher than one taken; and members with equal scores are
/// taken in member order.
pub proof fn law_selection_complete(
    members: Seq<Seq<char>>,
    states: Map<Seq<char>, ProviderState>,
    attempted: Seq<Seq<char>>,
    now: u64,
    max_initial: nat,
    max_total: nat,
)
    requires
        seq_distinct(members),
    ensures
        ({
            let sel = selection(members, states, attempted, now, max_initial, max_total);
            let n = candidates(members, states, attempted, now).len();
            let k = if max_initial < max_total {
                max_initial
            } else {
                max_total
            };
            &&& n == members.filter(|id: Seq<char>| eligible(id, states, attempted, now)).len()
            &&& sel.len() == if n < k {
                n
            } else {
                k
            }
            &&& forall|a: int, i: int|
                0 <= a < members.len() && eligible(#[trigger] members[a], states, attempted, now)
                    && !sel.contains(members[a]) && 0 <= i < sel.len() ==> score_of(
                    #[trigger] sel[i],
                    states[sel[i]],
                ) >= score_of(members[a], states[members[a]])
            &&& forall|i: int, j: int|
                0 <= i < j < sel.len() && score_of(sel[i], states[sel[i]]) == score_of(
                    sel[j],
                    states[sel[j]],
                ) ==> exists|a: int, b: int|
                    0 <= a < b < members.len() && #[trigger] members[a] == sel[i]
                        && #[trigger] members[b] == sel[j]
        }),
{
    let c = candidates(members, states, attempted, now);
    lemma_candidates(members, states, attempted, now);
    lemma_candidates_count(members, states, attempted, now);
    lemma_ranked(c);
    let r = ranked(c);
    let k = if max_initial < max_total {
        max_initial
    } else {
        max_total
    };
    let top = if r.len() <= k {
        r
    } else {
        r.take(k as int)
    };
    let sel = ids_of(top);
    assert(sel == selection(members, states, attempted, now, max_initial, max_total));
    assert forall|i: int| 0 <= i < top.len() implies #[trigger] top[i] == r[i] && r[i].0 == score_of(
        sel[i],
        states[sel[i]],
    ) by {
        assert(r.contains(r[i]));
        assert(c.contains(r[i]));
    }
    assert forall|a: int, i: int|
        0 <= a < members.len() && eligible(#[trigger] members[a], states, attempted, now)
            && !sel.contains(members[a]) && 0 <= i < sel.len() implies score_of(
            #[trigger] sel[i],
            states[sel[i]],
        ) >= score_of(members[a], states[members[a]]) by {
        let y = (score_of(members[a], states[members[a]]), members[a]);
        lemma_candidates_cover(members, states, attempted, now, a);
        assert(r.contains(y));
        let t = choose|t: int| 0 <= t < r.len() && r[t] == y;
        if t < top.len() {
            assert(sel[t] == members[a]);
        }
        assert(top[i] == r[i]);
        assert(r[i].0 >= r[t].0);
    }
    assert forall|i: int, j: int|
        0 <= i < j < sel.len() && score_of(sel[i], states[sel[i]]) == score_of(sel[j], states[sel[j]])
            implies exists|a: int, b: int|
        0 <= a < b < members.len() && #[trigger] members[a] == sel[i] && #[trigger] members[b]
            == sel[j] by {
        assert(top[i] == r[i] && top[j] == r[j]);
        lemma_ranked_stable(c, i, j);
        let (p, q) = choose|p: int, q: int|
            0 <= p < q < c.len() && #[trigger] c[p] == r[i] && #[trigger] c[q] == r[j];
        lemma_candidates_order(members, states, attempted, now, p, q);
    }
}

proof fn lemma_candidates_count(
    members: Seq<Seq<char>>,
    states: Map<Seq<char>, ProviderState>,
    attempted: Seq<Seq<char>>,
    now: u64,
)
    ensures
        candidates(members, states, attempted, now).len() == members.filter(
            |id: Seq<char>| eligible(id, states, attempted, now),
        ).len(),
    decreases members.len(),
{
    reveal(Seq::filter);
    if members.len() > 0 {
        lemma_candidates_count(members.drop_last(), states, attempted, now);
    }
}

proof fn lemma_registered(ids: Seq<Seq<char>>)
    ensures
        seq_distinct(registered(ids)),
        forall|i: int|
            0 <= i < registered(ids).len() ==> known_provider(#[trigger] registered(ids)[i]) && ids.contains(
                registered(ids)[i],
            ),
        forall|i: int|
            0 <= i < ids.len() && known_provider(#[trigger] ids[i]) ==> registered(ids).contains(ids[i]),
    decreases ids.len(),
{
    if ids.len() > 0 {
        let p = ids.drop_last();
        lemma_registered(p);
        let m = registered(p);
        let r = registered(ids);
        assert forall|i: int|
            0 <= i < r.len() implies known_provider(#[trigger] r[i]) && ids.contains(r[i]) by {
            if i < m.len() {
                assert(r[i] == m[i]);
                let k = choose|k: int| 0 <= k < p.len() && p[k] == m[i];
                assert(ids[k] == m[i]);
            } else {
                assert(ids[ids.len() - 1] == r[i]);
            }
        }
        assert forall|i: int| 0 <= i < ids.len() && known_provider(#[trigger] ids[i]) implies r.contains(
            ids[i],
        ) by {
            if i < p.len() {
                assert(p[i] == ids[i]);
                let k = choose|k: int| 0 <= k < m.len() && m[k] == ids[i];
                assert(r[k] == m[k]);
            } else {
                if m.contains(ids[i]) {
                    let k = choose|k: int| 0 <= k < m.len() && m[k] == ids[i];
                    assert(r[k] == m[k]);
                } else {
                    assert(r[r.len() - 1] == ids[i]);
                }
            }
        }
        assert forall|i: int, j: int| 0 <= i < j < r.len() implies r[i] != r[j] by {
            if j == m.len() {
                assert(r[i] == m[i]);
            }
        }
    }
}

proof fn lemma_with_fresh(states: Map<Seq<char>, ProviderState>, ids: Seq<Seq<char>>)
    ensures
        forall|k: Seq<char>| #[trigger] with_fresh(states, ids).contains_key(k) <==> (
        states.contains_key(k) || ids.contains(k)),
        forall|k: Seq<char>|
            #[trigger] states.contains_key(k) ==> with_fresh(states, ids)[k] == states[k],
        forall|k: Seq<char>|
            ids.contains(k) && !states.contains_key(k) ==> #[trigger] with_fresh(states, ids)[k]
                == initial_state(),
    decreases ids.len(),
{
    if ids.len() > 0 {
        let p = ids.drop_last();
        lemma_with_fresh(states, p);
        assert forall|k: Seq<char>| p.contains(k) implies ids.contains(k) by {
            let j = choose|j: int| 0 <= j < p.len() && p[j] == k;
            assert(ids[j] == k);
        }
        assert(ids.contains(ids.last())) by {
            assert(ids[ids.len() - 1] == ids.last());
        }
        assert forall|k: Seq<char>| ids.contains(k) implies p.contains(k) || k == ids.last() by {
            let j = choose|j: int| 0 <= j < ids.len() && ids[j] == k;
            if j < p.len() {
                assert(p[j] == k);
            }
        }
    }
}

/// A registry built from a configuration holds each configured provider
/// that has an adapter exactly once, gives each of them a state (a fresh
/// one when the table had none), and keeps every state the table had.
pub proof fn law_registry_members(states: Map<Seq<char>, ProviderState>, configured: Seq<Seq<char>>)
    ensures
        seq_distinct(registered(configured)),
        forall|i: int|
            0 <= i < configured.len() ==> (known_provider(#[trigger] configured[i]) <==> registered(
                configured,
            ).contains(configured[i])),
        forall|i: int|
            0 <= i < registered(configured).len() ==> with_fresh(states, registered(configured)).contains_key(
                #[trigger] registered(configured)[i],
            ),
        forall|k: Seq<char>|
            #[trigger] states.contains_key(k) ==> with_fresh(states, registered(configured))[k]
                == states[k],
{
    lemma_registered(configured);
    lemma_with_fresh(states, registered(configured));
    let r = registered(configured);
    assert forall|i: int| 0 <= i < r.len() implies with_fresh(states, r).contains_key(#[trigger] r[i]) by {
        assert(r.contains(r[i]));
    }
    assert forall|i: int| 0 <= i < configured.len() implies (known_provider(#[trigger] configured[i])
        <==> r.contains(configured[i])) by {
        if r.contains(configured[i]) {
            let k = choose|k: int| 0 <= k < r.len() && r[k] == configured[i];
            assert(known_provider(r[k]));
        }
    }
}

/// Across the waves of one search no provider is tried twice: adding a
/// wave's selection to the providers already tried keeps them distinct.
pub proof fn law_no_provider_twice(
    members: Seq<Seq<char>>,
    states: Map<Seq<char>, ProviderState>,
    attempted: Seq<Seq<char>>,
    now: u64,
    max_initial: nat,
    max_total: nat,
)
    requires
        seq_distinct(members),
        seq_distinct(attempted),
    ensures
        seq_distinct(attempted + selection(members, states, attempted, now, max_initial, max_total)),
{
    let sel = selection(members, states, attempted, now, max_initial, max_total);
    law_selection(members, states, attempted, now, max_initial, max_total);
    let a = attempted + sel;
    assert forall|i: int, j: int| 0 <= i < j < a.len() implies a[i] != a[j] by {
        if j >= attempted.len() {
            if i >= attempted.len() {
                assert(a[i] == sel[i - attempted.len()]);
                assert(a[j] == sel[j - attempted.len()]);
            } else {
                assert(a[j] == sel[j - attempted.len()]);
                assert(!attempted.contains(sel[j - attempted.len()]));
                assert(attempted[i] == a[i]);
            }
        }
    }
}


/// Building a registry keeps every state the table had, gives a fresh
/// state to each member the table lacked, and adds no other key.
pub proof fn law_registry_states(states: Map<Seq<char>, ProviderState>, configured: Seq<Seq<char>>)
    ensures
        forall|k: Seq<char>|
            #[trigger] with_fresh(states, registered(configured)).contains_key(k) <==> (
            states.contains_key(k) || registered(configured).contains(k)),
        forall|k: Seq<char>|
            #[trigger] states.contains_key(k) ==> with_fresh(states, registered(configured))[k]
                == states[k],
        forall|k: Seq<char>|
            registered(configured).contains(k) && !states.contains_key(k) ==> #[trigger] with_fresh(
                states,
                registered(configured),
            )[k] == initial_state(),
{
    lemma_with_fresh(states, registered(configured));
}

/// The names of a call's status rows.
pub open spec fn entry_names(entries: Seq<ProviderEntryV>) -> Seq<Seq<char>> {
    entries.map_values(|e: ProviderEntryV| e.name)
}

/// Recording a call's statuses only touches registered providers named in
/// the call: no key is added or removed, and every other state stays.
pub proof fn law_record_outcome_scope(
    m: Map<Seq<char>, ProviderState>,
    entries: Seq<ProviderEntryV>,
    now: u64,
)
    ensures
        forall|k: Seq<char>| #[trigger] apply_entries(m, entries, now).contains_key(k) <==> m.contains_key(k),
        forall|k: Seq<char>|
            m.contains_key(k) && !entry_names(entries).contains(k) ==> #[trigger] apply_entries(
                m,
                entries,
                now,
            )[k] == m[k],
    decreases entries.len(),
{
    if entries.len() > 0 {
        let p = entries.drop_last();
        law_record_outcome_scope(m, p, now);
        assert forall|k: Seq<char>| !entry_names(entries).contains(k) implies !entry_names(p).contains(k)
            && k != entries.last().name by {
            if entry_names(p).contains(k) {
                let j = choose|j: int| 0 <= j < entry_names(p).len() && entry_names(p)[j] == k;
                assert(entry_names(entries)[j] == k);
            }
            assert(entry_names(entries)[entries.len() - 1] == entries.last().name);
        }
        let prev = apply_entries(m, p, now);
        let e = entries.last();
        assert(apply_entries(m, entries, now) == apply_event(prev, e.name, event_of(e.status), now));
        assert forall|k: Seq<char>| #[trigger] apply_entries(m, entries, now).contains_key(k)
            <==> m.contains_key(k) by {
            assert(prev.contains_key(k) <==> m.contains_key(k));
        }
        assert forall|k: Seq<char>|
            m.contains_key(k) && !entry_names(entries).contains(k) implies #[trigger] apply_entries(
                m,
                entries,
                now,
            )[k] == m[k] by {
            assert(prev[k] == m[k]);
        }
    }
}

/// Recording rate limits only touches registered providers named in them:
/// no key is added or removed, and every other state stays.
pub proof fn law_record_rate_limits_scope(
    m: Map<Seq<char>, ProviderState>,
    limited: Seq<(Seq<char>, u16)>,
    now: u64,
)
    ensures
        forall|k: Seq<char>| #[trigger] apply_rate_limits(m, limited, now).contains_key(k) <==> m.contains_key(k),
        forall|k: Seq<char>|
            m.contains_key(k) && (forall|i: int| 0 <= i < limited.len() ==> (#[trigger] limited[i]).0 != k)
                ==> #[trigger] apply_rate_limits(m, limited, now)[k] == m[k],
    decreases limited.len(),
{
    if limited.len() > 0 {
        let p = limited.drop_last();
        law_record_rate_limits_scope(m, p, now);
        assert forall|k: Seq<char>|
            m.contains_key(k) && (forall|i: int| 0 <= i < limited.len() ==> (#[trigger] limited[i]).0 != k)
                implies apply_rate_limits(m, limited, now)[k] == m[k] by {
            assert forall|i: int| 0 <= i < p.len() implies (#[trigger] p[i]).0 != k by {
                assert(p[i] == limited[i]);
            }
            assert(limited[limited.len() - 1] == limited.last());
            assert(apply_rate_limits(m, p, now)[k] == m[k]);
        }
        let prev = apply_rate_limits(m, p, now);
        assert forall|k: Seq<char>| #[trigger] apply_rate_limits(m, limited, now).contains_key(k)
            <==> m.contains_key(k) by {
            assert(prev.contains_key(k) <==> m.contains_key(k));
        }
    }
}


/// A provider that answered is never put in cooldown. When the last status
/// a call records for a registered provider is a success, an empty answer
/// or an answer whose results the gates filtered out, the provider is
/// available at every time afterwards. An empty or filtered answer marks it
/// degraded and keeps its failure count; a success marks it healthy and
/// clears the count.
pub proof fn law_answered_provider_stays_eligible(
    m: Map<Seq<char>, ProviderState>,
    entries: Seq<ProviderEntryV>,
    now: u64,
    t: u64,
)
    requires
        entries.len() > 0,
        m.contains_key(entries.last().name),
    ensures
        ({
            let id = entries.last().name;
            let before = apply_entries(m, entries.drop_last(), now)[id];
            let after = apply_entries(m, entries, now)[id];
            &&& (entries.last().status is Empty || entries.last().status is Filtered) ==> {
                &&& available(after, t)
                &&& after.status == ProviderRuntimeStatus::Degraded
                &&& after.consecutive_failures == before.consecutive_failures
                &&& after.last_success == Some(now)
            }
            &&& entries.last().status is Success ==> {
                &&& available(after, t)
                &&& after.status == ProviderRuntimeStatus::Healthy
                &&& after.consecutive_failures == 0
                &&& after.cooldown_until is None
            }
        }),
{
    law_record_outcome_scope(m, entries.drop_last(), now);
    let id = entries.last().name;
    assert(apply_entries(m, entries.drop_last(), now).contains_key(id));
}

} // verus!
