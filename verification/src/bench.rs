//! What a benchmark asks of whom, and what becomes of the answers.
//!
//! An *endpoint* is a single (resolver, transport) pair. One resolver can produce up to six
//! endpoints: UDP, DNS-over-TLS and DNS-over-HTTPS on IPv4, plus the same on IPv6.

use vstd::prelude::*;
use vstd::string::StringExecFns;

use crate::domains::{default_domain_names, default_domains, law_default_domains};
use crate::double::round53;
use crate::duration::{nanos_of, Duration, MAX_NANOS};
use crate::order::{lemma_sorted_permutes, picked, Column, Keys};
use crate::pacing::{
    factor_range, jitter, jittered, law_backoff_bounds, law_decay_takes_a_tenth, law_default_amplitude_is_three_tenths,
    law_jitter_range, saturated, Amplitude, Backoff,
};
use crate::probe::{ProbeError, ProbeOutcome};
use crate::resolver::Resolver;
use crate::rng::{
    is_label_char, label_of, law_label_is_valid, law_labels_differ, law_shuffle_permutes, random_label, shuffle, shuffled,
    xorshift,
};
use crate::stats::{spread_fits, summarize, summarizes, Summary};
use crate::text::texts;
use crate::transport::{Transport, TransportKind};

verus! {

broadcast use vstd::string::group_string_axioms;

/// Query class.
#[derive(Clone, Copy, Debug, PartialEq, Eq, Structural)]
pub enum Class {
    /// The domain as it is.
    Cached,
    /// A random name below the domain, which forces recursion.
    Uncached,
}

/// The kind of a failure.
#[derive(Clone, Copy, Debug, PartialEq, Eq, Structural)]
pub enum FailKind {
    Timeout,
    Network,
    Protocol,
}

/// The result of a probe, as far as the statistics need it.
#[derive(Clone, Copy, Debug, PartialEq, Eq, Structural)]
pub enum ProbeResult {
    Answered(Duration),
    Fail(FailKind),
}

impl ProbeResult {
    /// The round trip of an answered probe.
    pub fn rtt(&self) -> (r: Option<Duration>)
        ensures
            r == (match *self {
                ProbeResult::Answered(d) => Some(d),
                ProbeResult::Fail(_) => None::<Duration>,
            }),
    {
        match self {
            ProbeResult::Answered(d) => Some(*d),
            ProbeResult::Fail(_) => None,
        }
    }
}

/// What a probe came to.
pub open spec fn classified(outcome: Result<ProbeOutcome, ProbeError>) -> ProbeResult {
    match outcome {
        Ok(o) => ProbeResult::Answered(o.rtt),
        Err(ProbeError::Timeout(_)) => ProbeResult::Fail(FailKind::Timeout),
        Err(ProbeError::Io(_)) => ProbeResult::Fail(FailKind::Network),
        Err(_) => ProbeResult::Fail(FailKind::Protocol),
    }
}

/// Sort the outcome of a probe into a result.
pub fn classify(outcome: &Result<ProbeOutcome, ProbeError>) -> (r: ProbeResult)
    ensures
        r == classified(*outcome),
{
    match outcome {
        Ok(o) => ProbeResult::Answered(o.rtt),
        Err(ProbeError::Timeout(_)) => ProbeResult::Fail(FailKind::Timeout),
        Err(ProbeError::Io(_)) => ProbeResult::Fail(FailKind::Network),
        Err(_) => ProbeResult::Fail(FailKind::Protocol),
    }
}

/// An event of a running benchmark. Ids index into the list of endpoints; `total_per_class` lets
/// a display show progress without knowing the configuration.
#[derive(Clone, Debug)]
pub enum BenchEvent {
    Start {
        id: usize,
        resolver: String,
        provider: String,
        transport_kind: TransportKind,
        addr_display: String,
        total_per_class: usize,
    },
    Probe { id: usize, class: Class, domain_idx: u16, result: ProbeResult },
    Done { id: usize },
    AllDone,
}

/// What to benchmark, and how.
#[derive(Clone, Debug)]
pub struct BenchConfig {
    pub domains: Vec<String>,
    /// Queries per domain per class.
    pub iterations: usize,
    pub timeout: Duration,
    /// Run the cached class (queries the domain as it is).
    pub cached: bool,
    /// Run the uncached class (queries `<random>.<domain>`, forces recursion).
    pub uncached: bool,
    pub include_ipv6: bool,
    /// Restrict to specific transports. Empty means all available.
    pub transports: Vec<TransportKind>,
    /// Base idle time between consecutive queries to the same endpoint. Jittered, and grows under
    /// backoff when the endpoint returns timeouts or network errors.
    pub inter_query: Duration,
    /// Pause between the cached and the uncached phase of a single endpoint.
    pub inter_class_pause: Duration,
    /// Jitter amplitude for `inter_query`. Zero disables.
    pub jitter_pct: Amplitude,
}

/// A configuration, as a value.
#[verifier::ext_equal]
pub struct ConfigView {
    pub domains: Seq<Seq<char>>,
    pub iterations: usize,
    pub timeout: Duration,
    pub cached: bool,
    pub uncached: bool,
    pub include_ipv6: bool,
    pub transports: Seq<TransportKind>,
    pub inter_query: Duration,
    pub inter_class_pause: Duration,
    pub jitter_pct: Amplitude,
}

impl View for BenchConfig {
    type V = ConfigView;

    open spec fn view(&self) -> ConfigView {
        ConfigView {
            domains: texts(self.domains@),
            iterations: self.iterations,
            timeout: self.timeout,
            cached: self.cached,
            uncached: self.uncached,
            include_ipv6: self.include_ipv6,
            transports: self.transports@,
            inter_query: self.inter_query,
            inter_class_pause: self.inter_class_pause,
            jitter_pct: self.jitter_pct,
        }
    }
}

/// The configuration of a run that nobody has configured.
pub open spec fn is_default(c: ConfigView) -> bool {
    &&& c.domains == default_domain_names() && c.iterations == 4
    &&& c.timeout@ == 1_500_000_000 && c.inter_query@ == 40_000_000 && c.inter_class_pause@ == 500_000_000
    &&& c.cached && c.uncached && !c.include_ipv6 && c.transports.len() == 0
    &&& c.jitter_pct == Amplitude::three_tenths()
}

impl Default for BenchConfig {
    fn default() -> (r: BenchConfig)
        ensures
            texts(r.domains@) == default_domain_names(),
            r.iterations == 4,
            r.timeout@ == 1_500_000_000,
            r.cached,
            r.uncached,
            !r.include_ipv6,
            r.transports@.len() == 0,
            r.inter_query@ == 40_000_000,
            r.inter_class_pause@ == 500_000_000,
            r.jitter_pct == Amplitude::three_tenths(),
            r.jitter_pct.wf(),
            is_default(r@),
    {
        BenchConfig {
            domains: default_domains(),
            iterations: 4,
            timeout: Duration::from_millis(1500),
            cached: true,
            uncached: true,
            include_ipv6: false,
            transports: Vec::new(),
            inter_query: Duration::from_millis(40),
            inter_class_pause: Duration::from_millis(500),
            jitter_pct: Amplitude { units: 5_404_319_552_844_595, shift: 54 },
        }
    }
}

impl BenchConfig {
    /// A copy of the configuration.
    pub fn duplicate(&self) -> (r: BenchConfig)
        ensures
            r@ == self@,
    {
        let mut domains: Vec<String> = Vec::new();
        let n: usize = self.domains.len();
        let mut i: usize = 0;
        while i < n
            invariant
                i <= n == self.domains.len(),
                domains@ =~= self.domains@.take(i as int),
            decreases n - i,
        {
            domains.push(self.domains[i].clone());
            i = i + 1;
        }
        assert(domains@ =~= self.domains@);
        let mut transports: Vec<TransportKind> = Vec::new();
        let m: usize = self.transports.len();
        let mut j: usize = 0;
        while j < m
            invariant
                j <= m == self.transports.len(),
                transports@ =~= self.transports@.take(j as int),
            decreases m - j,
        {
            transports.push(self.transports[j]);
            j = j + 1;
        }
        assert(transports@ =~= self.transports@);
        BenchConfig {
            domains,
            iterations: self.iterations,
            timeout: self.timeout,
            cached: self.cached,
            uncached: self.uncached,
            include_ipv6: self.include_ipv6,
            transports,
            inter_query: self.inter_query,
            inter_class_pause: self.inter_class_pause,
            jitter_pct: self.jitter_pct,
        }
    }
}

// --- endpoints ---

/// A kind passes where no kinds are asked for, or where it is one of them.
pub open spec fn wanted(kinds: Seq<TransportKind>, k: TransportKind) -> bool {
    kinds.len() == 0 || kinds.contains(k)
}

/// The transports in `ts` of a wanted kind, with the name and the provider of their resolver.
pub open spec fn kept(name: String, provider: String, ts: Seq<Transport>, kinds: Seq<TransportKind>) -> Seq<
    (String, String, Transport),
>
    decreases ts.len(),
{
    if ts.len() == 0 {
        Seq::empty()
    } else {
        let front = kept(name, provider, ts.drop_last(), kinds);
        if wanted(kinds, ts.last().spec_kind()) {
            front.push((name, provider, ts.last()))
        } else {
            front
        }
    }
}

/// The endpoints of each resolver in turn.
pub open spec fn endpoints_of(resolvers: Seq<Resolver>, include_ipv6: bool, kinds: Seq<TransportKind>) -> Seq<
    (String, String, Transport),
>
    decreases resolvers.len(),
{
    if resolvers.len() == 0 {
        Seq::empty()
    } else {
        let r = resolvers.last();
        endpoints_of(resolvers.drop_last(), include_ipv6, kinds) + kept(
            r.name,
            r.provider,
            r.spec_transports(include_ipv6),
            kinds,
        )
    }
}

fn is_wanted(kinds: &Vec<TransportKind>, k: TransportKind) -> (r: bool)
    ensures
        r == wanted(kinds@, k),
{
    let n: usize = kinds.len();
    let mut i: usize = 0;
    while i < n
        invariant
            i <= n == kinds.len(),
            forall|j: int| 0 <= j < i ==> kinds@[j] != k,
        decreases n - i,
    {
        if kinds[i] == k {
            assert(kinds@[i as int] == k);
            return true;
        }
        i = i + 1;
    }
    n == 0
}

/// Flatten resolvers into concrete endpoints: one per transport variant per IP family. The order
/// is stable, so that callers can index by id.
pub fn build_endpoints(resolvers: &[Resolver], cfg: &BenchConfig) -> (r: Vec<(String, String, Transport)>)
    ensures
        r@ == endpoints_of(resolvers@, cfg.include_ipv6, cfg.transports@),
{
    let mut out: Vec<(String, String, Transport)> = Vec::new();
    let n: usize = resolvers.len();
    let mut i: usize = 0;
    while i < n
        invariant
            i <= n == resolvers@.len(),
            out@ == endpoints_of(resolvers@.take(i as int), cfg.include_ipv6, cfg.transports@),
        decreases n - i,
    {
        let res = &resolvers[i];
        let ts = res.transports(cfg.include_ipv6);
        let ghost start = out@;
        let m: usize = ts.len();
        let mut j: usize = 0;
        while j < m
            invariant
                j <= m == ts.len(),
                out@ == start + kept(res.name, res.provider, ts@.take(j as int), cfg.transports@),
            decreases m - j,
        {
            let t = &ts[j];
            assert(ts@.take(j + 1).drop_last() =~= ts@.take(j as int));
            if is_wanted(&cfg.transports, t.kind()) {
                out.push((res.name.clone(), res.provider.clone(), t.duplicate()));
            }
            assert(out@ =~= start + kept(res.name, res.provider, ts@.take(j + 1), cfg.transports@));
            j = j + 1;
        }
        proof {
            assert(ts@.take(m as int) =~= ts@);
            assert(resolvers@.take(i + 1).drop_last() =~= resolvers@.take(i as int));
        }
        i = i + 1;
    }
    assert(resolvers@.take(n as int) =~= resolvers@);
    out
}

proof fn lemma_kept(name: String, provider: String, ts: Seq<Transport>, kinds: Seq<TransportKind>)
    ensures
        kept(name, provider, ts, kinds).len() <= ts.len(),
        forall|i: int|
            0 <= i < kept(name, provider, ts, kinds).len() ==> {
                let e = #[trigger] kept(name, provider, ts, kinds)[i];
                e.0 == name && e.1 == provider && ts.contains(e.2) && wanted(kinds, e.2.spec_kind())
            },
        forall|t: Transport|
            #[trigger] ts.contains(t) && wanted(kinds, t.spec_kind()) ==> kept(name, provider, ts, kinds).contains(
                (name, provider, t),
            ),
    decreases ts.len(),
{
    if ts.len() > 0 {
        let front = ts.drop_last();
        let before = kept(name, provider, front, kinds);
        let after = kept(name, provider, ts, kinds);
        lemma_kept(name, provider, front, kinds);
        assert forall|i: int| 0 <= i < after.len() implies {
            let e = #[trigger] after[i];
            e.0 == name && e.1 == provider && ts.contains(e.2) && wanted(kinds, e.2.spec_kind())
        } by {
            if i < before.len() {
                assert(after[i] == before[i]);
                let k = choose|k: int| 0 <= k < front.len() && front[k] == before[i].2;
                assert(ts[k] == front[k]);
            } else {
                assert(ts[ts.len() - 1] == after[i].2);
            }
        }
        assert forall|t: Transport| #[trigger] ts.contains(t) && wanted(kinds, t.spec_kind()) implies after.contains(
            (name, provider, t),
        ) by {
            let k = choose|k: int| 0 <= k < ts.len() && ts[k] == t;
            if k < front.len() {
                assert(front[k] == t);
                assert(front.contains(t));
                let m = choose|m: int| 0 <= m < before.len() && before[m] == (name, provider, t);
                assert(after[m] == before[m]);
            } else {
                assert(after[before.len() as int] == (name, provider, t));
            }
        }
    }
}

/// The endpoints are those transports of the resolvers whose kind is wanted, each under the name
/// and the provider of its resolver, and there are at most six per resolver.
pub proof fn law_endpoints_are_wanted_transports(resolvers: Seq<Resolver>, include_ipv6: bool, kinds: Seq<TransportKind>)
    ensures
        endpoints_of(resolvers, include_ipv6, kinds).len() <= 6 * resolvers.len(),
        forall|i: int|
            0 <= i < endpoints_of(resolvers, include_ipv6, kinds).len() ==> {
                let e = #[trigger] endpoints_of(resolvers, include_ipv6, kinds)[i];
                &&& wanted(kinds, e.2.spec_kind())
                &&& exists|k: int|
                    0 <= k < resolvers.len() && (#[trigger] resolvers[k]).name == e.0 && resolvers[k].provider == e.1
                        && resolvers[k].spec_transports(include_ipv6).contains(e.2)
            },
        forall|k: int, t: Transport|
            0 <= k < resolvers.len() && #[trigger] resolvers[k].spec_transports(include_ipv6).contains(t) && wanted(
                kinds,
                t.spec_kind(),
            ) ==> endpoints_of(resolvers, include_ipv6, kinds).contains((resolvers[k].name, resolvers[k].provider, t)),
    decreases resolvers.len(),
{
    if resolvers.len() > 0 {
        let front = resolvers.drop_last();
        let r = resolvers.last();
        let before = endpoints_of(front, include_ipv6, kinds);
        let part = kept(r.name, r.provider, r.spec_transports(include_ipv6), kinds);
        let after = endpoints_of(resolvers, include_ipv6, kinds);
        law_endpoints_are_wanted_transports(front, include_ipv6, kinds);
        lemma_kept(r.name, r.provider, r.spec_transports(include_ipv6), kinds);
        crate::resolver::law_at_most_six_endpoints(r, include_ipv6);
        assert forall|i: int| 0 <= i < after.len() implies {
            let e = #[trigger] after[i];
            &&& wanted(kinds, e.2.spec_kind())
            &&& exists|k: int|
                0 <= k < resolvers.len() && (#[trigger] resolvers[k]).name == e.0 && resolvers[k].provider == e.1
                    && resolvers[k].spec_transports(include_ipv6).contains(e.2)
        } by {
            let e = after[i];
            if i < before.len() {
                assert(e == before[i]);
                let k = choose|k: int|
                    0 <= k < front.len() && (#[trigger] front[k]).name == e.0 && front[k].provider == e.1
                        && front[k].spec_transports(include_ipv6).contains(e.2);
                assert(resolvers[k] == front[k]);
            } else {
                assert(e == part[i - before.len()]);
                assert(resolvers[resolvers.len() - 1] == r);
            }
        }
        assert forall|k: int, t: Transport|
            0 <= k < resolvers.len() && #[trigger] resolvers[k].spec_transports(include_ipv6).contains(t) && wanted(
                kinds,
                t.spec_kind(),
            ) implies after.contains((resolvers[k].name, resolvers[k].provider, t)) by {
            let e = (resolvers[k].name, resolvers[k].provider, t);
            if k < front.len() {
                assert(front[k].spec_transports(include_ipv6).contains(t));
                let m = choose|m: int| 0 <= m < before.len() && before[m] == e;
                assert(after[m] == before[m]);
            } else {
                let m = choose|m: int| 0 <= m < part.len() && part[m] == e;
                assert(after[before.len() + m] == part[m]);
            }
        }
    }
}

/// Ids are stable: the endpoints of two lists of resolvers are those of the first list, then those
/// of the second.
pub proof fn law_endpoint_ids_are_stable(
    resolvers: Seq<Resolver>,
    more: Seq<Resolver>,
    include_ipv6: bool,
    kinds: Seq<TransportKind>,
)
    ensures
        endpoints_of(resolvers + more, include_ipv6, kinds) == endpoints_of(resolvers, include_ipv6, kinds)
            + endpoints_of(more, include_ipv6, kinds),
    decreases more.len(),
{
    let few = endpoints_of(resolvers, include_ipv6, kinds);
    if more.len() == 0 {
        assert(resolvers + more =~= resolvers);
        assert(few + Seq::empty() =~= few);
    } else {
        law_endpoint_ids_are_stable(resolvers, more.drop_last(), include_ipv6, kinds);
        assert((resolvers + more).drop_last() =~= resolvers + more.drop_last());
        assert(endpoints_of(resolvers + more, include_ipv6, kinds) =~= few + endpoints_of(more, include_ipv6, kinds));
    }
}

proof fn lemma_kept_filters(name: String, provider: String, ts: Seq<Transport>, kinds: Seq<TransportKind>)
    ensures
        kept(name, provider, ts, kinds) == kept(name, provider, ts, Seq::empty()).filter(
            |e: (String, String, Transport)| wanted(kinds, e.2.spec_kind()),
        ),
    decreases ts.len(),
{
    let passes = |e: (String, String, Transport)| wanted(kinds, e.2.spec_kind());
    reveal(Seq::filter);
    if ts.len() > 0 {
        lemma_kept_filters(name, provider, ts.drop_last(), kinds);
        let front = kept(name, provider, ts.drop_last(), Seq::empty());
        let all = kept(name, provider, ts, Seq::empty());
        assert(all == front.push((name, provider, ts.last())));
        assert(all.drop_last() =~= front);
    }
}

/// Asking for some kinds of transport leaves those endpoints out that are of no such kind, and the
/// others in their order.
pub proof fn law_kinds_filter_endpoints(resolvers: Seq<Resolver>, include_ipv6: bool, kinds: Seq<TransportKind>)
    ensures
        endpoints_of(resolvers, include_ipv6, kinds) == endpoints_of(resolvers, include_ipv6, Seq::empty()).filter(
            |e: (String, String, Transport)| wanted(kinds, e.2.spec_kind()),
        ),
    decreases resolvers.len(),
{
    let passes = |e: (String, String, Transport)| wanted(kinds, e.2.spec_kind());
    reveal(Seq::filter);
    if resolvers.len() > 0 {
        let r = resolvers.last();
        law_kinds_filter_endpoints(resolvers.drop_last(), include_ipv6, kinds);
        lemma_kept_filters(r.name, r.provider, r.spec_transports(include_ipv6), kinds);
        Seq::filter_distributes_over_add(
            endpoints_of(resolvers.drop_last(), include_ipv6, Seq::empty()),
            kept(r.name, r.provider, r.spec_transports(include_ipv6), Seq::empty()),
            passes,
        );
    }
}

// --- phases of one endpoint ---

/// One phase of the run of an endpoint.
#[derive(Clone, Copy, Debug, PartialEq, Eq, Structural)]
pub enum Phase {
    /// Run a class of queries.
    Run(Class),
    /// Leave the endpoint alone.
    Pause(Duration),
}

impl BenchConfig {
    /// The phases of every endpoint: the cached class, then the uncached class, with a pause
    /// between the two.
    pub open spec fn spec_phases(self) -> Seq<Phase> {
        let first = if self.cached {
            seq![Phase::Run(Class::Cached)]
        } else {
            Seq::empty()
        };
        let pause = if self.cached && self.uncached && self.inter_class_pause@ != 0 {
            seq![Phase::Pause(self.inter_class_pause)]
        } else {
            Seq::empty()
        };
        let second = if self.uncached {
            seq![Phase::Run(Class::Uncached)]
        } else {
            Seq::empty()
        };
        first + pause + second
    }

    /// The phases of every endpoint.
    pub fn phases(&self) -> (r: Vec<Phase>)
        ensures
            r@ == self.spec_phases(),
    {
        let mut r: Vec<Phase> = Vec::new();
        if self.cached {
            r.push(Phase::Run(Class::Cached));
        }
        if self.cached && self.uncached && !self.inter_class_pause.is_zero() {
            r.push(Phase::Pause(self.inter_class_pause));
        }
        if self.uncached {
            r.push(Phase::Run(Class::Uncached));
        }
        assert(r@ =~= self.spec_phases());
        r
    }

    /// The number of queries of each class to every endpoint.
    pub fn total_per_class(&self) -> (r: usize)
        requires
            self.domains@.len() * self.iterations <= usize::MAX,
        ensures
            r == self.domains@.len() * self.iterations,
    {
        self.domains.len() * self.iterations
    }
}

/// The name that a class asks for.
pub open spec fn host_for(class: Class, domain: Seq<char>, counter: u64, nanos: u64) -> Seq<char> {
    match class {
        Class::Cached => domain,
        Class::Uncached => label_of(counter, nanos) + "."@ + domain,
    }
}

/// The name to ask for: the domain, or a label of the counter and the clock below it.
pub fn host(class: Class, domain: &str, counter: u64, nanos: u64) -> (r: String)
    ensures
        r@ == host_for(class, domain@, counter, nanos),
{
    match class {
        Class::Cached => domain.to_owned(),
        Class::Uncached => {
            let mut r = random_label(counter, nanos);
            r.append(".");
            r.append(domain);
            r
        },
    }
}

// --- events ---

/// `ev` announces the endpoint `e` under the id `id`.
pub open spec fn announces(ev: BenchEvent, id: usize, e: (String, String, Transport), total: usize) -> bool {
    ev matches BenchEvent::Start { id: i, resolver, provider, transport_kind, addr_display, total_per_class } && i == id
        && resolver == e.0 && provider == e.1 && transport_kind == e.2.spec_kind() && addr_display@
        == e.2.spec_display_addr() && total_per_class == total
}

/// The events that announce the endpoints, in the order of their ids.
pub fn start_events(endpoints: &Vec<(String, String, Transport)>, total_per_class: usize) -> (r: Vec<BenchEvent>)
    ensures
        r@.len() == endpoints@.len(),
        forall|i: int|
            0 <= i < r@.len() ==> announces(#[trigger] r@[i], i as usize, endpoints@[i], total_per_class),
{
    let mut r: Vec<BenchEvent> = Vec::new();
    let n: usize = endpoints.len();
    let mut id: usize = 0;
    while id < n
        invariant
            id <= n == endpoints.len(),
            r@.len() == id,
            forall|i: int|
                0 <= i < r@.len() ==> announces(#[trigger] r@[i], i as usize, endpoints@[i], total_per_class),
        decreases n - id,
    {
        let e = &endpoints[id];
        r.push(
            BenchEvent::Start {
                id,
                resolver: e.0.clone(),
                provider: e.1.clone(),
                transport_kind: e.2.kind(),
                addr_display: e.2.display_addr(),
                total_per_class,
            },
        );
        id = id + 1;
    }
    r
}

/// The event for a probe of the domain at `idx`, of which 16 bits are handed on.
pub fn probe_event(id: usize, class: Class, idx: usize, result: ProbeResult) -> (r: BenchEvent)
    ensures
        r == (BenchEvent::Probe { id, class, domain_idx: (idx % 65536) as u16, result }),
{
    BenchEvent::Probe { id, class, domain_idx: (idx % 65536) as u16, result }
}

// --- one class of one endpoint ---

/// The run of one class of queries against one endpoint: which domain is next, and how long to
/// wait before it.
pub struct ClassRun {
    /// The order of the domains in this round.
    pub order: Vec<usize>,
    /// The queries of this round that have been made.
    pub pos: usize,
    pub rounds_left: usize,
    /// The state of the random number generator.
    pub rng: u64,
    pub backoff: Backoff,
    /// The number of rounds.
    pub iterations: usize,
    /// Every domain asked for so far.
    pub asked: Ghost<Seq<usize>>,
}

/// How often `d` occurs in `s`.
pub open spec fn times(s: Seq<usize>, d: usize) -> nat {
    s.to_multiset().count(d)
}

/// The numbers below `n` in ascending order.
pub open spec fn ascending_to(n: nat) -> Seq<usize> {
    Seq::new(n, |i: int| i as usize)
}

/// Adding `x` to a sequence adds one to how often it occurs.
pub proof fn lemma_times_push(s: Seq<usize>, x: usize, d: usize)
    ensures
        times(s.push(x), d) == times(s, d) + (if x == d {
            1nat
        } else {
            0nat
        }),
{
    s.to_multiset_ensures();
    assert(s.push(x).to_multiset() =~= s.to_multiset().insert(x));
}

proof fn lemma_times_skip(s: Seq<usize>, k: int, d: usize)
    requires
        0 <= k < s.len(),
    ensures
        times(s.skip(k), d) == times(s.skip(k + 1), d) + (if s[k] == d {
            1nat
        } else {
            0nat
        }),
{
    let t = s.skip(k);
    t.to_multiset_ensures();
    assert(s.skip(k + 1) =~= t.remove(0));
}

proof fn lemma_times_ascending(n: nat, d: usize)
    requires
        n <= usize::MAX,
    ensures
        times(ascending_to(n), d) == (if d < n {
            1nat
        } else {
            0nat
        }),
    decreases n,
{
    let s = ascending_to(n);
    if n == 0 {
        s.to_multiset_ensures();
        assert(s.to_multiset().len() == 0);
        assert(!s.contains(d));
    } else {
        let m = (n - 1) as nat;
        lemma_times_ascending(m, d);
        lemma_times_push(ascending_to(m), m as usize, d);
        assert(s =~= ascending_to(m).push(m as usize));
    }
}

impl ClassRun {
    /// The number of domains.
    pub open spec fn domains(self) -> nat {
        self.order@.len()
    }

    /// The rounds that have begun.
    pub open spec fn begun(self) -> int {
        self.iterations - self.rounds_left
    }

    /// The order lists every domain once, and every round that has begun accounts for one query
    /// to each domain, made or still to come.
    pub open spec fn wf(self) -> bool {
        &&& self.pos <= self.order@.len()
        &&& self.rounds_left <= self.iterations
        &&& self.backoff.wf()
        &&& forall|d: usize|
            #[trigger] times(self.order@, d) == (if d < self.domains() {
                1nat
            } else {
                0nat
            })
        &&& forall|d: usize|
            d < self.domains() ==> #[trigger] times(self.asked@, d) + times(self.order@.skip(self.pos as int), d)
                == self.begun()
        &&& forall|i: int| 0 <= i < self.asked@.len() ==> #[trigger] self.asked@[i] < self.domains()
        &&& self.asked@.len() + (self.order@.len() - self.pos) == self.begun() * self.domains()
    }

    /// A run over `domains` domains, `iterations` times each.
    pub fn new(domains: usize, iterations: usize, seed: u64) -> (r: ClassRun)
        ensures
            r.wf(),
            r.order@ == ascending_to(domains as nat),
            r.pos == domains,
            r.rounds_left == iterations,
            r.iterations == iterations,
            r.rng == seed,
            r.backoff.mult == crate::pacing::BACKOFF_MIN,
            r.asked@.len() == 0,
    {
        let mut order: Vec<usize> = Vec::new();
        let mut i: usize = 0;
        while i < domains
            invariant
                i <= domains,
                order@ == ascending_to(i as nat),
            decreases domains - i,
        {
            order.push(i);
            assert(order@ =~= ascending_to((i + 1) as nat));
            i = i + 1;
        }
        let r = ClassRun {
            order,
            pos: domains,
            rounds_left: iterations,
            rng: seed,
            backoff: Backoff::new(),
            iterations,
            asked: Ghost(Seq::empty()),
        };
        proof {
            assert forall|d: usize| #[trigger] times(r.order@, d) == (if d < r.domains() {
                1nat
            } else {
                0nat
            }) by {
                lemma_times_ascending(domains as nat, d);
            }
            let none = Seq::<usize>::empty();
            none.to_multiset_ensures();
            assert(r.order@.skip(domains as int) =~= none);
            assert forall|d: usize| d < r.domains() implies #[trigger] times(r.asked@, d) + times(
                r.order@.skip(r.pos as int),
                d,
            ) == r.begun() by {
                assert(none.to_multiset().len() == 0);
                assert(!none.contains(d));
            }
            assert(r.begun() * r.domains() == 0) by (nonlinear_arith)
                requires
                    r.begun() == 0,
            ;
        }
        r
    }

    /// The next domain, if any, the order of the round that it belongs to, and the state of the random
    /// number generator then.
    pub open spec fn drawn(self) -> (Option<usize>, Seq<usize>, u64) {
        if self.pos < self.order@.len() {
            (Some(self.order@[self.pos as int]), self.order@, self.rng)
        } else if self.rounds_left > 0 && self.order@.len() > 0 {
            let (order, rng) = shuffled(self.order@, self.rng);
            (Some(order[0]), order, rng)
        } else {
            (None, self.order@, self.rng)
        }
    }

    /// The next domain to ask for, or `None` when every domain has been asked for as often as
    /// there are iterations. The domains are shuffled anew for each round.
    pub fn next(&mut self) -> (r: Option<usize>)
        requires
            old(self).wf(),
        ensures
            final(self).wf(),
            final(self).iterations == old(self).iterations,
            final(self).backoff == old(self).backoff,
            final(self).order@.len() == old(self).order@.len(),
            (r, final(self).order@, final(self).rng) == old(self).drawn(),
            if old(self).pos < old(self).order@.len() {
                &&& r == Some(old(self).order@[old(self).pos as int])
                &&& final(self).order@ == old(self).order@
                &&& final(self).pos == old(self).pos + 1
                &&& final(self).rounds_left == old(self).rounds_left
                &&& final(self).rng == old(self).rng
            } else if old(self).rounds_left > 0 && old(self).order@.len() > 0 {
                &&& (final(self).order@, final(self).rng) == shuffled(old(self).order@, old(self).rng)
                &&& r == Some(final(self).order@[0])
                &&& final(self).pos == 1
                &&& final(self).rounds_left == old(self).rounds_left - 1
            } else {
                &&& r is None
                &&& *final(self) == *old(self)
            },
            r matches Some(d) ==> d < final(self).domains() && final(self).asked@ == old(self).asked@.push(d),
            r is None ==> {
                &&& forall|d: usize| d < final(self).domains() ==> #[trigger] times(final(self).asked@, d)
                    == final(self).iterations
                &&& final(self).asked@.len() == final(self).domains() * final(self).iterations
            },
    {
        let ghost before = *self;
        let n: usize = self.order.len();
        if self.pos == n {
            proof {
                self.lemma_round_over();
            }
            if self.rounds_left == 0 || n == 0 {
                return None;
            }
            shuffle(&mut self.order, &mut self.rng);
            self.rounds_left = self.rounds_left - 1;
            self.pos = 0;
            proof {
                law_shuffle_permutes(before.order@, before.rng);
                assert(self.order@.skip(0) =~= self.order@);
                assert forall|d: usize| d < self.domains() implies #[trigger] times(self.asked@, d) + times(
                    self.order@.skip(self.pos as int),
                    d,
                ) == self.begun() by {
                    assert(times(before.order@, d) == 1);
                    assert(times(before.asked@, d) == before.begun());
                }
                assert forall|d: usize| #[trigger] times(self.order@, d) == (if d < self.domains() {
                    1nat
                } else {
                    0nat
                }) by {
                    assert(times(before.order@, d) == times(self.order@, d));
                }
                let rounds = before.begun();
                assert((rounds + 1) * n == rounds * n + n) by (nonlinear_arith);
            }
        }
        let ghost mid = *self;
        let d: usize = self.order[self.pos];
        self.asked = Ghost(self.asked@.push(d));
        self.pos = self.pos + 1;
        proof {
            mid.lemma_entry(mid.pos as int);
            assert forall|e: usize| e < self.domains() implies #[trigger] times(self.asked@, e) + times(
                self.order@.skip(self.pos as int),
                e,
            ) == self.begun() by {
                lemma_times_push(mid.asked@, d, e);
                lemma_times_skip(mid.order@, mid.pos as int, e);
                assert(times(mid.asked@, e) + times(mid.order@.skip(mid.pos as int), e) == mid.begun());
            }
        }
        Some(d)
    }

    /// At the end of a round every domain has been asked for once for each round begun.
    pub proof fn lemma_round_over(self)
        requires
            self.wf(),
            self.pos == self.order@.len(),
        ensures
            forall|d: usize| d < self.domains() ==> #[trigger] times(self.asked@, d) == self.begun(),
            self.asked@.len() == self.begun() * self.domains(),
            self.domains() == 0 || self.rounds_left == 0 ==> self.asked@.len() == self.domains() * self.iterations,
    {
        let none = self.order@.skip(self.pos as int);
        assert(none =~= Seq::<usize>::empty());
        none.to_multiset_ensures();
        assert forall|d: usize| d < self.domains() implies #[trigger] times(self.asked@, d) == self.begun() by {
            assert(none.to_multiset().len() == 0);
            assert(!none.contains(d));
        }
        if self.domains() == 0 {
            assert(self.begun() * 0 == 0);
            assert(0 * self.iterations == 0);
        }
        assert(self.iterations * self.domains() == self.domains() * self.iterations) by (nonlinear_arith);
    }

    /// Every entry of the order is the index of a domain.
    proof fn lemma_entry(self, k: int)
        requires
            self.wf(),
            0 <= k < self.order@.len(),
        ensures
            self.order@[k] < self.domains(),
    {
        let d = self.order@[k];
        self.order@.to_multiset_ensures();
        assert(self.order@.contains(d));
        assert(times(self.order@, d) > 0);
    }

    /// The backoff after the result of a probe: lower after an answer, higher after a timeout or
    /// a network error.
    pub open spec fn backoff_after(self, result: ProbeResult) -> Backoff {
        match result {
            ProbeResult::Answered(_) => self.backoff.decayed(),
            ProbeResult::Fail(k) => self.backoff.raised(k != FailKind::Protocol),
        }
    }

    /// How long the endpoint is left alone after the result of a probe, and the state of the random
    /// number generator then.
    pub open spec fn pause_after(self, result: ProbeResult, spacing: nat, pct: Amplitude) -> (Option<nat>, u64) {
        let base = self.backoff_after(result).scaled(spacing);
        if spacing == 0 {
            (None, self.rng)
        } else if base == 0 || pct.units == 0 {
            (Some(base), self.rng)
        } else {
            (Some(jittered(base, xorshift(self.rng), pct)), xorshift(self.rng))
        }
    }

    /// Take note of the result of a probe, and say how long to leave the endpoint alone: the
    /// spacing under backoff, jittered; or not at all where there is no spacing.
    pub fn settle(&mut self, result: ProbeResult, spacing: Duration, pct: Amplitude) -> (r: Option<Duration>)
        requires
            old(self).wf(),
            pct.wf(),
        ensures
            final(self).wf(),
            final(self).order == old(self).order,
            final(self).pos == old(self).pos,
            final(self).rounds_left == old(self).rounds_left,
            final(self).iterations == old(self).iterations,
            final(self).asked == old(self).asked,
            final(self).backoff == old(self).backoff_after(result),
            (match r {
                Some(d) => Some(d@),
                None => None,
            }, final(self).rng) == old(self).pause_after(result, spacing@, pct),
            if spacing@ == 0 {
                r is None && final(self).rng == old(self).rng
            } else {
                let base = final(self).backoff.scaled(spacing@);
                if base == 0 || pct.units == 0 {
                    final(self).rng == old(self).rng && (r matches Some(d) && d@ == base)
                } else {
                    final(self).rng == xorshift(old(self).rng) && (r matches Some(d) && d@ == jittered(
                        base,
                        xorshift(old(self).rng),
                        pct,
                    ))
                }
            },
    {
        match result {
            ProbeResult::Answered(_) => {
                self.backoff.on_success();
            },
            ProbeResult::Fail(k) => {
                self.backoff.on_failure(k != FailKind::Protocol);
            },
        }
        if spacing.is_zero() {
            None
        } else {
            let base = self.backoff.apply(spacing);
            Some(jitter(base, &mut self.rng, pct))
        }
    }
}

// --- reports ---

/// The results of one class of queries against one endpoint.
pub struct Tally {
    pub rtts: Vec<Duration>,
    /// All probes, the failed ones included.
    pub total: usize,
}

/// The round trips and the number of probes, with one more result.
pub open spec fn tallied(rtts: Seq<Duration>, total: nat, result: ProbeResult) -> (Seq<Duration>, nat) {
    match result {
        ProbeResult::Answered(d) => (rtts.push(d), total + 1),
        ProbeResult::Fail(_) => (rtts, total + 1),
    }
}

impl Tally {
    /// No results yet.
    pub fn new() -> (r: Tally)
        ensures
            r.rtts@.len() == 0,
            r.total == 0,
    {
        Tally { rtts: Vec::new(), total: 0 }
    }

    /// Count a result.
    pub fn record(&mut self, result: ProbeResult)
        requires
            old(self).total < usize::MAX,
        ensures
            final(self).total == old(self).total + 1,
            final(self).rtts@ == (match result {
                ProbeResult::Answered(d) => old(self).rtts@.push(d),
                ProbeResult::Fail(_) => old(self).rtts@,
            }),
            (final(self).rtts@, final(self).total as nat) == tallied(old(self).rtts@, old(self).total as nat, result),
    {
        self.total = self.total + 1;
        match result {
            ProbeResult::Answered(d) => {
                self.rtts.push(d);
            },
            ProbeResult::Fail(_) => {},
        }
    }

    /// The summary of the results, if there was an answer.
    pub fn summary(self) -> (r: Option<Summary>)
        requires
            spread_fits(nanos_of(self.rtts@)),
        ensures
            r is Some <==> self.rtts@.len() > 0,
            r matches Some(x) ==> summarizes(x, nanos_of(self.rtts@), self.total as nat),
    {
        summarize(self.rtts, self.total)
    }
}

/// The results for one endpoint.
#[derive(Clone, Debug)]
pub struct EndpointReport {
    pub resolver: String,
    pub provider: String,
    pub transport_kind: TransportKind,
    pub addr_display: String,
    pub cached: Option<Summary>,
    pub uncached: Option<Summary>,
}

/// `r` is the report on an endpoint with these names and these summaries.
pub open spec fn reports_on(
    r: EndpointReport,
    resolver: Seq<char>,
    provider: Seq<char>,
    transport: Transport,
    cached: Option<Summary>,
    uncached: Option<Summary>,
) -> bool {
    &&& r.resolver@ == resolver && r.provider@ == provider
    &&& r.transport_kind == transport.spec_kind() && r.addr_display@ == transport.spec_display_addr()
    &&& r.cached == cached && r.uncached == uncached
}

/// Single-number ranking, in nanoseconds.
pub open spec fn score_of(cached: Option<Summary>, uncached: Option<Summary>) -> nat {
    match cached {
        Some(s) => s.p50@,
        None => match uncached {
            Some(s) => s.p50@,
            None => MAX_NANOS as nat,
        },
    }
}

/// The scores of the reports.
pub open spec fn scores(reports: Seq<EndpointReport>) -> Keys {
    Keys::Numbers(reports.map_values(|e: EndpointReport| score_of(e.cached, e.uncached) as int))
}

impl EndpointReport {
    /// The report on an endpoint.
    pub fn new(
        resolver: String,
        provider: String,
        transport: &Transport,
        cached: Option<Summary>,
        uncached: Option<Summary>,
    ) -> (r: EndpointReport)
        ensures
            r.resolver == resolver,
            r.provider == provider,
            r.transport_kind == transport.spec_kind(),
            r.addr_display@ == transport.spec_display_addr(),
            r.cached == cached,
            r.uncached == uncached,
            reports_on(r, resolver@, provider@, *transport, cached, uncached),
    {
        EndpointReport {
            resolver,
            provider,
            transport_kind: transport.kind(),
            addr_display: transport.display_addr(),
            cached,
            uncached,
        }
    }

    /// Single-number ranking: the median of the cached class if available, else of the uncached
    /// class, else the longest time.
    pub fn score(&self) -> (r: Duration)
        ensures
            r@ == score_of(self.cached, self.uncached),
    {
        match &self.cached {
            Some(s) => s.p50,
            None => match &self.uncached {
                Some(s) => s.p50,
                None => Duration::max(),
            },
        }
    }

    /// A copy of the report.
    pub fn duplicate(&self) -> (r: EndpointReport)
        ensures
            r == *self,
    {
        EndpointReport {
            resolver: self.resolver.clone(),
            provider: self.provider.clone(),
            transport_kind: self.transport_kind,
            addr_display: self.addr_display.clone(),
            cached: self.cached,
            uncached: self.uncached,
        }
    }
}

/// The reports, fastest first; reports with the same score stay in order.
pub fn rank(reports: &Vec<EndpointReport>) -> (r: Vec<EndpointReport>)
    ensures
        exists|order: Seq<usize>| #[trigger] scores(reports@).sorts(order) && r@ == picked(reports@, order),
        r@.to_multiset() == reports@.to_multiset(),
        forall|i: int, j: int|
            0 <= i < j < r@.len() && (#[trigger] r@[i]).cached is Some && (#[trigger] r@[j]).cached is Some
                ==> r@[i].cached->0.p50@ <= r@[j].cached->0.p50@,
{
    let n: usize = reports.len();
    let mut keys: Vec<i128> = Vec::new();
    let mut i: usize = 0;
    while i < n
        invariant
            i <= n == reports.len(),
            keys@.len() == i,
            forall|k: int|
                0 <= k < i ==> #[trigger] keys@[k] == score_of(reports@[k].cached, reports@[k].uncached),
        decreases n - i,
    {
        let score = reports[i].score();
        keys.push(score.as_nanos() as i128);
        i = i + 1;
    }
    let column = Column::Numbers(keys);
    assert(column@ == scores(reports@)) by {
        assert(keys@.map_values(|n: i128| n as int) =~= reports@.map_values(
            |e: EndpointReport| score_of(e.cached, e.uncached) as int,
        ));
    }
    let order = column.sort_order();
    let mut r: Vec<EndpointReport> = Vec::new();
    let mut k: usize = 0;
    while k < n
        invariant
            k <= n == order@.len(),
            n == reports.len(),
            forall|j: int| 0 <= j < n ==> #[trigger] order@[j] < n,
            r@ == picked(reports@, order@).take(k as int),
        decreases n - k,
    {
        r.push(reports[order[k]].duplicate());
        assert(r@ =~= picked(reports@, order@).take(k + 1));
        k = k + 1;
    }
    assert(r@ =~= picked(reports@, order@));
    assert(scores(reports@).sorts(order@));
    proof {
        law_rank_keeps_reports(reports@, order@);
        assert forall|i: int, j: int|
            0 <= i < j < r@.len() && (#[trigger] r@[i]).cached is Some && (#[trigger] r@[j]).cached is Some implies r@[i]
            .cached->0.p50@ <= r@[j].cached->0.p50@ by {
            law_rank_goes_by_medians(reports@, order@, i, j);
        }
    }
    r
}

/// Ranking puts the fastest first.
pub proof fn law_rank_is_fastest_first(reports: Seq<EndpointReport>, order: Seq<usize>, i: int, j: int)
    requires
        scores(reports).sorts(order),
        0 <= i < j < reports.len(),
    ensures
        ({
            let r = picked(reports, order);
            score_of(r[i].cached, r[i].uncached) <= score_of(r[j].cached, r[j].uncached)
        }),
{
    assert(scores(reports).before(order[i] as int, order[j] as int));
}

/// Ranking keeps every report, and adds none.
pub proof fn law_rank_keeps_reports(reports: Seq<EndpointReport>, order: Seq<usize>)
    requires
        scores(reports).sorts(order),
        reports.len() <= usize::MAX,
    ensures
        picked(reports, order).to_multiset() == reports.to_multiset(),
{
    lemma_sorted_permutes(reports, scores(reports), order);
}

/// In a ranking, of two reports that both have a summary of the cached class the one with the lower
/// median of it stands first; likewise by the uncached class where neither has a cached one. A report
/// without a cached summary goes by its uncached median, and one without any summary stands behind
/// all that have one.
pub proof fn law_rank_goes_by_medians(reports: Seq<EndpointReport>, order: Seq<usize>, i: int, j: int)
    requires
        scores(reports).sorts(order),
        0 <= i < j < reports.len(),
    ensures
        ({
            let first = picked(reports, order)[i];
            let later = picked(reports, order)[j];
            &&& first.cached is Some && later.cached is Some ==> first.cached->0.p50@ <= later.cached->0.p50@
            &&& first.cached is None && later.cached is None && first.uncached is Some && later.uncached is Some
                ==> first.uncached->0.p50@ <= later.uncached->0.p50@
            &&& first.cached is Some && later.cached is None && later.uncached is Some ==> first.cached->0.p50@
                <= later.uncached->0.p50@
            &&& first.cached is None && first.uncached is Some && later.cached is Some ==> first.uncached->0.p50@
                <= later.cached->0.p50@
            &&& first.cached is None && first.uncached is None && later.cached is Some ==> later.cached->0.p50@
                >= MAX_NANOS
            &&& first.cached is None && first.uncached is None && later.cached is None && later.uncached is Some
                ==> later.uncached->0.p50@ >= MAX_NANOS
        }),
{
    assert(scores(reports).before(order[i] as int, order[j] as int));
}

/// Two reports with the same cached median keep their order in a ranking.
pub proof fn law_rank_keeps_ties(reports: Seq<EndpointReport>, order: Seq<usize>, i: int, j: int)
    requires
        scores(reports).sorts(order),
        0 <= i < j < reports.len(),
        reports[order[i] as int].cached is Some,
        reports[order[j] as int].cached is Some,
        reports[order[i] as int].cached->0.p50@ == reports[order[j] as int].cached->0.p50@,
    ensures
        order[i] < order[j],
{
    assert(scores(reports).before(order[i] as int, order[j] as int));
}

/// The phases of an endpoint hold a run of each enabled class, and no other; each once, the cached
/// class before the uncached one; and a pause, of the length that is set, exactly where two runs are
/// to be kept apart.
pub proof fn law_phases_follow_classes(cfg: BenchConfig)
    ensures
        ({
            let p = cfg.spec_phases();
            &&& p.contains(Phase::Run(Class::Cached)) == cfg.cached
            &&& p.contains(Phase::Run(Class::Uncached)) == cfg.uncached
            &&& forall|i: int, j: int|
                0 <= i < j < p.len() && #[trigger] p[i] is Run && #[trigger] p[j] is Run ==> p[i]
                    == Phase::Run(Class::Cached) && p[j] == Phase::Run(Class::Uncached)
            &&& p.contains(Phase::Pause(cfg.inter_class_pause)) == (cfg.cached && cfg.uncached
                && cfg.inter_class_pause@ > 0)
            &&& forall|i: int|
                0 <= i < p.len() && #[trigger] p[i] is Pause ==> 0 < i < p.len() - 1 && p[i - 1] is Run && p[i + 1] is Run
                    && p[i] == Phase::Pause(cfg.inter_class_pause)
        }),
{
    let p = cfg.spec_phases();
    if cfg.cached {
        assert(p[0] == Phase::Run(Class::Cached));
    }
    if cfg.uncached {
        assert(p[p.len() - 1] == Phase::Run(Class::Uncached));
    }
    if cfg.cached && cfg.uncached && cfg.inter_class_pause@ > 0 {
        assert(p[1] == Phase::Pause(cfg.inter_class_pause));
    }
}

/// The cached class asks for the domain itself. The uncached class asks for a name one label below
/// it, a label that holds no dot, and for another name whenever the counter has moved on.
pub proof fn law_hosts_by_class(domain: Seq<char>, counter: u64, nanos: u64, other: u64)
    ensures
        host_for(Class::Cached, domain, counter, nanos) == domain,
        ({
            let name = host_for(Class::Uncached, domain, counter, nanos);
            let n = name.len() - domain.len() - 1;
            &&& 3 <= n <= 25
            &&& name.skip(n + 1) == domain
            &&& name[n] == '.'
            &&& forall|i: int| 0 <= i < n ==> #[trigger] name[i] != '.'
        }),
        counter != other ==> host_for(Class::Uncached, domain, counter, nanos) != host_for(
            Class::Uncached,
            domain,
            other,
            nanos,
        ),
{
    reveal_strlit(".");
    law_label_is_valid(counter, nanos);
    law_labels_differ(counter, nanos, other, nanos);
    let l = label_of(counter, nanos);
    let name = host_for(Class::Uncached, domain, counter, nanos);
    assert(name.skip(l.len() as int + 1) =~= domain);
    assert forall|i: int| 0 <= i < l.len() implies #[trigger] name[i] != '.' by {
        assert(name[i] == l[i]);
        assert(is_label_char(l[i]));
    }
    let m = label_of(other, nanos);
    let again = host_for(Class::Uncached, domain, other, nanos);
    if name == again {
        assert(l.len() == m.len());
        assert(l =~= name.take(l.len() as int));
        assert(m =~= again.take(m.len() as int));
    }
}

/// Where kinds of transport are asked for, every endpoint is of one of them; where none are, every
/// transport of every resolver is an endpoint.
pub proof fn law_endpoints_have_asked_kinds(
    resolvers: Seq<Resolver>,
    include_ipv6: bool,
    kinds: Seq<TransportKind>,
    k: int,
    t: Transport,
)
    requires
        0 <= k < resolvers.len(),
        resolvers[k].spec_transports(include_ipv6).contains(t),
    ensures
        ({
            let all = endpoints_of(resolvers, include_ipv6, kinds);
            let e = (resolvers[k].name, resolvers[k].provider, t);
            &&& kinds.len() == 0 || kinds.contains(t.spec_kind()) ==> all.contains(e)
            &&& kinds.len() > 0 ==> forall|i: int| 0 <= i < all.len() ==> kinds.contains((#[trigger] all[i]).2.spec_kind())
        }),
{
    law_endpoints_are_wanted_transports(resolvers, include_ipv6, kinds);
}

/// An announcement carries the id, the names and the queries per class of its endpoint, and what its
/// transport is made of: an address for UDP, an address and the name on the certificate for
/// DNS-over-TLS, a URL for DNS-over-HTTPS.
pub proof fn law_announcements_name_endpoints(ev: BenchEvent, id: usize, e: (String, String, Transport), total: usize)
    requires
        announces(ev, id, e, total),
    ensures
        ev matches BenchEvent::Start { id: i, resolver, provider, transport_kind, addr_display, total_per_class } && {
            &&& i == id && total_per_class == total
            &&& resolver@ == e.0@ && provider@ == e.1@
            &&& e.2 matches Transport::Udp { addr } ==> transport_kind == TransportKind::Udp && addr_display@
                == addr.text@
            &&& e.2 matches Transport::Dot { addr, tls_name } ==> transport_kind == TransportKind::Dot
                && addr.text@.is_prefix_of(addr_display@) && addr_display@.len() == addr.text@.len() + tls_name@.len()
                + 3 && addr_display@.subrange(addr.text@.len() as int + 2, addr_display@.len() - 1) == tls_name@
            &&& e.2 matches Transport::Doh { url } ==> transport_kind == TransportKind::Doh && addr_display@ == url@
        },
{
    reveal_strlit(" (");
    reveal_strlit(")");
    match e.2 {
        Transport::Dot { addr, tls_name } => {
            let d = e.2.spec_display_addr();
            assert(d.subrange(addr.text@.len() as int + 2, d.len() - 1) =~= tls_name@);
        },
        _ => {},
    }
}

/// A timeout or a network error doubles the wait, up to five times the spacing; any other failure
/// leaves it; an answer takes a tenth off it, down to the spacing itself. Multipliers are counted in
/// units of `2^-52`.
pub proof fn law_results_move_backoff(run: ClassRun, d: Duration)
    requires
        run.backoff.wf(),
    ensures
        ({
            let m = run.backoff.mult as int;
            let unit = 0x10_0000_0000_0000int;
            let doubled = if 2 * m < 5 * unit {
                2 * m
            } else {
                5 * unit
            };
            let after = run.backoff_after(ProbeResult::Answered(d)).mult as int;
            &&& run.backoff_after(ProbeResult::Fail(FailKind::Timeout)).mult == doubled
            &&& run.backoff_after(ProbeResult::Fail(FailKind::Network)).mult == doubled
            &&& run.backoff_after(ProbeResult::Fail(FailKind::Protocol)).mult == m
            &&& unit <= after <= m
            &&& 10 * after >= 9 * m - 100
            &&& after > unit ==> 10 * after <= 9 * m + 100
        }),
{
    law_backoff_bounds(run.backoff, true);
    law_decay_takes_a_tenth(run.backoff);
}

/// An answer counts with its round trip, a timeout as a timeout, an error of the socket as one of the
/// network, and every other error as one of the protocol.
pub proof fn law_outcomes_are_classified(o: ProbeOutcome, e: ProbeError)
    ensures
        classified(Ok(o)) == ProbeResult::Answered(o.rtt),
        classified(Err(e)) is Fail,
        classified(Err(e)) == ProbeResult::Fail(FailKind::Timeout) <==> e is Timeout,
        classified(Err(e)) == ProbeResult::Fail(FailKind::Network) <==> e is Io,
        classified(Err(e)) == ProbeResult::Fail(FailKind::Protocol) <==> e is BadName || e is Encode || e is Decode
            || e is IdMismatch,
{
}

/// Every result counts as a probe; an answer adds its round trip behind the others, and a failure adds
/// none.
pub proof fn law_tallies_count_every_probe(rtts: Seq<Duration>, total: nat, result: ProbeResult)
    ensures
        tallied(rtts, total, result).1 == total + 1,
        result is Fail ==> tallied(rtts, total, result).0 == rtts,
        result matches ProbeResult::Answered(d) ==> {
            let after = tallied(rtts, total, result).0;
            after.len() == rtts.len() + 1 && after.last() == d && after.drop_last() == rtts
        },
{
    if let ProbeResult::Answered(d) = result {
        assert(rtts.push(d).drop_last() =~= rtts);
    }
}

/// After a probe the endpoint is left alone for the spacing times the multiplier that the result has
/// brought about; without jitter for just that, with jitter for no less and no more than the amplitude
/// takes off that and adds to it. Without spacing there is no pause. Only jitter draws a random number.
pub proof fn law_pauses_grow_with_backoff(run: ClassRun, result: ProbeResult, spacing: nat, pct: Amplitude)
    requires
        pct.wf(),
        spacing > 0,
    ensures
        ({
            let none = Amplitude { units: 0, shift: 0 };
            let base = run.backoff_after(result).scaled(spacing);
            let (low, high) = factor_range(pct);
            let (pause, rng) = run.pause_after(result, spacing, pct);
            &&& run.pause_after(result, 0, pct) == (None::<nat>, run.rng)
            &&& run.pause_after(result, spacing, none) == (Some(base), run.rng)
            &&& pause is Some
            &&& pct.units > 0 && base > 0 ==> rng == xorshift(run.rng) && saturated(
                round53(round53(base) * low) / pct.one(),
            ) <= pause->0 <= saturated(round53(round53(base) * high) / pct.one())
            &&& pct.units > 0 && base > 0 ==> pause->0 == jittered(base, rng, pct)
        }),
{
    law_jitter_range(run.backoff_after(result).scaled(spacing), xorshift(run.rng), pct);
}

/// Within a round the domains come in its order. Behind the last of them a new round begins with the
/// domains shuffled anew, as long as rounds are left; then nothing more comes.
pub proof fn law_rounds_are_shuffled(run: ClassRun)
    requires
        run.order@.len() > 0,
    ensures
        ({
            let (next, order, rng) = run.drawn();
            &&& run.pos < run.order@.len() ==> next == Some(run.order@[run.pos as int]) && order == run.order@ && rng
                == run.rng
            &&& run.pos >= run.order@.len() && run.rounds_left > 0 ==> next == Some(order[0]) && order == shuffled(
                run.order@,
                run.rng,
            ).0 && rng == shuffled(run.order@, run.rng).1 && order.to_multiset() == run.order@.to_multiset()
            &&& next is None <==> run.pos >= run.order@.len() && run.rounds_left == 0
        }),
{
    law_shuffle_permutes(run.order@, run.rng);
}

/// A report names its endpoint and holds the summary of each class as that of its own class.
pub proof fn law_reports_tell_classes_apart(
    r: EndpointReport,
    resolver: Seq<char>,
    provider: Seq<char>,
    transport: Transport,
    cached: Option<Summary>,
    uncached: Option<Summary>,
)
    requires
        reports_on(r, resolver, provider, transport, cached, uncached),
    ensures
        r.resolver@ == resolver && r.provider@ == provider,
        r.cached == cached && r.uncached == uncached,
        transport is Udp <==> r.transport_kind == TransportKind::Udp,
        transport is Dot <==> r.transport_kind == TransportKind::Dot,
        transport is Doh <==> r.transport_kind == TransportKind::Doh,
        r.addr_display@ == transport.spec_display_addr(),
{
}

/// What a run does that nobody has configured: both classes over IPv4 and every transport, four queries
/// of each class to each of the twelve default domains, 40 milliseconds apart, within a second and a
/// half each, with half a second between the classes.
pub proof fn law_default_run(c: ConfigView)
    requires
        is_default(c),
    ensures
        c.domains.len() == 12 && c.iterations == 4 && c.domains.len() * c.iterations == 48,
        c.timeout@ == 1500 * 1_000_000 && c.inter_query@ == 40 * 1_000_000 && c.inter_class_pause@ == 500 * 1_000_000,
        c.cached && c.uncached && !c.include_ipv6 && c.transports.len() == 0,
        20 * c.jitter_pct.units - 10 <= 6 * vstd::arithmetic::power2::pow2(54) <= 20 * c.jitter_pct.units + 10,
{
    law_default_amplitude_is_three_tenths();
    law_default_domains();
}

} // verus!
