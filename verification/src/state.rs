//! The results of a running benchmark, endpoint by endpoint.

use vstd::prelude::*;

use crate::bench::{lemma_times_push, times, BenchEvent, Class, ClassRun, EndpointReport, FailKind, ProbeResult};
use crate::double::{lemma_billionths, lemma_pow2_127, ratio, Double};
use crate::duration::{nanos_of, Duration};
use crate::order::{law_text_order, Column, Keys};
use crate::stats::{
    at_most, below, law_percentile_is_nearest_rank, law_summary_figures, percentile_of, reliability_of, spread_fits,
    spread_is_bounded, summarize, summarizes, Summary,
};
use crate::text::texts;
use crate::transport::TransportKind;

verus! {

broadcast use vstd::string::group_string_axioms;

// --- failures ---

/// How often probes failed, by the kind of the failure.
#[derive(Clone, Copy, Debug, PartialEq, Eq, Structural)]
pub struct FailCounts {
    pub timeout: usize,
    pub network: usize,
    pub protocol: usize,
}

impl FailCounts {
    /// All failures.
    pub open spec fn count(self) -> nat {
        (self.timeout + self.network + self.protocol) as nat
    }

    /// No failures.
    pub open spec fn none() -> FailCounts {
        FailCounts { timeout: 0, network: 0, protocol: 0 }
    }

    /// One more failure of a kind.
    pub open spec fn bumped(self, k: FailKind) -> FailCounts {
        match k {
            FailKind::Timeout => FailCounts { timeout: (self.timeout + 1) as usize, ..self },
            FailKind::Network => FailCounts { network: (self.network + 1) as usize, ..self },
            FailKind::Protocol => FailCounts { protocol: (self.protocol + 1) as usize, ..self },
        }
    }

    /// All failures.
    pub fn total(&self) -> (r: usize)
        requires
            self.count() <= usize::MAX,
        ensures
            r == self.count(),
    {
        self.timeout + self.network + self.protocol
    }

    /// Count a failure.
    pub fn bump(&mut self, k: FailKind)
        requires
            old(self).count() < usize::MAX,
        ensures
            *final(self) == old(self).bumped(k),
            final(self).count() == old(self).count() + 1,
    {
        match k {
            FailKind::Timeout => {
                self.timeout = self.timeout + 1;
            },
            FailKind::Network => {
                self.network = self.network + 1;
            },
            FailKind::Protocol => {
                self.protocol = self.protocol + 1;
            },
        }
    }
}

// --- one domain ---

/// The results for one domain.
#[derive(Clone, Debug)]
pub struct DomainStats {
    pub rtts: Vec<Duration>,
    pub fails: FailCounts,
}

/// The results for one domain, as a value.
#[verifier::ext_equal]
pub struct StatsView {
    pub rtts: Seq<Duration>,
    pub fails: FailCounts,
}

impl StatsView {
    /// No results.
    pub open spec fn none() -> StatsView {
        StatsView { rtts: Seq::empty(), fails: FailCounts::none() }
    }

    /// All probes.
    pub open spec fn count(self) -> nat {
        self.rtts.len() + self.fails.count()
    }

    /// One more result.
    pub open spec fn with(self, result: ProbeResult) -> StatsView {
        match result {
            ProbeResult::Answered(d) => StatsView { rtts: self.rtts.push(d), ..self },
            ProbeResult::Fail(k) => StatsView { fails: self.fails.bumped(k), ..self },
        }
    }
}

impl View for DomainStats {
    type V = StatsView;

    open spec fn view(&self) -> StatsView {
        StatsView { rtts: self.rtts@, fails: self.fails }
    }
}

impl DomainStats {
    /// No results.
    pub fn new() -> (r: DomainStats)
        ensures
            r@ == StatsView::none(),
    {
        let r = DomainStats { rtts: Vec::new(), fails: FailCounts { timeout: 0, network: 0, protocol: 0 } };
        assert(r@ =~= StatsView::none());
        r
    }

    /// All probes.
    pub fn total(&self) -> (r: usize)
        requires
            self@.count() <= usize::MAX,
        ensures
            r == self@.count(),
    {
        self.rtts.len() + self.fails.total()
    }

    /// Add a result.
    pub fn record(&mut self, result: ProbeResult)
        requires
            old(self)@.count() < usize::MAX,
        ensures
            final(self)@ == old(self)@.with(result),
            final(self)@.count() == old(self)@.count() + 1,
    {
        match result {
            ProbeResult::Answered(d) => {
                self.rtts.push(d);
            },
            ProbeResult::Fail(k) => {
                self.fails.bump(k);
            },
        }
        assert(self@ =~= old(self)@.with(result));
    }
}

// --- one class ---

/// The results for each domain.
pub open spec fn bucket_view(v: Seq<DomainStats>) -> Seq<StatsView> {
    v.map_values(|d: DomainStats| d@)
}

/// All probes of a class.
pub open spec fn bucket_count(b: Seq<StatsView>) -> nat
    decreases b.len(),
{
    if b.len() == 0 {
        0
    } else {
        bucket_count(b.drop_last()) + b.last().count()
    }
}

/// The round trips of a class, domain by domain.
pub open spec fn class_rtts(b: Seq<StatsView>) -> Seq<Duration>
    decreases b.len(),
{
    if b.len() == 0 {
        Seq::empty()
    } else {
        class_rtts(b.drop_last()) + b.last().rtts
    }
}

/// The failures of a class of one kind.
pub open spec fn class_fails(b: Seq<StatsView>, k: FailKind) -> nat
    decreases b.len(),
{
    if b.len() == 0 {
        0
    } else {
        class_fails(b.drop_last(), k) + (match k {
            FailKind::Timeout => b.last().fails.timeout as nat,
            FailKind::Network => b.last().fails.network as nat,
            FailKind::Protocol => b.last().fails.protocol as nat,
        })
    }
}

proof fn lemma_bucket_bounds(b: Seq<StatsView>)
    ensures
        class_rtts(b).len() + class_fails(b, FailKind::Timeout) + class_fails(b, FailKind::Network) + class_fails(
            b,
            FailKind::Protocol,
        ) == bucket_count(b),
    decreases b.len(),
{
    if b.len() > 0 {
        lemma_bucket_bounds(b.drop_last());
    }
}

proof fn lemma_bucket_take(b: Seq<StatsView>, k: int)
    requires
        0 <= k < b.len(),
    ensures
        bucket_count(b.take(k + 1)) == bucket_count(b.take(k)) + b[k].count(),
        class_rtts(b.take(k + 1)) == class_rtts(b.take(k)) + b[k].rtts,
        bucket_count(b.take(k + 1)) <= bucket_count(b),
        b.take(k + 1).drop_last() == b.take(k),
        b.take(k + 1).last() == b[k],
    decreases b.len(),
{
    assert(b.take(k + 1).drop_last() =~= b.take(k));
    if k + 1 == b.len() {
        assert(b.take(k + 1) =~= b);
    } else {
        lemma_bucket_take(b.drop_last(), k);
        assert(b.drop_last().take(k + 1) =~= b.take(k + 1));
        assert(b.drop_last().take(k) =~= b.take(k));
    }
}

/// The summary of a class is `r`.
pub open spec fn class_summary(r: Option<Summary>, b: Seq<StatsView>) -> bool {
    match r {
        Some(x) => class_rtts(b).len() > 0 && summarizes(x, nanos_of(class_rtts(b)), bucket_count(b)),
        None => class_rtts(b).len() == 0,
    }
}

fn append_rtts(r: &mut Vec<Duration>, more: &Vec<Duration>)
    ensures
        final(r)@ == old(r)@ + more@,
{
    let ghost start = r@;
    let n: usize = more.len();
    let mut i: usize = 0;
    assert(start + more@.take(0) =~= start);
    while i < n
        invariant
            i <= n == more.len(),
            r@ == start + more@.take(i as int),
        decreases n - i,
    {
        r.push(more[i]);
        assert(r@ =~= start + more@.take(i + 1));
        i = i + 1;
    }
    assert(more@.take(n as int) =~= more@);
}

/// The number of probes of a class.
pub fn class_total(per_domain: &Vec<DomainStats>) -> (r: usize)
    requires
        bucket_count(bucket_view(per_domain@)) <= usize::MAX,
    ensures
        r == bucket_count(bucket_view(per_domain@)),
{
    let ghost b = bucket_view(per_domain@);
    let n: usize = per_domain.len();
    let mut total: usize = 0;
    let mut i: usize = 0;
    assert(b.take(0).len() == 0);
    while i < n
        invariant
            i <= n == per_domain.len(),
            b == bucket_view(per_domain@),
            bucket_count(b) <= usize::MAX,
            total == bucket_count(b.take(i as int)),
        decreases n - i,
    {
        proof {
            lemma_bucket_take(b, i as int);
        }
        total = total + per_domain[i].total();
        i = i + 1;
    }
    assert(b.take(n as int) =~= b);
    total
}

/// Build the summary of a class from the results for each domain.
pub fn summarize_class(per_domain: &Vec<DomainStats>) -> (r: Option<Summary>)
    requires
        bucket_count(bucket_view(per_domain@)) <= usize::MAX,
        spread_fits(nanos_of(class_rtts(bucket_view(per_domain@)))),
    ensures
        class_summary(r, bucket_view(per_domain@)),
{
    let ghost b = bucket_view(per_domain@);
    let n: usize = per_domain.len();
    let mut rtts: Vec<Duration> = Vec::new();
    let mut i: usize = 0;
    assert(b.take(0).len() == 0);
    while i < n
        invariant
            i <= n == per_domain.len(),
            b == bucket_view(per_domain@),
            rtts@ == class_rtts(b.take(i as int)),
        decreases n - i,
    {
        proof {
            lemma_bucket_take(b, i as int);
        }
        append_rtts(&mut rtts, &per_domain[i].rtts);
        i = i + 1;
    }
    assert(b.take(n as int) =~= b);
    let total: usize = class_total(per_domain);
    proof {
        lemma_bucket_bounds(b);
    }
    if total == 0 {
        return None;
    }
    summarize(rtts, total)
}

// --- one endpoint ---

/// The results for one endpoint.
pub struct EndpointState {
    pub name: String,
    pub provider: String,
    pub transport_kind: TransportKind,
    pub addr_display: String,
    /// The results of the cached class for each domain.
    pub cached: Vec<DomainStats>,
    /// The results of the uncached class for each domain.
    pub uncached: Vec<DomainStats>,
    pub total_per_class: usize,
    pub done: bool,
}

/// The results for one endpoint, as a value.
#[verifier::ext_equal]
pub struct EndpointView {
    pub name: Seq<char>,
    pub provider: Seq<char>,
    pub transport_kind: TransportKind,
    pub addr_display: Seq<char>,
    pub cached: Seq<StatsView>,
    pub uncached: Seq<StatsView>,
    pub total_per_class: usize,
    pub done: bool,
}

impl View for EndpointState {
    type V = EndpointView;

    open spec fn view(&self) -> EndpointView {
        EndpointView {
            name: self.name@,
            provider: self.provider@,
            transport_kind: self.transport_kind,
            addr_display: self.addr_display@,
            cached: bucket_view(self.cached@),
            uncached: bucket_view(self.uncached@),
            total_per_class: self.total_per_class,
            done: self.done,
        }
    }
}

/// The results of a class for each domain, with one more result where there is such a domain.
pub open spec fn bucket_with(b: Seq<StatsView>, idx: int, result: ProbeResult) -> Seq<StatsView> {
    if 0 <= idx < b.len() {
        b.update(idx, b[idx].with(result))
    } else {
        b
    }
}

/// No results for any of `n` domains.
pub open spec fn empty_bucket(n: nat) -> Seq<StatsView> {
    Seq::new(n, |i: int| StatsView::none())
}

/// The reliability over both classes: what was answered out of what was asked, of the classes
/// that had an answer.
pub open spec fn combined(c: Seq<StatsView>, u: Seq<StatsView>) -> Option<Double> {
    let cn = class_rtts(c).len();
    let un = class_rtts(u).len();
    if cn == 0 && un == 0 {
        None
    } else if un == 0 {
        Some(reliability_of(cn, bucket_count(c)))
    } else if cn == 0 {
        Some(reliability_of(un, bucket_count(u)))
    } else {
        Some(reliability_of(cn + un, bucket_count(c) + bucket_count(u)))
    }
}

impl EndpointView {
    /// An endpoint that has not been announced yet.
    pub open spec fn blank(domains: nat) -> EndpointView {
        EndpointView {
            name: Seq::empty(),
            provider: Seq::empty(),
            transport_kind: TransportKind::Udp,
            addr_display: "0.0.0.0"@,
            cached: empty_bucket(domains),
            uncached: empty_bucket(domains),
            total_per_class: 0,
            done: false,
        }
    }

    /// All probes.
    pub open spec fn count(self) -> nat {
        bucket_count(self.cached) + bucket_count(self.uncached)
    }

    /// The counts and the sums behind the summaries stay within machine arithmetic.
    pub open spec fn fits(self) -> bool {
        &&& self.count() <= usize::MAX
        &&& spread_fits(nanos_of(class_rtts(self.cached)))
        &&& spread_fits(nanos_of(class_rtts(self.uncached)))
    }

    /// The results of a class.
    pub open spec fn bucket(self, class: Class) -> Seq<StatsView> {
        match class {
            Class::Cached => self.cached,
            Class::Uncached => self.uncached,
        }
    }

    /// One more result.
    pub open spec fn with(self, class: Class, idx: int, result: ProbeResult) -> EndpointView {
        match class {
            Class::Cached => EndpointView { cached: bucket_with(self.cached, idx, result), ..self },
            Class::Uncached => EndpointView { uncached: bucket_with(self.uncached, idx, result), ..self },
        }
    }

    /// The failures of both classes.
    pub open spec fn fails(self) -> FailCounts {
        FailCounts {
            timeout: (class_fails(self.cached, FailKind::Timeout) + class_fails(self.uncached, FailKind::Timeout)) as usize,
            network: (class_fails(self.cached, FailKind::Network) + class_fails(self.uncached, FailKind::Network)) as usize,
            protocol: (class_fails(self.cached, FailKind::Protocol) + class_fails(self.uncached, FailKind::Protocol))
                as usize,
        }
    }

    /// The probes that are due with the classes that are enabled.
    pub open spec fn due(self, cached: bool, uncached: bool) -> nat {
        self.total_per_class as nat * classes_enabled(cached, uncached)
    }
}

/// The number of classes that are enabled.
pub open spec fn classes_enabled(cached: bool, uncached: bool) -> nat {
    (if cached {
        1nat
    } else {
        0
    }) + (if uncached {
        1nat
    } else {
        0
    })
}

/// A report holds the results `v`.
pub open spec fn reports(r: EndpointReport, v: EndpointView) -> bool {
    &&& r.resolver@ == v.name
    &&& r.provider@ == v.provider
    &&& r.transport_kind == v.transport_kind
    &&& r.addr_display@ == v.addr_display
    &&& class_summary(r.cached, v.cached)
    &&& class_summary(r.uncached, v.uncached)
}

proof fn lemma_bucket_with(b: Seq<StatsView>, idx: int, result: ProbeResult)
    requires
        bucket_count(b) < usize::MAX,
    ensures
        bucket_count(bucket_with(b, idx, result)) == bucket_count(b) + (if 0 <= idx < b.len() {
            1nat
        } else {
            0nat
        }),
        0 <= idx < b.len() ==> b[idx].count() <= bucket_count(b),
    decreases b.len(),
{
    if 0 <= idx < b.len() {
        let after = bucket_with(b, idx, result);
        if idx == b.len() - 1 {
            assert(after.drop_last() =~= b.drop_last());
            assert(after.last().count() == b.last().count() + 1);
        } else {
            lemma_bucket_with(b.drop_last(), idx, result);
            assert(after.drop_last() =~= bucket_with(b.drop_last(), idx, result));
            assert(after.last() == b.last());
        }
    }
}

proof fn lemma_empty_bucket(n: nat)
    ensures
        bucket_count(empty_bucket(n)) == 0,
        class_rtts(empty_bucket(n)).len() == 0,
        spread_fits(nanos_of(class_rtts(empty_bucket(n)))),
    decreases n,
{
    if n > 0 {
        lemma_empty_bucket((n - 1) as nat);
        assert(empty_bucket(n).drop_last() =~= empty_bucket((n - 1) as nat));
    }
}

fn new_bucket(n: usize) -> (r: Vec<DomainStats>)
    ensures
        bucket_view(r@) == empty_bucket(n as nat),
{
    let mut r: Vec<DomainStats> = Vec::new();
    let mut i: usize = 0;
    while i < n
        invariant
            i <= n,
            bucket_view(r@) =~= empty_bucket(i as nat),
        decreases n - i,
    {
        let ghost before = r@;
        r.push(DomainStats::new());
        assert(bucket_view(r@) =~= bucket_view(before).push(StatsView::none()));
        i = i + 1;
    }
    r
}

fn record_in(bucket: &mut Vec<DomainStats>, idx: usize, result: ProbeResult)
    requires
        idx < old(bucket)@.len() ==> bucket_count(bucket_view(old(bucket)@)) < usize::MAX,
    ensures
        bucket_view(final(bucket)@) == bucket_with(bucket_view(old(bucket)@), idx as int, result),
{
    let ghost before = bucket@;
    if idx < bucket.len() {
        proof {
            lemma_bucket_with(bucket_view(before), idx as int, result);
        }
        bucket[idx].record(result);
        assert(bucket_view(bucket@) =~= bucket_with(bucket_view(before), idx as int, result));
    }
}

impl EndpointState {
    /// An endpoint that has not been announced yet.
    pub fn blank(domains: usize) -> (r: EndpointState)
        ensures
            r@ == EndpointView::blank(domains as nat),
    {
        let r = EndpointState {
            name: String::new(),
            provider: String::new(),
            transport_kind: TransportKind::Udp,
            addr_display: "0.0.0.0".to_owned(),
            cached: new_bucket(domains),
            uncached: new_bucket(domains),
            total_per_class: 0,
            done: false,
        };
        assert(r@ =~= EndpointView::blank(domains as nat));
        r
    }

    /// Add a result, where there is such a domain.
    pub fn record(&mut self, class: Class, idx: usize, result: ProbeResult)
        requires
            idx < old(self)@.bucket(class).len() ==> old(self)@.count() < usize::MAX,
        ensures
            final(self)@ == old(self)@.with(class, idx as int, result),
    {
        match class {
            Class::Cached => record_in(&mut self.cached, idx, result),
            Class::Uncached => record_in(&mut self.uncached, idx, result),
        }
        assert(self@ =~= old(self)@.with(class, idx as int, result));
    }

    /// The summary of the cached class.
    pub fn cached_summary(&self) -> (r: Option<Summary>)
        requires
            self@.fits(),
        ensures
            class_summary(r, self@.cached),
    {
        summarize_class(&self.cached)
    }

    /// The summary of the uncached class.
    pub fn uncached_summary(&self) -> (r: Option<Summary>)
        requires
            self@.fits(),
        ensures
            class_summary(r, self@.uncached),
    {
        summarize_class(&self.uncached)
    }

    /// The reliability over both classes.
    pub fn combined_reliability(&self) -> (r: Option<Double>)
        requires
            self@.fits(),
        ensures
            r == combined(self@.cached, self@.uncached),
            r matches Some(d) ==> d.small() && d.normal(),
    {
        let c = self.cached_summary();
        let u = self.uncached_summary();
        proof {
            lemma_bucket_bounds(self@.cached);
            lemma_bucket_bounds(self@.uncached);
        }
        match (c, u) {
            (None, None) => None,
            (Some(a), None) => Some(a.reliability()),
            (None, Some(b)) => Some(b.reliability()),
            (Some(a), Some(b)) => {
                let total: usize = a.total + b.total;
                Some(ratio((a.successes + b.successes) as u64, total as u64))
            },
        }
    }

    /// The probes made, and the probes due with the classes that are enabled.
    pub fn progress(&self, cached_enabled: bool, uncached_enabled: bool) -> (r: (usize, usize))
        requires
            self@.count() <= usize::MAX,
            self@.due(cached_enabled, uncached_enabled) <= usize::MAX,
        ensures
            r.0 == self@.count(),
            r.1 == self@.due(cached_enabled, uncached_enabled),
    {
        let done: usize = class_total(&self.cached) + class_total(&self.uncached);
        proof {
            let n = self.total_per_class as nat;
            assert(n * 0nat == 0 && n * 1nat == n && n * 2nat == 2 * n) by (nonlinear_arith);
        }
        let due: usize = if cached_enabled && uncached_enabled {
            self.total_per_class * 2
        } else if cached_enabled || uncached_enabled {
            self.total_per_class
        } else {
            0
        };
        (done, due)
    }

    /// The failures of both classes.
    pub fn fails(&self) -> (r: FailCounts)
        requires
            self@.count() <= usize::MAX,
        ensures
            r == self@.fails(),
            r.count() <= self@.count(),
    {
        let c = bucket_fails(&self.cached);
        let u = bucket_fails(&self.uncached);
        proof {
            lemma_bucket_bounds(self@.cached);
            lemma_bucket_bounds(self@.uncached);
        }
        FailCounts {
            timeout: c.timeout + u.timeout,
            network: c.network + u.network,
            protocol: c.protocol + u.protocol,
        }
    }

    /// The report on this endpoint.
    pub fn to_report(&self) -> (r: EndpointReport)
        requires
            self@.fits(),
        ensures
            reports(r, self@),
    {
        EndpointReport {
            resolver: self.name.clone(),
            provider: self.provider.clone(),
            transport_kind: self.transport_kind,
            addr_display: self.addr_display.clone(),
            cached: self.cached_summary(),
            uncached: self.uncached_summary(),
        }
    }
}

fn bucket_fails(per_domain: &Vec<DomainStats>) -> (r: FailCounts)
    requires
        bucket_count(bucket_view(per_domain@)) <= usize::MAX,
    ensures
        r.timeout == class_fails(bucket_view(per_domain@), FailKind::Timeout),
        r.network == class_fails(bucket_view(per_domain@), FailKind::Network),
        r.protocol == class_fails(bucket_view(per_domain@), FailKind::Protocol),
{
    let ghost b = bucket_view(per_domain@);
    let n: usize = per_domain.len();
    let mut r = FailCounts { timeout: 0, network: 0, protocol: 0 };
    let mut i: usize = 0;
    assert(b.take(0).len() == 0);
    while i < n
        invariant
            i <= n == per_domain.len(),
            b == bucket_view(per_domain@),
            bucket_count(b) <= usize::MAX,
            r.timeout == class_fails(b.take(i as int), FailKind::Timeout),
            r.network == class_fails(b.take(i as int), FailKind::Network),
            r.protocol == class_fails(b.take(i as int), FailKind::Protocol),
        decreases n - i,
    {
        proof {
            lemma_bucket_take(b, i as int);
            lemma_bucket_bounds(b.take(i + 1));
            assert(b[i as int] == per_domain@[i as int]@);
        }
        let f = per_domain[i].fails;
        r = FailCounts {
            timeout: r.timeout + f.timeout,
            network: r.network + f.network,
            protocol: r.protocol + f.protocol,
        };
        i = i + 1;
    }
    assert(b.take(n as int) =~= b);
    r
}

/// A probe of a known domain adds one to the count of its endpoint, and leaves the other class
/// as it is.
pub proof fn law_probe_counts_once(v: EndpointView, class: Class, idx: int, result: ProbeResult)
    requires
        v.count() < usize::MAX,
        0 <= idx < v.bucket(class).len(),
    ensures
        v.with(class, idx, result).count() == v.count() + 1,
        class == Class::Cached ==> v.with(class, idx, result).uncached == v.uncached,
        class == Class::Uncached ==> v.with(class, idx, result).cached == v.cached,
{
    lemma_bucket_with(v.bucket(class), idx, result);
}

// --- all endpoints ---

/// The results for each endpoint.
pub open spec fn all_views(v: Seq<EndpointState>) -> Seq<EndpointView> {
    v.map_values(|e: EndpointState| e@)
}

/// All probes of all endpoints.
pub open spec fn recorded(v: Seq<EndpointView>) -> nat
    decreases v.len(),
{
    if v.len() == 0 {
        0
    } else {
        recorded(v.drop_last()) + v.last().count()
    }
}

/// The counts and the sums behind the summaries stay within machine arithmetic.
pub open spec fn all_fit(v: Seq<EndpointView>) -> bool {
    &&& recorded(v) <= usize::MAX
    &&& forall|i: int| 0 <= i < v.len() ==> (#[trigger] v[i]).fits()
}

/// The endpoints, with blank ones added until there are more than `id`.
pub open spec fn grown(v: Seq<EndpointView>, id: nat, domains: nat) -> Seq<EndpointView> {
    if v.len() <= id {
        v + Seq::new((id + 1 - v.len()) as nat, |i: int| EndpointView::blank(domains))
    } else {
        v
    }
}

/// The endpoints after an event.
pub open spec fn applied(v: Seq<EndpointView>, ev: BenchEvent, domains: nat) -> Seq<EndpointView> {
    match ev {
        BenchEvent::Start { id, resolver, provider, transport_kind, addr_display, total_per_class } => {
            let g = grown(v, id as nat, domains);
            g.update(
                id as int,
                EndpointView {
                    name: resolver@,
                    provider: provider@,
                    transport_kind,
                    addr_display: addr_display@,
                    total_per_class,
                    ..g[id as int]
                },
            )
        },
        BenchEvent::Probe { id, class, domain_idx, result } => if id < v.len() {
            v.update(id as int, v[id as int].with(class, domain_idx as int, result))
        } else {
            v
        },
        BenchEvent::Done { id } => if id < v.len() {
            v.update(id as int, EndpointView { done: true, ..v[id as int] })
        } else {
            v
        },
        BenchEvent::AllDone => v,
    }
}

/// An event tells of a probe that has a place among the results.
pub open spec fn has_place(v: Seq<EndpointView>, ev: BenchEvent) -> bool {
    ev matches BenchEvent::Probe { id, class, domain_idx, result } && id < v.len() && domain_idx
        < v[id as int].bucket(class).len()
}

/// The results after an event stay within machine arithmetic.
pub open spec fn accepts(v: Seq<EndpointView>, ev: BenchEvent, domains: nat) -> bool {
    &&& ev matches BenchEvent::Start { id, .. } ==> id < usize::MAX
    &&& has_place(v, ev) ==> recorded(v) < usize::MAX
    &&& all_fit(applied(v, ev, domains))
}

proof fn lemma_recorded_update(v: Seq<EndpointView>, k: int, e: EndpointView)
    requires
        0 <= k < v.len(),
    ensures
        recorded(v.update(k, e)) == recorded(v) - v[k].count() + e.count(),
        v[k].count() <= recorded(v),
    decreases v.len(),
{
    if k == v.len() - 1 {
        assert(v.update(k, e).drop_last() =~= v.drop_last());
    } else {
        lemma_recorded_update(v.drop_last(), k, e);
        assert(v.update(k, e).drop_last() =~= v.drop_last().update(k, e));
    }
}

proof fn lemma_grown(v: Seq<EndpointView>, id: nat, domains: nat)
    ensures
        recorded(grown(v, id, domains)) == recorded(v),
        all_fit(v) ==> all_fit(grown(v, id, domains)),
        grown(v, id, domains).len() > id,
    decreases id,
{
    let g = grown(v, id, domains);
    lemma_empty_bucket(domains);
    let blank = EndpointView::blank(domains);
    if v.len() <= id {
        assert(g.last() == blank);
        if v.len() < id {
            lemma_grown(v, (id - 1) as nat, domains);
            assert(g.drop_last() =~= grown(v, (id - 1) as nat, domains));
        } else {
            assert(g.drop_last() =~= v);
        }
        assert forall|i: int| all_fit(v) && 0 <= i < g.len() implies (#[trigger] g[i]).fits() by {
            if i < v.len() {
                assert(g[i] == v[i]);
            } else {
                assert(g[i] == blank);
            }
        }
    }
}

/// Naming an endpoint, or finishing it, changes nothing about its counts.
proof fn lemma_same_buckets(v: Seq<EndpointView>, k: int, e: EndpointView)
    requires
        0 <= k < v.len(),
        all_fit(v),
        e.cached == v[k].cached,
        e.uncached == v[k].uncached,
    ensures
        all_fit(v.update(k, e)),
{
    lemma_recorded_update(v, k, e);
    assert forall|i: int| 0 <= i < v.len() implies (#[trigger] v.update(k, e)[i]).fits() by {
        assert(v[i].fits());
    }
}

/// The number of probes of all endpoints.
pub fn total_recorded(endpoints: &Vec<EndpointState>) -> (r: usize)
    requires
        recorded(all_views(endpoints@)) <= usize::MAX,
    ensures
        r == recorded(all_views(endpoints@)),
{
    let ghost v = all_views(endpoints@);
    let n: usize = endpoints.len();
    let mut total: usize = 0;
    let mut i: usize = 0;
    assert(v.take(0).len() == 0);
    while i < n
        invariant
            i <= n == endpoints.len(),
            v == all_views(endpoints@),
            recorded(v) <= usize::MAX,
            total == recorded(v.take(i as int)),
        decreases n - i,
    {
        proof {
            lemma_recorded_take(v, i as int);
            assert(v[i as int] == endpoints@[i as int]@);
        }
        total = total + (class_total(&endpoints[i].cached) + class_total(&endpoints[i].uncached));
        i = i + 1;
    }
    assert(v.take(n as int) =~= v);
    total
}

proof fn lemma_recorded_take(v: Seq<EndpointView>, k: int)
    requires
        0 <= k < v.len(),
    ensures
        recorded(v.take(k + 1)) == recorded(v.take(k)) + v[k].count(),
        recorded(v.take(k + 1)) <= recorded(v),
    decreases v.len(),
{
    assert(v.take(k + 1).drop_last() =~= v.take(k));
    if k + 1 == v.len() {
        assert(v.take(k + 1) =~= v);
    } else {
        lemma_recorded_take(v.drop_last(), k);
        assert(v.drop_last().take(k + 1) =~= v.take(k + 1));
        assert(v.drop_last().take(k) =~= v.take(k));
    }
}

fn rtts_with(per_domain: &Vec<DomainStats>, idx: usize, d: Duration) -> (r: Vec<Duration>)
    requires
        idx < per_domain@.len(),
    ensures
        r@ == class_rtts(bucket_with(bucket_view(per_domain@), idx as int, ProbeResult::Answered(d))),
{
    let ghost b = bucket_with(bucket_view(per_domain@), idx as int, ProbeResult::Answered(d));
    let n: usize = per_domain.len();
    let mut rtts: Vec<Duration> = Vec::new();
    let mut i: usize = 0;
    assert(b.take(0).len() == 0);
    while i < n
        invariant
            i <= n == per_domain.len(),
            idx < n,
            b == bucket_with(bucket_view(per_domain@), idx as int, ProbeResult::Answered(d)),
            rtts@ == class_rtts(b.take(i as int)),
        decreases n - i,
    {
        let ghost before = rtts@;
        proof {
            lemma_bucket_take(b, i as int);
        }
        append_rtts(&mut rtts, &per_domain[i].rtts);
        if i == idx {
            rtts.push(d);
        }
        assert(rtts@ =~= before + b[i as int].rtts);
        i = i + 1;
    }
    assert(b.take(n as int) =~= b);
    rtts
}

proof fn lemma_fail_keeps_rtts(b: Seq<StatsView>, idx: int, k: FailKind)
    ensures
        class_rtts(bucket_with(b, idx, ProbeResult::Fail(k))) == class_rtts(b),
    decreases b.len(),
{
    if 0 <= idx < b.len() {
        let after = bucket_with(b, idx, ProbeResult::Fail(k));
        if idx == b.len() - 1 {
            assert(after.drop_last() =~= b.drop_last());
        } else {
            lemma_fail_keeps_rtts(b.drop_last(), idx, k);
            assert(after.drop_last() =~= bucket_with(b.drop_last(), idx, ProbeResult::Fail(k)));
        }
    }
}

/// Whether the results after an event stay within machine arithmetic.
pub fn can_apply(endpoints: &Vec<EndpointState>, ev: &BenchEvent, domains: usize) -> (r: bool)
    requires
        all_fit(all_views(endpoints@)),
    ensures
        r == accepts(all_views(endpoints@), *ev, domains as nat),
{
    let ghost v = all_views(endpoints@);
    match ev {
        BenchEvent::Start { id, .. } => {
            proof {
                let g = grown(v, *id as nat, domains as nat);
                lemma_grown(v, *id as nat, domains as nat);
                lemma_same_buckets(g, *id as int, applied(v, *ev, domains as nat)[*id as int]);
                assert(applied(v, *ev, domains as nat) =~= g.update(
                    *id as int,
                    applied(v, *ev, domains as nat)[*id as int],
                ));
            }
            *id < usize::MAX
        },
        BenchEvent::Probe { id, class, domain_idx, result } => {
            let id: usize = *id;
            if id >= endpoints.len() {
                return true;
            }
            let e = &endpoints[id];
            assert(v[id as int] == e@);
            let bucket = match class {
                Class::Cached => &e.cached,
                Class::Uncached => &e.uncached,
            };
            let idx: usize = *domain_idx as usize;
            let ghost after = e@.with(*class, idx as int, *result);
            if idx >= bucket.len() {
                assert(after =~= e@);
                assert(v.update(id as int, after) =~= v);
                return true;
            }
            if total_recorded(endpoints) == usize::MAX {
                return false;
            }
            proof {
                lemma_recorded_update(v, id as int, after);
                lemma_bucket_with(e@.bucket(*class), idx as int, *result);
                assert(v.update(id as int, after)[id as int] == after);
                assert forall|i: int| 0 <= i < v.len() && i != id implies (#[trigger] v.update(id as int, after)[i]).fits() by {
                    assert(v[i].fits());
                }
                assert(v[id as int].fits());
            }
            match result {
                ProbeResult::Answered(d) => spread_is_bounded(&rtts_with(bucket, idx, *d)),
                ProbeResult::Fail(k) => {
                    proof {
                        lemma_fail_keeps_rtts(e@.bucket(*class), idx as int, *k);
                    }
                    true
                },
            }
        },
        BenchEvent::Done { id } => {
            proof {
                if *id < v.len() {
                    lemma_same_buckets(v, *id as int, (EndpointView { done: true, ..v[*id as int] }));
                }
            }
            true
        },
        BenchEvent::AllDone => true,
    }
}

/// Take note of an event.
pub fn apply_event(endpoints: &mut Vec<EndpointState>, ev: BenchEvent, domains: usize)
    requires
        all_fit(all_views(old(endpoints)@)),
        accepts(all_views(old(endpoints)@), ev, domains as nat),
    ensures
        all_views(final(endpoints)@) == applied(all_views(old(endpoints)@), ev, domains as nat),
        all_fit(all_views(final(endpoints)@)),
{
    let ghost v = all_views(endpoints@);
    match ev {
        BenchEvent::Start { id, resolver, provider, transport_kind, addr_display, total_per_class } => {
            let ghost g = grown(v, id as nat, domains as nat);
            let n: usize = if endpoints.len() <= id {
                id + 1
            } else {
                endpoints.len()
            };
            while endpoints.len() < n
                invariant
                    v.len() <= endpoints@.len() <= n == g.len(),
                    g == grown(v, id as nat, domains as nat),
                    all_views(endpoints@) == g.take(endpoints@.len() as int),
                decreases n - endpoints@.len(),
            {
                let ghost before = endpoints@;
                endpoints.push(EndpointState::blank(domains));
                assert(g[before.len() as int] == EndpointView::blank(domains as nat));
                assert(all_views(endpoints@) =~= all_views(before).push(EndpointView::blank(domains as nat)));
                assert(all_views(endpoints@) =~= g.take(endpoints@.len() as int));
            }
            let ghost before = endpoints@;
            assert(all_views(before) =~= g);
            let old_one = &mut endpoints[id];
            old_one.name = resolver;
            old_one.provider = provider;
            old_one.transport_kind = transport_kind;
            old_one.addr_display = addr_display;
            old_one.total_per_class = total_per_class;
            assert(all_views(endpoints@) =~= applied(v, ev, domains as nat)) by {
                assert(all_views(before)[id as int] == before[id as int]@);
            }
        },
        BenchEvent::Probe { id, class, domain_idx, result } => {
            if id < endpoints.len() {
                let ghost before = endpoints@;
                proof {
                    assert(v[id as int] == before[id as int]@);
                    lemma_recorded_update(v, id as int, v[id as int]);
                }
                endpoints[id].record(class, domain_idx as usize, result);
                assert(all_views(endpoints@) =~= applied(v, ev, domains as nat));
            }
        },
        BenchEvent::Done { id } => {
            if id < endpoints.len() {
                let ghost before = endpoints@;
                endpoints[id].done = true;
                assert(all_views(before)[id as int] == before[id as int]@);
                assert(all_views(endpoints@) =~= applied(v, ev, domains as nat));
            }
        },
        BenchEvent::AllDone => {},
    }
}

/// An event adds one probe where it tells of one that has a place, and takes none away.
pub proof fn law_events_count_probes(v: Seq<EndpointView>, ev: BenchEvent, domains: nat)
    requires
        accepts(v, ev, domains),
    ensures
        recorded(applied(v, ev, domains)) == recorded(v) + (if has_place(v, ev) {
            1nat
        } else {
            0nat
        }),
        applied(v, ev, domains).len() >= v.len(),
{
    match ev {
        BenchEvent::Start { id, .. } => {
            let g = grown(v, id as nat, domains);
            lemma_grown(v, id as nat, domains);
            lemma_recorded_update(g, id as int, applied(v, ev, domains)[id as int]);
        },
        BenchEvent::Probe { id, class, domain_idx, result } => {
            if id < v.len() {
                let e = v[id as int];
                let after = e.with(class, domain_idx as int, result);
                lemma_recorded_update(v, id as int, after);
                if has_place(v, ev) {
                    lemma_bucket_with(e.bucket(class), domain_idx as int, result);
                } else {
                    assert(after =~= e);
                }
            }
        },
        BenchEvent::Done { id } => {
            if id < v.len() {
                lemma_recorded_update(v, id as int, (EndpointView { done: true, ..v[id as int] }));
            }
        },
        BenchEvent::AllDone => {},
    }
}

/// An event changes the results of no endpoint but its own.
pub proof fn law_events_stay_with_their_endpoint(v: Seq<EndpointView>, ev: BenchEvent, domains: nat, i: int)
    requires
        0 <= i < v.len(),
        match ev {
            BenchEvent::Start { id, .. } => id != i,
            BenchEvent::Probe { id, .. } => id != i,
            BenchEvent::Done { id } => id != i,
            BenchEvent::AllDone => true,
        },
    ensures
        applied(v, ev, domains)[i] == v[i],
{
}

/// Every endpoint has a place for the results of each of `domains` domains.
pub open spec fn has_places(v: Seq<EndpointView>, domains: nat) -> bool {
    forall|i: int|
        0 <= i < v.len() ==> (#[trigger] v[i]).cached.len() == domains && v[i].uncached.len() == domains
}

/// An event keeps a place for the results of every domain.
pub proof fn law_events_keep_places(v: Seq<EndpointView>, ev: BenchEvent, domains: nat)
    requires
        has_places(v, domains),
    ensures
        has_places(applied(v, ev, domains), domains),
{
    let after = applied(v, ev, domains);
    assert forall|i: int| 0 <= i < after.len() implies (#[trigger] after[i]).cached.len() == domains
        && after[i].uncached.len() == domains by {
        if i < v.len() {
            assert(v[i].cached.len() == domains);
        }
    }
}

/// The results of a class after probes of these domains came to these results.
pub open spec fn replayed(b: Seq<StatsView>, asked: Seq<usize>, results: Seq<ProbeResult>) -> Seq<StatsView>
    decreases asked.len(),
{
    if asked.len() == 0 {
        b
    } else {
        bucket_with(
            replayed(b, asked.drop_last(), results.drop_last()),
            (asked.last() % 65536) as int,
            results.last(),
        )
    }
}

proof fn lemma_replayed(n: nat, asked: Seq<usize>, results: Seq<ProbeResult>)
    requires
        n <= 65536,
        asked.len() == results.len() <= usize::MAX,
        forall|i: int| 0 <= i < asked.len() ==> #[trigger] asked[i] < n,
    ensures
        replayed(empty_bucket(n), asked, results).len() == n,
        bucket_count(replayed(empty_bucket(n), asked, results)) == asked.len(),
        forall|d: usize|
            d < n ==> (#[trigger] replayed(empty_bucket(n), asked, results)[d as int]).count() == times(asked, d),
    decreases asked.len(),
{
    let b = empty_bucket(n);
    let after = replayed(b, asked, results);
    if asked.len() == 0 {
        lemma_empty_bucket(n);
        asked.to_multiset_ensures();
        assert forall|d: usize| d < n implies (#[trigger] after[d as int]).count() == times(asked, d) by {
            assert(asked.to_multiset().len() == 0);
            assert(!asked.contains(d));
        }
    } else {
        let front = asked.drop_last();
        let last = asked.last();
        let before = replayed(b, front, results.drop_last());
        lemma_replayed(n, front, results.drop_last());
        assert(asked[asked.len() - 1] < n);
        lemma_bucket_with(before, last as int, results.last());
        assert(front.push(last) =~= asked);
        assert forall|d: usize| d < n implies (#[trigger] after[d as int]).count() == times(asked, d) by {
            lemma_times_push(front, last, d);
            assert(before[d as int].count() == times(front, d));
            assert(before[last as int].count() <= bucket_count(before));
        }
    }
}

/// A finished run of a class accounts for every probe that was due: each domain was probed once
/// per iteration, and the count of the class is the number of domains times the iterations.
pub proof fn law_finished_run_is_complete(run: ClassRun, results: Seq<ProbeResult>)
    requires
        run.wf(),
        run.pos == run.order@.len(),
        run.rounds_left == 0,
        run.domains() <= 65536,
        run.domains() * run.iterations <= usize::MAX,
        results.len() == run.asked@.len(),
    ensures
        ({
            let b = replayed(empty_bucket(run.domains()), run.asked@, results);
            &&& bucket_count(b) == run.domains() * run.iterations
            &&& forall|d: usize| d < run.domains() ==> (#[trigger] b[d as int]).count() == run.iterations
        }),
{
    run.lemma_round_over();
    lemma_replayed(run.domains(), run.asked@, results);
    let b = replayed(empty_bucket(run.domains()), run.asked@, results);
    assert forall|d: usize| d < run.domains() implies (#[trigger] b[d as int]).count() == run.iterations by {
        assert(times(run.asked@, d) == run.begun());
    }
}

// --- sorting ---

/// What the endpoints are sorted by.
#[derive(Clone, Copy, Debug, PartialEq, Eq, Structural)]
pub enum SortKey {
    CachedP50,
    UncachedP50,
    Reliability,
    Name,
}

impl SortKey {
    /// The next in the cycle.
    pub open spec fn spec_next(self) -> SortKey {
        match self {
            SortKey::CachedP50 => SortKey::UncachedP50,
            SortKey::UncachedP50 => SortKey::Reliability,
            SortKey::Reliability => SortKey::Name,
            SortKey::Name => SortKey::CachedP50,
        }
    }

    /// The name in words.
    pub open spec fn spec_label(self) -> Seq<char> {
        match self {
            SortKey::CachedP50 => "cached p50"@,
            SortKey::UncachedP50 => "uncached p50"@,
            SortKey::Reliability => "reliability"@,
            SortKey::Name => "name"@,
        }
    }

    /// The next in the cycle.
    pub fn next(self) -> (r: SortKey)
        ensures
            r == self.spec_next(),
    {
        match self {
            SortKey::CachedP50 => SortKey::UncachedP50,
            SortKey::UncachedP50 => SortKey::Reliability,
            SortKey::Reliability => SortKey::Name,
            SortKey::Name => SortKey::CachedP50,
        }
    }

    /// The name in words.
    pub fn label(self) -> (r: &'static str)
        ensures
            r@ == self.spec_label(),
    {
        match self {
            SortKey::CachedP50 => "cached p50",
            SortKey::UncachedP50 => "uncached p50",
            SortKey::Reliability => "reliability",
            SortKey::Name => "name",
        }
    }
}

/// Cycling through the sort columns comes back after four steps, and visits each: behind the medians
/// come the reliability and then the name.
pub proof fn law_sort_cycle(k: SortKey)
    ensures
        SortKey::CachedP50.spec_next() == SortKey::UncachedP50,
        SortKey::CachedP50.spec_next().spec_next() == SortKey::Reliability,
        SortKey::CachedP50.spec_next().spec_next().spec_next() == SortKey::Name,
        k.spec_next().spec_next().spec_next().spec_next() == k,
        k.spec_next() != k,
        k.spec_next().spec_next() != k,
        k.spec_next().spec_next().spec_next() != k,
{
}

/// The median of a class in microseconds, of which 64 bits count; the highest where there is no
/// answer.
pub open spec fn p50_key(b: Seq<StatsView>) -> int {
    if class_rtts(b).len() == 0 {
        u64::MAX as int
    } else {
        (percentile_of(nanos_of(class_rtts(b)), 50) / 1000) as int % 0x1_0000_0000_0000_0000
    }
}

/// The reliability in billionths, with the sign turned so that the highest comes first; an
/// endpoint without an answer comes last.
pub open spec fn reliability_key(v: EndpointView) -> int {
    match combined(v.cached, v.uncached) {
        Some(d) => {
            let n = d.spec_times_floor(1_000_000_000);
            if n > i64::MAX {
                -i64::MAX
            } else {
                -(n as int)
            }
        },
        None => 1_000_000_000,
    }
}

/// The keys by which the endpoints are sorted.
pub open spec fn sort_keys(v: Seq<EndpointView>, k: SortKey) -> Keys {
    match k {
        SortKey::Name => Keys::Texts(v.map_values(|e: EndpointView| e.name)),
        SortKey::CachedP50 => Keys::Numbers(v.map_values(|e: EndpointView| p50_key(e.cached))),
        SortKey::UncachedP50 => Keys::Numbers(v.map_values(|e: EndpointView| p50_key(e.uncached))),
        SortKey::Reliability => Keys::Numbers(v.map_values(|e: EndpointView| reliability_key(e))),
    }
}

fn key_p50(s: &Option<Summary>, b: Ghost<Seq<StatsView>>) -> (r: i128)
    requires
        class_summary(*s, b@),
    ensures
        r == p50_key(b@),
{
    match s {
        Some(s) => (s.p50.as_micros() % 0x1_0000_0000_0000_0000) as i128,
        None => 0xffff_ffff_ffff_ffff,
    }
}

fn key_reliability(e: &EndpointState) -> (r: i128)
    requires
        e@.fits(),
    ensures
        r == reliability_key(e@),
{
    match e.combined_reliability() {
        Some(d) => {
            let n: u128 = d.times_floor(1_000_000_000);
            if n > 0x7fff_ffff_ffff_ffff {
                -0x7fff_ffff_ffff_ffff
            } else {
                -(n as i128)
            }
        },
        None => 1_000_000_000,
    }
}

/// The number by which an endpoint is sorted, where it is not sorted by name.
pub open spec fn number_key(e: EndpointView, k: SortKey) -> int {
    match k {
        SortKey::Name => 0,
        SortKey::CachedP50 => p50_key(e.cached),
        SortKey::UncachedP50 => p50_key(e.uncached),
        SortKey::Reliability => reliability_key(e),
    }
}

fn numbers_column(endpoints: &Vec<EndpointState>, k: SortKey) -> (r: Vec<i128>)
    requires
        all_fit(all_views(endpoints@)),
    ensures
        r@.map_values(|n: i128| n as int) == all_views(endpoints@).map_values(|e: EndpointView| number_key(e, k)),
{
    let ghost v = all_views(endpoints@);
    let n: usize = endpoints.len();
    let mut r: Vec<i128> = Vec::new();
    let mut i: usize = 0;
    while i < n
        invariant
            i <= n == endpoints.len(),
            v == all_views(endpoints@),
            all_fit(v),
            r@.len() == i,
            forall|j: int| 0 <= j < i ==> #[trigger] r@[j] == number_key(v[j], k),
        decreases n - i,
    {
        let e = &endpoints[i];
        assert(v[i as int] == e@);
        assert(v[i as int].fits());
        let key: i128 = match k {
            SortKey::Name => 0,
            SortKey::CachedP50 => key_p50(&e.cached_summary(), Ghost(e@.cached)),
            SortKey::UncachedP50 => key_p50(&e.uncached_summary(), Ghost(e@.uncached)),
            SortKey::Reliability => key_reliability(e),
        };
        r.push(key);
        i = i + 1;
    }
    assert(r@.map_values(|n: i128| n as int) =~= v.map_values(|e: EndpointView| number_key(e, k)));
    r
}

/// The endpoints in the order in which they are shown.
pub fn sorted_indices(endpoints: &Vec<EndpointState>, k: SortKey) -> (r: Vec<usize>)
    requires
        all_fit(all_views(endpoints@)),
    ensures
        sort_keys(all_views(endpoints@), k).sorts(r@),
{
    let ghost v = all_views(endpoints@);
    let n: usize = endpoints.len();
    match k {
        SortKey::Name => {
            let mut names: Vec<String> = Vec::new();
            let mut i: usize = 0;
            while i < n
                invariant
                    i <= n == endpoints.len(),
                    v == all_views(endpoints@),
                    names@.len() == i,
                    forall|j: int| 0 <= j < i ==> (#[trigger] names@[j])@ == v[j].name,
                decreases n - i,
            {
                names.push(endpoints[i].name.clone());
                i = i + 1;
            }
            let column = Column::Texts(names);
            assert(texts(names@) =~= v.map_values(|e: EndpointView| e.name));
            column.sort_order()
        },
        _ => {
            let numbers = numbers_column(endpoints, k);
            let column = Column::Numbers(numbers);
            proof {
                let all = v.map_values(|e: EndpointView| number_key(e, k));
                assert(k == SortKey::CachedP50 ==> all =~= v.map_values(|e: EndpointView| p50_key(e.cached)));
                assert(k == SortKey::UncachedP50 ==> all =~= v.map_values(|e: EndpointView| p50_key(e.uncached)));
                assert(k == SortKey::Reliability ==> all =~= v.map_values(|e: EndpointView| reliability_key(e)));
            }
            column.sort_order()
        },
    }
}

/// Rows sort fastest first: sorted by a class, an endpoint stands before another only if its
/// median is no higher, where no answer counts as the highest.
pub proof fn law_rows_sort_fastest_first(v: Seq<EndpointView>, k: SortKey, order: Seq<usize>, a: int, b: int)
    requires
        sort_keys(v, k).sorts(order),
        0 <= a < b < order.len(),
        k == SortKey::CachedP50 || k == SortKey::UncachedP50,
    ensures
        k == SortKey::CachedP50 ==> p50_key(v[order[a] as int].cached) <= p50_key(v[order[b] as int].cached),
        k == SortKey::UncachedP50 ==> p50_key(v[order[a] as int].uncached) <= p50_key(v[order[b] as int].uncached),
{
    assert(sort_keys(v, k).before(order[a] as int, order[b] as int));
}

/// Sorted by a class, the endpoint with the lower median of its round trips stands first, where the
/// medians differ in whole microseconds below `2^64`; and an endpoint without an answer stands behind
/// every one with such a median.
pub proof fn law_rows_sort_by_median(
    v: Seq<EndpointView>,
    k: SortKey,
    class: Class,
    order: Seq<usize>,
    a: int,
    b: int,
)
    requires
        sort_keys(v, k).sorts(order),
        0 <= a < b < order.len(),
        k == SortKey::CachedP50 && class == Class::Cached || k == SortKey::UncachedP50 && class == Class::Uncached,
    ensures
        ({
            let x = class_rtts(v[order[a] as int].bucket(class));
            let y = class_rtts(v[order[b] as int].bucket(class));
            let p = percentile_of(nanos_of(x), 50) / 1000;
            let q = percentile_of(nanos_of(y), 50) / 1000;
            &&& x.len() > 0 && y.len() > 0 && p <= u64::MAX && q <= u64::MAX ==> p <= q
            &&& x.len() == 0 && y.len() > 0 && q <= u64::MAX ==> q == u64::MAX
            &&& x.len() > 0 && y.len() > 0 && p <= u64::MAX && q <= u64::MAX && p == q ==> order[a] < order[b]
        }),
{
    assert(sort_keys(v, k).before(order[a] as int, order[b] as int));
}

/// Sorted by a class, an endpoint all of whose round trips in it are faster than all of those of
/// another, by a microsecond or more, stands before that one.
pub proof fn law_faster_endpoints_come_first(
    v: Seq<EndpointView>,
    k: SortKey,
    class: Class,
    order: Seq<usize>,
    a: int,
    b: int,
    limit: nat,
)
    requires
        sort_keys(v, k).sorts(order),
        0 <= a < order.len(),
        0 <= b < order.len(),
        k == SortKey::CachedP50 && class == Class::Cached || k == SortKey::UncachedP50 && class == Class::Uncached,
        class_rtts(v[order[a] as int].bucket(class)).len() > 0,
        class_rtts(v[order[b] as int].bucket(class)).len() > 0,
        forall|i: int|
            0 <= i < class_rtts(v[order[a] as int].bucket(class)).len() ==> (#[trigger] class_rtts(
                v[order[a] as int].bucket(class),
            )[i])@ < limit,
        forall|i: int|
            0 <= i < class_rtts(v[order[b] as int].bucket(class)).len() ==> limit + 1000 <= (#[trigger] class_rtts(
                v[order[b] as int].bucket(class),
            )[i])@ < 1000 * u64::MAX,
    ensures
        a < b,
{
    let x = class_rtts(v[order[a] as int].bucket(class));
    let y = class_rtts(v[order[b] as int].bucket(class));
    lemma_percentile_of_some(nanos_of(x));
    lemma_percentile_of_some(nanos_of(y));
    let i = choose|i: int| 0 <= i < nanos_of(x).len() && nanos_of(x)[i] == percentile_of(nanos_of(x), 50);
    let j = choose|j: int| 0 <= j < nanos_of(y).len() && nanos_of(y)[j] == percentile_of(nanos_of(y), 50);
    assert(x[i]@ < limit);
    assert(y[j]@ >= limit + 1000);
    if a == b {
        assert(x[0]@ < limit);
        assert(y[0]@ >= limit + 1000);
    } else if b < a {
        law_rows_sort_by_median(v, k, class, order, b, a);
    }
}

proof fn lemma_percentile_of_some(s: Seq<nat>)
    requires
        s.len() > 0,
    ensures
        exists|i: int| 0 <= i < s.len() && s[i] == percentile_of(s, 50),
{
    law_percentile_is_nearest_rank(s, 50);
    crate::order::lemma_ascending(s);
    let v = crate::order::ascending(s);
    s.to_multiset_ensures();
    v.to_multiset_ensures();
    assert(v.contains(percentile_of(s, 50)));
    assert(v.to_multiset().count(percentile_of(s, 50)) > 0);
    assert(s.contains(percentile_of(s, 50)));
}

/// Sorted by name, the endpoints stand in the order of their names, and of two with the same name the
/// one that was announced first.
pub proof fn law_rows_sort_by_name(v: Seq<EndpointView>, order: Seq<usize>, a: int, b: int)
    requires
        sort_keys(v, SortKey::Name).sorts(order),
        0 <= a < b < order.len(),
    ensures
        ({
            let x = v[order[a] as int].name;
            let y = v[order[b] as int].name;
            &&& x == y && order[a] < order[b] || exists|k: int|
                0 <= k <= x.len() && k < y.len() && #[trigger] x.take(k) == y.take(k) && (k == x.len() || x[k] < y[k])
        }),
{
    let c = sort_keys(v, SortKey::Name);
    let x = v[order[a] as int].name;
    let y = v[order[b] as int].name;
    assert(c.before(order[a] as int, order[b] as int));
    law_text_order(x, y);
    crate::order::lemma_text_total(x, y);
}

/// The answers of an endpoint, and the probes of the classes that had one.
spec fn answered_and_asked(e: EndpointView) -> (nat, nat) {
    let c = class_rtts(e.cached).len();
    let u = class_rtts(e.uncached).len();
    (
        c + u,
        (if c > 0 {
            bucket_count(e.cached)
        } else {
            0
        }) + (if u > 0 {
            bucket_count(e.uncached)
        } else {
            0
        }),
    )
}

/// Sorted by reliability, no endpoint stands before another whose share of answered probes, over the
/// classes that had an answer, is higher by three billionths or more; and an endpoint without an
/// answer stands behind all others.
pub proof fn law_rows_sort_by_reliability(v: Seq<EndpointView>, order: Seq<usize>, a: int, b: int)
    requires
        sort_keys(v, SortKey::Reliability).sorts(order),
        0 <= a < b < order.len(),
        bucket_count(v[order[a] as int].cached) + bucket_count(v[order[a] as int].uncached) < 0x20_0000_0000_0000,
        bucket_count(v[order[b] as int].cached) + bucket_count(v[order[b] as int].uncached) < 0x20_0000_0000_0000,
    ensures
        ({
            let first = v[order[a] as int];
            let later = v[order[b] as int];
            let x = class_rtts(first.cached).len() + class_rtts(first.uncached).len();
            let y = class_rtts(later.cached).len() + class_rtts(later.uncached).len();
            let m = (if class_rtts(first.cached).len() > 0 {
                bucket_count(first.cached)
            } else {
                0
            }) + (if class_rtts(first.uncached).len() > 0 {
                bucket_count(first.uncached)
            } else {
                0
            });
            let n = (if class_rtts(later.cached).len() > 0 {
                bucket_count(later.cached)
            } else {
                0
            }) + (if class_rtts(later.uncached).len() > 0 {
                bucket_count(later.uncached)
            } else {
                0
            });
            &&& x == 0 ==> y == 0
            &&& x > 0 && y > 0 ==> 1_000_000_000 * (y * m) < 1_000_000_000 * (x * n) + 3 * (m * n)
        }),
{
    let first = v[order[a] as int];
    let later = v[order[b] as int];
    let c = sort_keys(v, SortKey::Reliability);
    assert(c.before(order[a] as int, order[b] as int));
    lemma_pow2_127();
    lemma_bucket_bounds(first.cached);
    lemma_bucket_bounds(first.uncached);
    lemma_bucket_bounds(later.cached);
    lemma_bucket_bounds(later.uncached);
    let (x, m) = answered_and_asked(first);
    let (y, n) = answered_and_asked(later);
    lemma_reliability_key(first);
    lemma_reliability_key(later);
    if x > 0 && y > 0 {
        let i = -reliability_key(first);
        let j = -reliability_key(later);
        assert(1_000_000_000 * (y * m) < 1_000_000_000 * (x * n) + 3 * (m * n)) by (nonlinear_arith)
            requires
                j <= i,
                1_000_000_000 * y < (j + 2) * n,
                i * m < 1_000_000_000 * x + m,
                m > 0,
                n > 0,
        {
            assert((1_000_000_000 * y) * m < ((j + 2) * n) * m);
            assert(((j + 2) * n) * m <= ((i + 2) * n) * m);
            assert(((i + 2) * n) * m == n * (i * m) + 2 * (m * n));
            assert(n * (i * m) < n * (1_000_000_000 * x + m));
            assert(n * (1_000_000_000 * x + m) == 1_000_000_000 * (x * n) + m * n);
            assert((1_000_000_000 * y) * m == 1_000_000_000 * (y * m));
        }
    }
}

proof fn lemma_reliability_key(e: EndpointView)
    requires
        bucket_count(e.cached) + bucket_count(e.uncached) < 0x20_0000_0000_0000,
    ensures
        ({
            let (x, m) = answered_and_asked(e);
            let k = -reliability_key(e);
            &&& x == 0 ==> k == -1_000_000_000
            &&& x > 0 ==> m > 0 && 0 <= k <= 1_000_000_000 && k * m < 1_000_000_000 * x + m && 1_000_000_000 * x < (k
                + 2) * m
        }),
{
    lemma_pow2_127();
    lemma_bucket_bounds(e.cached);
    lemma_bucket_bounds(e.uncached);
    let (x, m) = answered_and_asked(e);
    if x > 0 {
        lemma_billionths(x, m);
    }
}

/// A failed probe adds one to the failures of its kind and to no other, and nothing to the round
/// trips; an answered one adds its round trip, and no failure.
pub proof fn law_results_are_counted_by_kind(s: StatsView, d: Duration)
    requires
        s.count() < usize::MAX,
    ensures
        ({
            let t = s.with(ProbeResult::Fail(FailKind::Timeout));
            let n = s.with(ProbeResult::Fail(FailKind::Network));
            let p = s.with(ProbeResult::Fail(FailKind::Protocol));
            let a = s.with(ProbeResult::Answered(d));
            &&& t.rtts == s.rtts && n.rtts == s.rtts && p.rtts == s.rtts
            &&& t.fails.timeout == s.fails.timeout + 1 && t.fails.network == s.fails.network && t.fails.protocol
                == s.fails.protocol
            &&& n.fails.timeout == s.fails.timeout && n.fails.network == s.fails.network + 1 && n.fails.protocol
                == s.fails.protocol
            &&& p.fails.timeout == s.fails.timeout && p.fails.network == s.fails.network && p.fails.protocol
                == s.fails.protocol + 1
            &&& a.fails == s.fails && a.rtts.len() == s.rtts.len() + 1 && a.rtts.last() == d && a.rtts.drop_last()
                == s.rtts
        }),
{
    assert(s.rtts.push(d).drop_last() =~= s.rtts);
}

/// A probe goes to the class and the domain it was made for: it adds to the results of that domain in
/// that class alone, and neither renames the endpoint nor finishes it.
pub proof fn law_probes_go_where_they_belong(v: EndpointView, class: Class, idx: int, result: ProbeResult, i: int)
    requires
        0 <= idx < v.bucket(class).len(),
        0 <= i,
    ensures
        ({
            let after = v.with(class, idx, result);
            &&& class == Class::Cached ==> after.cached[idx] == v.cached[idx].with(result)
            &&& class == Class::Uncached ==> after.uncached[idx] == v.uncached[idx].with(result)
            &&& i < v.cached.len() && (class == Class::Uncached || i != idx) ==> after.cached[i] == v.cached[i]
            &&& i < v.uncached.len() && (class == Class::Cached || i != idx) ==> after.uncached[i] == v.uncached[i]
            &&& after.cached.len() == v.cached.len() && after.uncached.len() == v.uncached.len()
            &&& after.name == v.name && after.provider == v.provider && after.addr_display == v.addr_display
            &&& after.total_per_class == v.total_per_class && after.done == v.done && after.transport_kind
                == v.transport_kind
        }),
{
}

/// The failures of an endpoint are those of all its domains in both classes: one more failure of a
/// kind anywhere is one more of that kind in all.
pub proof fn law_failures_add_up(v: EndpointView, class: Class, idx: int, d: Duration)
    requires
        v.count() < usize::MAX,
        0 <= idx < v.bucket(class).len(),
    ensures
        ({
            let t = v.with(class, idx, ProbeResult::Fail(FailKind::Timeout)).fails();
            let n = v.with(class, idx, ProbeResult::Fail(FailKind::Network)).fails();
            let p = v.with(class, idx, ProbeResult::Fail(FailKind::Protocol)).fails();
            let f = v.fails();
            &&& t.timeout == f.timeout + 1 && t.network == f.network && t.protocol == f.protocol
            &&& n.timeout == f.timeout && n.network == f.network + 1 && n.protocol == f.protocol
            &&& p.timeout == f.timeout && p.network == f.network && p.protocol == f.protocol + 1
            &&& v.with(class, idx, ProbeResult::Answered(d)).fails() == f
        }),
{
    let b = v.bucket(class);
    lemma_bucket_bounds(v.cached);
    lemma_bucket_bounds(v.uncached);
    lemma_class_fails_with(b, idx, ProbeResult::Fail(FailKind::Timeout), FailKind::Timeout);
    lemma_class_fails_with(b, idx, ProbeResult::Fail(FailKind::Timeout), FailKind::Network);
    lemma_class_fails_with(b, idx, ProbeResult::Fail(FailKind::Timeout), FailKind::Protocol);
    lemma_class_fails_with(b, idx, ProbeResult::Fail(FailKind::Network), FailKind::Timeout);
    lemma_class_fails_with(b, idx, ProbeResult::Fail(FailKind::Network), FailKind::Network);
    lemma_class_fails_with(b, idx, ProbeResult::Fail(FailKind::Network), FailKind::Protocol);
    lemma_class_fails_with(b, idx, ProbeResult::Fail(FailKind::Protocol), FailKind::Timeout);
    lemma_class_fails_with(b, idx, ProbeResult::Fail(FailKind::Protocol), FailKind::Network);
    lemma_class_fails_with(b, idx, ProbeResult::Fail(FailKind::Protocol), FailKind::Protocol);
    lemma_class_fails_with(b, idx, ProbeResult::Answered(d), FailKind::Timeout);
    lemma_class_fails_with(b, idx, ProbeResult::Answered(d), FailKind::Network);
    lemma_class_fails_with(b, idx, ProbeResult::Answered(d), FailKind::Protocol);
}

proof fn lemma_class_fails_with(b: Seq<StatsView>, idx: int, result: ProbeResult, k: FailKind)
    requires
        0 <= idx < b.len(),
        bucket_count(b) < usize::MAX,
    ensures
        class_fails(bucket_with(b, idx, result), k) == class_fails(b, k) + (if result == ProbeResult::Fail(k) {
            1nat
        } else {
            0nat
        }),
    decreases b.len(),
{
    let after = bucket_with(b, idx, result);
    lemma_bucket_with(b, idx, result);
    if idx == b.len() - 1 {
        assert(after.drop_last() =~= b.drop_last());
        assert(after.last() == b.last().with(result));
    } else {
        lemma_class_fails_with(b.drop_last(), idx, result, k);
        assert(after.drop_last() =~= bucket_with(b.drop_last(), idx, result));
        assert(after.last() == b.last());
    }
}

/// An announcement gives the endpoint with its id the names, the kind, the address and the number of
/// queries that it carries, and leaves its results; a `Done` finishes the endpoint with its id, and
/// nothing else does.
pub proof fn law_events_do_what_they_say(v: Seq<EndpointView>, ev: BenchEvent, domains: nat, i: int)
    requires
        0 <= i < applied(v, ev, domains).len(),
    ensures
        ({
            let after = applied(v, ev, domains)[i];
            &&& ev matches BenchEvent::Start {
                id,
                resolver,
                provider,
                transport_kind,
                addr_display,
                total_per_class,
            } ==> id == i ==> {
                &&& after.name == resolver@ && after.provider == provider@ && after.addr_display == addr_display@
                &&& after.transport_kind == transport_kind && after.total_per_class == total_per_class
                &&& i < v.len() ==> after.cached == v[i].cached && after.uncached == v[i].uncached && after.done == v[i].done
                &&& i >= v.len() ==> after.count() == 0 && !after.done && after.cached.len() == domains
                    && after.uncached.len() == domains
            }
            &&& i < v.len() && !(ev matches BenchEvent::Done { id } && id == i) ==> after.done == v[i].done
            &&& (ev matches BenchEvent::Done { id } && id == i) ==> after.done && after.cached == v[i].cached
                && after.uncached == v[i].uncached
            &&& (ev matches BenchEvent::Probe { id, class, domain_idx, result } && id == i) ==> after == v[i].with(
                ev->class,
                ev->domain_idx as int,
                ev->result,
            )
        }),
{
    lemma_empty_bucket(domains);
}

/// The probes due of an endpoint are its queries per class, once for each enabled class.
pub proof fn law_due_counts_enabled_classes(v: EndpointView)
    ensures
        v.due(false, false) == 0,
        v.due(true, false) == v.total_per_class,
        v.due(false, true) == v.total_per_class,
        v.due(true, true) == v.due(true, false) + v.due(false, true),
{
    let n = v.total_per_class as nat;
    assert(n * 0nat == 0 && n * 1nat == n && n * 2nat == n + n) by (nonlinear_arith);
}

/// The summary of a class goes over all of its domains: every round trip of every domain counts, and
/// every probe, and it makes no difference over how many domains they are spread.
pub proof fn law_class_counts_all_domains(b: Seq<StatsView>, c: Seq<StatsView>)
    ensures
        bucket_count(b + c) == bucket_count(b) + bucket_count(c),
        class_rtts(b + c) == class_rtts(b) + class_rtts(c),
        b.len() == 1 ==> bucket_count(b) == b[0].rtts.len() + b[0].fails.timeout + b[0].fails.network + b[0].fails.protocol,
        b.len() == 1 ==> class_rtts(b) == b[0].rtts,
        forall|k: FailKind| class_fails(b + c, k) == #[trigger] class_fails(b, k) + class_fails(c, k),
        b.len() == 1 ==> class_fails(b, FailKind::Timeout) == b[0].fails.timeout && class_fails(b, FailKind::Network)
            == b[0].fails.network && class_fails(b, FailKind::Protocol) == b[0].fails.protocol,
    decreases c.len(),
{
    if b.len() == 1 {
        let none = b.drop_last();
        assert(none.len() == 0);
        assert(b.last() == b[0]);
        assert(bucket_count(none) == 0);
        assert(class_rtts(none) + b[0].rtts =~= b[0].rtts);
        assert(class_fails(none, FailKind::Timeout) == 0 && class_fails(none, FailKind::Network) == 0 && class_fails(
            none,
            FailKind::Protocol,
        ) == 0);
    }
    if c.len() == 0 {
        assert(b + c =~= b);
        assert(class_rtts(b) + class_rtts(c) =~= class_rtts(b));
    } else {
        law_class_counts_all_domains(b, c.drop_last());
        assert((b + c).drop_last() =~= b + c.drop_last());
        assert((b + c).last() == c.last());
        assert(class_rtts(b + c) =~= class_rtts(b) + class_rtts(c));
        assert forall|k: FailKind| class_fails(b + c, k) == #[trigger] class_fails(b, k) + class_fails(c, k) by {
            assert(class_fails(b + c.drop_last(), k) == class_fails(b, k) + class_fails(c.drop_last(), k));
        }
    }
}

/// The combined reliability does not tell the classes apart, is missing exactly where nothing was
/// answered, and is the reliability of the one class where only that had an answer.
pub proof fn law_combined_reliability(c: Seq<StatsView>, u: Seq<StatsView>)
    ensures
        combined(c, u) == combined(u, c),
        combined(c, u) is None <==> class_rtts(c).len() + class_rtts(u).len() == 0,
        class_rtts(c).len() > 0 && class_rtts(u).len() == 0 ==> combined(c, u) == Some(
            reliability_of(class_rtts(c).len(), bucket_count(c)),
        ),
        class_rtts(c).len() > 0 && class_rtts(u).len() > 0 ==> combined(c, u) == Some(
            reliability_of(class_rtts(c + u).len(), bucket_count(c + u)),
        ),
{
    law_class_counts_all_domains(c, u);
}

/// A report carries the names of its endpoint, and for each class the figures of that class: a summary
/// exactly where a probe of the class was answered, over every answer, out of every probe, failed ones
/// included.
pub proof fn law_reports_hold_results(r: EndpointReport, v: EndpointView)
    requires
        reports(r, v),
    ensures
        r.resolver@ == v.name && r.provider@ == v.provider && r.addr_display@ == v.addr_display,
        r.transport_kind == v.transport_kind,
        r.cached is Some <==> class_rtts(v.cached).len() > 0,
        r.uncached is Some <==> class_rtts(v.uncached).len() > 0,
        r.cached matches Some(x) ==> {
            let s = nanos_of(class_rtts(v.cached));
            &&& x.successes == s.len() && x.total == s.len() + class_fails(v.cached, FailKind::Timeout) + class_fails(
                v.cached,
                FailKind::Network,
            ) + class_fails(v.cached, FailKind::Protocol)
            &&& 100 * at_most(s, x.p50@) >= 50 * s.len() && 100 * below(s, x.p50@) < 50 * s.len() && s.contains(x.p50@)
        },
        r.uncached matches Some(x) ==> {
            let s = nanos_of(class_rtts(v.uncached));
            &&& x.successes == s.len() && x.total == s.len() + class_fails(v.uncached, FailKind::Timeout) + class_fails(
                v.uncached,
                FailKind::Network,
            ) + class_fails(v.uncached, FailKind::Protocol)
            &&& 100 * at_most(s, x.p50@) >= 50 * s.len() && 100 * below(s, x.p50@) < 50 * s.len() && s.contains(x.p50@)
        },
{
    lemma_bucket_bounds(v.cached);
    lemma_bucket_bounds(v.uncached);
    if let Some(x) = r.cached {
        law_summary_figures(x, nanos_of(class_rtts(v.cached)), bucket_count(v.cached));
    }
    if let Some(x) = r.uncached {
        law_summary_figures(x, nanos_of(class_rtts(v.uncached)), bucket_count(v.uncached));
    }
}

/// An endpoint with a lower id that has not been announced when a later one is has no name and no
/// results yet, and is not done.
pub proof fn law_unannounced_endpoints_are_blank(v: Seq<EndpointView>, ev: BenchEvent, domains: nat, i: int)
    requires
        ev is Start,
        v.len() <= i < ev->Start_id,
    ensures
        ({
            let e = applied(v, ev, domains)[i];
            &&& applied(v, ev, domains).len() == ev->Start_id + 1
            &&& e.name.len() == 0 && e.provider.len() == 0 && e.addr_display == "0.0.0.0"@ && e.transport_kind
                == TransportKind::Udp
            &&& e.count() == 0 && e.total_per_class == 0 && !e.done
            &&& e.cached.len() == domains && e.uncached.len() == domains
        }),
{
    lemma_empty_bucket(domains);
}

} // verus!
