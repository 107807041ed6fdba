use dnsresolvr::bench::{
    build_endpoints, classify, host, probe_event, rank, start_events, BenchConfig, BenchEvent, Class, ClassRun,
    EndpointReport, FailKind, Phase, ProbeResult, Tally,
};
use dnsresolvr::duration::Duration;
use dnsresolvr::pacing::Amplitude;
use dnsresolvr::probe::{ProbeError, ProbeOutcome};
use dnsresolvr::resolver::{IpAddr, Resolver};
use dnsresolvr::rng::{rng_next, shuffle};
use dnsresolvr::stats::{summarize, Summary};
use dnsresolvr::transport::{Transport, TransportKind};

fn resolver(name: &str, v4: &str) -> Resolver {
    Resolver {
        name: name.to_string(),
        provider: format!("{} Inc", name),
        ipv4: vec![IpAddr { v4: true, text: v4.to_string() }],
        ipv6: Vec::new(),
        dot_hostname: Some(format!("{}.example", name)),
        doh_url: Some(format!("https://{}.example/dns-query", name)),
    }
}

fn summary(ms: u64) -> Option<Summary> {
    summarize(vec![Duration::from_millis(ms)], 1)
}

fn report(name: &str, cached: Option<Summary>, uncached: Option<Summary>) -> EndpointReport {
    let t = Transport::Udp { addr: IpAddr { v4: true, text: "9.9.9.9".to_string() } };
    EndpointReport::new(name.to_string(), "p".to_string(), &t, cached, uncached)
}

#[test]
fn the_default_configuration_is_modest() {
    let c = BenchConfig::default();
    assert_eq!(c.domains.len(), 12);
    assert_eq!(c.iterations, 4);
    assert_eq!(c.timeout, Duration::from_millis(1500));
    assert!(c.cached && c.uncached && !c.include_ipv6);
    assert!(c.transports.is_empty());
    assert_eq!(c.inter_query, Duration::from_millis(40));
    assert_eq!(c.inter_class_pause, Duration::from_millis(500));
    assert_eq!(c.jitter_pct.units as f64 * 2f64.powi(-c.jitter_pct.shift), 0.30);
    assert_eq!(c.total_per_class(), 48);
}

#[test]
fn endpoints_are_filtered_by_kind() {
    let rs = vec![resolver("a", "1.1.1.1"), resolver("b", "2.2.2.2")];
    let mut cfg = BenchConfig::default();
    let all = build_endpoints(&rs, &cfg);
    assert_eq!(all.len(), 6);
    assert_eq!((all[0].0.as_str(), all[0].1.as_str()), ("a", "a Inc"));
    assert_eq!(all[3].0, "b");
    cfg.transports = vec![TransportKind::Doh, TransportKind::Udp];
    let some = build_endpoints(&rs, &cfg);
    let kinds: Vec<TransportKind> = some.iter().map(|e| e.2.kind()).collect();
    assert_eq!(kinds, vec![TransportKind::Udp, TransportKind::Doh, TransportKind::Udp, TransportKind::Doh]);
    assert!(build_endpoints(&[], &cfg).is_empty());
    let longer = build_endpoints(&[resolver("a", "1.1.1.1"), resolver("b", "2.2.2.2"), resolver("c", "3.3.3.3")], &cfg);
    assert_eq!(longer[..4].iter().map(|e| e.0.clone()).collect::<Vec<_>>(), some.iter().map(|e| e.0.clone()).collect::<Vec<_>>());
}

#[test]
fn endpoints_of_two_lists_follow_each_other() {
    let first = vec![resolver("a", "1.1.1.1"), resolver("b", "2.2.2.2")];
    let second = vec![resolver("c", "3.3.3.3")];
    let both: Vec<Resolver> = first.iter().chain(second.iter()).cloned().collect();
    let shown = |v: Vec<(String, String, Transport)>| {
        v.into_iter().map(|e| (e.0, e.1, e.2.kind(), e.2.display_addr())).collect::<Vec<_>>()
    };
    let mut cfg = BenchConfig::default();
    let all = shown(build_endpoints(&both, &cfg));
    for kinds in [vec![], vec![TransportKind::Dot], vec![TransportKind::Doh, TransportKind::Udp]] {
        cfg.transports = kinds.clone();
        let mut parts = shown(build_endpoints(&first, &cfg));
        parts.extend(shown(build_endpoints(&second, &cfg)));
        let got = shown(build_endpoints(&both, &cfg));
        assert_eq!(got, parts);
        let left: Vec<_> = all.iter().filter(|e| kinds.is_empty() || kinds.contains(&e.2)).cloned().collect();
        assert_eq!(got, left);
    }
}

#[test]
fn outcomes_fall_into_classes() {
    let ok = ProbeOutcome { rtt: Duration::from_millis(3), rcode: 0, answer_count: 0, first_answer: None };
    assert_eq!(classify(&Ok(ok)), ProbeResult::Answered(Duration::from_millis(3)));
    let fail = |e: ProbeError| classify(&Err(e));
    assert_eq!(fail(ProbeError::Timeout(Duration::zero())), ProbeResult::Fail(FailKind::Timeout));
    assert_eq!(fail(ProbeError::Io("x".to_string())), ProbeResult::Fail(FailKind::Network));
    assert_eq!(fail(ProbeError::BadName("x".to_string())), ProbeResult::Fail(FailKind::Protocol));
    assert_eq!(fail(ProbeError::Encode("x".to_string())), ProbeResult::Fail(FailKind::Protocol));
    assert_eq!(fail(ProbeError::Decode("x".to_string())), ProbeResult::Fail(FailKind::Protocol));
    assert_eq!(fail(ProbeError::IdMismatch { sent: 1, got: 2 }), ProbeResult::Fail(FailKind::Protocol));
    assert_eq!(ProbeResult::Answered(Duration::from_millis(3)).rtt(), Some(Duration::from_millis(3)));
    assert_eq!(ProbeResult::Fail(FailKind::Timeout).rtt(), None);
}

#[test]
fn uncached_names_stand_below_the_domain() {
    assert_eq!(host(Class::Cached, "example.com", 3, 4), "example.com");
    assert_eq!(host(Class::Uncached, "example.com", 255, 16), "bff10.example.com");
}

#[test]
fn phases_follow_the_classes() {
    let mut c = BenchConfig::default();
    let pause = Phase::Pause(Duration::from_millis(500));
    assert_eq!(c.phases(), vec![Phase::Run(Class::Cached), pause, Phase::Run(Class::Uncached)]);
    c.inter_class_pause = Duration::zero();
    assert_eq!(c.phases(), vec![Phase::Run(Class::Cached), Phase::Run(Class::Uncached)]);
    c.inter_class_pause = Duration::from_millis(1);
    c.cached = false;
    assert_eq!(c.phases(), vec![Phase::Run(Class::Uncached)]);
    c.uncached = false;
    assert!(c.phases().is_empty());
}

#[test]
fn events_announce_endpoints_and_carry_probes() {
    let cfg = BenchConfig::default();
    let endpoints = build_endpoints(&[resolver("a", "1.1.1.1")], &cfg);
    let events = start_events(&endpoints, 48);
    assert_eq!(events.len(), 3);
    match &events[1] {
        BenchEvent::Start { id, resolver, provider, transport_kind, addr_display, total_per_class } => {
            assert_eq!((*id, resolver.as_str(), provider.as_str()), (1, "a", "a Inc"));
            assert_eq!(*transport_kind, TransportKind::Dot);
            assert_eq!(addr_display, "1.1.1.1 (a.example)");
            assert_eq!(*total_per_class, 48);
        }
        other => panic!("{:?}", other),
    }
    match probe_event(2, Class::Uncached, 65_536 + 7, ProbeResult::Fail(FailKind::Network)) {
        BenchEvent::Probe { id, class, domain_idx, result } => {
            assert_eq!((id, class, domain_idx), (2, Class::Uncached, 7));
            assert_eq!(result, ProbeResult::Fail(FailKind::Network));
        }
        other => panic!("{:?}", other),
    }
}

#[test]
fn a_run_asks_every_domain_once_per_round() {
    let mut run = ClassRun::new(5, 3, 12345);
    let mut counts = vec![0; 5];
    let mut order: Vec<usize> = (0..5).collect();
    let mut rng = 12345u64;
    let none = Amplitude { units: 0, shift: 53 };
    for _ in 0..3 {
        shuffle(&mut order, &mut rng);
        for k in 0..5 {
            let d = run.next().unwrap();
            assert_eq!(d, order[k]);
            counts[d] += 1;
            assert_eq!(run.settle(ProbeResult::Fail(FailKind::Protocol), Duration::zero(), none), None);
        }
    }
    assert_eq!(run.next(), None);
    assert_eq!(run.next(), None);
    assert_eq!(counts, vec![3; 5]);
}

#[test]
fn a_run_without_domains_or_rounds_asks_nothing() {
    assert_eq!(ClassRun::new(0, 3, 1).next(), None);
    assert_eq!(ClassRun::new(3, 0, 1).next(), None);
}

#[test]
fn a_run_waits_longer_after_failures() {
    let mut run = ClassRun::new(2, 9, 7);
    let none = Amplitude { units: 0, shift: 53 };
    let spacing = Duration::from_millis(40);
    let mut wait = |r: ProbeResult| run.settle(r, spacing, none).unwrap();
    assert_eq!(wait(ProbeResult::Fail(FailKind::Protocol)), Duration::from_millis(40));
    assert_eq!(wait(ProbeResult::Fail(FailKind::Timeout)), Duration::from_millis(80));
    assert_eq!(wait(ProbeResult::Fail(FailKind::Network)), Duration::from_millis(160));
    assert_eq!(wait(ProbeResult::Fail(FailKind::Network)), Duration::from_millis(200));
    assert_eq!(wait(ProbeResult::Answered(spacing)), Duration::from_millis(180));
}

#[test]
fn a_run_jitters_its_waits() {
    let mut run = ClassRun::new(2, 9, 7);
    let pct = Amplitude { units: 5_404_319_552_844_595, shift: 54 };
    let mut state = run.rng;
    let got = run.settle(ProbeResult::Answered(Duration::zero()), Duration::from_millis(40), pct).unwrap();
    let r = rng_next(&mut state);
    let factor = 1.0 + ((r as f64 / u64::MAX as f64) * 2.0 - 1.0) * 0.30;
    assert_eq!(got.as_nanos(), (40_000_000f64 * factor) as u64 as u128);
    assert_eq!(run.rng, state);
}

#[test]
fn a_tally_counts_failures_too() {
    let mut t = Tally::new();
    t.record(ProbeResult::Answered(Duration::from_millis(2)));
    t.record(ProbeResult::Fail(FailKind::Timeout));
    t.record(ProbeResult::Answered(Duration::from_millis(4)));
    let s = t.summary().unwrap();
    assert_eq!((s.successes, s.total), (2, 3));
    assert_eq!(s.mean, Duration::from_millis(3));
    let mut t = Tally::new();
    t.record(ProbeResult::Fail(FailKind::Timeout));
    assert!(t.summary().is_none());
}

#[test]
fn scores_prefer_the_cached_class() {
    assert_eq!(report("x", summary(5), summary(3)).score(), Duration::from_millis(5));
    assert_eq!(report("x", None, summary(3)).score(), Duration::from_millis(3));
    assert_eq!(report("x", None, None).score(), Duration::max());
}

#[test]
fn ranking_is_fastest_first_and_stable() {
    let reports = vec![
        report("none", None, None),
        report("slow", summary(9), None),
        report("b", summary(5), None),
        report("fast", None, summary(1)),
        report("a", summary(5), summary(1)),
    ];
    let names: Vec<String> = rank(&reports).iter().map(|r| r.resolver.clone()).collect();
    assert_eq!(names, vec!["fast", "b", "a", "slow", "none"]);
}
