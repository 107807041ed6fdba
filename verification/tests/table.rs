use dnsresolvr::bench::EndpointReport;
use dnsresolvr::duration::Duration;
use dnsresolvr::probe::{ProbeError, ProbeOutcome};
use dnsresolvr::resolver::{IpAddr, Resolver};
use dnsresolvr::stats::summarize;
use dnsresolvr::table::{
    bench_header, bench_row, bench_rule, classes, list_footer, list_header, list_line, probe_line, probe_order, probe_row,
    stack, Cells,
};
use dnsresolvr::transport::Transport;

fn cells() -> Cells {
    Cells { p50: "10.5".to_string(), p95: "20.0".to_string(), p99: "30.1".to_string(), rel: "100%".to_string() }
}

fn answered(nanos: u64) -> Result<ProbeOutcome, ProbeError> {
    Ok(ProbeOutcome { rtt: Duration::from_nanos(nanos), rcode: 0, answer_count: 1, first_answer: None })
}

#[test]
fn the_header_names_the_classes() {
    assert_eq!(
        bench_header(true, true),
        format!(
            "{:<22} {:<16} {:>7} {:>7} {:>7} {:>5} {:>7} {:>7} {:>7} {:>5} ",
            "resolver", "addr", "c_p50", "c_p95", "c_p99", "c_rel", "u_p50", "u_p95", "u_p99", "u_rel"
        )
    );
    assert_eq!(
        bench_header(false, true),
        format!("{:<22} {:<16} {:>7} {:>7} {:>7} {:>5} ", "resolver", "addr", "u_p50", "u_p95", "u_p99", "u_rel")
    );
    assert_eq!(bench_rule(true, true), "-".repeat(102));
    assert_eq!(bench_rule(true, false), "-".repeat(71));
    assert_eq!(bench_rule(false, false), "-".repeat(40));
}

#[test]
fn rows_hold_figures_or_dashes() {
    let t = Transport::Udp { addr: IpAddr { v4: true, text: "1.1.1.1".to_string() } };
    let s = summarize(vec![Duration::from_millis(2)], 1);
    let e = EndpointReport::new("A name of more than 22 letters".to_string(), "p".to_string(), &t, s, None);
    assert_eq!(
        bench_row(&e, &Some(cells()), &Some(cells())),
        format!(
            "{:<22} {:<16} {:>6}ms {:>6}ms {:>6}ms {:>5} {:>8} {:>8} {:>8} {:>5} ",
            "A name of more than 2..", "1.1.1.1", "10.5", "20.0", "30.1", "100%", "-", "-", "-", "-"
        )
    );
    assert_eq!(bench_row(&e, &None, &None), format!("{:<22} {:<16} ", "A name of more than 2..", "1.1.1.1"));
}

#[test]
fn classes_and_families_have_words() {
    assert_eq!(classes(true, true), "cached + uncached");
    assert_eq!(classes(true, false), "cached only");
    assert_eq!(classes(false, true), "uncached only");
    assert_eq!(stack(true), "v4+v6");
    assert_eq!(stack(false), "v4");
}

#[test]
fn the_list_shows_addresses() {
    let ip = |s: &str| IpAddr { v4: true, text: s.to_string() };
    let r = Resolver {
        name: "Quad9".to_string(),
        provider: "Quad9".to_string(),
        ipv4: vec![ip("9.9.9.9"), ip("149.112.112.112")],
        ipv6: vec![ip("2620:fe::fe")],
        dot_hostname: None,
        doh_url: None,
    };
    assert_eq!(list_header(), format!("{:<24} {:<14} {:<32} {}", "name", "provider", "ipv4", "ipv6"));
    assert_eq!(
        list_line(&r),
        format!("{:<24} {:<14} {:<32} {}", "Quad9", "Quad9", "9.9.9.9,149.112.112.112", "2620:fe::fe")
    );
    assert_eq!(list_footer(20), "20 resolvers");
}

#[test]
fn probes_are_shown_fastest_first_and_failures_last() {
    let outcomes = vec![
        Err(ProbeError::Timeout(Duration::zero())),
        answered(5_000_000),
        answered(1_000_999),
        Err(ProbeError::Io("x".to_string())),
        answered(1_000_000),
    ];
    assert_eq!(probe_order(&outcomes), vec![2, 4, 1, 0, 3]);
}

#[test]
fn a_probe_shows_its_outcome() {
    let seen = |rcode: u16, first_answer: Option<String>| {
        Ok(ProbeOutcome { rtt: Duration::from_nanos(12_300_000), rcode, answer_count: 1, first_answer })
    };
    assert_eq!(
        probe_row("Cloudflare", "1.1.1.1", &seen(0, Some("a. 60 IN A 1.2.3.4".to_string())), "12.3", ""),
        probe_line("Cloudflare", "1.1.1.1", "12.3ms", "NoError", "a. 60 IN A 1.2.3.4")
    );
    assert_eq!(
        probe_row("Cloudflare", "1.1.1.1", &seen(3, None), "12.3", ""),
        probe_line("Cloudflare", "1.1.1.1", "12.3ms", "NXDomain", "")
    );
    assert_eq!(
        probe_row("Cloudflare", "1.1.1.1", &seen(2, None), "12.3", ""),
        probe_line("Cloudflare", "1.1.1.1", "12.3ms", "ServFail", "")
    );
    assert_eq!(
        probe_row("Cloudflare", "1.1.1.1", &seen(3000, None), "12.3", ""),
        probe_line("Cloudflare", "1.1.1.1", "12.3ms", "Unknown(3000)", "")
    );
    assert_eq!(
        probe_row("Cloudflare", "1.1.1.1", &Err(ProbeError::Io("x".to_string())), "12.3", "io: x"),
        probe_line("Cloudflare", "1.1.1.1", "—", "ERR", "io: x")
    );
}

#[test]
fn probe_lines_have_fixed_columns() {
    assert_eq!(
        probe_line("Cloudflare", "1.1.1.1", "12.3ms", "NoError", "a. 60 IN A 1.2.3.4"),
        format!("{:<24} {:<16} {:>8.1}ms  {:<8} {}", "Cloudflare", "1.1.1.1", 12.3, "NoError", "a. 60 IN A 1.2.3.4")
    );
    assert_eq!(
        probe_line("Cloudflare", "1.1.1.1", "—", "ERR", "timed out"),
        format!("{:<24} {:<16} {:>10}  {:<8} {}", "Cloudflare", "1.1.1.1", "—", "ERR", "timed out")
    );
}
