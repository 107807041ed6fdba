use dnsresolvr::resolver::{IpAddr, Resolver};
use dnsresolvr::transport::{Transport, TransportKind};

fn addr(text: &str) -> IpAddr {
    IpAddr { v4: !text.contains(':'), text: text.to_string() }
}

fn cloudflare() -> Resolver {
    Resolver {
        name: "Cloudflare".to_string(),
        provider: "Cloudflare".to_string(),
        ipv4: vec![addr("1.1.1.1"), addr("1.0.0.1")],
        ipv6: vec![addr("2606:4700:4700::1111")],
        dot_hostname: Some("cloudflare-dns.com".to_string()),
        doh_url: Some("https://cloudflare-dns.com/dns-query".to_string()),
    }
}

fn shown(v: &[Transport]) -> Vec<(TransportKind, String)> {
    v.iter().map(|t| (t.kind(), t.display_addr())).collect()
}

#[test]
fn the_primary_address_prefers_ipv4() {
    let mut r = cloudflare();
    assert_eq!(r.primary_addr().unwrap().text, "1.1.1.1");
    r.ipv4.clear();
    assert_eq!(r.primary_addr().unwrap().text, "2606:4700:4700::1111");
    r.ipv6.clear();
    assert!(r.primary_addr().is_none());
}

#[test]
fn all_addresses_come_ipv4_first() {
    let texts: Vec<String> = cloudflare().all_addrs().iter().map(|a| a.text.clone()).collect();
    assert_eq!(texts, vec!["1.1.1.1", "1.0.0.1", "2606:4700:4700::1111"]);
    let v4: Vec<bool> = cloudflare().all_addrs().iter().map(|a| a.v4).collect();
    assert_eq!(v4, vec![true, true, false]);
}

#[test]
fn endpoints_come_per_address_with_every_variant() {
    let r = cloudflare();
    let v4 = vec![
        (TransportKind::Udp, "1.1.1.1".to_string()),
        (TransportKind::Dot, "1.1.1.1 (cloudflare-dns.com)".to_string()),
        (TransportKind::Doh, "https://cloudflare-dns.com/dns-query".to_string()),
    ];
    assert_eq!(shown(&r.transports(false)), v4);
    let mut both = v4;
    both.push((TransportKind::Udp, "2606:4700:4700::1111".to_string()));
    both.push((TransportKind::Dot, "2606:4700:4700::1111 (cloudflare-dns.com)".to_string()));
    both.push((TransportKind::Doh, "https://cloudflare-dns.com/dns-query".to_string()));
    assert_eq!(shown(&r.transports(true)), both);
}

#[test]
fn endpoints_are_limited_to_what_is_offered() {
    let mut r = cloudflare();
    r.dot_hostname = None;
    r.doh_url = None;
    assert_eq!(shown(&r.transports(false)), vec![(TransportKind::Udp, "1.1.1.1".to_string())]);
    r.ipv4.clear();
    assert!(r.transports(false).is_empty());
    assert_eq!(r.transports(true).len(), 1);
}
