use dnsresolvr::config::{build_bench_config, configure, BenchArgs, ConfigError, Preset};
use dnsresolvr::domains::default_domains;
use dnsresolvr::duration::Duration;
use dnsresolvr::export::ExportFormat;

fn args() -> BenchArgs {
    BenchArgs {
        iterations: 5,
        preset: None,
        timeout_ms: 1500,
        spacing_ms: 25,
        no_cached: false,
        no_uncached: false,
        ipv6: false,
        add_domains: Vec::new(),
        domains_file: None,
        only_custom: false,
        export: None,
    }
}

fn unread() -> Result<String, String> {
    Ok(String::new())
}

#[test]
fn presets_have_names_and_sizes() {
    assert_eq!(Preset::Quick.iterations(), 1);
    assert_eq!(Preset::Standard.iterations(), 5);
    assert_eq!(Preset::Thorough.iterations(), 20);
    assert_eq!(Preset::Exhaustive.iterations(), 50);
    for (name, p) in [
        ("quick", Preset::Quick), ("Q", Preset::Quick), ("standard", Preset::Standard), ("std", Preset::Standard),
        ("s", Preset::Standard), ("THOROUGH", Preset::Thorough), ("t", Preset::Thorough),
        ("exhaustive", Preset::Exhaustive), ("e", Preset::Exhaustive), ("exh", Preset::Exhaustive),
    ] {
        assert_eq!(Preset::parse_name(name), Some(p));
    }
    assert_eq!(Preset::parse_name("fast"), None);
    assert_eq!(Preset::parse_name(""), None);
}

#[test]
fn plain_arguments_make_the_default_run() {
    let c = build_bench_config(&args(), &unread()).unwrap();
    assert_eq!(c.domains, default_domains());
    assert_eq!(c.iterations, 5);
    assert_eq!(c.timeout, Duration::from_millis(1500));
    assert_eq!(c.inter_query, Duration::from_millis(25));
    assert_eq!(c.inter_class_pause, Duration::from_millis(500));
    assert!(c.cached && c.uncached && !c.include_ipv6);
    assert!(c.transports.is_empty());
}

#[test]
fn a_preset_overrides_the_iterations() {
    let mut a = args();
    a.preset = Some(Preset::Thorough);
    a.ipv6 = true;
    a.no_cached = true;
    let c = build_bench_config(&a, &unread()).unwrap();
    assert_eq!(c.iterations, 20);
    assert!(c.include_ipv6 && !c.cached && c.uncached);
}

#[test]
fn domains_come_from_the_list_the_file_and_the_arguments() {
    let mut a = args();
    a.only_custom = true;
    a.domains_file = Some("list.txt".to_string());
    a.add_domains = vec!["X.org".to_string(), "a.com".to_string()];
    let c = build_bench_config(&a, &Ok("# mine\nA.com\n\nx.org\n".to_string())).unwrap();
    assert_eq!(c.domains, vec!["A.com", "x.org"]);
    a.only_custom = false;
    let c = build_bench_config(&a, &Ok("GITHUB.com\nnew.org".to_string())).unwrap();
    assert_eq!(c.domains.len(), 15);
    assert_eq!(c.domains[12..], ["new.org", "X.org", "a.com"]);
}

#[test]
fn a_file_that_is_not_named_is_not_used() {
    let c = build_bench_config(&args(), &Ok("new.org".to_string())).unwrap();
    assert_eq!(c.domains.len(), 12);
    assert!(build_bench_config(&args(), &Err("gone".to_string())).is_ok());
}

#[test]
fn a_run_needs_a_class() {
    let mut a = args();
    a.no_cached = true;
    a.no_uncached = true;
    a.domains_file = Some("x".to_string());
    let e = build_bench_config(&a, &Err("gone".to_string())).unwrap_err();
    assert!(matches!(e, ConfigError::NoClass));
    assert_eq!(e.message(), "both --no-cached and --no-uncached set — nothing to benchmark");
}

#[test]
fn a_run_needs_its_file() {
    let mut a = args();
    a.domains_file = Some("list.txt".to_string());
    a.export = Some("bad".to_string());
    match build_bench_config(&a, &Err("gone".to_string())) {
        Err(e) => {
            assert_eq!(e.message(), "reading list.txt");
            assert!(matches!(e, ConfigError::DomainsFile { error, .. } if error == "gone"));
        }
        Ok(_) => unreachable!(),
    }
}

#[test]
fn a_run_needs_a_domain() {
    let mut a = args();
    a.only_custom = true;
    a.export = Some("bad".to_string());
    let e = build_bench_config(&a, &unread()).unwrap_err();
    assert!(matches!(e, ConfigError::NoDomains));
    assert_eq!(e.message(), "no domains to test (use --add-domain or drop --only-custom)");
}

#[test]
fn an_export_needs_a_known_extension() {
    let mut a = args();
    a.export = Some("out.xml".to_string());
    let e = build_bench_config(&a, &unread()).unwrap_err();
    assert_eq!(e.message(), "--export path must end in .csv or .json (out.xml)");
    assert!(matches!(e, ConfigError::ExportPath(p) if p == "out.xml"));
    a.export = Some("out.json".to_string());
    assert!(build_bench_config(&a, &unread()).is_ok());
    a.export = Some("C:\\results\\out.csv".to_string());
    assert!(build_bench_config(&a, &unread()).is_ok());
    a.export = Some("C:\\results\\out".to_string());
    assert!(build_bench_config(&a, &unread()).is_err());
    assert!(configure(&a, &unread(), None).is_err());
    assert!(configure(&a, &unread(), Some(ExportFormat::Csv)).is_ok());
}
