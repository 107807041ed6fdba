use dnsresolvr::bench::{BenchConfig, BenchEvent, Class, FailKind, ProbeResult};
use dnsresolvr::display::{
    class_line, domain_headings, domain_row, endpoint_line, error_line, gauge_label, help_lines, hue_for, progress_bar,
    table_headings, table_widths, Hue, Piece, Width,
};
use dnsresolvr::duration::Duration;
use dnsresolvr::export::Figures;
use dnsresolvr::session::{App, Color, Mode};
use dnsresolvr::stats::{summarize, Summary};
use dnsresolvr::table::Cells;
use dnsresolvr::transport::TransportKind;

fn t(ms: u64) -> Duration {
    Duration::from_millis(ms)
}

fn app() -> App {
    let mut cfg = BenchConfig::default();
    cfg.domains = vec!["a.com".to_string(), "b.com".to_string()];
    let mut a = App::new(Vec::new(), cfg, None, t(0));
    for ev in vec![
        BenchEvent::Start {
            id: 0,
            resolver: "One".to_string(),
            provider: "Prov".to_string(),
            transport_kind: TransportKind::Udp,
            addr_display: "1.1.1.1".to_string(),
            total_per_class: 2,
        },
        BenchEvent::Probe { id: 0, class: Class::Cached, domain_idx: 0, result: ProbeResult::Answered(t(10)) },
        BenchEvent::Probe { id: 0, class: Class::Cached, domain_idx: 0, result: ProbeResult::Fail(FailKind::Timeout) },
    ] {
        assert!(a.can_apply(&ev));
        a.apply(ev);
    }
    a
}

fn texts(v: &[Piece]) -> Vec<String> {
    v.iter().map(|p| p.text.clone()).collect()
}

fn summary(successes: usize, total: usize) -> Summary {
    summarize(vec![t(1); successes], total).unwrap()
}

fn cells() -> Cells {
    Cells { p50: "10.0".to_string(), p95: "10.0".to_string(), p99: "10.0".to_string(), rel: "50".to_string() }
}

fn figures() -> Figures {
    Figures {
        reliability: "50".to_string(),
        min: "1.0".to_string(),
        p50: "2.0".to_string(),
        p95: "3.0".to_string(),
        p99: "4.0".to_string(),
        max: "5.0".to_string(),
        mean: "9.9".to_string(),
        stddev: "0.5".to_string(),
    }
}

#[test]
fn the_title_counts_and_ends() {
    let mut a = app();
    assert_eq!(a.title("1.5"), " dnsresolvr  1 endpoints · 2 domains × 4 iters · elapsed 1.5s ");
    assert_eq!(a.gauge_hue(), Hue::Cyan);
    a.finished = true;
    assert_eq!(a.title("1.5"), " dnsresolvr  1 endpoints · 2 domains × 4 iters · elapsed 1.5s · DONE ");
    assert_eq!(a.gauge_hue(), Hue::Green);
    assert_eq!(gauge_label(3, 12, "25"), "3/12 probes (25%)");
}

#[test]
fn the_status_line_shows_configuration_and_message() {
    let mut a = app();
    let v = a.status_line();
    assert_eq!(texts(&v), vec![" cfg ", "  iter:4 sp:40ms to:1500ms cached+uncached v4 domains:2 sort:cached p50"]);
    assert_eq!((v[0].look.fg, v[0].look.bg), (Some(Hue::White), Some(Hue::DarkGray)));
    a.cfg.cached = false;
    a.cfg.include_ipv6 = true;
    a.set_status("hello".to_string(), Color::Yellow, t(1));
    let v = a.status_line();
    assert_eq!(texts(&v), vec![" cfg ", "  iter:4 sp:40ms to:1500ms uncached-only v4+v6 domains:2  ·  ", "hello"]);
    assert_eq!((v[2].look.fg, v[2].look.bold), (Some(Hue::Yellow), true));
    for (color, hue) in [
        (Color::Cyan, Hue::Cyan), (Color::Green, Hue::Green), (Color::Red, Hue::Red), (Color::White, Hue::White),
    ] {
        a.set_status("x".to_string(), color, t(1));
        assert_eq!(a.status_line()[2].look.fg, Some(hue));
    }
    a.cfg.uncached = false;
    assert!(a.status_line()[1].text.contains(" none "));
    a.cfg.cached = true;
    assert!(a.status_line()[1].text.contains(" cached-only "));
}

#[test]
fn the_footer_follows_the_mode() {
    let mut a = app();
    assert_eq!(a.footer_title(), " controls ");
    assert_eq!(
        texts(&a.footer()).concat(),
        "[:] command  [Enter] detail  [s] sort  [r] restart  [?] help  [q] quit"
    );
    a.detail_open = true;
    assert_eq!(texts(&a.footer()).concat(), "[Esc] back  [↑/↓] endpoint  [:] command  [q] quit");
    a.mode = Mode::Command { input: "set".to_string() };
    assert_eq!(a.footer_title(), " command ");
    let v = a.footer();
    assert_eq!(texts(&v), vec![":", "set", "_"]);
    assert!(v[2].look.blink && v[0].look.bold);
}

#[test]
fn the_table_has_a_width_per_heading() {
    for c in [false, true] {
        for u in [false, true] {
            assert_eq!(table_headings(c, u).len(), table_widths(c, u).len());
        }
    }
    let v = table_headings(true, false);
    assert_eq!(texts(&v), vec!["resolver", "addr", "c_p50", "c_p95", "c_p99", "c_rel", "progress"]);
    assert_eq!(v[2].look.fg, Some(Hue::LightGreen));
    assert_eq!(texts(&table_headings(false, true))[2..6], ["u_p50", "u_p95", "u_p99", "u_rel"]);
    let w = table_widths(true, false);
    assert_eq!((w[0], w[1], w[2], w[6]), (Width::Length(22), Width::Length(20), Width::Length(8), Width::AtLeast(16)));
}

#[test]
fn rows_show_figures_or_dashes_and_progress() {
    let a = app();
    let e = &a.endpoints[0];
    let c = e.cached_summary();
    let v = a.table_row(e, &Some((c, cells())), &Some((e.uncached_summary(), cells())));
    assert_eq!(
        texts(&v),
        vec!["One", "1.1.1.1", "  10.0", "  10.0", "  10.0", "  50%", "-", "-", "-", "-", "███████░░░░░░░ 2/4"]
    );
    assert_eq!((v[2].look.fg, v[5].look.fg, v[6].look.fg), (Some(Hue::LightGreen), Some(Hue::Red), Some(Hue::DarkGray)));
    assert_eq!(a.table_row(e, &None, &None).len(), 3);
    assert_eq!(a.table_title(), " results — sorted by cached p50 ");
}

#[test]
fn reliability_is_colored() {
    assert_eq!(hue_for(&summary(79, 100)), Hue::Red);
    assert_eq!(hue_for(&summary(80, 100)), Hue::Yellow);
    assert_eq!(hue_for(&summary(97, 100)), Hue::Yellow);
    assert_eq!(hue_for(&summary(98, 100)), Hue::Green);
    assert_eq!(hue_for(&summary(1, 1)), Hue::Green);
}

#[test]
fn bars_fill_from_empty_to_full() {
    assert_eq!(progress_bar(0, 0, true), "");
    assert_eq!(progress_bar(0, 5, false), "░░░░░░░░░░░░░░ 0/5");
    assert_eq!(progress_bar(5, 5, true), "██████████████ done");
    assert_eq!(progress_bar(9, 5, false), "██████████████ 9/5");
    for due in 1..60usize {
        for done in 0..=due {
            let filled = (((done as f64 / due as f64) * 14.0).round() as usize).min(14);
            let bar = progress_bar(done, due, false);
            assert_eq!(bar, format!("{}{} {}/{}", "█".repeat(filled), "░".repeat(14 - filled), done, due));
        }
    }
}

#[test]
fn the_detail_pane_names_the_endpoint_and_its_classes() {
    let a = app();
    let e = &a.endpoints[0];
    assert_eq!(texts(&endpoint_line(e)), vec!["One ", "(Prov) ", "1.1.1.1"]);
    let v = class_line("cached", &e.cached_summary(), &figures(), Hue::LightGreen);
    assert_eq!(v[0].text, "cached  ");
    assert_eq!(
        v[1].text,
        format!(
            " p50 {:>6.1}ms  p95 {:>6.1}ms  p99 {:>6.1}ms  min {:>6.1}ms  max {:>6.1}ms  stddev {:>5.1}ms  rel {:>3.0}%  ({}/{})",
            2.0, 3.0, 4.0, 1.0, 5.0, 0.5, 50.0, 1, 2
        )
    );
    let v = class_line("uncached", &e.uncached_summary(), &figures(), Hue::LightMagenta);
    assert_eq!(texts(&v), vec!["uncached", " no data yet"]);
    assert_eq!(v[1].look.fg, Some(Hue::DarkGray));
}

#[test]
fn the_detail_pane_lists_domains() {
    let a = app();
    let e = &a.endpoints[0];
    assert_eq!(
        texts(&domain_headings()),
        vec!["domain", "cached mean", "cached n/tot", "uncached mean", "uncached n/tot"]
    );
    assert_eq!(
        texts(&domain_row(e, 0, "a.com", "10.0", "")),
        vec!["a.com".to_string(), format!("{:>7.1}ms", 10.0), "1/2".to_string(), "       —".to_string(), "0/0".to_string()]
    );
    assert_eq!(texts(&domain_row(e, 9, "new.com", "", ""))[1..], ["       —", "0/0", "       —", "0/0"]);
}

#[test]
fn the_detail_pane_lists_the_domains_of_the_run() {
    let mut a = app();
    a.cfg.domains = vec!["later.com".to_string()];
    let means = vec!["10.0".to_string(), String::new()];
    let none = vec![String::new(), String::new()];
    let e = &a.endpoints[0];
    let rows = a.domain_rows(e, &means, &none);
    assert_eq!(rows.len(), 2);
    assert_eq!(texts(&rows[0]), texts(&domain_row(e, 0, "a.com", "10.0", "")));
    assert_eq!(texts(&rows[1]), vec!["b.com", "       —", "0/0", "       —", "0/0"]);
}

#[test]
fn failures_are_red_where_there_are_any() {
    let a = app();
    let v = error_line(&a.endpoints[0].fails());
    assert_eq!(texts(&v).concat(), "errors: 1 timeout  0 network  0 protocol");
    assert_eq!((v[1].look.fg, v[3].look.fg), (Some(Hue::Red), Some(Hue::DarkGray)));
}

#[test]
fn help_names_the_keys_and_commands() {
    let v = help_lines();
    assert_eq!(v.len(), 33);
    let all = texts(&v).join("\n");
    for word in [":set iter <N>", ":wq [path]", ":rm  <domain>", "PgUp/Dn", ":uncached", "next :r", "Esc to close"] {
        assert!(all.contains(word), "{}", word);
    }
    assert_eq!((v[0].look.fg, v[0].look.bold), (Some(Hue::Cyan), true));
}
