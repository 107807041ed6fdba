use dnsresolvr::bench::{BenchConfig, BenchEvent, Class, FailKind, ProbeResult};
use dnsresolvr::command::{Key, Reply};
use dnsresolvr::duration::Duration;
use dnsresolvr::export::ExportFormat;
use dnsresolvr::session::{App, Color, Mode};
use dnsresolvr::state::SortKey;
use dnsresolvr::transport::TransportKind;

fn t(ms: u64) -> Duration {
    Duration::from_millis(ms)
}

fn app() -> App {
    let mut cfg = BenchConfig::default();
    cfg.domains = vec!["a.com".to_string(), "b.com".to_string()];
    App::new(Vec::new(), cfg, None, t(0))
}

fn start(id: usize, name: &str) -> BenchEvent {
    BenchEvent::Start {
        id,
        resolver: name.to_string(),
        provider: "p".to_string(),
        transport_kind: TransportKind::Udp,
        addr_display: format!("10.0.0.{}", id),
        total_per_class: 8,
    }
}

fn answer(id: usize, class: Class, domain_idx: u16, ms: u64) -> BenchEvent {
    BenchEvent::Probe { id, class, domain_idx, result: ProbeResult::Answered(t(ms)) }
}

fn failure(id: usize, class: Class, domain_idx: u16, kind: FailKind) -> BenchEvent {
    BenchEvent::Probe { id, class, domain_idx, result: ProbeResult::Fail(kind) }
}

fn feed(app: &mut App, events: Vec<BenchEvent>) {
    for ev in events {
        assert!(app.can_apply(&ev));
        app.apply(ev);
    }
}

fn run(app: &mut App, cmd: &str) -> (String, Color) {
    app.status = None;
    let reply = app.execute_command(cmd, t(5));
    assert!(matches!(reply, Reply::Continue), "{}", cmd);
    let s = app.status.clone().unwrap();
    assert_eq!(s.shown_since, t(5));
    (s.text, s.color)
}

fn cyan(s: &str) -> (String, Color) {
    (s.to_string(), Color::Cyan)
}

fn red(s: &str) -> (String, Color) {
    (s.to_string(), Color::Red)
}

#[test]
fn a_session_starts_empty() {
    let a = app();
    assert!(a.endpoints.is_empty() && !a.finished && !a.detail_open);
    assert_eq!(a.selected, Some(0));
    assert_eq!(a.sort, SortKey::CachedP50);
    assert!(a.selected_endpoint().is_none());
}

#[test]
fn events_fill_the_results() {
    let mut a = app();
    feed(&mut a, vec![start(1, "two"), start(0, "one")]);
    assert_eq!(a.endpoints.len(), 2);
    feed(
        &mut a,
        vec![
            answer(0, Class::Cached, 0, 10),
            answer(0, Class::Cached, 1, 30),
            answer(0, Class::Cached, 1, 20),
            failure(0, Class::Cached, 0, FailKind::Timeout),
            failure(0, Class::Uncached, 1, FailKind::Network),
            failure(0, Class::Uncached, 1, FailKind::Protocol),
            answer(0, Class::Cached, 2, 99),
            answer(7, Class::Cached, 0, 99),
        ],
    );
    let e = &a.endpoints[0];
    assert_eq!((e.name.as_str(), e.addr_display.as_str(), e.total_per_class), ("one", "10.0.0.0", 8));
    let c = e.cached_summary().unwrap();
    assert_eq!((c.successes, c.total, c.p50), (3, 4, t(20)));
    assert!(e.uncached_summary().is_none());
    let f = e.fails();
    assert_eq!((f.timeout, f.network, f.protocol, f.total()), (1, 1, 1, 3));
    assert_eq!(e.progress(true, true), (6, 16));
    assert_eq!(e.progress(true, false), (6, 8));
    assert_eq!(e.progress(false, false), (6, 0));
    assert!(!e.done);
    feed(&mut a, vec![BenchEvent::Done { id: 0 }, BenchEvent::Done { id: 9 }]);
    assert!(a.endpoints[0].done && !a.endpoints[1].done && !a.finished);
    feed(&mut a, vec![BenchEvent::AllDone]);
    assert!(a.finished);
    assert_eq!(a.total_progress(), Some((6, 2 * 4 * 2 * 2)));
}

#[test]
fn a_gap_before_an_announced_endpoint_is_blank() {
    let mut a = app();
    feed(&mut a, vec![start(2, "three")]);
    assert_eq!(a.endpoints.len(), 3);
    assert_eq!(a.endpoints[0].name, "");
    assert_eq!(a.endpoints[0].addr_display, "0.0.0.0");
    assert_eq!(a.endpoints[0].cached.len(), 2);
    assert_eq!(a.endpoints[2].name, "three");
}

#[test]
fn events_beyond_the_arithmetic_are_noticed() {
    let mut a = app();
    feed(&mut a, vec![start(0, "one"), answer(0, Class::Cached, 0, 1)]);
    let far = BenchEvent::Probe { id: 0, class: Class::Cached, domain_idx: 0, result: ProbeResult::Answered(Duration::max()) };
    assert!(!a.can_apply(&far));
    assert!(!a.can_apply(&start(usize::MAX, "x")));
    a.running.iterations = usize::MAX;
    assert_eq!(a.total_progress(), None);
}

fn sorted_app() -> App {
    let mut a = app();
    feed(
        &mut a,
        vec![
            start(0, "delta"),
            start(1, "alpha"),
            start(2, "charlie"),
            start(3, "bravo"),
            answer(0, Class::Cached, 0, 30),
            answer(1, Class::Cached, 0, 10),
            failure(1, Class::Cached, 0, FailKind::Timeout),
            answer(3, Class::Cached, 0, 20),
            answer(3, Class::Uncached, 0, 5),
            answer(3, Class::Uncached, 0, 5),
            failure(3, Class::Uncached, 0, FailKind::Timeout),
            answer(0, Class::Uncached, 0, 50),
        ],
    );
    a
}

#[test]
fn rows_sort_by_every_column() {
    let mut a = sorted_app();
    a.refresh();
    assert_eq!(a.last_sorted, vec![1, 3, 0, 2]);
    a.sort = SortKey::UncachedP50;
    a.refresh();
    assert_eq!(a.last_sorted, vec![3, 0, 1, 2]);
    a.sort = SortKey::Reliability;
    a.refresh();
    assert_eq!(a.last_sorted, vec![0, 3, 1, 2]);
    a.sort = SortKey::Name;
    a.refresh();
    assert_eq!(a.last_sorted, vec![1, 3, 2, 0]);
}

#[test]
fn reliability_is_taken_over_both_classes() {
    let a = sorted_app();
    let f = |k: usize| a.endpoints[k].combined_reliability().map(|x| x.mant as f64 * 2f64.powi(x.exp));
    assert_eq!(f(0), Some(1.0));
    assert_eq!(f(1), Some(0.5));
    assert_eq!(f(2), None);
    assert_eq!(f(3), Some(0.75));
}

#[test]
fn reports_hold_the_results() {
    let a = sorted_app();
    let r = a.reports();
    assert_eq!(r.len(), 4);
    assert_eq!((r[3].resolver.as_str(), r[3].addr_display.as_str()), ("bravo", "10.0.0.3"));
    assert_eq!(r[3].cached.unwrap().p50, t(20));
    assert_eq!(r[3].uncached.unwrap().total, 3);
    assert!(r[2].cached.is_none());
}

#[test]
fn the_selection_moves_within_the_rows() {
    let mut a = sorted_app();
    a.move_selection(1);
    assert_eq!(a.selected, Some(0));
    a.refresh();
    a.move_selection(1);
    assert_eq!(a.selected, Some(1));
    assert_eq!(a.selected_endpoint().unwrap().name, "bravo");
    a.move_selection(10);
    assert_eq!(a.selected, Some(3));
    a.move_selection(-10);
    assert_eq!(a.selected, Some(0));
    a.selected = None;
    a.move_selection(2);
    assert_eq!(a.selected, Some(2));
    a.selected = Some(99);
    assert!(a.selected_endpoint().is_none());
    a.clamp_selection();
    assert_eq!(a.selected, Some(3));
}

#[test]
fn messages_expire_after_four_seconds() {
    let mut a = app();
    a.set_status("hello".to_string(), Color::White, t(1000));
    a.expire_status(t(5000));
    assert!(a.status.is_some());
    a.expire_status(t(5001));
    assert!(a.status.is_none());
    a.expire_status(t(9000));
    assert!(a.status.is_none());
}

#[test]
fn numbers_can_be_set() {
    let mut a = app();
    assert_eq!(run(&mut a, "set iter 7"), cyan("iterations = 7 (:r to apply)"));
    assert_eq!(a.cfg.iterations, 7);
    assert_eq!(run(&mut a, " SET iter 7"), red("unknown command: SET"));
    assert_eq!(run(&mut a, "set ITERATIONS 0"), red("iter: expected positive integer"));
    assert_eq!(run(&mut a, "set iter"), red("iter: expected positive integer"));
    assert_eq!(run(&mut a, "set iter -3"), red("iter: expected positive integer"));
    assert_eq!(a.cfg.iterations, 7);
    assert_eq!(run(&mut a, "set sp 0"), cyan("spacing = 0ms (:r to apply)"));
    assert_eq!(a.cfg.inter_query, Duration::zero());
    assert_eq!(run(&mut a, "set spacing x"), red("spacing: expected non-negative integer (ms)"));
    assert_eq!(run(&mut a, "set spacing_ms 12"), cyan("spacing = 12ms (:r to apply)"));
    assert_eq!(a.cfg.inter_query, t(12));
    assert_eq!(run(&mut a, "set to 900"), cyan("timeout = 900ms (:r to apply)"));
    assert_eq!(a.cfg.timeout, t(900));
    assert_eq!(run(&mut a, "set timeout 0"), red("timeout: expected positive integer (ms)"));
    assert_eq!(run(&mut a, "set timeout_ms ?"), red("timeout: expected positive integer (ms)"));
    assert_eq!(a.cfg.timeout, t(900));
}

#[test]
fn presets_can_be_set() {
    let mut a = app();
    assert_eq!(run(&mut a, "set preset Thorough"), cyan("preset Thorough -> iterations = 20 (:r to apply)"));
    assert_eq!(a.cfg.iterations, 20);
    assert_eq!(run(&mut a, "set preset none"), red("preset: quick | standard | thorough | exhaustive"));
    assert_eq!(run(&mut a, "set"), red("usage: :set <key> <value>"));
    assert_eq!(run(&mut a, "set Color red"), red("unknown setting: color"));
}

#[test]
fn switches_can_be_set() {
    let mut a = app();
    assert_eq!(run(&mut a, "set ipv6 on"), cyan("ipv6 = true (:r to apply)"));
    assert!(a.cfg.include_ipv6);
    assert_eq!(run(&mut a, "set ipv6"), cyan("ipv6 = false (:r to apply)"));
    assert_eq!(run(&mut a, "ipv6"), cyan("ipv6 = true (:r to apply)"));
    assert_eq!(run(&mut a, "ipv6 NO"), cyan("ipv6 = false (:r to apply)"));
    assert_eq!(run(&mut a, "ipv6 maybe"), red("ipv6: on | off | toggle"));
    for w in ["on", "true", "1", "yes"] {
        assert_eq!(run(&mut a, &format!("set cached {}", w)), cyan("cached = true (:r to apply)"));
    }
    for w in ["off", "false", "0", "no"] {
        assert_eq!(run(&mut a, &format!("set warm {}", w)), cyan("cached = false (:r to apply)"));
    }
    assert_eq!(run(&mut a, "set cached x"), red("cached: on | off | toggle"));
    assert_eq!(run(&mut a, "uncached x"), red("uncached: on | off | toggle"));
}

#[test]
fn a_class_stays_on() {
    let mut a = app();
    assert_eq!(run(&mut a, "cached off"), cyan("cached = false (:r to apply)"));
    assert_eq!(run(&mut a, "uncached off"), red("cannot disable uncached while cached is off"));
    assert_eq!(run(&mut a, "set cold toggle"), red("cannot disable uncached while cached is off"));
    assert!(a.cfg.uncached);
    assert_eq!(run(&mut a, "cached"), cyan("cached = true (:r to apply)"));
    assert_eq!(run(&mut a, "uncached"), cyan("uncached = false (:r to apply)"));
    assert_eq!(run(&mut a, "cached off"), red("cannot disable cached while uncached is off"));
    assert!(a.cfg.cached);
}

#[test]
fn domains_can_be_changed() {
    let mut a = app();
    assert_eq!(run(&mut a, "add c.com A.COM c.com"), cyan("domains: 3 (config changed — :r to apply)"));
    assert_eq!(a.cfg.domains, vec!["a.com", "b.com", "c.com"]);
    assert_eq!(run(&mut a, "domains"), ("a.com, b.com, c.com".to_string(), Color::White));
    assert_eq!(run(&mut a, "rm B.com nope"), cyan("removed 1 (config changed — :r to apply)"));
    assert_eq!(run(&mut a, "del x"), cyan("removed 0 (config changed — :r to apply)"));
    assert_eq!(run(&mut a, "remove a.com c.com"), cyan("removed 2 (config changed — :r to apply)"));
    assert!(a.cfg.domains.is_empty());
    assert_eq!(run(&mut a, "reset"), cyan("domains reset to default (12)"));
    assert_eq!(a.cfg.domains.len(), 12);
}

#[test]
fn removing_undoes_adding() {
    let mut a = app();
    run(&mut a, "add c.com D.com c.COM");
    assert_eq!(a.cfg.domains, vec!["a.com", "b.com", "c.com", "D.com"]);
    run(&mut a, "rm c.com d.com");
    assert_eq!(a.cfg.domains, vec!["a.com", "b.com"]);
    run(&mut a, "add A.com c.com");
    run(&mut a, "rm A.com c.com");
    assert_eq!(a.cfg.domains, vec!["b.com"]);
}

#[test]
fn changes_wait_for_a_restart() {
    let mut a = sorted_app();
    let before = a.total_progress();
    assert_eq!(before, Some((8, 4 * 4 * 2 * 2)));
    assert_eq!(a.endpoints.iter().map(|e| e.progress(true, true).1).sum::<usize>(), 64);
    let title = a.title("1.0");
    let row = |a: &App| {
        let e = &a.endpoints[0];
        a.table_row(e, &None, &None).into_iter().map(|p| p.text).collect::<Vec<_>>()
    };
    let shown = row(&a);
    for c in ["set iter 20", "cached off", "add c.com d.com", "rm a.com", "set preset quick", "reset", "ipv6 on"] {
        run(&mut a, c);
        assert_eq!(a.total_progress(), before, "{}", c);
        assert_eq!(a.title("1.0"), title, "{}", c);
        assert_eq!(row(&a), shown, "{}", c);
        assert_eq!(a.running.domains, vec!["a.com", "b.com"]);
    }
    feed(&mut a, vec![answer(0, Class::Cached, 1, 7), answer(0, Class::Cached, 5, 7)]);
    assert_eq!(a.total_progress(), Some((9, 64)));
    run(&mut a, "set iter 3");
    assert!(matches!(a.execute_command("r", t(9)), Reply::Restart));
    assert_eq!(a.running.iterations, 3);
    assert!(!a.running.cached && a.running.include_ipv6);
    assert_eq!(a.running.domains.len(), 12);
    feed(&mut a, vec![start(0, "one")]);
    assert_eq!(a.total_progress(), Some((0, 12 * 3)));
    assert_eq!(a.title("1.0"), " dnsresolvr  1 endpoints · 12 domains × 3 iters · elapsed 1.0s ");
}

#[test]
fn commands_ask_for_what_they_cannot_do() {
    let mut a = sorted_app();
    for c in ["q", "quit", "exit", "  q  "] {
        assert!(matches!(a.execute_command(c, t(1)), Reply::Quit));
    }
    assert!(matches!(a.execute_command("", t(1)), Reply::Continue));
    assert!(matches!(a.execute_command(" \t ", t(1)), Reply::Continue));
    assert!(a.status.is_none());
    for c in ["w", "write", "export"] {
        assert!(matches!(a.execute_command(c, t(1)), Reply::Write { path: None, quit: false }));
    }
    assert!(matches!(a.execute_command("w out.csv more", t(1)), Reply::Write { path: Some(p), quit: false } if p == "out.csv"));
    assert!(matches!(a.execute_command("wq out.csv", t(1)), Reply::Write { path: Some(_), quit: true }));
    assert!(matches!(a.execute_command("stop", t(1)), Reply::Stop));
    assert!(a.finished);
    assert_eq!(a.status.clone().unwrap().text, "bench stopped");
    assert_eq!(a.endpoints.len(), 4);
    a.selected = Some(3);
    for c in ["r", "run", "start", "restart"] {
        assert!(matches!(a.execute_command(c, t(70)), Reply::Restart));
    }
    assert!(a.endpoints.is_empty() && !a.finished);
    assert_eq!((a.started, a.selected), (t(70), Some(0)));
    assert_eq!(a.status.clone().unwrap().text, "benchmark restarted");
    assert!(matches!(a.execute_command("abort", t(1)), Reply::Stop));
    assert!(matches!(a.execute_command("help", t(1)), Reply::Continue));
    assert!(matches!(a.mode, Mode::Help));
}

#[test]
fn keys_act_in_normal_mode() {
    let mut a = sorted_app();
    a.refresh();
    assert!(matches!(a.press(Key::Char('s'), true, t(1)), Reply::Continue));
    assert_eq!(a.sort, SortKey::UncachedP50);
    a.press(Key::Enter, true, t(1));
    assert!(a.detail_open);
    a.press(Key::Enter, true, t(1));
    assert!(!a.detail_open);
    a.press(Key::Enter, true, t(1));
    a.press(Key::Esc, true, t(1));
    assert!(!a.detail_open);
    a.press(Key::Down, true, t(1));
    assert_eq!(a.selected, Some(1));
    a.press(Key::PageDown, true, t(1));
    assert_eq!(a.selected, Some(3));
    a.press(Key::Up, true, t(1));
    assert_eq!(a.selected, Some(2));
    a.press(Key::PageUp, true, t(1));
    assert_eq!(a.selected, Some(0));
    a.press(Key::Backspace, true, t(1));
    a.press(Key::Other, true, t(1));
    a.press(Key::Char('x'), true, t(1));
    assert!(matches!(a.press(Key::Char('q'), false, t(1)), Reply::Continue));
    assert!(matches!(a.press(Key::Char('q'), true, t(1)), Reply::Quit));
    assert!(matches!(a.press(Key::Char('r'), true, t(9)), Reply::Restart));
    assert_eq!(a.started, t(9));
    assert!(a.endpoints.is_empty());
}

#[test]
fn keys_type_commands() {
    let mut a = app();
    for c in ":set iter 8".chars() {
        a.press(Key::Char(c), true, t(1));
    }
    assert!(matches!(&a.mode, Mode::Command { input } if input == "set iter 8"));
    a.press(Key::Backspace, true, t(1));
    a.press(Key::Char('9'), true, t(1));
    a.press(Key::Up, true, t(1));
    assert!(matches!(a.press(Key::Enter, true, t(2)), Reply::Continue));
    assert!(matches!(a.mode, Mode::Normal));
    assert_eq!(a.cfg.iterations, 9);
    a.press(Key::Char(':'), true, t(1));
    a.press(Key::Backspace, true, t(1));
    a.press(Key::Char('q'), true, t(1));
    a.press(Key::Esc, true, t(1));
    assert!(matches!(a.mode, Mode::Normal));
    a.press(Key::Char(':'), true, t(1));
    a.press(Key::Char('q'), true, t(1));
    assert!(matches!(a.press(Key::Enter, true, t(1)), Reply::Quit));
}

#[test]
fn help_closes_on_its_keys() {
    let mut a = app();
    for k in [Key::Esc, Key::Enter, Key::Char('q'), Key::Char('?')] {
        a.press(Key::Char('?'), true, t(1));
        assert!(matches!(a.mode, Mode::Help));
        a.press(Key::Char('x'), true, t(1));
        assert!(matches!(a.mode, Mode::Help));
        assert!(matches!(a.press(k, true, t(1)), Reply::Continue));
        assert!(matches!(a.mode, Mode::Normal));
    }
}

#[test]
fn sort_columns_cycle() {
    let mut k = SortKey::CachedP50;
    let mut seen = Vec::new();
    for _ in 0..4 {
        seen.push(k.label());
        k = k.next();
    }
    assert_eq!(k, SortKey::CachedP50);
    assert_eq!(seen, vec!["cached p50", "uncached p50", "reliability", "name"]);
}

#[test]
fn exports_go_where_they_should() {
    let mut a = sorted_app();
    assert_eq!(a.export_target(&None, 1234), "dnsresolvr-1234.csv");
    let job = a.write_export(&None, 1234, t(1)).unwrap();
    assert_eq!((job.path.as_str(), job.format), ("dnsresolvr-1234.csv", ExportFormat::Csv));
    assert!(a.maybe_export().is_none());
    let job = a.write_export(&Some("x.json".to_string()), 0, t(1)).unwrap();
    assert_eq!(job.format, ExportFormat::Json);
    a.export_finished(job.path, 4, Ok(()), t(2));
    let s = a.status.clone().unwrap();
    assert_eq!((s.text.as_str(), s.color), ("exported 4 rows to x.json", Color::Green));
    assert_eq!(a.export_path, Some("x.json".to_string()));
    assert_eq!(a.export_target(&None, 9), "x.json");
    assert_eq!(a.maybe_export().unwrap().format, ExportFormat::Json);
    let job = a.write_export(&Some("C:\\out.csv".to_string()), 0, t(1)).unwrap();
    assert_eq!((job.path.as_str(), job.format), ("C:\\out.csv", ExportFormat::Csv));
}

#[test]
fn exports_that_fail_say_so() {
    let mut a = app();
    assert!(a.write_export(&Some("x.txt".to_string()), 0, t(1)).is_none());
    let s = a.status.clone().unwrap();
    assert_eq!((s.text.as_str(), s.color), ("export: path must end in .csv or .json (x.txt)", Color::Red));
    a.export_finished("y.csv".to_string(), 1, Err("disk full".to_string()), t(1));
    assert_eq!(a.status.clone().unwrap().text, "export failed: disk full");
    assert_eq!(a.export_path, None);
    assert!(a.begin_export("z".to_string(), Some(ExportFormat::Csv), t(1)).is_some());
    assert!(a.begin_export("z".to_string(), None, t(1)).is_none());
    a.export_path = Some("odd".to_string());
    assert!(a.maybe_export().is_none());
}
