use dnsresolvr::bench::EndpointReport;
use dnsresolvr::duration::Duration;
use dnsresolvr::export::{csv_escape, csv_text, report_row, row_of, ExportFormat, Figures};
use dnsresolvr::resolver::IpAddr;
use dnsresolvr::stats::summarize;
use dnsresolvr::transport::Transport;

fn figures(tag: &str) -> Figures {
    Figures {
        reliability: format!("{}0.5000", tag),
        min: "1.000".to_string(),
        p50: "2.000".to_string(),
        p95: "3.000".to_string(),
        p99: "4.000".to_string(),
        max: "5.000".to_string(),
        mean: "2.500".to_string(),
        stddev: "0.100".to_string(),
    }
}

fn report(name: &str, provider: &str) -> EndpointReport {
    let t = Transport::Udp { addr: IpAddr { v4: true, text: "1.1.1.1".to_string() } };
    let s = summarize(vec![Duration::from_millis(2)], 4);
    EndpointReport::new(name.to_string(), provider.to_string(), &t, s, None)
}

/// The fields of a row, as a reader of comma-separated values takes them.
fn fields(row: &str) -> Vec<String> {
    let rows = rows(&format!("{}\n", row));
    assert_eq!(rows.len(), 1);
    rows[0].clone()
}

/// The fields of all rows, as a reader of comma-separated values takes them.
fn rows(text: &str) -> Vec<Vec<String>> {
    let mut done = Vec::new();
    let mut out = vec![String::new()];
    let mut quoted = false;
    let chars: Vec<char> = text.chars().collect();
    let mut i = 0;
    while i < chars.len() {
        let c = chars[i];
        if quoted {
            if c == '"' && chars.get(i + 1) == Some(&'"') {
                out.last_mut().unwrap().push('"');
                i += 1;
            } else if c == '"' {
                quoted = false;
            } else {
                out.last_mut().unwrap().push(c);
            }
        } else if c == '"' {
            quoted = true;
        } else if c == ',' {
            out.push(String::new());
        } else if c == '\n' {
            done.push(out);
            out = vec![String::new()];
        } else {
            out.last_mut().unwrap().push(c);
        }
        i += 1;
    }
    assert_eq!(out, vec![String::new()]);
    done
}

#[test]
fn formats_follow_the_extension() {
    for (path, expected) in [
        ("results.csv", Some(ExportFormat::Csv)),
        ("results.CSV", Some(ExportFormat::Csv)),
        ("dir.x/results.Json", Some(ExportFormat::Json)),
        ("/tmp/a.b.json", Some(ExportFormat::Json)),
        ("a.csv/", Some(ExportFormat::Csv)),
        ("a.csv/.", Some(ExportFormat::Csv)),
        ("./x.csv", Some(ExportFormat::Csv)),
        ("a.csv/..", None),
        ("..", None),
        (".", None),
        ("", None),
        ("/", None),
        (".csv", None),
        ("dir/.json", None),
        ("csv", None),
        ("x.csv.", None),
        ("x.txt", None),
        ("a.csv/b", None),
        ("...csv", Some(ExportFormat::Csv)),
        ("C:\\out.csv", Some(ExportFormat::Csv)),
        ("dir\\x.json", Some(ExportFormat::Json)),
        ("C:out.csv", Some(ExportFormat::Csv)),
        ("C:foo", None),
        ("dir\\x", None),
        ("plain", None),
    ] {
        assert_eq!(ExportFormat::from_path(path), expected, "{:?}", path);
    }
    assert_eq!(ExportFormat::from_extension(&Some("jSoN".to_string())), Some(ExportFormat::Json));
    assert_eq!(ExportFormat::from_extension(&None), None);
}

#[test]
fn fields_are_quoted_where_they_must_be() {
    assert_eq!(csv_escape("plain text"), "plain text");
    assert_eq!(csv_escape("a,b"), "\"a,b\"");
    assert_eq!(csv_escape("say \"hi\""), "\"say \"\"hi\"\"\"");
    assert_eq!(csv_escape("two\nlines"), "\"two\nlines\"");
    assert_eq!(csv_escape(""), "");
    assert_eq!(csv_escape("\""), "\"\"\"\"");
}

#[test]
fn rows_read_back() {
    let texts: Vec<String> =
        ["", "a", "a,b", "\"", "\"\"x\",", "line\nbreak", ",", "ü"].iter().map(|s| s.to_string()).collect();
    assert_eq!(fields(&row_of(&texts)), texts);
}

#[test]
fn a_row_has_every_column() {
    let row = report_row(&report("Cloud, flare", "CF"), &figures(""), &figures("no"));
    assert_eq!(
        row,
        "\"Cloud, flare\",CF,1.1.1.1,1,4,0.5000,1.000,2.000,3.000,4.000,5.000,2.500,0.100,,,,,,,,,,"
    );
    assert_eq!(fields(&row).len(), 23);
}

#[test]
fn an_export_has_a_header_and_a_line_per_endpoint() {
    let text = csv_text(&[report("a", "b"), report("c", "d")], &vec![(figures(""), figures("")), (figures(""), figures(""))]);
    let lines: Vec<&str> = text.split('\n').collect();
    assert_eq!(lines.len(), 4);
    assert_eq!(
        lines[0],
        "resolver,provider,addr,\
         c_count,c_total,c_rel,c_min_ms,c_p50_ms,c_p95_ms,c_p99_ms,c_max_ms,c_mean_ms,c_stddev_ms,\
         u_count,u_total,u_rel,u_min_ms,u_p50_ms,u_p95_ms,u_p99_ms,u_max_ms,u_mean_ms,u_stddev_ms"
    );
    assert!(lines[1].starts_with("a,b,1.1.1.1,1,4,"));
    assert!(lines[2].starts_with("c,d,"));
    assert_eq!(lines[3], "");
    assert_eq!(fields(lines[0]).len(), 23);
}

#[test]
fn an_export_reads_back() {
    let names = [("two\nlines", "a,b"), ("say \"hi\"", ""), ("plain", "\n\n")];
    let reports: Vec<EndpointReport> = names.iter().map(|n| report(n.0, n.1)).collect();
    let figures: Vec<(Figures, Figures)> = names.iter().map(|_| (figures("x,"), figures(""))).collect();
    let read = rows(&csv_text(&reports, &figures));
    assert_eq!(read.len(), 4);
    assert_eq!(read[0][..3], ["resolver", "provider", "addr"]);
    for (i, (name, provider)) in names.iter().enumerate() {
        assert_eq!(read[i + 1].len(), 23);
        assert_eq!(read[i + 1][..6], [name, provider, "1.1.1.1", "1", "4", "x,0.5000"]);
    }
    assert_eq!(rows(&csv_text(&[], &Vec::new())).len(), 1);
}
