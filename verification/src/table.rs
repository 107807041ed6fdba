//! Plain-text tables for terminals and logs.

use vstd::prelude::*;
use vstd::string::StringExecFns;

use crate::bench::EndpointReport;
use crate::order::{Column, Keys};
use crate::probe::{ProbeError, ProbeOutcome};
use crate::resolver::{IpAddr, Resolver};
use crate::stats::Summary;
use crate::text::{
    dec, decimal, join, joined, law_joining, law_padding, law_truncation, pad_left, pad_right, padded_left, padded_right,
    push_repeated, repeated, texts, truncate, truncated,
};
use crate::wire::{rcode_name, rcode_text};

verus! {

broadcast use vstd::string::group_string_axioms;

// --- results of a benchmark ---

/// The four cells of a class: the percentiles in milliseconds and the reliability in per cent.
pub struct Cells {
    pub p50: String,
    pub p95: String,
    pub p99: String,
    pub rel: String,
}

/// The classes of a benchmark in words.
pub open spec fn class_names(cached: bool, uncached: bool) -> Seq<char> {
    if cached && uncached {
        "cached + uncached"@
    } else if cached {
        "cached only"@
    } else {
        "uncached only"@
    }
}

/// The classes of a benchmark in words.
pub fn classes(cached: bool, uncached: bool) -> (r: &'static str)
    requires
        cached || uncached,
    ensures
        r@ == class_names(cached, uncached),
{
    if cached && uncached {
        "cached + uncached"
    } else if cached {
        "cached only"
    } else {
        "uncached only"
    }
}

/// The IP families of a benchmark in words.
pub open spec fn stack_name(include_ipv6: bool) -> Seq<char> {
    if include_ipv6 {
        "v4+v6"@
    } else {
        "v4"@
    }
}

/// The IP families of a benchmark in words.
pub fn stack(include_ipv6: bool) -> (r: &'static str)
    ensures
        r@ == stack_name(include_ipv6),
{
    if include_ipv6 {
        "v4+v6"
    } else {
        "v4"
    }
}

/// Four headings, or the cells of a class without units: three of width 7 and one of width 5.
pub open spec fn headings(a: Seq<char>, b: Seq<char>, c: Seq<char>, d: Seq<char>) -> Seq<char> {
    padded_left(a, 7) + " "@ + padded_left(b, 7) + " "@ + padded_left(c, 7) + " "@ + padded_left(d, 5) + " "@
}

/// The line above the results.
pub open spec fn bench_header_text(cached: bool, uncached: bool) -> Seq<char> {
    let c = if cached {
        headings("c_p50"@, "c_p95"@, "c_p99"@, "c_rel"@)
    } else {
        Seq::empty()
    };
    let u = if uncached {
        headings("u_p50"@, "u_p95"@, "u_p99"@, "u_rel"@)
    } else {
        Seq::empty()
    };
    padded_right("resolver"@, 22) + " "@ + padded_right("addr"@, 16) + " "@ + c + u
}

fn append_headings(r: &mut String, a: &str, b: &str, c: &str, d: &str)
    ensures
        final(r)@ == old(r)@ + headings(a@, b@, c@, d@),
{
    let ghost start = r@;
    let x = pad_left(a, 7);
    r.append(x.as_str());
    r.append(" ");
    let x = pad_left(b, 7);
    r.append(x.as_str());
    r.append(" ");
    let x = pad_left(c, 7);
    r.append(x.as_str());
    r.append(" ");
    let x = pad_left(d, 5);
    r.append(x.as_str());
    r.append(" ");
    assert(r@ =~= start + headings(a@, b@, c@, d@));
}

/// The line above the results.
pub fn bench_header(cached: bool, uncached: bool) -> (r: String)
    ensures
        r@ == bench_header_text(cached, uncached),
{
    let mut r = pad_right("resolver", 22);
    r.append(" ");
    let addr = pad_right("addr", 16);
    r.append(addr.as_str());
    r.append(" ");
    if cached {
        append_headings(&mut r, "c_p50", "c_p95", "c_p99", "c_rel");
    }
    if uncached {
        append_headings(&mut r, "u_p50", "u_p95", "u_p99", "u_rel");
    }
    assert(r@ =~= bench_header_text(cached, uncached));
    r
}

/// The width of the table.
pub open spec fn bench_width(cached: bool, uncached: bool) -> nat {
    40 + (if cached {
        31nat
    } else {
        0
    }) + (if uncached {
        31nat
    } else {
        0
    })
}

/// The rule below the heading.
pub fn bench_rule(cached: bool, uncached: bool) -> (r: String)
    ensures
        r@ == repeated('-', bench_width(cached, uncached)),
{
    let mut n: usize = 40;
    if cached {
        n = n + 31;
    }
    if uncached {
        n = n + 31;
    }
    let mut r = String::new();
    push_repeated(&mut r, '-', n);
    assert(r@ =~= repeated('-', n as nat));
    r
}

/// The cells of a class; a dash stands for no data.
pub open spec fn class_cells(s: Option<Summary>, f: Cells) -> Seq<char> {
    match s {
        Some(_) => padded_left(f.p50@, 6) + "ms "@ + padded_left(f.p95@, 6) + "ms "@ + padded_left(f.p99@, 6) + "ms "@
            + padded_left(f.rel@, 5) + " "@,
        None => padded_left("-"@, 8) + " "@ + padded_left("-"@, 8) + " "@ + padded_left("-"@, 8) + " "@ + padded_left(
            "-"@,
            5,
        ) + " "@,
    }
}

/// The line for an endpoint.
pub open spec fn bench_row_text(e: EndpointReport, cached: Option<Cells>, uncached: Option<Cells>) -> Seq<char> {
    let c = match cached {
        Some(f) => class_cells(e.cached, f),
        None => Seq::empty(),
    };
    let u = match uncached {
        Some(f) => class_cells(e.uncached, f),
        None => Seq::empty(),
    };
    padded_right(truncated(e.resolver@, 22), 22) + " "@ + padded_right(e.addr_display@, 16) + " "@ + c + u
}

fn append_cells(r: &mut String, s: &Option<Summary>, f: &Cells)
    ensures
        final(r)@ == old(r)@ + class_cells(*s, *f),
{
    let ghost start = r@;
    let none = "-".to_owned();
    let (a, b, c, d, unit, width): (&String, &String, &String, &String, &str, usize) = match s {
        Some(_) => (&f.p50, &f.p95, &f.p99, &f.rel, "ms ", 6),
        None => (&none, &none, &none, &none, " ", 8),
    };
    let x = pad_left(a.as_str(), width);
    r.append(x.as_str());
    r.append(unit);
    let x = pad_left(b.as_str(), width);
    r.append(x.as_str());
    r.append(unit);
    let x = pad_left(c.as_str(), width);
    r.append(x.as_str());
    r.append(unit);
    let x = pad_left(d.as_str(), 5);
    r.append(x.as_str());
    r.append(" ");
    assert(r@ =~= start + class_cells(*s, *f));
}

/// The line for an endpoint, with the cells of the classes that were run.
pub fn bench_row(e: &EndpointReport, cached: &Option<Cells>, uncached: &Option<Cells>) -> (r: String)
    ensures
        r@ == bench_row_text(*e, *cached, *uncached),
{
    let name = truncate(e.resolver.as_str(), 22);
    let mut r = pad_right(name.as_str(), 22);
    r.append(" ");
    let addr = pad_right(e.addr_display.as_str(), 16);
    r.append(addr.as_str());
    r.append(" ");
    match cached {
        Some(f) => append_cells(&mut r, &e.cached, f),
        None => {},
    }
    match uncached {
        Some(f) => append_cells(&mut r, &e.uncached, f),
        None => {},
    }
    assert(r@ =~= bench_row_text(*e, *cached, *uncached));
    r
}

// --- the list of resolvers ---

/// A line of the resolver list.
pub open spec fn list_line_text(name: Seq<char>, provider: Seq<char>, v4: Seq<char>, v6: Seq<char>) -> Seq<char> {
    padded_right(name, 24) + " "@ + padded_right(provider, 14) + " "@ + padded_right(v4, 32) + " "@ + v6
}

/// The addresses in turn, with commas between them.
pub open spec fn addr_list(addrs: Seq<IpAddr>) -> Seq<char> {
    joined(addrs.map_values(|a: IpAddr| a.text@), ","@)
}

fn list_columns(name: &str, provider: &str, v4: &str, v6: &str) -> (r: String)
    ensures
        r@ == list_line_text(name@, provider@, v4@, v6@),
{
    let mut r = pad_right(name, 24);
    r.append(" ");
    let x = pad_right(provider, 14);
    r.append(x.as_str());
    r.append(" ");
    let x = pad_right(v4, 32);
    r.append(x.as_str());
    r.append(" ");
    r.append(v6);
    r
}

fn join_addrs(addrs: &Vec<IpAddr>) -> (r: String)
    ensures
        r@ == addr_list(addrs@),
{
    let mut v: Vec<String> = Vec::new();
    let n: usize = addrs.len();
    let mut i: usize = 0;
    while i < n
        invariant
            i <= n == addrs.len(),
            v@.len() == i,
            forall|k: int| 0 <= k < i ==> (#[trigger] v@[k])@ == addrs@[k].text@,
        decreases n - i,
    {
        v.push(addrs[i].text.clone());
        i = i + 1;
    }
    assert(texts(v@) =~= addrs@.map_values(|a: IpAddr| a.text@));
    join(&v, ",")
}

/// The line above the resolver list.
pub fn list_header() -> (r: String)
    ensures
        r@ == list_line_text("name"@, "provider"@, "ipv4"@, "ipv6"@),
{
    list_columns("name", "provider", "ipv4", "ipv6")
}

/// The line for a resolver.
pub open spec fn resolver_line(res: Resolver) -> Seq<char> {
    list_line_text(res.name@, res.provider@, addr_list(res.ipv4@), addr_list(res.ipv6@))
}

/// The line for a resolver.
pub fn list_line(res: &Resolver) -> (r: String)
    ensures
        r@ == list_line_text(res.name@, res.provider@, addr_list(res.ipv4@), addr_list(res.ipv6@)),
        r@ == resolver_line(*res),
{
    let v4 = join_addrs(&res.ipv4);
    let v6 = join_addrs(&res.ipv6);
    list_columns(res.name.as_str(), res.provider.as_str(), v4.as_str(), v6.as_str())
}

/// The line below the resolver list.
pub fn list_footer(count: usize) -> (r: String)
    ensures
        r@ == dec(count as nat) + " resolvers"@,
{
    let mut r = decimal(count as u128);
    r.append(" resolvers");
    r
}

// --- single probes ---

/// Where a probe belongs among others: answers by their round trip in microseconds, of which 64
/// bits count, and failures behind all of them.
pub open spec fn probe_key(outcome: Result<ProbeOutcome, ProbeError>) -> int {
    match outcome {
        Ok(o) => (o.rtt@ / 1000) as int % 0x1_0000_0000_0000_0000,
        Err(_) => 0x1_0000_0000_0000_0000,
    }
}

/// The keys of the probes.
pub open spec fn probe_keys(outcomes: Seq<Result<ProbeOutcome, ProbeError>>) -> Keys {
    Keys::Numbers(outcomes.map_values(|o: Result<ProbeOutcome, ProbeError>| probe_key(o)))
}

/// The order in which the outcomes of single probes are shown: fastest first, failures last.
pub fn probe_order(outcomes: &Vec<Result<ProbeOutcome, ProbeError>>) -> (r: Vec<usize>)
    ensures
        probe_keys(outcomes@).sorts(r@),
{
    let n: usize = outcomes.len();
    let mut keys: Vec<i128> = Vec::new();
    let mut i: usize = 0;
    while i < n
        invariant
            i <= n == outcomes.len(),
            keys@.len() == i,
            forall|k: int| 0 <= k < i ==> #[trigger] keys@[k] == probe_key(outcomes@[k]),
        decreases n - i,
    {
        let key: i128 = match &outcomes[i] {
            Ok(o) => (o.rtt.as_micros() % 0x1_0000_0000_0000_0000) as i128,
            Err(_) => 0x1_0000_0000_0000_0000,
        };
        keys.push(key);
        i = i + 1;
    }
    let column = Column::Numbers(keys);
    assert(keys@.map_values(|n: i128| n as int) =~= outcomes@.map_values(
        |o: Result<ProbeOutcome, ProbeError>| probe_key(o),
    ));
    column.sort_order()
}

/// A failed probe is never shown before an answered one.
pub proof fn law_failures_come_last(outcomes: Seq<Result<ProbeOutcome, ProbeError>>, order: Seq<usize>, a: int, b: int)
    requires
        probe_keys(outcomes).sorts(order),
        0 <= a < b < order.len(),
    ensures
        outcomes[order[b] as int] is Ok ==> outcomes[order[a] as int] is Ok,
{
    assert(probe_keys(outcomes).before(order[a] as int, order[b] as int));
}

/// A line of the probe table.
pub open spec fn probe_line_text(
    name: Seq<char>,
    addr: Seq<char>,
    rtt: Seq<char>,
    rcode: Seq<char>,
    answer: Seq<char>,
) -> Seq<char> {
    padded_right(name, 24) + " "@ + padded_right(addr, 16) + " "@ + padded_left(rtt, 10) + "  "@ + padded_right(rcode, 8)
        + " "@ + answer
}

/// A line of the probe table.
pub fn probe_line(name: &str, addr: &str, rtt: &str, rcode: &str, answer: &str) -> (r: String)
    ensures
        r@ == probe_line_text(name@, addr@, rtt@, rcode@, answer@),
{
    let mut r = pad_right(name, 24);
    r.append(" ");
    let x = pad_right(addr, 16);
    r.append(x.as_str());
    r.append(" ");
    let x = pad_left(rtt, 10);
    r.append(x.as_str());
    r.append("  ");
    let x = pad_right(rcode, 8);
    r.append(x.as_str());
    r.append(" ");
    r.append(answer);
    r
}

/// The line for a single probe: the round trip, the name of the response code and the first
/// answer; or the error.
pub open spec fn probe_row_text(
    name: Seq<char>,
    addr: Seq<char>,
    outcome: Result<ProbeOutcome, ProbeError>,
    rtt: Seq<char>,
    error: Seq<char>,
) -> Seq<char> {
    match outcome {
        Ok(o) => probe_line_text(
            name,
            addr,
            rtt + "ms"@,
            rcode_text(o.rcode),
            match o.first_answer {
                Some(answer) => answer@,
                None => ""@,
            },
        ),
        Err(_) => probe_line_text(name, addr, "—"@, "ERR"@, error),
    }
}

/// The line for a single probe; `rtt` is the round trip of an answer in milliseconds, `error` the
/// text of a failure.
pub fn probe_row(name: &str, addr: &str, outcome: &Result<ProbeOutcome, ProbeError>, rtt: &str, error: &str) -> (r: String)
    ensures
        r@ == probe_row_text(name@, addr@, *outcome, rtt@, error@),
{
    match outcome {
        Ok(o) => {
            let mut time = rtt.to_owned();
            time.append("ms");
            let rcode = rcode_name(o.rcode);
            match &o.first_answer {
                Some(answer) => probe_line(name, addr, time.as_str(), rcode.as_str(), answer.as_str()),
                None => probe_line(name, addr, time.as_str(), rcode.as_str(), ""),
            }
        },
        Err(_) => probe_line(name, addr, "—", "ERR", error),
    }
}

/// Single probes are shown fastest first: of two that were answered, in round trips of whole
/// microseconds below `2^64`, the one with the shorter round trip.
pub proof fn law_probes_are_shown_fastest_first(
    outcomes: Seq<Result<ProbeOutcome, ProbeError>>,
    order: Seq<usize>,
    a: int,
    b: int,
)
    requires
        probe_keys(outcomes).sorts(order),
        0 <= a < b < order.len(),
        outcomes[order[a] as int] is Ok,
        outcomes[order[b] as int] is Ok,
        outcomes[order[a] as int]->Ok_0.rtt@ / 1000 <= u64::MAX,
        outcomes[order[b] as int]->Ok_0.rtt@ / 1000 <= u64::MAX,
    ensures
        outcomes[order[a] as int]->Ok_0.rtt@ / 1000 <= outcomes[order[b] as int]->Ok_0.rtt@ / 1000,
        outcomes[order[a] as int]->Ok_0.rtt@ / 1000 == outcomes[order[b] as int]->Ok_0.rtt@ / 1000 ==> order[a] < order[b],
{
    assert(probe_keys(outcomes).before(order[a] as int, order[b] as int));
}

/// The line for an endpoint holds the cells of the cached class, then those of the uncached class: each
/// class shows its own, and they are laid out the same.
pub proof fn law_lines_hold_both_classes(e: EndpointReport, c: Cells, u: Cells)
    ensures
        ({
            let bare = bench_row_text(e, None, None);
            let cached = bench_row_text(e, Some(c), None);
            let uncached = bench_row_text(e, None, Some(u));
            &&& bare.is_prefix_of(cached) && bare.is_prefix_of(uncached)
            &&& bench_row_text(e, Some(c), Some(u)) == cached + uncached.skip(bare.len() as int)
            &&& uncached == bench_row_text(EndpointReport { cached: e.uncached, uncached: e.cached, ..e }, Some(u), None)
        }),
{
    let bare = bench_row_text(e, None, None);
    let cached = bench_row_text(e, Some(c), None);
    let uncached = bench_row_text(e, None, Some(u));
    assert(bare =~= cached.take(bare.len() as int));
    assert(bare =~= uncached.take(bare.len() as int));
    assert(bench_row_text(e, Some(c), Some(u)) =~= cached + uncached.skip(bare.len() as int));
    let swapped = EndpointReport { cached: e.uncached, uncached: e.cached, ..e };
    assert(uncached =~= bench_row_text(swapped, Some(u), None));
}

/// The cells of a class with data are its percentiles in milliseconds and its reliability, in this
/// order and parted by spaces; those of a class without data are as wide and hold no digit.
pub proof fn law_cells_hold_figures(s: Summary, f: Cells)
    requires
        f.p50@.len() <= 6,
        f.p95@.len() <= 6,
        f.p99@.len() <= 6,
        f.rel@.len() <= 5,
    ensures
        ({
            let line = class_cells(Some(s), f);
            &&& line.len() == 33 && class_cells(None, f).len() == 33
            &&& line.subrange(6 - f.p50@.len(), 6) == f.p50@ && line[6] == 'm' && line[7] == 's'
            &&& line.subrange(15 - f.p95@.len(), 15) == f.p95@ && line[15] == 'm' && line[16] == 's'
            &&& line.subrange(24 - f.p99@.len(), 24) == f.p99@ && line[24] == 'm' && line[25] == 's'
            &&& line.subrange(32 - f.rel@.len(), 32) == f.rel@
            &&& forall|i: int|
                0 <= i < 33 ==> #[trigger] class_cells(None, f)[i] == ' ' || class_cells(None, f)[i] == '-'
        }),
{
    reveal_strlit("ms ");
    reveal_strlit(" ");
    reveal_strlit("-");
    law_padding(f.p50@, 6);
    law_padding(f.p95@, 6);
    law_padding(f.p99@, 6);
    law_padding(f.rel@, 5);
    let line = class_cells(Some(s), f);
    let a = padded_left(f.p50@, 6);
    let b = padded_left(f.p95@, 6);
    let c = padded_left(f.p99@, 6);
    let d = padded_left(f.rel@, 5);
    assert(line.subrange(0, 6) =~= a);
    assert(line.subrange(9, 15) =~= b);
    assert(line.subrange(18, 24) =~= c);
    assert(line.subrange(27, 32) =~= d);
    assert(line.subrange(6 - f.p50@.len(), 6) =~= a.skip(6 - f.p50@.len()));
    assert(line.subrange(15 - f.p95@.len(), 15) =~= b.skip(6 - f.p95@.len()));
    assert(line.subrange(24 - f.p99@.len(), 24) =~= c.skip(6 - f.p99@.len()));
    assert(line.subrange(32 - f.rel@.len(), 32) =~= d.skip(5 - f.rel@.len()));
}

/// The classes and the IP families are named by what is run.
pub proof fn law_names_tell_what_is_run()
    ensures
        class_names(true, true) == "cached + uncached"@,
        class_names(true, false) == "cached only"@,
        class_names(false, true) == "uncached only"@,
        stack_name(true) == "v4+v6"@,
        stack_name(false) == "v4"@,
{
}

/// The line above the results names the columns: the resolver and the address first, then four for each
/// class that was run, those of the cached class before those of the uncached class. The rule below
/// grows by as much for each class.
pub proof fn law_header_names_columns()
    ensures
        ({
            let bare = bench_header_text(false, false);
            let c = bench_header_text(true, false);
            let u = bench_header_text(false, true);
            &&& bare.len() == 40 && bare.is_prefix_of(c) && bare.is_prefix_of(u)
            &&& bare.subrange(0, 8) == "resolver"@ && bare.subrange(23, 27) == "addr"@
            &&& c.subrange(42, 47) == "c_p50"@ && c.subrange(50, 55) == "c_p95"@ && c.subrange(58, 63) == "c_p99"@
                && c.subrange(64, 69) == "c_rel"@
            &&& u.subrange(42, 47) == "u_p50"@ && u.subrange(50, 55) == "u_p95"@ && u.subrange(58, 63) == "u_p99"@
                && u.subrange(64, 69) == "u_rel"@
            &&& c.len() == 70 && u.len() == 70
            &&& bench_header_text(true, true) == c + u.skip(40)
        }),
        bench_width(false, false) == 40,
        bench_width(true, false) == 71 && bench_width(false, true) == 71 && bench_width(true, true) == 102,
{
    reveal_strlit("resolver");
    reveal_strlit("addr");
    reveal_strlit(" ");
    law_padding("resolver"@, 22);
    law_padding("addr"@, 16);
    reveal_strlit("c_p50");
    reveal_strlit("c_p95");
    reveal_strlit("c_p99");
    reveal_strlit("c_rel");
    reveal_strlit("u_p50");
    reveal_strlit("u_p95");
    reveal_strlit("u_p99");
    reveal_strlit("u_rel");
    let bare = bench_header_text(false, false);
    let c = bench_header_text(true, false);
    let u = bench_header_text(false, true);
    lemma_headings("c_p50"@, "c_p95"@, "c_p99"@, "c_rel"@);
    lemma_headings("u_p50"@, "u_p95"@, "u_p99"@, "u_rel"@);
    let hc = headings("c_p50"@, "c_p95"@, "c_p99"@, "c_rel"@);
    let hu = headings("u_p50"@, "u_p95"@, "u_p99"@, "u_rel"@);
    assert(c =~= bare + hc);
    assert(u =~= bare + hu);
    assert(bare.subrange(0, 8) =~= padded_right("resolver"@, 22).take(8));
    assert(bare.subrange(23, 27) =~= padded_right("addr"@, 16).take(4));
    assert(bare =~= c.subrange(0, 40) && bare =~= u.subrange(0, 40));
    assert(c.subrange(42, 47) =~= hc.subrange(2, 7) && c.subrange(50, 55) =~= hc.subrange(10, 15));
    assert(c.subrange(58, 63) =~= hc.subrange(18, 23) && c.subrange(64, 69) =~= hc.subrange(24, 29));
    assert(u.subrange(42, 47) =~= hu.subrange(2, 7) && u.subrange(50, 55) =~= hu.subrange(10, 15));
    assert(u.subrange(58, 63) =~= hu.subrange(18, 23) && u.subrange(64, 69) =~= hu.subrange(24, 29));
    assert(bench_header_text(true, true) =~= c + u.skip(40));
}

proof fn lemma_headings(a: Seq<char>, b: Seq<char>, c: Seq<char>, d: Seq<char>)
    requires
        a.len() == 5,
        b.len() == 5,
        c.len() == 5,
        d.len() == 5,
    ensures
        ({
            let h = headings(a, b, c, d);
            &&& h.len() == 30
            &&& h.subrange(2, 7) == a && h.subrange(10, 15) == b && h.subrange(18, 23) == c && h.subrange(24, 29) == d
        }),
{
    reveal_strlit(" ");
    law_padding(a, 7);
    law_padding(b, 7);
    law_padding(c, 7);
    law_padding(d, 5);
    let h = headings(a, b, c, d);
    assert(h.subrange(2, 7) =~= padded_left(a, 7).skip(2));
    assert(h.subrange(10, 15) =~= padded_left(b, 7).skip(2));
    assert(h.subrange(18, 23) =~= padded_left(c, 7).skip(2));
    assert(h.subrange(24, 29) =~= padded_left(d, 5).skip(0));
}

/// The line for an endpoint begins with the name of its resolver and its address, each in its column.
pub proof fn law_lines_name_endpoints(e: EndpointReport)
    requires
        e.resolver@.len() <= 22,
        e.addr_display@.len() <= 16,
    ensures
        ({
            let line = bench_row_text(e, None, None);
            &&& line.len() == 40
            &&& line.take(e.resolver@.len() as int) == e.resolver@
            &&& line.subrange(23, 23 + e.addr_display@.len() as int) == e.addr_display@
        }),
{
    reveal_strlit(" ");
    let name = e.resolver@;
    let addr = e.addr_display@;
    law_truncation(name, 22);
    law_padding(name, 22);
    law_padding(addr, 16);
    let line = bench_row_text(e, None, None);
    assert(line.take(name.len() as int) =~= padded_right(name, 22).take(name.len() as int));
    assert(line.subrange(23, 23 + addr.len() as int) =~= padded_right(addr, 16).take(addr.len() as int));
}

/// A line of the resolver list holds the name, the provider, the IPv4 and the IPv6 addresses, in this
/// order, and each in its column where those before fit into theirs.
pub proof fn law_list_lines_hold_columns(name: Seq<char>, provider: Seq<char>, v4: Seq<char>, v6: Seq<char>)
    ensures
        ({
            let line = list_line_text(name, provider, v4, v6);
            &&& name.is_prefix_of(line) && v6.is_suffix_of(line)
            &&& name.len() <= 24 ==> line.subrange(25, 25 + provider.len() as int) == provider
            &&& name.len() <= 24 && provider.len() <= 14 ==> line.subrange(40, 40 + v4.len() as int) == v4
            &&& name.len() <= 24 && provider.len() <= 14 && v4.len() <= 32 ==> line.skip(73) == v6
        }),
{
    reveal_strlit(" ");
    law_padding(name, 24);
    law_padding(provider, 14);
    law_padding(v4, 32);
    let line = list_line_text(name, provider, v4, v6);
    assert(name =~= line.subrange(0, name.len() as int)) by {
        assert(line.take(name.len() as int) =~= padded_right(name, 24).take(name.len() as int));
    }
    assert(v6 =~= line.subrange(line.len() - v6.len(), line.len() as int));
    if name.len() <= 24 {
        assert(line.subrange(25, 25 + provider.len() as int) =~= padded_right(provider, 14).take(provider.len() as int));
        if provider.len() <= 14 {
            assert(line.subrange(40, 40 + v4.len() as int) =~= padded_right(v4, 32).take(v4.len() as int));
            if v4.len() <= 32 {
                assert(line.skip(73) =~= v6);
            }
        }
    }
}

/// The addresses of a resolver stand in the list as they are, in order, with a comma between each and
/// the next.
pub proof fn law_addresses_are_listed(a: Seq<IpAddr>, b: Seq<IpAddr>, x: IpAddr)
    ensures
        addr_list(seq![x]) == x.text@,
        addr_list(Seq::empty()).len() == 0,
        a.len() > 0 && b.len() > 0 ==> addr_list(a + b) == addr_list(a) + seq![','] + addr_list(b),
{
    reveal_strlit(",");
    let s = a.map_values(|a: IpAddr| a.text@);
    let t = b.map_values(|a: IpAddr| a.text@);
    law_joining(s, t, ","@, x.text@);
    assert(","@ =~= seq![',']);
    assert((a + b).map_values(|a: IpAddr| a.text@) =~= s + t);
    assert(seq![x].map_values(|a: IpAddr| a.text@) =~= seq![x.text@]);
    assert(Seq::<IpAddr>::empty().map_values(|a: IpAddr| a.text@) =~= Seq::empty());
}

/// The line for a single probe holds the name and the address of the resolver; then, for an answer, its
/// round trip in milliseconds, the name of its response code and the first answer, if there is one; and
/// for a failure the text of the error.
pub proof fn law_probe_lines_hold_outcomes(
    name: Seq<char>,
    addr: Seq<char>,
    outcome: Result<ProbeOutcome, ProbeError>,
    rtt: Seq<char>,
    error: Seq<char>,
)
    requires
        name.len() <= 24,
        addr.len() <= 16,
    ensures
        ({
            let line = probe_row_text(name, addr, outcome, rtt, error);
            &&& line.take(name.len() as int) == name && line.subrange(25, 25 + addr.len() as int) == addr
            &&& outcome matches Ok(o) ==> {
                let code = rcode_text(o.rcode);
                &&& rtt.len() <= 8 ==> line.subrange(50 - rtt.len(), 50) == rtt && line[50] == 'm' && line[51] == 's'
                    && line.subrange(54, 54 + code.len() as int) == code
                &&& o.first_answer matches Some(a) ==> a@.is_suffix_of(line)
                &&& o.first_answer is None && rtt.len() <= 8 && code.len() <= 8 ==> line.len() == 63
            }
            &&& outcome is Err ==> error.is_suffix_of(line) && line.len() == 63 + error.len() && line.subrange(54, 57)
                == "ERR"@ && line[51] == '—'
        }),
{
    reveal_strlit(" ");
    reveal_strlit("  ");
    reveal_strlit("ms");
    reveal_strlit("");
    reveal_strlit("ERR");
    reveal_strlit("—");
    let line = probe_row_text(name, addr, outcome, rtt, error);
    law_padding(name, 24);
    law_padding(addr, 16);
    let (time, code, answer) = match outcome {
        Ok(o) => (
            rtt + "ms"@,
            rcode_text(o.rcode),
            match o.first_answer {
                Some(answer) => answer@,
                None => ""@,
            },
        ),
        Err(_) => ("—"@, "ERR"@, error),
    };
    law_padding(time, 10);
    law_padding(code, 8);
    let t = padded_left(time, 10);
    let k = padded_right(code, 8);
    assert(line =~= padded_right(name, 24) + " "@ + padded_right(addr, 16) + " "@ + t + "  "@ + k + " "@ + answer);
    assert(line.take(name.len() as int) =~= padded_right(name, 24).take(name.len() as int));
    assert(line.subrange(25, 25 + addr.len() as int) =~= padded_right(addr, 16).take(addr.len() as int));
    assert(answer =~= line.subrange(line.len() - answer.len(), line.len() as int));
    if time.len() <= 10 {
        assert(line.subrange(42, 52) =~= t);
        assert(line.subrange(52 - time.len(), 52) =~= t.skip(10 - time.len()));
        assert(line.subrange(54, 54 + code.len() as int) =~= k.take(code.len() as int));
    }
    if outcome is Ok && rtt.len() <= 8 {
        assert(t.skip(10 - time.len()) == rtt + "ms"@);
        assert forall|i: int| 0 <= i < time.len() implies line[52 - time.len() + i] == time[i] by {
            assert(line.subrange(52 - time.len(), 52)[i] == time[i]);
        }
        assert(line[50] == time[rtt.len() as int] && line[51] == time[rtt.len() as int + 1]);
        assert(line.subrange(50 - rtt.len(), 50) =~= rtt);
    }
    if outcome is Err {
        assert(line[51] == line.subrange(42, 52)[9]);
        assert(t[9] == t.skip(9)[0]);
    }
}

/// The line for a resolver begins with its name and ends with its IPv6 addresses; its provider and its
/// IPv4 addresses stand in between.
pub proof fn law_resolver_lines_list_both_families(res: Resolver)
    requires
        res.name@.len() <= 24,
        res.provider@.len() <= 14,
    ensures
        ({
            let line = resolver_line(res);
            &&& res.name@.is_prefix_of(line)
            &&& line.subrange(25, 25 + res.provider@.len() as int) == res.provider@
            &&& res.ipv4@.len() == 1 ==> line.subrange(40, 40 + res.ipv4@[0].text@.len() as int) == res.ipv4@[0].text@
            &&& res.ipv6@.len() == 1 ==> res.ipv6@[0].text@.is_suffix_of(line)
            &&& line.subrange(40, 40 + addr_list(res.ipv4@).len() as int) == addr_list(res.ipv4@)
            &&& addr_list(res.ipv6@).is_suffix_of(line)
        }),
{
    law_list_lines_hold_columns(res.name@, res.provider@, addr_list(res.ipv4@), addr_list(res.ipv6@));
    if res.ipv4@.len() == 1 {
        assert(res.ipv4@ =~= seq![res.ipv4@[0]]);
        law_addresses_are_listed(res.ipv4@, res.ipv4@, res.ipv4@[0]);
    }
    if res.ipv6@.len() == 1 {
        assert(res.ipv6@ =~= seq![res.ipv6@[0]]);
        law_addresses_are_listed(res.ipv6@, res.ipv6@, res.ipv6@[0]);
    }
}

} // verus!
