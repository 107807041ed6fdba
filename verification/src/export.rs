//! Benchmark results as comma-separated values.

use std::path::Path;

use vstd::prelude::*;
use vstd::string::StringExecFns;

use crate::bench::EndpointReport;
use crate::stats::Summary;
use crate::text::{chars_of, dec, decimal, join, joined, lower, lowered, same, string_of, text_of, texts};

verus! {

broadcast use vstd::string::group_string_axioms;

/// The format of an export.
#[derive(Clone, Copy, Debug, PartialEq, Eq, Structural)]
pub enum ExportFormat {
    Csv,
    Json,
}

// --- the format that a path asks for ---

/// The place behind the last `c` of `s`, or 0.
pub open spec fn behind_last(s: Seq<char>, c: char) -> nat
    decreases s.len(),
{
    if s.len() == 0 {
        0
    } else if s.last() == c {
        s.len()
    } else {
        behind_last(s.drop_last(), c)
    }
}

/// The last component of a path whose only separator is the slash, disregarding slashes and
/// single dots at its end; empty where there is none.
pub open spec fn last_component(s: Seq<char>) -> Seq<char>
    decreases s.len(),
{
    let k = behind_last(s, '/');
    let name = s.skip(k as int);
    if 0 < k <= s.len() && (name.len() == 0 || name == seq!['.']) {
        last_component(s.take(k - 1))
    } else if name == seq!['.'] {
        Seq::empty()
    } else {
        name
    }
}

/// What stands behind the last dot of a file name that does not begin with it.
pub open spec fn name_extension(name: Seq<char>) -> Option<Seq<char>> {
    let k = behind_last(name, '.');
    if name == seq!['.', '.'] || k <= 1 {
        None
    } else {
        Some(name.skip(k as int))
    }
}

/// The path reads the same on every platform: it holds no backslash and no colon, and does not
/// begin with two slashes.
pub open spec fn plain_path(s: Seq<char>) -> bool {
    &&& !s.contains('\\')
    &&& !s.contains(':')
    &&& !(s.len() >= 2 && s[0] == '/' && s[1] == '/')
}

/// `c` separates components on some platform.
pub open spec fn separates(c: char) -> bool {
    c == '/' || c == '\\' || c == ':'
}

/// What stands behind the last dot of a path, where nothing that separates components on any
/// platform stands in it or before the dot, and the path does not begin with two of these.
pub open spec fn sure_extension(s: Seq<char>) -> Option<Seq<char>> {
    let k = behind_last(s, '.');
    if 2 <= k < s.len() && !separates(s[k - 2]) && (forall|i: int| k <= i < s.len() ==> !separates(#[trigger] s[i]))
        && !(separates(s[0]) && separates(s[1])) {
        Some(s.skip(k as int))
    } else {
        None
    }
}

/// The extension of a path, if any, where it is the same on every platform.
pub open spec fn settled_extension(s: Seq<char>) -> Option<Option<Seq<char>>> {
    if plain_path(s) {
        Some(name_extension(last_component(s)))
    } else if !s.contains('.') {
        Some(None)
    } else if sure_extension(s) is Some {
        Some(sure_extension(s))
    } else {
        None
    }
}

/// `Path::extension` of std: what follows the last dot in the last component of the path, which
/// `..` and names that have no dot but the leading one lack. What separates components besides
/// the slash is the platform's business, so nothing is said of a path that platforms read
/// differently.
#[verifier::external_body]
fn path_extension(path: &str) -> (r: Option<String>)
    ensures
        settled_extension(path@) matches Some(e) ==> text_of(r) == e,
{
    Path::new(path).extension().and_then(|e| e.to_str()).map(|e| e.to_owned())
}

/// The format that an extension names, whatever the case of its letters.
pub open spec fn format_of(extension: Option<Seq<char>>) -> Option<ExportFormat> {
    match extension {
        Some(e) => if lower(e) == "csv"@ {
            Some(ExportFormat::Csv)
        } else if lower(e) == "json"@ {
            Some(ExportFormat::Json)
        } else {
            None
        },
        None => None,
    }
}

/// The format that a path asks for, if any, where it is the same on every platform.
pub open spec fn settled_format(path: Seq<char>) -> Option<Option<ExportFormat>> {
    match settled_extension(path) {
        Some(e) => Some(format_of(e)),
        None => None,
    }
}

impl ExportFormat {
    /// The format that an extension names.
    pub fn from_extension(extension: &Option<String>) -> (r: Option<ExportFormat>)
        ensures
            r == format_of(text_of(*extension)),
    {
        match extension {
            Some(e) => {
                let w = string_of(&lowered(e.as_str()));
                if same(w.as_str(), "csv") {
                    Some(ExportFormat::Csv)
                } else if same(w.as_str(), "json") {
                    Some(ExportFormat::Json)
                } else {
                    None
                }
            },
            None => None,
        }
    }

    /// The format that the extension of a path names.
    ///
    /// Of a path that platforms read differently nothing is said: its extension, as this platform
    /// reads it, decides.
    pub fn from_path(path: &str) -> (r: Option<ExportFormat>)
        ensures
            settled_format(path@) matches Some(f) ==> r == f,
    {
        ExportFormat::from_extension(&path_extension(path))
    }
}

// --- fields ---

/// The text has to be quoted to stand in a field.
pub open spec fn needs_quotes(s: Seq<char>) -> bool {
    s.contains(',') || s.contains('"') || s.contains('\n')
}

/// The text with every quote doubled.
pub open spec fn doubled(s: Seq<char>) -> Seq<char>
    decreases s.len(),
{
    if s.len() == 0 {
        s
    } else if s.last() == '"' {
        doubled(s.drop_last()).push('"').push('"')
    } else {
        doubled(s.drop_last()).push(s.last())
    }
}

/// The text as a field.
pub open spec fn csv_field(s: Seq<char>) -> Seq<char> {
    if needs_quotes(s) {
        seq!['"'] + doubled(s) + seq!['"']
    } else {
        s
    }
}

/// Quote a text where a comma, a quote or a line break in it asks for that.
pub fn csv_escape(s: &str) -> (r: String)
    ensures
        r@ == csv_field(s@),
{
    let v = chars_of(s);
    let n: usize = v.len();
    let mut quotes: bool = false;
    let mut i: usize = 0;
    while i < n
        invariant
            i <= n == v.len(),
            quotes == needs_quotes(v@.take(i as int)),
        decreases n - i,
    {
        let c = v[i];
        proof {
            lemma_needs_quotes_push(v@.take(i as int), c);
            assert(v@.take(i + 1) =~= v@.take(i as int).push(c));
        }
        if c == ',' || c == '"' || c == '\n' {
            quotes = true;
        }
        i = i + 1;
    }
    assert(v@.take(n as int) =~= s@);
    if !quotes {
        return s.to_owned();
    }
    let mut r: Vec<char> = Vec::new();
    r.push('"');
    let mut k: usize = 0;
    while k < n
        invariant
            k <= n == v.len(),
            r@ == seq!['"'] + doubled(v@.take(k as int)),
        decreases n - k,
    {
        let c = v[k];
        assert(v@.take(k + 1).drop_last() =~= v@.take(k as int));
        r.push(c);
        if c == '"' {
            r.push('"');
        }
        assert(r@ =~= seq!['"'] + doubled(v@.take(k + 1)));
        k = k + 1;
    }
    r.push('"');
    assert(r@ =~= csv_field(s@));
    string_of(&r)
}

proof fn lemma_needs_quotes_push(s: Seq<char>, c: char)
    ensures
        needs_quotes(s.push(c)) == (needs_quotes(s) || c == ',' || c == '"' || c == '\n'),
{
    let t = s.push(c);
    assert(t[s.len() as int] == c);
    assert forall|x: char| #[trigger] t.contains(x) == (s.contains(x) || c == x) by {
        if s.contains(x) {
            let k = choose|k: int| 0 <= k < s.len() && s[k] == x;
            assert(t[k] == x);
        }
        if t.contains(x) && x != c {
            let k = choose|k: int| 0 <= k < t.len() && t[k] == x;
            assert(s[k] == x);
        }
    }
}

/// What follows the opening quote of a field: the text up to the closing quote, and what is left
/// behind that.
pub open spec fn read_quoted(s: Seq<char>) -> (Seq<char>, Seq<char>)
    decreases s.len(),
{
    if s.len() == 0 {
        (s, s)
    } else if s[0] != '"' {
        let (text, left) = read_quoted(s.skip(1));
        (seq![s[0]] + text, left)
    } else if s.len() > 1 && s[1] == '"' {
        let (text, left) = read_quoted(s.skip(2));
        (seq!['"'] + text, left)
    } else {
        (Seq::empty(), s.skip(1))
    }
}

/// A field without quotes: the text up to a comma or the end of the line, and what is left from
/// there on.
pub open spec fn read_bare(s: Seq<char>) -> (Seq<char>, Seq<char>)
    decreases s.len(),
{
    if s.len() == 0 || s[0] == ',' || s[0] == '\n' {
        (Seq::empty(), s)
    } else {
        let (text, left) = read_bare(s.skip(1));
        (seq![s[0]] + text, left)
    }
}

/// The first field, and what is left behind it.
pub open spec fn read_field(s: Seq<char>) -> (Seq<char>, Seq<char>) {
    if s.len() > 0 && s[0] == '"' {
        read_quoted(s.skip(1))
    } else {
        read_bare(s)
    }
}

/// The fields of the first row, and what is left behind the end of its line.
pub open spec fn read_row(s: Seq<char>) -> (Seq<Seq<char>>, Seq<char>)
    decreases s.len(),
{
    let (text, left) = read_field(s);
    if 0 < left.len() <= s.len() && left[0] == ',' {
        let (others, end) = read_row(left.skip(1));
        (seq![text] + others, end)
    } else if left.len() > 0 {
        (seq![text], left.skip(1))
    } else {
        (seq![text], left)
    }
}

/// The fields of all rows.
pub open spec fn read_rows(s: Seq<char>) -> Seq<Seq<Seq<char>>>
    decreases s.len(),
{
    if s.len() == 0 {
        Seq::empty()
    } else {
        let (row, left) = read_row(s);
        if left.len() < s.len() {
            seq![row] + read_rows(left)
        } else {
            seq![row]
        }
    }
}

/// The texts as the fields of a row.
pub open spec fn csv_row(fields: Seq<Seq<char>>) -> Seq<char> {
    joined(fields.map_values(|f: Seq<char>| csv_field(f)), ","@)
}

/// The rows, each on a line of its own.
pub open spec fn csv_rows(rows: Seq<Seq<Seq<char>>>) -> Seq<char>
    decreases rows.len(),
{
    if rows.len() == 0 {
        Seq::empty()
    } else {
        csv_rows(rows.drop_last()) + csv_row(rows.last()) + "\n"@
    }
}

/// What may follow a field: nothing, or something that begins with a comma or an end of line.
spec fn ends_field(left: Seq<char>) -> bool {
    left.len() == 0 || left[0] == ',' || left[0] == '\n'
}

proof fn lemma_doubled_split(s: Seq<char>)
    requires
        s.len() > 0,
    ensures
        doubled(s) == (if s[0] == '"' {
            seq!['"', '"']
        } else {
            seq![s[0]]
        }) + doubled(s.skip(1)),
    decreases s.len(),
{
    let head = if s[0] == '"' {
        seq!['"', '"']
    } else {
        seq![s[0]]
    };
    if s.len() == 1 {
        assert(s.skip(1) =~= Seq::empty());
        assert(s.drop_last() =~= Seq::empty());
        assert(doubled(s) =~= head + doubled(s.skip(1)));
    } else {
        lemma_doubled_split(s.drop_last());
        assert(s.drop_last().skip(1) =~= s.skip(1).drop_last());
        assert(s.skip(1).last() == s.last());
        assert(doubled(s) =~= head + doubled(s.skip(1)));
    }
}

proof fn lemma_read_quoted(s: Seq<char>, left: Seq<char>)
    requires
        ends_field(left),
    ensures
        read_quoted(doubled(s) + seq!['"'] + left) == (s, left),
    decreases s.len(),
{
    let all = doubled(s) + seq!['"'] + left;
    if s.len() == 0 {
        assert(all =~= seq!['"'] + left);
        assert(all.skip(1) =~= left);
        assert(read_quoted(all).0 =~= s);
    } else {
        lemma_doubled_split(s);
        lemma_read_quoted(s.skip(1), left);
        let next = doubled(s.skip(1)) + seq!['"'] + left;
        if s[0] == '"' {
            assert(all =~= seq!['"', '"'] + next);
            assert(all.skip(2) =~= next);
        } else {
            assert(all =~= seq![s[0]] + next);
            assert(all.skip(1) =~= next);
        }
        assert(seq![s[0]] + s.skip(1) =~= s);
    }
}

proof fn lemma_read_bare(s: Seq<char>, left: Seq<char>)
    requires
        !s.contains(','),
        !s.contains('\n'),
        ends_field(left),
    ensures
        read_bare(s + left) == (s, left),
    decreases s.len(),
{
    let all = s + left;
    if s.len() == 0 {
        assert(all =~= left);
        assert(read_bare(all).0 =~= s);
    } else {
        assert(s.contains(s[0]));
        assert forall|c: char| s.skip(1).contains(c) implies s.contains(c) by {
            let k = choose|k: int| 0 <= k < s.skip(1).len() && s.skip(1)[k] == c;
            assert(s[k + 1] == c);
        }
        lemma_read_bare(s.skip(1), left);
        assert(all.skip(1) =~= s.skip(1) + left);
        assert(seq![s[0]] + s.skip(1) =~= s);
    }
}

proof fn lemma_read_field(s: Seq<char>, left: Seq<char>)
    requires
        ends_field(left),
    ensures
        read_field(csv_field(s) + left) == (s, left),
{
    let all = csv_field(s) + left;
    if needs_quotes(s) {
        lemma_read_quoted(s, left);
        assert(all.skip(1) =~= doubled(s) + seq!['"'] + left);
    } else {
        if s.len() > 0 {
            assert(s.contains(s[0]));
        }
        lemma_read_bare(s, left);
    }
}

proof fn lemma_joined_split(v: Seq<Seq<char>>, sep: Seq<char>)
    requires
        v.len() > 1,
    ensures
        joined(v, sep) == v[0] + sep + joined(v.skip(1), sep),
    decreases v.len(),
{
    if v.len() == 2 {
        assert(v.skip(1) =~= seq![v[1]]);
        assert(v.drop_last() =~= seq![v[0]]);
        assert(joined(seq![v[0]], sep) == v[0]);
        assert(joined(seq![v[1]], sep) == v[1]);
        assert(joined(v, sep) =~= v[0] + sep + joined(v.skip(1), sep));
    } else {
        lemma_joined_split(v.drop_last(), sep);
        assert(v.drop_last().skip(1) =~= v.skip(1).drop_last());
        assert(joined(v.skip(1), sep) == joined(v.skip(1).drop_last(), sep) + sep + v.last());
        assert(joined(v, sep) =~= v[0] + sep + joined(v.skip(1), sep));
    }
}

proof fn lemma_read_row(fields: Seq<Seq<char>>, left: Seq<char>)
    requires
        fields.len() > 0,
        left.len() > 0 ==> left[0] == '\n',
    ensures
        read_row(csv_row(fields) + left) == (fields, if left.len() > 0 {
            left.skip(1)
        } else {
            left
        }),
    decreases fields.len(),
{
    reveal_strlit(",");
    let written = fields.map_values(|f: Seq<char>| csv_field(f));
    let all = csv_row(fields) + left;
    if fields.len() == 1 {
        lemma_read_field(fields[0], left);
        assert(csv_row(fields) =~= csv_field(fields[0]));
        assert(read_row(all).0 =~= fields);
    } else {
        let others = fields.skip(1);
        lemma_read_row(others, left);
        lemma_joined_split(written, ","@);
        assert(written.skip(1) =~= others.map_values(|f: Seq<char>| csv_field(f)));
        assert(","@ =~= seq![',']);
        let rest = csv_row(others) + left;
        let behind = seq![','] + rest;
        assert(all =~= csv_field(fields[0]) + behind);
        lemma_read_field(fields[0], behind);
        assert(behind.skip(1) =~= rest);
        assert(read_row(all).0 =~= fields);
    }
}

/// Reading a row gives back the texts that were written to it, whatever they hold.
pub proof fn law_row_read_back(fields: Seq<Seq<char>>)
    requires
        fields.len() > 0,
    ensures
        read_row(csv_row(fields)) == (fields, Seq::<char>::empty()),
{
    lemma_read_row(fields, Seq::empty());
    assert(csv_row(fields) + Seq::<char>::empty() =~= csv_row(fields));
}

proof fn lemma_rows_split(rows: Seq<Seq<Seq<char>>>)
    requires
        rows.len() > 0,
    ensures
        csv_rows(rows) == csv_row(rows[0]) + "\n"@ + csv_rows(rows.skip(1)),
    decreases rows.len(),
{
    if rows.len() == 1 {
        assert(rows.drop_last() =~= Seq::empty());
        assert(rows.skip(1) =~= Seq::empty());
        assert(csv_rows(rows) =~= csv_row(rows[0]) + "\n"@ + csv_rows(rows.skip(1)));
    } else {
        lemma_rows_split(rows.drop_last());
        assert(rows.drop_last().skip(1) =~= rows.skip(1).drop_last());
        assert(csv_rows(rows) =~= csv_row(rows[0]) + "\n"@ + csv_rows(rows.skip(1)));
    }
}

/// Reading a text of rows gives back all that was written to it, whatever the fields hold.
pub proof fn law_rows_read_back(rows: Seq<Seq<Seq<char>>>)
    requires
        forall|i: int| 0 <= i < rows.len() ==> (#[trigger] rows[i]).len() > 0,
    ensures
        read_rows(csv_rows(rows)) == rows,
    decreases rows.len(),
{
    if rows.len() == 0 {
        assert(rows =~= Seq::empty());
    } else {
        reveal_strlit("\n");
        lemma_rows_split(rows);
        let others = rows.skip(1);
        assert forall|i: int| 0 <= i < others.len() implies (#[trigger] others[i]).len() > 0 by {
            assert(others[i] == rows[i + 1]);
        }
        law_rows_read_back(others);
        let left = "\n"@ + csv_rows(others);
        lemma_read_row(rows[0], left);
        assert(csv_rows(rows) =~= csv_row(rows[0]) + left);
        assert(left.skip(1) =~= csv_rows(others));
        assert(seq![rows[0]] + others =~= rows);
    }
}

// --- rows ---

/// The figures of a summary that are not whole numbers, as text: the reliability, and the times
/// in milliseconds.
pub struct Figures {
    pub reliability: String,
    pub min: String,
    pub p50: String,
    pub p95: String,
    pub p99: String,
    pub max: String,
    pub mean: String,
    pub stddev: String,
}

/// The ten fields of a class: its figures, or nothing where there is no data.
pub open spec fn class_fields(s: Option<Summary>, f: Figures) -> Seq<Seq<char>> {
    match s {
        Some(s) => seq![
            dec(s.successes as nat),
            dec(s.total as nat),
            f.reliability@,
            f.min@,
            f.p50@,
            f.p95@,
            f.p99@,
            f.max@,
            f.mean@,
            f.stddev@,
        ],
        None => Seq::new(10, |i: int| Seq::<char>::empty()),
    }
}

/// The fields of the row for an endpoint.
pub open spec fn report_fields(e: EndpointReport, cached: Figures, uncached: Figures) -> Seq<Seq<char>> {
    seq![e.resolver@, e.provider@, e.addr_display@] + class_fields(e.cached, cached) + class_fields(e.uncached, uncached)
}

/// The names of the columns.
pub open spec fn column_names() -> Seq<Seq<char>> {
    seq![
        "resolver"@,
        "provider"@,
        "addr"@,
        "c_count"@,
        "c_total"@,
        "c_rel"@,
        "c_min_ms"@,
        "c_p50_ms"@,
        "c_p95_ms"@,
        "c_p99_ms"@,
        "c_max_ms"@,
        "c_mean_ms"@,
        "c_stddev_ms"@,
        "u_count"@,
        "u_total"@,
        "u_rel"@,
        "u_min_ms"@,
        "u_p50_ms"@,
        "u_p95_ms"@,
        "u_p99_ms"@,
        "u_max_ms"@,
        "u_mean_ms"@,
        "u_stddev_ms"@,
    ]
}

/// All rows of an export: the names of the columns, then the fields for each endpoint.
pub open spec fn export_rows(reports: Seq<EndpointReport>, figures: Seq<(Figures, Figures)>) -> Seq<Seq<Seq<char>>> {
    seq![column_names()] + Seq::new(
        reports.len(),
        |i: int| report_fields(reports[i], figures[i].0, figures[i].1),
    )
}

fn push_class(fields: &mut Vec<String>, s: &Option<Summary>, f: &Figures)
    ensures
        texts(final(fields)@) == texts(old(fields)@) + class_fields(*s, *f),
{
    let ghost start = fields@;
    match s {
        Some(s) => {
            fields.push(decimal(s.successes as u128));
            fields.push(decimal(s.total as u128));
            fields.push(f.reliability.clone());
            fields.push(f.min.clone());
            fields.push(f.p50.clone());
            fields.push(f.p95.clone());
            fields.push(f.p99.clone());
            fields.push(f.max.clone());
            fields.push(f.mean.clone());
            fields.push(f.stddev.clone());
        },
        None => {
            let mut i: usize = 0;
            assert(texts(start) + Seq::new(0nat, |j: int| Seq::<char>::empty()) =~= texts(start));
            while i < 10
                invariant
                    i <= 10,
                    texts(fields@) == texts(start) + Seq::new(i as nat, |j: int| Seq::<char>::empty()),
                decreases 10 - i,
            {
                let ghost before = fields@;
                fields.push(String::new());
                assert(texts(fields@) =~= texts(before).push(Seq::<char>::empty()));
                assert(texts(fields@) =~= texts(start) + Seq::new((i + 1) as nat, |j: int| Seq::<char>::empty()));
                i = i + 1;
            }
        },
    }
    assert(texts(fields@) =~= texts(start) + class_fields(*s, *f));
}

/// The texts as a row.
pub fn row_of(fields: &Vec<String>) -> (r: String)
    ensures
        r@ == csv_row(texts(fields@)),
{
    let mut written: Vec<String> = Vec::new();
    let n: usize = fields.len();
    let mut i: usize = 0;
    while i < n
        invariant
            i <= n == fields.len(),
            written.len() == i,
            forall|k: int| 0 <= k < i ==> (#[trigger] written@[k])@ == csv_field(fields@[k]@),
        decreases n - i,
    {
        written.push(csv_escape(fields[i].as_str()));
        i = i + 1;
    }
    assert(texts(written@) =~= texts(fields@).map_values(|f: Seq<char>| csv_field(f)));
    join(&written, ",")
}

/// The row for an endpoint.
pub fn report_row(e: &EndpointReport, cached: &Figures, uncached: &Figures) -> (r: String)
    ensures
        r@ == csv_row(report_fields(*e, *cached, *uncached)),
{
    let mut fields: Vec<String> = Vec::new();
    fields.push(e.resolver.clone());
    fields.push(e.provider.clone());
    fields.push(e.addr_display.clone());
    assert(texts(fields@) =~= seq![e.resolver@, e.provider@, e.addr_display@]);
    push_class(&mut fields, &e.cached, cached);
    push_class(&mut fields, &e.uncached, uncached);
    row_of(&fields)
}

/// The whole export: the names of the columns, then a row per endpoint.
pub fn csv_text(reports: &[EndpointReport], figures: &Vec<(Figures, Figures)>) -> (r: String)
    requires
        figures@.len() == reports@.len(),
    ensures
        r@ == csv_rows(export_rows(reports@, figures@)),
{
    let mut names: Vec<String> = Vec::new();
    names.push("resolver".to_owned());
    names.push("provider".to_owned());
    names.push("addr".to_owned());
    names.push("c_count".to_owned());
    names.push("c_total".to_owned());
    names.push("c_rel".to_owned());
    names.push("c_min_ms".to_owned());
    names.push("c_p50_ms".to_owned());
    names.push("c_p95_ms".to_owned());
    names.push("c_p99_ms".to_owned());
    names.push("c_max_ms".to_owned());
    names.push("c_mean_ms".to_owned());
    names.push("c_stddev_ms".to_owned());
    names.push("u_count".to_owned());
    names.push("u_total".to_owned());
    names.push("u_rel".to_owned());
    names.push("u_min_ms".to_owned());
    names.push("u_p50_ms".to_owned());
    names.push("u_p95_ms".to_owned());
    names.push("u_p99_ms".to_owned());
    names.push("u_max_ms".to_owned());
    names.push("u_mean_ms".to_owned());
    names.push("u_stddev_ms".to_owned());
    assert(texts(names@) =~= column_names());
    let mut r = row_of(&names);
    r.append("\n");
    let ghost rows = export_rows(reports@, figures@);
    let n: usize = reports.len();
    let mut i: usize = 0;
    proof {
        assert(rows.take(1) =~= seq![column_names()]);
        assert(rows.take(1).drop_last() =~= Seq::empty());
        assert(csv_rows(rows.take(1).drop_last()) == Seq::<char>::empty());
        assert(rows.take(1).last() == column_names());
        assert(r@ =~= csv_rows(rows.take(1)));
    }
    while i < n
        invariant
            i <= n == reports@.len(),
            figures@.len() == n,
            rows == export_rows(reports@, figures@),
            r@ == csv_rows(rows.take(i + 1)),
        decreases n - i,
    {
        let row = report_row(&reports[i], &figures[i].0, &figures[i].1);
        r.append(row.as_str());
        r.append("\n");
        assert(rows.take(i + 2).drop_last() =~= rows.take(i + 1));
        assert(rows.take(i + 2).last() == rows[i + 1]);
        i = i + 1;
    }
    assert(rows.take(n + 1) =~= rows);
    r
}

/// Every row of an export has a field for each of the 23 columns, and the whole text reads back as
/// the rows that were written.
pub proof fn law_export_reads_back(reports: Seq<EndpointReport>, figures: Seq<(Figures, Figures)>)
    ensures
        read_rows(csv_rows(export_rows(reports, figures))) == export_rows(reports, figures),
        export_rows(reports, figures).len() == reports.len() + 1,
        forall|i: int|
            0 <= i < export_rows(reports, figures).len() ==> (#[trigger] export_rows(reports, figures)[i]).len() == 23,
{
    law_rows_read_back(export_rows(reports, figures));
}

/// Read back, every row of an export holds under each column what the column is named after: the
/// resolver, the provider and the address; under the `c_` columns the counts and the figures of the
/// cached class, under the `u_` columns those of the uncached class; and nothing under the columns of a
/// class without data.
pub proof fn law_columns_hold_what_they_name(
    reports: Seq<EndpointReport>,
    figures: Seq<(Figures, Figures)>,
    i: int,
)
    requires
        0 <= i < reports.len(),
        figures.len() == reports.len(),
    ensures
        ({
            let rows = read_rows(csv_rows(export_rows(reports, figures)));
            let row = rows[i + 1];
            let e = reports[i];
            let c = figures[i].0;
            let u = figures[i].1;
            &&& rows.len() == reports.len() + 1 && row.len() == 23 && rows[0].len() == 23
            &&& rows[0][0] == "resolver"@ && row[0] == e.resolver@
            &&& rows[0][1] == "provider"@ && row[1] == e.provider@
            &&& rows[0][2] == "addr"@ && row[2] == e.addr_display@
            &&& rows[0][3] == "c_count"@ && rows[0][4] == "c_total"@
            &&& e.cached is Some ==> row[3] == dec(e.cached->0.successes as nat) && row[4] == dec(
                e.cached->0.total as nat,
            )
            &&& rows[0][5] == "c_rel"@ && (e.cached is Some ==> row[5] == c.reliability@)
            &&& rows[0][6] == "c_min_ms"@ && (e.cached is Some ==> row[6] == c.min@)
            &&& rows[0][7] == "c_p50_ms"@ && (e.cached is Some ==> row[7] == c.p50@)
            &&& rows[0][8] == "c_p95_ms"@ && (e.cached is Some ==> row[8] == c.p95@)
            &&& rows[0][9] == "c_p99_ms"@ && (e.cached is Some ==> row[9] == c.p99@)
            &&& rows[0][10] == "c_max_ms"@ && (e.cached is Some ==> row[10] == c.max@)
            &&& rows[0][11] == "c_mean_ms"@ && (e.cached is Some ==> row[11] == c.mean@)
            &&& rows[0][12] == "c_stddev_ms"@ && (e.cached is Some ==> row[12] == c.stddev@)
            &&& e.cached is None ==> forall|j: int| 3 <= j < 13 ==> (#[trigger] row[j]).len() == 0
            &&& rows[0][13] == "u_count"@ && rows[0][14] == "u_total"@
            &&& e.uncached is Some ==> row[13] == dec(e.uncached->0.successes as nat) && row[14] == dec(
                e.uncached->0.total as nat,
            )
            &&& rows[0][15] == "u_rel"@ && (e.uncached is Some ==> row[15] == u.reliability@)
            &&& rows[0][16] == "u_min_ms"@ && (e.uncached is Some ==> row[16] == u.min@)
            &&& rows[0][17] == "u_p50_ms"@ && (e.uncached is Some ==> row[17] == u.p50@)
            &&& rows[0][18] == "u_p95_ms"@ && (e.uncached is Some ==> row[18] == u.p95@)
            &&& rows[0][19] == "u_p99_ms"@ && (e.uncached is Some ==> row[19] == u.p99@)
            &&& rows[0][20] == "u_max_ms"@ && (e.uncached is Some ==> row[20] == u.max@)
            &&& rows[0][21] == "u_mean_ms"@ && (e.uncached is Some ==> row[21] == u.mean@)
            &&& rows[0][22] == "u_stddev_ms"@ && (e.uncached is Some ==> row[22] == u.stddev@)
            &&& e.uncached is None ==> forall|j: int| 13 <= j < 23 ==> (#[trigger] row[j]).len() == 0
        }),
{
    law_export_reads_back(reports, figures);
}

/// A path asks for the format that its extension names: the letters behind the last dot of the name,
/// in upper or lower case, whatever the directories before it are called.
pub proof fn law_extension_names_format(dir: Seq<char>, stem: Seq<char>, ext: Seq<char>)
    requires
        stem.len() > 0,
        forall|i: int| 0 <= i < stem.len() ==> #[trigger] stem[i] != '/' && stem[i] != '\\' && stem[i] != ':',
        forall|i: int|
            0 <= i < ext.len() ==> #[trigger] ext[i] != '/' && ext[i] != '\\' && ext[i] != ':' && ext[i] != '.',
        ext.len() > 0,
        dir.len() > 0 ==> dir.last() == '/' || dir.last() == '\\',
        !(dir.len() >= 2 && separates(dir[0]) && separates(dir[1])),
        dir.contains('\\') || dir.contains(':') || dir.len() == 0,
    ensures
        ({
            let path = dir + stem + seq!['.'] + ext;
            &&& lower(ext) == "csv"@ ==> settled_format(path) == Some(Some(ExportFormat::Csv))
            &&& lower(ext) == "json"@ ==> settled_format(path) == Some(Some(ExportFormat::Json))
            &&& lower(ext) != "csv"@ && lower(ext) != "json"@ ==> settled_format(path) == Some(None::<ExportFormat>)
        }),
{
    let path = dir + stem + seq!['.'] + ext;
    reveal_strlit("csv");
    reveal_strlit("json");
    assert("csv"@[0] != "json"@[0]);
    lemma_sure_extension(dir, stem, ext);
    if dir.len() == 0 {
        let name = stem + seq!['.'] + ext;
        assert(path =~= name);
        if plain_path(path) {
            lemma_bare_name(stem, ext);
        }
    } else {
        let c = if dir.contains('\\') {
            '\\'
        } else {
            ':'
        };
        let i = choose|i: int| 0 <= i < dir.len() && dir[i] == c;
        assert(path[i] == c);
        assert(!plain_path(path));
    }
    assert(settled_extension(path) == Some(Some(ext)));
}

proof fn lemma_sure_extension(dir: Seq<char>, stem: Seq<char>, ext: Seq<char>)
    requires
        stem.len() > 0,
        forall|i: int| 0 <= i < stem.len() ==> #[trigger] stem[i] != '/' && stem[i] != '\\' && stem[i] != ':',
        forall|i: int|
            0 <= i < ext.len() ==> #[trigger] ext[i] != '/' && ext[i] != '\\' && ext[i] != ':' && ext[i] != '.',
        ext.len() > 0,
        !(dir.len() >= 2 && separates(dir[0]) && separates(dir[1])),
    ensures
        sure_extension(dir + stem + seq!['.'] + ext) == Some(ext),
        (dir + stem + seq!['.'] + ext).contains('.'),
{
    let head = dir + stem + seq!['.'];
    let path = head + ext;
    lemma_behind_last(head, ext, '.');
    let k = head.len() as int;
    assert(path.skip(k) =~= ext);
    assert(path[k - 1] == '.');
    assert(path[k - 2] == stem.last());
    assert forall|i: int| k <= i < path.len() implies !separates(#[trigger] path[i]) by {
        assert(path[i] == ext[i - k]);
    }
    if dir.len() == 0 {
        assert(path[0] == stem[0]);
    } else {
        assert(path[0] == dir[0]);
        if dir.len() >= 2 {
            assert(path[1] == dir[1]);
        } else {
            assert(path[1] == stem[0]);
        }
    }
}

proof fn lemma_bare_name(stem: Seq<char>, ext: Seq<char>)
    requires
        stem.len() > 0,
        forall|i: int| 0 <= i < stem.len() ==> #[trigger] stem[i] != '/',
        forall|i: int| 0 <= i < ext.len() ==> #[trigger] ext[i] != '/' && ext[i] != '.',
        ext.len() > 0,
    ensures
        last_component(stem + seq!['.'] + ext) == stem + seq!['.'] + ext,
        name_extension(stem + seq!['.'] + ext) == Some(ext),
{
    let head = stem + seq!['.'];
    let name = head + ext;
    let none = Seq::<char>::empty();
    assert forall|i: int| 0 <= i < name.len() implies #[trigger] name[i] != '/' by {
        if i < stem.len() {
            assert(name[i] == stem[i]);
        } else if i > stem.len() {
            assert(name[i] == ext[i - head.len()]);
        }
    }
    lemma_behind_last(none, name, '/');
    assert(none + name =~= name);
    assert(name.skip(0) =~= name);
    assert(name.len() >= 3);
    lemma_behind_last(head, ext, '.');
    assert(name.skip(head.len() as int) =~= ext);
}

/// The same of a path whose directories are parted by slashes alone.
pub proof fn law_extension_names_format_behind_slashes(dir: Seq<char>, stem: Seq<char>, ext: Seq<char>)
    requires
        stem.len() > 0,
        forall|i: int| 0 <= i < stem.len() ==> #[trigger] stem[i] != '/' && stem[i] != '\\' && stem[i] != ':',
        forall|i: int|
            0 <= i < ext.len() ==> #[trigger] ext[i] != '/' && ext[i] != '\\' && ext[i] != ':' && ext[i] != '.',
        ext.len() > 0,
        dir.len() > 0,
        dir.last() == '/',
        !(dir.len() >= 2 && dir[0] == '/' && dir[1] == '/'),
        !dir.contains('\\') && !dir.contains(':'),
    ensures
        ({
            let path = dir + stem + seq!['.'] + ext;
            &&& lower(ext) == "csv"@ ==> settled_format(path) == Some(Some(ExportFormat::Csv))
            &&& lower(ext) == "json"@ ==> settled_format(path) == Some(Some(ExportFormat::Json))
            &&& lower(ext) != "csv"@ && lower(ext) != "json"@ ==> settled_format(path) == Some(None::<ExportFormat>)
        }),
{
    let path = dir + stem + seq!['.'] + ext;
    let name = stem + seq!['.'] + ext;
    reveal_strlit("csv");
    reveal_strlit("json");
    assert("csv"@[0] != "json"@[0]);
    assert(dir + name =~= path);
    assert forall|i: int| 0 <= i < name.len() implies #[trigger] name[i] != '/' && name[i] != '\\' && name[i] != ':' by {
        if i < stem.len() {
            assert(name[i] == stem[i]);
        } else if i > stem.len() {
            assert(name[i] == ext[i - stem.len() - 1]);
        }
    }
    lemma_plain_path(dir, name);
    assert(last_component(path) == name) by {
        lemma_behind_last(dir, name, '/');
        assert(path.skip(dir.len() as int) =~= name);
        assert(name.len() >= 3);
    }
    assert(name_extension(name) == Some(ext)) by {
        let head = stem + seq!['.'];
        assert(head + ext =~= name);
        lemma_behind_last(head, ext, '.');
        assert(name.skip(head.len() as int) =~= ext);
    }
    assert(settled_extension(path) == Some(Some(ext)));
}

proof fn lemma_plain_path(dir: Seq<char>, name: Seq<char>)
    requires
        dir.len() > 0,
        name.len() > 0,
        !(dir.len() >= 2 && dir[0] == '/' && dir[1] == '/'),
        !dir.contains('\\') && !dir.contains(':'),
        forall|i: int| 0 <= i < name.len() ==> #[trigger] name[i] != '/' && name[i] != '\\' && name[i] != ':',
    ensures
        plain_path(dir + name),
{
    let path = dir + name;
    if path.contains('\\') {
        let i = choose|i: int| 0 <= i < path.len() && path[i] == '\\';
        if i < dir.len() {
            assert(dir[i] == '\\');
        } else {
            assert(name[i - dir.len()] == '\\');
        }
    }
    if path.contains(':') {
        let i = choose|i: int| 0 <= i < path.len() && path[i] == ':';
        if i < dir.len() {
            assert(dir[i] == ':');
        } else {
            assert(name[i - dir.len()] == ':');
        }
    }
    assert(path[0] == dir[0]);
    if dir.len() >= 2 {
        assert(path[1] == dir[1]);
    } else {
        assert(path[1] == name[0]);
    }
}

proof fn lemma_behind_last(head: Seq<char>, tail: Seq<char>, c: char)
    requires
        head.len() > 0 ==> head.last() == c,
        forall|i: int| 0 <= i < tail.len() ==> #[trigger] tail[i] != c,
    ensures
        behind_last(head + tail, c) == head.len(),
    decreases tail.len(),
{
    let all = head + tail;
    if tail.len() == 0 {
        assert(all =~= head);
    } else {
        assert forall|i: int| 0 <= i < tail.drop_last().len() implies #[trigger] tail.drop_last()[i] != c by {
            assert(tail[i] != c);
        }
        lemma_behind_last(head, tail.drop_last(), c);
        assert(all.drop_last() =~= head + tail.drop_last());
        assert(all.last() == tail[tail.len() - 1]);
    }
}

/// A text without a comma, a quote or a line feed stands in its field as it is. Any other is put
/// between quotes, and only its own quotes change.
pub proof fn law_fields_are_quoted_only_where_needed(s: Seq<char>)
    ensures
        (forall|i: int| 0 <= i < s.len() ==> #[trigger] s[i] != ',' && s[i] != '"' && s[i] != '\n') ==> csv_field(s) == s,
        (exists|i: int| 0 <= i < s.len() && (#[trigger] s[i] == ',' || s[i] == '"' || s[i] == '\n')) ==> csv_field(s).len()
            >= s.len() + 2 && csv_field(s)[0] == '"' && csv_field(s).last() == '"',
        (forall|i: int| 0 <= i < s.len() ==> #[trigger] s[i] != '"') && !(csv_field(s) == s) ==> csv_field(s) == seq!['"'] + s
            + seq!['"'],
{
    lemma_doubled(s);
    if exists|i: int| 0 <= i < s.len() && (#[trigger] s[i] == ',' || s[i] == '"' || s[i] == '\n') {
        let i = choose|i: int| 0 <= i < s.len() && (#[trigger] s[i] == ',' || s[i] == '"' || s[i] == '\n');
        assert(s.contains(s[i]));
        assert(needs_quotes(s));
    }
}

proof fn lemma_doubled(s: Seq<char>)
    ensures
        doubled(s).len() >= s.len(),
        (forall|i: int| 0 <= i < s.len() ==> #[trigger] s[i] != '"') ==> doubled(s) == s,
    decreases s.len(),
{
    if s.len() > 0 {
        let t = s.drop_last();
        lemma_doubled(t);
        if forall|i: int| 0 <= i < s.len() ==> #[trigger] s[i] != '"' {
            assert forall|i: int| 0 <= i < t.len() implies #[trigger] t[i] != '"' by {
                assert(t[i] == s[i]);
            }
            assert(s[s.len() - 1] != '"');
            assert(t.push(s.last()) =~= s);
        }
    }
}

} // verus!
