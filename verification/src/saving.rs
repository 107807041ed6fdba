//! Exports from a session.

use vstd::prelude::*;
use vstd::string::StringExecFns;

use crate::duration::Duration;
use crate::export::{behind_last, last_component, settled_format, ExportFormat};
use crate::session::{App, AppView, Color};
use crate::text::{dec, lemma_dec_digits, lower, numbered, text_of};

verus! {

broadcast use vstd::string::group_string_axioms;

/// An export that is due.
#[derive(Clone, Debug)]
pub struct ExportJob {
    pub path: String,
    pub format: ExportFormat,
}

/// Where an export goes: to the path that is given, else to the path of the session, else to a
/// file named after the seconds on the clock.
pub open spec fn export_target(arg: Option<Seq<char>>, known: Option<Seq<char>>, secs: u64) -> Seq<char> {
    match arg {
        Some(p) => p,
        None => match known {
            Some(p) => p,
            None => "dnsresolvr-"@ + dec(secs as nat) + ".csv"@,
        },
    }
}

/// What starting an export does: nothing yet, or a complaint where the path names no format.
pub open spec fn export_begun(v: AppView, path: Seq<char>, format: Option<ExportFormat>, now: Duration) -> AppView {
    match format {
        Some(_) => v,
        None => v.says("export: path must end in .csv or .json ("@ + path + ")"@, Color::Red, now),
    }
}

/// `job` is the export to `path` in `format`, if there is a format.
pub open spec fn is_job(job: Option<ExportJob>, path: Seq<char>, format: Option<ExportFormat>) -> bool {
    match format {
        Some(f) => job matches Some(j) && j.path@ == path && j.format == f,
        None => job is None,
    }
}

/// What the end of an export does: the path is kept for the next one where it succeeded.
pub open spec fn export_ended(v: AppView, path: Seq<char>, rows: nat, outcome: Result<(), String>, now: Duration) -> AppView {
    match outcome {
        Ok(_) => AppView {
            export_path: Some(path),
            ..v.says("exported "@ + dec(rows) + " rows to "@ + path, Color::Green, now)
        },
        Err(e) => v.says("export failed: "@ + e@, Color::Red, now),
    }
}

impl App {
    /// Where an export goes.
    pub fn export_target(&self, arg: &Option<String>, secs: u64) -> (r: String)
        ensures
            r@ == export_target(text_of(*arg), self@.export_path, secs),
    {
        match arg {
            Some(p) => p.clone(),
            None => match &self.export_path {
                Some(p) => p.clone(),
                None => numbered("dnsresolvr-", secs as u128, ".csv"),
            },
        }
    }

    /// Start an export to a path whose extension names `format`.
    pub fn begin_export(&mut self, path: String, format: Option<ExportFormat>, now: Duration) -> (r: Option<ExportJob>)
        ensures
            final(self)@ == export_begun(old(self)@, path@, format, now),
            is_job(r, path@, format),
            old(self).wf() ==> final(self).wf(),
    {
        match format {
            Some(f) => Some(ExportJob { path, format: f }),
            None => {
                let mut text = "export: path must end in .csv or .json (".to_owned();
                text.append(path.as_str());
                text.append(")");
                self.set_status(text, Color::Red, now);
                None
            },
        }
    }

    /// Start the export that a command asks for; `secs` are the seconds on the clock.
    pub fn write_export(&mut self, arg: &Option<String>, secs: u64, now: Duration) -> (r: Option<ExportJob>)
        ensures
            ({
                let path = export_target(text_of(*arg), old(self)@.export_path, secs);
                &&& settled_format(path) matches Some(f) ==> final(self)@ == export_begun(old(self)@, path, f, now) && is_job(
                    r,
                    path,
                    f,
                )
                &&& exists|format: Option<ExportFormat>|
                    final(self)@ == #[trigger] export_begun(old(self)@, path, format, now) && is_job(r, path, format)
            }),
            old(self).wf() ==> final(self).wf(),
    {
        let path = self.export_target(arg, secs);
        let format = ExportFormat::from_path(path.as_str());
        let ghost before = self@;
        let ghost target = path@;
        let r = self.begin_export(path, format, now);
        assert(self@ == export_begun(before, target, format, now));
        r
    }

    /// Take note of the end of an export of `rows` rows.
    pub fn export_finished(&mut self, path: String, rows: usize, outcome: Result<(), String>, now: Duration)
        ensures
            final(self)@ == export_ended(old(self)@, path@, rows as nat, outcome, now),
            old(self).wf() ==> final(self).wf(),
    {
        match outcome {
            Ok(_) => {
                let mut text = numbered("exported ", rows as u128, " rows to ");
                text.append(path.as_str());
                self.export_path = Some(path);
                self.set_status(text, Color::Green, now);
            },
            Err(e) => {
                let mut text = "export failed: ".to_owned();
                text.append(e.as_str());
                self.set_status(text, Color::Red, now);
            },
        }
    }

    /// The export that is due at the end of the session: to its path, if there is one that names
    /// a format.
    pub fn maybe_export(&self) -> (r: Option<ExportJob>)
        ensures
            match self@.export_path {
                Some(path) => {
                    &&& settled_format(path) matches Some(f) ==> is_job(r, path, f)
                    &&& exists|format: Option<ExportFormat>| #[trigger] is_job(r, path, format)
                },
                None => r is None,
            },
    {
        match &self.export_path {
            Some(path) => {
                let format = ExportFormat::from_path(path.as_str());
                let r = match format {
                    Some(f) => Some(ExportJob { path: path.clone(), format: f }),
                    None => None,
                };
                assert(is_job(r, path@, format));
                r
            },
            None => None,
        }
    }
}

proof fn lemma_no_last(s: Seq<char>, c: char)
    requires
        forall|i: int| 0 <= i < s.len() ==> #[trigger] s[i] != c,
    ensures
        behind_last(s, c) == 0,
    decreases s.len(),
{
    if s.len() > 0 {
        lemma_no_last(s.drop_last(), c);
    }
}

/// An export without any path goes to a file of comma-separated values.
pub proof fn law_default_export_is_csv(secs: u64)
    ensures
        ({
            let path = export_target(None, None, secs);
            settled_format(path) == Some(Some(ExportFormat::Csv))
        }),
{
    let path = export_target(None, None, secs);
    let digits = dec(secs as nat);
    lemma_dec_digits(secs as nat);
    reveal_strlit("dnsresolvr-");
    reveal_strlit(".csv");
    reveal_strlit("csv");
    let head = "dnsresolvr-"@;
    let n = path.len();
    assert forall|i: int| 0 <= i < n - 4 implies #[trigger] path[i] != '.' && path[i] != '/' && path[i] != '\\' && path[i]
        != ':' by {
        if i < head.len() {
            assert(path[i] == head[i]);
        } else {
            assert(path[i] == digits[i - head.len()]);
            assert('0' <= digits[i - head.len()] && digits[i - head.len()] <= '9');
        }
    }
    assert(path[n - 4] == '.' && path[n - 3] == 'c' && path[n - 2] == 's' && path[n - 1] == 'v');
    lemma_no_last(path, '/');
    assert(path.skip(0) =~= path);
    assert(path[0] == 'd');
    assert(path.len() > 1);
    assert(last_component(path) == path);
    let a = path.drop_last();
    let b = a.drop_last();
    let c = b.drop_last();
    assert(c.last() == '.');
    assert(behind_last(c, '.') == n - 3);
    assert(behind_last(b, '.') == n - 3);
    assert(behind_last(a, '.') == n - 3);
    assert(behind_last(path, '.') == n - 3);
    assert(path.skip(n - 3) =~= "csv"@);
    assert(lower("csv"@) =~= "csv"@);
}

/// An export goes to the path that is given. Where none is, it goes to the path of the last export that
/// succeeded, or else of the session; one that failed leaves that path.
pub proof fn law_exports_go_where_asked(
    v: AppView,
    given: Seq<char>,
    path: Seq<char>,
    rows: nat,
    error: String,
    secs: u64,
    now: Duration,
)
    ensures
        export_target(Some(given), v.export_path, secs) == given,
        v.export_path matches Some(known) ==> export_target(None, v.export_path, secs) == known,
        export_target(None, export_ended(v, path, rows, Ok(()), now).export_path, secs) == path,
        export_ended(v, path, rows, Err(error), now).export_path == v.export_path,
        ({
            let done = export_ended(v, path, rows, Ok(()), now);
            let failed = export_ended(v, path, rows, Err(error), now);
            &&& done.status matches Some(s) && s.color == Color::Green && path.is_suffix_of(s.text)
            &&& failed.status matches Some(s) && s.color == Color::Red && error@.is_suffix_of(s.text)
            &&& done == (AppView { status: done.status, export_path: Some(path), ..v })
            &&& failed == (AppView { status: failed.status, ..v })
        }),
{
    let good = "exported "@ + dec(rows) + " rows to "@ + path;
    assert(path =~= good.subrange(good.len() - path.len(), good.len() as int));
    let bad = "export failed: "@ + error@;
    assert(error@ =~= bad.subrange(bad.len() - error@.len(), bad.len() as int));
}

/// An export without a format is not begun, and a message in red says so; one with a format is begun
/// without a message.
pub proof fn law_exports_need_a_format(
    v: AppView,
    job: Option<ExportJob>,
    path: Seq<char>,
    format: Option<ExportFormat>,
    now: Duration,
)
    requires
        is_job(job, path, format),
    ensures
        job is Some <==> format is Some,
        job matches Some(j) ==> j.path@ == path && Some(j.format) == format && export_begun(v, path, format, now) == v,
        job is None ==> (export_begun(v, path, format, now).status matches Some(s) && s.color == Color::Red),
{
}

} // verus!
