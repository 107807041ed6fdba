//! An interactive session: the state behind the display.

use vstd::prelude::*;

use crate::bench::{BenchConfig, BenchEvent, ConfigView, EndpointReport};
use crate::duration::Duration;
use crate::resolver::Resolver;
use crate::state::{
    accepts, all_fit, all_views, applied, apply_event, can_apply, classes_enabled, has_places,
    law_events_keep_places, recorded, reports, sort_keys, sorted_indices, total_recorded, EndpointState, EndpointView, SortKey,
};
use crate::text::text_of;

verus! {

broadcast use vstd::string::group_string_axioms;

/// The color of a message.
#[derive(Clone, Copy, Debug, PartialEq, Eq, Structural)]
pub enum Color {
    Cyan,
    Green,
    Red,
    White,
    Yellow,
}

/// A message, and when it was put up.
#[derive(Clone, Debug)]
pub struct StatusMsg {
    pub text: String,
    pub color: Color,
    pub shown_since: Duration,
}

/// What keys mean at the moment.
#[derive(Clone, Debug)]
pub enum Mode {
    Normal,
    /// A command is being typed.
    Command { input: String },
    Help,
}

/// The state behind the display. Times are counted from the start of the session.
pub struct App {
    pub resolvers: Vec<Resolver>,
    /// The configuration for the next run.
    pub cfg: BenchConfig,
    /// The configuration that the current run was started with.
    pub running: BenchConfig,
    pub endpoints: Vec<EndpointState>,
    pub sort: SortKey,
    pub started: Duration,
    pub finished: bool,
    /// The selected row.
    pub selected: Option<usize>,
    pub detail_open: bool,
    /// The endpoints in the order of the rows.
    pub last_sorted: Vec<usize>,
    pub mode: Mode,
    pub status: Option<StatusMsg>,
    pub export_path: Option<String>,
}

/// A message, as a value.
pub struct StatusView {
    pub text: Seq<char>,
    pub color: Color,
    pub since: Duration,
}

/// What keys mean, as a value.
pub enum ModeView {
    Normal,
    Command(Seq<char>),
    Help,
}

/// The state behind the display, as a value.
#[verifier::ext_equal]
pub struct AppView {
    pub resolvers: Seq<Resolver>,
    pub cfg: ConfigView,
    pub running: ConfigView,
    pub endpoints: Seq<EndpointView>,
    pub sort: SortKey,
    pub started: Duration,
    pub finished: bool,
    pub selected: Option<usize>,
    pub detail_open: bool,
    pub last_sorted: Seq<usize>,
    pub mode: ModeView,
    pub status: Option<StatusView>,
    pub export_path: Option<Seq<char>>,
}

impl View for App {
    type V = AppView;

    open spec fn view(&self) -> AppView {
        AppView {
            resolvers: self.resolvers@,
            cfg: self.cfg@,
            running: self.running@,
            endpoints: all_views(self.endpoints@),
            sort: self.sort,
            started: self.started,
            finished: self.finished,
            selected: self.selected,
            detail_open: self.detail_open,
            last_sorted: self.last_sorted@,
            mode: match self.mode {
                Mode::Normal => ModeView::Normal,
                Mode::Command { input } => ModeView::Command(input@),
                Mode::Help => ModeView::Help,
            },
            status: match self.status {
                Some(s) => Some(StatusView { text: s.text@, color: s.color, since: s.shown_since }),
                None => None,
            },
            export_path: text_of(self.export_path),
        }
    }
}

impl AppView {
    /// With a message.
    pub open spec fn says(self, text: Seq<char>, color: Color, now: Duration) -> AppView {
        AppView { status: Some(StatusView { text, color, since: now }), ..self }
    }

    /// With another configuration and a message about it.
    pub open spec fn configured(self, cfg: ConfigView, text: Seq<char>, now: Duration) -> AppView {
        AppView { cfg, ..self.says(text, Color::Cyan, now) }
    }
}

/// `v` is the state at the start of a session.
pub open spec fn is_start(
    v: AppView,
    resolvers: Seq<Resolver>,
    cfg: ConfigView,
    export_path: Option<Seq<char>>,
    now: Duration,
) -> bool {
    &&& v.resolvers == resolvers && v.cfg == cfg && v.running == cfg && v.export_path == export_path && v.started == now
    &&& v.endpoints.len() == 0 && v.last_sorted.len() == 0 && !v.finished && !v.detail_open
    &&& v.sort == SortKey::CachedP50 && v.selected == Some(0usize) && v.mode == ModeView::Normal && v.status is None
}

/// After an event of the benchmark.
pub open spec fn informed(v: AppView, ev: BenchEvent) -> AppView {
    AppView {
        endpoints: applied(v.endpoints, ev, v.running.domains.len()),
        finished: v.finished || ev is AllDone,
        ..v
    }
}

/// After taking a message down that has been up for more than four seconds.
pub open spec fn expired(v: AppView, now: Duration) -> AppView {
    match v.status {
        Some(s) => if now@ > s.since@ + 4_000_000_000 {
            AppView { status: None, ..v }
        } else {
            v
        },
        None => v,
    }
}

/// The row that is selected after moving by `delta` among `len` rows.
pub open spec fn moved(selected: Option<usize>, delta: int, len: nat) -> Option<usize> {
    if len == 0 {
        selected
    } else {
        let cur = match selected {
            Some(k) => k as int,
            None => 0,
        };
        if cur + delta < 0 {
            Some(0)
        } else if cur + delta >= len {
            Some((len - 1) as usize)
        } else {
            Some((cur + delta) as usize)
        }
    }
}

/// The selection, brought back to the last of `len` rows where it is beyond them.
pub open spec fn clamped(selected: Option<usize>, len: nat) -> Option<usize> {
    match selected {
        Some(k) => if k >= len && len > 0 {
            Some((len - 1) as usize)
        } else {
            Some(k)
        },
        None => None,
    }
}

impl AppView {
    /// After moving the selection.
    pub open spec fn with_selection_moved(self, delta: int) -> AppView {
        AppView { selected: moved(self.selected, delta, self.last_sorted.len()), ..self }
    }
}

/// The id of the endpoint in the selected row.
pub open spec fn selected_id(v: AppView) -> Option<int> {
    match v.selected {
        Some(k) => if k < v.last_sorted.len() && v.last_sorted[k as int] < v.endpoints.len() {
            Some(v.last_sorted[k as int] as int)
        } else {
            None
        },
        None => None,
    }
}

/// The probes due over all endpoints in the current run.
pub open spec fn total_due(v: AppView) -> nat {
    v.running.domains.len() * v.running.iterations as nat * classes_enabled(v.running.cached, v.running.uncached)
        * v.endpoints.len()
}

impl App {
    /// The results stay within machine arithmetic, and every endpoint has a place for those of each
    /// domain of the current run.
    pub open spec fn wf(self) -> bool {
        all_fit(self@.endpoints) && has_places(self@.endpoints, self@.running.domains.len())
    }

    /// The state at the start of a session.
    pub fn new(resolvers: Vec<Resolver>, cfg: BenchConfig, export_path: Option<String>, now: Duration) -> (r: App)
        ensures
            r.wf(),
            r@ == (AppView {
                resolvers: resolvers@,
                cfg: cfg@,
                running: cfg@,
                endpoints: Seq::empty(),
                sort: SortKey::CachedP50,
                started: now,
                finished: false,
                selected: Some(0),
                detail_open: false,
                last_sorted: Seq::empty(),
                mode: ModeView::Normal,
                status: None,
                export_path: text_of(export_path),
            }),
            is_start(r@, resolvers@, cfg@, text_of(export_path), now),
    {
        let running = cfg.duplicate();
        let r = App {
            resolvers,
            cfg,
            running,
            endpoints: Vec::new(),
            sort: SortKey::CachedP50,
            started: now,
            finished: false,
            selected: Some(0),
            detail_open: false,
            last_sorted: Vec::new(),
            mode: Mode::Normal,
            status: None,
            export_path,
        };
        assert(r@.endpoints =~= Seq::empty());
        r
    }

    /// Put up a message.
    pub fn set_status(&mut self, text: String, color: Color, now: Duration)
        ensures
            final(self)@ == old(self)@.says(text@, color, now),
    {
        self.status = Some(StatusMsg { text, color, shown_since: now });
    }

    /// Move the selection, within the rows there are.
    pub fn move_selection(&mut self, delta: i32)
        ensures
            final(self)@ == old(self)@.with_selection_moved(delta as int),
    {
        let len: usize = self.last_sorted.len();
        if len == 0 {
            return;
        }
        let cur: usize = match self.selected {
            Some(k) => k,
            None => 0,
        };
        let next: i128 = cur as i128 + delta as i128;
        let row: usize = if next < 0 {
            0
        } else if next >= len as i128 {
            len - 1
        } else {
            next as usize
        };
        self.selected = Some(row);
    }

    /// Take a message down that has been up for more than four seconds.
    pub fn expire_status(&mut self, now: Duration)
        ensures
            final(self)@ == (match old(self)@.status {
                Some(s) => if now@ > s.since@ + 4_000_000_000 {
                    (AppView { status: None, ..old(self)@ })
                } else {
                    old(self)@
                },
                None => old(self)@,
            }),
            final(self)@ == expired(old(self)@, now),
    {
        let stale = match &self.status {
            Some(s) => now.as_nanos() > s.shown_since.as_nanos() + 4_000_000_000,
            None => false,
        };
        if stale {
            self.status = None;
        }
    }

    /// Whether the results after an event stay within machine arithmetic.
    pub fn can_apply(&self, ev: &BenchEvent) -> (r: bool)
        requires
            self.wf(),
        ensures
            r == accepts(self@.endpoints, *ev, self@.running.domains.len()),
    {
        can_apply(&self.endpoints, ev, self.running.domains.len())
    }

    /// Take note of an event of the benchmark.
    pub fn apply(&mut self, ev: BenchEvent)
        requires
            old(self).wf(),
            accepts(old(self)@.endpoints, ev, old(self)@.running.domains.len()),
        ensures
            final(self).wf(),
            final(self)@ == (AppView {
                endpoints: applied(old(self)@.endpoints, ev, old(self)@.running.domains.len()),
                finished: old(self)@.finished || ev is AllDone,
                ..old(self)@
            }),
            final(self)@ == informed(old(self)@, ev),
    {
        let domains: usize = self.running.domains.len();
        proof {
            law_events_keep_places(self@.endpoints, ev, domains as nat);
        }
        match &ev {
            BenchEvent::AllDone => {
                self.finished = true;
            },
            _ => {},
        }
        apply_event(&mut self.endpoints, ev, domains);
    }

    /// Sort the rows anew.
    pub fn refresh(&mut self)
        requires
            old(self).wf(),
        ensures
            final(self).wf(),
            sort_keys(old(self)@.endpoints, old(self)@.sort).sorts(final(self)@.last_sorted),
            final(self)@ == (AppView { last_sorted: final(self)@.last_sorted, ..old(self)@ }),
    {
        self.last_sorted = sorted_indices(&self.endpoints, self.sort);
    }

    /// Keep the selection within the rows there are.
    pub fn clamp_selection(&mut self)
        ensures
            final(self)@ == (AppView {
                selected: match old(self)@.selected {
                    Some(k) => if k >= old(self)@.last_sorted.len() && old(self)@.last_sorted.len() > 0 {
                        Some((old(self)@.last_sorted.len() - 1) as usize)
                    } else {
                        Some(k)
                    },
                    None => None,
                },
                ..old(self)@
            }),
            final(self)@ == (AppView { selected: clamped(old(self)@.selected, old(self)@.last_sorted.len()), ..old(self)@ }),
    {
        let len: usize = self.last_sorted.len();
        match self.selected {
            Some(k) => {
                if k >= len && len > 0 {
                    self.selected = Some(len - 1);
                }
            },
            None => {},
        }
    }

    /// The endpoint in the selected row.
    pub fn selected_endpoint(&self) -> (r: Option<&EndpointState>)
        ensures
            match selected_id(self@) {
                Some(i) => r matches Some(e) && *e == self.endpoints@[i] && e@ == self@.endpoints[i],
                None => r is None,
            },
    {
        match self.selected {
            Some(k) => {
                if k < self.last_sorted.len() {
                    let i: usize = self.last_sorted[k];
                    if i < self.endpoints.len() {
                        return Some(&self.endpoints[i]);
                    }
                }
                None
            },
            None => None,
        }
    }

    /// The probes made over all endpoints, and the probes due; `None` where the latter is beyond
    /// machine arithmetic.
    pub fn total_progress(&self) -> (r: Option<(usize, usize)>)
        requires
            self.wf(),
        ensures
            match r {
                Some(p) => p.0 == recorded(self@.endpoints) && p.1 == total_due(self@),
                None => total_due(self@) > usize::MAX,
            },
    {
        let done: usize = total_recorded(&self.endpoints);
        let classes: usize = (if self.running.cached {
            1usize
        } else {
            0
        }) + (if self.running.uncached {
            1usize
        } else {
            0
        });
        let a: usize = self.running.domains.len();
        let b: usize = self.running.iterations;
        let d: usize = self.endpoints.len();
        let mut due: usize = 0;
        proof {
            assert(total_due(self@) == a * b * classes * d);
            if a == 0 || b == 0 || classes == 0 || d == 0 {
                assert(a * b * classes * d == 0) by (nonlinear_arith)
                    requires
                        a == 0 || b == 0 || classes == 0 || d == 0,
                ;
            } else {
                assert(a * b <= a * b * classes && a * b * classes <= a * b * classes * d && a * b >= 1) by (nonlinear_arith)
                    requires
                        a >= 1,
                        b >= 1,
                        classes >= 1,
                        d >= 1,
                ;
            }
        }
        if a != 0 && b != 0 && classes != 0 && d != 0 {
            let x: usize = match a.checked_mul(b) {
                Some(x) => x,
                None => {
                    return None;
                },
            };
            let y: usize = match x.checked_mul(classes) {
                Some(y) => y,
                None => {
                    return None;
                },
            };
            due = match y.checked_mul(d) {
                Some(z) => z,
                None => {
                    return None;
                },
            };
        }
        Some((done, due))
    }

    /// The report on every endpoint, in the order of their ids.
    pub fn reports(&self) -> (r: Vec<EndpointReport>)
        requires
            self.wf(),
        ensures
            r@.len() == self@.endpoints.len(),
            forall|i: int| 0 <= i < r@.len() ==> reports(#[trigger] r@[i], self@.endpoints[i]),
    {
        let ghost v = self@.endpoints;
        let n: usize = self.endpoints.len();
        let mut r: Vec<EndpointReport> = Vec::new();
        let mut i: usize = 0;
        while i < n
            invariant
                i <= n == self.endpoints.len(),
                v == all_views(self.endpoints@),
                all_fit(v),
                r@.len() == i,
                forall|k: int| 0 <= k < r@.len() ==> reports(#[trigger] r@[k], v[k]),
            decreases n - i,
        {
            assert(v[i as int] == self.endpoints@[i as int]@);
            assert(v[i as int].fits());
            r.push(self.endpoints[i].to_report());
            i = i + 1;
        }
        r
    }
}

/// The selection stays within the rows, and a move back undoes a move that met no end.
pub proof fn law_selection_moves_within_rows(selected: usize, delta: int, len: nat)
    requires
        selected < len <= usize::MAX,
    ensures
        moved(Some(selected), delta, len) matches Some(k) && k < len,
        0 <= selected + delta < len ==> moved(moved(Some(selected), delta, len), -delta, len) == Some(selected),
{
}

/// The probes due at each of the endpoints, in all.
pub open spec fn announced(v: Seq<EndpointView>, cached: bool, uncached: bool) -> nat
    decreases v.len(),
{
    if v.len() == 0 {
        0
    } else {
        announced(v.drop_last(), cached, uncached) + v.last().due(cached, uncached)
    }
}

proof fn lemma_announced(v: Seq<EndpointView>, cached: bool, uncached: bool, per_class: nat)
    requires
        forall|i: int| 0 <= i < v.len() ==> (#[trigger] v[i]).total_per_class == per_class,
    ensures
        announced(v, cached, uncached) == per_class * classes_enabled(cached, uncached) * v.len(),
    decreases v.len(),
{
    let each = per_class * classes_enabled(cached, uncached);
    if v.len() == 0 {
        assert(each * 0 == 0);
    } else {
        let rest = v.drop_last();
        assert forall|i: int| 0 <= i < rest.len() implies (#[trigger] rest[i]).total_per_class == per_class by {
            assert(rest[i] == v[i]);
        }
        lemma_announced(rest, cached, uncached, per_class);
        assert(each * (v.len() - 1) + each == each * v.len()) by (nonlinear_arith);
    }
}

/// Once every endpoint has been announced with the queries that the run makes of a class, what was
/// announced gives the probes due, without the domains and the iterations of the configuration.
pub proof fn law_announced_totals_give_progress(v: AppView)
    requires
        forall|i: int|
            0 <= i < v.endpoints.len() ==> (#[trigger] v.endpoints[i]).total_per_class == v.running.domains.len()
                * v.running.iterations,
    ensures
        total_due(v) == announced(v.endpoints, v.running.cached, v.running.uncached),
{
    lemma_announced(
        v.endpoints,
        v.running.cached,
        v.running.uncached,
        v.running.domains.len() * v.running.iterations as nat,
    );
}

/// A message that is put up is shown as it is, stays up for four seconds, and is gone after that;
/// nothing else of the session comes of it.
pub proof fn law_messages_stay_four_seconds(v: AppView, text: Seq<char>, color: Color, now: Duration, later: Duration)
    ensures
        ({
            let up = v.says(text, color, now);
            let after = expired(up, later);
            &&& up == (AppView { status: up.status, ..v })
            &&& up.status matches Some(s) && s.text == text && s.color == color && s.since == now
            &&& later@ <= now@ + 4_000_000_000 ==> after == up
            &&& later@ > now@ + 4_000_000_000 ==> after == (AppView { status: None, ..v })
        }),
        v.status is None ==> expired(v, later) == v,
{
}

/// The selection moves by as many rows as it is told, up to the first row or down to the last.
pub proof fn law_selection_moves_by_rows(selected: usize, delta: int, len: nat)
    requires
        selected < len <= usize::MAX,
    ensures
        0 <= selected + delta < len ==> moved(Some(selected), delta, len) == Some((selected + delta) as usize),
        selected + delta < 0 ==> moved(Some(selected), delta, len) == Some(0usize),
        selected + delta >= len ==> moved(Some(selected), delta, len) == Some((len - 1) as usize),
        moved(Some(selected), delta, 0) == Some(selected),
        moved(None, delta, len) == moved(Some(0), delta, len),
{
}

/// The probes due grow with everything there is to probe: twice as many endpoints are twice as many
/// probes, and so for domains and iterations; a class that is not run adds none.
pub proof fn law_total_due_is_a_product(v: AppView)
    ensures
        !v.running.cached && !v.running.uncached || v.endpoints.len() == 0 || v.running.domains.len() == 0
            || v.running.iterations == 0 ==> total_due(v) == 0,
        v.running.cached != v.running.uncached ==> total_due(v) == v.endpoints.len() * v.running.domains.len()
            * v.running.iterations,
        v.running.cached && v.running.uncached ==> total_due(v) == 2 * (v.endpoints.len() * v.running.domains.len()
            * v.running.iterations),
{
    let a = v.running.domains.len();
    let b = v.running.iterations as nat;
    let c = classes_enabled(v.running.cached, v.running.uncached);
    let d = v.endpoints.len();
    assert(a * b * c * d == c * (d * a * b)) by (nonlinear_arith);
    assert(c == 1 ==> c * (d * a * b) == d * a * b) by (nonlinear_arith);
    if c == 0 || d == 0 || a == 0 || b == 0 {
        assert(c * (d * a * b) == 0) by (nonlinear_arith)
            requires
                c == 0 || d == 0 || a == 0 || b == 0,
        ;
    }
}

/// Bringing the selection back leaves one that is within the rows, takes one beyond them to the last
/// row, and selects nothing where nothing was selected.
pub proof fn law_selection_is_brought_back(selected: usize, len: nat)
    requires
        0 < len <= usize::MAX,
    ensures
        selected < len ==> clamped(Some(selected), len) == Some(selected),
        selected >= len ==> clamped(Some(selected), len) == Some((len - 1) as usize),
        clamped(Some(selected), 0) == Some(selected),
        clamped(None, len) is None,
        clamped(Some(selected), len) == moved(Some(selected), 0, len),
{
}

/// The selected endpoint is the one that the selected row shows, whatever the rows are sorted by.
pub proof fn law_selected_row_gives_endpoint(v: AppView, order: Seq<usize>, row: usize)
    requires
        sort_keys(v.endpoints, v.sort).sorts(order),
        row < order.len(),
    ensures
        selected_id(AppView { last_sorted: order, selected: Some(row), ..v }) == Some(order[row as int] as int),
        selected_id(AppView { last_sorted: order, selected: None, ..v }) is None,
        forall|beyond: usize|
            beyond >= order.len() ==> #[trigger] selected_id(
                AppView { last_sorted: order, selected: Some(beyond), ..v },
            ) is None,
{
}

/// A session starts in normal mode, without results, and runs the configuration that it is given; the
/// rows are sorted by the median of the cached class.
pub proof fn law_session_starts_with_its_configuration(
    v: AppView,
    resolvers: Seq<Resolver>,
    cfg: ConfigView,
    export_path: Option<Seq<char>>,
    now: Duration,
)
    requires
        is_start(v, resolvers, cfg, export_path, now),
    ensures
        v.running == v.cfg && v.cfg == cfg && v.resolvers == resolvers,
        v.export_path == export_path && v.started == now,
        v.mode == ModeView::Normal && v.status is None && !v.detail_open && !v.finished,
        recorded(v.endpoints) == 0 && total_due(v) == 0 && selected_id(v) is None,
        v.sort == SortKey::CachedP50,
{
    law_total_due_is_a_product(v);
}

/// A run is finished by the event that says so and by no other, and stays finished; an event changes
/// the endpoints and nothing else of the session.
pub proof fn law_events_reach_the_endpoints(v: AppView, ev: BenchEvent)
    ensures
        ({
            let after = informed(v, ev);
            &&& after.finished <==> v.finished || ev is AllDone
            &&& after.endpoints == applied(v.endpoints, ev, v.running.domains.len())
            &&& after == (AppView { endpoints: after.endpoints, finished: after.finished, ..v })
            &&& ev is AllDone ==> after.endpoints == v.endpoints
        }),
{
}

} // verus!
