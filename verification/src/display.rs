//! What the display of a session shows: texts and their styles.
//!
//! Numbers that are not whole come in as texts, rounded to the digits that are shown.

use vstd::arithmetic::power2::pow2;
use vstd::prelude::*;
use vstd::string::StringExecFns;

use crate::bench::ConfigView;
use crate::double::{
    div_nearest, lemma_bits_unique, lemma_pow2_127, lemma_round53_shift, lemma_share_below, lemma_share_of_places, ratio,
    ratio53, round53, Double,
};
use crate::session::{App, AppView, Color, Mode, ModeView};
use crate::export::Figures;
use crate::state::{bucket_count, bucket_view, DomainStats, EndpointState, EndpointView, FailCounts, StatsView};
use crate::stats::{law_reliability_bounds, reliability_of, Summary};
use crate::table::{stack, stack_name, Cells};
use crate::text::{
    dec, decimal, holds, law_padding, lemma_holds, lemma_labelled_holds, lemma_labelled_push, pad_left, pad_right,
    padded_left, padded_right, push_repeated, repeated, truncate, truncated,
};

verus! {

broadcast use vstd::string::group_string_axioms;

// --- pieces ---

/// A color of the display.
#[derive(Clone, Copy, Debug, PartialEq, Eq, Structural)]
pub enum Hue {
    Cyan,
    DarkGray,
    Green,
    LightGreen,
    LightMagenta,
    Red,
    White,
    Yellow,
}

/// How a text looks.
#[derive(Clone, Copy, Debug, PartialEq, Eq, Structural)]
pub struct Look {
    pub fg: Option<Hue>,
    pub bg: Option<Hue>,
    pub bold: bool,
    pub blink: bool,
}

/// A piece of text with one look.
#[derive(Clone, Debug)]
pub struct Piece {
    pub text: String,
    pub look: Look,
}

/// The looks.
pub open spec fn raw() -> Look {
    Look { fg: None, bg: None, bold: false, blink: false }
}

/// In a color.
pub open spec fn hued(h: Hue) -> Look {
    Look { fg: Some(h), ..raw() }
}

/// In bold type.
pub open spec fn bold() -> Look {
    Look { bold: true, ..raw() }
}

/// In a color and in bold type.
pub open spec fn hued_bold(h: Hue) -> Look {
    Look { fg: Some(h), ..bold() }
}

/// Each piece as its text and its look.
pub open spec fn pieces(v: Seq<Piece>) -> Seq<(Seq<char>, Look)> {
    v.map_values(|p: Piece| (p.text@, p.look))
}

impl Look {
    fn raw() -> (r: Look)
        ensures
            r == raw(),
    {
        Look { fg: None, bg: None, bold: false, blink: false }
    }

    fn hued(h: Hue) -> (r: Look)
        ensures
            r == hued(h),
    {
        Look { fg: Some(h), bg: None, bold: false, blink: false }
    }

    fn bold() -> (r: Look)
        ensures
            r == bold(),
    {
        Look { fg: None, bg: None, bold: true, blink: false }
    }

    fn hued_bold(h: Hue) -> (r: Look)
        ensures
            r == hued_bold(h),
    {
        Look { fg: Some(h), bg: None, bold: true, blink: false }
    }
}

fn put(v: &mut Vec<Piece>, text: String, look: Look)
    ensures
        pieces(final(v)@) == pieces(old(v)@).push((text@, look)),
{
    let ghost before = v@;
    v.push(Piece { text, look });
    assert(pieces(v@) =~= pieces(before).push((text@, look)));
}

fn put_str(v: &mut Vec<Piece>, text: &str, look: Look)
    ensures
        pieces(final(v)@) == pieces(old(v)@).push((text@, look)),
{
    put(v, text.to_owned(), look);
}

/// The color of a message on the display.
pub open spec fn hue_of(c: Color) -> Hue {
    match c {
        Color::Cyan => Hue::Cyan,
        Color::Green => Hue::Green,
        Color::Red => Hue::Red,
        Color::White => Hue::White,
        Color::Yellow => Hue::Yellow,
    }
}

fn message_hue(c: Color) -> (r: Hue)
    ensures
        r == hue_of(c),
{
    match c {
        Color::Cyan => Hue::Cyan,
        Color::Green => Hue::Green,
        Color::Red => Hue::Red,
        Color::White => Hue::White,
        Color::Yellow => Hue::Yellow,
    }
}

/// The text, then the decimal numeral of `n`.
fn append_number(r: &mut String, n: u128)
    ensures
        final(r)@ == old(r)@ + dec(n as nat),
{
    let d = decimal(n);
    r.append(d.as_str());
}

// --- header ---

/// The title above the progress gauge.
pub open spec fn title_text(v: AppView, elapsed: Seq<char>) -> Seq<char> {
    " dnsresolvr  "@ + dec(v.endpoints.len()) + " endpoints · "@ + dec(v.running.domains.len()) + " domains × "@ + dec(
        v.running.iterations as nat,
    ) + " iters · elapsed "@ + elapsed + "s"@ + (if v.finished {
        " · DONE"@
    } else {
        ""@
    }) + " "@
}

/// The label of the progress gauge.
pub open spec fn gauge_text(done: nat, due: nat, percent: Seq<char>) -> Seq<char> {
    dec(done) + "/"@ + dec(due) + " probes ("@ + percent + "%)"@
}

/// The label of the progress gauge.
pub fn gauge_label(done: usize, due: usize, percent: &str) -> (r: String)
    ensures
        r@ == gauge_text(done as nat, due as nat, percent@),
{
    let mut r = decimal(done as u128);
    r.append("/");
    append_number(&mut r, due as u128);
    r.append(" probes (");
    r.append(percent);
    r.append("%)");
    r
}

// --- status line ---

/// The classes that are enabled, in one word.
pub open spec fn class_word(cached: bool, uncached: bool) -> Seq<char> {
    if cached && uncached {
        "cached+uncached"@
    } else if cached {
        "cached-only"@
    } else if uncached {
        "uncached-only"@
    } else {
        "none"@
    }
}

/// The configuration in short.
pub open spec fn config_text(cfg: ConfigView) -> Seq<char> {
    "  iter:"@ + dec(cfg.iterations as nat) + " sp:"@ + dec(cfg.inter_query@ / 1_000_000) + "ms to:"@ + dec(
        cfg.timeout@ / 1_000_000,
    ) + "ms "@ + class_word(cfg.cached, cfg.uncached) + " "@ + stack_name(cfg.include_ipv6) + " domains:"@ + dec(
        cfg.domains.len(),
    )
}

/// The status line: the configuration, then the message, or the sort column where there is none.
pub open spec fn status_pieces(v: AppView) -> Seq<(Seq<char>, Look)> {
    let head = (" cfg "@, Look { fg: Some(Hue::White), bg: Some(Hue::DarkGray), ..raw() });
    match v.status {
        Some(s) => seq![
            head,
            (config_text(v.cfg) + "  ·  "@, raw()),
            (s.text, hued_bold(hue_of(s.color))),
        ],
        None => seq![head, (config_text(v.cfg) + " sort:"@ + v.sort.spec_label(), raw())],
    }
}

fn class_word_of(cached: bool, uncached: bool) -> (r: &'static str)
    ensures
        r@ == class_word(cached, uncached),
{
    if cached && uncached {
        "cached+uncached"
    } else if cached {
        "cached-only"
    } else if uncached {
        "uncached-only"
    } else {
        "none"
    }
}

// --- footer ---

/// The line at the bottom: the command being typed, or what keys do.
pub open spec fn footer_pieces(v: AppView) -> Seq<(Seq<char>, Look)> {
    let key = hued(Hue::Cyan);
    match v.mode {
        ModeView::Command(input) => seq![
            (":"@, hued_bold(Hue::Yellow)),
            (input, raw()),
            ("_"@, Look { blink: true, ..raw() }),
        ],
        _ => if v.detail_open {
            seq![
                ("[Esc]"@, key),
                (" back  "@, raw()),
                ("[↑/↓]"@, key),
                (" endpoint  "@, raw()),
                ("[:]"@, key),
                (" command  "@, raw()),
                ("[q]"@, key),
                (" quit"@, raw()),
            ]
        } else {
            seq![
                ("[:]"@, hued_bold(Hue::Yellow)),
                (" command  "@, raw()),
                ("[Enter]"@, key),
                (" detail  "@, raw()),
                ("[s]"@, key),
                (" sort  "@, raw()),
                ("[r]"@, key),
                (" restart  "@, raw()),
                ("[?]"@, key),
                (" help  "@, raw()),
                ("[q]"@, key),
                (" quit"@, raw()),
            ]
        },
    }
}

impl App {
    /// The title above the progress gauge; `elapsed` is the time since the start in seconds.
    pub fn title(&self, elapsed: &str) -> (r: String)
        ensures
            r@ == title_text(self@, elapsed@),
    {
        let mut r = " dnsresolvr  ".to_owned();
        append_number(&mut r, self.endpoints.len() as u128);
        r.append(" endpoints · ");
        append_number(&mut r, self.running.domains.len() as u128);
        r.append(" domains × ");
        append_number(&mut r, self.running.iterations as u128);
        r.append(" iters · elapsed ");
        r.append(elapsed);
        r.append("s");
        r.append(if self.finished {
            " · DONE"
        } else {
            ""
        });
        r.append(" ");
        r
    }

    /// The color of the progress gauge.
    pub fn gauge_hue(&self) -> (r: Hue)
        ensures
            r == (if self@.finished {
                Hue::Green
            } else {
                Hue::Cyan
            }),
    {
        if self.finished {
            Hue::Green
        } else {
            Hue::Cyan
        }
    }

    fn config_line(&self) -> (r: String)
        ensures
            r@ == config_text(self@.cfg),
    {
        let mut r = "  iter:".to_owned();
        append_number(&mut r, self.cfg.iterations as u128);
        r.append(" sp:");
        append_number(&mut r, self.cfg.inter_query.as_millis());
        r.append("ms to:");
        append_number(&mut r, self.cfg.timeout.as_millis());
        r.append("ms ");
        r.append(class_word_of(self.cfg.cached, self.cfg.uncached));
        r.append(" ");
        r.append(stack(self.cfg.include_ipv6));
        r.append(" domains:");
        append_number(&mut r, self.cfg.domains.len() as u128);
        r
    }

    /// The status line.
    pub fn status_line(&self) -> (r: Vec<Piece>)
        ensures
            pieces(r@) == status_pieces(self@),
    {
        let mut r: Vec<Piece> = Vec::new();
        put_str(&mut r, " cfg ", Look { fg: Some(Hue::White), bg: Some(Hue::DarkGray), bold: false, blink: false });
        let mut line = self.config_line();
        match &self.status {
            Some(s) => {
                line.append("  ·  ");
                put(&mut r, line, Look::raw());
                put(&mut r, s.text.clone(), Look::hued_bold(message_hue(s.color)));
            },
            None => {
                line.append(" sort:");
                line.append(self.sort.label());
                put(&mut r, line, Look::raw());
            },
        }
        assert(pieces(r@) =~= status_pieces(self@));
        r
    }

    /// The title of the line at the bottom.
    pub fn footer_title(&self) -> (r: &'static str)
        ensures
            r@ == (if self@.mode is Command {
                " command "@
            } else {
                " controls "@
            }),
    {
        match &self.mode {
            Mode::Command { .. } => " command ",
            _ => " controls ",
        }
    }

    /// The line at the bottom.
    pub fn footer(&self) -> (r: Vec<Piece>)
        ensures
            pieces(r@) == footer_pieces(self@),
    {
        let mut r: Vec<Piece> = Vec::new();
        let key = Look::hued(Hue::Cyan);
        match &self.mode {
            Mode::Command { input } => {
                put_str(&mut r, ":", Look::hued_bold(Hue::Yellow));
                put(&mut r, input.clone(), Look::raw());
                put_str(&mut r, "_", Look { fg: None, bg: None, bold: false, blink: true });
            },
            _ => {
                if self.detail_open {
                    put_str(&mut r, "[Esc]", key);
                    put_str(&mut r, " back  ", Look::raw());
                    put_str(&mut r, "[↑/↓]", key);
                    put_str(&mut r, " endpoint  ", Look::raw());
                    put_str(&mut r, "[:]", key);
                    put_str(&mut r, " command  ", Look::raw());
                    put_str(&mut r, "[q]", key);
                    put_str(&mut r, " quit", Look::raw());
                } else {
                    put_str(&mut r, "[:]", Look::hued_bold(Hue::Yellow));
                    put_str(&mut r, " command  ", Look::raw());
                    put_str(&mut r, "[Enter]", key);
                    put_str(&mut r, " detail  ", Look::raw());
                    put_str(&mut r, "[s]", key);
                    put_str(&mut r, " sort  ", Look::raw());
                    put_str(&mut r, "[r]", key);
                    put_str(&mut r, " restart  ", Look::raw());
                    put_str(&mut r, "[?]", key);
                    put_str(&mut r, " help  ", Look::raw());
                    put_str(&mut r, "[q]", key);
                    put_str(&mut r, " quit", Look::raw());
                }
            },
        }
        assert(pieces(r@) =~= footer_pieces(self@));
        r
    }
}

// --- table ---

/// The width of a column.
#[derive(Clone, Copy, Debug, PartialEq, Eq, Structural)]
pub enum Width {
    Length(u16),
    AtLeast(u16),
}

/// The headings of the class columns.
pub open spec fn class_headings(a: Seq<char>, b: Seq<char>, c: Seq<char>, d: Seq<char>, h: Hue) -> Seq<(Seq<char>, Look)> {
    seq![(a, hued_bold(h)), (b, hued_bold(h)), (c, hued_bold(h)), (d, hued_bold(h))]
}

/// The headings of the table.
pub open spec fn heading_pieces(cached: bool, uncached: bool) -> Seq<(Seq<char>, Look)> {
    let c = if cached {
        class_headings("c_p50"@, "c_p95"@, "c_p99"@, "c_rel"@, Hue::LightGreen)
    } else {
        Seq::empty()
    };
    let u = if uncached {
        class_headings("u_p50"@, "u_p95"@, "u_p99"@, "u_rel"@, Hue::LightMagenta)
    } else {
        Seq::empty()
    };
    seq![("resolver"@, bold()), ("addr"@, bold())] + c + u + seq![("progress"@, bold())]
}

/// The widths of the table.
pub open spec fn heading_widths(cached: bool, uncached: bool) -> Seq<Width> {
    let eight = seq![Width::Length(8), Width::Length(8), Width::Length(8), Width::Length(8)];
    let c = if cached {
        eight
    } else {
        Seq::empty()
    };
    let u = if uncached {
        eight
    } else {
        Seq::empty()
    };
    seq![Width::Length(22), Width::Length(20)] + c + u + seq![Width::AtLeast(16)]
}

/// The binary64 value nearest to four fifths.
pub open spec fn four_fifths() -> Double {
    Double { mant: 0x19_9999_9999_999a, exp: (-53) as i32 }
}

/// The binary64 value nearest to 98 per cent.
pub open spec fn ninety_eight_percent() -> Double {
    Double { mant: 0x1f_5c28_f5c2_8f5c, exp: (-53) as i32 }
}

/// The color of a reliability: red below 80 per cent, yellow below 98 per cent, else green.
pub open spec fn reliability_hue(d: Double) -> Hue {
    if d.spec_below(four_fifths()) {
        Hue::Red
    } else if d.spec_below(ninety_eight_percent()) {
        Hue::Yellow
    } else {
        Hue::Green
    }
}

/// The color of the reliability of a summary.
pub fn hue_for(s: &Summary) -> (r: Hue)
    ensures
        r == reliability_hue(reliability_of(s.successes as nat, s.total as nat)),
{
    let d = s.reliability();
    if d.below(Double { mant: 0x19_9999_9999_999a, exp: -53 }) {
        Hue::Red
    } else if d.below(Double { mant: 0x1f_5c28_f5c2_8f5c, exp: -53 }) {
        Hue::Yellow
    } else {
        Hue::Green
    }
}

/// The cells of a class: percentiles in milliseconds and the reliability in per cent; a dash
/// stands for no data.
pub open spec fn class_pieces(s: Option<Summary>, f: Cells, h: Hue) -> Seq<(Seq<char>, Look)> {
    match s {
        Some(x) => seq![
            (padded_left(f.p50@, 6), hued(h)),
            (padded_left(f.p95@, 6), raw()),
            (padded_left(f.p99@, 6), raw()),
            (
                padded_left(f.rel@, 4) + "%"@,
                hued(reliability_hue(reliability_of(x.successes as nat, x.total as nat))),
            ),
        ],
        None => {
            let none = ("-"@, hued(Hue::DarkGray));
            seq![none, none, none, none]
        },
    }
}

/// The cells of a row: the endpoint, the classes that are enabled, and the progress.
pub open spec fn row_pieces(
    v: EndpointView,
    cached: Option<(Option<Summary>, Cells)>,
    uncached: Option<(Option<Summary>, Cells)>,
    bar: Seq<char>,
) -> Seq<(Seq<char>, Look)> {
    let c = match cached {
        Some(p) => class_pieces(p.0, p.1, Hue::LightGreen),
        None => Seq::empty(),
    };
    let u = match uncached {
        Some(p) => class_pieces(p.0, p.1, Hue::LightMagenta),
        None => Seq::empty(),
    };
    seq![(truncated(v.name, 22), raw()), (v.addr_display, raw())] + c + u + seq![(bar, raw())]
}

/// The filled places of a progress bar, out of 14.
pub open spec fn bar_filled(done: nat, due: nat) -> nat {
    let n = ratio53(done, due).spec_times_round(14);
    if n > 14 {
        14
    } else {
        n
    }
}

/// A progress bar: 14 places, then the counts, or a word at the end.
pub open spec fn bar_text(done: nat, due: nat, finished: bool) -> Seq<char> {
    if due == 0 {
        Seq::empty()
    } else {
        let n = bar_filled(done, due);
        repeated('█', n) + repeated('░', (14 - n) as nat) + (if finished {
            " done"@
        } else {
            " "@ + dec(done) + "/"@ + dec(due)
        })
    }
}

/// A progress bar.
pub fn progress_bar(done: usize, due: usize, finished: bool) -> (r: String)
    ensures
        r@ == bar_text(done as nat, due as nat, finished),
{
    if due == 0 {
        let r = String::new();
        assert(r@ =~= Seq::empty());
        return r;
    }
    let n: u128 = ratio(done as u64, due as u64).times_round(14);
    let filled: usize = if n > 14 {
        14
    } else {
        n as usize
    };
    let mut r = String::new();
    push_repeated(&mut r, '█', filled);
    push_repeated(&mut r, '░', 14 - filled);
    if finished {
        r.append(" done");
    } else {
        r.append(" ");
        append_number(&mut r, done as u128);
        r.append("/");
        append_number(&mut r, due as u128);
    }
    assert(r@ =~= bar_text(done as nat, due as nat, finished));
    r
}

/// A progress bar is empty at the start and full at the end.
pub proof fn law_bar_spans_the_run(due: u64)
    requires
        due > 0,
    ensures
        bar_filled(0, due as nat) == 0,
        bar_filled(due as nat, due as nat) == 14,
{
    law_reliability_bounds(due, due);
    lemma_pow2_127();
    lemma_round53_shift(14, 52);
    vstd::arithmetic::power2::lemma2_to64();
    lemma_bits_unique(14, 4);
    assert(round53(14) == 14);
    let one = Double { mant: 0x10_0000_0000_0000, exp: (-52) as i32 };
    assert(one.mant as nat * 14 == 14 * pow2(52));
    let p = round53(one.mant as nat * 14);
    assert(p == 14 * pow2(52));
    assert((-one.exp) as nat == 52);
    assert((2 * p + pow2(52)) / (2 * pow2(52)) == 14);
    assert(one.spec_times_round(14) == 14);
    let zero = Double { mant: 0, exp: 0 };
    assert(zero.mant as nat * 14 == 0);
    assert(round53(0) == 0);
    assert(zero.spec_times_round(14) == 0 * pow2(0));
    assert(0 * pow2(0) == 0) by (nonlinear_arith);
}

fn put_class(r: &mut Vec<Piece>, s: &Option<Summary>, f: &Cells, h: Hue)
    ensures
        pieces(final(r)@) == pieces(old(r)@) + class_pieces(*s, *f, h),
{
    let ghost start = pieces(r@);
    match s {
        Some(x) => {
            put(r, pad_left(f.p50.as_str(), 6), Look::hued(h));
            put(r, pad_left(f.p95.as_str(), 6), Look::raw());
            put(r, pad_left(f.p99.as_str(), 6), Look::raw());
            let mut rel = pad_left(f.rel.as_str(), 4);
            rel.append("%");
            put(r, rel, Look::hued(hue_for(x)));
        },
        None => {
            put_str(r, "-", Look::hued(Hue::DarkGray));
            put_str(r, "-", Look::hued(Hue::DarkGray));
            put_str(r, "-", Look::hued(Hue::DarkGray));
            put_str(r, "-", Look::hued(Hue::DarkGray));
        },
    }
    assert(pieces(r@) =~= start + class_pieces(*s, *f, h));
}

fn put_headings(r: &mut Vec<Piece>, a: &str, b: &str, c: &str, d: &str, h: Hue)
    ensures
        pieces(final(r)@) == pieces(old(r)@) + class_headings(a@, b@, c@, d@, h),
{
    let ghost start = pieces(r@);
    put_str(r, a, Look::hued_bold(h));
    put_str(r, b, Look::hued_bold(h));
    put_str(r, c, Look::hued_bold(h));
    put_str(r, d, Look::hued_bold(h));
    assert(pieces(r@) =~= start + class_headings(a@, b@, c@, d@, h));
}

fn put_eights(r: &mut Vec<Width>)
    ensures
        final(r)@ == old(r)@ + seq![Width::Length(8), Width::Length(8), Width::Length(8), Width::Length(8)],
{
    r.push(Width::Length(8));
    r.push(Width::Length(8));
    r.push(Width::Length(8));
    r.push(Width::Length(8));
    assert(r@ =~= old(r)@ + seq![Width::Length(8), Width::Length(8), Width::Length(8), Width::Length(8)]);
}

/// The headings of the table.
pub fn table_headings(cached: bool, uncached: bool) -> (r: Vec<Piece>)
    ensures
        pieces(r@) == heading_pieces(cached, uncached),
{
    let mut r: Vec<Piece> = Vec::new();
    put_str(&mut r, "resolver", Look::bold());
    put_str(&mut r, "addr", Look::bold());
    if cached {
        put_headings(&mut r, "c_p50", "c_p95", "c_p99", "c_rel", Hue::LightGreen);
    }
    if uncached {
        put_headings(&mut r, "u_p50", "u_p95", "u_p99", "u_rel", Hue::LightMagenta);
    }
    put_str(&mut r, "progress", Look::bold());
    assert(pieces(r@) =~= heading_pieces(cached, uncached));
    r
}

/// The widths of the table.
pub fn table_widths(cached: bool, uncached: bool) -> (r: Vec<Width>)
    ensures
        r@ == heading_widths(cached, uncached),
{
    let mut r: Vec<Width> = Vec::new();
    r.push(Width::Length(22));
    r.push(Width::Length(20));
    if cached {
        put_eights(&mut r);
    }
    if uncached {
        put_eights(&mut r);
    }
    r.push(Width::AtLeast(16));
    assert(r@ =~= heading_widths(cached, uncached));
    r
}

/// The table has a width for every heading, and a heading for every cell of a row.
pub proof fn law_table_columns_line_up(
    v: EndpointView,
    cached: Option<(Option<Summary>, Cells)>,
    uncached: Option<(Option<Summary>, Cells)>,
    bar: Seq<char>,
)
    ensures
        heading_widths(cached is Some, uncached is Some).len() == heading_pieces(cached is Some, uncached is Some).len(),
        row_pieces(v, cached, uncached, bar).len() == heading_pieces(cached is Some, uncached is Some).len(),
{
}

impl App {
    /// The title of the table.
    pub fn table_title(&self) -> (r: String)
        ensures
            r@ == " results — sorted by "@ + self@.sort.spec_label() + " "@,
    {
        let mut r = " results — sorted by ".to_owned();
        r.append(self.sort.label());
        r.append(" ");
        r
    }

    /// The row of an endpoint, with the texts of the classes that are enabled.
    pub fn table_row(
        &self,
        e: &EndpointState,
        cached: &Option<(Option<Summary>, Cells)>,
        uncached: &Option<(Option<Summary>, Cells)>,
    ) -> (r: Vec<Piece>)
        requires
            e@.count() <= usize::MAX,
            e@.due(self@.running.cached, self@.running.uncached) <= usize::MAX,
        ensures
            pieces(r@) == row_pieces(
                e@,
                *cached,
                *uncached,
                bar_text(e@.count(), e@.due(self@.running.cached, self@.running.uncached), e@.done),
            ),
    {
        let mut r: Vec<Piece> = Vec::new();
        put(&mut r, truncate(e.name.as_str(), 22), Look::raw());
        put(&mut r, e.addr_display.clone(), Look::raw());
        match cached {
            Some(p) => put_class(&mut r, &p.0, &p.1, Hue::LightGreen),
            None => {},
        }
        match uncached {
            Some(p) => put_class(&mut r, &p.0, &p.1, Hue::LightMagenta),
            None => {},
        }
        let (done, due) = e.progress(self.running.cached, self.running.uncached);
        put(&mut r, progress_bar(done, due, e.done), Look::raw());
        assert(pieces(r@) =~= row_pieces(
            e@,
            *cached,
            *uncached,
            bar_text(e@.count(), e@.due(self@.running.cached, self@.running.uncached), e@.done),
        ));
        r
    }
}

// --- detail pane ---

/// The line that names an endpoint.
pub open spec fn endpoint_pieces(v: EndpointView) -> Seq<(Seq<char>, Look)> {
    seq![
        (v.name + " "@, hued_bold(Hue::Cyan)),
        ("("@ + v.provider + ") "@, hued(Hue::DarkGray)),
        (v.addr_display, raw()),
    ]
}

/// The figures of a class in one line.
pub open spec fn class_line_text(s: Summary, f: Figures) -> Seq<char> {
    " p50 "@ + padded_left(f.p50@, 6) + "ms  p95 "@ + padded_left(f.p95@, 6) + "ms  p99 "@ + padded_left(f.p99@, 6)
        + "ms  min "@ + padded_left(f.min@, 6) + "ms  max "@ + padded_left(f.max@, 6) + "ms  stddev "@ + padded_left(
        f.stddev@,
        5,
    ) + "ms  rel "@ + padded_left(f.reliability@, 3) + "%  ("@ + dec(s.successes as nat) + "/"@ + dec(s.total as nat) + ")"@
}

/// The line of a class.
pub open spec fn class_line_pieces(label: Seq<char>, s: Option<Summary>, f: Figures, h: Hue) -> Seq<(Seq<char>, Look)> {
    let head = (padded_right(label, 8), hued_bold(h));
    match s {
        Some(x) => seq![head, (class_line_text(x, f), raw())],
        None => seq![head, (" no data yet"@, hued(Hue::DarkGray))],
    }
}

/// The line that names an endpoint.
pub fn endpoint_line(e: &EndpointState) -> (r: Vec<Piece>)
    ensures
        pieces(r@) == endpoint_pieces(e@),
{
    let mut r: Vec<Piece> = Vec::new();
    let mut name = e.name.clone();
    name.append(" ");
    put(&mut r, name, Look::hued_bold(Hue::Cyan));
    let mut provider = "(".to_owned();
    provider.append(e.provider.as_str());
    provider.append(") ");
    put(&mut r, provider, Look::hued(Hue::DarkGray));
    put(&mut r, e.addr_display.clone(), Look::raw());
    assert(pieces(r@) =~= endpoint_pieces(e@));
    r
}

fn append_padded(r: &mut String, s: &str, width: usize, after: &str)
    ensures
        final(r)@ == old(r)@ + padded_left(s@, width as nat) + after@,
{
    let x = pad_left(s, width);
    r.append(x.as_str());
    r.append(after);
}

/// The line of a class: its figures, if there are any.
pub fn class_line(label: &str, s: &Option<Summary>, f: &Figures, h: Hue) -> (r: Vec<Piece>)
    ensures
        pieces(r@) == class_line_pieces(label@, *s, *f, h),
{
    let mut r: Vec<Piece> = Vec::new();
    put(&mut r, pad_right(label, 8), Look::hued_bold(h));
    match s {
        Some(x) => {
            let mut t = " p50 ".to_owned();
            append_padded(&mut t, f.p50.as_str(), 6, "ms  p95 ");
            append_padded(&mut t, f.p95.as_str(), 6, "ms  p99 ");
            append_padded(&mut t, f.p99.as_str(), 6, "ms  min ");
            append_padded(&mut t, f.min.as_str(), 6, "ms  max ");
            append_padded(&mut t, f.max.as_str(), 6, "ms  stddev ");
            append_padded(&mut t, f.stddev.as_str(), 5, "ms  rel ");
            append_padded(&mut t, f.reliability.as_str(), 3, "%  (");
            append_number(&mut t, x.successes as u128);
            t.append("/");
            append_number(&mut t, x.total as u128);
            t.append(")");
            put(&mut r, t, Look::raw());
        },
        None => put_str(&mut r, " no data yet", Look::hued(Hue::DarkGray)),
    }
    assert(pieces(r@) =~= class_line_pieces(label@, *s, *f, h));
    r
}

/// The headings of the table of domains.
pub fn domain_headings() -> (r: Vec<Piece>)
    ensures
        pieces(r@) == seq![
            ("domain"@, bold()),
            ("cached mean"@, hued_bold(Hue::LightGreen)),
            ("cached n/tot"@, hued(Hue::LightGreen)),
            ("uncached mean"@, hued_bold(Hue::LightMagenta)),
            ("uncached n/tot"@, hued(Hue::LightMagenta)),
        ],
{
    let mut r: Vec<Piece> = Vec::new();
    put_str(&mut r, "domain", Look::bold());
    put_str(&mut r, "cached mean", Look::hued_bold(Hue::LightGreen));
    put_str(&mut r, "cached n/tot", Look::hued(Hue::LightGreen));
    put_str(&mut r, "uncached mean", Look::hued_bold(Hue::LightMagenta));
    put_str(&mut r, "uncached n/tot", Look::hued(Hue::LightMagenta));
    r
}

/// The results for the domain at `i`, or none where there is no such domain.
pub open spec fn stats_at(b: Seq<StatsView>, i: int) -> StatsView {
    if 0 <= i < b.len() {
        b[i]
    } else {
        StatsView::none()
    }
}

/// A mean round trip in milliseconds; a dash stands for no answer.
pub open spec fn mean_text(s: StatsView, mean: Seq<char>) -> Seq<char> {
    if s.rtts.len() > 0 {
        padded_left(mean, 7) + "ms"@
    } else {
        "       —"@
    }
}

/// The answered probes out of all.
pub open spec fn tally_text(s: StatsView) -> Seq<char> {
    dec(s.rtts.len()) + "/"@ + dec(s.count())
}

/// The row of a domain.
pub open spec fn domain_pieces(
    v: EndpointView,
    i: int,
    domain: Seq<char>,
    cached_mean: Seq<char>,
    uncached_mean: Seq<char>,
) -> Seq<(Seq<char>, Look)> {
    let c = stats_at(v.cached, i);
    let u = stats_at(v.uncached, i);
    seq![
        (domain, raw()),
        (mean_text(c, cached_mean), hued(Hue::LightGreen)),
        (tally_text(c), raw()),
        (mean_text(u, uncached_mean), hued(Hue::LightMagenta)),
        (tally_text(u), raw()),
    ]
}

fn put_domain(r: &mut Vec<Piece>, bucket: &Vec<DomainStats>, i: usize, mean: &str, h: Hue)
    requires
        stats_at(bucket_view(bucket@), i as int).count() <= usize::MAX,
    ensures
        pieces(final(r)@) == pieces(old(r)@).push(
            (mean_text(stats_at(bucket_view(bucket@), i as int), mean@), hued(h)),
        ).push((tally_text(stats_at(bucket_view(bucket@), i as int)), raw())),
{
    let (n, total): (usize, usize) = if i < bucket.len() {
        (bucket[i].rtts.len(), bucket[i].total())
    } else {
        (0, 0)
    };
    if n > 0 {
        let mut t = String::new();
        append_padded(&mut t, mean, 7, "ms");
        assert(t@ =~= padded_left(mean@, 7) + "ms"@);
        put(r, t, Look::hued(h));
    } else {
        put_str(r, "       —", Look::hued(h));
    }
    let mut t = decimal(n as u128);
    t.append("/");
    append_number(&mut t, total as u128);
    put(r, t, Look::raw());
}

/// The row of the domain at `i`, with the mean round trips of both classes.
pub fn domain_row(e: &EndpointState, i: usize, domain: &str, cached_mean: &str, uncached_mean: &str) -> (r: Vec<Piece>)
    requires
        e@.count() <= usize::MAX,
    ensures
        pieces(r@) == domain_pieces(e@, i as int, domain@, cached_mean@, uncached_mean@),
{
    proof {
        lemma_stats_fit(e@.cached, i as int);
        lemma_stats_fit(e@.uncached, i as int);
    }
    let mut r: Vec<Piece> = Vec::new();
    put_str(&mut r, domain, Look::raw());
    put_domain(&mut r, &e.cached, i, cached_mean, Hue::LightGreen);
    put_domain(&mut r, &e.uncached, i, uncached_mean, Hue::LightMagenta);
    assert(pieces(r@) =~= domain_pieces(e@, i as int, domain@, cached_mean@, uncached_mean@));
    r
}

impl App {
    /// The rows of the domains of the current run, with the mean round trips of both classes.
    pub fn domain_rows(&self, e: &EndpointState, cached_means: &Vec<String>, uncached_means: &Vec<String>) -> (r: Vec<
        Vec<Piece>,
    >)
        requires
            e@.count() <= usize::MAX,
            cached_means@.len() == self@.running.domains.len(),
            uncached_means@.len() == self@.running.domains.len(),
        ensures
            r@.len() == self@.running.domains.len(),
            forall|i: int|
                0 <= i < r@.len() ==> pieces((#[trigger] r@[i])@) == domain_pieces(
                    e@,
                    i,
                    self@.running.domains[i],
                    cached_means@[i]@,
                    uncached_means@[i]@,
                ),
    {
        let n: usize = self.running.domains.len();
        let mut r: Vec<Vec<Piece>> = Vec::new();
        let mut i: usize = 0;
        while i < n
            invariant
                i <= n == self.running.domains.len(),
                e@.count() <= usize::MAX,
                cached_means@.len() == n,
                uncached_means@.len() == n,
                r@.len() == i,
                forall|k: int|
                    0 <= k < i ==> pieces((#[trigger] r@[k])@) == domain_pieces(
                        e@,
                        k,
                        self@.running.domains[k],
                        cached_means@[k]@,
                        uncached_means@[k]@,
                    ),
            decreases n - i,
        {
            let domain = self.running.domains[i].as_str();
            r.push(domain_row(e, i, domain, cached_means[i].as_str(), uncached_means[i].as_str()));
            i = i + 1;
        }
        r
    }
}

proof fn lemma_stats_fit(b: Seq<StatsView>, i: int)
    ensures
        stats_at(b, i).count() <= bucket_count(b),
    decreases b.len(),
{
    if 0 <= i < b.len() {
        if i < b.len() - 1 {
            lemma_stats_fit(b.drop_last(), i);
        }
    }
}

/// A count of failures: red where there are any.
pub open spec fn count_piece(n: usize, word: Seq<char>) -> (Seq<char>, Look) {
    (dec(n as nat) + word, hued(if n > 0 {
        Hue::Red
    } else {
        Hue::DarkGray
    }))
}

/// The line of failures.
pub open spec fn error_pieces(f: FailCounts) -> Seq<(Seq<char>, Look)> {
    seq![
        ("errors: "@, raw()),
        count_piece(f.timeout, " timeout"@),
        ("  "@, raw()),
        count_piece(f.network, " network"@),
        ("  "@, raw()),
        count_piece(f.protocol, " protocol"@),
    ]
}

fn put_count(r: &mut Vec<Piece>, n: usize, word: &str)
    ensures
        pieces(final(r)@) == pieces(old(r)@).push(count_piece(n, word@)),
{
    let mut t = decimal(n as u128);
    t.append(word);
    put(r, t, Look::hued(if n > 0 {
        Hue::Red
    } else {
        Hue::DarkGray
    }));
}

/// The line of failures.
pub fn error_line(f: &FailCounts) -> (r: Vec<Piece>)
    ensures
        pieces(r@) == error_pieces(*f),
{
    let mut r: Vec<Piece> = Vec::new();
    put_str(&mut r, "errors: ", Look::raw());
    put_count(&mut r, f.timeout, " timeout");
    put_str(&mut r, "  ", Look::raw());
    put_count(&mut r, f.network, " network");
    put_str(&mut r, "  ", Look::raw());
    put_count(&mut r, f.protocol, " protocol");
    assert(pieces(r@) =~= error_pieces(*f));
    r
}

// --- help ---

/// The lines of the help overlay.
pub open spec fn help_pieces() -> Seq<(Seq<char>, Look)> {
    seq![
        ("dnsresolvr — help"@, hued_bold(Hue::Cyan)),
        (""@, raw()),
        ("Normal mode"@, bold()),
        ("  :         enter command mode"@, raw()),
        ("  Enter     open / close detail pane"@, raw()),
        ("  s         cycle sort column"@, raw()),
        ("  r         restart benchmark with current config"@, raw()),
        ("  ↑/↓       move selection"@, raw()),
        ("  PgUp/Dn   move 10 rows"@, raw()),
        ("  ?         this help"@, raw()),
        ("  q         quit (auto-export if path set)"@, raw()),
        (""@, raw()),
        ("Commands (typed after `:`)"@, bold()),
        ("  :q   :quit                 exit"@, raw()),
        ("  :w [path]                  export to CSV/JSON (by extension)"@, raw()),
        ("  :wq [path]                 export, then quit"@, raw()),
        ("  :r   :start   :restart     rerun benchmark"@, raw()),
        ("  :stop                      abort running benchmark"@, raw()),
        ("  :set iter <N>              sample iterations per domain"@, raw()),
        ("  :set sp <ms>               spacing between queries"@, raw()),
        ("  :set to <ms>               per-query timeout"@, raw()),
        ("  :set preset <q|s|t|e>      quick | standard | thorough | exhaustive"@, raw()),
        ("  :set ipv6 on|off|toggle    include IPv6 endpoints"@, raw()),
        ("  :set cached on|off         include cached class (alias :cached)"@, raw()),
        ("  :set uncached on|off       include uncached class (alias :uncached)"@, raw()),
        ("  :add <domain> [..]         add domains to probe set"@, raw()),
        ("  :rm  <domain> [..]         remove domains"@, raw()),
        ("  :reset                     restore default domain list"@, raw()),
        ("  :domains                   show current domain list"@, raw()),
        (""@, raw()),
        ("Config changes take effect on the next :r"@, hued(Hue::DarkGray)),
        (""@, raw()),
        ("Esc to close this help"@, hued(Hue::Yellow)),
    ]
}

/// The lines of the help overlay, a piece each.
pub fn help_lines() -> (r: Vec<Piece>)
    ensures
        pieces(r@) == help_pieces(),
{
    let mut r: Vec<Piece> = Vec::new();
    put_str(&mut r, "dnsresolvr — help", Look::hued_bold(Hue::Cyan));
    put_str(&mut r, "", Look::raw());
    put_str(&mut r, "Normal mode", Look::bold());
    put_str(&mut r, "  :         enter command mode", Look::raw());
    put_str(&mut r, "  Enter     open / close detail pane", Look::raw());
    put_str(&mut r, "  s         cycle sort column", Look::raw());
    put_str(&mut r, "  r         restart benchmark with current config", Look::raw());
    put_str(&mut r, "  ↑/↓       move selection", Look::raw());
    put_str(&mut r, "  PgUp/Dn   move 10 rows", Look::raw());
    put_str(&mut r, "  ?         this help", Look::raw());
    put_str(&mut r, "  q         quit (auto-export if path set)", Look::raw());
    put_str(&mut r, "", Look::raw());
    put_str(&mut r, "Commands (typed after `:`)", Look::bold());
    put_str(&mut r, "  :q   :quit                 exit", Look::raw());
    put_str(&mut r, "  :w [path]                  export to CSV/JSON (by extension)", Look::raw());
    put_str(&mut r, "  :wq [path]                 export, then quit", Look::raw());
    put_str(&mut r, "  :r   :start   :restart     rerun benchmark", Look::raw());
    put_str(&mut r, "  :stop                      abort running benchmark", Look::raw());
    put_str(&mut r, "  :set iter <N>              sample iterations per domain", Look::raw());
    put_str(&mut r, "  :set sp <ms>               spacing between queries", Look::raw());
    put_str(&mut r, "  :set to <ms>               per-query timeout", Look::raw());
    put_str(&mut r, "  :set preset <q|s|t|e>      quick | standard | thorough | exhaustive", Look::raw());
    put_str(&mut r, "  :set ipv6 on|off|toggle    include IPv6 endpoints", Look::raw());
    put_str(&mut r, "  :set cached on|off         include cached class (alias :cached)", Look::raw());
    put_str(&mut r, "  :set uncached on|off       include uncached class (alias :uncached)", Look::raw());
    put_str(&mut r, "  :add <domain> [..]         add domains to probe set", Look::raw());
    put_str(&mut r, "  :rm  <domain> [..]         remove domains", Look::raw());
    put_str(&mut r, "  :reset                     restore default domain list", Look::raw());
    put_str(&mut r, "  :domains                   show current domain list", Look::raw());
    put_str(&mut r, "", Look::raw());
    put_str(&mut r, "Config changes take effect on the next :r", Look::hued(Hue::DarkGray));
    put_str(&mut r, "", Look::raw());
    put_str(&mut r, "Esc to close this help", Look::hued(Hue::Yellow));
    assert(pieces(r@) =~= help_pieces());
    r
}

/// The color of a reliability goes by the share of answered probes: red below four fifths, green from
/// 98 per cent on, yellow in between.
pub proof fn law_reliability_colors(successes: nat, total: nat)
    requires
        successes <= total,
        0 < total < 0x100_0000_0000,
    ensures
        ({
            let hue = reliability_hue(reliability_of(successes, total));
            &&& hue == Hue::Red <==> 5 * successes < 4 * total
            &&& hue == Hue::Green <==> 50 * successes >= 49 * total
            &&& hue == Hue::Yellow <==> 5 * successes >= 4 * total && 50 * successes < 49 * total
        }),
{
    lemma_pow2_127();
    assert(div_nearest(4 * pow2(53), 5) == 0x19_9999_9999_999a);
    assert(div_nearest(49 * pow2(53), 50) == 0x1f_5c28_f5c2_8f5c);
    lemma_share_below(successes, total, 4, 5, 0x19_9999_9999_999a);
    lemma_share_below(successes, total, 49, 50, 0x1f_5c28_f5c2_8f5c);
}

/// A progress bar is filled in proportion: of its 14 places so many are filled from the left that what
/// is filled is within half a place of what is done. Behind it stand both counts, or that all is done.
pub proof fn law_bar_is_proportional(done: nat, due: nat, finished: bool)
    requires
        done <= due,
        0 < due < 0x100_0000_0000,
    ensures
        ({
            let bar = bar_text(done, due, finished);
            let n = bar_filled(done, due);
            &&& n <= 14 && bar.len() > 14
            &&& 2 * (n * due) <= 28 * done + due && 28 * done <= 2 * (n * due) + due
            &&& forall|i: int| 0 <= i < n ==> #[trigger] bar[i] == '█'
            &&& forall|i: int| n <= i < 14 ==> #[trigger] bar[i] == '░'
            &&& finished ==> bar.skip(14) == " done"@
            &&& !finished ==> bar.skip(14) == " "@ + dec(done) + "/"@ + dec(due)
        }),
{
    lemma_share_of_places(done, due, 14);
    let bar = bar_text(done, due, finished);
    let n = bar_filled(done, due);
    reveal_strlit(" done");
    reveal_strlit(" ");
    if finished {
        assert(bar.skip(14) =~= " done"@);
    } else {
        assert(bar.skip(14) =~= " "@ + dec(done) + "/"@ + dec(due));
    }
}

/// A cell shows a text: it ends with it, and before it there are only spaces.
pub open spec fn shows(cell: Seq<char>, text: Seq<char>) -> bool {
    &&& text.is_suffix_of(cell)
    &&& forall|i: int| 0 <= i < cell.len() - text.len() ==> #[trigger] cell[i] == ' '
}

proof fn lemma_shows(text: Seq<char>, width: nat)
    ensures
        shows(padded_left(text, width), text),
        shows(padded_left(text, width) + seq!['%'], text + seq!['%']),
{
    law_padding(text, width);
    let l = padded_left(text, width);
    assert(text =~= l.subrange(l.len() - text.len(), l.len() as int));
    let a = l + seq!['%'];
    let b = text + seq!['%'];
    assert(b =~= a.subrange(a.len() - b.len(), a.len() as int));
}

/// A row of the table holds under each heading what the heading names: the address; the percentiles
/// and the reliability of the cached class under the `c_` headings and those of the uncached class
/// under the `u_` headings, a dash under each where the class has no data; and the progress last.
pub proof fn law_row_cells_stand_under_their_headings(
    v: EndpointView,
    s: Option<Summary>,
    c: Cells,
    t: Option<Summary>,
    u: Cells,
    bar: Seq<char>,
)
    ensures
        ({
            let heads = heading_pieces(true, true);
            let row = row_pieces(v, Some((s, c)), Some((t, u)), bar);
            &&& row.len() == 11 && heads.len() == 11
            &&& heads[1].0 == "addr"@ && row[1].0 == v.addr_display
            &&& heads[2].0 == "c_p50"@ && heads[3].0 == "c_p95"@ && heads[4].0 == "c_p99"@ && heads[5].0 == "c_rel"@
            &&& s is Some ==> shows(row[2].0, c.p50@) && shows(row[3].0, c.p95@) && shows(
                row[4].0,
                c.p99@,
            ) && shows(row[5].0, c.rel@ + seq!['%'])
            &&& s is None ==> row[2].0 == seq!['-'] && row[3].0 == seq!['-'] && row[4].0
                == seq!['-'] && row[5].0 == seq!['-']
            &&& heads[6].0 == "u_p50"@ && heads[7].0 == "u_p95"@ && heads[8].0 == "u_p99"@ && heads[9].0 == "u_rel"@
            &&& t is Some ==> shows(row[6].0, u.p50@) && shows(row[7].0, u.p95@) && shows(
                row[8].0,
                u.p99@,
            ) && shows(row[9].0, u.rel@ + seq!['%'])
            &&& t is None ==> row[6].0 == seq!['-'] && row[7].0 == seq!['-'] && row[8].0
                == seq!['-'] && row[9].0 == seq!['-']
            &&& heads[10].0 == "progress"@ && row[10].0 == bar
            &&& heads[0].0 == "resolver"@ && (v.name.len() <= 22 ==> row[0].0 == v.name)
        }),
        ({
            let heads = heading_pieces(true, false);
            let row = row_pieces(v, Some((s, c)), None, bar);
            &&& row.len() == 7 && heads.len() == 7
            &&& forall|i: int| 0 <= i < 6 ==> #[trigger] row[i] == row_pieces(v, Some((s, c)), Some((t, u)), bar)[i]
            &&& forall|i: int| 0 <= i < 6 ==> #[trigger] heads[i] == heading_pieces(true, true)[i]
        }),
        ({
            let heads = heading_pieces(false, true);
            let row = row_pieces(v, None, Some((t, u)), bar);
            &&& row.len() == 7 && heads.len() == 7
            &&& forall|i: int| 2 <= i < 7 ==> #[trigger] row[i] == row_pieces(v, Some((s, c)), Some((t, u)), bar)[i + 4]
            &&& forall|i: int| 2 <= i < 7 ==> #[trigger] heads[i] == heading_pieces(true, true)[i + 4]
        }),
{
    reveal_strlit("%");
    reveal_strlit("-");
    assert("%"@ =~= seq!['%']);
    assert("-"@ =~= seq!['-']);
    lemma_shows(c.p50@, 6);
    lemma_shows(c.p95@, 6);
    lemma_shows(c.p99@, 6);
    lemma_shows(c.rel@, 4);
    lemma_shows(u.p50@, 6);
    lemma_shows(u.p95@, 6);
    lemma_shows(u.p99@, 6);
    lemma_shows(u.rel@, 4);
}

/// The row of a domain shows its name and, class by class, the mean of its round trips, where there is
/// one, and how many of its probes were answered.
pub proof fn law_domain_rows_show_both_classes(
    v: EndpointView,
    i: int,
    domain: Seq<char>,
    cached_mean: Seq<char>,
    uncached_mean: Seq<char>,
)
    requires
        0 <= i < v.cached.len(),
        i < v.uncached.len(),
    ensures
        ({
            let row = domain_pieces(v, i, domain, cached_mean, uncached_mean);
            let c = v.cached[i];
            let u = v.uncached[i];
            &&& row.len() == 5 && row[0].0 == domain
            &&& c.rtts.len() > 0 ==> shows(row[1].0, cached_mean + seq!['m', 's'])
            &&& u.rtts.len() > 0 ==> shows(row[3].0, uncached_mean + seq!['m', 's'])
            &&& c.rtts.len() > 0 && cached_mean.len() <= 7 ==> row[1].0.len() == 9
            &&& u.rtts.len() > 0 && uncached_mean.len() <= 7 ==> row[3].0.len() == 9
            &&& c.rtts.len() == 0 ==> row[1].0.last() == '—'
            &&& u.rtts.len() == 0 ==> row[3].0.last() == '—'
            &&& row[2].0 == dec(c.rtts.len()) + seq!['/'] + dec(
                (c.rtts.len() + c.fails.timeout + c.fails.network + c.fails.protocol) as nat,
            )
            &&& row[4].0 == dec(u.rtts.len()) + seq!['/'] + dec(
                (u.rtts.len() + u.fails.timeout + u.fails.network + u.fails.protocol) as nat,
            )
        }),
{
    reveal_strlit("ms");
    reveal_strlit("/");
    reveal_strlit("       —");
    assert("ms"@ =~= seq!['m', 's']);
    assert("/"@ =~= seq!['/']);
    lemma_shows_unit(cached_mean, 7);
    lemma_shows_unit(uncached_mean, 7);
    law_padding(cached_mean, 7);
    law_padding(uncached_mean, 7);
}

proof fn lemma_shows_unit(text: Seq<char>, width: nat)
    ensures
        shows(padded_left(text, width) + seq!['m', 's'], text + seq!['m', 's']),
{
    law_padding(text, width);
    let l = padded_left(text, width);
    let a = l + seq!['m', 's'];
    let b = text + seq!['m', 's'];
    assert(b =~= a.subrange(a.len() - b.len(), a.len() as int)) by {
        assert forall|i: int| 0 <= i < b.len() implies b[i] == a[a.len() - b.len() + i] by {
            if i < text.len() {
                assert(l.skip(l.len() - text.len())[i] == text[i]);
            }
        }
    }
}

/// The line of failures gives each kind its own count, in red exactly where there is a failure of that
/// kind.
pub proof fn law_error_line_counts_by_kind(f: FailCounts)
    ensures
        ({
            let line = error_pieces(f);
            &&& line.len() == 6
            &&& line[1].0 == dec(f.timeout as nat) + " timeout"@ && (line[1].1.fg == Some(Hue::Red) <==> f.timeout > 0)
            &&& line[3].0 == dec(f.network as nat) + " network"@ && (line[3].1.fg == Some(Hue::Red) <==> f.network > 0)
            &&& line[5].0 == dec(f.protocol as nat) + " protocol"@ && (line[5].1.fg == Some(Hue::Red) <==> f.protocol > 0)
        }),
{
}

/// The status line shows the message that is up, last and in its color, and else the sort column; the
/// configuration it shows is the one for the next run.
pub proof fn law_status_line_shows_message(v: AppView)
    ensures
        ({
            let line = status_pieces(v);
            &&& v.status matches Some(s) ==> line.len() == 3 && line[2].0 == s.text && line[2].1.bold
            &&& v.status is None ==> line.len() == 2 && v.sort.spec_label().is_suffix_of(line[1].0)
            &&& status_pieces(AppView { running: v.cfg, ..v }) == line
        }),
{
    let line = status_pieces(v);
    if v.status is None {
        let l = v.sort.spec_label();
        assert(l =~= line[1].0.subrange(line[1].0.len() - l.len(), line[1].0.len() as int));
    }
}

/// The title counts the endpoints of the run and shows its domains and iterations; a change of the
/// configuration for the next run does not show in it.
pub proof fn law_title_shows_the_run(v: AppView, cfg: ConfigView, elapsed: Seq<char>)
    ensures
        title_text(AppView { cfg, ..v }, elapsed) == title_text(v, elapsed),
        v.finished ==> title_text(v, elapsed).len() == title_text(AppView { finished: false, ..v }, elapsed).len() + 7,
{
    reveal_strlit(" · DONE");
    reveal_strlit("");
}

/// The title gives the number of endpoints, of domains and of iterations, each before its word, and
/// the time since the start.
pub proof fn law_title_counts_the_run(v: AppView, elapsed: Seq<char>)
    ensures
        ({
            let t = title_text(v, elapsed);
            &&& holds(t, " dnsresolvr  "@ + dec(v.endpoints.len()))
            &&& holds(t, " endpoints · "@ + dec(v.running.domains.len()))
            &&& holds(t, " domains × "@ + dec(v.running.iterations as nat))
            &&& holds(t, " iters · elapsed "@ + elapsed)
        }),
{
    let none = Seq::<Seq<char>>::empty();
    let start = Seq::<char>::empty();
    let n = dec(v.endpoints.len());
    let d = dec(v.running.domains.len());
    let k = dec(v.running.iterations as nat);
    let done = if v.finished {
        " · DONE"@
    } else {
        ""@
    };
    lemma_holds(start, none, " dnsresolvr  "@, n);
    assert(start + " dnsresolvr  "@ =~= " dnsresolvr  "@);
    let f1 = none.push(" dnsresolvr  "@ + n);
    let t1 = " dnsresolvr  "@ + n;
    lemma_holds(t1, f1, " endpoints · "@, d);
    let f2 = f1.push(" endpoints · "@ + d);
    let t2 = t1 + " endpoints · "@ + d;
    lemma_holds(t2, f2, " domains × "@, k);
    let f3 = f2.push(" domains × "@ + k);
    let t3 = t2 + " domains × "@ + k;
    lemma_holds(t3, f3, " iters · elapsed "@, elapsed);
    let f4 = f3.push(" iters · elapsed "@ + elapsed);
    let t4 = t3 + " iters · elapsed "@ + elapsed;
    lemma_holds(t4, f4, "s"@, done);
    lemma_holds(t4 + "s"@, f4, done, " "@);
    lemma_holds(t4 + "s"@ + done, f4, " "@, start);
    assert(f4[0] == " dnsresolvr  "@ + n && f4[1] == " endpoints · "@ + d && f4[2] == " domains × "@ + k);
    assert(f4[3] == " iters · elapsed "@ + elapsed);
}

/// The label of the gauge counts what is done, then what is due, then the share in per cent.
pub proof fn law_gauge_counts_probes(done: nat, due: nat, percent: Seq<char>)
    ensures
        ({
            let t = gauge_text(done, due, percent);
            &&& dec(done).is_prefix_of(t) && t[dec(done).len() as int] == '/'
            &&& holds(t, "/"@ + dec(due))
            &&& holds(t, " probes ("@ + percent)
        }),
{
    reveal_strlit("/");
    let none = Seq::<Seq<char>>::empty();
    let t = gauge_text(done, due, percent);
    lemma_holds(dec(done), none, "/"@, dec(due));
    let f1 = none.push("/"@ + dec(due));
    let t1 = dec(done) + "/"@ + dec(due);
    lemma_holds(t1, f1, " probes ("@, percent);
    let f2 = f1.push(" probes ("@ + percent);
    lemma_holds(t1 + " probes ("@ + percent, f2, "%)"@, Seq::empty());
    assert(f2[0] == "/"@ + dec(due) && f2[1] == " probes ("@ + percent);
    assert(dec(done) =~= t.subrange(0, dec(done).len() as int));
}

/// The configuration in short gives the iterations, the spacing and the timeout in milliseconds, the
/// classes, the address families and the number of domains, each behind its word.
pub proof fn law_config_line_shows_settings(cfg: ConfigView)
    ensures
        ({
            let t = config_text(cfg);
            &&& holds(t, "  iter:"@ + dec(cfg.iterations as nat))
            &&& holds(t, " sp:"@ + dec(cfg.inter_query@ / 1_000_000))
            &&& holds(t, "ms to:"@ + dec(cfg.timeout@ / 1_000_000))
            &&& cfg.cached && cfg.uncached ==> holds(t, "ms "@ + "cached+uncached"@)
            &&& cfg.cached && !cfg.uncached ==> holds(t, "ms "@ + "cached-only"@)
            &&& !cfg.cached && cfg.uncached ==> holds(t, "ms "@ + "uncached-only"@)
            &&& !cfg.cached && !cfg.uncached ==> holds(t, "ms "@ + "none"@)
            &&& cfg.include_ipv6 ==> holds(t, " "@ + "v4+v6"@)
            &&& !cfg.include_ipv6 ==> holds(t, " "@ + "v4"@)
            &&& holds(t, " domains:"@ + dec(cfg.domains.len()))
        }),
{
    let none = Seq::<Seq<char>>::empty();
    let start = Seq::<char>::empty();
    let i = dec(cfg.iterations as nat);
    let s = dec(cfg.inter_query@ / 1_000_000);
    let o = dec(cfg.timeout@ / 1_000_000);
    let w = class_word(cfg.cached, cfg.uncached);
    let k = stack_name(cfg.include_ipv6);
    let d = dec(cfg.domains.len());
    lemma_holds(start, none, "  iter:"@, i);
    assert(start + "  iter:"@ =~= "  iter:"@);
    let f1 = none.push("  iter:"@ + i);
    let t1 = "  iter:"@ + i;
    lemma_holds(t1, f1, " sp:"@, s);
    let f2 = f1.push(" sp:"@ + s);
    let t2 = t1 + " sp:"@ + s;
    lemma_holds(t2, f2, "ms to:"@, o);
    let f3 = f2.push("ms to:"@ + o);
    let t3 = t2 + "ms to:"@ + o;
    lemma_holds(t3, f3, "ms "@, w);
    let f4 = f3.push("ms "@ + w);
    let t4 = t3 + "ms "@ + w;
    lemma_holds(t4, f4, " "@, k);
    let f5 = f4.push(" "@ + k);
    let t5 = t4 + " "@ + k;
    lemma_holds(t5, f5, " domains:"@, d);
    let f6 = f5.push(" domains:"@ + d);
    assert(f6[0] == "  iter:"@ + i && f6[1] == " sp:"@ + s && f6[2] == "ms to:"@ + o && f6[3] == "ms "@ + w);
    assert(f6[4] == " "@ + k && f6[5] == " domains:"@ + d);
}

/// The line of a class shows every figure behind its own word, and how many probes of how many were
/// answered; without figures it shows that there are none. Its label comes first.
pub proof fn law_class_line_shows_figures(label: Seq<char>, x: Summary, f: Figures, h: Hue)
    ensures
        ({
            let line = class_line_pieces(label, Some(x), f, h);
            let t = line[1].0;
            &&& line.len() == 2 && label.is_prefix_of(line[0].0) && line[0].1.fg == Some(h)
            &&& label.len() <= 8 ==> line[0].0.len() == 8
            &&& holds(t, " p50 "@ + padded_left(f.p50@, 6))
            &&& holds(t, "ms  p95 "@ + padded_left(f.p95@, 6))
            &&& holds(t, "ms  p99 "@ + padded_left(f.p99@, 6))
            &&& holds(t, "ms  min "@ + padded_left(f.min@, 6))
            &&& holds(t, "ms  max "@ + padded_left(f.max@, 6))
            &&& holds(t, "ms  stddev "@ + padded_left(f.stddev@, 5))
            &&& holds(t, "ms  rel "@ + padded_left(f.reliability@, 3))
            &&& holds(t, "%  ("@ + dec(x.successes as nat))
            &&& holds(t, "/"@ + dec(x.total as nat))
        }),
        ({
            let line = class_line_pieces(label, None, f, h);
            line.len() == 2 && label.is_prefix_of(line[0].0) && line[1].0 == " no data yet"@
        }),
{
    law_padding(label, 8);
    assert(label =~= padded_right(label, 8).subrange(0, label.len() as int));
    let none = Seq::<(Seq<char>, Seq<char>)>::empty();
    let p1 = none.push((" p50 "@, padded_left(f.p50@, 6)));
    let p2 = p1.push(("ms  p95 "@, padded_left(f.p95@, 6)));
    let p3 = p2.push(("ms  p99 "@, padded_left(f.p99@, 6)));
    let p4 = p3.push(("ms  min "@, padded_left(f.min@, 6)));
    let p5 = p4.push(("ms  max "@, padded_left(f.max@, 6)));
    let p6 = p5.push(("ms  stddev "@, padded_left(f.stddev@, 5)));
    let p7 = p6.push(("ms  rel "@, padded_left(f.reliability@, 3)));
    let p8 = p7.push(("%  ("@, dec(x.successes as nat)));
    let p9 = p8.push(("/"@, dec(x.total as nat)));
    lemma_labelled_push(none, " p50 "@, padded_left(f.p50@, 6));
    lemma_labelled_push(p1, "ms  p95 "@, padded_left(f.p95@, 6));
    lemma_labelled_push(p2, "ms  p99 "@, padded_left(f.p99@, 6));
    lemma_labelled_push(p3, "ms  min "@, padded_left(f.min@, 6));
    lemma_labelled_push(p4, "ms  max "@, padded_left(f.max@, 6));
    lemma_labelled_push(p5, "ms  stddev "@, padded_left(f.stddev@, 5));
    lemma_labelled_push(p6, "ms  rel "@, padded_left(f.reliability@, 3));
    lemma_labelled_push(p7, "%  ("@, dec(x.successes as nat));
    lemma_labelled_push(p8, "/"@, dec(x.total as nat));
    lemma_labelled_holds(p9, ")"@);
    assert(p9[0] == p1[0] && p9[1] == p2[1] && p9[2] == p3[2] && p9[3] == p4[3] && p9[4] == p5[4]);
    assert(p9[5] == p6[5] && p9[6] == p7[6] && p9[7] == p8[7]);
    assert(p9[8].0 == "/"@);
}

/// The line that names an endpoint shows its name, its provider in brackets and its address.
pub proof fn law_endpoint_line_names_endpoint(v: EndpointView)
    ensures
        ({
            let line = endpoint_pieces(v);
            &&& line.len() == 3
            &&& line[0].0.drop_last() == v.name
            &&& line[1].0[0] == '(' && line[1].0.len() == v.provider.len() + 3 && line[1].0.subrange(
                1,
                1 + v.provider.len() as int,
            ) == v.provider
            &&& line[2].0 == v.addr_display
        }),
{
    reveal_strlit(" ");
    reveal_strlit("(");
    reveal_strlit(") ");
    let line = endpoint_pieces(v);
    assert(line[0].0.drop_last() =~= v.name);
    assert(line[1].0.subrange(1, 1 + v.provider.len() as int) =~= v.provider);
}

/// A message is shown in its own color.
pub proof fn law_messages_keep_their_color(v: AppView)
    requires
        v.status is Some,
    ensures
        ({
            let hue = status_pieces(v)[2].1.fg;
            let color = v.status->0.color;
            &&& hue == Some(Hue::Red) <==> color == Color::Red
            &&& hue == Some(Hue::Green) <==> color == Color::Green
            &&& hue == Some(Hue::Cyan) <==> color == Color::Cyan
            &&& hue == Some(Hue::Yellow) <==> color == Color::Yellow
            &&& hue == Some(Hue::White) <==> color == Color::White
        }),
{
}

/// The line at the bottom shows the command as far as it is typed; in the other modes it does not
/// depend on anything but whether the detail pane is open.
pub proof fn law_footer_shows_command(v: AppView, w: AppView)
    ensures
        v.mode matches ModeView::Command(input) ==> {
            let line = footer_pieces(v);
            line.len() == 3 && line[0].0 == ":"@ && line[1].0 == input && line[2].1.blink
        },
        !(v.mode is Command) && !(w.mode is Command) && v.detail_open == w.detail_open ==> footer_pieces(v)
            == footer_pieces(w),
        !(v.mode is Command) && v.detail_open ==> footer_pieces(v)[0].0 == "[Esc]"@,
        !(v.mode is Command) && !v.detail_open ==> footer_pieces(v)[2].0 == "[Enter]"@,
{
}

/// The reliability in a row is colored by the share of answered probes of its own class, and so is no
/// other figure.
pub proof fn law_row_colors_go_by_class(
    v: EndpointView,
    s: Summary,
    c: Cells,
    t: Summary,
    u: Cells,
    bar: Seq<char>,
)
    requires
        s.successes <= s.total,
        t.successes <= t.total,
        0 < s.total < 0x100_0000_0000,
        0 < t.total < 0x100_0000_0000,
    ensures
        ({
            let row = row_pieces(v, Some((Some(s), c)), Some((Some(t), u)), bar);
            &&& row[5].1.fg == Some(Hue::Red) <==> 5 * s.successes < 4 * s.total
            &&& row[5].1.fg == Some(Hue::Green) <==> 50 * s.successes >= 49 * s.total
            &&& row[9].1.fg == Some(Hue::Red) <==> 5 * t.successes < 4 * t.total
            &&& row[9].1.fg == Some(Hue::Green) <==> 50 * t.successes >= 49 * t.total
            &&& row[2].1.fg == Some(Hue::LightGreen) && row[6].1.fg == Some(Hue::LightMagenta)
        }),
{
    law_reliability_colors(s.successes as nat, s.total as nat);
    law_reliability_colors(t.successes as nat, t.total as nat);
}

/// The columns of the classes are eight wide, and every heading fits into its column.
pub proof fn law_headings_fit_their_columns(cached: bool, uncached: bool)
    ensures
        ({
            let heads = heading_pieces(cached, uncached);
            let widths = heading_widths(cached, uncached);
            &&& widths.len() == heads.len()
            &&& widths[0] == Width::Length(22) && widths[1] == Width::Length(20) && widths.last() == Width::AtLeast(16)
            &&& forall|i: int| 2 <= i < widths.len() - 1 ==> #[trigger] widths[i] == Width::Length(8) && heads[i].0.len() <= 8
        }),
{
    reveal_strlit("c_p50");
    reveal_strlit("c_p95");
    reveal_strlit("c_p99");
    reveal_strlit("c_rel");
    reveal_strlit("u_p50");
    reveal_strlit("u_p95");
    reveal_strlit("u_p99");
    reveal_strlit("u_rel");
}

/// The cells of a class are as wide as each other, whatever figures up to their width they show: six
/// for a percentile, and five for the reliability.
pub proof fn law_cells_are_equally_wide(v: EndpointView, s: Summary, f: Cells, bar: Seq<char>)
    requires
        f.p50@.len() <= 6,
        f.p95@.len() <= 6,
        f.p99@.len() <= 6,
        f.rel@.len() <= 4,
    ensures
        ({
            let row = row_pieces(v, Some((Some(s), f)), Some((Some(s), f)), bar);
            &&& row[2].0.len() == 6 && row[3].0.len() == 6 && row[4].0.len() == 6 && row[5].0.len() == 5
            &&& row[6].0.len() == 6 && row[7].0.len() == 6 && row[8].0.len() == 6 && row[9].0.len() == 5
        }),
{
    reveal_strlit("%");
    law_padding(f.p50@, 6);
    law_padding(f.p95@, 6);
    law_padding(f.p99@, 6);
    law_padding(f.rel@, 4);
}

} // verus!
