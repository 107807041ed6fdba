//! Settings that can be changed in a session.

use vstd::prelude::*;
use vstd::string::StringExecFns;

use crate::bench::ConfigView;
use crate::config::{preset_iterations, preset_named, Preset};
use crate::duration::{lemma_duration_eq, lemma_of_nanos, of_nanos, Duration};
use crate::session::{App, AppView, Color};
use crate::text::{
    dec, decimal, holds, law_lower_case, law_numeral_read_back, lemma_holds, lower, lowered, numbered, parse_number,
    parsed_number, same, string_of, texts,
};

verus! {

broadcast use vstd::string::group_string_axioms;

/// The setting that a word stands for: on, off, or the other than now.
pub open spec fn parsed_bool(w: Seq<char>, current: bool) -> Option<bool> {
    let l = lower(w);
    if l == "on"@ || l == "true"@ || l == "1"@ || l == "yes"@ {
        Some(true)
    } else if l == "off"@ || l == "false"@ || l == "0"@ || l == "no"@ {
        Some(false)
    } else if l == "toggle"@ || l == ""@ {
        Some(!current)
    } else {
        None
    }
}

/// A truth value in words.
pub open spec fn bool_text(b: bool) -> Seq<char> {
    if b {
        "true"@
    } else {
        "false"@
    }
}

/// A setting that can be changed.
#[derive(Clone, Copy, Debug, PartialEq, Eq, Structural)]
pub enum Setting {
    Iterations,
    Spacing,
    Timeout,
    Preset,
    Ipv6,
    Cached,
    Uncached,
}

/// The setting that a word in lower case names.
pub open spec fn setting_named(k: Seq<char>) -> Option<Setting> {
    if k == "iter"@ || k == "iterations"@ {
        Some(Setting::Iterations)
    } else if k == "sp"@ || k == "spacing"@ || k == "spacing_ms"@ {
        Some(Setting::Spacing)
    } else if k == "to"@ || k == "timeout"@ || k == "timeout_ms"@ {
        Some(Setting::Timeout)
    } else if k == "preset"@ {
        Some(Setting::Preset)
    } else if k == "ipv6"@ {
        Some(Setting::Ipv6)
    } else if k == "cached"@ || k == "warm"@ {
        Some(Setting::Cached)
    } else if k == "uncached"@ || k == "cold"@ {
        Some(Setting::Uncached)
    } else {
        None
    }
}

/// What setting the iterations does.
pub open spec fn iterations_set(v: AppView, val: Seq<char>, now: Duration) -> AppView {
    match parsed_number(val, usize::MAX as nat) {
        Some(n) => if n > 0 {
            v.configured(
                ConfigView { iterations: n as usize, ..v.cfg },
                "iterations = "@ + dec(n) + " (:r to apply)"@,
                now,
            )
        } else {
            v.says("iter: expected positive integer"@, Color::Red, now)
        },
        None => v.says("iter: expected positive integer"@, Color::Red, now),
    }
}

/// What setting the spacing does.
pub open spec fn spacing_set(v: AppView, val: Seq<char>, now: Duration) -> AppView {
    match parsed_number(val, u64::MAX as nat) {
        Some(n) => v.configured(
            ConfigView { inter_query: millis(n), ..v.cfg },
            "spacing = "@ + dec(n) + "ms (:r to apply)"@,
            now,
        ),
        None => v.says("spacing: expected non-negative integer (ms)"@, Color::Red, now),
    }
}

/// What setting the timeout does.
pub open spec fn timeout_set(v: AppView, val: Seq<char>, now: Duration) -> AppView {
    match parsed_number(val, u64::MAX as nat) {
        Some(n) => if n > 0 {
            v.configured(
                ConfigView { timeout: millis(n), ..v.cfg },
                "timeout = "@ + dec(n) + "ms (:r to apply)"@,
                now,
            )
        } else {
            v.says("timeout: expected positive integer (ms)"@, Color::Red, now)
        },
        None => v.says("timeout: expected positive integer (ms)"@, Color::Red, now),
    }
}

/// What setting a preset does.
pub open spec fn preset_set(v: AppView, val: Seq<char>, now: Duration) -> AppView {
    match preset_named(val) {
        Some(p) => v.configured(
            ConfigView { iterations: preset_iterations(p), ..v.cfg },
            "preset "@ + val + " -> iterations = "@ + dec(preset_iterations(p) as nat) + " (:r to apply)"@,
            now,
        ),
        None => v.says("preset: quick | standard | thorough | exhaustive"@, Color::Red, now),
    }
}

/// What switching IPv6 does.
pub open spec fn ipv6_set(v: AppView, val: Seq<char>, now: Duration) -> AppView {
    match parsed_bool(val, v.cfg.include_ipv6) {
        Some(b) => v.configured(
            ConfigView { include_ipv6: b, ..v.cfg },
            "ipv6 = "@ + bool_text(b) + " (:r to apply)"@,
            now,
        ),
        None => v.says("ipv6: on | off | toggle"@, Color::Red, now),
    }
}

/// What switching the cached class does: it stays on while the uncached class is off.
pub open spec fn cached_set(v: AppView, val: Seq<char>, now: Duration) -> AppView {
    match parsed_bool(val, v.cfg.cached) {
        Some(b) => if !b && !v.cfg.uncached {
            v.says("cannot disable cached while uncached is off"@, Color::Red, now)
        } else {
            v.configured(ConfigView { cached: b, ..v.cfg }, "cached = "@ + bool_text(b) + " (:r to apply)"@, now)
        },
        None => v.says("cached: on | off | toggle"@, Color::Red, now),
    }
}

/// What switching the uncached class does: it stays on while the cached class is off.
pub open spec fn uncached_set(v: AppView, val: Seq<char>, now: Duration) -> AppView {
    match parsed_bool(val, v.cfg.uncached) {
        Some(b) => if !b && !v.cfg.cached {
            v.says("cannot disable uncached while cached is off"@, Color::Red, now)
        } else {
            v.configured(ConfigView { uncached: b, ..v.cfg }, "uncached = "@ + bool_text(b) + " (:r to apply)"@, now)
        },
        None => v.says("uncached: on | off | toggle"@, Color::Red, now),
    }
}

/// What setting `key` to `val` does.
#[verifier::opaque]
pub open spec fn set_to(v: AppView, key: Seq<char>, val: Seq<char>, now: Duration) -> AppView {
    match setting_named(lower(key)) {
        Some(Setting::Iterations) => iterations_set(v, val, now),
        Some(Setting::Spacing) => spacing_set(v, val, now),
        Some(Setting::Timeout) => timeout_set(v, val, now),
        Some(Setting::Preset) => preset_set(v, val, now),
        Some(Setting::Ipv6) => ipv6_set(v, val, now),
        Some(Setting::Cached) => cached_set(v, val, now),
        Some(Setting::Uncached) => uncached_set(v, val, now),
        None => v.says("unknown setting: "@ + lower(key), Color::Red, now),
    }
}

/// What a `set` command with these words does.
pub open spec fn set_with(v: AppView, args: Seq<Seq<char>>, now: Duration) -> AppView {
    if args.len() == 0 {
        v.says("usage: :set <key> <value>"@, Color::Red, now)
    } else {
        let val = if args.len() > 1 {
            args[1]
        } else {
            ""@
        };
        set_to(v, args[0], val, now)
    }
}

/// `n` milliseconds.
pub open spec fn millis(n: nat) -> Duration {
    of_nanos(n * 1_000_000)
}

fn parse_bool(w: &str, current: bool) -> (r: Option<bool>)
    ensures
        r == parsed_bool(w@, current),
{
    let word = string_of(&lowered(w));
    let l = word.as_str();
    if same(l, "on") || same(l, "true") || same(l, "1") || same(l, "yes") {
        Some(true)
    } else if same(l, "off") || same(l, "false") || same(l, "0") || same(l, "no") {
        Some(false)
    } else if same(l, "toggle") || same(l, "") {
        Some(!current)
    } else {
        None
    }
}

fn find_setting(k: &str) -> (r: Option<Setting>)
    ensures
        r == setting_named(k@),
{
    if same(k, "iter") || same(k, "iterations") {
        Some(Setting::Iterations)
    } else if same(k, "sp") || same(k, "spacing") || same(k, "spacing_ms") {
        Some(Setting::Spacing)
    } else if same(k, "to") || same(k, "timeout") || same(k, "timeout_ms") {
        Some(Setting::Timeout)
    } else if same(k, "preset") {
        Some(Setting::Preset)
    } else if same(k, "ipv6") {
        Some(Setting::Ipv6)
    } else if same(k, "cached") || same(k, "warm") {
        Some(Setting::Cached)
    } else if same(k, "uncached") || same(k, "cold") {
        Some(Setting::Uncached)
    } else {
        None
    }
}

/// The text `a`, then the truth value `v`, then the text `b`.
fn switched(a: &str, v: bool, b: &str) -> (r: String)
    ensures
        r@ == a@ + bool_text(v) + b@,
{
    let mut r = a.to_owned();
    r.append(if v {
        "true"
    } else {
        "false"
    });
    r.append(b);
    r
}

fn from_millis(n: u64) -> (r: Duration)
    ensures
        r == millis(n as nat),
{
    let r = Duration::from_millis(n);
    proof {
        lemma_of_nanos(n as nat * 1_000_000);
        lemma_duration_eq(r, millis(n as nat));
    }
    r
}

impl App {
    fn complain(&mut self, text: &str, now: Duration)
        ensures
            final(self)@ == old(self)@.says(text@, Color::Red, now),
    {
        self.set_status(text.to_owned(), Color::Red, now);
    }

    fn set_iterations(&mut self, val: &str, now: Duration)
        ensures
            final(self)@ == iterations_set(old(self)@, val@, now),
    {
        match parse_number(val, usize::MAX as u64) {
            Some(n) => {
                if n > 0 {
                    self.cfg.iterations = n as usize;
                    self.set_status(numbered("iterations = ", n as u128, " (:r to apply)"), Color::Cyan, now);
                } else {
                    self.complain("iter: expected positive integer", now);
                }
            },
            None => self.complain("iter: expected positive integer", now),
        }
    }

    fn set_spacing(&mut self, val: &str, now: Duration)
        ensures
            final(self)@ == spacing_set(old(self)@, val@, now),
    {
        match parse_number(val, u64::MAX) {
            Some(n) => {
                self.cfg.inter_query = from_millis(n);
                self.set_status(numbered("spacing = ", n as u128, "ms (:r to apply)"), Color::Cyan, now);
            },
            None => self.complain("spacing: expected non-negative integer (ms)", now),
        }
    }

    fn set_timeout(&mut self, val: &str, now: Duration)
        ensures
            final(self)@ == timeout_set(old(self)@, val@, now),
    {
        match parse_number(val, u64::MAX) {
            Some(n) => {
                if n > 0 {
                    self.cfg.timeout = from_millis(n);
                    self.set_status(numbered("timeout = ", n as u128, "ms (:r to apply)"), Color::Cyan, now);
                } else {
                    self.complain("timeout: expected positive integer (ms)", now);
                }
            },
            None => self.complain("timeout: expected positive integer (ms)", now),
        }
    }

    fn set_preset(&mut self, val: &str, now: Duration)
        ensures
            final(self)@ == preset_set(old(self)@, val@, now),
    {
        match Preset::parse_name(val) {
            Some(p) => {
                self.cfg.iterations = p.iterations();
                let mut text = "preset ".to_owned();
                text.append(val);
                text.append(" -> iterations = ");
                let n = decimal(p.iterations() as u128);
                text.append(n.as_str());
                text.append(" (:r to apply)");
                self.set_status(text, Color::Cyan, now);
            },
            None => self.complain("preset: quick | standard | thorough | exhaustive", now),
        }
    }

    fn set_ipv6(&mut self, val: &str, now: Duration)
        ensures
            final(self)@ == ipv6_set(old(self)@, val@, now),
    {
        match parse_bool(val, self.cfg.include_ipv6) {
            Some(b) => {
                self.cfg.include_ipv6 = b;
                self.set_status(switched("ipv6 = ", b, " (:r to apply)"), Color::Cyan, now);
            },
            None => self.complain("ipv6: on | off | toggle", now),
        }
    }

    fn set_cached(&mut self, val: &str, now: Duration)
        ensures
            final(self)@ == cached_set(old(self)@, val@, now),
    {
        match parse_bool(val, self.cfg.cached) {
            Some(b) => {
                if !b && !self.cfg.uncached {
                    self.complain("cannot disable cached while uncached is off", now);
                } else {
                    self.cfg.cached = b;
                    self.set_status(switched("cached = ", b, " (:r to apply)"), Color::Cyan, now);
                }
            },
            None => self.complain("cached: on | off | toggle", now),
        }
    }

    fn set_uncached(&mut self, val: &str, now: Duration)
        ensures
            final(self)@ == uncached_set(old(self)@, val@, now),
    {
        match parse_bool(val, self.cfg.uncached) {
            Some(b) => {
                if !b && !self.cfg.cached {
                    self.complain("cannot disable uncached while cached is off", now);
                } else {
                    self.cfg.uncached = b;
                    self.set_status(switched("uncached = ", b, " (:r to apply)"), Color::Cyan, now);
                }
            },
            None => self.complain("uncached: on | off | toggle", now),
        }
    }

    pub(crate) fn set_value(&mut self, key: &str, val: &str, now: Duration)
        ensures
            final(self)@ == set_to(old(self)@, key@, val@, now),
    {
        reveal(set_to);
        let word = string_of(&lowered(key));
        match find_setting(word.as_str()) {
            Some(Setting::Iterations) => self.set_iterations(val, now),
            Some(Setting::Spacing) => self.set_spacing(val, now),
            Some(Setting::Timeout) => self.set_timeout(val, now),
            Some(Setting::Preset) => self.set_preset(val, now),
            Some(Setting::Ipv6) => self.set_ipv6(val, now),
            Some(Setting::Cached) => self.set_cached(val, now),
            Some(Setting::Uncached) => self.set_uncached(val, now),
            None => {
                let mut text = "unknown setting: ".to_owned();
                text.append(word.as_str());
                self.set_status(text, Color::Red, now);
            },
        }
    }

    /// Run a `set` command with these words.
    pub fn apply_set(&mut self, args: &[String], now: Duration)
        ensures
            final(self)@ == set_with(old(self)@, texts(args@), now),
    {
        if args.len() == 0 {
            self.complain("usage: :set <key> <value>", now);
        } else if args.len() > 1 {
            self.set_value(args[0].as_str(), args[1].as_str(), now);
        } else {
            self.set_value(args[0].as_str(), "", now);
        }
    }
}

/// A setting changes nothing but the configuration and the message, leaves a class enabled, and
/// keeps the iterations and the timeout positive.
proof fn lemma_setting(v: AppView, key: Seq<char>, val: Seq<char>, now: Duration)
    ensures
        ({
            let after = set_to(v, key, val, now);
            &&& after == (AppView { cfg: after.cfg, status: after.status, ..v })
            &&& v.cfg.cached || v.cfg.uncached ==> after.cfg.cached || after.cfg.uncached
            &&& v.cfg.iterations > 0 ==> after.cfg.iterations > 0
            &&& v.cfg.timeout@ > 0 ==> after.cfg.timeout@ > 0
        }),
{
    reveal(set_to);
    match parsed_number(val, u64::MAX as nat) {
        Some(n) => lemma_of_nanos(n * 1_000_000),
        None => {},
    }
}

/// A `set` command changes no more than a setting does.
pub proof fn lemma_set_with(v: AppView, args: Seq<Seq<char>>, now: Duration)
    ensures
        ({
            let after = set_with(v, args, now);
            &&& after == (AppView { cfg: after.cfg, status: after.status, ..v })
            &&& v.cfg.cached || v.cfg.uncached ==> after.cfg.cached || after.cfg.uncached
            &&& v.cfg.iterations > 0 ==> after.cfg.iterations > 0
            &&& v.cfg.timeout@ > 0 ==> after.cfg.timeout@ > 0
        }),
{
    if args.len() > 1 {
        lemma_setting(v, args[0], args[1], now);
    } else if args.len() == 1 {
        lemma_setting(v, args[0], ""@, now);
    }
}

/// The words that name settings, and what they name.
proof fn lemma_setting_words()
    ensures
        setting_named(lower("iter"@)) == Some(Setting::Iterations),
        setting_named(lower("iterations"@)) == Some(Setting::Iterations),
        setting_named(lower("sp"@)) == Some(Setting::Spacing),
        setting_named(lower("spacing"@)) == Some(Setting::Spacing),
        setting_named(lower("spacing_ms"@)) == Some(Setting::Spacing),
        setting_named(lower("to"@)) == Some(Setting::Timeout),
        setting_named(lower("timeout"@)) == Some(Setting::Timeout),
        setting_named(lower("timeout_ms"@)) == Some(Setting::Timeout),
        setting_named(lower("preset"@)) == Some(Setting::Preset),
        setting_named(lower("ipv6"@)) == Some(Setting::Ipv6),
        setting_named(lower("cached"@)) == Some(Setting::Cached),
        setting_named(lower("warm"@)) == Some(Setting::Cached),
        setting_named(lower("uncached"@)) == Some(Setting::Uncached),
        setting_named(lower("cold"@)) == Some(Setting::Uncached),
{
    reveal_strlit("iter");
    reveal_strlit("iterations");
    reveal_strlit("sp");
    reveal_strlit("spacing");
    reveal_strlit("spacing_ms");
    reveal_strlit("to");
    reveal_strlit("timeout");
    reveal_strlit("timeout_ms");
    reveal_strlit("preset");
    reveal_strlit("ipv6");
    reveal_strlit("cached");
    reveal_strlit("warm");
    reveal_strlit("uncached");
    reveal_strlit("cold");
    assert(lower("iter"@) =~= "iter"@);
    assert(lower("iterations"@) =~= "iterations"@);
    assert(lower("sp"@) =~= "sp"@);
    assert(lower("spacing"@) =~= "spacing"@);
    assert(lower("spacing_ms"@) =~= "spacing_ms"@);
    assert(lower("to"@) =~= "to"@);
    assert(lower("timeout"@) =~= "timeout"@);
    assert(lower("timeout_ms"@) =~= "timeout_ms"@);
    assert(lower("preset"@) =~= "preset"@);
    assert(lower("ipv6"@) =~= "ipv6"@);
    assert(lower("cached"@) =~= "cached"@);
    assert(lower("warm"@) =~= "warm"@);
    assert(lower("uncached"@) =~= "uncached"@);
    assert(lower("cold"@) =~= "cold"@);
    assert("iter"@[1] != "ipv6"@[1]);
    assert("iter"@[0] != "warm"@[0]);
    assert("iter"@[0] != "cold"@[0]);
    assert("iterations"@[0] != "spacing_ms"@[0]);
    assert("iterations"@[0] != "timeout_ms"@[0]);
    assert("sp"@[0] != "to"@[0]);
    assert("spacing"@[0] != "timeout"@[0]);
    assert("spacing_ms"@[0] != "timeout_ms"@[0]);
    assert("preset"@[0] != "cached"@[0]);
    assert("ipv6"@[0] != "warm"@[0]);
    assert("ipv6"@[0] != "cold"@[0]);
    assert("warm"@[0] != "cold"@[0]);
}

proof fn lemma_switch_words(w: Seq<char>, current: bool)
    ensures
        lower(w) == "on"@ || lower(w) == "true"@ || lower(w) == "1"@ || lower(w) == "yes"@ ==> parsed_bool(w, current)
            == Some(true),
        lower(w) == "off"@ || lower(w) == "false"@ || lower(w) == "0"@ || lower(w) == "no"@ ==> parsed_bool(w, current)
            == Some(false),
        lower(w) == "toggle"@ || w.len() == 0 ==> parsed_bool(w, current) == Some(!current),
{
    reveal_strlit("on");
    reveal_strlit("true");
    reveal_strlit("1");
    reveal_strlit("yes");
    reveal_strlit("off");
    reveal_strlit("false");
    reveal_strlit("0");
    reveal_strlit("no");
    reveal_strlit("toggle");
    reveal_strlit("");
    assert("on"@[0] != "no"@[0]);
    assert("1"@[0] != "0"@[0]);
    assert("yes"@[0] != "off"@[0]);
    if w.len() == 0 {
        assert(lower(w) =~= ""@);
    }
}

proof fn lemma_preset_words(w: Seq<char>)
    ensures
        lower(w) == "quick"@ || lower(w) == "q"@ ==> preset_named(w) == Some(Preset::Quick),
        lower(w) == "standard"@ || lower(w) == "std"@ || lower(w) == "s"@ ==> preset_named(w) == Some(Preset::Standard),
        lower(w) == "thorough"@ || lower(w) == "t"@ ==> preset_named(w) == Some(Preset::Thorough),
        lower(w) == "exhaustive"@ || lower(w) == "exh"@ || lower(w) == "e"@ ==> preset_named(w) == Some(
            Preset::Exhaustive,
        ),
{
    reveal_strlit("quick");
    reveal_strlit("q");
    reveal_strlit("standard");
    reveal_strlit("std");
    reveal_strlit("s");
    reveal_strlit("thorough");
    reveal_strlit("t");
    reveal_strlit("exhaustive");
    reveal_strlit("e");
    reveal_strlit("exh");
    assert("q"@[0] != "s"@[0]);
    assert("q"@[0] != "t"@[0]);
    assert("q"@[0] != "e"@[0]);
    assert("standard"@[0] != "thorough"@[0]);
    assert("std"@[0] != "exh"@[0]);
    assert("s"@[0] != "t"@[0]);
    assert("s"@[0] != "e"@[0]);
    assert("t"@[0] != "e"@[0]);
    if lower(w) == "exhaustive"@ {
        assert(lower(w).len() == 10);
        assert(preset_named(w) == Some(Preset::Exhaustive));
    }
    if lower(w) == "exh"@ {
        assert(lower(w)[0] == 'e' && lower(w).len() == 3);
        assert(preset_named(w) == Some(Preset::Exhaustive));
    }
    if lower(w) == "e"@ {
        assert(lower(w)[0] == 'e' && lower(w).len() == 1);
        assert(preset_named(w) == Some(Preset::Exhaustive));
    }
}

/// Setting a number sets it: the iterations, the spacing and the timeout to the number that the word
/// writes, the latter two in milliseconds, and nothing else of the configuration.
pub proof fn law_numbers_are_set(v: AppView, key: Seq<char>, n: nat, now: Duration)
    requires
        n <= u64::MAX,
    ensures
        ({
            let after = set_with(v, seq![key, dec(n)], now);
            &&& (key == "iter"@ || key == "iterations"@) && 0 < n <= usize::MAX ==> after.cfg == (ConfigView {
                iterations: n as usize,
                ..v.cfg
            })
            &&& key == "sp"@ || key == "spacing"@ || key == "spacing_ms"@ ==> after.cfg.inter_query@ == n * 1_000_000
                && after.cfg == (ConfigView { inter_query: after.cfg.inter_query, ..v.cfg })
            &&& (key == "to"@ || key == "timeout"@ || key == "timeout_ms"@) && n > 0 ==> after.cfg.timeout@ == n * 1_000_000
                && after.cfg == (ConfigView { timeout: after.cfg.timeout, ..v.cfg })
            &&& (key == "iter"@ || key == "iterations"@ || key == "to"@ || key == "timeout"@ || key == "timeout_ms"@) && n == 0
                ==> after.cfg == v.cfg && (after.status matches Some(s) && s.color == Color::Red)
        }),
{
    reveal(set_to);
    lemma_setting_words();
    law_numeral_read_back(n, u64::MAX as nat);
    if n <= usize::MAX {
        law_numeral_read_back(n, usize::MAX as nat);
    }
    lemma_of_nanos(n * 1_000_000);
    let args = seq![key, dec(n)];
    assert(args[0] == key && args[1] == dec(n) && args.len() == 2);
}

/// A word that writes no number, or none that fits, changes no number: the message says so in red.
pub proof fn law_other_words_set_no_number(v: AppView, key: Seq<char>, val: Seq<char>, now: Duration)
    requires
        parsed_number(val, u64::MAX as nat) is None,
        key == "iter"@ || key == "iterations"@ || key == "sp"@ || key == "spacing"@ || key == "spacing_ms"@ || key == "to"@
            || key == "timeout"@ || key == "timeout_ms"@,
    ensures
        ({
            let after = set_with(v, seq![key, val], now);
            after.cfg == v.cfg && (after.status matches Some(s) && s.color == Color::Red && s.since == now)
        }),
{
    reveal(set_to);
    lemma_setting_words();
    let args = seq![key, val];
    assert(args[0] == key && args[1] == val && args.len() == 2);
}

/// A switch is put on, put off or turned over by the words for it, and nothing else of the
/// configuration changes; but of the two classes one stays on.
pub proof fn law_switches_are_set(v: AppView, key: Seq<char>, w: Seq<char>, now: Duration)
    ensures
        ({
            let after = set_with(v, seq![key, w], now).cfg;
            let on = lower(w) == "on"@ || lower(w) == "true"@ || lower(w) == "1"@ || lower(w) == "yes"@;
            let off = lower(w) == "off"@ || lower(w) == "false"@ || lower(w) == "0"@ || lower(w) == "no"@;
            let turn = lower(w) == "toggle"@;
            &&& key == "ipv6"@ && on ==> after == (ConfigView { include_ipv6: true, ..v.cfg })
            &&& key == "ipv6"@ && off ==> after == (ConfigView { include_ipv6: false, ..v.cfg })
            &&& key == "ipv6"@ && turn ==> after == (ConfigView { include_ipv6: !v.cfg.include_ipv6, ..v.cfg })
            &&& (key == "cached"@ || key == "warm"@) && on ==> after == (ConfigView { cached: true, ..v.cfg })
            &&& (key == "cached"@ || key == "warm"@) && off ==> after == (ConfigView {
                cached: !v.cfg.uncached && v.cfg.cached,
                ..v.cfg
            })
            &&& (key == "cached"@ || key == "warm"@) && turn && v.cfg.uncached ==> after == (ConfigView {
                cached: !v.cfg.cached,
                ..v.cfg
            })
            &&& (key == "uncached"@ || key == "cold"@) && on ==> after == (ConfigView { uncached: true, ..v.cfg })
            &&& (key == "uncached"@ || key == "cold"@) && off ==> after == (ConfigView {
                uncached: !v.cfg.cached && v.cfg.uncached,
                ..v.cfg
            })
            &&& (key == "uncached"@ || key == "cold"@) && turn && v.cfg.cached ==> after == (ConfigView {
                uncached: !v.cfg.uncached,
                ..v.cfg
            })
        }),
{
    reveal(set_to);
    lemma_setting_words();
    lemma_switch_words(w, v.cfg.include_ipv6);
    lemma_switch_words(w, v.cfg.cached);
    lemma_switch_words(w, v.cfg.uncached);
    let args = seq![key, w];
    assert(args[0] == key && args[1] == w && args.len() == 2);
}

/// A preset sets the iterations to 1, 5, 20 or 50, and nothing else.
pub proof fn law_presets_are_set(v: AppView, w: Seq<char>, now: Duration)
    ensures
        ({
            let after = set_with(v, seq!["preset"@, w], now).cfg;
            &&& lower(w) == "quick"@ || lower(w) == "q"@ ==> after == (ConfigView { iterations: 1, ..v.cfg })
            &&& lower(w) == "standard"@ || lower(w) == "std"@ || lower(w) == "s"@ ==> after == (ConfigView {
                iterations: 5,
                ..v.cfg
            })
            &&& lower(w) == "thorough"@ || lower(w) == "t"@ ==> after == (ConfigView { iterations: 20, ..v.cfg })
            &&& lower(w) == "exhaustive"@ || lower(w) == "exh"@ || lower(w) == "e"@ ==> after == (ConfigView {
                iterations: 50,
                ..v.cfg
            })
        }),
{
    reveal(set_to);
    lemma_setting_words();
    lemma_preset_words(w);
    let args = seq!["preset"@, w];
    assert(args[0] == "preset"@ && args[1] == w && args.len() == 2);
}

/// Whatever is set, a message says so: in red where the configuration stays as it is. A setting never
/// touches the domains, the transports, the pause between the classes or the jitter.
pub proof fn law_refused_settings_change_nothing(v: AppView, args: Seq<Seq<char>>, now: Duration)
    ensures
        ({
            let after = set_with(v, args, now);
            &&& after.status matches Some(s) && s.since == now && (s.color == Color::Red || s.color == Color::Cyan)
            &&& after.status->0.color == Color::Red ==> after.cfg == v.cfg
            &&& args.len() == 0 ==> after.status->0.color == Color::Red
            &&& after.cfg.domains == v.cfg.domains && after.cfg.transports == v.cfg.transports
            &&& after.cfg.inter_class_pause == v.cfg.inter_class_pause && after.cfg.jitter_pct == v.cfg.jitter_pct
        }),
{
    reveal(set_to);
}

/// Settings are named in any case of their letters.
pub proof fn law_settings_are_named_in_any_case(v: AppView, key: Seq<char>, val: Seq<char>, now: Duration)
    ensures
        set_with(v, seq![key, val], now) == set_with(v, seq![lower(key), val], now),
{
    reveal(set_to);
    let args = seq![key, val];
    let other = seq![lower(key), val];
    assert(args[0] == key && args[1] == val && args.len() == 2);
    assert(other[0] == lower(key) && other[1] == val && other.len() == 2);
    law_lower_case(key);
    assert(lower(lower(key)) =~= lower(key));
}

/// A word that names no setting sets nothing, and neither does a switch or a preset with a word that
/// it does not know: the configuration stays as it is, and the message is in red.
pub proof fn law_unknown_words_set_nothing(v: AppView, key: Seq<char>, val: Seq<char>, now: Duration)
    ensures
        ({
            let after = set_with(v, seq![key, val], now);
            let k = lower(key);
            let w = lower(val);
            let number = k == "iter"@ || k == "iterations"@ || k == "sp"@ || k == "spacing"@ || k == "spacing_ms"@ || k
                == "to"@ || k == "timeout"@ || k == "timeout_ms"@;
            let switch = k == "ipv6"@ || k == "cached"@ || k == "warm"@ || k == "uncached"@ || k == "cold"@;
            let known = w == "on"@ || w == "true"@ || w == "1"@ || w == "yes"@ || w == "off"@ || w == "false"@ || w == "0"@
                || w == "no"@ || w == "toggle"@ || w == ""@;
            let preset = w == "quick"@ || w == "q"@ || w == "standard"@ || w == "std"@ || w == "s"@ || w == "thorough"@
                || w == "t"@ || w == "exhaustive"@ || w == "exh"@ || w == "e"@;
            !number && !(switch && known) && !(k == "preset"@ && preset) ==> after.cfg == v.cfg && (after.status matches Some(
                s,
            ) && s.color == Color::Red)
        }),
{
    reveal(set_to);
    let args = seq![key, val];
    assert(args[0] == key && args[1] == val && args.len() == 2);
}

/// A setting without a value turns a switch over, and a class that cannot be put off stays on with a
/// message in red.
pub proof fn law_switches_turn_over_by_themselves(v: AppView, now: Duration)
    ensures
        set_with(v, seq!["ipv6"@], now).cfg == (ConfigView { include_ipv6: !v.cfg.include_ipv6, ..v.cfg }),
        v.cfg.uncached ==> set_with(v, seq!["cached"@], now).cfg == (ConfigView { cached: !v.cfg.cached, ..v.cfg }),
        v.cfg.cached ==> set_with(v, seq!["uncached"@], now).cfg == (ConfigView { uncached: !v.cfg.uncached, ..v.cfg }),
        v.cfg.cached && !v.cfg.uncached ==> set_with(v, seq!["cached"@], now).cfg == v.cfg && set_with(
            v,
            seq!["cached"@],
            now,
        ).status->0.color == Color::Red,
        !v.cfg.cached && v.cfg.uncached ==> set_with(v, seq!["uncached"@], now).cfg == v.cfg && set_with(
            v,
            seq!["uncached"@],
            now,
        ).status->0.color == Color::Red,
{
    reveal(set_to);
    lemma_setting_words();
    reveal_strlit("");
    lemma_switch_words(""@, v.cfg.include_ipv6);
    lemma_switch_words(""@, v.cfg.cached);
    lemma_switch_words(""@, v.cfg.uncached);
    assert(seq!["ipv6"@][0] == "ipv6"@ && seq!["cached"@][0] == "cached"@ && seq!["uncached"@][0] == "uncached"@);
}

/// The message about a number that was set shows it.
pub proof fn law_messages_show_numbers(v: AppView, n: nat, now: Duration)
    requires
        0 < n <= usize::MAX,
    ensures
        ({
            let it = set_with(v, seq!["iter"@, dec(n)], now);
            let sp = set_with(v, seq!["sp"@, dec(n)], now);
            let to = set_with(v, seq!["to"@, dec(n)], now);
            &&& it.status->0.color == Color::Cyan && holds(it.status->0.text, "iterations = "@ + dec(n))
            &&& sp.status->0.color == Color::Cyan && holds(sp.status->0.text, "spacing = "@ + dec(n))
            &&& to.status->0.color == Color::Cyan && holds(to.status->0.text, "timeout = "@ + dec(n))
        }),
{
    reveal(set_to);
    lemma_setting_words();
    law_numeral_read_back(n, u64::MAX as nat);
    law_numeral_read_back(n, usize::MAX as nat);
    assert(seq!["iter"@, dec(n)][0] == "iter"@ && seq!["iter"@, dec(n)][1] == dec(n));
    assert(seq!["sp"@, dec(n)][0] == "sp"@ && seq!["sp"@, dec(n)][1] == dec(n));
    assert(seq!["to"@, dec(n)][0] == "to"@ && seq!["to"@, dec(n)][1] == dec(n));
    lemma_labelled("iterations = "@, dec(n), " (:r to apply)"@);
    lemma_labelled("spacing = "@, dec(n), "ms (:r to apply)"@);
    lemma_labelled("timeout = "@, dec(n), "ms (:r to apply)"@);
}

/// The message about a switch that was set shows how it now is.
pub proof fn law_messages_show_switches(v: AppView, w: Seq<char>, now: Duration)
    ensures
        ({
            let six = set_with(v, seq!["ipv6"@, w], now);
            let c = set_with(v, seq!["cached"@, w], now);
            let u = set_with(v, seq!["uncached"@, w], now);
            &&& six.status->0.color == Color::Cyan ==> holds(
                six.status->0.text,
                "ipv6 = "@ + bool_text(six.cfg.include_ipv6),
            )
            &&& c.status->0.color == Color::Cyan ==> holds(c.status->0.text, "cached = "@ + bool_text(c.cfg.cached))
            &&& u.status->0.color == Color::Cyan ==> holds(u.status->0.text, "uncached = "@ + bool_text(u.cfg.uncached))
        }),
        bool_text(true) == "true"@ && bool_text(false) == "false"@,
{
    reveal(set_to);
    lemma_setting_words();
    let six = set_with(v, seq!["ipv6"@, w], now);
    let c = set_with(v, seq!["cached"@, w], now);
    let u = set_with(v, seq!["uncached"@, w], now);
    assert(seq!["ipv6"@, w][0] == "ipv6"@ && seq!["ipv6"@, w][1] == w);
    assert(seq!["cached"@, w][0] == "cached"@ && seq!["cached"@, w][1] == w);
    assert(seq!["uncached"@, w][0] == "uncached"@ && seq!["uncached"@, w][1] == w);
    lemma_labelled("ipv6 = "@, bool_text(six.cfg.include_ipv6), " (:r to apply)"@);
    lemma_labelled("cached = "@, bool_text(c.cfg.cached), " (:r to apply)"@);
    lemma_labelled("uncached = "@, bool_text(u.cfg.uncached), " (:r to apply)"@);
}

/// The message about a preset that was set shows its name and the iterations that it brings.
pub proof fn law_messages_show_presets(v: AppView, w: Seq<char>, now: Duration)
    ensures
        ({
            let p = set_with(v, seq!["preset"@, w], now);
            p.status->0.color == Color::Cyan ==> holds(
                p.status->0.text,
                " -> iterations = "@ + dec(p.cfg.iterations as nat),
            ) && holds(p.status->0.text, "preset "@ + w)
        }),
{
    reveal(set_to);
    lemma_setting_words();
    assert(seq!["preset"@, w][0] == "preset"@ && seq!["preset"@, w][1] == w);
    if let Some(p) = preset_named(w) {
        let none = Seq::<Seq<char>>::empty();
        let k = dec(preset_iterations(p) as nat);
        let start = Seq::<char>::empty();
        lemma_holds(start, none, "preset "@, w);
        assert(start + "preset "@ =~= "preset "@);
        let f1 = none.push("preset "@ + w);
        lemma_holds("preset "@ + w, f1, " -> iterations = "@, k);
        let f2 = f1.push(" -> iterations = "@ + k);
        lemma_holds("preset "@ + w + " -> iterations = "@ + k, f2, " (:r to apply)"@, start);
        assert(f2[0] == "preset "@ + w && f2[1] == " -> iterations = "@ + k);
    }
}

/// A text that begins with a label and a value holds them together.
pub proof fn lemma_labelled(label: Seq<char>, value: Seq<char>, rest: Seq<char>)
    ensures
        holds(label + value + rest, label + value),
{
    let none = Seq::<Seq<char>>::empty();
    let start = Seq::<char>::empty();
    lemma_holds(start, none, label, value);
    assert(start + label =~= label);
    let all = none.push(label + value);
    lemma_holds(label + value, all, rest, start);
    assert(all[0] == label + value);
}

} // verus!
