//! What keys and commands do in a session.

use vstd::prelude::*;
use vstd::string::StringExecFns;

use crate::bench::ConfigView;
use crate::domains::{default_domain_names, default_domains, is_listed, listed};
use crate::duration::Duration;
use crate::session::{total_due, App, AppView, Color, Mode, ModeView};
use crate::settings::{lemma_labelled, lemma_set_with, set_with};
use crate::text::{
    dec, holds, is_space, join, joined, law_words_are_parted_by_white_space, lower, numbered, same, split_words, text_of,
    texts, words,
};

verus! {

broadcast use vstd::string::group_string_axioms;

/// What is left to do after a key or a command.
#[derive(Clone, Debug)]
pub enum Reply {
    Continue,
    /// Leave the session.
    Quit,
    /// Abort the running benchmark, if any, and start one with the current configuration.
    Restart,
    /// Abort the running benchmark, if any.
    Stop,
    /// Write an export, to this path if there is one; then leave the session if `quit` is set.
    Write { path: Option<String>, quit: bool },
}

/// What is left to do, as a value.
pub enum ReplyView {
    Continue,
    Quit,
    Restart,
    Stop,
    Write { path: Option<Seq<char>>, quit: bool },
}

impl View for Reply {
    type V = ReplyView;

    open spec fn view(&self) -> ReplyView {
        match self {
            Reply::Continue => ReplyView::Continue,
            Reply::Quit => ReplyView::Quit,
            Reply::Restart => ReplyView::Restart,
            Reply::Stop => ReplyView::Stop,
            Reply::Write { path, quit } => ReplyView::Write { path: text_of(*path), quit: *quit },
        }
    }
}

/// A command.
#[derive(Clone, Copy, Debug, PartialEq, Eq, Structural)]
pub enum Verb {
    Quit,
    Write,
    WriteQuit,
    Restart,
    Stop,
    Assign,
    Cached,
    Uncached,
    Ipv6,
    Add,
    Remove,
    Reset,
    Domains,
    Help,
}

/// The command that a word names.
pub open spec fn verb_named(w: Seq<char>) -> Option<Verb> {
    if w == "q"@ || w == "quit"@ || w == "exit"@ {
        Some(Verb::Quit)
    } else if w == "w"@ || w == "write"@ || w == "export"@ {
        Some(Verb::Write)
    } else if w == "wq"@ {
        Some(Verb::WriteQuit)
    } else if w == "r"@ || w == "run"@ || w == "start"@ || w == "restart"@ {
        Some(Verb::Restart)
    } else if w == "stop"@ || w == "abort"@ {
        Some(Verb::Stop)
    } else if w == "set"@ {
        Some(Verb::Assign)
    } else if w == "cached"@ {
        Some(Verb::Cached)
    } else if w == "uncached"@ {
        Some(Verb::Uncached)
    } else if w == "ipv6"@ {
        Some(Verb::Ipv6)
    } else if w == "add"@ {
        Some(Verb::Add)
    } else if w == "rm"@ || w == "del"@ || w == "remove"@ {
        Some(Verb::Remove)
    } else if w == "reset"@ {
        Some(Verb::Reset)
    } else if w == "domains"@ {
        Some(Verb::Domains)
    } else if w == "help"@ || w == "?"@ {
        Some(Verb::Help)
    } else {
        None
    }
}

/// The domains after names have been added that were not listed before.
pub open spec fn added(domains: Seq<Seq<char>>, names: Seq<Seq<char>>) -> Seq<Seq<char>>
    decreases names.len(),
{
    if names.len() == 0 {
        domains
    } else {
        let front = added(domains, names.drop_last());
        if listed(front, names.last()) {
            front
        } else {
            front.push(names.last())
        }
    }
}

/// The domains that are not among the names.
pub open spec fn without(domains: Seq<Seq<char>>, names: Seq<Seq<char>>) -> Seq<Seq<char>>
    decreases domains.len(),
{
    if domains.len() == 0 {
        domains
    } else {
        let front = without(domains.drop_last(), names);
        if listed(names, domains.last()) {
            front
        } else {
            front.push(domains.last())
        }
    }
}

impl AppView {
    /// After a restart of the benchmark, with the configuration as it now is.
    pub open spec fn restarted(self, now: Duration) -> AppView {
        AppView {
            running: self.cfg,
            endpoints: Seq::empty(),
            finished: false,
            started: now,
            selected: Some(0),
            ..self.says("benchmark restarted"@, Color::Green, now)
        }
    }

    /// With these domains, and a message about them.
    pub open spec fn with_domains(self, domains: Seq<Seq<char>>, text: Seq<char>, now: Duration) -> AppView {
        self.configured(ConfigView { domains, ..self.cfg }, text, now)
    }
}

/// The first of the words, or `toggle`.
pub open spec fn switch_word(rest: Seq<Seq<char>>) -> Seq<char> {
    if rest.len() > 0 {
        rest[0]
    } else {
        "toggle"@
    }
}

/// The first of the words, if there is one.
pub open spec fn first_word(rest: Seq<Seq<char>>) -> Option<Seq<char>> {
    if rest.len() > 0 {
        Some(rest[0])
    } else {
        None
    }
}

/// What a command with these words behind it does, and what is left to do.
pub open spec fn performed(v: AppView, verb: Verb, rest: Seq<Seq<char>>, now: Duration) -> (AppView, ReplyView) {
    match verb {
        Verb::Quit => (v, ReplyView::Quit),
        Verb::Write => (v, ReplyView::Write { path: first_word(rest), quit: false }),
        Verb::WriteQuit => (v, ReplyView::Write { path: first_word(rest), quit: true }),
        Verb::Restart => (v.restarted(now), ReplyView::Restart),
        Verb::Stop => (
            AppView { finished: true, ..v.says("bench stopped"@, Color::Yellow, now) },
            ReplyView::Stop,
        ),
        Verb::Assign => (set_with(v, rest, now), ReplyView::Continue),
        Verb::Cached => (set_with(v, seq!["cached"@, switch_word(rest)], now), ReplyView::Continue),
        Verb::Uncached => (set_with(v, seq!["uncached"@, switch_word(rest)], now), ReplyView::Continue),
        Verb::Ipv6 => (set_with(v, seq!["ipv6"@, switch_word(rest)], now), ReplyView::Continue),
        Verb::Add => {
            let domains = added(v.cfg.domains, rest);
            (
                v.with_domains(
                    domains,
                    "domains: "@ + dec(domains.len()) + " (config changed — :r to apply)"@,
                    now,
                ),
                ReplyView::Continue,
            )
        },
        Verb::Remove => {
            let domains = without(v.cfg.domains, rest);
            (
                v.with_domains(
                    domains,
                    "removed "@ + dec((v.cfg.domains.len() - domains.len()) as nat) + " (config changed — :r to apply)"@,
                    now,
                ),
                ReplyView::Continue,
            )
        },
        Verb::Reset => {
            let domains = default_domain_names();
            (
                v.with_domains(domains, "domains reset to default ("@ + dec(domains.len()) + ")"@, now),
                ReplyView::Continue,
            )
        },
        Verb::Domains => (v.says(joined(v.cfg.domains, ", "@), Color::White, now), ReplyView::Continue),
        Verb::Help => (AppView { mode: ModeView::Help, ..v }, ReplyView::Continue),
    }
}

/// What a command line does, and what is left to do.
pub open spec fn commanded(v: AppView, cmd: Seq<char>, now: Duration) -> (AppView, ReplyView) {
    let w = words(cmd);
    if w.len() == 0 {
        (v, ReplyView::Continue)
    } else {
        match verb_named(w[0]) {
            Some(verb) => performed(v, verb, w.skip(1), now),
            None => (v.says("unknown command: "@ + w[0], Color::Red, now), ReplyView::Continue),
        }
    }
}

fn find_verb(w: &str) -> (r: Option<Verb>)
    ensures
        r == verb_named(w@),
{
    if same(w, "q") || same(w, "quit") || same(w, "exit") {
        Some(Verb::Quit)
    } else if same(w, "w") || same(w, "write") || same(w, "export") {
        Some(Verb::Write)
    } else if same(w, "wq") {
        Some(Verb::WriteQuit)
    } else if same(w, "r") || same(w, "run") || same(w, "start") || same(w, "restart") {
        Some(Verb::Restart)
    } else if same(w, "stop") || same(w, "abort") {
        Some(Verb::Stop)
    } else if same(w, "set") {
        Some(Verb::Assign)
    } else if same(w, "cached") {
        Some(Verb::Cached)
    } else if same(w, "uncached") {
        Some(Verb::Uncached)
    } else if same(w, "ipv6") {
        Some(Verb::Ipv6)
    } else if same(w, "add") {
        Some(Verb::Add)
    } else if same(w, "rm") || same(w, "del") || same(w, "remove") {
        Some(Verb::Remove)
    } else if same(w, "reset") {
        Some(Verb::Reset)
    } else if same(w, "domains") {
        Some(Verb::Domains)
    } else if same(w, "help") || same(w, "?") {
        Some(Verb::Help)
    } else {
        None
    }
}

fn add_names(domains: &mut Vec<String>, names: &Vec<String>)
    ensures
        texts(final(domains)@) == added(texts(old(domains)@), texts(names@)),
{
    let ghost start = texts(domains@);
    let ghost all = texts(names@);
    let n: usize = names.len();
    let mut i: usize = 0;
    assert(all.take(0).len() == 0);
    while i < n
        invariant
            i <= n == names.len(),
            all == texts(names@),
            texts(domains@) == added(start, all.take(i as int)),
        decreases n - i,
    {
        let ghost before = domains@;
        assert(all.take(i + 1).drop_last() =~= all.take(i as int));
        if !is_listed(domains, names[i].as_str()) {
            domains.push(names[i].clone());
            assert(texts(domains@) =~= texts(before).push(all[i as int]));
        }
        i = i + 1;
    }
    assert(all.take(n as int) =~= all);
}

fn remove_names(domains: &Vec<String>, names: &Vec<String>) -> (r: Vec<String>)
    ensures
        texts(r@) == without(texts(domains@), texts(names@)),
        r@.len() <= domains@.len(),
{
    let ghost all = texts(domains@);
    let n: usize = domains.len();
    let mut r: Vec<String> = Vec::new();
    let mut i: usize = 0;
    assert(all.take(0).len() == 0);
    assert(texts(r@) =~= all.take(0));
    while i < n
        invariant
            i <= n == domains.len(),
            all == texts(domains@),
            texts(r@) == without(all.take(i as int), texts(names@)),
            r@.len() <= i,
        decreases n - i,
    {
        let ghost before = r@;
        assert(all.take(i + 1).drop_last() =~= all.take(i as int));
        if !is_listed(names, domains[i].as_str()) {
            r.push(domains[i].clone());
            assert(texts(r@) =~= texts(before).push(all[i as int]));
        }
        i = i + 1;
    }
    assert(all.take(n as int) =~= all);
    r
}

impl App {
    /// Forget the results, before the benchmark runs again.
    pub fn restart(&mut self, now: Duration)
        ensures
            final(self)@ == old(self)@.restarted(now),
            final(self).wf(),
    {
        self.running = self.cfg.duplicate();
        self.endpoints.clear();
        self.finished = false;
        self.started = now;
        self.selected = Some(0);
        self.set_status("benchmark restarted".to_owned(), Color::Green, now);
        assert(self@.endpoints =~= Seq::empty());
    }

    fn switch(&mut self, key: &str, rest: &Vec<String>, now: Duration)
        ensures
            final(self)@ == set_with(old(self)@, seq![key@, switch_word(texts(rest@))], now),
    {
        if rest.len() > 0 {
            self.set_value(key, rest[0].as_str(), now);
        } else {
            self.set_value(key, "toggle", now);
        }
    }

    fn add_domains(&mut self, names: &Vec<String>, now: Duration)
        ensures
            final(self)@ == performed(old(self)@, Verb::Add, texts(names@), now).0,
    {
        add_names(&mut self.cfg.domains, names);
        let text = numbered("domains: ", self.cfg.domains.len() as u128, " (config changed — :r to apply)");
        self.set_status(text, Color::Cyan, now);
    }

    fn remove_domains(&mut self, names: &Vec<String>, now: Duration)
        ensures
            final(self)@ == performed(old(self)@, Verb::Remove, texts(names@), now).0,
    {
        let before: usize = self.cfg.domains.len();
        self.cfg.domains = remove_names(&self.cfg.domains, names);
        let removed: usize = before - self.cfg.domains.len();
        self.set_status(numbered("removed ", removed as u128, " (config changed — :r to apply)"), Color::Cyan, now);
    }

    fn reset_domains(&mut self, now: Duration)
        ensures
            final(self)@ == performed(old(self)@, Verb::Reset, Seq::empty(), now).0,
    {
        self.cfg.domains = default_domains();
        assert(texts(self.cfg.domains@).len() == self.cfg.domains@.len());
        let text = numbered("domains reset to default (", self.cfg.domains.len() as u128, ")");
        self.set_status(text, Color::Cyan, now);
    }

    fn perform(&mut self, verb: Verb, rest: &Vec<String>, now: Duration) -> (r: Reply)
        ensures
            (final(self)@, r@) == performed(old(self)@, verb, texts(rest@), now),
    {
        match verb {
            Verb::Quit => Reply::Quit,
            Verb::Write => Reply::Write { path: first_of(rest), quit: false },
            Verb::WriteQuit => Reply::Write { path: first_of(rest), quit: true },
            Verb::Restart => {
                self.restart(now);
                Reply::Restart
            },
            Verb::Stop => {
                self.finished = true;
                self.set_status("bench stopped".to_owned(), Color::Yellow, now);
                Reply::Stop
            },
            Verb::Assign => {
                self.apply_set(rest.as_slice(), now);
                Reply::Continue
            },
            Verb::Cached => {
                self.switch("cached", rest, now);
                Reply::Continue
            },
            Verb::Uncached => {
                self.switch("uncached", rest, now);
                Reply::Continue
            },
            Verb::Ipv6 => {
                self.switch("ipv6", rest, now);
                Reply::Continue
            },
            Verb::Add => {
                self.add_domains(rest, now);
                Reply::Continue
            },
            Verb::Remove => {
                self.remove_domains(rest, now);
                Reply::Continue
            },
            Verb::Reset => {
                self.reset_domains(now);
                Reply::Continue
            },
            Verb::Domains => {
                let text = join(&self.cfg.domains, ", ");
                self.set_status(text, Color::White, now);
                Reply::Continue
            },
            Verb::Help => {
                self.mode = Mode::Help;
                Reply::Continue
            },
        }
    }

    /// Run a command line, and say what is left to do.
    pub fn execute_command(&mut self, cmd: &str, now: Duration) -> (r: Reply)
        ensures
            (final(self)@, r@) == commanded(old(self)@, cmd@, now),
            old(self).wf() ==> final(self).wf(),
    {
        proof {
            law_commands_keep_results(self@, cmd@, now);
        }
        let w = split_words(cmd);
        if w.len() == 0 {
            return Reply::Continue;
        }
        assert(texts(w@)[0] == w@[0]@);
        match find_verb(w[0].as_str()) {
            Some(verb) => {
                let mut rest: Vec<String> = Vec::new();
                let n: usize = w.len();
                let mut i: usize = 1;
                while i < n
                    invariant
                        1 <= i <= n == w.len(),
                        rest@ == w@.subrange(1, i as int),
                    decreases n - i,
                {
                    rest.push(w[i].clone());
                    assert(rest@ =~= w@.subrange(1, i + 1));
                    i = i + 1;
                }
                assert(texts(rest@) =~= words(cmd@).skip(1));
                self.perform(verb, &rest, now)
            },
            None => {
                let mut text = "unknown command: ".to_owned();
                text.append(w[0].as_str());
                self.set_status(text, Color::Red, now);
                Reply::Continue
            },
        }
    }
}

fn first_of(rest: &Vec<String>) -> (r: Option<String>)
    ensures
        text_of(r) == first_word(texts(rest@)),
{
    if rest.len() > 0 {
        Some(rest[0].clone())
    } else {
        None
    }
}

// --- keys ---

/// A key.
#[derive(Clone, Copy, Debug, PartialEq, Eq, Structural)]
pub enum Key {
    Char(char),
    Enter,
    Esc,
    Backspace,
    Up,
    Down,
    PageUp,
    PageDown,
    /// Any other key.
    Other,
}

impl AppView {
    /// In another mode.
    pub open spec fn in_mode(self, mode: ModeView) -> AppView {
        AppView { mode, ..self }
    }
}

/// What a key does in normal mode; `bare` tells that no modifier is held.
pub open spec fn pressed_normally(v: AppView, key: Key, bare: bool, now: Duration) -> (AppView, ReplyView) {
    match key {
        Key::Char(c) => if c == ':' {
            (v.in_mode(ModeView::Command(Seq::empty())), ReplyView::Continue)
        } else if c == 'q' && bare {
            (v, ReplyView::Quit)
        } else if c == 's' {
            (AppView { sort: v.sort.spec_next(), ..v }, ReplyView::Continue)
        } else if c == 'r' {
            (v.restarted(now), ReplyView::Restart)
        } else if c == '?' {
            (v.in_mode(ModeView::Help), ReplyView::Continue)
        } else {
            (v, ReplyView::Continue)
        },
        Key::Esc => (AppView { detail_open: false, ..v }, ReplyView::Continue),
        Key::Enter => (AppView { detail_open: !v.detail_open, ..v }, ReplyView::Continue),
        Key::Up => (v.with_selection_moved(-1), ReplyView::Continue),
        Key::Down => (v.with_selection_moved(1), ReplyView::Continue),
        Key::PageUp => (v.with_selection_moved(-10), ReplyView::Continue),
        Key::PageDown => (v.with_selection_moved(10), ReplyView::Continue),
        Key::Backspace => (v, ReplyView::Continue),
        Key::Other => (v, ReplyView::Continue),
    }
}

/// What a key does while a command is being typed.
pub open spec fn pressed_typing(v: AppView, input: Seq<char>, key: Key, now: Duration) -> (AppView, ReplyView) {
    match key {
        Key::Esc => (v.in_mode(ModeView::Normal), ReplyView::Continue),
        Key::Enter => commanded(v.in_mode(ModeView::Normal), input, now),
        Key::Backspace => (
            v.in_mode(ModeView::Command(if input.len() > 0 {
                input.drop_last()
            } else {
                input
            })),
            ReplyView::Continue,
        ),
        Key::Char(c) => (v.in_mode(ModeView::Command(input.push(c))), ReplyView::Continue),
        _ => (v, ReplyView::Continue),
    }
}

/// What a key does, and what is left to do.
pub open spec fn pressed(v: AppView, key: Key, bare: bool, now: Duration) -> (AppView, ReplyView) {
    match v.mode {
        ModeView::Normal => pressed_normally(v, key, bare, now),
        ModeView::Command(input) => pressed_typing(v, input, key, now),
        ModeView::Help => if key == Key::Esc || key == Key::Enter || key == Key::Char('q') || key == Key::Char('?') {
            (v.in_mode(ModeView::Normal), ReplyView::Continue)
        } else {
            (v, ReplyView::Continue)
        },
    }
}

impl App {
    fn press_normally(&mut self, key: Key, bare: bool, now: Duration) -> (r: Reply)
        ensures
            (final(self)@, r@) == pressed_normally(old(self)@, key, bare, now),
    {
        match key {
            Key::Char(c) => {
                if c == ':' {
                    self.mode = Mode::Command { input: String::new() };
                } else if c == 'q' && bare {
                    return Reply::Quit;
                } else if c == 's' {
                    self.sort = self.sort.next();
                } else if c == 'r' {
                    self.restart(now);
                    return Reply::Restart;
                } else if c == '?' {
                    self.mode = Mode::Help;
                }
            },
            Key::Esc => {
                self.detail_open = false;
            },
            Key::Enter => {
                self.detail_open = !self.detail_open;
            },
            Key::Up => self.move_selection(-1),
            Key::Down => self.move_selection(1),
            Key::PageUp => self.move_selection(-10),
            Key::PageDown => self.move_selection(10),
            Key::Backspace => {},
            Key::Other => {},
        }
        Reply::Continue
    }

    /// Handle a key, and say what is left to do; `bare` tells that no modifier is held.
    pub fn press(&mut self, key: Key, bare: bool, now: Duration) -> (r: Reply)
        ensures
            (final(self)@, r@) == pressed(old(self)@, key, bare, now),
            old(self).wf() ==> final(self).wf(),
    {
        proof {
            lemma_keys_keep_results(self@, key, bare, now);
        }
        let input = match &self.mode {
            Mode::Normal => {
                return self.press_normally(key, bare, now);
            },
            Mode::Command { input } => input.clone(),
            Mode::Help => {
                if key == Key::Esc || key == Key::Enter || key == Key::Char('q') || key == Key::Char('?') {
                    self.mode = Mode::Normal;
                }
                return Reply::Continue;
            },
        };
        let mut input = input;
        match key {
            Key::Esc => {
                self.mode = Mode::Normal;
                Reply::Continue
            },
            Key::Enter => {
                self.mode = Mode::Normal;
                self.execute_command(input.as_str(), now)
            },
            Key::Backspace => {
                let last = input.pop();
                self.mode = Mode::Command { input };
                Reply::Continue
            },
            Key::Char(c) => {
                input.push(c);
                self.mode = Mode::Command { input };
                Reply::Continue
            },
            _ => Reply::Continue,
        }
    }
}

// --- laws ---

/// What holds of a state after a command.
pub open spec fn command_kept(v: AppView, after: AppView, reply: ReplyView, now: Duration) -> bool {
    &&& reply is Restart ==> after.running == v.cfg && after.endpoints.len() == 0 && after.started == now
        && !after.finished && after.cfg == v.cfg
    &&& !(reply is Restart) ==> after.running == v.running && after.endpoints == v.endpoints && after.started == v.started
        && after.selected == v.selected && (after.finished == v.finished || reply is Stop)
    &&& after.resolvers == v.resolvers
    &&& after.sort == v.sort
    &&& after.last_sorted == v.last_sorted
    &&& after.detail_open == v.detail_open
    &&& after.export_path == v.export_path
    &&& v.cfg.cached || v.cfg.uncached ==> after.cfg.cached || after.cfg.uncached
    &&& v.cfg.iterations > 0 ==> after.cfg.iterations > 0
    &&& v.cfg.timeout@ > 0 ==> after.cfg.timeout@ > 0
}

proof fn lemma_performed(v: AppView, verb: Verb, rest: Seq<Seq<char>>, now: Duration)
    ensures
        command_kept(v, performed(v, verb, rest, now).0, performed(v, verb, rest, now).1, now),
{
    lemma_set_with(v, rest, now);
    lemma_set_with(v, seq!["cached"@, switch_word(rest)], now);
    lemma_set_with(v, seq!["uncached"@, switch_word(rest)], now);
    lemma_set_with(v, seq!["ipv6"@, switch_word(rest)], now);
}

/// A command leaves the run and its results as they are, or starts over with the configuration as
/// it now is. It leaves a class enabled, and keeps the iterations and the timeout positive.
pub proof fn law_commands_keep_results(v: AppView, cmd: Seq<char>, now: Duration)
    ensures
        command_kept(v, commanded(v, cmd, now).0, commanded(v, cmd, now).1, now),
{
    let w = words(cmd);
    if w.len() > 0 {
        match verb_named(w[0]) {
            Some(verb) => lemma_performed(v, verb, w.skip(1), now),
            None => {},
        }
    }
}

/// Configuration changes take effect on the next restart: until then no command changes the
/// configuration of the current run, its results or the probes due, over all endpoints or at one.
pub proof fn law_changes_wait_for_restart(v: AppView, cmd: Seq<char>, now: Duration)
    ensures
        ({
            let (after, reply) = commanded(v, cmd, now);
            &&& !(reply is Restart) ==> {
                &&& after.running == v.running
                &&& after.endpoints == v.endpoints
                &&& total_due(after) == total_due(v)
                &&& forall|i: int|
                    0 <= i < v.endpoints.len() ==> (#[trigger] after.endpoints[i]).due(
                        after.running.cached,
                        after.running.uncached,
                    ) == v.endpoints[i].due(v.running.cached, v.running.uncached)
            }
            &&& reply is Restart ==> after.running == v.cfg && total_due(after) == 0
        }),
{
    law_commands_keep_results(v, cmd, now);
    let after = commanded(v, cmd, now).0;
    if commanded(v, cmd, now).1 is Restart {
        let n = after.running.domains.len() * after.running.iterations as nat * crate::state::classes_enabled(
            after.running.cached,
            after.running.uncached,
        );
        assert(n * 0 == 0);
    }
}

/// The same holds of keys: only a restart changes the run, its results and the probes due.
pub proof fn law_keys_wait_for_restart(v: AppView, key: Key, bare: bool, now: Duration)
    ensures
        ({
            let (after, reply) = pressed(v, key, bare, now);
            &&& !(reply is Restart) ==> after.running == v.running && after.endpoints == v.endpoints && total_due(after)
                == total_due(v)
            &&& reply is Restart ==> after.running == v.cfg && after.endpoints.len() == 0
        }),
{
    match v.mode {
        ModeView::Command(input) => law_commands_keep_results(v.in_mode(ModeView::Normal), input, now),
        _ => {},
    }
}

proof fn lemma_keys_keep_results(v: AppView, key: Key, bare: bool, now: Duration)
    ensures
        ({
            let after = pressed(v, key, bare, now).0;
            (after.endpoints == v.endpoints && after.running == v.running) || after.endpoints.len() == 0
        }),
{
    match v.mode {
        ModeView::Command(input) => law_commands_keep_results(v.in_mode(ModeView::Normal), input, now),
        _ => {},
    }
}

/// A session that runs a class goes on running one, and its iterations and its timeout stay
/// positive, whatever keys are pressed and whatever commands are typed.
pub proof fn law_session_stays_runnable(v: AppView, key: Key, bare: bool, now: Duration)
    requires
        v.cfg.cached || v.cfg.uncached,
        v.cfg.iterations > 0,
        v.cfg.timeout@ > 0,
    ensures
        pressed(v, key, bare, now).0.cfg.cached || pressed(v, key, bare, now).0.cfg.uncached,
        pressed(v, key, bare, now).0.cfg.iterations > 0,
        pressed(v, key, bare, now).0.cfg.timeout@ > 0,
{
    match v.mode {
        ModeView::Command(input) => law_commands_keep_results(v.in_mode(ModeView::Normal), input, now),
        _ => {},
    }
}

/// The shorthands `:cached`, `:uncached` and `:ipv6` do what `:set` does with the same words, and
/// toggle where there is none.
pub proof fn law_shorthands_are_settings(v: AppView, rest: Seq<Seq<char>>, now: Duration)
    ensures
        ({
            let word = if rest.len() > 0 {
                rest[0]
            } else {
                "toggle"@
            };
            &&& performed(v, Verb::Cached, rest, now) == performed(v, Verb::Assign, seq!["cached"@, word], now)
            &&& performed(v, Verb::Uncached, rest, now) == performed(v, Verb::Assign, seq!["uncached"@, word], now)
            &&& performed(v, Verb::Ipv6, rest, now) == performed(v, Verb::Assign, seq!["ipv6"@, word], now)
        }),
{
}

/// Every name that is added is listed afterwards, and the names listed before stay in front.
pub proof fn law_added_names_are_listed(domains: Seq<Seq<char>>, names: Seq<Seq<char>>, name: Seq<char>)
    ensures
        listed(added(domains, names), name) == (listed(domains, name) || listed(names, name)),
        added(domains, names).len() >= domains.len(),
        added(domains, names).take(domains.len() as int) == domains,
    decreases names.len(),
{
    if names.len() == 0 {
        assert(domains.take(domains.len() as int) =~= domains);
    } else {
        let front = added(domains, names.drop_last());
        let last = names.last();
        law_added_names_are_listed(domains, names.drop_last(), name);
        law_added_names_are_listed(domains, names.drop_last(), last);
        lemma_listed_last(names, name);
        if !listed(front, last) {
            let longer = front.push(last);
            lemma_listed_last(longer, name);
            assert(longer.drop_last() =~= front);
            assert(longer.take(domains.len() as int) =~= front.take(domains.len() as int));
        } else if lower(last) == lower(name) {
            assert(listed(front, name)) by {
                let k = choose|k: int| 0 <= k < front.len() && lower(#[trigger] front[k]) == lower(last);
                assert(lower(front[k]) == lower(name));
            }
        }
    }
}

proof fn lemma_listed_last(s: Seq<Seq<char>>, name: Seq<char>)
    requires
        s.len() > 0,
    ensures
        listed(s, name) == (listed(s.drop_last(), name) || lower(s.last()) == lower(name)),
{
    let front = s.drop_last();
    if listed(front, name) {
        let k = choose|k: int| 0 <= k < front.len() && lower(#[trigger] front[k]) == lower(name);
        assert(s[k] == front[k]);
    }
    if lower(s.last()) == lower(name) {
        assert(lower(s[s.len() - 1]) == lower(name));
    }
    if listed(s, name) {
        let k = choose|k: int| 0 <= k < s.len() && lower(#[trigger] s[k]) == lower(name);
        if k < s.len() - 1 {
            assert(front[k] == s[k]);
        }
    }
}

/// Adding names keeps the domains free of repeats.
pub proof fn law_added_names_stay_distinct(domains: Seq<Seq<char>>, names: Seq<Seq<char>>)
    requires
        forall|i: int, j: int| 0 <= i < j < domains.len() ==> lower(#[trigger] domains[i]) != lower(#[trigger] domains[j]),
    ensures
        forall|i: int, j: int|
            0 <= i < j < added(domains, names).len() ==> lower(#[trigger] added(domains, names)[i]) != lower(
                #[trigger] added(domains, names)[j],
            ),
    decreases names.len(),
{
    if names.len() > 0 {
        let front = added(domains, names.drop_last());
        let last = names.last();
        law_added_names_stay_distinct(domains, names.drop_last());
        if !listed(front, last) {
            let after = added(domains, names);
            assert forall|i: int, j: int| 0 <= i < j < after.len() implies lower(#[trigger] after[i]) != lower(
                #[trigger] after[j],
            ) by {
                assert(after[i] == front[i]);
                if j < front.len() {
                    assert(after[j] == front[j]);
                }
            }
        }
    }
}

/// No name that is removed is listed afterwards, and every other name stays.
pub proof fn law_removed_names_are_gone(domains: Seq<Seq<char>>, names: Seq<Seq<char>>, name: Seq<char>)
    ensures
        listed(without(domains, names), name) == (listed(domains, name) && !listed(names, name)),
        without(domains, names).len() <= domains.len(),
    decreases domains.len(),
{
    if domains.len() > 0 {
        let front = without(domains.drop_last(), names);
        let last = domains.last();
        law_removed_names_are_gone(domains.drop_last(), names, name);
        lemma_listed_last(domains, name);
        if listed(names, last) {
            if lower(last) == lower(name) {
                let k = choose|k: int| 0 <= k < names.len() && lower(#[trigger] names[k]) == lower(last);
                assert(lower(names[k]) == lower(name));
            }
        } else {
            lemma_listed_last(front.push(last), name);
            assert(front.push(last).drop_last() =~= front);
            if listed(names, name) && lower(last) == lower(name) {
                let k = choose|k: int| 0 <= k < names.len() && lower(#[trigger] names[k]) == lower(name);
                assert(lower(names[k]) == lower(last));
            }
        }
    }
}

proof fn lemma_without_added(domains: Seq<Seq<char>>, some: Seq<Seq<char>>, names: Seq<Seq<char>>)
    requires
        forall|i: int| 0 <= i < some.len() ==> listed(names, #[trigger] some[i]),
    ensures
        without(added(domains, some), names) == without(domains, names),
    decreases some.len(),
{
    if some.len() > 0 {
        let before = some.drop_last();
        assert forall|i: int| 0 <= i < before.len() implies listed(names, #[trigger] before[i]) by {
            assert(before[i] == some[i]);
        }
        lemma_without_added(domains, before, names);
        let front = added(domains, before);
        assert(some[some.len() - 1] == some.last());
        assert(front.push(some.last()).drop_last() =~= front);
    }
}

proof fn lemma_without_none(domains: Seq<Seq<char>>, names: Seq<Seq<char>>)
    requires
        forall|i: int| 0 <= i < domains.len() ==> !listed(names, #[trigger] domains[i]),
    ensures
        without(domains, names) == domains,
    decreases domains.len(),
{
    if domains.len() > 0 {
        let front = domains.drop_last();
        assert forall|i: int| 0 <= i < front.len() implies !listed(names, #[trigger] front[i]) by {
            assert(front[i] == domains[i]);
        }
        lemma_without_none(front, names);
        assert(domains[domains.len() - 1] == domains.last());
        assert(front.push(domains.last()) =~= domains);
    }
}

/// Removing names that were just added leaves what removing them before would have left; where
/// none of them was listed before, that is the former list.
pub proof fn law_removing_undoes_adding(domains: Seq<Seq<char>>, names: Seq<Seq<char>>)
    ensures
        without(added(domains, names), names) == without(domains, names),
        (forall|i: int| 0 <= i < names.len() ==> !listed(domains, #[trigger] names[i])) ==> without(
            added(domains, names),
            names,
        ) == domains,
{
    assert forall|i: int| 0 <= i < names.len() implies listed(names, #[trigger] names[i]) by {
        assert(lower(names[i]) == lower(names[i]));
    }
    lemma_without_added(domains, names, names);
    if forall|i: int| 0 <= i < names.len() ==> !listed(domains, #[trigger] names[i]) {
        assert forall|i: int| 0 <= i < domains.len() implies !listed(names, #[trigger] domains[i]) by {
            if listed(names, domains[i]) {
                let k = choose|k: int| 0 <= k < names.len() && lower(#[trigger] names[k]) == lower(domains[i]);
                assert(lower(domains[i]) == lower(names[k]));
                assert(listed(domains, names[k]));
            }
        }
        lemma_without_none(domains, names);
    }
}

/// The commands to add names that are not listed and to remove them again leave the configuration
/// as it was.
pub proof fn law_remove_command_undoes_add(v: AppView, names: Seq<Seq<char>>, now: Duration, later: Duration)
    requires
        forall|i: int| 0 <= i < names.len() ==> !listed(v.cfg.domains, #[trigger] names[i]),
    ensures
        ({
            let grown = performed(v, Verb::Add, names, now).0;
            performed(grown, Verb::Remove, names, later).0.cfg == v.cfg
        }),
{
    law_removing_undoes_adding(v.cfg.domains, names);
}

/// Typing a character and taking it back leaves the command as it was.
pub proof fn law_backspace_undoes_typing(v: AppView, input: Seq<char>, c: char, bare: bool, now: Duration)
    requires
        v.mode == ModeView::Command(input),
    ensures
        pressed(pressed(v, Key::Char(c), bare, now).0, Key::Backspace, bare, now).0 == v,
{
    assert(input.push(c).drop_last() =~= input);
}

/// The first word of a line names the command that is carried out with the words behind it. A line
/// that begins with any other word changes nothing but the message, and an empty line nothing at all.
#[verifier::rlimit(60)]
pub proof fn law_words_name_commands(v: AppView, cmd: Seq<char>, now: Duration)
    ensures
        ({
            let all = words(cmd);
            let w = all[0];
            let rest = all.skip(1);
            let done = commanded(v, cmd, now);
            &&& all.len() == 0 ==> done == (v, ReplyView::Continue)
            &&& all.len() > 0 ==> {
                &&& w == "q"@ || w == "quit"@ || w == "exit"@ ==> done == performed(v, Verb::Quit, rest, now)
                &&& w == "w"@ || w == "write"@ || w == "export"@ ==> done == performed(v, Verb::Write, rest, now)
                &&& w == "wq"@ ==> done == performed(v, Verb::WriteQuit, rest, now)
                &&& w == "r"@ || w == "run"@ || w == "start"@ || w == "restart"@ ==> done == performed(v, Verb::Restart, rest, now)
                &&& w == "stop"@ || w == "abort"@ ==> done == performed(v, Verb::Stop, rest, now)
                &&& w == "set"@ ==> done == performed(v, Verb::Assign, rest, now)
                &&& w == "cached"@ ==> done == performed(v, Verb::Cached, rest, now)
                &&& w == "uncached"@ ==> done == performed(v, Verb::Uncached, rest, now)
                &&& w == "ipv6"@ ==> done == performed(v, Verb::Ipv6, rest, now)
                &&& w == "add"@ ==> done == performed(v, Verb::Add, rest, now)
                &&& w == "rm"@ || w == "del"@ || w == "remove"@ ==> done == performed(v, Verb::Remove, rest, now)
                &&& w == "reset"@ ==> done == performed(v, Verb::Reset, rest, now)
                &&& w == "domains"@ ==> done == performed(v, Verb::Domains, rest, now)
                &&& w == "help"@ || w == "?"@ ==> done == performed(v, Verb::Help, rest, now)
            }
            &&& all.len() > 0 && verb_named(w) is None ==> done.1 == ReplyView::Continue && done.0 == (AppView {
                status: done.0.status,
                ..v
            }) && (done.0.status matches Some(s) && s.color == Color::Red && w.is_suffix_of(s.text))
        }),
{
    reveal_strlit("q");
    reveal_strlit("quit");
    reveal_strlit("exit");
    reveal_strlit("w");
    reveal_strlit("write");
    reveal_strlit("export");
    reveal_strlit("wq");
    reveal_strlit("r");
    reveal_strlit("run");
    reveal_strlit("start");
    reveal_strlit("restart");
    reveal_strlit("stop");
    reveal_strlit("abort");
    reveal_strlit("set");
    reveal_strlit("cached");
    reveal_strlit("uncached");
    reveal_strlit("ipv6");
    reveal_strlit("add");
    reveal_strlit("rm");
    reveal_strlit("del");
    reveal_strlit("remove");
    reveal_strlit("reset");
    reveal_strlit("domains");
    reveal_strlit("help");
    reveal_strlit("?");
    assert("q"@[0] != "w"@[0]);
    assert("q"@[0] != "r"@[0]);
    assert("q"@[0] != "?"@[0]);
    assert("quit"@[0] != "exit"@[0]);
    assert("quit"@[0] != "stop"@[0]);
    assert("quit"@[0] != "ipv6"@[0]);
    assert("quit"@[0] != "help"@[0]);
    assert("exit"@[0] != "stop"@[0]);
    assert("exit"@[0] != "ipv6"@[0]);
    assert("exit"@[0] != "help"@[0]);
    assert("w"@[0] != "r"@[0]);
    assert("w"@[0] != "?"@[0]);
    assert("write"@[0] != "start"@[0]);
    assert("write"@[0] != "abort"@[0]);
    assert("write"@[0] != "reset"@[0]);
    assert("export"@[0] != "cached"@[0]);
    assert("export"@[0] != "remove"@[0]);
    assert("wq"@[0] != "rm"@[0]);
    assert("r"@[0] != "?"@[0]);
    assert("run"@[0] != "set"@[0]);
    assert("run"@[0] != "add"@[0]);
    assert("run"@[0] != "del"@[0]);
    assert("start"@[0] != "abort"@[0]);
    assert("start"@[0] != "reset"@[0]);
    assert("restart"@[0] != "domains"@[0]);
    assert("stop"@[0] != "ipv6"@[0]);
    assert("stop"@[0] != "help"@[0]);
    assert("abort"@[0] != "reset"@[0]);
    assert("set"@[0] != "add"@[0]);
    assert("set"@[0] != "del"@[0]);
    assert("cached"@[0] != "remove"@[0]);
    assert("ipv6"@[0] != "help"@[0]);
    assert("add"@[0] != "del"@[0]);
    let all = words(cmd);
    if all.len() > 0 && verb_named(all[0]) is None {
        let w = all[0];
        let text = "unknown command: "@ + w;
        assert(w =~= text.subrange(text.len() - w.len(), text.len() as int));
    }
}

/// What each command does. Quitting and writing leave the session as it is and ask for the rest, a
/// path for the export being the first word behind the command; stopping ends the run and keeps its
/// results; restarting begins a run with the configuration as it is, without results; adding, removing
/// and resetting change the domains of the configuration and nothing else of it.
pub proof fn law_commands_do_what_they_say(v: AppView, rest: Seq<Seq<char>>, now: Duration)
    ensures
        performed(v, Verb::Quit, rest, now) == (v, ReplyView::Quit),
        rest.len() == 0 ==> performed(v, Verb::Write, rest, now) == (v, ReplyView::Write { path: None, quit: false })
            && performed(v, Verb::WriteQuit, rest, now) == (v, ReplyView::Write { path: None, quit: true }),
        rest.len() > 0 ==> performed(v, Verb::Write, rest, now) == (
            v,
            ReplyView::Write { path: Some(rest[0]), quit: false },
        ) && performed(v, Verb::WriteQuit, rest, now) == (v, ReplyView::Write { path: Some(rest[0]), quit: true }),
        ({
            let (after, reply) = performed(v, Verb::Stop, rest, now);
            reply == ReplyView::Stop && after.finished && after == (AppView { finished: true, status: after.status, ..v })
        }),
        ({
            let (after, reply) = performed(v, Verb::Restart, rest, now);
            &&& reply == ReplyView::Restart && after.running == v.cfg && after.endpoints.len() == 0 && !after.finished
            &&& after.started == now && after.selected == Some(0usize) && after.cfg == v.cfg && after.sort == v.sort
            &&& after.export_path == v.export_path && after.resolvers == v.resolvers && after.mode == v.mode
            &&& after.detail_open == v.detail_open && (after.status matches Some(s) && s.color == Color::Green)
        }),
        ({
            let (after, reply) = performed(v, Verb::Add, rest, now);
            reply == ReplyView::Continue && after.cfg == (ConfigView { domains: after.cfg.domains, ..v.cfg })
                && v.cfg.domains.is_prefix_of(after.cfg.domains) && forall|name: Seq<char>| #[trigger]
                listed(after.cfg.domains, name) == (listed(v.cfg.domains, name) || listed(rest, name))
        }),
        ({
            let (after, reply) = performed(v, Verb::Remove, rest, now);
            reply == ReplyView::Continue && after.cfg == (ConfigView { domains: after.cfg.domains, ..v.cfg })
                && forall|name: Seq<char>| #[trigger]
                listed(after.cfg.domains, name) == (listed(v.cfg.domains, name) && !listed(rest, name))
        }),
        ({
            let (after, reply) = performed(v, Verb::Reset, rest, now);
            reply == ReplyView::Continue && after.cfg == (ConfigView { domains: default_domain_names(), ..v.cfg })
        }),
        ({
            let (after, reply) = performed(v, Verb::Help, rest, now);
            reply == ReplyView::Continue && after == (AppView { mode: ModeView::Help, ..v })
        }),
        ({
            let (after, reply) = performed(v, Verb::Domains, rest, now);
            reply == ReplyView::Continue && after == (AppView { status: after.status, ..v }) && (after.status matches Some(s)
                && s.text == joined(v.cfg.domains, ", "@))
        }),
{
    assert forall|name: Seq<char>| #[trigger] listed(added(v.cfg.domains, rest), name) == (listed(v.cfg.domains, name)
        || listed(rest, name)) by {
        law_added_names_are_listed(v.cfg.domains, rest, name);
    }
    law_added_names_are_listed(v.cfg.domains, rest, Seq::empty());
    assert forall|name: Seq<char>| #[trigger] listed(without(v.cfg.domains, rest), name) == (listed(v.cfg.domains, name)
        && !listed(rest, name)) by {
        law_removed_names_are_gone(v.cfg.domains, rest, name);
    }
}

/// Removing names keeps the order of the others.
pub proof fn law_removing_keeps_order(a: Seq<Seq<char>>, b: Seq<Seq<char>>, names: Seq<Seq<char>>, name: Seq<char>)
    ensures
        without(a + b, names) == without(a, names) + without(b, names),
        listed(names, name) ==> without(seq![name], names).len() == 0,
        !listed(names, name) ==> without(seq![name], names) == seq![name],
    decreases b.len(),
{
    let one = seq![name];
    assert(one.drop_last() =~= Seq::empty());
    assert(without(one.drop_last(), names) =~= Seq::empty());
    if !listed(names, name) {
        assert(without(one, names) =~= one);
    }
    if b.len() == 0 {
        assert(a + b =~= a);
        assert(without(a, names) + without(b, names) =~= without(a, names));
    } else {
        law_removing_keeps_order(a, b.drop_last(), names, name);
        assert((a + b).drop_last() =~= a + b.drop_last());
        assert(without(a + b, names) =~= without(a, names) + without(b, names));
    }
}

/// A `set` command of three words sets the second to the third.
pub proof fn law_set_command(v: AppView, key: Seq<char>, val: Seq<char>, now: Duration)
    requires
        key.len() > 0,
        val.len() > 0,
        forall|i: int| 0 <= i < key.len() ==> !is_space(#[trigger] key[i]),
        forall|i: int| 0 <= i < val.len() ==> !is_space(#[trigger] val[i]),
    ensures
        commanded(v, "set"@ + seq![' '] + key + seq![' '] + val, now) == (
            set_with(v, seq![key, val], now),
            ReplyView::Continue,
        ),
{
    reveal_strlit("set");
    let head = "set"@ + seq![' '] + key;
    let cmd = head + seq![' '] + val;
    assert forall|i: int| 0 <= i < "set"@.len() implies !is_space(#[trigger] "set"@[i]) by {}
    law_words_are_parted_by_white_space("set"@, ' ', key);
    law_words_are_parted_by_white_space(key, ' ', val);
    law_words_are_parted_by_white_space(val, ' ', key);
    law_words_are_parted_by_white_space(head, ' ', val);
    assert(words(cmd) =~= seq!["set"@, key, val]);
    law_words_name_commands(v, cmd, now);
    assert(words(cmd).skip(1) =~= seq![key, val]);
}

/// What keys do in normal mode: a colon opens the command line, `q` without a modifier quits, `s` takes
/// the next sort column, `r` restarts, `?` opens the help; Enter opens the detail pane and closes it, Esc
/// closes it; the arrow keys move the selection by one row and the page keys by ten.
pub proof fn law_keys_do_what_they_say(v: AppView, bare: bool, now: Duration)
    requires
        v.mode == ModeView::Normal,
    ensures
        pressed(v, Key::Char(':'), bare, now) == (
            AppView { mode: ModeView::Command(Seq::empty()), ..v },
            ReplyView::Continue,
        ),
        pressed(v, Key::Char('q'), true, now) == (v, ReplyView::Quit),
        pressed(v, Key::Char('q'), false, now) == (v, ReplyView::Continue),
        pressed(v, Key::Char('s'), bare, now) == (AppView { sort: v.sort.spec_next(), ..v }, ReplyView::Continue),
        pressed(v, Key::Char('r'), bare, now) == performed(v, Verb::Restart, Seq::empty(), now),
        pressed(v, Key::Char('?'), bare, now) == (AppView { mode: ModeView::Help, ..v }, ReplyView::Continue),
        pressed(v, Key::Enter, bare, now) == (AppView { detail_open: !v.detail_open, ..v }, ReplyView::Continue),
        pressed(v, Key::Esc, bare, now) == (AppView { detail_open: false, ..v }, ReplyView::Continue),
        ({
            let rows = v.last_sorted.len();
            let at = match v.selected {
                Some(k) => k as int,
                None => 0,
            };
            rows > 0 && at < rows <= usize::MAX ==> {
                &&& pressed(v, Key::Down, bare, now).0.selected == Some((if at + 1 < rows {
                    at + 1
                } else {
                    rows - 1
                }) as usize)
                &&& pressed(v, Key::Up, bare, now).0.selected == Some((if at >= 1 {
                    at - 1
                } else {
                    0
                }) as usize)
                &&& pressed(v, Key::PageDown, bare, now).0.selected == Some((if at + 10 < rows {
                    at + 10
                } else {
                    rows - 1
                }) as usize)
                &&& pressed(v, Key::PageUp, bare, now).0.selected == Some((if at >= 10 {
                    at - 10
                } else {
                    0
                }) as usize)
            }
        }),
        forall|c: char|
            c != ':' && c != 'q' && c != 's' && c != 'r' && c != '?' ==> #[trigger] pressed(v, Key::Char(c), bare, now) == (
                v,
                ReplyView::Continue,
            ),
{
}

/// The state after typing a text on the command line.
pub open spec fn typed(v: AppView, text: Seq<char>, now: Duration) -> AppView
    decreases text.len(),
{
    if text.len() == 0 {
        v
    } else {
        pressed(typed(v, text.drop_last(), now), Key::Char(text.last()), true, now).0
    }
}

/// What is typed on the command line stands there until Enter runs it as a command, back in normal
/// mode, or Esc drops it; till then nothing else changes.
pub proof fn law_typing_builds_commands(v: AppView, text: Seq<char>, now: Duration)
    requires
        v.mode == ModeView::Normal,
    ensures
        ({
            let open = pressed(v, Key::Char(':'), true, now).0;
            let line = typed(open, text, now);
            &&& line == (AppView { mode: ModeView::Command(text), ..v })
            &&& pressed(line, Key::Enter, true, now) == commanded(v, text, now)
            &&& pressed(line, Key::Esc, true, now) == (v, ReplyView::Continue)
        }),
    decreases text.len(),
{
    let open = pressed(v, Key::Char(':'), true, now).0;
    if text.len() == 0 {
        assert(text =~= Seq::empty());
    } else {
        law_typing_builds_commands(v, text.drop_last(), now);
        assert(text.drop_last().push(text.last()) =~= text);
    }
    assert(typed(open, text, now) == (AppView { mode: ModeView::Command(text), ..v }));
    assert((AppView { mode: ModeView::Normal, ..typed(open, text, now) }) == v);
}

/// Help is closed by Esc, Enter, `q` and `?`, and every other key leaves it open; none of them does
/// anything else.
pub proof fn law_help_is_closed_by_keys(v: AppView, key: Key, bare: bool, now: Duration)
    requires
        v.mode == ModeView::Help,
    ensures
        ({
            let (after, reply) = pressed(v, key, bare, now);
            &&& reply == ReplyView::Continue && after == (AppView { mode: after.mode, ..v })
            &&& after.mode == ModeView::Normal <==> key == Key::Esc || key == Key::Enter || key == Key::Char('q') || key
                == Key::Char('?')
            &&& after.mode == ModeView::Normal || after.mode == ModeView::Help
        }),
{
}

/// The messages about domains count them: those that there are after adding or resetting, and those
/// that are gone after removing.
pub proof fn law_messages_count_domains(v: AppView, rest: Seq<Seq<char>>, now: Duration)
    ensures
        ({
            let add = performed(v, Verb::Add, rest, now).0;
            let rm = performed(v, Verb::Remove, rest, now).0;
            let reset = performed(v, Verb::Reset, rest, now).0;
            &&& holds(add.status->0.text, "domains: "@ + dec(add.cfg.domains.len()))
            &&& holds(rm.status->0.text, "removed "@ + dec((v.cfg.domains.len() - rm.cfg.domains.len()) as nat))
            &&& holds(reset.status->0.text, "domains reset to default ("@ + dec(reset.cfg.domains.len()))
            &&& add.status->0.color == Color::Cyan && rm.status->0.color == Color::Cyan && reset.status->0.color
                == Color::Cyan
        }),
{
    let a = added(v.cfg.domains, rest);
    let b = without(v.cfg.domains, rest);
    lemma_labelled("domains: "@, dec(a.len()), " (config changed — :r to apply)"@);
    lemma_labelled("removed "@, dec((v.cfg.domains.len() - b.len()) as nat), " (config changed — :r to apply)"@);
    lemma_labelled("domains reset to default ("@, dec(default_domain_names().len()), ")"@);
}

/// Taking back from an empty command line leaves it empty and open.
pub proof fn law_empty_command_line_stays_open(v: AppView, bare: bool, now: Duration)
    requires
        v.mode == ModeView::Command(Seq::empty()),
    ensures
        pressed(v, Key::Backspace, bare, now) == (v, ReplyView::Continue),
{
}

} // verus!
