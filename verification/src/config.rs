//! The configuration that command-line arguments ask for.

use vstd::prelude::*;
use vstd::string::StringExecFns;

use crate::bench::{law_phases_follow_classes, BenchConfig, Class, Phase};
use crate::domains::{
    dedup_preserve, deduplicated, default_domain_names, default_domains, law_dedup_keeps_every_name,
    law_dedup_keeps_what_comes_first, law_listed_in_both, listed, listed_domains, parse_domains,
};
use crate::duration::Duration;
use crate::export::{settled_format, ExportFormat};
use crate::pacing::Amplitude;
use crate::text::{lower, lowered, same, string_of, texts};

verus! {

broadcast use vstd::string::group_string_axioms;

/// Sample-size preset. Overrides the number of iterations when set.
#[derive(Clone, Copy, Debug, PartialEq, Eq, Structural)]
pub enum Preset {
    /// 1 iteration per domain: smoke test
    Quick,
    /// 5 iterations per domain: default
    Standard,
    /// 20 iterations per domain: tighter tail stats
    Thorough,
    /// 50 iterations per domain: high-confidence run
    Exhaustive,
}

/// The iterations of a preset.
pub open spec fn preset_iterations(p: Preset) -> usize {
    match p {
        Preset::Quick => 1,
        Preset::Standard => 5,
        Preset::Thorough => 20,
        Preset::Exhaustive => 50,
    }
}

/// The preset that a word names, whatever the case of its letters.
pub open spec fn preset_named(s: Seq<char>) -> Option<Preset> {
    let w = lower(s);
    if w == "quick"@ || w == "q"@ {
        Some(Preset::Quick)
    } else if w == "standard"@ || w == "std"@ || w == "s"@ {
        Some(Preset::Standard)
    } else if w == "thorough"@ || w == "t"@ {
        Some(Preset::Thorough)
    } else if w == "exhaustive"@ || w == "e"@ || w == "exh"@ {
        Some(Preset::Exhaustive)
    } else {
        None
    }
}

impl Preset {
    /// The iterations per domain.
    pub fn iterations(self) -> (r: usize)
        ensures
            r == preset_iterations(self),
    {
        match self {
            Preset::Quick => 1,
            Preset::Standard => 5,
            Preset::Thorough => 20,
            Preset::Exhaustive => 50,
        }
    }

    /// The preset that a word names.
    pub fn parse_name(s: &str) -> (r: Option<Preset>)
        ensures
            r == preset_named(s@),
    {
        let word = string_of(&lowered(s));
        let w = word.as_str();
        if same(w, "quick") || same(w, "q") {
            Some(Preset::Quick)
        } else if same(w, "standard") || same(w, "std") || same(w, "s") {
            Some(Preset::Standard)
        } else if same(w, "thorough") || same(w, "t") {
            Some(Preset::Thorough)
        } else if same(w, "exhaustive") || same(w, "e") || same(w, "exh") {
            Some(Preset::Exhaustive)
        } else {
            None
        }
    }
}

/// The arguments of a benchmark.
#[derive(Clone, Debug)]
pub struct BenchArgs {
    /// Iterations per domain per class. Ignored if a preset is set.
    pub iterations: usize,
    pub preset: Option<Preset>,
    pub timeout_ms: u64,
    pub spacing_ms: u64,
    /// Skip the cached class (warm-cache probing).
    pub no_cached: bool,
    /// Skip the uncached class (random subdomain, forces recursion).
    pub no_uncached: bool,
    pub ipv6: bool,
    pub add_domains: Vec<String>,
    pub domains_file: Option<String>,
    pub only_custom: bool,
    pub export: Option<String>,
}

/// Why arguments make no configuration.
#[derive(Clone, Debug)]
pub enum ConfigError {
    /// Both classes are skipped.
    NoClass,
    /// The domain file could not be read.
    DomainsFile { path: String, error: String },
    /// No domain is left.
    NoDomains,
    /// The path of the export names no format.
    ExportPath(String),
}

impl ConfigError {
    /// The message for an error, without its cause.
    pub open spec fn spec_message(self) -> Seq<char> {
        match self {
            ConfigError::NoClass => "both --no-cached and --no-uncached set — nothing to benchmark"@,
            ConfigError::DomainsFile { path, error } => "reading "@ + path@,
            ConfigError::NoDomains => "no domains to test (use --add-domain or drop --only-custom)"@,
            ConfigError::ExportPath(path) => "--export path must end in .csv or .json ("@ + path@ + ")"@,
        }
    }

    /// The message for an error, without its cause.
    pub fn message(&self) -> (r: String)
        ensures
            r@ == self.spec_message(),
    {
        match self {
            ConfigError::NoClass => "both --no-cached and --no-uncached set — nothing to benchmark".to_owned(),
            ConfigError::DomainsFile { path, error } => {
                let mut r = "reading ".to_owned();
                r.append(path.as_str());
                r
            },
            ConfigError::NoDomains => "no domains to test (use --add-domain or drop --only-custom)".to_owned(),
            ConfigError::ExportPath(path) => {
                let mut r = "--export path must end in .csv or .json (".to_owned();
                r.append(path.as_str());
                r.append(")");
                r
            },
        }
    }
}

/// The domains that arguments ask for: the default list unless only custom ones are wanted, then
/// those of the file, then the added ones; each where it is first seen.
pub open spec fn domains_for(args: BenchArgs, file: Seq<char>) -> Seq<Seq<char>> {
    let base = if args.only_custom {
        Seq::empty()
    } else {
        default_domain_names()
    };
    let from_file = if args.domains_file is Some {
        listed_domains(file)
    } else {
        Seq::empty()
    };
    deduplicated(base + from_file + texts(args.add_domains@))
}

/// `cfg` is what arguments ask for, with the domains `domains`.
pub open spec fn configures(cfg: BenchConfig, args: BenchArgs, domains: Seq<Seq<char>>) -> bool {
    &&& texts(cfg.domains@) == domains
    &&& cfg.iterations == (match args.preset {
        Some(p) => preset_iterations(p),
        None => args.iterations,
    })
    &&& cfg.timeout@ == args.timeout_ms * 1_000_000
    &&& cfg.cached == !args.no_cached
    &&& cfg.uncached == !args.no_uncached
    &&& cfg.include_ipv6 == args.ipv6
    &&& cfg.inter_query@ == args.spacing_ms * 1_000_000
    &&& cfg.transports@.len() == 0
    &&& cfg.inter_class_pause@ == 500_000_000
    &&& cfg.jitter_pct == Amplitude::three_tenths()
}

/// `r` is what becomes of arguments, where reading the domain file gave `read` and the path of
/// the export names `format`.
pub open spec fn config_result(
    r: Result<BenchConfig, ConfigError>,
    args: BenchArgs,
    read: Result<String, String>,
    format: Option<ExportFormat>,
) -> bool {
    if args.no_cached && args.no_uncached {
        r matches Err(ConfigError::NoClass)
    } else if args.domains_file is Some && read is Err {
        r == Err::<BenchConfig, ConfigError>(
            ConfigError::DomainsFile { path: args.domains_file->0, error: read->Err_0 },
        )
    } else {
        let domains = domains_for(args, (read->Ok_0)@);
        if domains.len() == 0 {
            r matches Err(ConfigError::NoDomains)
        } else if args.export is Some && format is None {
            r == Err::<BenchConfig, ConfigError>(ConfigError::ExportPath(args.export->0))
        } else {
            r matches Ok(cfg) && configures(cfg, args, domains)
        }
    }
}

fn append_all(r: &mut Vec<String>, more: &Vec<String>)
    ensures
        final(r)@ == old(r)@ + more@,
{
    let ghost start = r@;
    let n: usize = more.len();
    let mut i: usize = 0;
    assert(start + more@.take(0) =~= start);
    while i < n
        invariant
            i <= n == more.len(),
            r@ == start + more@.take(i as int),
        decreases n - i,
    {
        r.push(more[i].clone());
        assert(r@ =~= start + more@.take(i + 1));
        i = i + 1;
    }
    assert(more@.take(n as int) =~= more@);
}

/// The configuration that arguments ask for, where reading the domain file, if one is named, gave
/// `read`, and the path of the export, if there is one, names `format`.
pub fn configure(args: &BenchArgs, read: &Result<String, String>, format: Option<ExportFormat>) -> (r: Result<
    BenchConfig,
    ConfigError,
>)
    ensures
        config_result(r, *args, *read, format),
{
    if args.no_cached && args.no_uncached {
        return Err(ConfigError::NoClass);
    }
    let mut domains: Vec<String> = if args.only_custom {
        Vec::new()
    } else {
        default_domains()
    };
    let ghost base = texts(domains@);
    let mut from_file: Vec<String> = Vec::new();
    match &args.domains_file {
        Some(path) => {
            match read {
                Ok(raw) => {
                    from_file = parse_domains(raw.as_str());
                },
                Err(e) => {
                    return Err(ConfigError::DomainsFile { path: path.clone(), error: e.clone() });
                },
            }
        },
        None => {},
    }
    append_all(&mut domains, &from_file);
    append_all(&mut domains, &args.add_domains);
    proof {
        let none = Seq::<Seq<char>>::empty();
        if args.only_custom {
            assert(base =~= none);
        }
        if args.domains_file is None {
            assert(texts(from_file@) =~= none);
        }
        assert(texts(domains@) =~= base + texts(from_file@) + texts(args.add_domains@));
    }
    let domains = dedup_preserve(domains);
    if domains.len() == 0 {
        return Err(ConfigError::NoDomains);
    }
    match &args.export {
        Some(p) => {
            if format.is_none() {
                return Err(ConfigError::ExportPath(p.clone()));
            }
        },
        None => {},
    }
    let iterations: usize = match args.preset {
        Some(p) => p.iterations(),
        None => args.iterations,
    };
    let base = BenchConfig::default();
    Ok(
        BenchConfig {
            domains,
            iterations,
            timeout: Duration::from_millis(args.timeout_ms),
            cached: !args.no_cached,
            uncached: !args.no_uncached,
            include_ipv6: args.ipv6,
            transports: base.transports,
            inter_query: Duration::from_millis(args.spacing_ms),
            inter_class_pause: base.inter_class_pause,
            jitter_pct: base.jitter_pct,
        },
    )
}

/// The configuration that arguments ask for, where reading the domain file, if one is named, gave
/// `read`. Where platforms read the export path differently, this platform decides on its format.
pub fn build_bench_config(args: &BenchArgs, read: &Result<String, String>) -> (r: Result<BenchConfig, ConfigError>)
    ensures
        args.export is None ==> config_result(r, *args, *read, None),
        args.export matches Some(p) ==> (settled_format(p@) matches Some(f) ==> config_result(r, *args, *read, f)),
        exists|format: Option<ExportFormat>| #[trigger] config_result(r, *args, *read, format),
{
    let format = match &args.export {
        Some(p) => ExportFormat::from_path(p.as_str()),
        None => None,
    };
    let r = configure(args, read, format);
    assert(config_result(r, *args, *read, format));
    r
}

/// A configuration has something to benchmark: a class and a domain, and no domain twice.
pub proof fn law_config_is_runnable(
    cfg: BenchConfig,
    args: BenchArgs,
    read: Result<String, String>,
    format: Option<ExportFormat>,
)
    requires
        config_result(Ok(cfg), args, read, format),
    ensures
        cfg.cached || cfg.uncached,
        cfg.domains@.len() > 0,
        cfg.jitter_pct.wf(),
        forall|i: int, j: int|
            0 <= i < j < cfg.domains@.len() ==> lower((#[trigger] cfg.domains@[i])@) != lower(
                (#[trigger] cfg.domains@[j])@,
            ),
{
    let file = (read->Ok_0)@;
    let base = if args.only_custom {
        Seq::empty()
    } else {
        default_domain_names()
    };
    let from_file = if args.domains_file is Some {
        listed_domains(file)
    } else {
        Seq::empty()
    };
    let all = base + from_file + texts(args.add_domains@);
    crate::domains::law_dedup_leaves_no_repeats(all);
    assert forall|i: int, j: int| 0 <= i < j < cfg.domains@.len() implies lower((#[trigger] cfg.domains@[i])@) != lower(
        (#[trigger] cfg.domains@[j])@,
    ) by {
        assert(texts(cfg.domains@)[i] == deduplicated(all)[i]);
        assert(texts(cfg.domains@)[j] == deduplicated(all)[j]);
    }
}

/// A configuration made from arguments runs a class exactly where its `--no-` flag is not set.
pub proof fn law_flags_choose_classes(
    cfg: BenchConfig,
    args: BenchArgs,
    read: Result<String, String>,
    format: Option<ExportFormat>,
)
    requires
        config_result(Ok(cfg), args, read, format),
    ensures
        cfg.cached == !args.no_cached,
        cfg.uncached == !args.no_uncached,
        cfg.spec_phases().contains(Phase::Run(Class::Cached)) == !args.no_cached,
        cfg.spec_phases().contains(Phase::Run(Class::Uncached)) == !args.no_uncached,
{
    law_phases_follow_classes(cfg);
}

/// A configuration holds the times and the families that the arguments give, and as many iterations:
/// those of the preset where there is one, 1, 5, 20 or 50 of them.
pub proof fn law_arguments_set_the_pace(
    cfg: BenchConfig,
    args: BenchArgs,
    read: Result<String, String>,
    format: Option<ExportFormat>,
)
    requires
        config_result(Ok(cfg), args, read, format),
    ensures
        cfg.timeout@ == args.timeout_ms * 1_000_000,
        cfg.inter_query@ == args.spacing_ms * 1_000_000,
        cfg.include_ipv6 == args.ipv6,
        cfg.inter_class_pause@ == 500_000_000,
        cfg.transports@.len() == 0,
        args.preset is None ==> cfg.iterations == args.iterations,
        args.preset == Some(Preset::Quick) ==> cfg.iterations == 1,
        args.preset == Some(Preset::Standard) ==> cfg.iterations == 5,
        args.preset == Some(Preset::Thorough) ==> cfg.iterations == 20,
        args.preset == Some(Preset::Exhaustive) ==> cfg.iterations == 50,
{
}

/// The domains of a configuration are the default ones, unless only custom ones are wanted, those of
/// the file, if one is named, and the added ones: every one of them, and no other. The default ones
/// come first and the added ones last.
pub proof fn law_arguments_choose_domains(
    cfg: BenchConfig,
    args: BenchArgs,
    read: Result<String, String>,
    format: Option<ExportFormat>,
    name: Seq<char>,
)
    requires
        config_result(Ok(cfg), args, read, format),
    ensures
        listed(texts(cfg.domains@), name) == (!args.only_custom && listed(default_domain_names(), name)
            || args.domains_file is Some && listed(listed_domains((read->Ok_0)@), name) || listed(
            texts(args.add_domains@),
            name,
        )),
        !args.only_custom ==> deduplicated(default_domain_names()).is_prefix_of(texts(cfg.domains@)),
        args.only_custom && args.domains_file is Some ==> deduplicated(listed_domains((read->Ok_0)@)).is_prefix_of(
            texts(cfg.domains@),
        ),
        !args.only_custom && args.domains_file is Some ==> deduplicated(
            default_domain_names() + listed_domains((read->Ok_0)@),
        ).is_prefix_of(texts(cfg.domains@)),
{
    let file = (read->Ok_0)@;
    let base = if args.only_custom {
        Seq::empty()
    } else {
        default_domain_names()
    };
    let from_file = if args.domains_file is Some {
        listed_domains(file)
    } else {
        Seq::empty()
    };
    let added = texts(args.add_domains@);
    law_dedup_keeps_every_name(base + from_file + added, name);
    law_listed_in_both(base + from_file, added, name);
    law_listed_in_both(base, from_file, name);
    law_dedup_keeps_what_comes_first(base, from_file + added);
    law_dedup_keeps_what_comes_first(base + from_file, added);
    if args.only_custom {
        assert(base + from_file =~= from_file);
    }
    assert(base + (from_file + added) =~= base + from_file + added);
}

/// Arguments make a configuration exactly where they leave a class, a domain and, for an export, a
/// format, and the domain file they name could be read. Otherwise the error says which of these was
/// missing, the first of them that was.
pub proof fn law_arguments_are_refused_for_a_reason(
    r: Result<BenchConfig, ConfigError>,
    args: BenchArgs,
    read: Result<String, String>,
    format: Option<ExportFormat>,
)
    requires
        config_result(r, args, read, format),
    ensures
        r matches Err(ConfigError::NoClass) <==> args.no_cached && args.no_uncached,
        r matches Err(ConfigError::DomainsFile { path, error }) ==> args.domains_file == Some(path) && read
            == Err::<String, String>(error),
        !(args.no_cached && args.no_uncached) && args.domains_file is Some && read is Err ==> r matches Err(
            ConfigError::DomainsFile { .. },
        ),
        r matches Err(ConfigError::ExportPath(p)) ==> args.export == Some(p) && format is None,
        r is Ok ==> !(args.no_cached && args.no_uncached) && (args.domains_file is Some ==> read is Ok) && (args.export is Some
            ==> format is Some) && r->Ok_0.domains@.len() > 0,
        r matches Err(ConfigError::NoDomains) ==> forall|name: Seq<char>|
            !listed(texts(args.add_domains@), name) && (!args.only_custom ==> !#[trigger] listed(
                default_domain_names(),
                name,
            )),
        !(args.no_cached && args.no_uncached) && (args.domains_file is Some ==> read is Ok) && (args.export is Some
            ==> format is Some) && args.add_domains@.len() > 0 ==> r is Ok,
        !(args.no_cached && args.no_uncached) && args.only_custom && args.domains_file is None
            && args.add_domains@.len() == 0 ==> r matches Err(ConfigError::NoDomains),
        !(args.no_cached && args.no_uncached) && (args.domains_file is Some ==> read is Ok) && args.add_domains@.len() > 0
            && args.export is Some && format is None ==> r matches Err(ConfigError::ExportPath(_)),
{
    let file = (read->Ok_0)@;
    let base = if args.only_custom {
        Seq::empty()
    } else {
        default_domain_names()
    };
    let from_file = if args.domains_file is Some {
        listed_domains(file)
    } else {
        Seq::empty()
    };
    let added = texts(args.add_domains@);
    let all = base + from_file + added;
    if all.len() == 0 {
        assert(deduplicated(all).len() == 0);
    }
    if r is Ok {
        assert(texts(r->Ok_0.domains@).len() == r->Ok_0.domains@.len());
    }
    if deduplicated(all).len() == 0 {
        assert forall|name: Seq<char>| !listed(added, name) && (!args.only_custom ==> !#[trigger] listed(
            default_domain_names(),
            name,
        )) by {
            law_dedup_keeps_every_name(all, name);
            law_listed_in_both(base + from_file, added, name);
            law_listed_in_both(base, from_file, name);
        }
        if added.len() > 0 {
            let name = added[0];
            law_dedup_keeps_every_name(all, name);
            law_listed_in_both(base + from_file, added, name);
            assert(lower(added[0]) == lower(name));
        }
    }
}

/// The message for an error names the path that it is about, if it is about one, and says what is
/// missing otherwise.
pub proof fn law_messages_name_the_path(e: ConfigError)
    ensures
        match e {
            ConfigError::NoClass => e.spec_message()
                == "both --no-cached and --no-uncached set — nothing to benchmark"@,
            ConfigError::DomainsFile { path, error } => path@.is_suffix_of(e.spec_message())
                && e.spec_message().len() == path@.len() + 8,
            ConfigError::NoDomains => e.spec_message()
                == "no domains to test (use --add-domain or drop --only-custom)"@,
            ConfigError::ExportPath(path) => path@.is_suffix_of(e.spec_message().drop_last()) && e.spec_message().last()
                == ')',
        },
{
    reveal_strlit("reading ");
    reveal_strlit(")");
    let said = e.spec_message();
    match e {
        ConfigError::DomainsFile { path, error } => {
            assert(path@ =~= said.subrange(said.len() - path@.len(), said.len() as int));
        },
        ConfigError::ExportPath(path) => {
            let front = said.drop_last();
            assert(path@ =~= front.subrange(front.len() - path@.len(), front.len() as int));
        },
        _ => {},
    }
}

} // verus!
