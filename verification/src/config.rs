//! Configuration of the servers.

use vstd::prelude::*;
use vstd::string::*;
use vstd::utf8::*;

use crate::address::NetLocation;
use crate::anytls::server::AnyTlsServerConfig;
use crate::hysteria2::Hysteria2ServerConfig;
use crate::text;

verus! {

pub struct Config {
    pub log_level: String,
    pub servers: Vec<ServerConfig>,
}

pub enum ServerConfig {
    Hysteria2(Hysteria2Config),
    Anytls(AnyTlsConfig),
}

pub struct Hysteria2Config {
    pub listen: String,
    pub password: String,
    pub udp_enabled: bool,
    pub cert: Option<String>,
    pub key: Option<String>,
    /// ALPN protocols (default: ["h3"])
    pub alpn: Vec<String>,
}

pub struct AnyTlsConfig {
    pub listen: String,
    pub cert: Option<String>,
    pub key: Option<String>,
    pub udp_enabled: bool,
    pub users: Vec<AnyTlsUser>,
    /// Optional custom padding scheme (default is that of AnyTLS)
    pub padding_scheme: Option<String>,
    /// Optional fallback destination for failed authentication
    pub fallback: Option<NetLocation>,
}

pub struct AnyTlsUser {
    pub name: String,
    pub password: String,
}

/// The log level of a configuration that gives none.
pub fn default_log_level() -> (r: String)
    ensures
        r@ == "info"@,
{
    "info".to_owned()
}

/// Whether UDP is served where a configuration does not say.
pub fn default_true() -> (r: bool)
    ensures
        r,
{
    true
}

// ============================= log level =============================

/// How much is logged.
#[derive(Debug, Clone, Copy, PartialEq, Eq, Structural)]
pub enum LogLevel {
    Trace,
    Debug,
    Info,
    Warn,
    Error,
    Off,
}

/// An ASCII letter in lower case; any other byte as it is.
pub open spec fn lower_byte(b: u8) -> u8 {
    if 65 <= b <= 90 {
        (b + 32) as u8
    } else {
        b
    }
}

/// A text with its ASCII letters in lower case.
pub open spec fn lower(s: Seq<u8>) -> Seq<u8> {
    Seq::new(s.len(), |i: int| lower_byte(s[i]))
}

/// The log level that a text names, whatever the case of its letters. An unknown one is none.
pub open spec fn log_level_of(s: Seq<u8>) -> Option<LogLevel> {
    let t = lower(s);
    if t == encode_utf8("trace"@) {
        Some(LogLevel::Trace)
    } else if t == encode_utf8("debug"@) {
        Some(LogLevel::Debug)
    } else if t == encode_utf8("info"@) {
        Some(LogLevel::Info)
    } else if t == encode_utf8("warn"@) || t == encode_utf8("warning"@) {
        Some(LogLevel::Warn)
    } else if t == encode_utf8("error"@) {
        Some(LogLevel::Error)
    } else if t == encode_utf8("off"@) {
        Some(LogLevel::Off)
    } else {
        None
    }
}

fn to_lower(s: &[u8]) -> (r: Vec<u8>)
    ensures
        r@ == lower(s@),
{
    let mut out: Vec<u8> = Vec::new();
    let n: usize = s.len();
    let mut i: usize = 0;
    while i < n
        invariant
            i <= n,
            n == s@.len(),
            out@.len() == i,
            forall|j: int| 0 <= j < i ==> #[trigger] out@[j] == lower_byte(s@[j]),
        decreases n - i,
    {
        let b: u8 = s[i];
        if 65 <= b && b <= 90 {
            out.push(b + 32);
        } else {
            out.push(b);
        }
        i = i + 1;
    }
    assert(out@ =~= lower(s@));
    out
}

/// Reads a log level. `None`: it is unknown, and information is logged.
pub fn parse_log_level(level: &str) -> (r: Option<LogLevel>)
    ensures
        r == log_level_of(encode_utf8(level@)),
{
    let lowered = to_lower(level.as_bytes());
    let t = lowered.as_slice();
    if text::same_bytes(t, "trace".as_bytes()) {
        Some(LogLevel::Trace)
    } else if text::same_bytes(t, "debug".as_bytes()) {
        Some(LogLevel::Debug)
    } else if text::same_bytes(t, "info".as_bytes()) {
        Some(LogLevel::Info)
    } else if text::same_bytes(t, "warn".as_bytes()) || text::same_bytes(t, "warning".as_bytes()) {
        Some(LogLevel::Warn)
    } else if text::same_bytes(t, "error".as_bytes()) {
        Some(LogLevel::Error)
    } else if text::same_bytes(t, "off".as_bytes()) {
        Some(LogLevel::Off)
    } else {
        None
    }
}

// ============================ command line ===========================

/// What the command line asks for.
pub struct Options {
    pub config_path: String,
    pub dry_run: bool,
}

/// What a command line asks for.
#[verifier::ext_equal]
pub struct OptionsView {
    pub config_path: Seq<char>,
    pub dry_run: bool,
}

impl View for Options {
    type V = OptionsView;

    open spec fn view(&self) -> OptionsView {
        OptionsView { config_path: self.config_path@, dry_run: self.dry_run }
    }
}

/// Why the usage is printed instead.
pub enum UsageError {
    /// It was asked for.
    Help,
    /// An option lacks its argument.
    MissingArgument(String),
    /// An option is unknown.
    UnknownOption(String),
}

/// What a [`UsageError`] stands for.
#[verifier::ext_equal]
pub enum UsageErrorView {
    Help,
    MissingArgument(Seq<char>),
    UnknownOption(Seq<char>),
}

impl View for UsageError {
    type V = UsageErrorView;

    open spec fn view(&self) -> UsageErrorView {
        match self {
            UsageError::Help => UsageErrorView::Help,
            UsageError::MissingArgument(option) => UsageErrorView::MissingArgument(option@),
            UsageError::UnknownOption(option) => UsageErrorView::UnknownOption(option@),
        }
    }
}

/// What arguments ask for, on top of what those before them did. They are read in order, and
/// the first that is wrong decides.
pub open spec fn options_of(args: Seq<String>, so_far: OptionsView) -> Result<
    OptionsView,
    UsageErrorView,
>
    decreases args.len(),
{
    if args.len() == 0 {
        Ok(so_far)
    } else if args[0]@ == "-c"@ || args[0]@ == "--config"@ {
        if args.len() == 1 {
            Err(UsageErrorView::MissingArgument(args[0]@))
        } else {
            options_of(args.skip(2), OptionsView { config_path: args[1]@, ..so_far })
        }
    } else if args[0]@ == "-d"@ || args[0]@ == "--dry-run"@ {
        options_of(args.skip(1), OptionsView { dry_run: true, ..so_far })
    } else if args[0]@ == "-h"@ || args[0]@ == "--help"@ {
        Err(UsageErrorView::Help)
    } else {
        Err(UsageErrorView::UnknownOption(args[0]@))
    }
}

/// What is asked for without any argument.
pub open spec fn default_options() -> OptionsView {
    OptionsView { config_path: "config.yaml"@, dry_run: false }
}

/// Reads the arguments behind the program's name.
pub fn parse_args(args: &Vec<String>) -> (r: Result<Options, UsageError>)
    ensures
        match r {
            Ok(options) => options_of(args@, default_options()) == Ok::<OptionsView, UsageErrorView>(
                options@,
            ),
            Err(e) => options_of(args@, default_options()) == Err::<OptionsView, UsageErrorView>(e@),
        },
{
    let mut options = Options { config_path: "config.yaml".to_owned(), dry_run: false };
    let n: usize = args.len();
    let mut i: usize = 0;
    assert(args@.skip(0) =~= args@);
    while i < n
        invariant
            i <= n,
            n == args@.len(),
            options_of(args@, default_options()) == options_of(args@.skip(i as int), options@),
        decreases n - i,
    {
        let arg: &str = args[i].as_str();
        let ghost rest = args@.skip(i as int);
        assert(rest[0]@ == arg@);
        if text::same_text(arg, "-c") || text::same_text(arg, "--config") {
            if i + 1 >= n {
                return Err(UsageError::MissingArgument(arg.to_owned()));
            }
            assert(rest[1] == args@[i + 1]);
            assert(rest.skip(2) =~= args@.skip(i + 2));
            options.config_path = args[i + 1].clone();
            i = i + 2;
        } else if text::same_text(arg, "-d") || text::same_text(arg, "--dry-run") {
            assert(rest.skip(1) =~= args@.skip(i + 1));
            options.dry_run = true;
            i = i + 1;
        } else if text::same_text(arg, "-h") || text::same_text(arg, "--help") {
            return Err(UsageError::Help);
        } else {
            return Err(UsageError::UnknownOption(arg.to_owned()));
        }
    }
    Ok(options)
}

/// What a configuration leads to.
#[derive(Debug, Clone, Copy, PartialEq, Eq, Structural)]
pub enum Startup {
    /// There is nothing to serve, which is an error.
    NoServers,
    /// The configuration was only to be read.
    DryRun,
    /// The servers are started.
    Serve,
}

/// Decides what a configuration leads to.
pub fn startup(config: &Config, dry_run: bool) -> (r: Startup)
    ensures
        r == (if config.servers@.len() == 0 {
            Startup::NoServers
        } else if dry_run {
            Startup::DryRun
        } else {
            Startup::Serve
        }),
{
    if config.servers.len() == 0 {
        Startup::NoServers
    } else if dry_run {
        Startup::DryRun
    } else {
        Startup::Serve
    }
}

// ============================== runtime ==============================

/// The runtime configuration of a Hysteria2 server.
pub fn hysteria2_runtime(cfg: Hysteria2Config) -> (r: Hysteria2ServerConfig)
    ensures
        r == (Hysteria2ServerConfig {
            listen: cfg.listen,
            password: cfg.password,
            udp_enabled: cfg.udp_enabled,
            cert: cfg.cert,
            key: cfg.key,
            alpn: cfg.alpn,
        }),
{
    Hysteria2ServerConfig {
        listen: cfg.listen,
        password: cfg.password,
        udp_enabled: cfg.udp_enabled,
        cert: cfg.cert,
        key: cfg.key,
        alpn: cfg.alpn,
    }
}

/// The runtime configuration of an AnyTLS server.
pub fn anytls_runtime(cfg: AnyTlsConfig) -> (r: AnyTlsServerConfig)
    ensures
        r.listen == cfg.listen,
        r.cert == cfg.cert,
        r.key == cfg.key,
        r.udp_enabled == cfg.udp_enabled,
        r.padding_scheme == cfg.padding_scheme,
        r.fallback == cfg.fallback,
        r.users@.len() == cfg.users@.len(),
        forall|i: int|
            0 <= i < r.users@.len() ==> (#[trigger] r.users@[i]).0@ == cfg.users@[i].name@
                && r.users@[i].1@ == cfg.users@[i].password@,
{
    let mut users: Vec<(String, String)> = Vec::new();
    let n: usize = cfg.users.len();
    let mut i: usize = 0;
    while i < n
        invariant
            i <= n,
            n == cfg.users@.len(),
            users@.len() == i,
            forall|j: int|
                0 <= j < i ==> (#[trigger] users@[j]).0@ == cfg.users@[j].name@ && users@[j].1@
                    == cfg.users@[j].password@,
        decreases n - i,
    {
        users.push((cfg.users[i].name.clone(), cfg.users[i].password.clone()));
        i = i + 1;
    }
    AnyTlsServerConfig {
        listen: cfg.listen,
        cert: cfg.cert,
        key: cfg.key,
        udp_enabled: cfg.udp_enabled,
        users,
        padding_scheme: cfg.padding_scheme,
        fallback: cfg.fallback,
    }
}

/// The names of the log levels count in any case of their letters, and no other text names one.
pub proof fn log_levels_have_names(s: Seq<u8>)
    ensures
        log_level_of(s) == Some(LogLevel::Trace) <==> lower(s) == encode_utf8("trace"@),
        log_level_of(s) == Some(LogLevel::Debug) <==> lower(s) == encode_utf8("debug"@),
        log_level_of(s) == Some(LogLevel::Info) <==> lower(s) == encode_utf8("info"@),
        log_level_of(s) == Some(LogLevel::Warn) <==> lower(s) == encode_utf8("warn"@) || lower(s)
            == encode_utf8("warning"@),
        log_level_of(s) == Some(LogLevel::Error) <==> lower(s) == encode_utf8("error"@),
        log_level_of(s) == Some(LogLevel::Off) <==> lower(s) == encode_utf8("off"@),
{
    reveal_strlit("trace");
    reveal_strlit("debug");
    reveal_strlit("info");
    reveal_strlit("warn");
    reveal_strlit("warning");
    reveal_strlit("error");
    reveal_strlit("off");
    is_ascii_chars_encode_utf8("trace"@);
    is_ascii_chars_encode_utf8("debug"@);
    is_ascii_chars_encode_utf8("info"@);
    is_ascii_chars_encode_utf8("warn"@);
    is_ascii_chars_encode_utf8("warning"@);
    is_ascii_chars_encode_utf8("error"@);
    is_ascii_chars_encode_utf8("off"@);
    assert(encode_utf8("trace"@)[0] == 116);
    assert(encode_utf8("debug"@)[0] == 100);
    assert(encode_utf8("info"@)[0] == 105);
    assert(encode_utf8("warn"@)[0] == 119);
    assert(encode_utf8("warning"@)[0] == 119);
    assert(encode_utf8("error"@)[0] == 101);
    assert(encode_utf8("off"@)[0] == 111);
}

/// Lower case changes the letters from A to Z and nothing else.
pub proof fn lower_case_changes_letters(s: Seq<u8>, i: int)
    requires
        0 <= i < s.len(),
    ensures
        lower(s).len() == s.len(),
        65 <= s[i] <= 90 ==> lower(s)[i] == s[i] + 32,
        s[i] < 65 || s[i] > 90 ==> lower(s)[i] == s[i],
{
}

/// How arguments are read, one behind the other: the path behind `-c` replaces any before it, `-d`
/// asks for a dry run, and at the first that is neither reading ends.
pub proof fn arguments_are_read_in_order(args: Seq<String>, so_far: OptionsView)
    ensures
        default_options().config_path == "config.yaml"@,
        !default_options().dry_run,
        args.len() == 0 ==> options_of(args, so_far) == Ok::<OptionsView, UsageErrorView>(so_far),
        args.len() == 1 && (args[0]@ == "-c"@ || args[0]@ == "--config"@) ==> options_of(args, so_far)
            == Err::<OptionsView, UsageErrorView>(UsageErrorView::MissingArgument(args[0]@)),
        args.len() >= 2 && (args[0]@ == "-c"@ || args[0]@ == "--config"@) ==> options_of(args, so_far)
            == options_of(
            args.skip(2),
            OptionsView { config_path: args[1]@, dry_run: so_far.dry_run },
        ),
        args.len() >= 1 && (args[0]@ == "-d"@ || args[0]@ == "--dry-run"@) ==> options_of(
            args,
            so_far,
        ) == options_of(
            args.skip(1),
            OptionsView { config_path: so_far.config_path, dry_run: true },
        ),
        args.len() >= 1 && (args[0]@ == "-h"@ || args[0]@ == "--help"@) ==> options_of(args, so_far)
            == Err::<OptionsView, UsageErrorView>(UsageErrorView::Help),
        args.len() >= 1 && args[0]@ != "-c"@ && args[0]@ != "--config"@ && args[0]@ != "-d"@
            && args[0]@ != "--dry-run"@ && args[0]@ != "-h"@ && args[0]@ != "--help"@ ==> options_of(
            args,
            so_far,
        ) == Err::<OptionsView, UsageErrorView>(UsageErrorView::UnknownOption(args[0]@)),
{
    reveal_strlit("-c");
    reveal_strlit("--config");
    reveal_strlit("-d");
    reveal_strlit("--dry-run");
    reveal_strlit("-h");
    reveal_strlit("--help");
    assert("-c"@[1] == 'c' && "-d"@[1] == 'd' && "-h"@[1] == 'h');
    assert("--config"@[2] == 'c' && "--dry-run"@[2] == 'd' && "--help"@[2] == 'h');
    assert("-c"@.len() == 2 && "-d"@.len() == 2 && "-h"@.len() == 2);
    assert("--config"@.len() == 8 && "--dry-run"@.len() == 9 && "--help"@.len() == 6);
}

/// A dry run once asked for stays asked for, and is never made up.
pub proof fn dry_runs_are_asked_for(args: Seq<String>, so_far: OptionsView)
    ensures
        options_of(args, so_far) matches Ok(options) ==> {
            &&& so_far.dry_run ==> options.dry_run
            &&& options.dry_run && !so_far.dry_run ==> exists|i: int|
                0 <= i < args.len() && ((#[trigger] args[i])@ == "-d"@ || args[i]@ == "--dry-run"@)
        },
    decreases args.len(),
{
    if args.len() > 0 {
        if args[0]@ == "-c"@ || args[0]@ == "--config"@ {
            if args.len() >= 2 {
                let rest = args.skip(2);
                let next = OptionsView { config_path: args[1]@, ..so_far };
                dry_runs_are_asked_for(rest, next);
                if options_of(args, so_far) matches Ok(options) && options.dry_run
                    && !so_far.dry_run {
                    let i = choose|i: int|
                        0 <= i < rest.len() && ((#[trigger] rest[i])@ == "-d"@ || rest[i]@
                            == "--dry-run"@);
                    assert(args[i + 2] == rest[i]);
                }
            }
        } else if args[0]@ == "-d"@ || args[0]@ == "--dry-run"@ {
            dry_runs_are_asked_for(args.skip(1), OptionsView { dry_run: true, ..so_far });
        }
    }
}

} // verus!
