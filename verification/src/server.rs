//! What the commands of the program decide and print.
use vstd::prelude::*;
use vstd::string::*;
use crate::cli::UpgradeArgs;
use crate::cluster_upgrade::ClusterView;
use crate::cluster_upgrade_driver::{run_cluster_upgrade, upgraded_to, ClusterClient,
    ClusterUpgradeError, LiveCluster, NodeUpgrader, Pauser, Round, Sleeper};
use crate::cluster_upgrade_inventory::{derive_plan, is_plan_for, UpgradePlan};
use crate::rolling::{describe_stall, stall_text, UpgradeReport};
use crate::text::{has_part, lemma_parts, append_decimal, append_signed, chars_of, copy_str, decimal, is_text, lowered,
    opt_string, signed_decimal, to_lower};

verus! {

/// How much is logged.
#[derive(Debug, Clone, Copy, PartialEq, Eq, Structural)]
pub enum LogLevel {
    /// Errors.
    Error,
    /// Warnings too.
    Warn,
    /// What is worth knowing too.
    Info,
    /// What helps to find faults too.
    Debug,
    /// Everything.
    Trace,
}

impl LogLevel {
    /// The place of the level, from the least to the most verbose.
    pub open spec fn rank(self) -> int {
        match self {
            LogLevel::Error => 1,
            LogLevel::Warn => 2,
            LogLevel::Info => 3,
            LogLevel::Debug => 4,
            LogLevel::Trace => 5,
        }
    }

    fn place(self) -> (r: u8)
        ensures
            r == self.rank(),
    {
        match self {
            LogLevel::Error => 1,
            LogLevel::Warn => 2,
            LogLevel::Info => 3,
            LogLevel::Debug => 4,
            LogLevel::Trace => 5,
        }
    }

    /// Whether a line of a level is logged at this one.
    pub fn allows(self, line: LogLevel) -> (r: bool)
        ensures
            r == (line.rank() <= self.rank()),
    {
        line.place() <= self.place()
    }
}

/// The level that a word names.
pub open spec fn level_named(word: Seq<char>) -> Option<LogLevel> {
    if word == "error"@ {
        Some(LogLevel::Error)
    } else if word == "warn"@ || word == "warning"@ {
        Some(LogLevel::Warn)
    } else if word == "info"@ || word == "notice"@ {
        Some(LogLevel::Info)
    } else if word == "debug"@ || word == "verbose"@ {
        Some(LogLevel::Debug)
    } else if word == "trace"@ {
        Some(LogLevel::Trace)
    } else {
        None
    }
}

/// The level that a flag names in any case, and whether it names none; the level
/// is then the usual one.
pub fn parse_log_level(log_level: &str) -> (r: (LogLevel, bool))
    ensures
        match level_named(lowered(log_level@)) {
            Some(level) => r == (level, false),
            None => r == (LogLevel::Info, true),
        },
{
    let chars = chars_of(log_level);
    let lower = to_lower(chars.as_slice());
    let word = lower.as_slice();
    if is_text(word, "error") {
        (LogLevel::Error, false)
    } else if is_text(word, "warn") || is_text(word, "warning") {
        (LogLevel::Warn, false)
    } else if is_text(word, "info") || is_text(word, "notice") {
        (LogLevel::Info, false)
    } else if is_text(word, "debug") || is_text(word, "verbose") {
        (LogLevel::Debug, false)
    } else if is_text(word, "trace") {
        (LogLevel::Trace, false)
    } else {
        (LogLevel::Info, true)
    }
}

/// The allocator options of a build: background purge and a short decay, and huge
/// pages on Linux where the build asks for them.
pub fn malloc_conf(linux: bool, hugepages: bool) -> (r: &'static str)
    ensures
        r@ == (if linux && hugepages {
            "background_thread:true,dirty_decay_ms:5000,thp:always,metadata_thp:auto"@
        } else {
            "background_thread:true,dirty_decay_ms:5000"@
        }),
{
    if linux && hugepages {
        "background_thread:true,dirty_decay_ms:5000,thp:always,metadata_thp:auto"
    } else {
        "background_thread:true,dirty_decay_ms:5000"
    }
}

/// The runtime that serves a shard.
#[derive(Debug, Clone, Copy, PartialEq, Eq, Structural)]
pub enum RuntimeBackend {
    /// Tokio.
    Tokio,
    /// The completion ring.
    IoUring,
    /// The completion ring without a runtime around it.
    IoUringRaw,
}

/// The name of a runtime.
pub open spec fn runtime_name(r: RuntimeBackend) -> Seq<char> {
    match r {
        RuntimeBackend::Tokio => "tokio"@,
        RuntimeBackend::IoUring => "io_uring"@,
        RuntimeBackend::IoUringRaw => "io_uring_raw"@,
    }
}

fn name_of_runtime(r: RuntimeBackend) -> (s: &'static str)
    ensures
        s@ == runtime_name(r),
{
    match r {
        RuntimeBackend::Tokio => "tokio",
        RuntimeBackend::IoUring => "io_uring",
        RuntimeBackend::IoUringRaw => "io_uring_raw",
    }
}

/// The configuration file that is read where none is named.
pub const DEFAULT_CONFIG_PATH: &'static str = "/etc/ironcache/ironcache.toml";

/// Whether unknown keys of the configuration file are let pass: the flag or the
/// environment says so. The file itself may say so too.
pub fn ignore_unknown_keys(flag: bool, env: Option<bool>) -> (r: bool)
    ensures
        r == (flag || env == Some(true)),
{
    flag || (match env {
        Some(b) => b,
        None => false,
    })
}

/// The runtime that a flag asks for. `parsed` is what its word means; a word that
/// means nothing is an error.
pub fn runtime_flag(word: Option<&str>, parsed: Option<RuntimeBackend>) -> (r: Result<
    Option<RuntimeBackend>,
    String,
>)
    ensures
        match (word, parsed) {
            (None, _) => r == Ok::<Option<RuntimeBackend>, String>(None),
            (Some(_), Some(b)) => r == Ok::<Option<RuntimeBackend>, String>(Some(b)),
            (Some(w), None) => r is Err && r->Err_0@
                == "--runtime: not a runtime backend (expected tokio / io_uring / io_uring_raw): "@
                + w@,
        },
{
    match (word, parsed) {
        (None, _) => Ok(None),
        (Some(_), Some(b)) => Ok(Some(b)),
        (Some(w), None) => {
            let mut e: String =
                "--runtime: not a runtime backend (expected tokio / io_uring / io_uring_raw): ".to_owned();
            e.append(w);
            Err(e)
        },
    }
}

/// The settings that flags of the command line give.
#[derive(Debug)]
pub struct ServerFlags {
    /// The configuration file.
    pub config: Option<String>,
    /// The address that clients connect to.
    pub bind: Option<String>,
    /// The port that clients connect to.
    pub port: Option<u16>,
    /// The number of shards.
    pub shards: Option<usize>,
    /// The word for the runtime.
    pub runtime: Option<String>,
    /// The cores of the persist threads.
    pub persist_cpu: Option<String>,
    /// Whether unknown keys are let pass.
    pub ignore_unknown_config_keys: bool,
}

/// The layer of settings that the flags make, above the file and the environment.
#[derive(Debug)]
pub struct FlagLayer {
    /// The address that clients connect to.
    pub bind: Option<String>,
    /// The port that clients connect to.
    pub port: Option<u16>,
    /// The number of shards.
    pub shards: Option<usize>,
    /// The runtime.
    pub runtime: Option<RuntimeBackend>,
    /// The cores of the persist threads.
    pub persist_cpu: Option<String>,
    /// Whether unknown keys are let pass; nothing where no flag says so.
    pub ignore_unknown_config_keys: Option<bool>,
}

/// How the configuration is put together.
#[derive(Debug)]
pub struct ConfigPlan {
    /// The file to read.
    pub path: String,
    /// Whether unknown keys of the file are let pass.
    pub ignore_unknown: bool,
    /// What the flags add.
    pub flags: FlagLayer,
}

fn copy_opt(s: &Option<String>) -> (r: Option<String>)
    ensures
        opt_string(r) == opt_string(*s),
{
    match s {
        Some(t) => Some(copy_str(t.as_str())),
        None => None,
    }
}

/// Plans how the configuration is put together: the file that a flag names or the
/// usual one, read strictly unless the flag or the environment says otherwise, and the
/// flags as the topmost layer. `parsed` is what the word for the runtime means, `env`
/// what the environment says of unknown keys.
pub fn load_config(
    flags: &ServerFlags,
    parsed: Option<RuntimeBackend>,
    env: Option<bool>,
) -> (r: Result<ConfigPlan, String>)
    ensures
        match r {
            Ok(p) => {
                &&& flags.runtime is Some ==> parsed is Some
                &&& p.path@ == (match flags.config {
                    Some(path) => path@,
                    None => DEFAULT_CONFIG_PATH@,
                })
                &&& p.ignore_unknown == (flags.ignore_unknown_config_keys || env == Some(true))
                &&& opt_string(p.flags.bind) == opt_string(flags.bind)
                &&& p.flags.port == flags.port
                &&& p.flags.shards == flags.shards
                &&& p.flags.runtime == (if flags.runtime is Some {
                    parsed
                } else {
                    None
                })
                &&& opt_string(p.flags.persist_cpu) == opt_string(flags.persist_cpu)
                &&& p.flags.ignore_unknown_config_keys == (if flags.ignore_unknown_config_keys {
                    Some(true)
                } else {
                    None
                })
            },
            Err(e) => flags.runtime is Some && parsed is None && e@
                == "--runtime: not a runtime backend (expected tokio / io_uring / io_uring_raw): "@
                + flags.runtime->0@,
        },
{
    let word: Option<&str> = match &flags.runtime {
        Some(w) => Some(w.as_str()),
        None => None,
    };
    let runtime = match runtime_flag(word, parsed) {
        Ok(b) => b,
        Err(e) => {
            return Err(e);
        },
    };
    let path = match &flags.config {
        Some(p) => copy_str(p.as_str()),
        None => copy_str(DEFAULT_CONFIG_PATH),
    };
    Ok(
        ConfigPlan {
            path,
            ignore_unknown: ignore_unknown_keys(flags.ignore_unknown_config_keys, env),
            flags: FlagLayer {
                bind: copy_opt(&flags.bind),
                port: flags.port,
                shards: flags.shards,
                runtime,
                persist_cpu: copy_opt(&flags.persist_cpu),
                ignore_unknown_config_keys: if flags.ignore_unknown_config_keys {
                    Some(true)
                } else {
                    None
                },
            },
        },
    )
}

/// What is known of the completion ring on this machine.
#[derive(Debug)]
pub enum RingSupport {
    /// The program was built without it.
    NotBuilt,
    /// The kernel offers it.
    Capable,
    /// The kernel does not offer it, and why.
    Refused(String),
}

/// The runtime that is used in fact, and why it is not the one that was asked for.
pub open spec fn runtime_text(runtime: RuntimeBackend, tls: bool, ring: RingSupport) -> Seq<char> {
    let name = runtime_name(runtime);
    if runtime == RuntimeBackend::Tokio {
        name
    } else if tls {
        name
            + " requested -> tokio (TLS is on; the io_uring datapath is plaintext-only in v1)"@
    } else {
        match ring {
            RingSupport::Capable => name + " (Linux, "@ + name
                + " feature, TLS off, kernel-capable)"@,
            RingSupport::Refused(e) => name
                + " requested -> tokio (this kernel cannot provide io_uring: "@ + e@ + ")"@,
            RingSupport::NotBuilt => name
                + " requested -> tokio (this binary is not a Linux build with the "@ + name
                + " feature)"@,
        }
    }
}

/// The runtime that is used in fact, and why it is not the one that was asked for.
pub fn describe_runtime(runtime: RuntimeBackend, tls: bool, ring: &RingSupport) -> (r: String)
    ensures
        r@ == runtime_text(runtime, tls, *ring),
{
    let name = name_of_runtime(runtime);
    let mut r: String = copy_str(name);
    if runtime == RuntimeBackend::Tokio {
        return r;
    }
    if tls {
        r.append(
            " requested -> tokio (TLS is on; the io_uring datapath is plaintext-only in v1)",
        );
        return r;
    }
    match ring {
        RingSupport::Capable => {
            r.append(" (Linux, ");
            r.append(name);
            r.append(" feature, TLS off, kernel-capable)");
        },
        RingSupport::Refused(e) => {
            r.append(" requested -> tokio (this kernel cannot provide io_uring: ");
            r.append(e.as_str());
            r.append(")");
        },
        RingSupport::NotBuilt => {
            r.append(" requested -> tokio (this binary is not a Linux build with the ");
            r.append(name);
            r.append(" feature)");
        },
    }
    r
}

/// What the allocator says of itself.
#[derive(Debug)]
pub enum Allocator {
    /// The tuned allocator: whether it purges in the background, and its decay in
    /// milliseconds, or why either cannot be read.
    Jemalloc {
        /// Whether it purges in the background.
        background: Result<bool, String>,
        /// Its decay in milliseconds.
        decay: Result<i64, String>,
    },
    /// The one of the system.
    Libc,
}

/// The line about the allocator.
pub open spec fn allocator_text(a: Allocator) -> Seq<char> {
    match a {
        Allocator::Jemalloc { background, decay } => "  allocator   = jemalloc (background_thread="@
            + (match background {
            Ok(b) => if b {
                "true"@
            } else {
                "false"@
            },
            Err(e) => "unavailable ("@ + e@ + ")"@,
        }) + ", dirty_decay_ms="@ + (match decay {
            Ok(ms) => signed_decimal(ms as int) + " ms"@,
            Err(e) => "unavailable ("@ + e@ + ")"@,
        }) + ")\n"@,
        Allocator::Libc => "  allocator   = libc (jemalloc not built on this target)\n"@,
    }
}

/// Appends why something cannot be read.
fn append_unavailable(out: &mut String, e: &str)
    ensures
        final(out)@ == old(out)@ + ("unavailable ("@ + e@ + ")"@),
{
    let ghost start = out@;
    out.append("unavailable (");
    out.append(e);
    out.append(")");
    assert(out@ =~= start + ("unavailable ("@ + e@ + ")"@));
}

/// The line about the allocator.
pub fn print_allocator_check(a: &Allocator) -> (r: String)
    ensures
        r@ == allocator_text(*a),
{
    match a {
        Allocator::Jemalloc { background, decay } => {
            let mut r: String = "  allocator   = jemalloc (background_thread=".to_owned();
            match background {
                Ok(b) => {
                    if *b {
                        r.append("true");
                    } else {
                        r.append("false");
                    }
                },
                Err(e) => {
                    append_unavailable(&mut r, e.as_str());
                },
            }
            r.append(", dirty_decay_ms=");
            let ghost head = r@;
            match decay {
                Ok(ms) => {
                    append_signed(&mut r, *ms);
                    r.append(" ms");
                    assert(r@ =~= head + (signed_decimal(*ms as int) + " ms"@));
                },
                Err(e) => {
                    append_unavailable(&mut r, e.as_str());
                },
            }
            r.append(")\n");
            r
        },
        Allocator::Libc => "  allocator   = libc (jemalloc not built on this target)\n".to_owned(),
    }
}

/// The configuration as the reports show it.
#[derive(Debug)]
pub struct Config {
    /// The address that clients connect to.
    pub bind: String,
    /// The port that clients connect to.
    pub port: u16,
    /// The number of shards.
    pub shards: usize,
    /// The runtime.
    pub runtime: RuntimeBackend,
    /// The number of databases.
    pub databases: u32,
    /// The cores of the persist threads; empty for none.
    pub persist_cpu: String,
    /// The memory ceiling in bytes; zero for none.
    pub maxmemory: u64,
    /// What is evicted.
    pub maxmemory_policy: String,
    /// After how many idle seconds a client is dropped.
    pub timeout_secs: u64,
    /// Whether a password is set.
    pub requirepass: bool,
    /// Whether clients connect over TLS.
    pub tls: bool,
    /// The certificate.
    pub tls_cert_path: Option<String>,
    /// The key of the certificate.
    pub tls_key_path: Option<String>,
}

/// A line of a report.
pub open spec fn line(head: Seq<char>, tail: Seq<char>) -> Seq<char> {
    head + tail + "\n"@
}

fn append_line(out: &mut String, head: &str, tail: &str)
    ensures
        final(out)@ == old(out)@ + line(head@, tail@),
{
    let ghost start = out@;
    out.append(head);
    out.append(tail);
    out.append("\n");
    assert(out@ =~= start + line(head@, tail@));
}

fn append_number_line(out: &mut String, head: &str, n: u64)
    ensures
        final(out)@ == old(out)@ + line(head@, decimal(n as nat)),
{
    let ghost start = out@;
    out.append(head);
    append_decimal(out, n);
    out.append("\n");
    assert(out@ =~= start + line(head@, decimal(n as nat)));
}

/// The lines about the transport.
pub open spec fn tls_text(c: Config) -> Seq<char> {
    if c.tls {
        line("  tls         = on (rustls, server-auth, client listener)"@, Seq::empty()) + (
        match c.tls_cert_path {
            Some(p) => line("  tls_cert    = "@, p@),
            None => Seq::empty(),
        }) + (match c.tls_key_path {
            Some(p) => line("  tls_key     = "@, p@),
            None => Seq::empty(),
        })
    } else {
        line("  tls         = off (plaintext)"@, Seq::empty())
    }
}

/// The report of a check.
pub open spec fn check_text(c: Config, ring: RingSupport, a: Allocator) -> Seq<char> {
    line("ironcache check: configuration OK"@, Seq::empty()) + line(
        "  bind        = "@,
        c.bind@ + ":"@ + decimal(c.port as nat),
    ) + line("  shards      = "@, decimal(c.shards as nat)) + line(
        "  runtime     = "@,
        runtime_text(c.runtime, c.tls, ring),
    ) + line("  databases   = "@, decimal(c.databases as nat)) + line(
        "  persist-cpu = "@,
        if c.persist_cpu@.len() == 0 {
            "off (no pin)"@
        } else {
            c.persist_cpu@
        },
    ) + line(
        "  maxmemory   = "@,
        decimal(c.maxmemory as nat) + " bytes"@ + (if c.maxmemory == 0 {
            " (unlimited)"@
        } else {
            ""@
        }),
    ) + line("  policy      = "@, c.maxmemory_policy@) + line(
        "  requirepass = "@,
        if c.requirepass {
            "set"@
        } else {
            "unset"@
        },
    ) + tls_text(c) + allocator_text(a)
}

fn append_tls(out: &mut String, c: &Config)
    ensures
        final(out)@ == old(out)@ + tls_text(*c),
{
    let ghost start = out@;
    if c.tls {
        append_line(out, "  tls         = on (rustls, server-auth, client listener)", "");
        proof {
            reveal_strlit("");
            assert(""@ =~= Seq::<char>::empty());
        }
        let ghost first = out@;
        match &c.tls_cert_path {
            Some(p) => {
                append_line(out, "  tls_cert    = ", p.as_str());
            },
            None => {
                assert(first =~= first + Seq::<char>::empty());
            },
        }
        let ghost second = out@;
        match &c.tls_key_path {
            Some(p) => {
                append_line(out, "  tls_key     = ", p.as_str());
            },
            None => {
                assert(second =~= second + Seq::<char>::empty());
            },
        }
        assert(out@ =~= start + tls_text(*c));
    } else {
        append_line(out, "  tls         = off (plaintext)", "");
        proof {
            reveal_strlit("");
            assert(""@ =~= Seq::<char>::empty());
        }
    }
}

/// The report of a check: the configuration as it takes effect.
pub fn cmd_check(c: &Config, ring: &RingSupport, a: &Allocator) -> (r: String)
    ensures
        r@ == check_text(*c, *ring, *a),
{
    proof {
        reveal_strlit("");
        assert(""@ =~= Seq::<char>::empty());
    }
    let mut r: String = String::new();
    append_line(&mut r, "ironcache check: configuration OK", "");
    assert(r@ =~= line("ironcache check: configuration OK"@, Seq::empty()));
    let mut addr: String = c.bind.clone();
    addr.append(":");
    append_decimal(&mut addr, c.port as u64);
    append_line(&mut r, "  bind        = ", addr.as_str());
    append_number_line(&mut r, "  shards      = ", c.shards as u64);
    let runtime = describe_runtime(c.runtime, c.tls, ring);
    append_line(&mut r, "  runtime     = ", runtime.as_str());
    append_number_line(&mut r, "  databases   = ", c.databases as u64);
    let cpu = chars_of(c.persist_cpu.as_str());
    append_line(
        &mut r,
        "  persist-cpu = ",
        if cpu.len() == 0 {
            "off (no pin)"
        } else {
            c.persist_cpu.as_str()
        },
    );
    let mut ceiling: String = String::new();
    append_decimal(&mut ceiling, c.maxmemory);
    ceiling.append(" bytes");
    ceiling.append(
        if c.maxmemory == 0 {
            " (unlimited)"
        } else {
            ""
        },
    );
    assert(ceiling@ =~= decimal(c.maxmemory as nat) + " bytes"@ + (if c.maxmemory == 0 {
        " (unlimited)"@
    } else {
        ""@
    }));
    append_line(&mut r, "  maxmemory   = ", ceiling.as_str());
    append_line(&mut r, "  policy      = ", c.maxmemory_policy.as_str());
    append_line(
        &mut r,
        "  requirepass = ",
        if c.requirepass {
            "set"
        } else {
            "unset"
        },
    );
    append_tls(&mut r, c);
    let allocator = print_allocator_check(a);
    r.append(allocator.as_str());
    r
}

/// The configuration as it takes effect, in the form of a file.
pub open spec fn config_text(c: Config) -> Seq<char> {
    line("# effective ironcache configuration"@, Seq::empty()) + line(
        "bind = \""@,
        c.bind@ + "\""@,
    ) + line("port = "@, decimal(c.port as nat)) + line("shards = "@, decimal(c.shards as nat))
        + line("runtime = \""@, runtime_name(c.runtime) + "\""@) + line(
        "databases = "@,
        decimal(c.databases as nat),
    ) + line("maxmemory = "@, decimal(c.maxmemory as nat)) + line(
        "maxmemory-policy = \""@,
        c.maxmemory_policy@ + "\""@,
    ) + line("timeout = "@, decimal(c.timeout_secs as nat)) + line(
        "requirepass = "@,
        if c.requirepass {
            "\"<set>\""@
        } else {
            "\"\""@
        },
    )
}

fn append_quoted_line(out: &mut String, head: &str, tail: &str)
    ensures
        final(out)@ == old(out)@ + line(head@, tail@ + "\""@),
{
    let mut quoted: String = copy_str(tail);
    quoted.append("\"");
    append_line(out, head, quoted.as_str());
}

/// The configuration as it takes effect, in the form of a file.
pub fn cmd_config(c: &Config) -> (r: String)
    ensures
        r@ == config_text(*c),
{
    proof {
        reveal_strlit("");
        assert(""@ =~= Seq::<char>::empty());
    }
    let mut r: String = String::new();
    append_line(&mut r, "# effective ironcache configuration", "");
    assert(r@ =~= line("# effective ironcache configuration"@, Seq::empty()));
    append_quoted_line(&mut r, "bind = \"", c.bind.as_str());
    append_number_line(&mut r, "port = ", c.port as u64);
    append_number_line(&mut r, "shards = ", c.shards as u64);
    append_quoted_line(&mut r, "runtime = \"", name_of_runtime(c.runtime));
    append_number_line(&mut r, "databases = ", c.databases as u64);
    append_number_line(&mut r, "maxmemory = ", c.maxmemory);
    append_quoted_line(&mut r, "maxmemory-policy = \"", c.maxmemory_policy.as_str());
    append_number_line(&mut r, "timeout = ", c.timeout_secs);
    append_line(
        &mut r,
        "requirepass = ",
        if c.requirepass {
            "\"<set>\""
        } else {
            "\"\""
        },
    );
    r
}

/// What the benchmark command says.
pub fn cmd_bench() -> (r: &'static str)
    ensures
        r@ == "ironcache bench: not yet implemented (tracked by #8)"@,
{
    "ironcache bench: not yet implemented (tracked by #8)"
}

/// What is known of the snapshot in the data directory.
#[derive(Debug, Clone, Copy, PartialEq, Eq, Structural)]
pub enum SnapshotCheck {
    /// There is no data directory.
    NoDataDir,
    /// It can be loaded, or there is none.
    Loadable,
    /// It has a format that this program does not know.
    Unsupported,
}

/// What is known of a server when it boots.
#[derive(Debug, Clone, Copy)]
pub struct ServerFacts {
    /// The snapshot in the data directory.
    pub snapshot: SnapshotCheck,
    /// Whether a boot with an unknown snapshot is refused.
    pub refuse_empty_start: bool,
    /// Whether the metrics endpoint is on.
    pub metrics: bool,
    /// Whether there is a certificate that can be replaced.
    pub tls_reload: bool,
}

/// What a server does when it boots.
#[derive(Debug, Clone, Copy, PartialEq, Eq, Structural)]
pub enum ServerAction {
    /// Takes over the sockets that it was handed.
    AdoptSockets,
    /// Resolves the configuration.
    LoadConfig,
    /// Fits the number of clients to the descriptors.
    FitDescriptors,
    /// Caps the memory by the limit of its group.
    GuardMemory,
    /// Warns of an open cluster bus.
    WarnBus,
    /// Says what it binds, and whether it adopted sockets.
    LogBinding,
    /// Looks at the snapshot.
    CheckSnapshot,
    /// Refuses to boot.
    Refuse,
    /// Starts the shards.
    StartShards,
    /// Serves metrics.
    ServeMetrics,
    /// Replaces the certificate on a signal.
    ArmTlsReload,
    /// Installs the shutdown flag.
    InstallShutdown,
    /// Says that it is alive.
    MarkLive,
    /// Waits for signals.
    AwaitSignals,
}

/// One action, or none.
pub open spec fn server_if(cond: bool, a: ServerAction) -> Seq<ServerAction> {
    if cond {
        seq![a]
    } else {
        Seq::empty()
    }
}

/// What every server does before it looks at its snapshot.
pub open spec fn server_head() -> Seq<ServerAction> {
    seq![
        ServerAction::AdoptSockets,
        ServerAction::LoadConfig,
        ServerAction::FitDescriptors,
        ServerAction::GuardMemory,
        ServerAction::WarnBus,
        ServerAction::LogBinding,
    ]
}

/// What a server does when it boots, in order.
pub open spec fn server_sequence(f: ServerFacts) -> Seq<ServerAction> {
    let head = server_head() + server_if(
        f.snapshot != SnapshotCheck::NoDataDir,
        ServerAction::CheckSnapshot,
    );
    if f.snapshot == SnapshotCheck::Unsupported && f.refuse_empty_start {
        head + seq![ServerAction::Refuse]
    } else {
        head + seq![ServerAction::StartShards] + server_if(f.metrics, ServerAction::ServeMetrics)
            + server_if(f.tls_reload, ServerAction::ArmTlsReload) + seq![
            ServerAction::InstallShutdown,
            ServerAction::MarkLive,
            ServerAction::AwaitSignals,
        ]
    }
}

/// What a server does when it boots, in order.
pub fn cmd_server(f: ServerFacts) -> (r: Vec<ServerAction>)
    ensures
        r@ == server_sequence(f),
{
    let mut r: Vec<ServerAction> = Vec::new();
    r.push(ServerAction::AdoptSockets);
    r.push(ServerAction::LoadConfig);
    r.push(ServerAction::FitDescriptors);
    r.push(ServerAction::GuardMemory);
    r.push(ServerAction::WarnBus);
    r.push(ServerAction::LogBinding);
    if f.snapshot != SnapshotCheck::NoDataDir {
        r.push(ServerAction::CheckSnapshot);
    }
    if f.snapshot == SnapshotCheck::Unsupported && f.refuse_empty_start {
        r.push(ServerAction::Refuse);
        assert(r@ =~= server_sequence(f));
        return r;
    }
    r.push(ServerAction::StartShards);
    if f.metrics {
        r.push(ServerAction::ServeMetrics);
    }
    if f.tls_reload {
        r.push(ServerAction::ArmTlsReload);
    }
    r.push(ServerAction::InstallShutdown);
    r.push(ServerAction::MarkLive);
    r.push(ServerAction::AwaitSignals);
    assert(r@ =~= server_sequence(f));
    r
}

/// A server that refuses its snapshot starts no shard, so nothing can overwrite
/// the snapshot; and one that says it is alive has started its shards.
pub proof fn law_refused_boot_starts_nothing(f: ServerFacts, i: int, j: int)
    requires
        0 <= i < server_sequence(f).len(),
        0 <= j < server_sequence(f).len(),
    ensures
        f.snapshot == SnapshotCheck::Unsupported && f.refuse_empty_start ==> server_sequence(f)[i]
            != ServerAction::StartShards,
        server_sequence(f)[i] == ServerAction::CheckSnapshot && server_sequence(f)[j]
            == ServerAction::StartShards ==> i < j,
        server_sequence(f)[i] == ServerAction::StartShards && server_sequence(f)[j]
            == ServerAction::MarkLive ==> i < j,
        server_sequence(f)[i] == ServerAction::ServeMetrics && server_sequence(f)[j]
            == ServerAction::MarkLive ==> i < j,
{
}

/// How an attempt to hand over to another process ended.
#[derive(Debug, Clone, Copy, PartialEq, Eq, Structural)]
pub enum CutoverEnd {
    /// None is set up.
    NotConfigured,
    /// It could not be run.
    NoRuntime,
    /// The other process serves.
    Committed,
    /// It was given up.
    Aborted,
    /// It is not known whether the other process serves.
    Unconfirmed,
}

/// What a server does after such an attempt.
#[derive(Debug, Clone, Copy, PartialEq, Eq, Structural)]
pub enum CutoverAction {
    /// It stops.
    SetShutdownFlag,
    /// It goes on serving.
    Resume,
}

/// What a server does after an attempt to hand over: it stops only where the other
/// process is known to serve.
pub fn drive_cutover(end: CutoverEnd) -> (r: CutoverAction)
    ensures
        r == (if end == CutoverEnd::Committed {
            CutoverAction::SetShutdownFlag
        } else {
            CutoverAction::Resume
        }),
{
    match end {
        CutoverEnd::Committed => CutoverAction::SetShutdownFlag,
        _ => CutoverAction::Resume,
    }
}

/// What a server does to hand over to another process.
#[derive(Debug, Clone, Copy, PartialEq, Eq, Structural)]
pub enum HostStep {
    /// Binds the socket of a shard.
    Bind(usize),
    /// Starts the other process.
    Spawn,
    /// Accepts the connection for a shard.
    Accept(usize),
    /// Hands the connection to its shard.
    Deliver(usize),
    /// Waits for the shards, and decides.
    Decide,
    /// Gives up and goes on serving.
    GiveUp,
}

/// The step after one that succeeded or failed.
pub open spec fn host_next(step: HostStep, n: nat, ok: bool) -> HostStep {
    if !ok {
        HostStep::GiveUp
    } else {
        match step {
            HostStep::Bind(i) => if i + 1 < n {
                HostStep::Bind((i + 1) as usize)
            } else {
                HostStep::Spawn
            },
            HostStep::Spawn => if n > 0 {
                HostStep::Accept(0)
            } else {
                HostStep::Decide
            },
            HostStep::Accept(i) => HostStep::Deliver(i),
            HostStep::Deliver(i) => if i + 1 < n {
                HostStep::Accept((i + 1) as usize)
            } else {
                HostStep::Decide
            },
            HostStep::Decide => HostStep::Decide,
            HostStep::GiveUp => HostStep::GiveUp,
        }
    }
}

/// The first step of a handover with `n` shards.
pub fn cutover_start(n: usize) -> (r: HostStep)
    ensures
        r == (if n > 0 {
            HostStep::Bind(0)
        } else {
            HostStep::Spawn
        }),
{
    if n > 0 {
        HostStep::Bind(0)
    } else {
        HostStep::Spawn
    }
}

/// The step after one that succeeded or failed: every socket is bound before the
/// other process starts, every connection is with its shard before the decision, and
/// any failure gives up.
pub fn run_cutover_host(step: HostStep, n: usize, ok: bool) -> (r: HostStep)
    ensures
        r == host_next(step, n as nat, ok),
{
    if !ok {
        return HostStep::GiveUp;
    }
    match step {
        HostStep::Bind(i) => if i < n && n - i > 1 {
            HostStep::Bind(i + 1)
        } else {
            HostStep::Spawn
        },
        HostStep::Spawn => if n > 0 {
            HostStep::Accept(0)
        } else {
            HostStep::Decide
        },
        HostStep::Accept(i) => HostStep::Deliver(i),
        HostStep::Deliver(i) => if i < n && n - i > 1 {
            HostStep::Accept(i + 1)
        } else {
            HostStep::Decide
        },
        HostStep::Decide => HostStep::Decide,
        HostStep::GiveUp => HostStep::GiveUp,
    }
}

/// The step after `k` steps that succeeded.
pub open spec fn host_after(n: nat, k: nat) -> HostStep
    decreases k,
{
    if k == 0 {
        if n > 0 {
            HostStep::Bind(0)
        } else {
            HostStep::Spawn
        }
    } else {
        host_next(host_after(n, (k - 1) as nat), n, true)
    }
}

/// The steps of a handover that succeeds: one socket per shard, the other process,
/// one connection per shard, each with its shard before the next, then the decision.
pub proof fn law_cutover_order(n: nat, k: nat)
    requires
        n <= usize::MAX,
    ensures
        host_after(n, k) == (if k < n {
            HostStep::Bind(k as usize)
        } else if k == n {
            HostStep::Spawn
        } else if k <= 3 * n {
            if (k - n - 1) % 2 == 0 {
                HostStep::Accept(((k - n - 1) / 2) as usize)
            } else {
                HostStep::Deliver(((k - n - 1) / 2) as usize)
            }
        } else {
            HostStep::Decide
        }),
    decreases k,
{
    if k > 0 {
        law_cutover_order(n, (k - 1) as nat);
    }
}

/// A signal to a server.
#[derive(Debug, Clone, Copy, PartialEq, Eq, Structural)]
pub enum ServerSignal {
    /// It is to stop.
    Shutdown,
    /// It is to hand over, and how that ended.
    Cutover(CutoverEnd),
}

/// What a server does about a signal.
#[derive(Debug, Clone, Copy, PartialEq, Eq, Structural)]
pub enum SignalStep {
    /// It stops in its own time.
    Stop,
    /// It marks the stop as a handover, sets the flag, and stops.
    StopAfterHandoff,
    /// It waits for the next signal.
    KeepServing,
}

/// What a server does about a signal.
pub fn on_signal(signal: ServerSignal) -> (r: SignalStep)
    ensures
        r == (match signal {
            ServerSignal::Shutdown => SignalStep::Stop,
            ServerSignal::Cutover(end) => if end == CutoverEnd::Committed {
                SignalStep::StopAfterHandoff
            } else {
                SignalStep::KeepServing
            },
        }),
{
    match signal {
        ServerSignal::Shutdown => SignalStep::Stop,
        ServerSignal::Cutover(end) => match drive_cutover(end) {
            CutoverAction::SetShutdownFlag => SignalStep::StopAfterHandoff,
            CutoverAction::Resume => SignalStep::KeepServing,
        },
    }
}

/// The end of a server: an error where a shard did not end well.
pub fn shutdown_result(panicked: bool) -> (r: Result<(), &'static str>)
    ensures
        match r {
            Ok(_) => !panicked,
            Err(e) => panicked && e@
                == "one or more shard threads panicked during shutdown"@,
        },
{
    if panicked {
        Err("one or more shard threads panicked during shutdown")
    } else {
        Ok(())
    }
}

/// How an upgrade is carried out.
#[derive(Debug, Clone, Copy, PartialEq, Eq, Structural)]
pub enum UpgradeRoute {
    /// Node by node over a cluster.
    Cluster,
    /// By handing over to another process.
    Streamed,
    /// By replacing the binary, whose origin was checked when it was fetched.
    IntegrityOnly,
    /// By replacing the binary, whose origin is checked now.
    Full,
}

/// How an upgrade is carried out: over a cluster where that is asked for, by
/// handing over where that is set up, and by replacing the binary otherwise.
pub fn cmd_upgrade(cluster: bool, handoff_socket: bool, fetched: bool) -> (r: UpgradeRoute)
    ensures
        r == (if cluster {
            UpgradeRoute::Cluster
        } else if handoff_socket {
            UpgradeRoute::Streamed
        } else if fetched {
            UpgradeRoute::IntegrityOnly
        } else {
            UpgradeRoute::Full
        }),
{
    if cluster {
        UpgradeRoute::Cluster
    } else if handoff_socket {
        UpgradeRoute::Streamed
    } else if fetched {
        UpgradeRoute::IntegrityOnly
    } else {
        UpgradeRoute::Full
    }
}

/// What an upgrade of one node says when it has succeeded.
pub open spec fn upgraded_text(
    installed: Seq<char>,
    previous: Option<Seq<char>>,
    save_confirmed: bool,
) -> Seq<char> {
    "upgrade succeeded: now running "@ + installed + " (was "@ + (match previous {
        Some(p) => p,
        None => "unknown"@,
    }) + ")"@ + (if save_confirmed {
        ""@
    } else {
        " [WARNING: no persisted snapshot was confirmed; in-memory data was not saved]"@
    })
}

/// What an upgrade of one node says when it has succeeded.
pub fn upgrade_success(installed: &str, previous: Option<&str>, save_confirmed: bool) -> (r: String)
    ensures
        r@ == upgraded_text(installed@, crate::persist::opt_str(previous), save_confirmed),
{
    let mut r: String = "upgrade succeeded: now running ".to_owned();
    r.append(installed);
    r.append(" (was ");
    match previous {
        Some(p) => {
            r.append(p);
        },
        None => {
            r.append("unknown");
        },
    }
    r.append(")");
    r.append(
        if save_confirmed {
            ""
        } else {
            " [WARNING: no persisted snapshot was confirmed; in-memory data was not saved]"
        },
    );
    r
}

/// What an upgrade says that is left to the running server.
pub fn cmd_upgrade_streamed(socket: &str) -> (r: String)
    ensures
        r@ == "streamed live-cutover selected: handoff socket "@ + socket@
            + ". The running ironcache server drives the sibling spawn + live keyspace stream to a committed serve-flip (no acked-write loss, no connection RST via the inherited listener). The default tmpfs swap+restart path is not used."@,
{
    let mut r: String = "streamed live-cutover selected: handoff socket ".to_owned();
    r.append(socket);
    r.append(
        ". The running ironcache server drives the sibling spawn + live keyspace stream to a committed serve-flip (no acked-write loss, no connection RST via the inherited listener). The default tmpfs swap+restart path is not used.",
    );
    r
}

/// Why an upgrade of a cluster failed.
#[derive(Debug)]
pub enum ClusterFailure {
    /// The cluster could not be observed.
    Observe(ClusterUpgradeError),
    /// A step failed.
    Roll(ClusterUpgradeError),
    /// It did not finish; the text says where it stalled.
    Stalled(String),
}

/// What a look at the plan says at its end.
pub open spec fn dry_run_text(nodes: nat) -> Seq<char> {
    "dry-run only: NO action taken. Re-run without --dry-run to execute the roll of "@ + decimal(
        nodes,
    ) + " node(s).\n"@
}

/// What a roll says at its beginning.
pub open spec fn roll_text(nodes: nat, target: Seq<char>) -> Seq<char> {
    "cluster rolling upgrade: "@ + decimal(nodes) + " node(s) -> target "@ + target
        + " (replicas first, primary upgraded last, RPO=0 failover-freeze)\n"@
}

/// What a roll says at its end.
pub open spec fn rolled_text(target: Seq<char>) -> Seq<char> {
    "cluster upgrade succeeded: every node is on "@ + target + " (primary upgraded last)\n"@
}

/// Why a roll that ran out of steps is a failure.
pub open spec fn stalled_text(max_ticks: nat, step: crate::rolling::UpgradeStep) -> Seq<char> {
    "cluster upgrade did not finish within --max-ticks "@ + decimal(max_ticks) + ": stalled at "@
        + stall_text(step)
}

/// What a roll says at its beginning.
pub fn roll_banner(nodes: usize, target: &str) -> (r: String)
    ensures
        r@ == roll_text(nodes as nat, target@),
{
    let mut r: String = "cluster rolling upgrade: ".to_owned();
    append_decimal(&mut r, nodes as u64);
    r.append(" node(s) -> target ");
    r.append(target);
    r.append(" (replicas first, primary upgraded last, RPO=0 failover-freeze)\n");
    r
}

/// Whether a result is what a report makes of a roll.
pub open spec fn roll_said(
    report: Result<UpgradeReport, ClusterUpgradeError>,
    max_ticks: nat,
    target: Seq<char>,
    r: Result<String, ClusterFailure>,
) -> bool {
    match report {
        Ok(UpgradeReport::Completed) => r is Ok && r->Ok_0@ == rolled_text(target),
        Ok(UpgradeReport::StalledAfterBudget(step)) => match r {
            Err(ClusterFailure::Stalled(text)) => text@ == stalled_text(max_ticks, step),
            _ => false,
        },
        Err(e) => r == Err::<String, ClusterFailure>(ClusterFailure::Roll(e)),
    }
}

/// What a report makes of a roll: the text of its end, or why it failed.
pub fn roll_result(
    report: Result<UpgradeReport, ClusterUpgradeError>,
    max_ticks: usize,
    target: &str,
) -> (r: Result<String, ClusterFailure>)
    ensures
        roll_said(report, max_ticks as nat, target@, r),
{
    match report {
        Ok(UpgradeReport::Completed) => {
            let mut s: String = "cluster upgrade succeeded: every node is on ".to_owned();
            s.append(target);
            s.append(" (primary upgraded last)\n");
            Ok(s)
        },
        Ok(UpgradeReport::StalledAfterBudget(step)) => {
            let mut s: String = "cluster upgrade did not finish within --max-ticks ".to_owned();
            append_decimal(&mut s, max_ticks as u64);
            s.append(": stalled at ");
            let why = describe_stall(step);
            s.append(why.as_str());
            Err(ClusterFailure::Stalled(s))
        },
        Err(e) => Err(ClusterFailure::Roll(e)),
    }
}

/// Whether a result is what a look at the plan makes of an observation: the plan for
/// the view and the closing line, or why the cluster could not be observed.
pub open spec fn plan_said(
    seen: Result<ClusterView, ClusterUpgradeError>,
    view: ClusterView,
    nodes: nat,
    r: Result<String, ClusterFailure>,
) -> bool {
    match seen {
        Ok(_) => r is Ok && exists|plan: UpgradePlan|
            r->Ok_0@ == (#[trigger] plan.text()) + dry_run_text(nodes) && is_plan_for(plan, view),
        Err(e) => r == Err::<String, ClusterFailure>(ClusterFailure::Observe(e)),
    }
}

/// Upgrades a cluster, or only shows the plan. What it returns is printed.
pub fn cmd_upgrade_cluster<C: ClusterClient, U: NodeUpgrader, P: Pauser, S: Sleeper>(
    live: &mut LiveCluster<C, U, P, S>,
    args: &UpgradeArgs,
    target: &str,
) -> (r: Result<String, ClusterFailure>)
    ensures
        final(live).same_setup(*old(live)),
        args.dry_run ==> final(live).same_actions(*old(live)) && exists|
            round: Round,
            seen: Result<ClusterView, ClusterUpgradeError>,
        |
            #[trigger] old(live).refreshed_to(*final(live), round, seen) && plan_said(
                seen,
                final(live).view,
                old(live).inventory.nodes@.len(),
                r,
            ),
        !args.dry_run ==> exists|report: Result<UpgradeReport, ClusterUpgradeError>|
            #[trigger] upgraded_to(*old(live), *final(live), args.max_ticks as nat, report)
                && roll_said(report, args.max_ticks as nat, target@, r),
{
    let nodes: usize = live.inventory.nodes.len();
    if args.dry_run {
        let seen = live.refresh();
        let ghost said = seen;
        match seen {
            Ok(_) => {
                let plan = derive_plan(&live.view);
                let mut text = plan.to_text();
                text.append(
                    "dry-run only: NO action taken. Re-run without --dry-run to execute the roll of ",
                );
                append_decimal(&mut text, nodes as u64);
                text.append(" node(s).\n");
                assert(text@ =~= plan.text() + dry_run_text(nodes as nat));
                let r = Ok::<String, ClusterFailure>(text);
                assert(plan_said(said, live.view, nodes as nat, r));
                return r;
            },
            Err(e) => {
                let r = Err::<String, ClusterFailure>(ClusterFailure::Observe(e));
                assert(plan_said(said, live.view, nodes as nat, r));
                return r;
            },
        }
    }
    let report = run_cluster_upgrade(live, args.max_ticks);
    roll_result(report, args.max_ticks, target)
}

/// A level lets through itself and everything more severe, in the order error, warning,
/// info, debug, trace.
pub proof fn law_levels_are_ordered(a: LogLevel, b: LogLevel)
    ensures
        LogLevel::Error.rank() < LogLevel::Warn.rank() < LogLevel::Info.rank()
            < LogLevel::Debug.rank() < LogLevel::Trace.rank(),
        a.rank() == b.rank() ==> a == b,
{
}

/// A server refuses to start if and only if there is a snapshot that it cannot load and it
/// was told not to start empty; otherwise it starts its shards, serves the endpoint and
/// follows its certificate where that is set up, and waits for signals in the end.
pub proof fn law_server_does_what_is_due(f: ServerFacts)
    ensures
        server_sequence(f).take(6) == seq![
            ServerAction::AdoptSockets,
            ServerAction::LoadConfig,
            ServerAction::FitDescriptors,
            ServerAction::GuardMemory,
            ServerAction::WarnBus,
            ServerAction::LogBinding,
        ],
        (server_sequence(f).last() == ServerAction::Refuse) == (f.snapshot
            == SnapshotCheck::Unsupported && f.refuse_empty_start),
        server_sequence(f).last() != ServerAction::Refuse ==> server_sequence(f).last()
            == ServerAction::AwaitSignals,
        server_sequence(f).contains(ServerAction::StartShards) == (server_sequence(f).last()
            == ServerAction::AwaitSignals),
        server_sequence(f).contains(ServerAction::CheckSnapshot) == (f.snapshot
            != SnapshotCheck::NoDataDir),
        server_sequence(f).last() == ServerAction::AwaitSignals ==> server_sequence(f).contains(
            ServerAction::ServeMetrics,
        ) == f.metrics && server_sequence(f).contains(ServerAction::ArmTlsReload) == f.tls_reload
            && server_sequence(f).contains(ServerAction::MarkLive) && server_sequence(f).contains(
            ServerAction::InstallShutdown,
        ),
{
    let s = server_sequence(f);
    assert(s.take(6) =~= server_head());
    let head = server_head() + server_if(
        f.snapshot != SnapshotCheck::NoDataDir,
        ServerAction::CheckSnapshot,
    );
    let n = head.len() as int;
    if f.snapshot != SnapshotCheck::NoDataDir {
        assert(s[6] == ServerAction::CheckSnapshot);
    }
    if !(f.snapshot == SnapshotCheck::Unsupported && f.refuse_empty_start) {
        assert(s[n] == ServerAction::StartShards);
        let m = if f.metrics {
            1int
        } else {
            0
        };
        let t = if f.tls_reload {
            1int
        } else {
            0
        };
        if f.metrics {
            assert(s[n + 1] == ServerAction::ServeMetrics);
        }
        if f.tls_reload {
            assert(s[n + 1 + m] == ServerAction::ArmTlsReload);
        }
        assert(s[n + 1 + m + t] == ServerAction::InstallShutdown);
        assert(s[n + 2 + m + t] == ServerAction::MarkLive);
    }
}

/// A handover that fails at any step is given up, and one that was given up stays so.
pub proof fn law_a_failed_handover_is_given_up(step: HostStep, n: nat, ok: bool)
    ensures
        host_next(step, n, false) == HostStep::GiveUp,
        host_next(HostStep::GiveUp, n, ok) == HostStep::GiveUp,
{
}

/// The runtime that is named is the one that is used: that of the portable runtime where
/// it was asked for, and the fast one only without TLS, where it was built and the kernel
/// can do it.
pub proof fn law_runtime_that_is_used(r: RuntimeBackend, tls: bool, ring: RingSupport)
    ensures
        runtime_text(RuntimeBackend::Tokio, tls, ring) == "tokio"@,
        r != RuntimeBackend::Tokio && !tls && ring == RingSupport::Capable ==> runtime_text(
            r,
            tls,
            ring,
        ) == runtime_name(r) + " (Linux, "@ + runtime_name(r)
            + " feature, TLS off, kernel-capable)"@,
        r != RuntimeBackend::Tokio && tls ==> runtime_text(r, tls, ring) == runtime_name(r)
            + " requested -> tokio (TLS is on; the io_uring datapath is plaintext-only in v1)"@,
{
}

/// The configuration as it is shown holds a line for each setting, with the value that is
/// in effect; of the password it only says whether one is set.
pub proof fn law_config_lists_every_setting(c: Config)
    ensures
        has_part(config_text(c), "bind = \""@ + (c.bind@ + "\""@) + "\n"@),
        has_part(config_text(c), "port = "@ + decimal(c.port as nat) + "\n"@),
        has_part(config_text(c), "shards = "@ + decimal(c.shards as nat) + "\n"@),
        has_part(config_text(c), "runtime = \""@ + (runtime_name(c.runtime) + "\""@) + "\n"@),
        has_part(config_text(c), "databases = "@ + decimal(c.databases as nat) + "\n"@),
        has_part(config_text(c), "maxmemory = "@ + decimal(c.maxmemory as nat) + "\n"@),
        has_part(
            config_text(c),
            "maxmemory-policy = \""@ + (c.maxmemory_policy@ + "\""@) + "\n"@,
        ),
        has_part(config_text(c), "timeout = "@ + decimal(c.timeout_secs as nat) + "\n"@),
        c.requirepass ==> has_part(config_text(c), "requirepass = "@ + "\"<set>\""@ + "\n"@),
        !c.requirepass ==> has_part(config_text(c), "requirepass = "@ + "\"\""@ + "\n"@),
{
    let t0 = line("# effective ironcache configuration"@, Seq::empty());
    assert(t0 =~= Seq::<char>::empty() + t0 + Seq::<char>::empty());
    let l1 = line("bind = \""@, c.bind@ + "\""@);
    let t1 = t0 + l1;
    lemma_parts(t0, l1);
    let l2 = line("port = "@, decimal(c.port as nat));
    let t2 = t1 + l2;
    lemma_parts(t1, l2);
    let l3 = line("shards = "@, decimal(c.shards as nat));
    let t3 = t2 + l3;
    lemma_parts(t2, l3);
    let l4 = line("runtime = \""@, runtime_name(c.runtime) + "\""@);
    let t4 = t3 + l4;
    lemma_parts(t3, l4);
    let l5 = line("databases = "@, decimal(c.databases as nat));
    let t5 = t4 + l5;
    lemma_parts(t4, l5);
    let l6 = line("maxmemory = "@, decimal(c.maxmemory as nat));
    let t6 = t5 + l6;
    lemma_parts(t5, l6);
    let l7 = line("maxmemory-policy = \""@, c.maxmemory_policy@ + "\""@);
    let t7 = t6 + l7;
    lemma_parts(t6, l7);
    let l8 = line("timeout = "@, decimal(c.timeout_secs as nat));
    let t8 = t7 + l8;
    lemma_parts(t7, l8);
    let l9 = line(
        "requirepass = "@,
        if c.requirepass {
            "\"<set>\""@
        } else {
            "\"\""@
        },
    );
    let t9 = t8 + l9;
    lemma_parts(t8, l9);
    assert(t9 == config_text(c));
}

/// The report of a check holds a line for each setting, with the value that is in effect.
pub proof fn law_check_reports_every_setting(c: Config, ring: RingSupport, a: Allocator)
    ensures
        has_part(
            check_text(c, ring, a),
            "  bind        = "@ + (c.bind@ + ":"@ + decimal(c.port as nat)) + "\n"@,
        ),
        has_part(check_text(c, ring, a), "  shards      = "@ + decimal(c.shards as nat) + "\n"@),
        has_part(
            check_text(c, ring, a),
            "  runtime     = "@ + runtime_text(c.runtime, c.tls, ring) + "\n"@,
        ),
        has_part(
            check_text(c, ring, a),
            "  databases   = "@ + decimal(c.databases as nat) + "\n"@,
        ),
        c.persist_cpu@.len() > 0 ==> has_part(
            check_text(c, ring, a),
            "  persist-cpu = "@ + c.persist_cpu@ + "\n"@,
        ),
        c.persist_cpu@.len() == 0 ==> has_part(
            check_text(c, ring, a),
            "  persist-cpu = "@ + "off (no pin)"@ + "\n"@,
        ),
        c.maxmemory == 0 ==> has_part(
            check_text(c, ring, a),
            "  maxmemory   = "@ + (decimal(0) + " bytes"@ + " (unlimited)"@) + "\n"@,
        ),
        c.maxmemory > 0 ==> has_part(
            check_text(c, ring, a),
            "  maxmemory   = "@ + (decimal(c.maxmemory as nat) + " bytes"@) + "\n"@,
        ),
        has_part(check_text(c, ring, a), "  policy      = "@ + c.maxmemory_policy@ + "\n"@),
        c.requirepass ==> has_part(
            check_text(c, ring, a),
            "  requirepass = "@ + "set"@ + "\n"@,
        ),
        !c.requirepass ==> has_part(
            check_text(c, ring, a),
            "  requirepass = "@ + "unset"@ + "\n"@,
        ),
        has_part(check_text(c, ring, a), tls_text(c)),
        has_part(check_text(c, ring, a), allocator_text(a)),
{
    reveal_strlit("");
    assert(decimal(c.maxmemory as nat) + " bytes"@ + ""@ =~= decimal(c.maxmemory as nat)
        + " bytes"@);
    let t0 = line("ironcache check: configuration OK"@, Seq::empty());
    assert(t0 =~= Seq::<char>::empty() + t0 + Seq::<char>::empty());
    let l1 = line("  bind        = "@, c.bind@ + ":"@ + decimal(c.port as nat));
    let t1 = t0 + l1;
    lemma_parts(t0, l1);
    let l2 = line("  shards      = "@, decimal(c.shards as nat));
    let t2 = t1 + l2;
    lemma_parts(t1, l2);
    let l3 = line("  runtime     = "@, runtime_text(c.runtime, c.tls, ring));
    let t3 = t2 + l3;
    lemma_parts(t2, l3);
    let l4 = line("  databases   = "@, decimal(c.databases as nat));
    let t4 = t3 + l4;
    lemma_parts(t3, l4);
    let l5 = line(
        "  persist-cpu = "@,
        if c.persist_cpu@.len() == 0 {
            "off (no pin)"@
        } else {
            c.persist_cpu@
        },
    );
    let t5 = t4 + l5;
    lemma_parts(t4, l5);
    let l6 = line(
        "  maxmemory   = "@,
        decimal(c.maxmemory as nat) + " bytes"@ + (if c.maxmemory == 0 {
            " (unlimited)"@
        } else {
            ""@
        }),
    );
    let t6 = t5 + l6;
    lemma_parts(t5, l6);
    let l7 = line("  policy      = "@, c.maxmemory_policy@);
    let t7 = t6 + l7;
    lemma_parts(t6, l7);
    let l8 = line(
        "  requirepass = "@,
        if c.requirepass {
            "set"@
        } else {
            "unset"@
        },
    );
    let t8 = t7 + l8;
    lemma_parts(t7, l8);
    let l9 = tls_text(c);
    let t9 = t8 + l9;
    lemma_parts(t8, l9);
    let l10 = allocator_text(a);
    let t10 = t9 + l10;
    lemma_parts(t9, l10);
    assert(t10 == check_text(c, ring, a));
}

/// The transport lines say that it is on with the paths that are set, or that it is off.
pub proof fn law_transport_lines(c: Config)
    ensures
        !c.tls ==> tls_text(c) == "  tls         = off (plaintext)"@ + "\n"@,
        c.tls ==> has_part(
            tls_text(c),
            "  tls         = on (rustls, server-auth, client listener)"@ + "\n"@,
        ),
        c.tls ==> (c.tls_cert_path matches Some(p) ==> has_part(
            tls_text(c),
            "  tls_cert    = "@ + p@ + "\n"@,
        )),
        c.tls ==> (c.tls_key_path matches Some(p) ==> has_part(
            tls_text(c),
            "  tls_key     = "@ + p@ + "\n"@,
        )),
{
    let none = Seq::<char>::empty();
    assert(line("  tls         = off (plaintext)"@, none) =~= "  tls         = off (plaintext)"@
        + "\n"@);
    let head = line("  tls         = on (rustls, server-auth, client listener)"@, none);
    assert(head =~= "  tls         = on (rustls, server-auth, client listener)"@ + "\n"@);
    assert(head =~= none + head + none);
    let cert = match c.tls_cert_path {
        Some(p) => line("  tls_cert    = "@, p@),
        None => none,
    };
    let key = match c.tls_key_path {
        Some(p) => line("  tls_key     = "@, p@),
        None => none,
    };
    lemma_parts(head, cert);
    lemma_parts(head + cert, key);
}

/// A level has one or two words, and no other word names it.
pub proof fn law_words_of_levels(word: Seq<char>)
    ensures
        level_named("error"@) == Some(LogLevel::Error),
        level_named("warn"@) == Some(LogLevel::Warn),
        level_named("warning"@) == Some(LogLevel::Warn),
        level_named("info"@) == Some(LogLevel::Info),
        level_named("notice"@) == Some(LogLevel::Info),
        level_named("debug"@) == Some(LogLevel::Debug),
        level_named("verbose"@) == Some(LogLevel::Debug),
        level_named("trace"@) == Some(LogLevel::Trace),
        word != "error"@ && word != "warn"@ && word != "warning"@ && word != "info"@ && word
            != "notice"@ && word != "debug"@ && word != "verbose"@ && word != "trace"@
            ==> level_named(word) is None,
{
    reveal_strlit("error");
    reveal_strlit("warn");
    reveal_strlit("warning");
    reveal_strlit("info");
    reveal_strlit("notice");
    reveal_strlit("debug");
    reveal_strlit("verbose");
    reveal_strlit("trace");
    assert("error"@[0] == 'e' && "debug"@[0] == 'd' && "trace"@[0] == 't');
    assert("warn"@[0] == 'w' && "info"@[0] == 'i');
    assert("warning"@[0] == 'w' && "verbose"@[0] == 'v' && "notice"@.len() == 6);
}

/// A roll that completed is a success that names the target, and nothing else is one; a
/// roll that stalled says what it waits for, and an error is handed on.
pub proof fn law_a_roll_is_reported_as_it_went(
    report: Result<UpgradeReport, ClusterUpgradeError>,
    max_ticks: nat,
    target: Seq<char>,
    r: Result<String, ClusterFailure>,
)
    requires
        roll_said(report, max_ticks, target, r),
    ensures
        r is Ok <==> report == Ok::<UpgradeReport, ClusterUpgradeError>(UpgradeReport::Completed),
        r matches Ok(text) ==> has_part(text@, target),
        report matches Err(e) ==> r == Err::<String, ClusterFailure>(ClusterFailure::Roll(e)),
        report matches Ok(UpgradeReport::StalledAfterBudget(step)) ==> (r matches Err(
            ClusterFailure::Stalled(text),
        ) && has_part(text@, stall_text(step)) && has_part(text@, decimal(max_ticks))),
{
    if let Ok(text) = r {
        let head = "cluster upgrade succeeded: every node is on "@;
        lemma_parts(head, target);
        lemma_parts(head + target, " (primary upgraded last)\n"@);
    }
    if let Ok(UpgradeReport::StalledAfterBudget(step)) = report {
        let head = "cluster upgrade did not finish within --max-ticks "@;
        lemma_parts(head, decimal(max_ticks));
        lemma_parts(head + decimal(max_ticks), ": stalled at "@);
        lemma_parts(head + decimal(max_ticks) + ": stalled at "@, stall_text(step));
    }
}

/// An upgrade of one node names what runs now and what ran before, and warns if and only
/// if no snapshot was confirmed.
pub proof fn law_an_upgrade_says_what_runs(installed: Seq<char>, previous: Seq<char>)
    ensures
        has_part(upgraded_text(installed, Some(previous), true), installed),
        has_part(upgraded_text(installed, Some(previous), true), previous),
        upgraded_text(installed, Some(previous), false) == upgraded_text(
            installed,
            Some(previous),
            true,
        ) + " [WARNING: no persisted snapshot was confirmed; in-memory data was not saved]"@,
        upgraded_text(installed, None, true) == upgraded_text(installed, Some("unknown"@), true),
{
    reveal_strlit("");
    let t0 = "upgrade succeeded: now running "@;
    let t1 = t0 + installed;
    let t2 = t1 + " (was "@;
    let t3 = t2 + previous;
    let t4 = t3 + ")"@;
    lemma_parts(t0, installed);
    lemma_parts(t1, " (was "@);
    lemma_parts(t2, previous);
    lemma_parts(t3, ")"@);
    lemma_parts(t4, ""@);
    assert(t4 + ""@ =~= t4);
}

} // verus!
