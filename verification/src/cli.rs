//! The command line: the modes of the binary, the arguments of an upgrade, and the
//! decisions that follow from them.
use vstd::prelude::*;
use vstd::slice::slice_subrange;
use vstd::string::*;
use crate::cluster_upgrade_driver::{DriverConfig, FreezeCfg, Inventory, PollCfg};
use crate::text::{chars_of, copy_str, decimal, is_text, lemma_decimal_round_trip, lowered, parse_unsigned, pieces,
    same_str, split_at_char, split_on, to_lower, trim_str, trimmed, unsigned_of};

verus! {

/// The address of the metrics endpoint where none is given. It is local, so that the
/// endpoint is on without being exposed.
pub const DEFAULT_METRICS_ADDR: &'static str = "127.0.0.1:9091";

/// The port of the server where none is given.
pub const DEFAULT_PORT: u16 = 6379;

/// The repository that releases are fetched from where none is given.
pub const DEFAULT_UPGRADE_REPO: &'static str = "ELares/IronCache";

/// The version of a build: the stamp of the release, else the version of the package.
pub fn build_version<'a>(stamp: Option<&'a str>, package: &'a str) -> (r: &'a str)
    ensures
        r == (match stamp {
            Some(v) => v,
            None => package,
        }),
{
    match stamp {
        Some(v) => v,
        None => package,
    }
}

/// The modes of the binary.
#[derive(Debug)]
pub enum Command {
    /// Run the server.
    Server,
    /// Talk to a server.
    Cli {
        /// The host.
        host: String,
        /// The port.
        port: u16,
    },
    /// Run the benchmark.
    Bench,
    /// Check the configuration.
    Check,
    /// Print the configuration.
    Config,
    /// Upgrade a server or a cluster.
    Upgrade(UpgradeArgs),
}

/// The arguments of an upgrade.
#[derive(Debug, Clone)]
pub struct UpgradeArgs {
    /// A local binary.
    pub binary: Option<String>,
    /// The checksums of the local binary.
    pub sha256sums: Option<String>,
    /// The address of a release.
    pub from_url: Option<String>,
    /// The address of the checksums of the release.
    pub sums_url: Option<String>,
    /// The tag of a release, or `latest`.
    pub to: Option<String>,
    /// The repository of the release.
    pub repo: Option<String>,
    /// The binary that is replaced.
    pub target: String,
    /// The unit that is restarted.
    pub unit: String,
    /// The address of the readiness endpoint.
    pub readyz_addr: String,
    /// The address for commands.
    pub resp_addr: String,
    /// The file that holds the password.
    pub auth_file: Option<String>,
    /// How long the restarted server may take to become ready, in seconds.
    pub health_timeout: u64,
    /// Leave a failed upgrade in place.
    pub no_rollback: bool,
    /// Ask nothing.
    pub yes: bool,
    /// Permit the same version.
    pub allow_same: bool,
    /// Do not freeze writes.
    pub no_freeze: bool,
    /// Upgrade a cluster.
    pub cluster: bool,
    /// The inventory of the cluster.
    pub inventory: Option<String>,
    /// The largest lag at which a replica counts as in sync.
    pub max_lag: u64,
    /// How long a candidate may take to drain, in seconds.
    pub drain_timeout: u64,
    /// The window of the write freeze, in milliseconds.
    pub pause_ms: u64,
    /// The bound on one exchange with a node, in seconds.
    pub per_node_timeout: u64,
    /// The number of steps after which the roll gives up.
    pub max_ticks: usize,
    /// Only show the plan.
    pub dry_run: bool,
    /// A command that upgrades a node, in place of SSH.
    pub actuator_command: Option<String>,
}

/// The error where a cluster upgrade has no inventory.
pub open spec fn missing_inventory() -> Seq<char> {
    "`--cluster` requires `--inventory <FILE>` (the TOML actuation map)"@
}

/// The error where a cluster upgrade has no target.
pub open spec fn missing_target() -> Seq<char> {
    "`--cluster` requires `--to <TAG>` (the explicit target version; dev/lock builds pin a constant version, so it cannot be inferred)"@
}

/// Where an upgrade takes its binary from.
#[derive(Debug)]
pub enum UpgradeSource {
    /// A local binary and its checksums.
    Local {
        /// The binary.
        binary: String,
        /// The checksums.
        sha256sums: String,
    },
    /// A release at an address.
    Url {
        /// The release.
        url: String,
        /// The checksums.
        sums_url: String,
    },
    /// A release of a repository.
    Release {
        /// The repository.
        repo: String,
        /// The tag; `None` stands for the latest.
        tag: Option<String>,
    },
}

/// The number of sources that are given.
pub open spec fn source_count(a: UpgradeArgs) -> int {
    (if a.binary is Some {
        1int
    } else {
        0
    }) + (if a.from_url is Some {
        1int
    } else {
        0
    }) + (if a.to is Some {
        1int
    } else {
        0
    })
}

/// Why the source of an upgrade is refused.
pub open spec fn source_problem(a: UpgradeArgs) -> Option<Seq<char>> {
    if source_count(a) == 0 {
        Some(
            "a binary source is required: `--binary <path> --sha256sums <path>` (local), `--from-url <url> --sums-url <url>` (remote), or `--to <version|latest>` (GitHub, #394)"@,
        )
    } else if source_count(a) > 1 {
        Some(
            "the sources --binary, --from-url, and --to are mutually exclusive; choose exactly ONE"@,
        )
    } else if a.to is Some {
        None
    } else if a.from_url is Some {
        if a.sums_url is None {
            Some(
                "--from-url requires --sums-url (the SHA256SUMS URL that vouches for the tarball)"@,
            )
        } else if a.sha256sums is Some {
            Some("--sha256sums is for the local --binary source; use --sums-url with --from-url"@)
        } else {
            None
        }
    } else if a.sha256sums is None {
        Some("--binary requires --sha256sums"@)
    } else {
        None
    }
}

/// Whether `s` is the source that the arguments name.
pub open spec fn is_source_of(s: UpgradeSource, a: UpgradeArgs) -> bool {
    if a.to is Some {
        s matches UpgradeSource::Release { repo, tag } && repo@ == (match a.repo {
            Some(r) => r@,
            None => DEFAULT_UPGRADE_REPO@,
        }) && crate::text::opt_string(tag) == (if lowered(a.to->0@) == "latest"@ {
            None
        } else {
            Some(a.to->0@)
        })
    } else if a.from_url is Some {
        s matches UpgradeSource::Url { url, sums_url } && url@ == a.from_url->0@ && sums_url@
            == a.sums_url->0@
    } else {
        s matches UpgradeSource::Local { binary, sha256sums } && binary@ == a.binary->0@
            && sha256sums@ == a.sha256sums->0@
    }
}

/// The number of lag readings of a drain of `secs` seconds: ten a second, at least one.
pub open spec fn drain_polls(secs: u64) -> int {
    if secs * 10 > u32::MAX {
        u32::MAX as int
    } else if secs == 0 {
        1
    } else {
        secs * 10
    }
}

impl UpgradeArgs {
    /// The inventory and the target of a cluster upgrade. A missing inventory is named
    /// before a missing target.
    pub fn require_cluster_inputs(&self) -> (r: Result<(&str, &str), String>)
        ensures
            match r {
                Ok((i, t)) => self.inventory is Some && self.to is Some && i@ == self.inventory->0@
                    && t@ == self.to->0@,
                Err(e) => if self.inventory is None {
                    e@ == missing_inventory()
                } else {
                    self.to is None && e@ == missing_target()
                },
            },
    {
        let inventory = match &self.inventory {
            Some(i) => i.as_str(),
            None => {
                return Err(
                    "`--cluster` requires `--inventory <FILE>` (the TOML actuation map)".to_owned(),
                );
            },
        };
        let target = match &self.to {
            Some(t) => t.as_str(),
            None => {
                return Err(
                    "`--cluster` requires `--to <TAG>` (the explicit target version; dev/lock builds pin a constant version, so it cannot be inferred)".to_owned(),
                );
            },
        };
        Ok((inventory, target))
    }

    /// Picks the source of the binary. Exactly one must be given, with its checksums.
    pub fn resolve_upgrade_source(&self) -> (r: Result<UpgradeSource, String>)
        ensures
            match r {
                Ok(s) => source_problem(*self) is None && is_source_of(s, *self),
                Err(e) => source_problem(*self) == Some(e@),
            },
    {
        let mut count: u8 = 0;
        if self.binary.is_some() {
            count = count + 1;
        }
        if self.from_url.is_some() {
            count = count + 1;
        }
        if self.to.is_some() {
            count = count + 1;
        }
        if count == 0 {
            return Err(
                "a binary source is required: `--binary <path> --sha256sums <path>` (local), `--from-url <url> --sums-url <url>` (remote), or `--to <version|latest>` (GitHub, #394)".to_owned(),
            );
        }
        if count > 1 {
            return Err(
                "the sources --binary, --from-url, and --to are mutually exclusive; choose exactly ONE".to_owned(),
            );
        }
        if let Some(spec_text) = &self.to {
            let repo = match &self.repo {
                Some(r) => r.clone(),
                None => copy_str(DEFAULT_UPGRADE_REPO),
            };
            let chars = chars_of(spec_text.as_str());
            let low = to_lower(chars.as_slice());
            let tag: Option<String> = if is_text(low.as_slice(), "latest") {
                None
            } else {
                Some(spec_text.clone())
            };
            return Ok(UpgradeSource::Release { repo, tag });
        }
        if let Some(url) = &self.from_url {
            return match &self.sums_url {
                None => Err(
                    "--from-url requires --sums-url (the SHA256SUMS URL that vouches for the tarball)".to_owned(),
                ),
                Some(sums) => if self.sha256sums.is_some() {
                    Err(
                        "--sha256sums is for the local --binary source; use --sums-url with --from-url".to_owned(),
                    )
                } else {
                    Ok(UpgradeSource::Url { url: url.clone(), sums_url: sums.clone() })
                },
            };
        }
        match (&self.binary, &self.sha256sums) {
            (Some(b), Some(s)) => Ok(
                UpgradeSource::Local { binary: b.clone(), sha256sums: s.clone() },
            ),
            _ => Err("--binary requires --sha256sums".to_owned()),
        }
    }

    /// How a cluster upgrade with these arguments is set up.
    pub fn driver_config(&self, inventory: Inventory, target: &str) -> (r: DriverConfig)
        ensures
            r.inventory == inventory,
            r.target_version@ == target@,
            r.max_lag == self.max_lag,
            r.poll.tick_delay_ms == 500,
            r.freeze.pause_window_ms == self.pause_ms,
            r.freeze.drain_poll_delay_ms == 100,
            r.freeze.max_drain_polls == drain_polls(self.drain_timeout),
    {
        let polls: u32 = if self.drain_timeout > (u32::MAX / 10) as u64 {
            u32::MAX
        } else if self.drain_timeout == 0 {
            1
        } else {
            self.drain_timeout as u32 * 10
        };
        DriverConfig {
            inventory,
            target_version: copy_str(target),
            max_lag: self.max_lag,
            poll: PollCfg::default(),
            freeze: FreezeCfg {
                pause_window_ms: self.pause_ms,
                max_drain_polls: polls,
                drain_poll_delay_ms: 100,
            },
        }
    }
}

/// Whether a value switches the metrics endpoint off.
pub open spec fn metrics_off(v: Seq<char>) -> bool {
    let l = lowered(v);
    v.len() == 0 || l == "off"@ || l == "none"@ || l == "disable"@ || l == "disabled"@
}

/// The address that a value stands for.
pub open spec fn metrics_value(raw: Option<&str>) -> Seq<char> {
    trimmed(
        match raw {
            Some(s) => s@,
            None => DEFAULT_METRICS_ADDR@,
        },
    )
}

/// The address of the metrics endpoint: the default where nothing is given, none
/// where the value switches it off.
pub fn effective_metrics_addr(raw: Option<&str>) -> (r: Option<&str>)
    ensures
        match r {
            Some(a) => !metrics_off(metrics_value(raw)) && a@ == metrics_value(raw),
            None => metrics_off(metrics_value(raw)),
        },
{
    let value = match raw {
        Some(s) => trim_str(s),
        None => trim_str(DEFAULT_METRICS_ADDR),
    };
    let chars = chars_of(value);
    let low = to_lower(chars.as_slice());
    let l = low.as_slice();
    if chars.len() == 0 || is_text(l, "off") || is_text(l, "none") || is_text(l, "disable")
        || is_text(l, "disabled") {
        None
    } else {
        Some(value)
    }
}

/// The last part of a path that is neither empty nor `.`; nothing where that part is
/// `..` or there is none.
pub open spec fn last_name(parts: Seq<Seq<char>>) -> Seq<char>
    decreases parts.len(),
{
    if parts.len() == 0 {
        Seq::empty()
    } else if parts.last().len() == 0 || parts.last() == "."@ {
        last_name(parts.drop_last())
    } else if parts.last() == ".."@ {
        Seq::empty()
    } else {
        parts.last()
    }
}

/// A file name without one `.exe` at its end.
pub open spec fn without_exe(s: Seq<char>) -> Seq<char> {
    let n = s.len() - ".exe"@.len();
    if n >= 0 && s.skip(n) == ".exe"@ {
        s.take(n)
    } else {
        s
    }
}

/// Whether the binary was called by the name `redis-cli`.
pub fn invoked_as_redis_cli(argv0: &str) -> (r: bool)
    ensures
        r == (without_exe(last_name(split_on(argv0@, '/'))) == "redis-cli"@),
{
    proof {
        reveal_strlit(".exe");
        reveal_strlit("redis-cli");
        reveal_strlit("..");
        reveal_strlit(".");
    }
    let chars = chars_of(argv0);
    let parts = split_at_char(chars.as_slice(), '/');
    let ghost all = pieces(parts@);
    assert(all.len() == parts@.len());
    let mut n: usize = parts.len();
    assert(all.take(n as int) =~= all);
    while n > 0
        invariant
            n <= parts@.len(),
            all == pieces(parts@),
            all == split_on(argv0@, '/'),
            last_name(all.take(n as int)) == last_name(all),
        decreases n,
    {
        let part: &[char] = parts[n - 1];
        assert(all.take(n as int).last() == part@);
        assert(all.take(n as int).drop_last() =~= all.take(n as int - 1));
        if part.len() == 0 || is_text(part, ".") {
            n = n - 1;
        } else {
            proof {
                reveal_strlit(".exe");
                reveal_strlit("redis-cli");
                reveal_strlit("..");
            }
            if is_text(part, "..") {
                assert(without_exe(last_name(all)) != "redis-cli"@) by {
                    assert(last_name(all).len() == 0);
                    assert(without_exe(last_name(all)).len() == 0);
                }
                return false;
            }
            if part.len() >= 4 {
                let k: usize = part.len() - 4;
                let tail = slice_subrange(part, k, part.len());
                assert(tail@ =~= part@.skip(k as int));
                if is_text(tail, ".exe") {
                    let head = slice_subrange(part, 0, k);
                    assert(head@ =~= part@.take(k as int));
                    return is_text(head, "redis-cli");
                }
            }
            return is_text(part, "redis-cli");
        }
    }
    assert(without_exe(last_name(all)).len() == 0);
    false
}

/// What the words of a `redis-cli` call ask for.
pub struct AliasModel {
    /// The host.
    pub host: Seq<char>,
    /// The port.
    pub port: int,
}

/// What the words from `i` on ask for, given what was asked before; the port value
/// that is no number where one is met.
pub open spec fn alias_from(args: Seq<Seq<char>>, i: int, m: AliasModel) -> Result<
    AliasModel,
    Seq<char>,
>
    decreases args.len() - i,
{
    if i >= args.len() {
        Ok(m)
    } else if (args[i] == "-h"@ || args[i] == "--host"@) && i + 1 < args.len() {
        alias_from(args, i + 2, AliasModel { host: args[i + 1], ..m })
    } else if (args[i] == "-p"@ || args[i] == "--port"@) && i + 1 < args.len() {
        match unsigned_of(args[i + 1], u16::MAX as nat) {
            Some(p) => alias_from(args, i + 2, AliasModel { port: p as int, ..m }),
            None => Err(args[i + 1]),
        }
    } else {
        alias_from(args, i + 1, m)
    }
}

/// Reads the host and the port out of the words of a `redis-cli` call. Other words are
/// passed over. An error names the value that is no port.
pub fn parse_cli_alias(args: &Vec<String>) -> (r: Result<(String, u16), String>)
    ensures
        match alias_from(
            crate::resp::string_views(args@),
            0,
            AliasModel { host: "127.0.0.1"@, port: DEFAULT_PORT as int },
        ) {
            Ok(m) => r matches Ok((h, p)) && h@ == m.host && p == m.port,
            Err(v) => r matches Err(e) && e@ == "invalid -p/--port value '"@ + v + "'"@,
        },
{
    let ghost all = crate::resp::string_views(args@);
    let ghost start = AliasModel { host: "127.0.0.1"@, port: DEFAULT_PORT as int };
    let mut host: String = "127.0.0.1".to_owned();
    let mut port: u16 = DEFAULT_PORT;
    let mut i: usize = 0;
    while i < args.len()
        invariant
            all == crate::resp::string_views(args@),
            i <= args@.len(),
            alias_from(all, i as int, AliasModel { host: host@, port: port as int }) == alias_from(
                all,
                0,
                start,
            ),
            start == (AliasModel { host: "127.0.0.1"@, port: DEFAULT_PORT as int }),
        decreases args@.len() - i,
    {
        let left: usize = args.len() - i;
        let a = args[i].as_str();
        assert(all[i as int] == a@);
        if (same_str(a, "-h") || same_str(a, "--host")) && left > 1 {
            assert(all[i + 1] == args@[i + 1]@);
            host = args[i + 1].clone();
            i = i + 2;
        } else if (same_str(a, "-p") || same_str(a, "--port")) && left > 1 {
            assert(all[i + 1] == args@[i + 1]@);
            let value = chars_of(args[i + 1].as_str());
            match parse_unsigned(value.as_slice(), u16::MAX as u64) {
                Some(p) => {
                    port = p as u16;
                },
                None => {
                    let mut e: String = "invalid -p/--port value '".to_owned();
                    e.append(args[i + 1].as_str());
                    e.append("'");
                    return Err(e);
                },
            }
            i = i + 2;
        } else {
            i = i + 1;
        }
    }
    Ok((host, port))
}

/// A source is accepted if and only if exactly one is given, with what vouches for it: a
/// release alone; an address with that of its checksums and no local ones; or a local
/// file with its checksums.
pub proof fn law_when_a_source_is_accepted(a: UpgradeArgs)
    ensures
        source_problem(a) is None <==> {
            ||| a.to is Some && a.binary is None && a.from_url is None
            ||| a.to is None && a.binary is None && a.from_url is Some && a.sums_url is Some
                && a.sha256sums is None
            ||| a.to is None && a.binary is Some && a.from_url is None && a.sha256sums is Some
        },
{
}

/// The source that is used is the one that was given: the release of the repository, the
/// newest one where that is asked for; the two addresses; or the two files.
pub proof fn law_the_source_is_the_one_given(s: UpgradeSource, a: UpgradeArgs)
    requires
        source_problem(a) is None,
        is_source_of(s, a),
    ensures
        s is Release <==> a.to is Some,
        s is Url <==> a.from_url is Some,
        s is Local <==> a.binary is Some,
        s matches UpgradeSource::Url { url, sums_url } ==> url@ == a.from_url->0@ && sums_url@
            == a.sums_url->0@,
        s matches UpgradeSource::Local { binary, sha256sums } ==> binary@ == a.binary->0@
            && sha256sums@ == a.sha256sums->0@,
        s matches UpgradeSource::Release { repo, tag } ==> {
            &&& tag is None <==> lowered(a.to->0@) == "latest"@
            &&& tag matches Some(t) ==> t@ == a.to->0@
            &&& a.repo matches Some(r) ==> repo@ == r@
        },
{
}

/// The lag is read ten times a second for as long as the drain may last, and at least
/// once.
pub proof fn law_polls_fill_the_drain(secs: u64)
    ensures
        secs == 0 ==> drain_polls(secs) == 1,
        0 < secs <= 429496729 ==> drain_polls(secs) == 10 * secs,
        secs > 429496729 ==> drain_polls(secs) == u32::MAX,
{
}

/// The program goes by the last part of the path that it was called by, without an
/// `.exe`.
pub proof fn law_the_last_part_names_the_program(parts: Seq<Seq<char>>, name: Seq<char>)
    requires
        name.len() > 0,
        name != "."@,
        name != ".."@,
    ensures
        last_name(parts.push(name)) == name,
        last_name(parts.push(name).push(Seq::empty())) == name,
        without_exe(name + ".exe"@) == name,
{
    let p = parts.push(name);
    assert(p.push(Seq::empty()).drop_last() =~= p);
    assert(p.last() == name);
    let full = name + ".exe"@;
    assert(full.skip(name.len() as int) =~= ".exe"@);
    assert(full.take(name.len() as int) =~= name);
}

/// The alias takes the host and the port that follow their flags, the last ones given;
/// anything else is passed over; a port that is none is an error.
pub proof fn law_alias_flags(rest: Seq<Seq<char>>, value: Seq<char>, port: nat, m: AliasModel)
    requires
        port <= u16::MAX,
        value != "-h"@ && value != "--host"@ && value != "-p"@ && value != "--port"@,
    ensures
        alias_from(Seq::empty(), 0, m) == Ok::<AliasModel, Seq<char>>(m),
        alias_from(seq!["-h"@, value] + rest, 0, m) == alias_from(
            rest,
            0,
            AliasModel { host: value, ..m },
        ),
        alias_from(seq!["--host"@, value] + rest, 0, m) == alias_from(
            rest,
            0,
            AliasModel { host: value, ..m },
        ),
        alias_from(seq!["-p"@, decimal(port)] + rest, 0, m) == alias_from(
            rest,
            0,
            AliasModel { port: port as int, ..m },
        ),
        alias_from(seq!["--port"@, decimal(port)] + rest, 0, m) == alias_from(
            rest,
            0,
            AliasModel { port: port as int, ..m },
        ),
        alias_from(seq![value] + rest, 0, m) == alias_from(rest, 0, m),
        unsigned_of(value, u16::MAX as nat) is None ==> alias_from(
            seq!["-p"@, value] + rest,
            0,
            m,
        ) == Err::<AliasModel, Seq<char>>(value),
{
    reveal_strlit("-h");
    reveal_strlit("--host");
    reveal_strlit("-p");
    reveal_strlit("--port");
    assert("-p"@[1] != "-h"@[1]);
    assert("-p"@.len() != "--host"@.len());
    assert("--port"@[2] != "--host"@[2]);
    assert("--port"@.len() != "-h"@.len());
    lemma_decimal_round_trip(port, u16::MAX as nat);
    let a = seq!["-h"@, value] + rest;
    let b = seq!["--host"@, value] + rest;
    let c = seq!["-p"@, decimal(port)] + rest;
    let d = seq!["--port"@, decimal(port)] + rest;
    let e = seq![value] + rest;
    let f = seq!["-p"@, value] + rest;
    assert(a.skip(2) =~= rest && b.skip(2) =~= rest && c.skip(2) =~= rest && d.skip(2) =~= rest);
    assert(e.skip(1) =~= rest);
    assert(a[0] == "-h"@ && a[1] == value);
    assert(b[0] == "--host"@ && b[1] == value);
    assert(c[0] == "-p"@ && c[1] == decimal(port));
    assert(d[0] == "--port"@ && d[1] == decimal(port));
    assert(e[0] == value);
    assert(f[0] == "-p"@ && f[1] == value);
    lemma_alias_from(a, 2, 0, AliasModel { host: value, ..m });
    lemma_alias_from(b, 2, 0, AliasModel { host: value, ..m });
    lemma_alias_from(c, 2, 0, AliasModel { port: port as int, ..m });
    lemma_alias_from(d, 2, 0, AliasModel { port: port as int, ..m });
    lemma_alias_from(e, 1, 0, m);
}

proof fn lemma_alias_from(args: Seq<Seq<char>>, k: int, i: int, m: AliasModel)
    requires
        0 <= k <= args.len(),
        0 <= i,
    ensures
        alias_from(args, k + i, m) == alias_from(args.skip(k), i, m),
    decreases args.len() - k - i,
{
    let t = args.skip(k);
    if i < t.len() {
        assert(t[i] == args[k + i]);
        if i + 1 < t.len() {
            assert(t[i + 1] == args[k + i + 1]);
        }
        if (t[i] == "-h"@ || t[i] == "--host"@) && i + 1 < t.len() {
            lemma_alias_from(args, k, i + 2, AliasModel { host: t[i + 1], ..m });
        } else if (t[i] == "-p"@ || t[i] == "--port"@) && i + 1 < t.len() {
            match unsigned_of(t[i + 1], u16::MAX as nat) {
                Some(p) => {
                    lemma_alias_from(args, k, i + 2, AliasModel { port: p as int, ..m });
                },
                None => {},
            }
        } else {
            lemma_alias_from(args, k, i + 1, m);
        }
    }
}

/// The endpoint is off where the value is blank or says so in any case, and on for any
/// other value, at that address.
pub proof fn law_when_the_endpoint_is_off(v: Seq<char>)
    ensures
        metrics_off(Seq::empty()),
        metrics_off(v) == metrics_off(lowered(v)),
        metrics_off("off"@) && metrics_off("none"@) && metrics_off("disable"@) && metrics_off(
            "disabled"@,
        ),
        metrics_off(v) && v.len() > 0 ==> lowered(v) == "off"@ || lowered(v) == "none"@ || lowered(
            v,
        ) == "disable"@ || lowered(v) == "disabled"@,
{
    reveal_strlit("off");
    reveal_strlit("none");
    reveal_strlit("disable");
    reveal_strlit("disabled");
    assert(lowered("off"@) =~= "off"@);
    assert(lowered("none"@) =~= "none"@);
    assert(lowered("disable"@) =~= "disable"@);
    assert(lowered("disabled"@) =~= "disabled"@);
    if v.len() > 0 {
        crate::text::law_lower_case(v, 0);
    }
}

} // verus!
