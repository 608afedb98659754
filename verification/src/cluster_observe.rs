//! What a node says of itself: versions, and the replication and cluster sections
//! of `INFO` and `CLUSTER INFO`.
use vstd::prelude::*;
use vstd::slice::slice_subrange;
use vstd::string::*;
use crate::cluster_upgrade::NodeRole;
use crate::repl::LinkStatus;
use crate::text::{after_prefix, all_digits, chars_of, cut_lit, find_char, first_at, is_digit,
    decimal, is_space, is_text, last_at, law_last_at, law_prefix_is_cut_off,
    law_split_at_every_separator, lemma_decimal_round_trip, lemma_decimal_value, lemma_first_at,
    lemma_first_at_is, lemma_trimmed_fixed, lines, lines_of, parse_unsigned, pieces, rfind_char,
    same_str, split_at_char, split_on, string_of, trim, trimmed, unsigned_of};

verus! {

/// A version in the form that is compared: without surrounding white space, without
/// a leading `v` on a number and without build metadata.
pub open spec fn normalized(s: Seq<char>) -> Seq<char> {
    let u = without_tag(trimmed(s));
    trimmed(u.take(first_at(u, '+')))
}

/// A version without the `v` or `V` before its first digit.
pub open spec fn without_tag(t: Seq<char>) -> Seq<char> {
    if t.len() > 1 && (t[0] == 'v' || t[0] == 'V') && is_digit(t[1]) {
        t.drop_first()
    } else {
        t
    }
}

/// Normalizes a version. Both the observed versions and the target go through this
/// function before they are compared.
pub fn normalize_version(raw: &str) -> (r: String)
    ensures
        r@ == normalized(raw@),
{
    let chars = chars_of(raw);
    let t = trim(chars.as_slice());
    let u: &[char] = if t.len() > 1 && (t[0] == 'v' || t[0] == 'V') && '0' <= t[1] && t[1] <= '9' {
        slice_subrange(t, 1, t.len())
    } else {
        t
    };
    assert(u@ =~= without_tag(t@));
    let k: usize = find_char(u, '+');
    let base = slice_subrange(u, 0, k);
    assert(base@ =~= u@.take(k as int));
    string_of(trim(base))
}

/// A trimming cuts off a beginning and an end.
proof fn lemma_trimmed_is_part(s: Seq<char>) -> (r: (int, int))
    ensures
        0 <= r.0 <= r.1 <= s.len(),
        trimmed(s) == s.subrange(r.0, r.1),
        s.len() > 0 && !is_space_at(s, 0) ==> r.0 == 0 && r.1 > 0,
    decreases s.len(),
{
    if s.len() == 0 {
        assert(s.subrange(0, 0) =~= s);
        (0, 0)
    } else if crate::text::is_space(s[0]) {
        let (a, b) = lemma_trimmed_is_part(s.drop_first());
        assert(s.drop_first().subrange(a, b) =~= s.subrange(a + 1, b + 1));
        (a + 1, b + 1)
    } else if crate::text::is_space(s.last()) {
        let (a, b) = lemma_trimmed_is_part(s.drop_last());
        assert(s.drop_last()[0] == s[0]);
        assert(s.drop_last().subrange(a, b) =~= s.subrange(a, b));
        (a, b)
    } else {
        assert(s.subrange(0, s.len() as int) =~= s);
        (0, s.len() as int)
    }
}

spec fn is_space_at(s: Seq<char>, i: int) -> bool {
    crate::text::is_space(s[i])
}

/// A normalized version is its own normalization, so that the two sides of a
/// comparison may be normalized any number of times.
pub proof fn law_normalized_is_stable(s: Seq<char>)
    ensures
        normalized(normalized(s)) == normalized(s),
{
    let t = trimmed(s);
    let u = without_tag(t);
    let k = first_at(u, '+');
    let p = u.take(k);
    let r = trimmed(p);
    lemma_trimmed_fixed(s);
    lemma_trimmed_fixed(p);
    lemma_first_at(u, '+');
    let (a, b) = lemma_trimmed_is_part(p);
    assert(trimmed(r) == r);
    // The result holds no build metadata.
    assert forall|j: int| 0 <= j < r.len() implies r[j] != '+' by {
        assert(r[j] == u[a + j]);
    }
    lemma_first_at_is(r, '+', r.len() as int);
    assert(r.take(r.len() as int) =~= r);
    // The result begins as the version behind its tag does.
    if r.len() > 1 {
        assert(p[0] == u[0]);
        assert(u.len() > 0 && t.len() > 0);
        assert(!crate::text::is_space(u[0]));
        assert(!is_space_at(p, 0));
        assert(r[0] == u[0] && r[1] == u[1]);
        if u.len() < t.len() {
            assert(is_digit(u[0]));
        }
    }
    assert(without_tag(r) == r);
}

/// One replica as its master lists it.
#[derive(Debug, Clone)]
pub struct SlaveEntry {
    /// The advertised host.
    pub host: String,
    /// The advertised port.
    pub port: u16,
    /// The lag in logical writes.
    pub lag: u64,
}

/// The mathematical value of a replica's entry.
pub struct SlaveModel {
    /// The advertised host.
    pub host: Seq<char>,
    /// The advertised port.
    pub port: int,
    /// The lag.
    pub lag: int,
}

impl View for SlaveEntry {
    type V = SlaveModel;

    open spec fn view(&self) -> SlaveModel {
        SlaveModel { host: self.host@, port: self.port as int, lag: self.lag as int }
    }
}

/// The values of a list of entries.
pub open spec fn slave_views(v: Seq<SlaveEntry>) -> Seq<SlaveModel> {
    v.map_values(|s: SlaveEntry| s@)
}

/// What one node reports. The version is as the node wrote it.
#[derive(Debug, Clone)]
pub struct NodeObservation {
    /// The role.
    pub role: NodeRole,
    /// The version, not normalized.
    pub version: String,
    /// A replica's link to its master.
    pub link: LinkStatus,
    /// A master's list of its replicas; empty for a replica.
    pub slaves: Vec<SlaveEntry>,
    /// The number of internal shards.
    pub shards: usize,
}

/// The mathematical value of an observation.
pub struct ObservationModel {
    /// The role.
    pub role: NodeRole,
    /// The version.
    pub version: Seq<char>,
    /// The link.
    pub link: LinkStatus,
    /// The replicas.
    pub slaves: Seq<SlaveModel>,
    /// The number of internal shards.
    pub shards: int,
}

impl View for NodeObservation {
    type V = ObservationModel;

    open spec fn view(&self) -> ObservationModel {
        ObservationModel {
            role: self.role,
            version: self.version@,
            link: self.link,
            slaves: slave_views(self.slaves@),
            shards: self.shards as int,
        }
    }
}

/// Whether the configuration plane can commit.
#[derive(Debug, Clone, Copy, PartialEq, Eq, Structural)]
pub struct QuorumObservation {
    /// The cluster state is `ok`.
    pub state_ok: bool,
    /// A leader is recognized.
    pub raft_leader_present: bool,
}

impl QuorumObservation {
    /// Whether there is a quorum: the state is ok and a leader is recognized.
    pub fn has_quorum(self) -> (r: bool)
        ensures
            r == (self.state_ok && self.raft_leader_present),
    {
        self.state_ok && self.raft_leader_present
    }
}

/// A line without the carriage returns at its end.
pub open spec fn without_crs(s: Seq<char>) -> Seq<char>
    decreases s.len(),
{
    if s.len() > 0 && s.last() == '\r' {
        without_crs(s.drop_last())
    } else {
        s
    }
}

fn cut_crs(s: &[char]) -> (r: &[char])
    ensures
        r@ == without_crs(s@),
{
    let mut n: usize = s.len();
    assert(s@.take(n as int) =~= s@);
    while n > 0 && s[n - 1] == '\r'
        invariant
            n <= s@.len(),
            without_crs(s@.take(n as int)) == without_crs(s@),
        decreases n,
    {
        assert(s@.take(n as int).drop_last() =~= s@.take(n as int - 1));
        n = n - 1;
    }
    let r = slice_subrange(s, 0, n);
    assert(r@ =~= s@.take(n as int));
    r
}

/// The part of a `slaveN:` line behind the colon.
pub open spec fn slave_body(line: Seq<char>) -> Option<Seq<char>> {
    match after_prefix(line, "slave"@) {
        None => None,
        Some(rest) => {
            let k = first_at(rest, ':');
            if 0 < k < rest.len() && all_digits(rest.take(k)) {
                Some(rest.skip(k + 1))
            } else {
                None
            }
        },
    }
}

/// Matches a numbered `slaveN:` line and gives the part behind the colon.
pub fn strip_slave_prefix(line: &[char]) -> (r: Option<&[char]>)
    ensures
        crate::text::opt_text(r) == slave_body(line@),
{
    match cut_lit(line, "slave") {
        None => None,
        Some(rest) => {
            let k: usize = find_char(rest, ':');
            if k == 0 || k >= rest.len() {
                return None;
            }
            for i in 0..k
                invariant
                    k < rest@.len(),
                    k as int == first_at(rest@, ':'),
                    after_prefix(line@, "slave"@) == Some(rest@),
                    forall|j: int| 0 <= j < i ==> is_digit(#[trigger] rest@[j]),
            {
                if rest[i] < '0' || rest[i] > '9' {
                    assert(!is_digit(rest@.take(k as int)[i as int]));
                    return None;
                }
            }
            assert(all_digits(rest@.take(k as int)));
            let tail = slice_subrange(rest, k + 1, rest.len());
            assert(tail@ =~= rest@.skip(k as int + 1));
            Some(tail)
        },
    }
}

/// The fields of a replica's entry that have been read so far.
pub struct SlaveFields {
    /// `ip`.
    pub host: Option<Seq<char>>,
    /// `port`.
    pub port: Option<nat>,
    /// `lag`.
    pub lag: Option<nat>,
}

/// What one `key=value` pair adds. A repeated key counts as it was written last; a
/// pair with an unreadable number is skipped.
pub open spec fn slave_field(f: SlaveFields, kv: Seq<char>) -> SlaveFields {
    let k = first_at(kv, '=');
    if k >= kv.len() {
        f
    } else {
        let key = trimmed(kv.take(k));
        let value = trimmed(kv.skip(k + 1));
        if key == "ip"@ {
            SlaveFields { host: Some(value), ..f }
        } else if key == "port"@ {
            match unsigned_of(value, u16::MAX as nat) {
                Some(n) => SlaveFields { port: Some(n), ..f },
                None => f,
            }
        } else if key == "lag"@ {
            match unsigned_of(value, u64::MAX as nat) {
                Some(n) => SlaveFields { lag: Some(n), ..f },
                None => f,
            }
        } else {
            f
        }
    }
}

/// The fields that a list of pairs gives.
pub open spec fn slave_fields(kvs: Seq<Seq<char>>) -> SlaveFields
    decreases kvs.len(),
{
    if kvs.len() == 0 {
        SlaveFields { host: None, port: None, lag: None }
    } else {
        slave_field(slave_fields(kvs.drop_last()), kvs.last())
    }
}

/// The entry that the body of a `slaveN:` line stands for; host, port and lag are
/// required.
pub open spec fn slave_of(body: Seq<char>) -> Option<SlaveModel> {
    let f = slave_fields(split_on(body, ','));
    if f.host is Some && f.port is Some && f.lag is Some {
        Some(SlaveModel { host: f.host->0, port: f.port->0 as int, lag: f.lag->0 as int })
    } else {
        None
    }
}

/// Reads the body of a `slaveN:` line: `ip=..,port=..,state=..,offset=..,lag=..`.
pub fn parse_slave_line(body: &[char]) -> (r: Option<SlaveEntry>)
    ensures
        match r {
            Some(e) => slave_of(body@) == Some(e@),
            None => slave_of(body@) is None,
        },
{
    let kvs = split_at_char(body, ',');
    let ghost all = pieces(kvs@);
    let mut host: Option<String> = None;
    let mut port: Option<u64> = None;
    let mut lag: Option<u64> = None;
    for i in 0..kvs.len()
        invariant
            all == pieces(kvs@),
            crate::text::opt_string(host) == slave_fields(all.take(i as int)).host,
            opt_nat(port) == slave_fields(all.take(i as int)).port,
            opt_nat(lag) == slave_fields(all.take(i as int)).lag,
            port matches Some(p) ==> p <= u16::MAX,
    {
        let kv: &[char] = kvs[i];
        assert(all.take(i as int + 1).drop_last() =~= all.take(i as int));
        assert(all.take(i as int + 1).last() == kv@);
        let k: usize = find_char(kv, '=');
        if k < kv.len() {
            let head = slice_subrange(kv, 0, k);
            let tail = slice_subrange(kv, k + 1, kv.len());
            assert(head@ =~= kv@.take(k as int));
            assert(tail@ =~= kv@.skip(k as int + 1));
            let key = trim(head);
            let value = trim(tail);
            if is_text(key, "ip") {
                host = Some(string_of(value));
            } else if is_text(key, "port") {
                if let Some(n) = parse_unsigned(value, u16::MAX as u64) {
                    port = Some(n);
                }
            } else if is_text(key, "lag") {
                if let Some(n) = parse_unsigned(value, u64::MAX) {
                    lag = Some(n);
                }
            }
        }
    }
    assert(all.take(kvs@.len() as int) =~= all);
    match (host, port, lag) {
        (Some(h), Some(p), Some(l)) => Some(SlaveEntry { host: h, port: p as u16, lag: l }),
        _ => None,
    }
}

/// An optional number as a mathematical value.
pub open spec fn opt_nat(o: Option<u64>) -> Option<nat> {
    match o {
        Some(n) => Some(n as nat),
        None => None,
    }
}

/// What one line of `INFO` adds to an observation.
pub open spec fn info_line(o: ObservationModel, raw: Seq<char>) -> ObservationModel {
    let line = without_crs(raw);
    match after_prefix(line, "role:"@) {
        Some(v) => ObservationModel {
            role: if trimmed(v) == "replica"@ {
                NodeRole::Replica
            } else {
                NodeRole::Master
            },
            ..o
        },
        None => match after_prefix(line, "ironcache_version:"@) {
            Some(v) => ObservationModel { version: trimmed(v), ..o },
            None => match after_prefix(line, "master_link_status:"@) {
                Some(v) => ObservationModel {
                    link: if trimmed(v) == "up"@ {
                        LinkStatus::Up
                    } else {
                        LinkStatus::Down
                    },
                    ..o
                },
                None => match after_prefix(line, "io_threads_active:"@) {
                    Some(v) => match unsigned_of(trimmed(v), usize::MAX as nat) {
                        Some(n) => ObservationModel {
                            shards: if n == 0 {
                                1
                            } else {
                                n as int
                            },
                            ..o
                        },
                        None => o,
                    },
                    None => match slave_body(line) {
                        Some(body) => match slave_of(body) {
                            Some(e) => ObservationModel { slaves: o.slaves.push(e), ..o },
                            None => o,
                        },
                        None => o,
                    },
                },
            },
        },
    }
}

/// What a node reports where it says nothing: a master without a version, detached,
/// with one shard.
pub open spec fn no_info() -> ObservationModel {
    ObservationModel {
        role: NodeRole::Master,
        version: Seq::empty(),
        link: LinkStatus::Down,
        slaves: Seq::empty(),
        shards: 1,
    }
}

/// What the lines of `INFO` say; a later line wins over an earlier one.
pub open spec fn info_lines(lines: Seq<Seq<char>>) -> ObservationModel
    decreases lines.len(),
{
    if lines.len() == 0 {
        no_info()
    } else {
        info_line(info_lines(lines.drop_last()), lines.last())
    }
}

/// What the lines of `INFO` say of a node. Only a master has a list of replicas.
pub open spec fn info_of(lines: Seq<Seq<char>>) -> ObservationModel {
    let o = info_lines(lines);
    match o.role {
        NodeRole::Master => o,
        NodeRole::Replica => ObservationModel { slaves: Seq::empty(), ..o },
    }
}

/// Reads the server and replication facts out of `INFO`. Unknown lines are ignored.
pub fn parse_info_replication(info: &str) -> (r: NodeObservation)
    ensures
        r@ == info_of(lines_of(info@)),
{
    let chars = chars_of(info);
    let ls = lines(chars.as_slice());
    let ghost all = pieces(ls@);
    let mut role: NodeRole = NodeRole::Master;
    let mut version: String = String::new();
    let mut link: LinkStatus = LinkStatus::Down;
    let mut slaves: Vec<SlaveEntry> = Vec::new();
    let mut shards: usize = 1;
    assert(slave_views(slaves@) =~= Seq::<SlaveModel>::empty());
    for i in 0..ls.len()
        invariant
            all == pieces(ls@),
            role == info_lines(all.take(i as int)).role,
            version@ == info_lines(all.take(i as int)).version,
            link == info_lines(all.take(i as int)).link,
            slave_views(slaves@) == info_lines(all.take(i as int)).slaves,
            shards as int == info_lines(all.take(i as int)).shards,
    {
        assert(all.take(i as int + 1).drop_last() =~= all.take(i as int));
        assert(all.take(i as int + 1).last() == ls@[i as int]@);
        let line = cut_crs(ls[i]);
        if let Some(v) = cut_lit(line, "role:") {
            role =
            if is_text(trim(v), "replica") {
                NodeRole::Replica
            } else {
                NodeRole::Master
            };
        } else if let Some(v) = cut_lit(line, "ironcache_version:") {
            version = string_of(trim(v));
        } else if let Some(v) = cut_lit(line, "master_link_status:") {
            link =
            if is_text(trim(v), "up") {
                LinkStatus::Up
            } else {
                LinkStatus::Down
            };
        } else if let Some(v) = cut_lit(line, "io_threads_active:") {
            if let Some(n) = parse_unsigned(trim(v), usize::MAX as u64) {
                shards =
                if n == 0 {
                    1
                } else {
                    n as usize
                };
            }
        } else if let Some(body) = strip_slave_prefix(line) {
            if let Some(e) = parse_slave_line(body) {
                let ghost before = slave_views(slaves@);
                slaves.push(e);
                assert(slave_views(slaves@) =~= before.push(e@));
            }
        }
    }
    assert(all.take(ls@.len() as int) =~= all);
    match role {
        NodeRole::Master => {},
        NodeRole::Replica => {
            slaves = Vec::new();
            assert(slave_views(slaves@) =~= Seq::<SlaveModel>::empty());
        },
    }
    NodeObservation { role, version, link, slaves, shards }
}

/// What one line of `CLUSTER INFO` adds to the quorum signal.
pub open spec fn quorum_line(q: QuorumObservation, raw: Seq<char>) -> QuorumObservation {
    let line = without_crs(raw);
    match after_prefix(line, "cluster_state:"@) {
        Some(v) => QuorumObservation { state_ok: trimmed(v) == "ok"@, ..q },
        None => match after_prefix(line, "cluster_raft_leader:"@) {
            Some(v) => QuorumObservation {
                raft_leader_present: trimmed(v).len() > 0 && trimmed(v) != "none"@,
                ..q
            },
            None => q,
        },
    }
}

/// What the lines of `CLUSTER INFO` say of the quorum.
pub open spec fn quorum_of(lines: Seq<Seq<char>>) -> QuorumObservation
    decreases lines.len(),
{
    if lines.len() == 0 {
        QuorumObservation { state_ok: false, raft_leader_present: false }
    } else {
        quorum_line(quorum_of(lines.drop_last()), lines.last())
    }
}

/// Reads the quorum signal out of `CLUSTER INFO`: the state, and whether a leader is
/// named that is not `none`.
pub fn parse_cluster_info(info: &str) -> (r: QuorumObservation)
    ensures
        r == quorum_of(lines_of(info@)),
{
    let chars = chars_of(info);
    let ls = lines(chars.as_slice());
    let ghost all = pieces(ls@);
    let mut q = QuorumObservation { state_ok: false, raft_leader_present: false };
    for i in 0..ls.len()
        invariant
            all == pieces(ls@),
            q == quorum_of(all.take(i as int)),
    {
        assert(all.take(i as int + 1).drop_last() =~= all.take(i as int));
        assert(all.take(i as int + 1).last() == ls@[i as int]@);
        let line = cut_crs(ls[i]);
        if let Some(v) = cut_lit(line, "cluster_state:") {
            q.state_ok = is_text(trim(v), "ok");
        } else if let Some(v) = cut_lit(line, "cluster_raft_leader:") {
            let t = trim(v);
            q.raft_leader_present = t.len() > 0 && !is_text(t, "none");
        }
    }
    assert(all.take(ls@.len() as int) =~= all);
    q
}

/// The host and port of an address: the last colon splits them.
pub open spec fn host_port(addr: Seq<char>) -> Option<(Seq<char>, nat)> {
    let k = last_at(addr, ':');
    if k < 0 {
        None
    } else {
        match unsigned_of(addr.skip(k + 1), u16::MAX as nat) {
            Some(p) => Some((addr.take(k), p)),
            None => None,
        }
    }
}

/// Splits an address into host and port.
pub fn split_host_port(addr: &str) -> (r: Option<(&str, u16)>)
    ensures
        match r {
            Some((h, p)) => host_port(addr@) == Some((h@, p as nat)),
            None => host_port(addr@) is None,
        },
{
    let chars = chars_of(addr);
    match rfind_char(chars.as_slice(), ':') {
        None => None,
        Some(k) => {
            let n: usize = chars.len();
            let tail = slice_subrange(chars.as_slice(), k + 1, n);
            assert(tail@ =~= addr@.skip(k as int + 1));
            match parse_unsigned(tail, u16::MAX as u64) {
                None => None,
                Some(p) => {
                    let host = addr.substring_char(0, k);
                    assert(host@ =~= addr@.take(k as int));
                    Some((host, p as u16))
                },
            }
        },
    }
}

/// Where the entry of the replica at host `h` and port `p` first stands; the number
/// of entries where there is none.
pub open spec fn slave_at(slaves: Seq<SlaveModel>, h: Seq<char>, p: int) -> int
    decreases slaves.len(),
{
    if slaves.len() == 0 || (slaves[0].host == h && slaves[0].port == p) {
        0
    } else {
        1 + slave_at(slaves.drop_first(), h, p)
    }
}

/// The lag that a master lists for the replica at `addr`.
pub open spec fn lag_of(slaves: Seq<SlaveModel>, addr: Seq<char>) -> Option<int> {
    match host_port(addr) {
        None => None,
        Some((h, p)) => {
            let k = slave_at(slaves, h, p as int);
            if k < slaves.len() {
                Some(slaves[k].lag)
            } else {
                None
            }
        },
    }
}

/// The lag that a master lists for the replica at `replica_resp_addr`; `None` where
/// it does not list the replica.
pub fn slave_lag_for(slaves: &[SlaveEntry], replica_resp_addr: &str) -> (r: Option<u64>)
    ensures
        match r {
            Some(n) => lag_of(slave_views(slaves@), replica_resp_addr@) == Some(n as int),
            None => lag_of(slave_views(slaves@), replica_resp_addr@) is None,
        },
        r matches Some(n) ==> exists|i: int|
            0 <= i < slaves@.len() && (#[trigger] slaves@[i]).lag == n && host_port(
                replica_resp_addr@,
            ) == Some((slaves@[i].host@, slaves@[i].port as nat)),
        r is None ==> forall|i: int|
            0 <= i < slaves@.len() ==> host_port(replica_resp_addr@) != Some(
                ((#[trigger] slaves@[i]).host@, slaves@[i].port as nat),
            ),
{
    match split_host_port(replica_resp_addr) {
        None => None,
        Some((host, port)) => {
            let ghost all = slave_views(slaves@);
            assert(all.skip(0) =~= all);
            for i in 0..slaves.len()
                invariant
                    all == slave_views(slaves@),
                    slave_at(all, host@, port as int) == i + slave_at(
                        all.skip(i as int),
                        host@,
                        port as int,
                    ),
                    host_port(replica_resp_addr@) == Some((host@, port as nat)),
                    forall|j: int|
                        0 <= j < i ==> !((#[trigger] slaves@[j]).host@ == host@ && slaves@[j].port
                            == port),
            {
                assert(all.skip(i as int)[0] == slaves@[i as int]@);
                if same_str(slaves[i].host.as_str(), host) && slaves[i].port == port {
                    return Some(slaves[i].lag);
                }
                assert(all.skip(i as int).drop_first() =~= all.skip(i as int + 1));
            }
            assert(all.skip(slaves@.len() as int).len() == 0);
            None
        },
    }
}

/// A version is compared without white space around it, without a `v` before its first
/// digit, and without build metadata.
pub proof fn law_versions_compare_by_their_core(
    core: Seq<char>,
    meta: Seq<char>,
    c: char,
    raw: Seq<char>,
)
    requires
        core.len() > 0,
        '0' <= core[0] <= '9',
        !is_space(core.last()),
        !core.contains('+'),
        meta.len() == 0 || !is_space(meta.last()),
        is_space(c),
    ensures
        normalized(core) == core,
        normalized(seq!['v'] + core) == core,
        normalized(seq!['V'] + core) == core,
        normalized(core + seq!['+'] + meta) == core,
        normalized(seq!['v'] + core + seq!['+'] + meta) == core,
        normalized(seq![c] + raw) == normalized(raw),
{
    lemma_core(core, core);
    assert(core.take(core.len() as int) =~= core);
    let all = core + seq!['+'] + meta;
    assert(all.take(core.len() as int) =~= core);
    assert(all[core.len() as int] == '+');
    lemma_core(core, all);
    assert((seq!['v'] + core).drop_first() =~= core);
    assert((seq!['V'] + core).drop_first() =~= core);
    assert((seq!['v'] + all).drop_first() =~= all);
    assert(seq!['v'] + core + seq!['+'] + meta =~= seq!['v'] + all);
    assert((seq![c] + raw).drop_first() =~= raw);
}

proof fn lemma_core(core: Seq<char>, all: Seq<char>)
    requires
        core.len() > 0,
        '0' <= core[0] <= '9',
        !is_space(core.last()),
        !core.contains('+'),
        core.len() <= all.len(),
        all.take(core.len() as int) == core,
        !is_space(all.last()),
        core.len() < all.len() ==> all[core.len() as int] == '+',
    ensures
        trimmed(all) == all,
        without_tag(all) == all,
        all.take(first_at(all, '+')) == core,
        trimmed(core) == core,
{
    assert(core[0] == all[0]);
    assert forall|j: int| 0 <= j < core.len() implies all[j] != '+' by {
        assert(core[j] == all[j]);
        assert(core.contains(core[j]));
    }
    lemma_first_at_is(all, '+', core.len() as int);
}

/// An address is its host, a colon and its port; the last colon counts.
pub proof fn law_address_is_host_and_port(addr: Seq<char>, h: Seq<char>, p: nat)
    requires
        p <= u16::MAX,
    ensures
        host_port(h + seq![':'] + decimal(p)) == Some((h, p)),
        !addr.contains(':') ==> host_port(addr) is None,
        host_port(addr) matches Some((host, port)) ==> {
            let tail = addr.skip(host.len() as int + 1);
            &&& addr == host + seq![':'] + tail
            &&& !tail.contains(':')
            &&& unsigned_of(tail, u16::MAX as nat) == Some(port)
        },
{
    let s = h + seq![':'] + decimal(p);
    law_last_at(s, ':');
    lemma_decimal_value(p);
    assert(s[h.len() as int] == ':');
    assert forall|j: int| h.len() < j < s.len() implies s[j] != ':' by {
        assert(is_digit(decimal(p)[j - h.len() - 1]));
    }
    assert(last_at(s, ':') == h.len());
    assert(s.take(h.len() as int) =~= h);
    assert(s.skip(h.len() as int + 1) =~= decimal(p));
    lemma_decimal_round_trip(p, u16::MAX as nat);
    law_last_at(addr, ':');
    let k = last_at(addr, ':');
    if !addr.contains(':') {
        assert(k < 0);
    }
    if host_port(addr) is Some {
        let tail = addr.skip(k + 1);
        assert(addr =~= addr.take(k) + seq![':'] + tail);
        if tail.contains(':') {
            let j = choose|j: int| 0 <= j < tail.len() && tail[j] == ':';
            assert(addr[k + 1 + j] == ':');
        }
    }
}

/// The lag of a replica is the one that its master lists for the host and the port of
/// the replica, in the first entry that has both; there is none where no entry has both.
pub proof fn law_lag_is_that_of_the_replica(
    slaves: Seq<SlaveModel>,
    addr: Seq<char>,
    h: Seq<char>,
    p: nat,
)
    requires
        host_port(addr) == Some((h, p)),
    ensures
        match lag_of(slaves, addr) {
            Some(n) => exists|i: int|
                {
                    &&& 0 <= i < slaves.len()
                    &&& (#[trigger] slaves[i]).host == h
                    &&& slaves[i].port == p
                    &&& slaves[i].lag == n
                    &&& forall|j: int|
                        0 <= j < i ==> !((#[trigger] slaves[j]).host == h && slaves[j].port == p)
                },
            None => forall|i: int|
                0 <= i < slaves.len() ==> !((#[trigger] slaves[i]).host == h && slaves[i].port
                    == p),
        },
{
    lemma_slave_at(slaves, h, p as int);
}

proof fn lemma_slave_at(slaves: Seq<SlaveModel>, h: Seq<char>, p: int)
    ensures
        0 <= slave_at(slaves, h, p) <= slaves.len(),
        forall|j: int|
            0 <= j < slave_at(slaves, h, p) ==> !((#[trigger] slaves[j]).host == h && slaves[j].port
                == p),
        slave_at(slaves, h, p) < slaves.len() ==> slaves[slave_at(slaves, h, p)].host == h
            && slaves[slave_at(slaves, h, p)].port == p,
    decreases slaves.len(),
{
    if slaves.len() > 0 && !(slaves[0].host == h && slaves[0].port == p) {
        let rest = slaves.drop_first();
        lemma_slave_at(rest, h, p);
        assert forall|j: int| 0 <= j < slave_at(slaves, h, p) implies !((
        #[trigger] slaves[j]).host == h && slaves[j].port == p) by {
            if j > 0 {
                assert(rest[j - 1] == slaves[j]);
            }
        }
    }
}

proof fn lemma_other_prefix(s: Seq<char>, p: Seq<char>, i: int)
    requires
        0 <= i < p.len(),
        i < s.len(),
        s[i] != p[i],
    ensures
        after_prefix(s, p) is None,
{
    if p.len() <= s.len() {
        assert(s.take(p.len() as int)[i] == s[i]);
    }
}

/// A pair of a replica's line: the key, an equals sign and the value.
proof fn lemma_pair(f: SlaveFields, key: Seq<char>, value: Seq<char>)
    requires
        !key.contains('='),
        trimmed(key) == key,
        trimmed(value) == value,
    ensures
        slave_field(f, key + seq!['='] + value) == (if key == "ip"@ {
            SlaveFields { host: Some(value), ..f }
        } else if key == "port"@ {
            match unsigned_of(value, u16::MAX as nat) {
                Some(n) => SlaveFields { port: Some(n), ..f },
                None => f,
            }
        } else if key == "lag"@ {
            match unsigned_of(value, u64::MAX as nat) {
                Some(n) => SlaveFields { lag: Some(n), ..f },
                None => f,
            }
        } else {
            f
        }),
{
    let kv = key + seq!['='] + value;
    let n = key.len() as int;
    assert forall|j: int| 0 <= j < n implies kv[j] != '=' by {
        assert(kv[j] == key[j]);
        assert(key.contains(key[j]));
    }
    assert(kv[n] == '=');
    lemma_first_at_is(kv, '=', n);
    assert(kv.take(n) =~= key);
    assert(kv.skip(n + 1) =~= value);
}

/// What a master writes of a replica is read back: its host, its port and its lag, with
/// any other pair between them.
pub proof fn law_slave_line_round_trip(
    host: Seq<char>,
    port: nat,
    lag: nat,
    key: Seq<char>,
    value: Seq<char>,
)
    requires
        !host.contains(','),
        trimmed(host) == host,
        port <= u16::MAX,
        lag <= u64::MAX,
        !key.contains('='),
        !key.contains(','),
        trimmed(key) == key,
        !value.contains(','),
        trimmed(value) == value,
        key != "ip"@,
        key != "port"@,
        key != "lag"@,
    ensures
        slave_of(
            (seq!['i', 'p', '='] + host) + seq![','] + ((seq!['p', 'o', 'r', 't', '='] + decimal(
                port,
            )) + seq![','] + ((key + seq!['='] + value) + seq![','] + (seq!['l', 'a', 'g', '=']
                + decimal(lag)))),
        ) == Some(SlaveModel { host, port: port as int, lag: lag as int }),
{
    reveal_strlit("ip");
    reveal_strlit("port");
    reveal_strlit("lag");
    let a = seq!['i', 'p'] + seq!['='] + host;
    let b = seq!['p', 'o', 'r', 't'] + seq!['='] + decimal(port);
    let x = key + seq!['='] + value;
    let c = seq!['l', 'a', 'g'] + seq!['='] + decimal(lag);
    assert(a =~= seq!['i', 'p', '='] + host);
    assert(b =~= seq!['p', 'o', 'r', 't', '='] + decimal(port));
    assert(c =~= seq!['l', 'a', 'g', '='] + decimal(lag));
    let xc = x + seq![','] + c;
    let bxc = b + seq![','] + xc;
    let all = a + seq![','] + bxc;
    lemma_decimal_value(port);
    lemma_decimal_value(lag);
    lemma_decimal_round_trip(port, u16::MAX as nat);
    lemma_decimal_round_trip(lag, u64::MAX as nat);
    assert(is_digit(decimal(port)[0]) && is_digit(decimal(port)[decimal(port).len() - 1]));
    assert(is_digit(decimal(lag)[0]) && is_digit(decimal(lag)[decimal(lag).len() - 1]));
    assert forall|j: int| 0 <= j < a.len() implies a[j] != ',' by {
        if j >= 3 {
            assert(host.contains(host[j - 3]));
        }
    }
    assert forall|j: int| 0 <= j < b.len() implies b[j] != ',' by {
        if j >= 5 {
            assert(is_digit(decimal(port)[j - 5]));
        }
    }
    assert forall|j: int| 0 <= j < c.len() implies c[j] != ',' by {
        if j >= 4 {
            assert(is_digit(decimal(lag)[j - 4]));
        }
    }
    assert forall|j: int| 0 <= j < x.len() implies x[j] != ',' by {
        if j < key.len() {
            assert(key.contains(key[j]));
        } else if j > key.len() {
            assert(value.contains(value[j - key.len() - 1]));
        }
    }
    law_split_at_every_separator(a, bxc, ',');
    law_split_at_every_separator(b, xc, ',');
    law_split_at_every_separator(x, c, ',');
    law_split_at_every_separator(c, c, ',');
    let kvs = seq![a, b, x, c];
    assert(split_on(all, ',') =~= kvs);
    let none = SlaveFields { host: None, port: None, lag: None };
    assert("ip"@ =~= seq!['i', 'p']);
    assert("port"@ =~= seq!['p', 'o', 'r', 't']);
    assert("lag"@ =~= seq!['l', 'a', 'g']);
    assert("ip"@.len() != "port"@.len() && "ip"@.len() != "lag"@.len() && "port"@.len()
        != "lag"@.len());
    assert(kvs.drop_last() =~= seq![a, b, x]);
    assert(seq![a, b, x].drop_last() =~= seq![a, b]);
    assert(seq![a, b].drop_last() =~= seq![a]);
    assert(seq![a].drop_last() =~= Seq::<Seq<char>>::empty());
    assert(slave_fields(Seq::<Seq<char>>::empty()) == none);
    lemma_pair(none, seq!['i', 'p'], host);
    assert(slave_fields(seq![a]) == slave_field(none, a));
    let f1 = slave_fields(seq![a]);
    lemma_pair(f1, seq!['p', 'o', 'r', 't'], decimal(port));
    assert(slave_fields(seq![a, b]) == slave_field(f1, b));
    let f2 = slave_fields(seq![a, b]);
    lemma_pair(f2, key, value);
    assert(slave_fields(seq![a, b, x]) == slave_field(f2, x));
    let f3 = slave_fields(seq![a, b, x]);
    lemma_pair(f3, seq!['l', 'a', 'g'], decimal(lag));
    assert(slave_fields(kvs) == slave_field(f3, c));
}

/// A line of `INFO` sets the one field that it names, and a line with another name sets
/// none.
pub proof fn law_info_line_sets_its_field(
    prior: Seq<Seq<char>>,
    version: Seq<char>,
    shards: nat,
    k: nat,
    body: Seq<char>,
    other: Seq<char>,
)
    requires
        trimmed(version) == version,
        0 < shards <= usize::MAX,
        body.len() > 0,
        body.last() != '\r',
        other.len() > 0,
        other.last() != '\r',
        other[0] != 'r' && other[0] != 'i' && other[0] != 'm' && other[0] != 's',
    ensures
        info_lines(prior.push("role:replica"@)) == (ObservationModel {
            role: NodeRole::Replica,
            ..info_lines(prior)
        }),
        info_lines(prior.push("role:master"@)) == (ObservationModel {
            role: NodeRole::Master,
            ..info_lines(prior)
        }),
        info_lines(prior.push("ironcache_version:"@ + version)) == (ObservationModel {
            version,
            ..info_lines(prior)
        }),
        info_lines(prior.push("master_link_status:up"@)) == (ObservationModel {
            link: LinkStatus::Up,
            ..info_lines(prior)
        }),
        info_lines(prior.push("master_link_status:down"@)) == (ObservationModel {
            link: LinkStatus::Down,
            ..info_lines(prior)
        }),
        info_lines(prior.push("io_threads_active:"@ + decimal(shards))) == (ObservationModel {
            shards: shards as int,
            ..info_lines(prior)
        }),
        info_lines(prior.push("slave"@ + decimal(k) + seq![':'] + body)) == (match slave_of(body) {
            Some(e) => ObservationModel {
                slaves: info_lines(prior).slaves.push(e),
                ..info_lines(prior)
            },
            None => info_lines(prior),
        }),
        info_lines(prior.push(other)) == info_lines(prior),
{
    reveal_strlit("role:");
    reveal_strlit("role:replica");
    reveal_strlit("role:master");
    reveal_strlit("replica");
    reveal_strlit("master");
    reveal_strlit("ironcache_version:");
    reveal_strlit("master_link_status:");
    reveal_strlit("master_link_status:up");
    reveal_strlit("master_link_status:down");
    reveal_strlit("up");
    reveal_strlit("down");
    reveal_strlit("io_threads_active:");
    reveal_strlit("slave");
    let l1 = "role:replica"@;
    let l2 = "role:master"@;
    let l3 = "ironcache_version:"@ + version;
    let l4 = "master_link_status:up"@;
    let l5 = "master_link_status:down"@;
    let l6 = "io_threads_active:"@ + decimal(shards);
    let l7 = "slave"@ + decimal(k) + seq![':'] + body;
    assert(prior.push(l1).drop_last() =~= prior);
    assert(prior.push(l2).drop_last() =~= prior);
    assert(prior.push(l3).drop_last() =~= prior);
    assert(prior.push(l4).drop_last() =~= prior);
    assert(prior.push(l5).drop_last() =~= prior);
    assert(prior.push(l6).drop_last() =~= prior);
    assert(prior.push(l7).drop_last() =~= prior);
    assert(prior.push(other).drop_last() =~= prior);
    // The role.
    assert(l1 =~= "role:"@ + "replica"@);
    assert(l2 =~= "role:"@ + "master"@);
    law_prefix_is_cut_off(l1, "role:"@, "replica"@);
    law_prefix_is_cut_off(l2, "role:"@, "master"@);
    assert(trimmed("replica"@) == "replica"@);
    assert(trimmed("master"@) == "master"@);
    assert("master"@.len() != "replica"@.len());
    // The version.
    lemma_other_prefix(l3, "role:"@, 0);
    law_prefix_is_cut_off(l3, "ironcache_version:"@, version);
    lemma_trimmed_fixed(version);
    assert(version.len() > 0 ==> !is_space(version.last()));
    assert(l3.last() != '\r');
    // The link.
    lemma_other_prefix(l4, "role:"@, 0);
    lemma_other_prefix(l4, "ironcache_version:"@, 0);
    lemma_other_prefix(l5, "role:"@, 0);
    lemma_other_prefix(l5, "ironcache_version:"@, 0);
    assert(l4 =~= "master_link_status:"@ + "up"@);
    assert(l5 =~= "master_link_status:"@ + "down"@);
    law_prefix_is_cut_off(l4, "master_link_status:"@, "up"@);
    law_prefix_is_cut_off(l5, "master_link_status:"@, "down"@);
    assert(trimmed("up"@) == "up"@);
    assert(trimmed("down"@) == "down"@);
    assert("up"@.len() != "down"@.len());
    // The shards.
    lemma_decimal_value(shards);
    lemma_decimal_round_trip(shards, usize::MAX as nat);
    assert(is_digit(decimal(shards)[0]) && is_digit(decimal(shards)[decimal(shards).len() - 1]));
    assert(trimmed(decimal(shards)) == decimal(shards));
    lemma_other_prefix(l6, "role:"@, 0);
    lemma_other_prefix(l6, "ironcache_version:"@, 1);
    lemma_other_prefix(l6, "master_link_status:"@, 0);
    law_prefix_is_cut_off(l6, "io_threads_active:"@, decimal(shards));
    // A replica.
    lemma_other_prefix(l7, "role:"@, 0);
    lemma_other_prefix(l7, "ironcache_version:"@, 0);
    lemma_other_prefix(l7, "master_link_status:"@, 0);
    lemma_other_prefix(l7, "io_threads_active:"@, 0);
    let rest = decimal(k) + seq![':'] + body;
    assert(l7 =~= "slave"@ + rest);
    law_prefix_is_cut_off(l7, "slave"@, rest);
    lemma_decimal_value(k);
    let n = decimal(k).len() as int;
    assert forall|j: int| 0 <= j < n implies rest[j] != ':' by {
        assert(rest[j] == decimal(k)[j]);
        assert(is_digit(decimal(k)[j]));
    }
    assert(rest[n] == ':');
    lemma_first_at_is(rest, ':', n);
    assert(rest.take(n) =~= decimal(k));
    assert(rest.skip(n + 1) =~= body);
    // Any other line.
    lemma_other_prefix(other, "role:"@, 0);
    lemma_other_prefix(other, "ironcache_version:"@, 0);
    lemma_other_prefix(other, "master_link_status:"@, 0);
    lemma_other_prefix(other, "io_threads_active:"@, 0);
    lemma_other_prefix(other, "slave"@, 0);
}

/// A node of which nothing is said is a master without a version and without replicas,
/// detached, with one shard; a replica has no replicas of its own, a master has all that
/// its lines list.
pub proof fn law_info_of_a_node(lines: Seq<Seq<char>>)
    ensures
        info_of(Seq::empty()).role == NodeRole::Master,
        info_of(Seq::empty()).version.len() == 0,
        info_of(Seq::empty()).link == LinkStatus::Down,
        info_of(Seq::empty()).slaves.len() == 0,
        info_of(Seq::empty()).shards == 1,
        info_of(lines).role == info_lines(lines).role,
        info_of(lines).version == info_lines(lines).version,
        info_of(lines).link == info_lines(lines).link,
        info_of(lines).shards == info_lines(lines).shards,
        info_of(lines).shards >= 1,
        info_of(lines).role == NodeRole::Replica ==> info_of(lines).slaves.len() == 0,
        info_of(lines).role == NodeRole::Master ==> info_of(lines).slaves == info_lines(
            lines,
        ).slaves,
    decreases lines.len(),
{
    if lines.len() > 0 {
        law_info_of_a_node(lines.drop_last());
    }
}

/// The quorum signal: the cluster is in order where the last line on its state says
/// `ok`, and it has a leader where the last line on it names one.
pub proof fn law_quorum_lines(prior: Seq<Seq<char>>, state: Seq<char>, leader: Seq<char>)
    requires
        trimmed(state) == state,
        trimmed(leader) == leader,
    ensures
        !quorum_of(Seq::empty()).state_ok,
        !quorum_of(Seq::empty()).raft_leader_present,
        quorum_of(prior.push("cluster_state:"@ + state)).state_ok == (state == seq!['o', 'k']),
        quorum_of(prior.push("cluster_state:"@ + state)).raft_leader_present == quorum_of(
            prior,
        ).raft_leader_present,
        quorum_of(prior.push("cluster_raft_leader:"@ + leader)).raft_leader_present == (
        leader.len() > 0 && leader != seq!['n', 'o', 'n', 'e']),
        quorum_of(prior.push("cluster_raft_leader:"@ + leader)).state_ok == quorum_of(
            prior,
        ).state_ok,
{
    reveal_strlit("cluster_state:");
    reveal_strlit("cluster_raft_leader:");
    reveal_strlit("ok");
    reveal_strlit("none");
    let a = "cluster_state:"@ + state;
    let b = "cluster_raft_leader:"@ + leader;
    assert(prior.push(a).drop_last() =~= prior);
    assert(prior.push(b).drop_last() =~= prior);
    assert("ok"@ =~= seq!['o', 'k']);
    assert("none"@ =~= seq!['n', 'o', 'n', 'e']);
    lemma_trimmed_fixed(state);
    lemma_trimmed_fixed(leader);
    assert(a.last() != '\r');
    assert(b.last() != '\r');
    law_prefix_is_cut_off(a, "cluster_state:"@, state);
    law_prefix_is_cut_off(b, "cluster_raft_leader:"@, leader);
    lemma_other_prefix(b, "cluster_state:"@, 8);
}

/// An observation is all that was read, and so is the entry of a replica.
pub proof fn law_view_of_an_observation(o: NodeObservation, i: int)
    ensures
        o@.role == o.role,
        o@.version == o.version@,
        o@.link == o.link,
        o@.shards == o.shards,
        o@.slaves.len() == o.slaves@.len(),
        0 <= i < o.slaves@.len() ==> o@.slaves[i].host == o.slaves@[i].host@ && o@.slaves[i].port
            == o.slaves@[i].port && o@.slaves[i].lag == o.slaves@[i].lag,
        slave_views(o.slaves@) == o@.slaves,
{
}

} // verus!
