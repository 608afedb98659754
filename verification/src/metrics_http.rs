//! The operations endpoint: which request gets which response, and when the node
//! counts as ready.
use vstd::prelude::*;
use vstd::slice::slice_subrange;
use vstd::string::*;
use vstd::utf8::encode_utf8;
use crate::bytes::{bytes_text, push_bytes, text_of};
use crate::persist::PersistState;
use crate::text::{after_prefix, append_decimal, chars_of, cut_lit, decimal, find_char, first_at,
    is_digit, is_text, lemma_first_at_is, pieces, same_str, split_at_char, split_on, string_of};

verus! {

/// The most bytes of a request that are read.
pub const MAX_REQUEST_BYTES: usize = 8192;

/// The countdown of the shards that are still loading at boot.
#[derive(Debug)]
pub struct ReadyState {
    /// The shards that have not finished.
    pub load_pending: usize,
}

impl Default for ReadyState {
    fn default() -> (r: Self)
        ensures
            r.load_pending == 0,
    {
        ReadyState { load_pending: 0 }
    }
}

impl ReadyState {
    /// A node with `shards` shards, none of which has finished loading.
    pub fn with_shards(shards: usize) -> (r: Self)
        ensures
            r.load_pending == shards,
    {
        ReadyState { load_pending: shards }
    }

    /// One shard has finished loading. A call too many changes nothing.
    pub fn signal_shard_loaded(&mut self)
        ensures
            final(self).load_pending == (if old(self).load_pending == 0 {
                0
            } else {
                old(self).load_pending - 1
            }),
    {
        self.load_pending = self.load_pending.saturating_sub(1);
    }

    /// Whether every shard has finished loading.
    pub fn load_done(&self) -> (r: bool)
        ensures
            r == (self.load_pending == 0),
    {
        self.load_pending == 0
    }
}

/// The countdown after `n` more signals.
pub open spec fn after_signals(pending: nat, n: nat) -> nat
    decreases n,
{
    if n == 0 {
        pending
    } else {
        let before = after_signals(pending, (n - 1) as nat);
        if before == 0 {
            0
        } else {
            (before - 1) as nat
        }
    }
}

/// A node is ready exactly after as many signals as it has shards, and stays ready.
pub proof fn law_ready_after_every_shard(shards: nat, n: nat)
    ensures
        after_signals(shards, n) == 0 <==> n >= shards,
    decreases n,
{
    lemma_after_signals(shards, n);
}

proof fn lemma_after_signals(shards: nat, n: nat)
    ensures
        after_signals(shards, n) == (if n >= shards {
            0
        } else {
            shards - n
        }),
    decreases n,
{
    if n > 0 {
        lemma_after_signals(shards, (n - 1) as nat);
    }
}

/// What the node knows of the leader of its configuration plane.
#[derive(Debug, Clone, Copy, PartialEq, Eq, Structural)]
pub enum LeaderView {
    /// The node has no configuration plane.
    NotGoverned,
    /// No leader is recognized.
    NoLeader,
    /// A leader is recognized.
    Recognized,
}

/// What the endpoint answers from.
#[derive(Debug)]
pub struct MetricsState {
    /// The process serves.
    pub live: bool,
    /// The countdown of the loading shards.
    pub ready: ReadyState,
    /// The leader.
    pub leader: LeaderView,
    /// The exposition of the counters.
    pub metrics: Vec<u8>,
    /// The topology, in JSON.
    pub topology: Vec<u8>,
}

/// What the configuration plane adds to the gauges.
#[derive(Debug, Clone, Copy, PartialEq, Eq, Structural)]
pub struct RaftGauges {
    /// Whether this node leads.
    pub is_leader: bool,
    /// The term.
    pub current_term: u64,
    /// The last entry that is committed.
    pub commit_index: u64,
    /// The number of voters.
    pub voters: u64,
}

/// The gauges of the process.
#[derive(Debug, Clone, Copy, PartialEq, Eq, Structural)]
pub struct MetricsGauges {
    /// For how many seconds the process has run.
    pub uptime_secs: u64,
    /// The number of shards.
    pub shards: usize,
    /// The memory in use.
    pub used_memory: u64,
    /// The memory that the process holds.
    pub used_memory_rss: u64,
    /// The memory ceiling; zero for none.
    pub maxmemory: u64,
    /// When the last save was taken; zero for never.
    pub last_save_unix: u64,
    /// The writes since then.
    pub rdb_changes_since_save: u64,
    /// The configuration plane, where there is one.
    pub raft: Option<RaftGauges>,
}

/// Puts the gauges together. `memory` is what is in use and what is held; a node that
/// does not persist has never saved and owes nothing.
pub fn gauges(
    uptime_secs: u64,
    shards: usize,
    memory: (u64, u64),
    maxmemory: u64,
    persist: Option<&PersistState>,
    raft: Option<RaftGauges>,
) -> (r: MetricsGauges)
    ensures
        r == (MetricsGauges {
            uptime_secs,
            shards,
            used_memory: memory.0,
            used_memory_rss: memory.1,
            maxmemory,
            last_save_unix: match persist {
                Some(p) => p.stats.last_save_unix_secs,
                None => 0,
            },
            rdb_changes_since_save: match persist {
                Some(p) => p.stats.dirty,
                None => 0,
            },
            raft,
        }),
{
    let (last_save_unix, dirty): (u64, u64) = match persist {
        Some(p) => (p.last_save(), p.dirty()),
        None => (0, 0),
    };
    MetricsGauges {
        uptime_secs,
        shards,
        used_memory: memory.0,
        used_memory_rss: memory.1,
        maxmemory,
        last_save_unix,
        rdb_changes_since_save: dirty,
        raft,
    }
}

/// A response.
pub struct ResponseModel {
    /// The status code.
    pub code: u16,
    /// The reason phrase.
    pub reason: Seq<char>,
    /// The type of the body.
    pub content_type: Seq<char>,
    /// The body.
    pub body: Seq<u8>,
}

/// The header of a response.
pub open spec fn header_text(r: ResponseModel) -> Seq<char> {
    "HTTP/1.1 "@ + decimal(r.code as nat) + " "@ + r.reason + "\r\nContent-Type: "@ + r.content_type
        + "\r\nContent-Length: "@ + decimal(r.body.len()) + "\r\nConnection: close\r\n\r\n"@
}

/// A response on the wire.
pub open spec fn response_bytes(r: ResponseModel) -> Seq<u8> {
    encode_utf8(header_text(r)) + r.body
}

/// Builds a response: status line, type, length, the end of the connection, body.
pub fn http_response(code: u16, reason: &str, content_type: &str, body: &[u8]) -> (r: Vec<u8>)
    ensures
        r@ == response_bytes(
            ResponseModel { code, reason: reason@, content_type: content_type@, body: body@ },
        ),
{
    let mut h: String = "HTTP/1.1 ".to_owned();
    append_decimal(&mut h, code as u64);
    h.append(" ");
    h.append(reason);
    h.append("\r\nContent-Type: ");
    h.append(content_type);
    h.append("\r\nContent-Length: ");
    append_decimal(&mut h, body.len() as u64);
    h.append("\r\nConnection: close\r\n\r\n");
    let mut out: Vec<u8> = Vec::new();
    push_bytes(&mut out, h.as_str().as_bytes());
    push_bytes(&mut out, body);
    assert(out@ =~= encode_utf8(h@) + body@);
    out
}

/// The type of plain text.
pub open spec fn plain() -> Seq<char> {
    "text/plain; charset=utf-8"@
}

/// A path without its query.
pub open spec fn without_query(path: Seq<char>) -> Seq<char> {
    path.take(first_at(path, '?'))
}

/// Why a node is not ready, if it is not.
pub open spec fn not_ready(s: MetricsState) -> Option<Seq<char>> {
    if s.ready.load_pending != 0 {
        Some("load-on-boot incomplete"@)
    } else if s.leader is NoLeader {
        Some("raft: no leader recognized"@)
    } else {
        None
    }
}

/// The response to a request.
pub open spec fn response_to(s: MetricsState, method: Seq<char>, path: Seq<char>) -> ResponseModel {
    let p = without_query(path);
    if method != "GET"@ && method != "HEAD"@ {
        ResponseModel {
            code: 405,
            reason: "Method Not Allowed"@,
            content_type: plain(),
            body: Seq::empty(),
        }
    } else if p == "/metrics"@ {
        ResponseModel {
            code: 200,
            reason: "OK"@,
            content_type: "text/plain; version=0.0.4; charset=utf-8"@,
            body: s.metrics@,
        }
    } else if p == "/topology"@ {
        ResponseModel {
            code: 200,
            reason: "OK"@,
            content_type: "application/json; charset=utf-8"@,
            body: s.topology@,
        }
    } else if p == "/livez"@ {
        if s.live {
            ok_response()
        } else {
            unavailable(encode_utf8("starting\n"@))
        }
    } else if p == "/readyz"@ {
        match not_ready(s) {
            None => ok_response(),
            Some(reason) => unavailable(encode_utf8("not ready: "@ + reason + "\n"@)),
        }
    } else {
        ResponseModel {
            code: 404,
            reason: "Not Found"@,
            content_type: plain(),
            body: encode_utf8("not found\n"@),
        }
    }
}

/// The response of a probe that succeeds.
pub open spec fn ok_response() -> ResponseModel {
    ResponseModel {
        code: 200,
        reason: "OK"@,
        content_type: plain(),
        body: encode_utf8("OK\n"@),
    }
}

/// The response of a probe that fails.
pub open spec fn unavailable(body: Seq<u8>) -> ResponseModel {
    ResponseModel { code: 503, reason: "Service Unavailable"@, content_type: plain(), body }
}

/// The response to a request that is too large.
pub open spec fn too_large() -> ResponseModel {
    ResponseModel {
        code: 413,
        reason: "Payload Too Large"@,
        content_type: plain(),
        body: encode_utf8("request too large\n"@),
    }
}

/// What to do after more bytes of a request have come.
#[derive(Debug)]
pub enum RequestStep {
    /// Send this and close.
    Answer(Vec<u8>),
    /// Read on.
    ReadMore,
}

impl MetricsState {
    /// Why the node is not ready, if it is not: it is loading, or its configuration
    /// plane has no leader.
    pub fn readiness(&self) -> (r: Result<(), &'static str>)
        ensures
            match r {
                Ok(_) => not_ready(*self) is None,
                Err(e) => not_ready(*self) == Some(e@),
            },
    {
        if !self.ready.load_done() {
            return Err("load-on-boot incomplete");
        }
        if self.leader == LeaderView::NoLeader {
            return Err("raft: no leader recognized");
        }
        Ok(())
    }

    /// The response to a request.
    pub fn respond(&self, method: &str, path: &str) -> (r: Vec<u8>)
        ensures
            r@ == response_bytes(response_to(*self, method@, path@)),
    {
        if !same_str(method, "GET") && !same_str(method, "HEAD") {
            let none: Vec<u8> = Vec::new();
            assert(none@ =~= Seq::<u8>::empty());
            return http_response(
                405,
                "Method Not Allowed",
                "text/plain; charset=utf-8",
                none.as_slice(),
            );
        }
        let chars = chars_of(path);
        let k: usize = find_char(chars.as_slice(), '?');
        let p = slice_subrange(chars.as_slice(), 0, k);
        assert(p@ =~= without_query(path@));
        if is_text(p, "/metrics") {
            http_response(
                200,
                "OK",
                "text/plain; version=0.0.4; charset=utf-8",
                self.metrics.as_slice(),
            )
        } else if is_text(p, "/topology") {
            http_response(
                200,
                "OK",
                "application/json; charset=utf-8",
                self.topology.as_slice(),
            )
        } else if is_text(p, "/livez") {
            if self.live {
                http_response(200, "OK", "text/plain; charset=utf-8", "OK\n".as_bytes())
            } else {
                http_response(
                    503,
                    "Service Unavailable",
                    "text/plain; charset=utf-8",
                    "starting\n".as_bytes(),
                )
            }
        } else if is_text(p, "/readyz") {
            match self.readiness() {
                Ok(_) => http_response(200, "OK", "text/plain; charset=utf-8", "OK\n".as_bytes()),
                Err(reason) => {
                    let mut body: String = "not ready: ".to_owned();
                    body.append(reason);
                    body.append("\n");
                    http_response(
                        503,
                        "Service Unavailable",
                        "text/plain; charset=utf-8",
                        body.as_str().as_bytes(),
                    )
                },
            }
        } else {
            http_response(
                404,
                "Not Found",
                "text/plain; charset=utf-8",
                "not found\n".as_bytes(),
            )
        }
    }

    /// What to do after the bytes of a request so far: refuse one that is too large,
    /// answer once the request line is there, else read on.
    pub fn on_request_bytes(&self, buf: &[u8]) -> (r: RequestStep)
        ensures
            if buf@.len() > MAX_REQUEST_BYTES {
                r matches RequestStep::Answer(b) && b@ == response_bytes(too_large())
            } else {
                match request_line(buf@) {
                    Some((m, p)) => r matches RequestStep::Answer(b) && b@ == response_bytes(
                        response_to(*self, m, p),
                    ),
                    None => r is ReadMore,
                }
            },
    {
        if buf.len() > MAX_REQUEST_BYTES {
            return RequestStep::Answer(
                http_response(
                    413,
                    "Payload Too Large",
                    "text/plain; charset=utf-8",
                    "request too large\n".as_bytes(),
                ),
            );
        }
        match parse_request_line(buf) {
            Some((method, path)) => RequestStep::Answer(
                self.respond(method.as_str(), path.as_str()),
            ),
            None => RequestStep::ReadMore,
        }
    }
}

/// Whether a word names a version of the protocol: `HTTP/` and two digits around a dot.
pub open spec fn is_version(word: Seq<char>) -> bool {
    after_prefix(word, "HTTP/"@) matches Some(v) && v.len() == 3 && is_digit(v[0]) && v[1] == '.'
        && is_digit(v[2])
}

/// Whether the parts of a line are a method, a path and a version.
pub open spec fn is_request(parts: Seq<Seq<char>>) -> bool {
    parts.len() == 3 && parts[0].len() > 0 && parts[1].len() > 0 && is_version(parts[2])
}

/// The method and the path of a request, once its first line is whole: the parts of
/// the line between single spaces. A line of another shape has no method.
pub open spec fn request_line(buf: Seq<u8>) -> Option<(Seq<char>, Seq<char>)> {
    let k = first_at(buf, 10u8);
    if k >= buf.len() {
        None
    } else {
        let line = if k > 0 && buf[k - 1] == 13 {
            buf.take(k - 1)
        } else {
            buf.take(k)
        };
        let parts = split_on(bytes_text(line), ' ');
        Some(
            (
                if is_request(parts) {
                    parts[0]
                } else {
                    Seq::empty()
                },
                if parts.len() > 1 {
                    parts[1]
                } else {
                    Seq::empty()
                },
            ),
        )
    }
}

fn names_version(word: &[char]) -> (r: bool)
    ensures
        r == is_version(word@),
{
    match cut_lit(word, "HTTP/") {
        Some(v) => v.len() == 3 && '0' <= v[0] && v[0] <= '9' && v[1] == '.' && '0' <= v[2] && v[2]
            <= '9',
        None => false,
    }
}

/// A text has at least one piece.
proof fn lemma_split_nonempty(s: Seq<char>, c: char)
    ensures
        split_on(s, c).len() >= 1,
{
    crate::text::lemma_first_at(s, c);
}

/// Reads the method and the path; `None` while the first line is not whole.
pub fn parse_request_line(buf: &[u8]) -> (r: Option<(String, String)>)
    ensures
        match r {
            Some((m, p)) => request_line(buf@) == Some((m@, p@)),
            None => request_line(buf@) is None,
        },
{
    let mut k: usize = 0;
    while k < buf.len() && buf[k] != 10
        invariant
            k <= buf@.len(),
            forall|j: int| 0 <= j < k ==> buf@[j] != 10,
        decreases buf@.len() - k,
    {
        k = k + 1;
    }
    proof {
        lemma_first_at_is(buf@, 10u8, k as int);
    }
    if k >= buf.len() {
        return None;
    }
    let end: usize = if k > 0 && buf[k - 1] == 13 {
        k - 1
    } else {
        k
    };
    let line = slice_subrange(buf, 0, end);
    assert(line@ =~= buf@.take(end as int));
    let text = text_of(line);
    let chars = chars_of(text.as_str());
    let parts = split_at_char(chars.as_slice(), ' ');
    proof {
        lemma_split_nonempty(text@, ' ');
        assert(pieces(parts@).len() == parts@.len());
        assert(pieces(parts@)[0] == parts@[0]@);
    }
    proof {
        assert forall|j: int| 0 <= j < parts@.len() implies #[trigger] pieces(parts@)[j]
            == parts@[j]@ by {}
    }
    let method: String = if parts.len() == 3 && parts[0].len() > 0 && parts[1].len() > 0
        && names_version(parts[2]) {
        string_of(parts[0])
    } else {
        String::new()
    };
    let path: String = if parts.len() > 1 {
        assert(pieces(parts@)[1] == parts@[1]@);
        string_of(parts[1])
    } else {
        String::new()
    };
    Some((method, path))
}

/// The readiness probe succeeds only where every shard has loaded and, on a governed
/// node, a leader is recognized.
pub proof fn law_readyz(s: MetricsState)
    ensures
        response_to(s, "GET"@, "/readyz"@).code == 200 <==> s.ready.load_pending == 0 && !(
        s.leader is NoLeader),
        response_to(s, "GET"@, "/readyz"@).code == 200 || response_to(
            s,
            "GET"@,
            "/readyz"@,
        ).code == 503,
{
    reveal_strlit("/readyz");
    reveal_strlit("/metrics");
    reveal_strlit("/topology");
    reveal_strlit("/livez");
    let p = "/readyz"@;
    assert forall|j: int| 0 <= j < p.len() implies p[j] != '?' by {}
    lemma_first_at_is(p, '?', p.len() as int);
    assert(without_query(p) =~= p);
    assert("/metrics"@.len() != p.len());
    assert("/topology"@.len() != p.len());
    assert("/livez"@.len() != p.len());
}

/// A query does not count, and `HEAD` is answered as `GET`; any other method is refused.
pub proof fn law_requests_go_by_path(
    s: MetricsState,
    path: Seq<char>,
    query: Seq<char>,
    method: Seq<char>,
)
    requires
        !path.contains('?'),
    ensures
        response_to(s, method, path + seq!['?'] + query) == response_to(s, method, path),
        response_to(s, "HEAD"@, path) == response_to(s, "GET"@, path),
        method != "GET"@ && method != "HEAD"@ ==> response_to(s, method, path).code == 405
            && response_to(s, method, path).body.len() == 0,
{
    let full = path + seq!['?'] + query;
    assert forall|j: int| 0 <= j < path.len() implies full[j] != '?' && path[j] != '?' by {
        assert(full[j] == path[j]);
        assert(path.contains(path[j]));
    }
    assert(full[path.len() as int] == '?');
    lemma_first_at_is(full, '?', path.len() as int);
    lemma_first_at_is(path, '?', path.len() as int);
    assert(full.take(path.len() as int) =~= path);
    assert(path.take(path.len() as int) =~= path);
}

/// What each path is answered with: the figures, the topology, whether the process is up,
/// whether it is ready, and otherwise that there is nothing there.
pub proof fn law_what_each_path_answers(s: MetricsState, path: Seq<char>)
    requires
        !path.contains('?'),
    ensures
        path == "/metrics"@ ==> response_to(s, "GET"@, path).code == 200 && response_to(
            s,
            "GET"@,
            path,
        ).body == s.metrics@,
        path == "/topology"@ ==> response_to(s, "GET"@, path).code == 200 && response_to(
            s,
            "GET"@,
            path,
        ).body == s.topology@,
        path == "/livez"@ ==> response_to(s, "GET"@, path).code == (if s.live {
            200u16
        } else {
            503u16
        }),
        path == "/readyz"@ ==> response_to(s, "GET"@, path).code == (if s.ready.load_pending == 0
            && !(s.leader is NoLeader) {
            200u16
        } else {
            503u16
        }),
        path != "/metrics"@ && path != "/topology"@ && path != "/livez"@ && path != "/readyz"@
            ==> response_to(s, "GET"@, path).code == 404,
{
    reveal_strlit("/readyz");
    reveal_strlit("/metrics");
    reveal_strlit("/topology");
    reveal_strlit("/livez");
    assert forall|j: int| 0 <= j < path.len() implies path[j] != '?' by {
        assert(path.contains(path[j]));
    }
    lemma_first_at_is(path, '?', path.len() as int);
    assert(path.take(path.len() as int) =~= path);
    assert("/metrics"@.len() == 8 && "/topology"@.len() == 9 && "/livez"@.len() == 6
        && "/readyz"@.len() == 7);
}

/// A response ends with its body, whole, behind its header.
pub proof fn law_response_ends_with_its_body(r: ResponseModel)
    ensures
        response_bytes(r).len() == encode_utf8(header_text(r)).len() + r.body.len(),
        response_bytes(r).skip(encode_utf8(header_text(r)).len() as int) == r.body,
        response_bytes(r).take(encode_utf8(header_text(r)).len() as int) == encode_utf8(
            header_text(r),
        ),
{
    let h = encode_utf8(header_text(r));
    assert(response_bytes(r).skip(h.len() as int) =~= r.body);
    assert(response_bytes(r).take(h.len() as int) =~= h);
}

/// A request line is the method, the path and the version, one space between each two;
/// without the end of the line there is none yet.
pub proof fn law_request_line(
    method: Seq<char>,
    path: Seq<char>,
    a: char,
    b: char,
    rest: Seq<u8>,
    open: Seq<u8>,
)
    requires
        method.len() > 0,
        path.len() > 0,
        !method.contains(' '),
        !path.contains(' '),
        '0' <= a <= '9',
        '0' <= b <= '9',
        !encode_utf8(method + seq![' '] + (path + seq![' '] + ("HTTP/"@ + seq![a, '.', b]))).contains(
            10u8,
        ),
        !open.contains(10u8),
    ensures
        request_line(
            encode_utf8(method + seq![' '] + (path + seq![' '] + ("HTTP/"@ + seq![a, '.', b])))
                + seq![13u8, 10u8] + rest,
        ) == Some((method, path)),
        request_line(open) is None,
{
    reveal_strlit("HTTP/");
    let version = "HTTP/"@ + seq![a, '.', b];
    let tail = path + seq![' '] + version;
    let text = method + seq![' '] + tail;
    let line = encode_utf8(text);
    let buf = line + seq![13u8, 10u8] + rest;
    let n = line.len() as int;
    assert forall|j: int| 0 <= j < n + 1 implies buf[j] != 10u8 by {
        if j < n {
            assert(buf[j] == line[j]);
            assert(line.contains(line[j]));
        }
    }
    assert(buf[n + 1] == 10u8);
    lemma_first_at_is(buf, 10u8, n + 1);
    assert(buf[n] == 13);
    assert(buf.take(n) =~= line);
    crate::bytes::lemma_text_back(text);
    crate::text::law_split_at_every_separator(method, tail, ' ');
    crate::text::law_split_at_every_separator(path, version, ' ');
    assert forall|j: int| 0 <= j < version.len() implies version[j] != ' ' by {}
    crate::text::law_split_at_every_separator(version, version, ' ');
    let parts = seq![method, path, version];
    assert(split_on(text, ' ') =~= parts);
    crate::text::law_prefix_is_cut_off(version, "HTTP/"@, seq![a, '.', b]);
    assert(is_version(version));
    assert forall|j: int| 0 <= j < open.len() implies open[j] != 10u8 by {
        assert(open.contains(open[j]));
    }
    lemma_first_at_is(open, 10u8, open.len() as int);
}

/// A request that is too large is refused as such.
pub proof fn law_large_requests_are_refused()
    ensures
        too_large().code == 413,
        too_large().reason == "Payload Too Large"@,
        too_large().body == encode_utf8("request too large\n"@),
        MAX_REQUEST_BYTES == 8 * 1024,
{
}

/// The header of a response names its code, its reason, its type and the length of its
/// body, and says that the connection ends with it.
pub proof fn law_header_of_a_response(r: ResponseModel)
    ensures
        header_text(r) == "HTTP/1.1 "@ + decimal(r.code as nat) + " "@ + r.reason
            + "\r\nContent-Type: "@ + r.content_type + "\r\nContent-Length: "@ + decimal(
            r.body.len(),
        ) + "\r\nConnection: close\r\n\r\n"@,
{
}

} // verus!
