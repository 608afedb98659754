//! What the cluster client asks a node, and what it makes of the answers.
use vstd::prelude::*;
use vstd::string::*;
use vstd::utf8::encode_utf8;
use crate::cluster_observe::{info_of, parse_cluster_info, parse_info_replication, quorum_of,
    NodeObservation, QuorumObservation};
use crate::cluster_upgrade_driver::{ActuationTarget, ClusterUpgradeError};
use crate::resp::{acknowledgement, bulk_text, byte_views, command_bytes, encode_command,
    lemma_models, models, reply_text, says_ok, Acknowledgement, RawReply, ReplyModel};
use crate::text::{append_decimal, decimal, lines_of, lowered, quote, quoted};

verus! {

/// Bytes as `Debug` shows them, with a comma between each two.
pub open spec fn bytes_shown(b: Seq<u8>) -> Seq<char>
    decreases b.len(),
{
    if b.len() == 0 {
        Seq::empty()
    } else if b.len() == 1 {
        decimal(b[0] as nat)
    } else {
        bytes_shown(b.drop_last()) + ", "@ + decimal(b.last() as nat)
    }
}

/// A reply as `Debug` shows it.
pub open spec fn shown(m: ReplyModel) -> Seq<char>
    decreases m,
{
    match m {
        ReplyModel::Simple(s) => "Simple("@ + quoted(s) + ")"@,
        ReplyModel::Error(s) => "Error("@ + quoted(s) + ")"@,
        ReplyModel::Int => "Int"@,
        ReplyModel::Bulk(None) => "Bulk(None)"@,
        ReplyModel::Bulk(Some(b)) => "Bulk(Some(["@ + bytes_shown(b) + "]))"@,
        ReplyModel::Array(None) => "Array(None)"@,
        ReplyModel::Array(Some(v)) => "Array(Some(["@ + items_shown(v) + "]))"@,
    }
}

/// Replies as `Debug` shows them, with a comma between each two.
pub open spec fn items_shown(v: Seq<ReplyModel>) -> Seq<char>
    decreases v,
{
    if v.len() == 0 {
        Seq::empty()
    } else if v.len() == 1 {
        shown(v[0])
    } else {
        items_shown(v.drop_last()) + ", "@ + shown(v.last())
    }
}

fn show_bytes(b: &[u8]) -> (r: String)
    ensures
        r@ == bytes_shown(b@),
{
    let mut r: String = String::new();
    assert(b@.take(0) =~= Seq::<u8>::empty());
    for i in 0..b.len()
        invariant
            r@ == bytes_shown(b@.take(i as int)),
    {
        let ghost part = b@.take(i as int + 1);
        assert(part.drop_last() =~= b@.take(i as int));
        if i > 0 {
            r.append(", ");
        }
        append_decimal(&mut r, b[i] as u64);
        assert(r@ =~= bytes_shown(part));
    }
    assert(b@.take(b@.len() as int) =~= b@);
    r
}

/// Shows a reply as `Debug` does.
pub fn show_reply(reply: &RawReply) -> (r: String)
    ensures
        r@ == shown(reply.model()),
    decreases reply,
{
    let mut r: String;
    match reply {
        RawReply::Simple(s) => {
            r = "Simple(".to_owned();
            r.append(quote(s.as_str()).as_str());
            r.append(")");
        },
        RawReply::Error(s) => {
            r = "Error(".to_owned();
            r.append(quote(s.as_str()).as_str());
            r.append(")");
        },
        RawReply::Int => {
            r = "Int".to_owned();
        },
        RawReply::Bulk(None) => {
            r = "Bulk(None)".to_owned();
        },
        RawReply::Bulk(Some(b)) => {
            r = "Bulk(Some([".to_owned();
            r.append(show_bytes(b.as_slice()).as_str());
            r.append("]))");
        },
        RawReply::Array(None) => {
            r = "Array(None)".to_owned();
        },
        RawReply::Array(Some(v)) => {
            r = "Array(Some([".to_owned();
            r.append(show_items(v).as_str());
            r.append("]))");
        },
    }
    r
}

fn show_items(v: &Vec<RawReply>) -> (r: String)
    ensures
        r@ == items_shown(models(v@)),
    decreases v,
{
    let ghost ms = models(v@);
    proof {
        lemma_models(v@);
    }
    let mut r: String = String::new();
    assert(ms.take(0) =~= Seq::<ReplyModel>::empty());
    for i in 0..v.len()
        invariant
            ms.len() == v@.len(),
            forall|j: int| 0 <= j < v@.len() ==> #[trigger] ms[j] == v@[j].model(),
            r@ == items_shown(ms.take(i as int)),
    {
        let ghost part = ms.take(i as int + 1);
        assert(part.drop_last() =~= ms.take(i as int));
        assert(part.last() == ms[i as int]);
        if i > 0 {
            r.append(", ");
        }
        let item = show_reply(&v[i]);
        r.append(item.as_str());
        assert(r@ =~= items_shown(part));
    }
    assert(ms.take(v@.len() as int) =~= ms);
    r
}

/// Why a reply other than `OK` is no acknowledgement.
pub open spec fn refusal(m: ReplyModel) -> Option<Seq<char>> {
    match m {
        ReplyModel::Simple(s) => if says_ok(s) {
            None
        } else {
            Some("unexpected reply: "@ + shown(m))
        },
        ReplyModel::Error(e) => Some(e),
        _ => Some("unexpected reply: "@ + shown(m)),
    }
}

/// Why a reply is no acknowledgement, if it is none.
pub fn refused_by(reply: &RawReply) -> (r: Option<String>)
    ensures
        crate::text::opt_string(r) == refusal(reply.model()),
{
    match acknowledgement(reply) {
        Acknowledgement::Accepted => None,
        Acknowledgement::Refused(e) => Some(e),
        Acknowledgement::Unexpected => {
            let mut d: String = "unexpected reply: ".to_owned();
            d.append(show_reply(reply).as_str());
            Some(d)
        },
    }
}

/// One exchange with a node: the password where it asks for one, then the command.
#[derive(Debug)]
pub struct Exchange {
    /// Whether the answer to the password is still out.
    pub authenticating: bool,
    /// The command on the wire.
    pub command: Vec<u8>,
}

/// What to do after a reply.
#[derive(Debug)]
pub enum ExchangeStep {
    /// Send these bytes.
    Send(Vec<u8>),
    /// The exchange is over, with this reply.
    Done(RawReply),
    /// The exchange has failed.
    Fail(ClusterUpgradeError),
}

fn word(s: &str) -> (r: Vec<u8>)
    ensures
        r@ == encode_utf8(s@),
{
    crate::bytes::copy_bytes(s.as_bytes())
}

/// Begins an exchange: the bytes to send first.
pub fn resp_exchange(auth: Option<&str>, args: &[Vec<u8>]) -> (r: (Exchange, Vec<u8>))
    ensures
        r.0.authenticating == (auth is Some),
        r.0.command@ == command_bytes(byte_views(args@)),
        r.1@ == (match auth {
            Some(password) => command_bytes(
                seq![encode_utf8("AUTH"@), encode_utf8(password@)],
            ),
            None => command_bytes(byte_views(args@)),
        }),
{
    let command = encode_command(args);
    match auth {
        Some(password) => {
            let mut words: Vec<Vec<u8>> = Vec::new();
            words.push(word("AUTH"));
            words.push(word(password));
            assert(byte_views(words@) =~= seq![encode_utf8("AUTH"@), encode_utf8(password@)]);
            let first = encode_command(words.as_slice());
            (Exchange { authenticating: true, command }, first)
        },
        None => {
            let first = crate::bytes::copy_bytes(command.as_slice());
            (Exchange { authenticating: false, command }, first)
        },
    }
}

impl Exchange {
    /// Goes on after a reply: the command is sent only once the password has been
    /// accepted, and the reply to the command ends the exchange.
    pub fn on_reply(&mut self, reply: RawReply) -> (r: ExchangeStep)
        ensures
            final(self).command@ == old(self).command@,
            !final(self).authenticating,
            if !old(self).authenticating {
                r == ExchangeStep::Done(reply)
            } else {
                match refusal(reply.model()) {
                    None => r matches ExchangeStep::Send(b) && b@ == old(self).command@,
                    Some(d) => r matches ExchangeStep::Fail(e) && (
                    e matches ClusterUpgradeError::Client { op, detail } && op@ == "AUTH"@
                        && detail@ == d),
                }
            },
    {
        if !self.authenticating {
            return ExchangeStep::Done(reply);
        }
        self.authenticating = false;
        match refused_by(&reply) {
            None => ExchangeStep::Send(crate::bytes::copy_bytes(self.command.as_slice())),
            Some(detail) => ExchangeStep::Fail(
                ClusterUpgradeError::Client { op: "AUTH".to_owned(), detail },
            ),
        }
    }
}

/// The error for a node that cannot be reached; `error` is what the system said.
pub fn connect_error(resp_addr: &str, error: &str) -> (r: ClusterUpgradeError)
    ensures
        r matches ClusterUpgradeError::Client { op, detail } && op@ == "connect"@ && detail@
            == resp_addr@ + ": "@ + error@,
{
    let mut detail: String = resp_addr.to_owned();
    detail.append(": ");
    detail.append(error);
    ClusterUpgradeError::Client { op: "connect".to_owned(), detail }
}

fn one_word(a: &str) -> (r: Vec<Vec<u8>>)
    ensures
        byte_views(r@) == seq![encode_utf8(a@)],
{
    let mut r: Vec<Vec<u8>> = Vec::new();
    r.push(word(a));
    assert(byte_views(r@) =~= seq![encode_utf8(a@)]);
    r
}

fn two_words(a: &str, b: &str) -> (r: Vec<Vec<u8>>)
    ensures
        byte_views(r@) == seq![encode_utf8(a@), encode_utf8(b@)],
{
    let mut r: Vec<Vec<u8>> = Vec::new();
    r.push(word(a));
    r.push(word(b));
    assert(byte_views(r@) =~= seq![encode_utf8(a@), encode_utf8(b@)]);
    r
}

/// The command that lists the members.
pub fn members_command() -> (r: Vec<Vec<u8>>)
    ensures
        byte_views(r@) == seq![encode_utf8("CLUSTER"@), encode_utf8("SHARDS"@)],
{
    two_words("CLUSTER", "SHARDS")
}

/// The command that tells the state of a node.
pub fn node_command() -> (r: Vec<Vec<u8>>)
    ensures
        byte_views(r@) == seq![encode_utf8("INFO"@)],
{
    one_word("INFO")
}

/// The command that tells the state of the configuration plane.
pub fn quorum_command() -> (r: Vec<Vec<u8>>)
    ensures
        byte_views(r@) == seq![encode_utf8("CLUSTER"@), encode_utf8("INFO"@)],
{
    two_words("CLUSTER", "INFO")
}

/// The command that promotes a node.
pub fn failover_command() -> (r: Vec<Vec<u8>>)
    ensures
        byte_views(r@) == seq![encode_utf8("CLUSTER"@), encode_utf8("FAILOVER"@)],
{
    two_words("CLUSTER", "FAILOVER")
}

/// Whether an error says that a node could not be observed, and why.
pub open spec fn cannot_observe(
    e: ClusterUpgradeError,
    target: ActuationTarget,
    why: Seq<char>,
) -> bool {
    e matches ClusterUpgradeError::Observe { node, detail } && node@ == target.id@ && detail@ == why
}

/// What the state of a node says.
pub fn observed_node(node: &ActuationTarget, reply: &RawReply) -> (r: Result<
    NodeObservation,
    ClusterUpgradeError,
>)
    ensures
        match reply_text(reply.model()) {
            Some(text) => r matches Ok(o) && o@ == info_of(lines_of(text)),
            None => r matches Err(e) && cannot_observe(
                e,
                *node,
                "INFO did not return a bulk string"@,
            ),
        },
{
    match bulk_text(reply) {
        Some(text) => Ok(parse_info_replication(text.as_str())),
        None => Err(
            ClusterUpgradeError::Observe {
                node: node.id.clone(),
                detail: "INFO did not return a bulk string".to_owned(),
            },
        ),
    }
}

/// What the state of the configuration plane says.
pub fn observed_quorum(seed: &ActuationTarget, reply: &RawReply) -> (r: Result<
    QuorumObservation,
    ClusterUpgradeError,
>)
    ensures
        match reply_text(reply.model()) {
            Some(text) => r matches Ok(o) && o == quorum_of(lines_of(text)),
            None => r matches Err(e) && cannot_observe(
                e,
                *seed,
                "CLUSTER INFO did not return a bulk string"@,
            ),
        },
{
    match bulk_text(reply) {
        Some(text) => Ok(parse_cluster_info(text.as_str())),
        None => Err(
            ClusterUpgradeError::Observe {
                node: seed.id.clone(),
                detail: "CLUSTER INFO did not return a bulk string".to_owned(),
            },
        ),
    }
}

/// Whether a node has accepted its promotion.
pub fn failover_accepted(node: &ActuationTarget, reply: &RawReply) -> (r: Result<
    (),
    ClusterUpgradeError,
>)
    ensures
        match refusal(reply.model()) {
            None => r is Ok,
            Some(d) => r matches Err(e) && (e matches ClusterUpgradeError::Failover {
                node: id,
                detail,
            } && id@ == node.id@ && detail@ == d),
        },
{
    match refused_by(reply) {
        None => Ok(()),
        Some(detail) => Err(ClusterUpgradeError::Failover { node: node.id.clone(), detail }),
    }
}

/// A command was accepted if and only if the reply says `OK`, in any case; an error is
/// the reason itself.
pub proof fn law_only_ok_is_accepted(m: ReplyModel, e: Seq<char>)
    ensures
        refusal(m) is None <==> (m matches ReplyModel::Simple(s) && lowered(s) == seq!['o', 'k']),
        refusal(ReplyModel::Error(e)) == Some(e),
{
    reveal_strlit("ok");
    assert("ok"@ =~= seq!['o', 'k']);
}

} // verus!
