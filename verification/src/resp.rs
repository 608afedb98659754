//! RESP on the wire: commands as arrays of bulk strings, and the replies that a
//! cluster client reads.
use vstd::prelude::*;
use vstd::slice::slice_subrange;
use crate::bytes::{bytes_text, copy_bytes, decimal_bytes,
    lemma_decimal_bytes, push_bytes, push_decimal_bytes, text_of};
use crate::text::{chars_of, decimal, first_at, is_text, lemma_decimal_value, lemma_first_at,
    lemma_first_at_is, lowered, parse_signed, signed_of, to_lower, trim, trimmed};

verus! {

/// A reply, as far as the client needs it. The value of an integer is dropped.
#[derive(Debug)]
pub enum RawReply {
    /// A simple string.
    Simple(String),
    /// An error.
    Error(String),
    /// An integer.
    Int,
    /// A bulk or verbatim string, or null.
    Bulk(Option<Vec<u8>>),
    /// An array, set, push or flattened map, or a null array.
    Array(Option<Vec<RawReply>>),
}

/// The mathematical value of a reply.
pub enum ReplyModel {
    /// A simple string.
    Simple(Seq<char>),
    /// An error.
    Error(Seq<char>),
    /// An integer.
    Int,
    /// A bulk string or null.
    Bulk(Option<Seq<u8>>),
    /// An array or a null array.
    Array(Option<Seq<ReplyModel>>),
}

impl RawReply {
    /// The mathematical value of the reply.
    pub open spec fn model(self) -> ReplyModel
        decreases self,
    {
        match self {
            RawReply::Simple(s) => ReplyModel::Simple(s@),
            RawReply::Error(s) => ReplyModel::Error(s@),
            RawReply::Int => ReplyModel::Int,
            RawReply::Bulk(None) => ReplyModel::Bulk(None),
            RawReply::Bulk(Some(b)) => ReplyModel::Bulk(Some(b@)),
            RawReply::Array(None) => ReplyModel::Array(None),
            RawReply::Array(Some(v)) => ReplyModel::Array(Some(models(v@))),
        }
    }
}

/// The mathematical values of replies.
pub open spec fn models(s: Seq<RawReply>) -> Seq<ReplyModel>
    decreases s,
{
    if s.len() == 0 {
        Seq::empty()
    } else {
        models(s.drop_last()).push(s.last().model())
    }
}

/// The values of replies are the values of each of them.
pub proof fn lemma_models(s: Seq<RawReply>)
    ensures
        models(s).len() == s.len(),
        forall|i: int| 0 <= i < s.len() ==> #[trigger] models(s)[i] == s[i].model(),
    decreases s.len(),
{
    if s.len() > 0 {
        lemma_models(s.drop_last());
        assert forall|i: int| 0 <= i < s.len() implies #[trigger] models(s)[i] == s[i].model() by {
            if i < s.len() - 1 {
                assert(models(s)[i] == models(s.drop_last())[i]);
                assert(s.drop_last()[i] == s[i]);
            }
        }
    }
}

/// What can be said of the bytes behind a position.
pub enum ReadModel {
    /// A whole reply, and where it ends.
    Done(ReplyModel, int),
    /// More bytes are needed.
    More,
    /// The bytes are no reply; the detail says why.
    Fail(Seq<char>),
}

/// What can be said of a run of replies.
pub enum ItemsModel {
    /// The replies, and where they end.
    Done(Seq<ReplyModel>, int),
    /// More bytes are needed.
    More,
    /// The bytes are no reply; the detail says why.
    Fail(Seq<char>),
}

/// What reading one reply gave.
#[derive(Debug)]
pub enum ReplyRead {
    /// A whole reply, and where it ends.
    Done {
        /// The reply.
        reply: RawReply,
        /// The position behind it.
        next: usize,
    },
    /// More bytes are needed.
    More,
    /// The bytes are no reply; the detail says why.
    Fail(String),
}

impl ReplyRead {
    /// The mathematical value.
    pub open spec fn model(self) -> ReadModel {
        match self {
            ReplyRead::Done { reply, next } => ReadModel::Done(reply.model(), next as int),
            ReplyRead::More => ReadModel::More,
            ReplyRead::Fail(d) => ReadModel::Fail(d@),
        }
    }
}

/// One line of the wire.
pub enum LineModel {
    /// The bytes of the line without its end, and where the next one begins.
    Line(Seq<u8>, int),
    /// The line is not whole yet.
    More,
    /// The connection was closed before the line began.
    Closed,
}

/// Bytes without the line-feed and carriage-return bytes at their end.
pub open spec fn strip_eol(s: Seq<u8>) -> Seq<u8>
    decreases s.len(),
{
    if s.len() > 0 && (s.last() == 10 || s.last() == 13) {
        strip_eol(s.drop_last())
    } else {
        s
    }
}

/// The line at `pos`. At the end of the stream a last line needs no end.
pub open spec fn line_at(buf: Seq<u8>, pos: int, eof: bool) -> LineModel {
    let k = pos + first_at(buf.skip(pos), 10u8);
    if k < buf.len() {
        LineModel::Line(strip_eol(buf.subrange(pos, k + 1)), k + 1)
    } else if !eof {
        LineModel::More
    } else if pos >= buf.len() {
        LineModel::Closed
    } else {
        LineModel::Line(strip_eol(buf.skip(pos)), buf.len() as int)
    }
}

/// The number that a line holds.
pub open spec fn line_number(line: Seq<u8>) -> Option<int> {
    signed_of(trimmed(bytes_text(line)))
}

/// The detail where the connection ends inside a reply.
pub open spec fn closed_detail() -> Seq<char> {
    "connection closed mid-reply"@
}

/// The hexadecimal digit of a number below sixteen.
pub open spec fn hex_digit(n: u8) -> char {
    if n < 10 {
        (48 + n) as u8 as char
    } else {
        (87 + n) as u8 as char
    }
}

/// The detail for an unknown type byte.
pub open spec fn type_detail(b: u8) -> Seq<char> {
    "unexpected RESP type byte 0x"@ + seq![hex_digit(b / 16), hex_digit(b % 16)]
}

/// The number of items of a flattened map with `n` entries.
pub open spec fn map_items(n: int) -> int {
    if 2 * n > i64::MAX {
        i64::MAX as int
    } else {
        2 * n
    }
}

/// The reply at `pos`.
pub open spec fn reply_at(buf: Seq<u8>, pos: int, eof: bool) -> ReadModel
    decreases buf.len() - pos, 0int,
    via reply_at_decreases
{
    if !(0 <= pos < buf.len()) {
        ReadModel::More
    } else {
        let kind = buf[pos];
        if kind == 43 || kind == 45 || kind == 58 || kind == 95 {
            match line_at(buf, pos + 1, eof) {
                LineModel::More => ReadModel::More,
                LineModel::Closed => ReadModel::Fail(closed_detail()),
                LineModel::Line(line, next) => ReadModel::Done(
                    if kind == 43 {
                        ReplyModel::Simple(bytes_text(line))
                    } else if kind == 45 {
                        ReplyModel::Error(bytes_text(line))
                    } else if kind == 58 {
                        ReplyModel::Int
                    } else {
                        ReplyModel::Bulk(None)
                    },
                    next,
                ),
            }
        } else if kind == 36 || kind == 61 {
            match line_at(buf, pos + 1, eof) {
                LineModel::More => ReadModel::More,
                LineModel::Closed => ReadModel::Fail(closed_detail()),
                LineModel::Line(line, next) => match line_number(line) {
                    None => ReadModel::Fail("bulk length"@),
                    Some(n) => if n < 0 {
                        ReadModel::Done(ReplyModel::Bulk(None), next)
                    } else if next + n + 2 <= buf.len() {
                        ReadModel::Done(
                            ReplyModel::Bulk(Some(buf.subrange(next, next + n))),
                            next + n + 2,
                        )
                    } else {
                        ReadModel::More
                    },
                },
            }
        } else if kind == 42 || kind == 126 || kind == 62 || kind == 37 {
            match line_at(buf, pos + 1, eof) {
                LineModel::More => ReadModel::More,
                LineModel::Closed => ReadModel::Fail(closed_detail()),
                LineModel::Line(line, next) => match line_number(line) {
                    None => ReadModel::Fail(
                        if kind == 37 {
                            "map count"@
                        } else {
                            "array count"@
                        },
                    ),
                    Some(n) => if kind != 37 && n < 0 {
                        ReadModel::Done(ReplyModel::Array(None), next)
                    } else if next <= pos {
                        ReadModel::More
                    } else {
                        match items_at(
                            buf,
                            next,
                            eof,
                            if kind == 37 {
                                map_items(n)
                            } else {
                                n
                            },
                        ) {
                            ItemsModel::Done(items, end) => ReadModel::Done(
                                ReplyModel::Array(Some(items)),
                                end,
                            ),
                            ItemsModel::More => ReadModel::More,
                            ItemsModel::Fail(d) => ReadModel::Fail(d),
                        }
                    },
                },
            }
        } else {
            ReadModel::Fail(type_detail(kind))
        }
    }
}

#[via_fn]
proof fn reply_at_decreases(buf: Seq<u8>, pos: int, eof: bool) {
    if 0 <= pos < buf.len() {
        lemma_line_at(buf, pos + 1, eof);
    }
}

/// The `count` replies from `pos` on.
pub open spec fn items_at(buf: Seq<u8>, pos: int, eof: bool, count: int) -> ItemsModel
    decreases buf.len() - pos, 1int,
    via items_at_decreases
{
    if count <= 0 {
        ItemsModel::Done(Seq::empty(), pos)
    } else if !(0 <= pos <= buf.len()) {
        ItemsModel::More
    } else {
        match reply_at(buf, pos, eof) {
            ReadModel::More => ItemsModel::More,
            ReadModel::Fail(d) => ItemsModel::Fail(d),
            ReadModel::Done(first, next) => if pos < next <= buf.len() {
                match items_at(buf, next, eof, count - 1) {
                    ItemsModel::Done(rest, end) => ItemsModel::Done(seq![first] + rest, end),
                    ItemsModel::More => ItemsModel::More,
                    ItemsModel::Fail(d) => ItemsModel::Fail(d),
                }
            } else {
                ItemsModel::More
            },
        }
    }
}

#[via_fn]
proof fn items_at_decreases(buf: Seq<u8>, pos: int, eof: bool, count: int) {
}

/// A line ends behind its beginning and within the bytes.
proof fn lemma_line_at(buf: Seq<u8>, pos: int, eof: bool)
    requires
        0 <= pos <= buf.len(),
    ensures
        line_at(buf, pos, eof) matches LineModel::Line(_, next) ==> pos < next <= buf.len(),
{
    lemma_first_at(buf.skip(pos), 10u8);
}

/// A reply ends behind its beginning and within the bytes.
proof fn lemma_reply_ends(buf: Seq<u8>, pos: int, eof: bool)
    requires
        0 <= pos <= buf.len(),
    ensures
        reply_at(buf, pos, eof) matches ReadModel::Done(_, next) ==> pos < next <= buf.len(),
    decreases buf.len() - pos, 0int,
{
    if pos < buf.len() {
        lemma_line_at(buf, pos + 1, eof);
        match line_at(buf, pos + 1, eof) {
            LineModel::Line(line, next) => {
                match line_number(line) {
                    Some(n) => {
                        let count = if buf[pos] == 37 {
                            map_items(n)
                        } else {
                            n
                        };
                        lemma_items_end(buf, next, eof, count);
                    },
                    None => {},
                }
            },
            _ => {},
        }
    }
}

proof fn lemma_items_end(buf: Seq<u8>, pos: int, eof: bool, count: int)
    requires
        0 <= pos <= buf.len(),
    ensures
        items_at(buf, pos, eof, count) matches ItemsModel::Done(_, end) ==> pos <= end <= buf.len(),
    decreases buf.len() - pos, 1int,
{
    if count > 0 {
        match reply_at(buf, pos, eof) {
            ReadModel::Done(first, next) => {
                if pos < next <= buf.len() {
                    lemma_items_end(buf, next, eof, count - 1);
                }
            },
            _ => {},
        }
    }
}

/// A line of the wire.
enum LineRead {
    Line { start: usize, end: usize, next: usize },
    More,
    Closed,
}

/// Finds the line at `pos`.
fn read_line(buf: &[u8], pos: usize, eof: bool) -> (r: LineRead)
    requires
        pos <= buf@.len(),
    ensures
        match r {
            LineRead::Line { start, end, next } => start == pos && start <= end <= next <= buf@.len()
                && pos < next && line_at(buf@, pos as int, eof) == LineModel::Line(
                buf@.subrange(start as int, end as int),
                next as int,
            ),
            LineRead::More => line_at(buf@, pos as int, eof) is More,
            LineRead::Closed => line_at(buf@, pos as int, eof) is Closed,
        },
{
    let mut k: usize = pos;
    while k < buf.len() && buf[k] != 10
        invariant
            pos <= k <= buf@.len(),
            forall|j: int| pos <= j < k ==> buf@[j] != 10,
        decreases buf@.len() - k,
    {
        k = k + 1;
    }
    proof {
        let tail = buf@.skip(pos as int);
        assert forall|j: int| 0 <= j < k - pos implies tail[j] != 10u8 by {
            assert(tail[j] == buf@[pos + j]);
        }
        lemma_first_at_is(tail, 10u8, k - pos);
    }
    let next: usize;
    if k < buf.len() {
        next = k + 1;
    } else if !eof {
        return LineRead::More;
    } else if pos >= buf.len() {
        return LineRead::Closed;
    } else {
        next = buf.len();
    }
    let mut end: usize = next;
    let ghost raw = buf@.subrange(pos as int, next as int);
    assert(k == buf@.len() ==> raw =~= buf@.skip(pos as int));
    while end > pos && (buf[end - 1] == 10 || buf[end - 1] == 13)
        invariant
            pos <= end <= next <= buf@.len(),
            strip_eol(buf@.subrange(pos as int, end as int)) == strip_eol(raw),
        decreases end,
    {
        assert(buf@.subrange(pos as int, end as int).drop_last() =~= buf@.subrange(
            pos as int,
            end as int - 1,
        ));
        end = end - 1;
    }
    LineRead::Line { start: pos, end, next }
}

/// The two hexadecimal digits of a byte.
fn push_hex(out: &mut String, b: u8)
    ensures
        final(out)@ == old(out)@ + seq![hex_digit(b / 16), hex_digit(b % 16)],
{
    let hi: u8 = b / 16;
    let lo: u8 = b % 16;
    let ghost start = out@;
    out.push(
        (if hi < 10 {
            48 + hi
        } else {
            87 + hi
        }) as char,
    );
    out.push(
        (if lo < 10 {
            48 + lo
        } else {
            87 + lo
        }) as char,
    );
    assert(out@ =~= start + seq![hex_digit(hi), hex_digit(lo)]);
}

fn number_of_line(line: &[u8]) -> (r: Option<i64>)
    ensures
        match r {
            Some(n) => line_number(line@) == Some(n as int),
            None => line_number(line@) is None,
        },
{
    let text = text_of(line);
    let chars = chars_of(text.as_str());
    parse_signed(trim(chars.as_slice()))
}

/// Reads the reply at `pos`. With `eof` the bytes are all that will come.
pub fn read_reply(buf: &[u8], pos: usize, eof: bool) -> (r: ReplyRead)
    requires
        pos <= buf@.len(),
    ensures
        r.model() == reply_at(buf@, pos as int, eof),
        r matches ReplyRead::Done { next, .. } ==> pos < next <= buf@.len(),
    decreases buf@.len() - pos, 0int,
{
    proof {
        lemma_reply_ends(buf@, pos as int, eof);
    }
    if pos >= buf.len() {
        return ReplyRead::More;
    }
    let kind: u8 = buf[pos];
    if kind == 43 || kind == 45 || kind == 58 || kind == 95 {
        match read_line(buf, pos + 1, eof) {
            LineRead::More => ReplyRead::More,
            LineRead::Closed => ReplyRead::Fail("connection closed mid-reply".to_owned()),
            LineRead::Line { start, end, next } => {
                let line = slice_subrange(buf, start, end);
                let reply = if kind == 43 {
                    RawReply::Simple(text_of(line))
                } else if kind == 45 {
                    RawReply::Error(text_of(line))
                } else if kind == 58 {
                    RawReply::Int
                } else {
                    RawReply::Bulk(None)
                };
                ReplyRead::Done { reply, next }
            },
        }
    } else if kind == 36 || kind == 61 {
        match read_line(buf, pos + 1, eof) {
            LineRead::More => ReplyRead::More,
            LineRead::Closed => ReplyRead::Fail("connection closed mid-reply".to_owned()),
            LineRead::Line { start, end, next } => {
                match number_of_line(slice_subrange(buf, start, end)) {
                    None => ReplyRead::Fail("bulk length".to_owned()),
                    Some(n) => {
                        if n < 0 {
                            return ReplyRead::Done { reply: RawReply::Bulk(None), next };
                        }
                        let left: u64 = (buf.len() - next) as u64;
                        if left < 2 || left - 2 < n as u64 {
                            return ReplyRead::More;
                        }
                        let want: usize = n as usize;
                        let body = copy_bytes(slice_subrange(buf, next, next + want));
                        ReplyRead::Done { reply: RawReply::Bulk(Some(body)), next: next + want + 2 }
                    },
                }
            },
        }
    } else if kind == 42 || kind == 126 || kind == 62 || kind == 37 {
        match read_line(buf, pos + 1, eof) {
            LineRead::More => ReplyRead::More,
            LineRead::Closed => ReplyRead::Fail("connection closed mid-reply".to_owned()),
            LineRead::Line { start, end, next } => {
                match number_of_line(slice_subrange(buf, start, end)) {
                    None => ReplyRead::Fail(
                        if kind == 37 {
                            "map count".to_owned()
                        } else {
                            "array count".to_owned()
                        },
                    ),
                    Some(n) => {
                        if kind != 37 && n < 0 {
                            return ReplyRead::Done { reply: RawReply::Array(None), next };
                        }
                        let count: i64 = if kind != 37 || n < 0 {
                            n
                        } else if n > i64::MAX / 2 {
                            i64::MAX
                        } else {
                            2 * n
                        };
                        assert(items_at(buf@, next as int, eof, count as int) == items_at(
                            buf@,
                            next as int,
                            eof,
                            if kind == 37 {
                                map_items(n as int)
                            } else {
                                n as int
                            },
                        ));
                        match read_items(buf, next, eof, count) {
                            ItemsRead::More => ReplyRead::More,
                            ItemsRead::Fail(d) => ReplyRead::Fail(d),
                            ItemsRead::Done { items, next: end } => ReplyRead::Done {
                                reply: RawReply::Array(Some(items)),
                                next: end,
                            },
                        }
                    },
                }
            },
        }
    } else {
        let mut detail: String = "unexpected RESP type byte 0x".to_owned();
        push_hex(&mut detail, kind);
        ReplyRead::Fail(detail)
    }
}

enum ItemsRead {
    Done { items: Vec<RawReply>, next: usize },
    More,
    Fail(String),
}

impl ItemsRead {
    spec fn model(self) -> ItemsModel {
        match self {
            ItemsRead::Done { items, next } => ItemsModel::Done(models(items@), next as int),
            ItemsRead::More => ItemsModel::More,
            ItemsRead::Fail(d) => ItemsModel::Fail(d@),
        }
    }
}

/// What the items already read make of the outcome for the rest.
spec fn behind(done: Seq<ReplyModel>, rest: ItemsModel) -> ItemsModel {
    match rest {
        ItemsModel::Done(items, end) => ItemsModel::Done(done + items, end),
        _ => rest,
    }
}

fn read_items(buf: &[u8], pos: usize, eof: bool, count: i64) -> (r: ItemsRead)
    requires
        pos <= buf@.len(),
    ensures
        r.model() == items_at(buf@, pos as int, eof, count as int),
        r matches ItemsRead::Done { next, .. } ==> pos <= next <= buf@.len(),
    decreases buf@.len() - pos, 1int,
{
    let mut items: Vec<RawReply> = Vec::new();
    let mut at: usize = pos;
    let mut left: i64 = count;
    assert(behind(models(items@), items_at(buf@, pos as int, eof, count as int)) == items_at(
        buf@,
        pos as int,
        eof,
        count as int,
    )) by {
        match items_at(buf@, pos as int, eof, count as int) {
            ItemsModel::Done(s, e) => {
                assert(models(items@) + s =~= s);
            },
            _ => {},
        }
    }
    while left > 0
        invariant
            pos <= at <= buf@.len(),
            left <= count,
            behind(models(items@), items_at(buf@, at as int, eof, left as int)) == items_at(
                buf@,
                pos as int,
                eof,
                count as int,
            ),
        decreases left,
    {
        match read_reply(buf, at, eof) {
            ReplyRead::More => {
                return ItemsRead::More;
            },
            ReplyRead::Fail(d) => {
                return ItemsRead::Fail(d);
            },
            ReplyRead::Done { reply, next } => {
                let ghost prior = items@;
                let ghost before = models(items@);
                let ghost m = reply.model();
                items.push(reply);
                assert(items@.drop_last() =~= prior);
                assert(models(items@) =~= before.push(m));
                proof {
                    match items_at(buf@, next as int, eof, left - 1) {
                        ItemsModel::Done(rest, end) => {
                            assert(before + (seq![m] + rest) =~= before.push(m) + rest);
                        },
                        _ => {},
                    }
                }
                at = next;
                left = left - 1;
            },
        }
    }
    assert(models(items@) + Seq::empty() =~= models(items@));
    ItemsRead::Done { items, next: at }
}

/// One argument of a command.
pub open spec fn bulk_bytes(a: Seq<u8>) -> Seq<u8> {
    seq![36u8] + decimal_bytes(a.len()) + seq![13u8, 10u8] + a + seq![13u8, 10u8]
}

/// The arguments of a command, one after the other.
pub open spec fn bulks_bytes(args: Seq<Seq<u8>>) -> Seq<u8>
    decreases args.len(),
{
    if args.len() == 0 {
        Seq::empty()
    } else {
        bulk_bytes(args[0]) + bulks_bytes(args.drop_first())
    }
}

/// A command on the wire.
pub open spec fn command_bytes(args: Seq<Seq<u8>>) -> Seq<u8> {
    seq![42u8] + decimal_bytes(args.len()) + seq![13u8, 10u8] + bulks_bytes(args)
}

/// The views of a vector of byte strings.
pub open spec fn byte_views(v: Seq<Vec<u8>>) -> Seq<Seq<u8>> {
    v.map_values(|b: Vec<u8>| b@)
}

proof fn lemma_bulks_push(args: Seq<Seq<u8>>, a: Seq<u8>)
    ensures
        bulks_bytes(args.push(a)) == bulks_bytes(args) + bulk_bytes(a),
    decreases args.len(),
{
    if args.len() == 0 {
        assert(args.push(a).drop_first() =~= Seq::<Seq<u8>>::empty());
        assert(bulks_bytes(args.push(a).drop_first()) =~= Seq::<u8>::empty());
        assert(args.push(a)[0] == a);
        assert(bulks_bytes(args) =~= Seq::<u8>::empty());
        assert(bulks_bytes(args.push(a)) =~= bulks_bytes(args) + bulk_bytes(a));
    } else {
        lemma_bulks_push(args.drop_first(), a);
        assert(args.push(a).drop_first() =~= args.drop_first().push(a));
        assert(bulks_bytes(args.push(a)) =~= bulks_bytes(args) + bulk_bytes(a));
    }
}

/// Encodes a command as an array of bulk strings.
pub fn encode_command(args: &[Vec<u8>]) -> (out: Vec<u8>)
    ensures
        out@ == command_bytes(byte_views(args@)),
{
    let mut out: Vec<u8> = Vec::new();
    out.push(42);
    push_decimal_bytes(&mut out, args.len() as u64);
    out.push(13);
    out.push(10);
    let ghost head = seq![42u8] + decimal_bytes(args@.len()) + seq![13u8, 10u8];
    assert(out@ =~= head);
    for i in 0..args.len()
        invariant
            out@ == head + bulks_bytes(byte_views(args@.take(i as int))),
    {
        let ghost before = out@;
        let a = &args[i];
        out.push(36);
        push_decimal_bytes(&mut out, a.len() as u64);
        out.push(13);
        out.push(10);
        push_bytes(&mut out, a.as_slice());
        out.push(13);
        out.push(10);
        assert(out@ =~= before + bulk_bytes(a@));
        proof {
            lemma_bulks_push(byte_views(args@.take(i as int)), a@);
            assert(byte_views(args@.take(i as int + 1)) =~= byte_views(args@.take(i as int)).push(
                a@,
            ));
        }
        assert(out@ =~= head + bulks_bytes(byte_views(args@.take(i as int + 1))));
    }
    assert(args@.take(args@.len() as int) =~= args@);
    out
}

/// What a command looks like as a reply: an array of its arguments.
pub open spec fn bulk_models(args: Seq<Seq<u8>>) -> Seq<ReplyModel> {
    args.map_values(|a: Seq<u8>| ReplyModel::Bulk(Some(a)))
}

/// A line of digits with its end is read as the number.
proof fn lemma_number_line(buf: Seq<u8>, pos: int, n: nat, eof: bool)
    requires
        0 <= pos,
        pos + decimal_bytes(n).len() + 2 <= buf.len(),
        buf.subrange(pos, pos + decimal_bytes(n).len() as int) == decimal_bytes(n),
        buf[pos + decimal_bytes(n).len()] == 13,
        buf[pos + decimal_bytes(n).len() + 1] == 10,
        n <= i64::MAX,
    ensures
        line_at(buf, pos, eof) == LineModel::Line(
            decimal_bytes(n),
            pos + decimal_bytes(n).len() + 2,
        ),
        line_number(decimal_bytes(n)) == Some(n as int),
{
    let d = decimal_bytes(n);
    let k = d.len() as int;
    lemma_decimal_bytes(n);
    lemma_decimal_value(n);
    let tail = buf.skip(pos);
    assert forall|j: int| 0 <= j < k + 1 implies tail[j] != 10u8 by {
        if j < k {
            assert(buf.subrange(pos, pos + k)[j] == d[j]);
            assert(tail[j] == d[j]);
        }
    }
    lemma_first_at_is(tail, 10u8, k + 1);
    let raw = buf.subrange(pos, pos + k + 2);
    assert(raw.drop_last().drop_last() =~= d) by {
        assert forall|j: int| 0 <= j < k implies raw.drop_last().drop_last()[j] == d[j] by {
            assert(buf.subrange(pos, pos + k)[j] == d[j]);
        }
    }
    assert(strip_eol(d) == d);
    assert(strip_eol(raw.drop_last()) == d);
    assert(strip_eol(raw) == d);
    let t = decimal(n);
    assert(bytes_text(d) == t);
    assert(crate::text::is_digit(t[0]));
    assert(crate::text::is_digit(t.last()));
    assert(trimmed(t) == t);
    crate::text::lemma_decimal_round_trip(n, i64::MAX as nat);
}

/// The encoded arguments from `pos` on are read back, argument by argument.
proof fn lemma_bulks_read(buf: Seq<u8>, pos: int, args: Seq<Seq<u8>>, eof: bool)
    requires
        0 <= pos,
        pos + bulks_bytes(args).len() <= buf.len(),
        buf.subrange(pos, pos + bulks_bytes(args).len() as int) == bulks_bytes(args),
        buf.len() <= i64::MAX,
    ensures
        items_at(buf, pos, eof, args.len() as int) == ItemsModel::Done(
            bulk_models(args),
            pos + bulks_bytes(args).len(),
        ),
    decreases args.len(),
{
    if args.len() == 0 {
        assert(bulk_models(args) =~= Seq::<ReplyModel>::empty());
    } else {
        let a = args[0];
        let b = bulk_bytes(a);
        let rest = args.drop_first();
        let all = bulks_bytes(args);
        let d = decimal_bytes(a.len());
        lemma_decimal_bytes(a.len());
        assert(all =~= b + bulks_bytes(rest));
        assert forall|j: int| 0 <= j < all.len() implies buf[pos + j] == all[j] by {
            assert(buf.subrange(pos, pos + all.len() as int)[j] == all[j]);
        }
        assert(buf[pos + 0] == all[0]);
        assert(all[0] == b[0]);
        assert(buf.subrange(pos + 1, pos + 1 + d.len() as int) =~= d) by {
            assert forall|j: int| 0 <= j < d.len() implies buf[pos + 1 + j] == d[j] by {
                assert(all[1 + j] == b[1 + j]);
            }
        }
        assert(buf[pos + 1 + d.len()] == all[1 + d.len() as int]);
        assert(buf[pos + 1 + d.len() + 1] == all[1 + d.len() as int + 1]);
        lemma_number_line(buf, pos + 1, a.len(), eof);
        let next = pos + 1 + d.len() + 2;
        assert(buf.subrange(next, next + a.len() as int) =~= a) by {
            assert forall|j: int| 0 <= j < a.len() implies buf[next + j] == a[j] by {
                assert(buf[pos + (3 + d.len() + j)] == all[3 + d.len() + j]);
                assert(b[3 + d.len() + j] == a[j]);
            }
        }
        let end = next + a.len() + 2;
        assert(end == pos + b.len());
        assert(reply_at(buf, pos, eof) == ReadModel::Done(ReplyModel::Bulk(Some(a)), end));
        assert(buf.subrange(end, end + bulks_bytes(rest).len() as int) =~= bulks_bytes(rest)) by {
            assert forall|j: int| 0 <= j < bulks_bytes(rest).len() implies buf[end + j]
                == bulks_bytes(rest)[j] by {
                assert(buf[pos + (b.len() + j)] == all[b.len() + j]);
            }
        }
        lemma_bulks_read(buf, end, rest, eof);
        assert(bulk_models(args) =~= seq![ReplyModel::Bulk(Some(a))] + bulk_models(rest));
    }
}

/// A command that is encoded and read back gives its arguments, whole and in order,
/// and nothing of it is left over.
pub proof fn law_command_round_trip(args: Seq<Seq<u8>>, eof: bool)
    requires
        command_bytes(args).len() <= i64::MAX,
        args.len() <= i64::MAX,
    ensures
        reply_at(command_bytes(args), 0, eof) == ReadModel::Done(
            ReplyModel::Array(Some(bulk_models(args))),
            command_bytes(args).len() as int,
        ),
{
    let buf = command_bytes(args);
    let d = decimal_bytes(args.len());
    lemma_decimal_bytes(args.len());
    assert(buf.subrange(1, 1 + d.len() as int) =~= d);
    lemma_number_line(buf, 1, args.len(), eof);
    let next = 1 + d.len() as int + 2;
    assert(buf.subrange(next, next + bulks_bytes(args).len() as int) =~= bulks_bytes(args));
    lemma_bulks_read(buf, next, args, eof);
}

/// The text that a bulk or simple string holds.
pub open spec fn reply_text(m: ReplyModel) -> Option<Seq<char>> {
    match m {
        ReplyModel::Bulk(Some(b)) => Some(bytes_text(b)),
        ReplyModel::Simple(s) => Some(s),
        _ => None,
    }
}

/// The text of a bulk or simple string.
pub fn bulk_text(reply: &RawReply) -> (r: Option<String>)
    ensures
        crate::text::opt_string(r) == reply_text(reply.model()),
{
    match reply {
        RawReply::Bulk(Some(b)) => Some(text_of(b.as_slice())),
        RawReply::Simple(s) => Some(s.clone()),
        _ => None,
    }
}

/// The value of the first pair with the key `key` in a flat list of keys and values; a
/// key without a value is no pair.
pub open spec fn lookup(items: Seq<ReplyModel>, key: Seq<char>) -> Option<ReplyModel>
    decreases items.len(),
{
    if items.len() < 2 {
        None
    } else if reply_text(items[0]) == Some(key) {
        Some(items[1])
    } else {
        lookup(items.skip(2), key)
    }
}

/// The value of the first pair with the key `key` in a flat list of keys and values.
pub fn flat_lookup<'a>(items: &'a [RawReply], key: &str) -> (r: Option<&'a RawReply>)
    ensures
        match r {
            Some(v) => lookup(models(items@), key@) == Some(v.model()),
            None => lookup(models(items@), key@) is None,
        },
{
    let ghost ms = models(items@);
    let n: usize = items.len();
    proof {
        lemma_models(items@);
        assert(ms.skip(0) =~= ms);
    }
    let mut i: usize = 0;
    while n - i >= 2
        invariant
            ms == models(items@),
            n == items@.len() == ms.len(),
            i <= n,
            forall|j: int| 0 <= j < n ==> #[trigger] ms[j] == items@[j].model(),
            lookup(ms, key@) == lookup(ms.skip(i as int), key@),
        decreases n - i,
    {
        let found = match bulk_text(&items[i]) {
            Some(t) => crate::text::same_str(t.as_str(), key),
            None => false,
        };
        assert(ms.skip(i as int)[0] == items@[i as int].model());
        if found {
            assert(ms.skip(i as int)[1] == items@[i + 1].model());
            return Some(&items[i + 1]);
        }
        assert(ms.skip(i as int).skip(2) =~= ms.skip(i as int + 2));
        i = i + 2;
    }
    None
}

/// The id of a node of a shard.
pub open spec fn node_id(node: ReplyModel) -> Option<Seq<char>> {
    match node {
        ReplyModel::Array(Some(fields)) => match lookup(fields, "id"@) {
            Some(v) => reply_text(v),
            None => None,
        },
        _ => None,
    }
}

/// The ids of the nodes of a shard, in their order.
pub open spec fn node_ids(nodes: Seq<ReplyModel>) -> Seq<Seq<char>>
    decreases nodes.len(),
{
    if nodes.len() == 0 {
        Seq::empty()
    } else {
        let rest = node_ids(nodes.drop_last());
        match node_id(nodes.last()) {
            Some(id) => rest.push(id),
            None => rest,
        }
    }
}

/// The ids that one shard lists.
pub open spec fn shard_ids(shard: ReplyModel) -> Seq<Seq<char>> {
    match shard {
        ReplyModel::Array(Some(fields)) => match lookup(fields, "nodes"@) {
            Some(ReplyModel::Array(Some(nodes))) => node_ids(nodes),
            _ => Seq::empty(),
        },
        _ => Seq::empty(),
    }
}

/// The ids that the shards list, shard by shard.
pub open spec fn all_ids(shards: Seq<ReplyModel>) -> Seq<Seq<char>>
    decreases shards.len(),
{
    if shards.len() == 0 {
        Seq::empty()
    } else {
        all_ids(shards.drop_last()) + shard_ids(shards.last())
    }
}

/// The member ids of a `CLUSTER SHARDS` reply.
pub open spec fn member_ids(reply: ReplyModel) -> Seq<Seq<char>> {
    match reply {
        ReplyModel::Array(Some(shards)) => all_ids(shards),
        _ => Seq::empty(),
    }
}

/// The views of a vector of strings.
pub open spec fn string_views(v: Seq<String>) -> Seq<Seq<char>> {
    v.map_values(|s: String| s@)
}

fn push_node_ids(ids: &mut Vec<String>, nodes: &[RawReply])
    ensures
        string_views(final(ids)@) == string_views(old(ids)@) + node_ids(models(nodes@)),
{
    let ghost start = string_views(ids@);
    let ghost ms = models(nodes@);
    proof {
        lemma_models(nodes@);
    }
    assert(start + Seq::<Seq<char>>::empty() =~= start);
    for i in 0..nodes.len()
        invariant
            ms.len() == nodes@.len(),
            forall|j: int| 0 <= j < nodes@.len() ==> #[trigger] ms[j] == nodes@[j].model(),
            string_views(ids@) == start + node_ids(ms.take(i as int)),
    {
        assert(ms.take(i as int + 1).drop_last() =~= ms.take(i as int));
        assert(ms.take(i as int + 1).last() == ms[i as int]);
        let ghost before = string_views(ids@);
        let id: Option<String> = match &nodes[i] {
            RawReply::Array(Some(fields)) => match flat_lookup(fields.as_slice(), "id") {
                Some(v) => bulk_text(v),
                None => None,
            },
            _ => None,
        };
        assert(crate::text::opt_string(id) == node_id(ms[i as int]));
        match id {
            Some(t) => {
                ids.push(t);
                assert(string_views(ids@) =~= before.push(t@));
                assert(string_views(ids@) =~= start + node_ids(ms.take(i as int + 1)));
            },
            None => {},
        }
    }
    assert(ms.take(nodes@.len() as int) =~= ms);
}

/// The member ids of a `CLUSTER SHARDS` reply: an array of shards, each a flat map
/// with a `nodes` array, each node a flat map with an `id`. Parts of another shape
/// are skipped.
pub fn collect_member_ids(reply: &RawReply) -> (ids: Vec<String>)
    ensures
        string_views(ids@) == member_ids(reply.model()),
{
    let mut ids: Vec<String> = Vec::new();
    assert(string_views(ids@) =~= Seq::<Seq<char>>::empty());
    match reply {
        RawReply::Array(Some(shards)) => {
            let ghost ms = models(shards@);
            proof {
                lemma_models(shards@);
            }
            for i in 0..shards.len()
                invariant
                    ms.len() == shards@.len(),
                    forall|j: int| 0 <= j < shards@.len() ==> #[trigger] ms[j] == shards@[j].model(),
                    string_views(ids@) == all_ids(ms.take(i as int)),
            {
                assert(ms.take(i as int + 1).drop_last() =~= ms.take(i as int));
                assert(ms.take(i as int + 1).last() == ms[i as int]);
                let ghost before = string_views(ids@);
                assert(before + Seq::<Seq<char>>::empty() =~= before);
                match &shards[i] {
                    RawReply::Array(Some(fields)) => {
                        match flat_lookup(fields.as_slice(), "nodes") {
                            Some(RawReply::Array(Some(nodes))) => {
                                push_node_ids(&mut ids, nodes.as_slice());
                            },
                            _ => {},
                        }
                    },
                    _ => {},
                }
            }
            assert(ms.take(shards@.len() as int) =~= ms);
        },
        _ => {},
    }
    ids
}

/// How a command was answered.
#[derive(Debug)]
pub enum Acknowledgement {
    /// The server said `OK`.
    Accepted,
    /// The server refused, with this error.
    Refused(String),
    /// The server sent some other reply.
    Unexpected,
}

/// Whether a text is `OK`, in any ASCII case.
pub open spec fn says_ok(s: Seq<char>) -> bool {
    lowered(s) == "ok"@
}

/// Reads the reply to a command that is answered by `OK` or an error.
pub fn acknowledgement(reply: &RawReply) -> (r: Acknowledgement)
    ensures
        match reply.model() {
            ReplyModel::Simple(s) => if says_ok(s) {
                r is Accepted
            } else {
                r is Unexpected
            },
            ReplyModel::Error(e) => r matches Acknowledgement::Refused(d) && d@ == e,
            _ => r is Unexpected,
        },
{
    match reply {
        RawReply::Simple(s) => {
            let chars = chars_of(s.as_str());
            let low = to_lower(chars.as_slice());
            if is_text(low.as_slice(), "ok") {
                Acknowledgement::Accepted
            } else {
                Acknowledgement::Unexpected
            }
        },
        RawReply::Error(e) => Acknowledgement::Refused(e.clone()),
        _ => Acknowledgement::Unexpected,
    }
}

/// A reply on one line: a plus sign and a text, a minus sign and an error, a colon and a
/// number, or an underscore for nothing.
pub proof fn law_one_line_replies(line: Seq<u8>, eof: bool)
    requires
        !line.contains(10u8),
        line.len() == 0 || line.last() != 13,
    ensures
        reply_at(seq![43u8] + line + seq![13u8, 10u8], 0, eof) == ReadModel::Done(
            ReplyModel::Simple(bytes_text(line)),
            line.len() as int + 3,
        ),
        reply_at(seq![45u8] + line + seq![13u8, 10u8], 0, eof) == ReadModel::Done(
            ReplyModel::Error(bytes_text(line)),
            line.len() as int + 3,
        ),
        reply_at(seq![58u8] + line + seq![13u8, 10u8], 0, eof) == ReadModel::Done(
            ReplyModel::Int,
            line.len() as int + 3,
        ),
        reply_at(seq![95u8] + line + seq![13u8, 10u8], 0, eof) == ReadModel::Done(
            ReplyModel::Bulk(None),
            line.len() as int + 3,
        ),
        reply_at(seq![43u8] + line, 0, false) is More,
        reply_at(Seq::empty(), 0, eof) is More,
{
    lemma_one_line(43, line, eof);
    lemma_one_line(45, line, eof);
    lemma_one_line(58, line, eof);
    lemma_one_line(95, line, eof);
    let open = seq![43u8] + line;
    assert(open.skip(1) =~= line);
    assert forall|j: int| 0 <= j < line.len() implies line[j] != 10u8 by {
        assert(line.contains(line[j]));
    }
    lemma_first_at_is(line, 10u8, line.len() as int);
}

proof fn lemma_one_line(kind: u8, line: Seq<u8>, eof: bool)
    requires
        !line.contains(10u8),
        line.len() == 0 || line.last() != 13,
    ensures
        line_at(seq![kind] + line + seq![13u8, 10u8], 1, eof) == LineModel::Line(
            line,
            line.len() as int + 3,
        ),
{
    let buf = seq![kind] + line + seq![13u8, 10u8];
    let tail = buf.skip(1);
    let n = line.len() as int;
    assert forall|j: int| 0 <= j < n + 1 implies tail[j] != 10u8 by {
        if j < n {
            assert(tail[j] == line[j]);
            assert(line.contains(line[j]));
        }
    }
    assert(tail[n + 1] == 10u8);
    lemma_first_at_is(tail, 10u8, n + 1);
    let raw = buf.subrange(1, n + 3);
    assert(raw =~= line.push(13u8).push(10u8));
    assert(raw.drop_last() =~= line.push(13u8));
    assert(raw.drop_last().drop_last() =~= line);
    assert(strip_eol(raw) == strip_eol(raw.drop_last()));
    assert(strip_eol(raw.drop_last()) == strip_eol(line));
    if line.len() > 0 {
        assert(line.contains(line[n - 1]));
    }
}

/// A reply that is whole is read the same wherever it stands and whatever follows it.
pub proof fn law_a_reply_stands_for_itself(
    buf: Seq<u8>,
    before: Seq<u8>,
    after: Seq<u8>,
    m: ReplyModel,
    next: int,
    eof: bool,
)
    requires
        reply_at(buf, 0, false) == ReadModel::Done(m, next),
    ensures
        reply_at(before + buf + after, before.len() as int, eof) == ReadModel::Done(
            m,
            before.len() + next,
        ),
{
    let big = before + buf + after;
    let off = before.len() as int;
    assert(big.subrange(off, off + buf.len() as int) =~= buf);
    lemma_reply_local(buf, big, off, 0, eof);
}

proof fn lemma_line_local(buf: Seq<u8>, big: Seq<u8>, off: int, pos: int, eof: bool)
    requires
        0 <= off,
        0 <= pos <= buf.len(),
        off + buf.len() <= big.len(),
        big.subrange(off, off + buf.len() as int) == buf,
        line_at(buf, pos, false) is Line,
    ensures
        line_at(big, off + pos, eof) == LineModel::Line(
            line_at(buf, pos, false)->Line_0,
            off + line_at(buf, pos, false)->Line_1,
        ),
{
    let tail = buf.skip(pos);
    let long = big.skip(off + pos);
    lemma_first_at(tail, 10u8);
    let k = first_at(tail, 10u8);
    assert forall|j: int| 0 <= j < tail.len() implies #[trigger] long[j] == tail[j] by {
        assert(big.subrange(off, off + buf.len() as int)[pos + j] == buf[pos + j]);
    }
    assert(k < tail.len());
    assert forall|j: int| 0 <= j < k implies long[j] != 10u8 by {
        assert(long[j] == tail[j]);
    }
    assert(long[k] == tail[k]);
    lemma_first_at_is(long, 10u8, k);
    let x = big.subrange(off + pos, off + pos + k + 1);
    let y = buf.subrange(pos, pos + k + 1);
    assert forall|j: int| 0 <= j < k + 1 implies #[trigger] x[j] == y[j] by {
        assert(long[j] == tail[j]);
    }
    assert(x =~= y);
}

proof fn lemma_reply_local(buf: Seq<u8>, big: Seq<u8>, off: int, pos: int, eof: bool)
    requires
        0 <= off,
        0 <= pos <= buf.len(),
        off + buf.len() <= big.len(),
        big.subrange(off, off + buf.len() as int) == buf,
    ensures
        reply_at(buf, pos, false) matches ReadModel::Done(m, next) ==> reply_at(
            big,
            off + pos,
            eof,
        ) == ReadModel::Done(m, off + next),
    decreases buf.len() - pos, 0int,
{
    if reply_at(buf, pos, false) is Done {
        assert(big[off + pos] == buf[pos]) by {
            assert(big.subrange(off, off + buf.len() as int)[pos] == buf[pos]);
        }
        lemma_line_at(buf, pos + 1, false);
        lemma_line_local(buf, big, off, pos + 1, eof);
        let next = line_at(buf, pos + 1, false)->Line_1;
        match line_number(line_at(buf, pos + 1, false)->Line_0) {
            Some(n) => {
                let kind = buf[pos];
                if kind == 36 || kind == 61 {
                    if n >= 0 {
                        let x = big.subrange(off + next, off + next + n);
                        let y = buf.subrange(next, next + n);
                        assert forall|j: int| 0 <= j < n implies #[trigger] x[j] == y[j] by {
                            assert(big.subrange(off, off + buf.len() as int)[next + j] == buf[next
                                + j]);
                        }
                        assert(x =~= y);
                    }
                } else if kind == 42 || kind == 126 || kind == 62 || kind == 37 {
                    let count = if kind == 37 {
                        map_items(n)
                    } else {
                        n
                    };
                    lemma_items_local(buf, big, off, next, eof, count);
                }
            },
            None => {},
        }
    }
}

proof fn lemma_items_local(
    buf: Seq<u8>,
    big: Seq<u8>,
    off: int,
    pos: int,
    eof: bool,
    count: int,
)
    requires
        0 <= off,
        0 <= pos <= buf.len(),
        off + buf.len() <= big.len(),
        big.subrange(off, off + buf.len() as int) == buf,
    ensures
        items_at(buf, pos, false, count) matches ItemsModel::Done(ms, end) ==> items_at(
            big,
            off + pos,
            eof,
            count,
        ) == ItemsModel::Done(ms, off + end),
    decreases buf.len() - pos, 1int,
{
    if count > 0 && items_at(buf, pos, false, count) is Done {
        lemma_reply_local(buf, big, off, pos, eof);
        let next = reply_at(buf, pos, false)->Done_1;
        lemma_items_local(buf, big, off, next, eof, count - 1);
    }
}

/// Pieces of the wire, one behind the other.
pub open spec fn wired(parts: Seq<Seq<u8>>) -> Seq<u8>
    decreases parts.len(),
{
    if parts.len() == 0 {
        Seq::empty()
    } else {
        parts[0] + wired(parts.drop_first())
    }
}

/// An array, a set or a push holds the replies that follow its count, in order, and a map
/// holds twice as many as it counts.
pub proof fn law_arrays_hold_their_replies(
    kind: u8,
    parts: Seq<Seq<u8>>,
    ms: Seq<ReplyModel>,
    n: nat,
    eof: bool,
)
    requires
        kind == 42 || kind == 126 || kind == 62 || kind == 37,
        parts.len() == ms.len(),
        parts.len() == (if kind == 37 {
            2 * n
        } else {
            n
        }),
        2 * n <= i64::MAX,
        forall|i: int|
            0 <= i < parts.len() ==> reply_at(#[trigger] parts[i], 0, false) == ReadModel::Done(
                ms[i],
                parts[i].len() as int,
            ),
    ensures
        reply_at(
            seq![kind] + decimal_bytes(n) + seq![13u8, 10u8] + wired(parts),
            0,
            eof,
        ) == ReadModel::Done(
            ReplyModel::Array(Some(ms)),
            decimal_bytes(n).len() as int + 3 + wired(parts).len(),
        ),
{
    let d = decimal_bytes(n);
    let buf = seq![kind] + d + seq![13u8, 10u8] + wired(parts);
    lemma_decimal_bytes(n);
    assert(buf.subrange(1, 1 + d.len() as int) =~= d);
    lemma_number_line(buf, 1, n, eof);
    let next = d.len() as int + 3;
    assert(buf.subrange(next, next + wired(parts).len() as int) =~= wired(parts));
    lemma_wired(buf, next, parts, ms, eof);
}

proof fn lemma_wired(
    buf: Seq<u8>,
    pos: int,
    parts: Seq<Seq<u8>>,
    ms: Seq<ReplyModel>,
    eof: bool,
)
    requires
        parts.len() == ms.len(),
        0 <= pos,
        pos + wired(parts).len() <= buf.len(),
        buf.subrange(pos, pos + wired(parts).len() as int) == wired(parts),
        forall|i: int|
            0 <= i < parts.len() ==> reply_at(#[trigger] parts[i], 0, false) == ReadModel::Done(
                ms[i],
                parts[i].len() as int,
            ),
    ensures
        items_at(buf, pos, eof, parts.len() as int) == ItemsModel::Done(
            ms,
            pos + wired(parts).len(),
        ),
    decreases parts.len(),
{
    if parts.len() == 0 {
        assert(ms =~= Seq::<ReplyModel>::empty());
    } else {
        let p = parts[0];
        let rest = parts.drop_first();
        let all = wired(parts);
        assert(all =~= p + wired(rest));
        let x = buf.subrange(pos, pos + p.len() as int);
        assert forall|j: int| 0 <= j < p.len() implies #[trigger] x[j] == p[j] by {
            assert(buf.subrange(pos, pos + all.len() as int)[j] == all[j]);
        }
        assert(x =~= p);
        assert(reply_at(parts[0], 0, false) == ReadModel::Done(ms[0], p.len() as int));
        lemma_reply_local(p, buf, pos, 0, eof);
        lemma_reply_ends(p, 0, false);
        let next = pos + p.len() as int;
        let y = buf.subrange(next, next + wired(rest).len() as int);
        assert forall|j: int| 0 <= j < wired(rest).len() implies #[trigger] y[j] == wired(
            rest,
        )[j] by {
            assert(buf.subrange(pos, pos + all.len() as int)[p.len() + j] == all[p.len() + j]);
        }
        assert(y =~= wired(rest));
        assert forall|i: int| 0 <= i < rest.len() implies reply_at(#[trigger] rest[i], 0, false)
            == ReadModel::Done(ms.drop_first()[i], rest[i].len() as int) by {
            assert(rest[i] == parts[i + 1]);
        }
        lemma_wired(buf, next, rest, ms.drop_first(), eof);
        assert(seq![ms[0]] + ms.drop_first() =~= ms);
    }
}

/// A bulk string holds the bytes that its length counts, whatever they are; a negative
/// length is nothing.
pub proof fn law_bulk_strings(a: Seq<u8>, eof: bool)
    requires
        bulk_bytes(a).len() <= i64::MAX,
    ensures
        reply_at(bulk_bytes(a), 0, eof) == ReadModel::Done(
            ReplyModel::Bulk(Some(a)),
            bulk_bytes(a).len() as int,
        ),
{
    let buf = bulk_bytes(a);
    let d = decimal_bytes(a.len());
    lemma_decimal_bytes(a.len());
    assert(buf.subrange(1, 1 + d.len() as int) =~= d);
    lemma_number_line(buf, 1, a.len(), eof);
    let next = d.len() as int + 3;
    assert(buf.subrange(next, next + a.len() as int) =~= a);
}

/// A key is looked up among the first halves of the pairs, and the first pair that has it
/// counts.
pub proof fn law_lookup_goes_by_pairs(items: Seq<ReplyModel>, key: Seq<char>)
    ensures
        match lookup(items, key) {
            Some(v) => exists|i: int|
                {
                    &&& 0 <= 2 * i + 1 < items.len()
                    &&& reply_text(#[trigger] items[2 * i]) == Some(key)
                    &&& items[2 * i + 1] == v
                    &&& forall|j: int|
                        0 <= j < i ==> reply_text(#[trigger] items[2 * j]) != Some(key)
                },
            None => forall|j: int|
                0 <= j && 2 * j + 1 < items.len() ==> reply_text(#[trigger] items[2 * j]) != Some(
                    key,
                ),
        },
    decreases items.len(),
{
    if items.len() >= 2 {
        if reply_text(items[0]) == Some(key) {
            assert(reply_text(items[2 * 0int]) == Some(key));
        } else {
            let rest = items.skip(2);
            law_lookup_goes_by_pairs(rest, key);
            match lookup(rest, key) {
                Some(v) => {
                    let i = choose|i: int|
                        {
                            &&& 0 <= 2 * i + 1 < rest.len()
                            &&& reply_text(#[trigger] rest[2 * i]) == Some(key)
                            &&& rest[2 * i + 1] == v
                            &&& forall|j: int|
                                0 <= j < i ==> reply_text(#[trigger] rest[2 * j]) != Some(key)
                        };
                    assert(rest[2 * i] == items[2 * (i + 1)]);
                    assert forall|j: int| 0 <= j < i + 1 implies reply_text(#[trigger] items[2 * j])
                        != Some(key) by {
                        if j > 0 {
                            assert(rest[2 * (j - 1)] == items[2 * j]);
                        }
                    }
                },
                None => {
                    assert forall|j: int| 0 <= j && 2 * j + 1 < items.len() implies reply_text(
                        #[trigger] items[2 * j],
                    ) != Some(key) by {
                        if j > 0 {
                            assert(rest[2 * (j - 1)] == items[2 * j]);
                        }
                    }
                },
            }
        }
    }
}

/// The text of a reply is that of a bulk or simple string; nothing else has one.
pub proof fn law_text_of_a_reply(s: Seq<char>, b: Seq<u8>, m: ReplyModel)
    ensures
        reply_text(ReplyModel::Simple(s)) == Some(s),
        reply_text(ReplyModel::Bulk(Some(vstd::utf8::encode_utf8(s)))) == Some(s),
        !(m is Simple) && !(m matches ReplyModel::Bulk(Some(_))) ==> reply_text(m) is None,
{
    crate::bytes::lemma_text_back(s);
}

/// The members of a cluster are the ids of the nodes of all its shards.
pub proof fn law_members_are_the_nodes_of_all_shards(shards: Seq<ReplyModel>, id: Seq<char>)
    ensures
        member_ids(ReplyModel::Array(Some(shards))).contains(id) <==> exists|s: int, n: int|
            {
                &&& 0 <= s < shards.len()
                &&& #[trigger] names_node(shards[s], n, id)
            },
{
    lemma_all_ids(shards, id);
}

/// Whether a shard lists, at a place among its nodes, one with an id.
pub open spec fn names_node(shard: ReplyModel, n: int, id: Seq<char>) -> bool {
    shard matches ReplyModel::Array(Some(fields)) && (lookup(fields, seq!['n', 'o', 'd', 'e', 's'])
        matches Some(ReplyModel::Array(Some(nodes))) && 0 <= n < nodes.len() && (
    nodes[n] matches ReplyModel::Array(Some(f)) && (lookup(f, seq!['i', 'd']) matches Some(v)
        && reply_text(v) == Some(id))))
}

proof fn lemma_all_ids(shards: Seq<ReplyModel>, id: Seq<char>)
    ensures
        all_ids(shards).contains(id) <==> exists|s: int, n: int|
            {
                &&& 0 <= s < shards.len()
                &&& #[trigger] names_node(shards[s], n, id)
            },
    decreases shards.len(),
{
    reveal_strlit("nodes");
    assert("nodes"@ =~= seq!['n', 'o', 'd', 'e', 's']);
    if shards.len() > 0 {
        let front = shards.drop_last();
        let last = shards.last();
        lemma_all_ids(front, id);
        let a = all_ids(front);
        let b = shard_ids(last);
        let all = all_ids(shards);
        lemma_shard_ids(last, id);
        if a.contains(id) {
            let k = choose|k: int| 0 <= k < a.len() && a[k] == id;
            assert(all[k] == id);
            let (s, n) = choose|s: int, n: int|
                {
                    &&& 0 <= s < front.len()
                    &&& #[trigger] names_node(front[s], n, id)
                };
            assert(names_node(shards[s], n, id));
        }
        if b.contains(id) {
            let k = choose|k: int| 0 <= k < b.len() && b[k] == id;
            assert(all[a.len() + k] == id);
            let n = choose|n: int| #[trigger] names_node(last, n, id);
            assert(names_node(shards[shards.len() - 1], n, id));
        }
        if all.contains(id) {
            let k = choose|k: int| 0 <= k < all.len() && all[k] == id;
            if k < a.len() {
                assert(a[k] == id);
            } else {
                assert(b[k - a.len()] == id);
            }
        }
        if exists|s: int, n: int|
            {
                &&& 0 <= s < shards.len()
                &&& #[trigger] names_node(shards[s], n, id)
            } {
            let (s, n) = choose|s: int, n: int|
                {
                    &&& 0 <= s < shards.len()
                    &&& #[trigger] names_node(shards[s], n, id)
                };
            if s < front.len() {
                assert(names_node(front[s], n, id));
            } else {
                assert(names_node(last, n, id));
            }
        }
    }
}

proof fn lemma_shard_ids(shard: ReplyModel, id: Seq<char>)
    ensures
        shard_ids(shard).contains(id) <==> exists|n: int| #[trigger] names_node(shard, n, id),
{
    reveal_strlit("nodes");
    assert("nodes"@ =~= seq!['n', 'o', 'd', 'e', 's']);
    match shard {
        ReplyModel::Array(Some(fields)) => match lookup(fields, "nodes"@) {
            Some(ReplyModel::Array(Some(nodes))) => {
                lemma_node_ids(nodes, id);
                if node_ids(nodes).contains(id) {
                    let n = choose|n: int|
                        0 <= n < nodes.len() && node_id(#[trigger] nodes[n]) == Some(id);
                    reveal_strlit("id");
                    assert("id"@ =~= seq!['i', 'd']);
                    assert(names_node(shard, n, id));
                }
                if exists|n: int| #[trigger] names_node(shard, n, id) {
                    let n = choose|n: int| #[trigger] names_node(shard, n, id);
                    reveal_strlit("id");
                    assert("id"@ =~= seq!['i', 'd']);
                    assert(node_id(nodes[n]) == Some(id));
                }
            },
            _ => {},
        },
        _ => {},
    }
}

proof fn lemma_node_ids(nodes: Seq<ReplyModel>, id: Seq<char>)
    ensures
        node_ids(nodes).contains(id) <==> exists|n: int|
            0 <= n < nodes.len() && node_id(#[trigger] nodes[n]) == Some(id),
    decreases nodes.len(),
{
    if nodes.len() > 0 {
        let front = nodes.drop_last();
        lemma_node_ids(front, id);
        let rest = node_ids(front);
        let all = node_ids(nodes);
        if rest.contains(id) {
            let k = choose|k: int| 0 <= k < rest.len() && rest[k] == id;
            assert(all[k] == id);
            let n = choose|n: int|
                0 <= n < front.len() && node_id(#[trigger] front[n]) == Some(id);
            assert(node_id(nodes[n]) == Some(id));
        }
        if node_id(nodes.last()) == Some(id) {
            assert(all.last() == id);
            assert(node_id(nodes[nodes.len() - 1]) == Some(id));
        }
        if all.contains(id) && !rest.contains(id) {
            let k = choose|k: int| 0 <= k < all.len() && all[k] == id;
            if k < rest.len() {
                assert(rest[k] == id);
            }
        }
        if exists|n: int| 0 <= n < nodes.len() && node_id(#[trigger] nodes[n]) == Some(id) {
            let n = choose|n: int| 0 <= n < nodes.len() && node_id(#[trigger] nodes[n]) == Some(id);
            if n < front.len() {
                assert(node_id(front[n]) == Some(id));
            }
        }
    }
}

/// What a reply is: its kind and all that it holds, in order.
pub proof fn law_model_of_a_reply(r: RawReply, i: int)
    ensures
        r matches RawReply::Simple(s) ==> r.model() == ReplyModel::Simple(s@),
        r matches RawReply::Error(s) ==> r.model() == ReplyModel::Error(s@),
        r is Int ==> r.model() == ReplyModel::Int,
        r matches RawReply::Bulk(None) ==> r.model() == ReplyModel::Bulk(None),
        r matches RawReply::Bulk(Some(b)) ==> r.model() == ReplyModel::Bulk(Some(b@)),
        r matches RawReply::Array(None) ==> r.model() == ReplyModel::Array(None),
        r matches RawReply::Array(Some(v)) ==> (r.model() matches ReplyModel::Array(Some(ms))
            && ms.len() == v@.len() && (0 <= i < ms.len() ==> ms[i] == v@[i].model())),
{
    if let RawReply::Array(Some(v)) = r {
        lemma_models(v@);
    }
}

/// A byte that begins no reply fails the read, and so does the end of the stream behind
/// the first byte of one; without that end more bytes are waited for.
pub proof fn law_what_is_no_reply(kind: u8, rest: Seq<u8>, eof: bool)
    ensures
        kind != 43 && kind != 45 && kind != 58 && kind != 95 && kind != 36 && kind != 61 && kind
            != 42 && kind != 126 && kind != 62 && kind != 37 ==> reply_at(
            seq![kind] + rest,
            0,
            eof,
        ) is Fail,
        reply_at(seq![43u8], 0, true) is Fail,
        reply_at(seq![36u8], 0, true) is Fail,
        reply_at(seq![42u8], 0, true) is Fail,
        reply_at(seq![43u8], 0, false) is More,
        reply_at(seq![36u8], 0, false) is More,
        reply_at(seq![42u8], 0, false) is More,
{
    assert((seq![kind] + rest)[0] == kind);
    assert(seq![43u8].skip(1) =~= Seq::<u8>::empty());
    assert(seq![36u8].skip(1) =~= Seq::<u8>::empty());
    assert(seq![42u8].skip(1) =~= Seq::<u8>::empty());
    assert(first_at(Seq::<u8>::empty(), 10u8) == 0);
}

/// Lists of texts and of byte strings are what they hold, in order.
pub proof fn law_views_of_lists(v: Seq<String>, w: Seq<Vec<u8>>, i: int)
    ensures
        string_views(v).len() == v.len(),
        0 <= i < v.len() ==> string_views(v)[i] == v[i]@,
        byte_views(w).len() == w.len(),
        0 <= i < w.len() ==> byte_views(w)[i] == w[i]@,
{
}

} // verus!
