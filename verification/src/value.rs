//! Requests and reply values as the shards exchange them.
use vstd::prelude::*;
use vstd::utf8::encode_utf8;
use crate::bytes::{bytes_of, copy_bytes};
use crate::text::copy_str;

verus! {

/// The protocol version that a connection has negotiated.
#[derive(Debug, Clone, Copy, PartialEq, Eq, Structural)]
pub enum ProtoVersion {
    /// The second version.
    Resp2,
    /// The third version.
    Resp3,
}

/// An error reply: the text behind the `-ERR ` of its line.
#[derive(Debug, Clone, PartialEq, Eq)]
pub struct ErrorReply {
    /// The text.
    pub message: String,
}

impl ErrorReply {
    /// An error with the given text.
    pub fn err(message: &str) -> (r: ErrorReply)
        ensures
            r.message@ == message@,
    {
        ErrorReply { message: copy_str(message) }
    }

    /// The text of the error.
    pub fn message(&self) -> (r: &str)
        ensures
            r@ == self.message@,
    {
        self.message.as_str()
    }
}

/// A reply value.
#[derive(Debug, PartialEq, Eq)]
pub enum Value {
    /// A simple string.
    Simple(String),
    /// An integer.
    Integer(i64),
    /// A bulk string, or the null one.
    BulkString(Option<Vec<u8>>),
    /// An array, or the null one.
    Array(Option<Vec<Value>>),
    /// A push frame.
    Push(Vec<Value>),
    /// Null.
    Null,
    /// An error.
    Error(ErrorReply),
}

/// The mathematical value of a reply value.
pub enum ValueModel {
    /// A simple string.
    Simple(Seq<char>),
    /// An integer.
    Integer(i64),
    /// A bulk string, or the null one.
    Bulk(Option<Seq<u8>>),
    /// An array, or the null one.
    Array(Option<Seq<ValueModel>>),
    /// A push frame.
    Push(Seq<ValueModel>),
    /// Null.
    Null,
    /// An error, by its text.
    Error(Seq<char>),
}

impl Value {
    /// The mathematical value.
    pub open spec fn model(self) -> ValueModel
        decreases self,
    {
        match self {
            Value::Simple(s) => ValueModel::Simple(s@),
            Value::Integer(n) => ValueModel::Integer(n),
            Value::BulkString(None) => ValueModel::Bulk(None),
            Value::BulkString(Some(b)) => ValueModel::Bulk(Some(b@)),
            Value::Array(None) => ValueModel::Array(None),
            Value::Array(Some(v)) => ValueModel::Array(Some(values(v@))),
            Value::Push(v) => ValueModel::Push(values(v@)),
            Value::Null => ValueModel::Null,
            Value::Error(e) => ValueModel::Error(e.message@),
        }
    }

    /// A bulk string of the given bytes.
    pub fn bulk(b: Vec<u8>) -> (r: Value)
        ensures
            r.model() == ValueModel::Bulk(Some(b@)),
    {
        Value::BulkString(Some(b))
    }

    /// A bulk string of a text.
    pub fn bulk_str(s: &str) -> (r: Value)
        ensures
            r.model() == ValueModel::Bulk(Some(encode_utf8(s@))),
    {
        Value::BulkString(Some(bytes_of(s)))
    }

    /// The simple string `OK`.
    pub fn ok() -> (r: Value)
        ensures
            r.model() == ValueModel::Simple("OK"@),
    {
        Value::Simple("OK".to_owned())
    }

    /// An error value.
    pub fn error(e: ErrorReply) -> (r: Value)
        ensures
            r.model() == ValueModel::Error(e.message@),
    {
        Value::Error(e)
    }

    /// A copy of the value.
    pub fn copy(&self) -> (r: Value)
        ensures
            r.model() == self.model(),
        decreases self,
    {
        match self {
            Value::Simple(s) => Value::Simple(s.clone()),
            Value::Integer(n) => Value::Integer(*n),
            Value::BulkString(None) => Value::BulkString(None),
            Value::BulkString(Some(b)) => Value::BulkString(Some(copy_bytes(b.as_slice()))),
            Value::Array(None) => Value::Array(None),
            Value::Array(Some(v)) => Value::Array(Some(copy_values(v))),
            Value::Push(v) => Value::Push(copy_values(v)),
            Value::Null => Value::Null,
            Value::Error(e) => Value::Error(ErrorReply { message: e.message.clone() }),
        }
    }
}

/// The mathematical values of values.
pub open spec fn values(s: Seq<Value>) -> Seq<ValueModel>
    decreases s,
{
    if s.len() == 0 {
        Seq::empty()
    } else {
        values(s.drop_last()).push(s.last().model())
    }
}

/// The values of a sequence are the values of each of its elements.
pub broadcast proof fn lemma_values(s: Seq<Value>)
    ensures
        (#[trigger] values(s)).len() == s.len(),
        forall|i: int| 0 <= i < s.len() ==> #[trigger] values(s)[i] == s[i].model(),
    decreases s.len(),
{
    if s.len() > 0 {
        lemma_values(s.drop_last());
        assert forall|i: int| 0 <= i < s.len() implies #[trigger] values(s)[i] == s[i].model() by {
            if i < s.len() - 1 {
                assert(values(s)[i] == values(s.drop_last())[i]);
                assert(s.drop_last()[i] == s[i]);
            }
        }
    }
}

/// One value more.
pub proof fn lemma_values_push(s: Seq<Value>, v: Value)
    ensures
        values(s.push(v)) == values(s).push(v.model()),
{
    assert(s.push(v).drop_last() =~= s);
}

/// One value replaced.
pub proof fn lemma_values_update(s: Seq<Value>, i: int, v: Value)
    requires
        0 <= i < s.len(),
    ensures
        values(s.update(i, v)) == values(s).update(i, v.model()),
{
    lemma_values(s);
    lemma_values(s.update(i, v));
    assert(values(s.update(i, v)) =~= values(s).update(i, v.model()));
}

fn copy_values(v: &Vec<Value>) -> (r: Vec<Value>)
    ensures
        values(r@) == values(v@),
    decreases v@,
{
    let mut r: Vec<Value> = Vec::new();
    let mut i: usize = 0;
    assert(values(v@.take(0)) =~= values(r@));
    while i < v.len()
        invariant
            i <= v@.len(),
            values(r@) == values(v@.take(i as int)),
        decreases v@.len() - i,
    {
        let ghost before = r@;
        let x = v[i].copy();
        r.push(x);
        proof {
            lemma_values_push(before, x);
            lemma_values_push(v@.take(i as int), v@[i as int]);
            assert(v@.take(i as int + 1) =~= v@.take(i as int).push(v@[i as int]));
        }
        i += 1;
    }
    assert(v@.take(v@.len() as int) =~= v@);
    r
}

/// A request: a command and its arguments.
#[derive(Debug, Clone, PartialEq, Eq)]
pub struct Request {
    /// The command, then the arguments.
    pub args: Vec<Vec<u8>>,
}

/// The arguments of a request as byte sequences.
pub open spec fn arguments(r: Request) -> Seq<Seq<u8>> {
    r.args@.map_values(|a: Vec<u8>| a@)
}

impl Request {
    /// The command.
    pub fn command(&self) -> (r: &[u8])
        ensures
            r@ == (if self.args@.len() > 0 {
                self.args@[0]@
            } else {
                Seq::<u8>::empty()
            }),
    {
        if self.args.len() == 0 {
            &[]
        } else {
            self.args[0].as_slice()
        }
    }

    /// A copy of the request.
    pub fn copy(&self) -> (r: Request)
        ensures
            arguments(r) == arguments(*self),
    {
        let mut args: Vec<Vec<u8>> = Vec::new();
        for i in 0..self.args.len()
            invariant
                args@.len() == i,
                forall|k: int| 0 <= k < i ==> #[trigger] args@[k]@ == self.args@[k]@,
        {
            args.push(copy_bytes(self.args[i].as_slice()));
        }
        let r = Request { args };
        assert(arguments(r) =~= arguments(*self));
        r
    }
}

/// What a value is: its kind and all that it holds, in order.
pub proof fn law_model_of_a_value(v: Value, i: int)
    ensures
        v matches Value::Simple(s) ==> v.model() == ValueModel::Simple(s@),
        v matches Value::Integer(n) ==> v.model() == ValueModel::Integer(n),
        v matches Value::BulkString(None) ==> v.model() == ValueModel::Bulk(None),
        v matches Value::BulkString(Some(b)) ==> v.model() == ValueModel::Bulk(Some(b@)),
        v matches Value::Array(None) ==> v.model() == ValueModel::Array(None),
        v is Null ==> v.model() == ValueModel::Null,
        v matches Value::Error(e) ==> v.model() == ValueModel::Error(e.message@),
        v matches Value::Array(Some(items)) ==> (v.model() matches ValueModel::Array(Some(ms))
            && ms.len() == items@.len() && (0 <= i < ms.len() ==> ms[i] == items@[i].model())),
        v matches Value::Push(items) ==> (v.model() matches ValueModel::Push(ms) && ms.len()
            == items@.len() && (0 <= i < ms.len() ==> ms[i] == items@[i].model())),
{
    match v {
        Value::Array(Some(items)) => {
            lemma_values(items@);
        },
        Value::Push(items) => {
            lemma_values(items@);
        },
        _ => {},
    }
}

/// The arguments of a request are its words.
pub proof fn law_arguments_are_the_words(r: Request, i: int)
    requires
        0 <= i < r.args@.len(),
    ensures
        arguments(r).len() == r.args@.len(),
        arguments(r)[i] == r.args@[i]@,
{
}

} // verus!
