//! Byte strings: comparison, ASCII case, decimal numbers and text.
use vstd::prelude::*;
use crate::text::{decimal, digit_char, lemma_decimal_value};

verus! {

/// Whether two byte strings are the same.
pub fn same_bytes(a: &[u8], b: &[u8]) -> (r: bool)
    ensures
        r == (a@ == b@),
{
    if a.len() != b.len() {
        return false;
    }
    for i in 0..a.len()
        invariant
            a@.len() == b@.len(),
            forall|j: int| 0 <= j < i ==> a@[j] == b@[j],
    {
        if a[i] != b[i] {
            return false;
        }
    }
    assert(a@ =~= b@);
    true
}

/// Copies bytes.
pub fn copy_bytes(b: &[u8]) -> (v: Vec<u8>)
    ensures
        v@ == b@,
{
    let mut v: Vec<u8> = Vec::new();
    push_bytes(&mut v, b);
    assert(v@ =~= b@);
    v
}

/// Appends the bytes of `b` to `a`.
pub fn push_bytes(a: &mut Vec<u8>, b: &[u8])
    ensures
        final(a)@ == old(a)@ + b@,
{
    let ghost start = a@;
    for i in 0..b.len()
        invariant
            a@ == start + b@.take(i as int),
    {
        a.push(b[i]);
        assert(start + b@.take(i as int + 1) =~= (start + b@.take(i as int)).push(b@[i as int]));
    }
    assert(b@.take(b@.len() as int) =~= b@);
}

/// Whether every byte is ASCII.
pub open spec fn all_ascii(b: Seq<u8>) -> bool {
    forall|i: int| 0 <= i < b.len() ==> #[trigger] b[i] < 128
}

/// The characters of ASCII bytes.
pub open spec fn ascii_chars(b: Seq<u8>) -> Seq<char> {
    b.map_values(|x: u8| x as char)
}

/// The bytes of ASCII characters.
pub open spec fn char_bytes(s: Seq<char>) -> Seq<u8> {
    s.map_values(|c: char| c as u8)
}

/// What `String::from_utf8_lossy` makes of bytes.
pub uninterp spec fn utf8_lossy(bytes: Seq<u8>) -> Seq<char>;

/// `String::from_utf8_lossy`: the text of the bytes, with the invalid parts
/// replaced. How they are replaced is not stated; bytes that are valid UTF-8 are
/// decoded as they stand.
#[verifier::external_body]
fn from_utf8_lossy(b: &[u8]) -> (r: String)
    ensures
        r@ == utf8_lossy(b@),
        vstd::utf8::valid_utf8(b@) ==> r@ == vstd::utf8::decode_utf8(b@),
{
    String::from_utf8_lossy(b).into_owned()
}

/// The text of bytes: ASCII as it stands, valid UTF-8 decoded, and anything else by
/// lossy decoding.
pub open spec fn bytes_text(b: Seq<u8>) -> Seq<char> {
    if all_ascii(b) {
        ascii_chars(b)
    } else if vstd::utf8::valid_utf8(b) {
        vstd::utf8::decode_utf8(b)
    } else {
        utf8_lossy(b)
    }
}

/// The bytes of a text stand for that text.
pub proof fn lemma_text_back(s: Seq<char>)
    ensures
        bytes_text(vstd::utf8::encode_utf8(s)) == s,
{
    let b = vstd::utf8::encode_utf8(s);
    vstd::utf8::encode_utf8_valid_utf8(s);
    vstd::utf8::encode_utf8_decode_utf8(s);
    if all_ascii(b) {
        let chars = ascii_chars(b);
        vstd::utf8::is_ascii_chars_encode_utf8(chars);
        assert(vstd::utf8::encode_utf8(chars) =~= b);
        vstd::utf8::encode_utf8_decode_utf8(chars);
    }
}

/// The text of bytes.
pub fn text_of(b: &[u8]) -> (r: String)
    ensures
        r@ == bytes_text(b@),
{
    let mut r: String = String::new();
    for i in 0..b.len()
        invariant
            forall|j: int| 0 <= j < i ==> #[trigger] b@[j] < 128,
            r@ == ascii_chars(b@.take(i as int)),
    {
        if b[i] >= 128 {
            return from_utf8_lossy(b);
        }
        r.push(b[i] as char);
        assert(ascii_chars(b@.take(i as int + 1)) =~= ascii_chars(b@.take(i as int)).push(
            b@[i as int] as char,
        ));
    }
    assert(b@.take(b@.len() as int) =~= b@);
    r
}

/// Whether a byte string is a given word.
pub fn is_word(b: &[u8], word: &str) -> (r: bool)
    ensures
        r == (b@ == vstd::utf8::encode_utf8(word@)),
{
    same_bytes(b, word.as_bytes())
}

/// Byte strings as byte sequences.
pub open spec fn byte_seqs(v: Seq<Vec<u8>>) -> Seq<Seq<u8>> {
    v.map_values(|b: Vec<u8>| b@)
}

/// The bytes of a text.
pub fn bytes_of(s: &str) -> (v: Vec<u8>)
    ensures
        v@ == vstd::utf8::encode_utf8(s@),
{
    copy_bytes(s.as_bytes())
}

/// A byte in ASCII upper case.
pub open spec fn upper_byte(b: u8) -> u8 {
    if 97 <= b <= 122 {
        (b - 32) as u8
    } else {
        b
    }
}

/// Bytes in ASCII upper case.
pub open spec fn uppered(b: Seq<u8>) -> Seq<u8> {
    b.map_values(|x: u8| upper_byte(x))
}

/// Turns ASCII letters to upper case.
pub fn ascii_upper(b: &[u8]) -> (v: Vec<u8>)
    ensures
        v@ == uppered(b@),
{
    let mut v: Vec<u8> = Vec::new();
    for i in 0..b.len()
        invariant
            v@ == uppered(b@.take(i as int)),
    {
        let x: u8 = b[i];
        v.push(
            if 97 <= x && x <= 122 {
                x - 32
            } else {
                x
            },
        );
        assert(uppered(b@.take(i as int + 1)) =~= uppered(b@.take(i as int)).push(upper_byte(x)));
    }
    assert(b@.take(b@.len() as int) =~= b@);
    v
}

/// The decimal notation of a number, in bytes.
pub open spec fn decimal_bytes(n: nat) -> Seq<u8> {
    char_bytes(decimal(n))
}

/// Appends the decimal notation of `n`.
pub fn push_decimal_bytes(out: &mut Vec<u8>, n: u64)
    ensures
        final(out)@ == old(out)@ + decimal_bytes(n as nat),
    decreases n,
{
    let ghost start = out@;
    if n >= 10 {
        push_decimal_bytes(out, n / 10);
    }
    let d: u8 = (n % 10) as u8;
    out.push(48 + d);
    assert(digit_char((n % 10) as nat) as u8 == 48 + d);
    assert(out@ =~= start + decimal_bytes(n as nat));
}

/// The bytes of a decimal notation are ASCII and stand for its characters.
pub proof fn lemma_decimal_bytes(n: nat)
    ensures
        all_ascii(decimal_bytes(n)),
        ascii_chars(decimal_bytes(n)) == decimal(n),
        decimal_bytes(n).len() > 0,
        forall|i: int| 0 <= i < decimal_bytes(n).len() ==> 48 <= #[trigger] decimal_bytes(n)[i] <= 57,
{
    lemma_decimal_value(n);
    assert forall|i: int| 0 <= i < decimal_bytes(n).len() implies 48
        <= #[trigger] decimal_bytes(n)[i] <= 57 by {
        assert(crate::text::is_digit(decimal(n)[i]));
    }
    assert(ascii_chars(decimal_bytes(n)) =~= decimal(n));
}

/// Letters in ASCII lower case become those in upper case, and nothing else changes.
pub proof fn law_upper_case(b: Seq<u8>, i: int)
    requires
        0 <= i < b.len(),
    ensures
        uppered(b).len() == b.len(),
        97 <= b[i] <= 122 ==> uppered(b)[i] == b[i] - 32,
        !(97 <= b[i] <= 122) ==> uppered(b)[i] == b[i],
{
}

/// The bytes of a decimal notation are its characters.
pub proof fn law_decimal_bytes(a: nat, d: nat)
    requires
        d < 10,
    ensures
        decimal_bytes(d) == seq![(48 + d) as u8],
        a > 0 ==> decimal_bytes(10 * a + d) == decimal_bytes(a) + decimal_bytes(d),
{
    crate::text::law_decimal_notation(a, d);
    assert(decimal_bytes(d) =~= seq![(48 + d) as u8]);
    if a > 0 {
        assert(decimal_bytes(10 * a + d) =~= decimal_bytes(a) + decimal_bytes(d));
    }
}

/// A list of byte strings is what it holds, in order.
pub proof fn law_view_of_byte_strings(v: Seq<Vec<u8>>, i: int)
    requires
        0 <= i < v.len(),
    ensures
        byte_seqs(v).len() == v.len(),
        byte_seqs(v)[i] == v[i]@,
{
}

/// Text that is written as bytes is read as that text.
pub proof fn law_text_round_trip(s: Seq<char>)
    ensures
        bytes_text(vstd::utf8::encode_utf8(s)) == s,
{
    lemma_text_back(s);
}

} // verus!
