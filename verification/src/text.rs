//! Characters, trimming, splitting and decimal numbers.
//!
//! Text is modelled as a sequence of characters. The functions work on character
//! slices, so that a piece of a text is a slice of it.
use vstd::prelude::*;
use vstd::slice::slice_subrange;
use vstd::string::*;

verus! {

/// `String::push` appends one character.
pub assume_specification[ String::push ](s: &mut String, c: char)
    ensures
        final(s)@ == old(s)@.push(c),
;

/// Collects the characters of a string.
pub fn chars_of(s: &str) -> (v: Vec<char>)
    ensures
        v@ == s@,
{
    let mut v: Vec<char> = Vec::new();
    for c in it: s.chars()
        invariant
            v@ == it.seq().take(it.index() as int),
            it.seq() == s@,
    {
        v.push(c);
        assert(it.seq().take(it.index() as int + 1) =~= it.seq().take(it.index() as int).push(c));
    }
    assert(s@.take(s@.len() as int) =~= s@);
    v
}

/// Builds a string out of characters.
pub fn string_of(s: &[char]) -> (r: String)
    ensures
        r@ == s@,
{
    let mut r: String = String::new();
    for i in 0..s.len()
        invariant
            r@ == s@.take(i as int),
    {
        r.push(s[i]);
        assert(s@.take(i as int + 1) =~= s@.take(i as int).push(s@[i as int]));
    }
    assert(s@.take(s@.len() as int) =~= s@);
    r
}

/// Copies a string slice.
pub fn copy_str(s: &str) -> (r: String)
    ensures
        r@ == s@,
{
    s.to_owned()
}

/// Whether two character sequences are the same.
pub fn same_chars(a: &[char], b: &[char]) -> (r: bool)
    ensures
        r == (a@ == b@),
{
    if a.len() != b.len() {
        return false;
    }
    for i in 0..a.len()
        invariant
            a@.len() == b@.len(),
            forall|j: int| 0 <= j < i ==> a@[j] == b@[j],
    {
        if a[i] != b[i] {
            return false;
        }
    }
    assert(a@ =~= b@);
    true
}

/// Whether a character sequence is the text of `lit`.
pub fn is_text(a: &[char], lit: &str) -> (r: bool)
    ensures
        r == (a@ == lit@),
{
    let l = chars_of(lit);
    same_chars(a, l.as_slice())
}

/// Whether two strings are the same.
pub fn same_str(a: &str, b: &str) -> (r: bool)
    ensures
        r == (a@ == b@),
{
    let x = chars_of(a);
    is_text(x.as_slice(), b)
}

/// The Unicode characters with the property `White_Space`.
pub open spec fn is_space(c: char) -> bool {
    let n = c as u32;
    ||| 0x9 <= n <= 0xd
    ||| n == 0x20
    ||| n == 0x85
    ||| n == 0xa0
    ||| n == 0x1680
    ||| 0x2000 <= n <= 0x200a
    ||| n == 0x2028
    ||| n == 0x2029
    ||| n == 0x202f
    ||| n == 0x205f
    ||| n == 0x3000
}

/// Whether `c` is white space.
pub fn space(c: char) -> (r: bool)
    ensures
        r == is_space(c),
{
    let n: u32 = c as u32;
    (0x9 <= n && n <= 0xd) || n == 0x20 || n == 0x85 || n == 0xa0 || n == 0x1680 || (0x2000 <= n
        && n <= 0x200a) || n == 0x2028 || n == 0x2029 || n == 0x202f || n == 0x205f || n == 0x3000
}

/// `s` without the white space at its two ends.
pub open spec fn trimmed(s: Seq<char>) -> Seq<char>
    decreases s.len(),
{
    if s.len() == 0 {
        s
    } else if is_space(s[0]) {
        trimmed(s.drop_first())
    } else if is_space(s.last()) {
        trimmed(s.drop_last())
    } else {
        s
    }
}

/// A text whose ends are no white space is its own trimming.
pub proof fn lemma_trimmed_fixed(s: Seq<char>)
    ensures
        trimmed(trimmed(s)) == trimmed(s),
        trimmed(s).len() <= s.len(),
        trimmed(s).len() > 0 ==> !is_space(trimmed(s)[0]) && !is_space(trimmed(s).last()),
    decreases s.len(),
{
    if s.len() == 0 {
    } else if is_space(s[0]) {
        lemma_trimmed_fixed(s.drop_first());
    } else if is_space(s.last()) {
        lemma_trimmed_fixed(s.drop_last());
    }
}

/// Where the text without the white space at its ends begins and ends.
pub fn trim_bounds(s: &[char]) -> (r: (usize, usize))
    ensures
        r.0 <= r.1 <= s@.len(),
        s@.subrange(r.0 as int, r.1 as int) == trimmed(s@),
{
    let mut i: usize = 0;
    let mut j: usize = s.len();
    assert(s@.subrange(0, s@.len() as int) =~= s@);
    while i < j && space(s[i])
        invariant
            i <= j == s@.len(),
            trimmed(s@.subrange(i as int, j as int)) == trimmed(s@),
        decreases j - i,
    {
        assert(s@.subrange(i as int, j as int).drop_first() =~= s@.subrange(i as int + 1, j as int));
        i = i + 1;
    }
    while i < j && space(s[j - 1])
        invariant
            i <= j <= s@.len(),
            i < j ==> !is_space(s@[i as int]),
            trimmed(s@.subrange(i as int, j as int)) == trimmed(s@),
        decreases j - i,
    {
        assert(s@.subrange(i as int, j as int).drop_last() =~= s@.subrange(i as int, j as int - 1));
        j = j - 1;
    }
    (i, j)
}

/// Cuts the white space off both ends.
pub fn trim(s: &[char]) -> (r: &[char])
    ensures
        r@ == trimmed(s@),
{
    let (i, j) = trim_bounds(s);
    slice_subrange(s, i, j)
}

/// Cuts the white space off both ends of a string.
pub fn trim_str(s: &str) -> (r: &str)
    ensures
        r@ == trimmed(s@),
{
    let chars = chars_of(s);
    let (i, j) = trim_bounds(chars.as_slice());
    s.substring_char(i, j)
}

/// Where `x` first stands in `s`; the length of `s` where it does not occur.
pub open spec fn first_at<T>(s: Seq<T>, x: T) -> int
    decreases s.len(),
{
    if s.len() == 0 {
        0
    } else if s[0] == x {
        0
    } else {
        1 + first_at(s.drop_first(), x)
    }
}

/// Everything before `first_at` differs from `x`, and `x` stands there.
pub proof fn lemma_first_at<T>(s: Seq<T>, x: T)
    ensures
        0 <= first_at(s, x) <= s.len(),
        forall|j: int| 0 <= j < first_at(s, x) ==> s[j] != x,
        first_at(s, x) < s.len() ==> s[first_at(s, x)] == x,
    decreases s.len(),
{
    if s.len() > 0 && s[0] != x {
        lemma_first_at(s.drop_first(), x);
        assert forall|j: int| 0 <= j < first_at(s, x) implies s[j] != x by {
            if j > 0 {
                assert(s[j] == s.drop_first()[j - 1]);
            }
        }
    }
}

/// The index that `first_at` names is the only one with its property.
pub proof fn lemma_first_at_is<T>(s: Seq<T>, x: T, i: int)
    requires
        0 <= i <= s.len(),
        forall|j: int| 0 <= j < i ==> s[j] != x,
        i < s.len() ==> s[i] == x,
    ensures
        first_at(s, x) == i,
{
    lemma_first_at(s, x);
}

/// Finds the first `c`; the length where there is none.
pub fn find_char(s: &[char], c: char) -> (i: usize)
    ensures
        i as int == first_at(s@, c),
        i <= s@.len(),
{
    let mut i: usize = 0;
    while i < s.len() && s[i] != c
        invariant
            i <= s@.len(),
            forall|j: int| 0 <= j < i ==> s@[j] != c,
        decreases s@.len() - i,
    {
        i = i + 1;
    }
    proof {
        lemma_first_at_is(s@, c, i as int);
    }
    i
}

/// Where `x` last stands in `s`; -1 where it does not occur.
pub open spec fn last_at<T>(s: Seq<T>, x: T) -> int
    decreases s.len(),
{
    if s.len() == 0 {
        -1
    } else if s.last() == x {
        s.len() - 1
    } else {
        last_at(s.drop_last(), x)
    }
}

/// Finds the last `c`.
pub fn rfind_char(s: &[char], c: char) -> (r: Option<usize>)
    ensures
        match r {
            Some(i) => i as int == last_at(s@, c) && i < s@.len(),
            None => last_at(s@, c) == -1,
        },
{
    let mut n: usize = s.len();
    assert(s@.take(n as int) =~= s@);
    while n > 0
        invariant
            n <= s@.len(),
            last_at(s@.take(n as int), c) == last_at(s@, c),
        decreases n,
    {
        if s[n - 1] == c {
            return Some(n - 1);
        }
        assert(s@.take(n as int).drop_last() =~= s@.take(n as int - 1));
        n = n - 1;
    }
    None
}

/// The pieces of `s` between the separators `c`.
pub open spec fn split_on(s: Seq<char>, c: char) -> Seq<Seq<char>>
    decreases s.len(),
    via split_on_decreases
{
    let k = first_at(s, c);
    if k >= s.len() {
        seq![s]
    } else {
        seq![s.take(k)] + split_on(s.skip(k + 1), c)
    }
}

#[via_fn]
proof fn split_on_decreases(s: Seq<char>, c: char) {
    lemma_first_at(s, c);
}

/// The views of a vector of slices.
pub open spec fn pieces(v: Seq<&[char]>) -> Seq<Seq<char>> {
    v.map_values(|p: &[char]| p@)
}

/// Splits a text at every `c`.
pub fn split_at_char(s: &[char], c: char) -> (v: Vec<&[char]>)
    ensures
        pieces(v@) == split_on(s@, c),
{
    let mut v: Vec<&[char]> = Vec::new();
    let mut rest: &[char] = s;
    loop
        invariant
            pieces(v@) + split_on(rest@, c) == split_on(s@, c),
        decreases rest@.len(),
    {
        let k: usize = find_char(rest, c);
        let ghost before = pieces(v@);
        if k >= rest.len() {
            v.push(rest);
            assert(pieces(v@) =~= before + seq![rest@]);
            return v;
        }
        let head = slice_subrange(rest, 0, k);
        let tail = slice_subrange(rest, k + 1, rest.len());
        v.push(head);
        assert(head@ =~= rest@.take(k as int));
        assert(tail@ =~= rest@.skip(k as int + 1));
        assert(pieces(v@) =~= before + seq![head@]);
        assert(before + (seq![head@] + split_on(tail@, c)) =~= (before + seq![head@]) + split_on(
            tail@,
            c,
        ));
        rest = tail;
    }
}

/// The lines of a text: a line ends at `\n` or `\r\n`, and the end of the last
/// line is optional.
pub open spec fn lines_of(s: Seq<char>) -> Seq<Seq<char>>
    decreases s.len(),
    via lines_of_decreases
{
    let k = first_at(s, '\n');
    if s.len() == 0 {
        seq![]
    } else if k >= s.len() {
        seq![s]
    } else {
        seq![without_cr(s.take(k))] + lines_of(s.skip(k + 1))
    }
}

#[via_fn]
proof fn lines_of_decreases(s: Seq<char>) {
    lemma_first_at(s, '\n');
}

/// `s` without one carriage return at its end.
pub open spec fn without_cr(s: Seq<char>) -> Seq<char> {
    if s.len() > 0 && s.last() == '\r' {
        s.drop_last()
    } else {
        s
    }
}

/// Splits a text into its lines.
pub fn lines(s: &[char]) -> (v: Vec<&[char]>)
    ensures
        pieces(v@) == lines_of(s@),
{
    let mut v: Vec<&[char]> = Vec::new();
    let mut rest: &[char] = s;
    assert(pieces(v@) =~= seq![]);
    assert(seq![] + lines_of(s@) =~= lines_of(s@));
    while rest.len() > 0
        invariant
            pieces(v@) + lines_of(rest@) == lines_of(s@),
        decreases rest@.len(),
    {
        let k: usize = find_char(rest, '\n');
        let ghost before = pieces(v@);
        if k >= rest.len() {
            v.push(rest);
            assert(pieces(v@) =~= before + seq![rest@]);
            return v;
        }
        let end: usize = if k > 0 && rest[k - 1] == '\r' {
            k - 1
        } else {
            k
        };
        let head = slice_subrange(rest, 0, end);
        let tail = slice_subrange(rest, k + 1, rest.len());
        v.push(head);
        assert(head@ =~= without_cr(rest@.take(k as int)));
        assert(tail@ =~= rest@.skip(k as int + 1));
        assert(pieces(v@) =~= before + seq![head@]);
        assert(before + (seq![head@] + lines_of(tail@)) =~= (before + seq![head@]) + lines_of(
            tail@,
        ));
        rest = tail;
    }
    assert(pieces(v@) + lines_of(rest@) =~= pieces(v@));
    v
}

/// The number of characters before the first white space.
pub open spec fn word_len(s: Seq<char>) -> int
    decreases s.len(),
{
    if s.len() == 0 || is_space(s[0]) {
        0
    } else {
        1 + word_len(s.drop_first())
    }
}

/// A word is no longer than the text.
pub proof fn lemma_word_len(s: Seq<char>)
    ensures
        0 <= word_len(s) <= s.len(),
        forall|j: int| 0 <= j < word_len(s) ==> !is_space(s[j]),
        word_len(s) < s.len() ==> is_space(s[word_len(s)]),
    decreases s.len(),
{
    if s.len() > 0 && !is_space(s[0]) {
        lemma_word_len(s.drop_first());
        assert forall|j: int| 0 <= j < word_len(s) implies !is_space(s[j]) by {
            if j > 0 {
                assert(s[j] == s.drop_first()[j - 1]);
            }
        }
    }
}

/// The maximal runs of characters that are no white space.
pub open spec fn words_of(s: Seq<char>) -> Seq<Seq<char>>
    decreases s.len(),
    via words_of_decreases
{
    if s.len() == 0 {
        seq![]
    } else if is_space(s[0]) {
        words_of(s.drop_first())
    } else {
        seq![s.take(word_len(s))] + words_of(s.skip(word_len(s)))
    }
}

#[via_fn]
proof fn words_of_decreases(s: Seq<char>) {
    lemma_word_len(s);
}

/// Splits a text into its words.
pub fn words(s: &[char]) -> (v: Vec<&[char]>)
    ensures
        pieces(v@) == words_of(s@),
{
    let mut v: Vec<&[char]> = Vec::new();
    let mut rest: &[char] = s;
    assert(pieces(v@) =~= seq![]);
    assert(seq![] + words_of(s@) =~= words_of(s@));
    while rest.len() > 0
        invariant
            pieces(v@) + words_of(rest@) == words_of(s@),
        decreases rest@.len(),
    {
        if space(rest[0]) {
            let tail = slice_subrange(rest, 1, rest.len());
            assert(tail@ =~= rest@.drop_first());
            rest = tail;
        } else {
            let mut k: usize = 0;
            while k < rest.len() && !space(rest[k])
                invariant
                    k <= rest@.len(),
                    forall|j: int| 0 <= j < k ==> !is_space(rest@[j]),
                decreases rest@.len() - k,
            {
                k = k + 1;
            }
            proof {
                lemma_word_len(rest@);
                assert(k as int == word_len(rest@));
            }
            let ghost before = pieces(v@);
            let head = slice_subrange(rest, 0, k);
            let tail = slice_subrange(rest, k, rest.len());
            v.push(head);
            assert(head@ =~= rest@.take(k as int));
            assert(tail@ =~= rest@.skip(k as int));
            assert(pieces(v@) =~= before + seq![head@]);
            assert(before + (seq![head@] + words_of(tail@)) =~= (before + seq![head@]) + words_of(
                tail@,
            ));
            rest = tail;
        }
    }
    assert(pieces(v@) + words_of(rest@) =~= pieces(v@));
    v
}

/// Whether `s` begins with `p`.
pub open spec fn begins_with(s: Seq<char>, p: Seq<char>) -> bool {
    p.len() <= s.len() && s.take(p.len() as int) == p
}

/// The text behind the prefix `p`.
pub open spec fn after_prefix(s: Seq<char>, p: Seq<char>) -> Option<Seq<char>> {
    if begins_with(s, p) {
        Some(s.skip(p.len() as int))
    } else {
        None
    }
}

/// The view of an optional slice.
pub open spec fn opt_text(o: Option<&[char]>) -> Option<Seq<char>> {
    match o {
        Some(p) => Some(p@),
        None => None,
    }
}

/// The view of an optional string.
pub open spec fn opt_string(o: Option<String>) -> Option<Seq<char>> {
    match o {
        Some(p) => Some(p@),
        None => None,
    }
}

/// Cuts the prefix `p` off.
pub fn cut_prefix<'a>(s: &'a [char], p: &[char]) -> (r: Option<&'a [char]>)
    ensures
        opt_text(r) == after_prefix(s@, p@),
{
    if p.len() > s.len() {
        return None;
    }
    let head = slice_subrange(s, 0, p.len());
    assert(head@ =~= s@.take(p@.len() as int));
    if same_chars(head, p) {
        let tail = slice_subrange(s, p.len(), s.len());
        assert(tail@ =~= s@.skip(p@.len() as int));
        Some(tail)
    } else {
        None
    }
}

/// Cuts the prefix `lit` off.
pub fn cut_lit<'a>(s: &'a [char], lit: &str) -> (r: Option<&'a [char]>)
    ensures
        opt_text(r) == after_prefix(s@, lit@),
{
    let p = chars_of(lit);
    cut_prefix(s, p.as_slice())
}

/// The lower case of an ASCII letter; every other character is kept.
pub open spec fn lower(c: char) -> char {
    if 'A' <= c <= 'Z' {
        ((c as u8 + 32) as u8) as char
    } else {
        c
    }
}

/// A text in ASCII lower case.
pub open spec fn lowered(s: Seq<char>) -> Seq<char> {
    s.map_values(|c: char| lower(c))
}

/// Turns ASCII letters to lower case.
pub fn to_lower(s: &[char]) -> (v: Vec<char>)
    ensures
        v@ == lowered(s@),
{
    let mut v: Vec<char> = Vec::new();
    for i in 0..s.len()
        invariant
            v@ == lowered(s@.take(i as int)),
    {
        let c: char = s[i];
        let l: char = if 'A' <= c && c <= 'Z' {
            (c as u8 + 32) as char
        } else {
            c
        };
        v.push(l);
        assert(lowered(s@.take(i as int + 1)) =~= lowered(s@.take(i as int)).push(lower(c)));
    }
    assert(s@.take(s@.len() as int) =~= s@);
    v
}

/// Appends the characters of `b` to `a`.
pub fn push_all(a: &mut Vec<char>, b: &[char])
    ensures
        final(a)@ == old(a)@ + b@,
{
    let ghost start = a@;
    for i in 0..b.len()
        invariant
            a@ == start + b@.take(i as int),
    {
        a.push(b[i]);
        assert(b@.take(i as int + 1) =~= b@.take(i as int).push(b@[i as int]));
        assert(start + b@.take(i as int + 1) =~= (start + b@.take(i as int)).push(b@[i as int]));
    }
    assert(b@.take(b@.len() as int) =~= b@);
}

/// Whether `c` is an ASCII digit.
pub open spec fn is_digit(c: char) -> bool {
    '0' <= c <= '9'
}

/// Whether every character is an ASCII digit.
pub open spec fn all_digits(s: Seq<char>) -> bool {
    forall|i: int| 0 <= i < s.len() ==> is_digit(#[trigger] s[i])
}

/// The number that decimal digits stand for.
pub open spec fn digits_value(s: Seq<char>) -> nat
    decreases s.len(),
{
    if s.len() == 0 {
        0
    } else {
        digits_value(s.drop_last()) * 10 + (s.last() as u32 - '0' as u32) as nat
    }
}

/// A longer run of digits stands for no smaller number.
proof fn lemma_digits_value_grows(s: Seq<char>, i: int)
    requires
        0 <= i <= s.len(),
    ensures
        digits_value(s.take(i)) <= digits_value(s),
    decreases s.len(),
{
    if i == s.len() {
        assert(s.take(i) =~= s);
    } else {
        lemma_digits_value_grows(s.drop_last(), i);
        assert(s.drop_last().take(i) =~= s.take(i));
    }
}

/// The digits of a number with an optional plus sign.
pub open spec fn unsigned_part(s: Seq<char>) -> Seq<char> {
    if s.len() > 0 && s[0] == '+' {
        s.drop_first()
    } else {
        s
    }
}

/// The value of an unsigned decimal number: an optional plus sign and at least
/// one digit, not above `max`.
pub open spec fn unsigned_of(s: Seq<char>, max: nat) -> Option<nat> {
    let d = unsigned_part(s);
    if d.len() > 0 && all_digits(d) && digits_value(d) <= max {
        Some(digits_value(d))
    } else {
        None
    }
}

/// Reads decimal digits, without a sign, up to `max`.
fn parse_digits(d: &[char], max: u64) -> (r: Option<u64>)
    ensures
        match r {
            Some(n) => d@.len() > 0 && all_digits(d@) && digits_value(d@) <= max && n == digits_value(
                d@,
            ),
            None => !(d@.len() > 0 && all_digits(d@) && digits_value(d@) <= max),
        },
{
    if d.len() == 0 {
        return None;
    }
    let mut n: u64 = 0;
    for i in 0..d.len()
        invariant
            n == digits_value(d@.take(i as int)),
            n <= max,
            forall|j: int| 0 <= j < i ==> is_digit(#[trigger] d@[j]),
    {
        let c: char = d[i];
        assert(d@.take(i as int + 1).drop_last() =~= d@.take(i as int));
        proof {
            lemma_digits_value_grows(d@, i as int + 1);
        }
        if c < '0' || c > '9' {
            assert(!is_digit(d@[i as int]));
            return None;
        }
        let x: u64 = (c as u32 - '0' as u32) as u64;
        if n > max / 10 {
            assert(digits_value(d@.take(i as int + 1)) > max) by {
                assert(n * 10 + x > max) by (nonlinear_arith)
                    requires
                        n > max / 10,
                        n >= 0,
                        x >= 0,
                        max >= 0,
                ;
            }
            return None;
        }
        assert(n * 10 <= max) by (nonlinear_arith)
            requires
                n <= max / 10,
                max >= 0,
        ;
        if x > max - n * 10 {
            return None;
        }
        n = n * 10 + x;
    }
    assert(d@.take(d@.len() as int) =~= d@);
    Some(n)
}

/// Reads an unsigned decimal number up to `max`.
pub fn parse_unsigned(s: &[char], max: u64) -> (r: Option<u64>)
    ensures
        match r {
            Some(n) => unsigned_of(s@, max as nat) == Some(n as nat),
            None => unsigned_of(s@, max as nat) is None,
        },
{
    if s.len() > 0 && s[0] == '+' {
        let d = slice_subrange(s, 1, s.len());
        assert(d@ =~= s@.drop_first());
        parse_digits(d, max)
    } else {
        parse_digits(s, max)
    }
}

/// The value of a signed decimal number that fits in 64 bits: an optional sign and
/// at least one digit.
pub open spec fn signed_of(s: Seq<char>) -> Option<int> {
    if s.len() > 0 && s[0] == '-' {
        let d = s.drop_first();
        if d.len() > 0 && all_digits(d) && digits_value(d) <= 0x8000_0000_0000_0000 {
            Some(-(digits_value(d) as int))
        } else {
            None
        }
    } else {
        match unsigned_of(s, i64::MAX as nat) {
            Some(n) => Some(n as int),
            None => None,
        }
    }
}

/// Reads a signed decimal number.
pub fn parse_signed(s: &[char]) -> (r: Option<i64>)
    ensures
        match r {
            Some(n) => signed_of(s@) == Some(n as int),
            None => signed_of(s@) is None,
        },
{
    if s.len() > 0 && s[0] == '-' {
        let d = slice_subrange(s, 1, s.len());
        assert(d@ =~= s@.drop_first());
        match parse_digits(d, 0x8000_0000_0000_0000) {
            Some(n) => {
                if n == 0x8000_0000_0000_0000 {
                    Some(i64::MIN)
                } else {
                    Some(-(n as i64))
                }
            },
            None => None,
        }
    } else {
        match parse_unsigned(s, i64::MAX as u64) {
            Some(n) => Some(n as i64),
            None => None,
        }
    }
}

/// The character of a digit below ten.
pub open spec fn digit_char(d: nat) -> char {
    ('0' as u8 + d) as u8 as char
}

/// The decimal notation of a number.
pub open spec fn decimal(n: nat) -> Seq<char>
    decreases n,
{
    if n < 10 {
        seq![digit_char(n)]
    } else {
        decimal(n / 10).push(digit_char(n % 10))
    }
}

/// Reading the decimal notation of a number gives the number back.
pub proof fn lemma_decimal_value(n: nat)
    ensures
        decimal(n).len() > 0,
        all_digits(decimal(n)),
        digits_value(decimal(n)) == n,
        n > 0 ==> decimal(n)[0] != '0',
    decreases n,
{
    if n < 10 {
        let s = decimal(n);
        assert(s.drop_last() =~= Seq::<char>::empty());
        assert(digits_value(s.drop_last()) == 0);
    } else {
        lemma_decimal_value(n / 10);
        let s = decimal(n);
        assert(s.drop_last() =~= decimal(n / 10));
        assert forall|i: int| 0 <= i < s.len() implies is_digit(#[trigger] s[i]) by {
            if i < s.len() - 1 {
                assert(s[i] == decimal(n / 10)[i]);
            }
        }
    }
}

/// A number that is written in decimal is read back as it was.
pub proof fn lemma_decimal_round_trip(n: nat, max: nat)
    requires
        n <= max,
    ensures
        unsigned_of(decimal(n), max) == Some(n),
{
    lemma_decimal_value(n);
    assert(is_digit(decimal(n)[0]));
}

/// Appends the decimal notation of `n`.
pub fn push_decimal(out: &mut Vec<char>, n: u64)
    ensures
        final(out)@ == old(out)@ + decimal(n as nat),
    decreases n,
{
    let ghost start = out@;
    if n >= 10 {
        push_decimal(out, n / 10);
    }
    let d: u8 = (n % 10) as u8;
    out.push((48 + d) as char);
    assert(out@ =~= start + decimal(n as nat));
}

/// Appends the decimal notation of `n` to a string.
pub fn append_decimal(out: &mut String, n: u64)
    ensures
        final(out)@ == old(out)@ + decimal(n as nat),
{
    append_number(out, n as u128)
}

/// Appends the decimal notation of a wide number to a string.
pub fn append_number(out: &mut String, n: u128)
    ensures
        final(out)@ == old(out)@ + decimal(n as nat),
    decreases n,
{
    let ghost start = out@;
    if n >= 10 {
        append_number(out, n / 10);
    }
    let d: u8 = (n % 10) as u8;
    out.push((48 + d) as char);
    assert(out@ =~= start + decimal(n as nat));
}

/// What `Debug` shows of a text: the text in double quotes, with escapes.
pub uninterp spec fn quoted(s: Seq<char>) -> Seq<char>;

/// `Debug` for `str`, through `format!`: the text in double quotes, with its special
/// characters escaped. Which ones are, and how, is not stated.
#[verifier::external_body]
pub(crate) fn quote(s: &str) -> (r: String)
    ensures
        r@ == quoted(s@),
{
    format!("{:?}", s)
}

/// The decimal notation of a signed number.
pub open spec fn signed_decimal(n: int) -> Seq<char> {
    if n < 0 {
        seq!['-'] + decimal((-n) as nat)
    } else {
        decimal(n as nat)
    }
}

/// Appends the decimal notation of a signed number to a string.
pub fn append_signed(out: &mut String, n: i64)
    ensures
        final(out)@ == old(out)@ + signed_decimal(n as int),
{
    let ghost start = out@;
    if n < 0 {
        out.push('-');
        append_decimal(out, (-(n as i128)) as u64);
        assert(out@ =~= start + signed_decimal(n as int));
    } else {
        append_decimal(out, n as u64);
    }
}

/// Trimming cuts off white space at the two ends and nothing else.
pub proof fn law_trimming_cuts_only_space(s: Seq<char>) -> (ends: (int, int))
    ensures
        0 <= ends.0 <= ends.1 <= s.len(),
        trimmed(s) == s.subrange(ends.0, ends.1),
        forall|i: int| 0 <= i < ends.0 ==> is_space(#[trigger] s[i]),
        forall|i: int| ends.1 <= i < s.len() ==> is_space(#[trigger] s[i]),
        trimmed(s).len() > 0 ==> !is_space(trimmed(s)[0]) && !is_space(trimmed(s).last()),
    decreases s.len(),
{
    lemma_trimmed_fixed(s);
    if s.len() == 0 {
        assert(s.subrange(0, 0) =~= s);
        (0, 0)
    } else if is_space(s[0]) {
        let rest = s.drop_first();
        let (a, b) = law_trimming_cuts_only_space(rest);
        assert(rest.subrange(a, b) =~= s.subrange(a + 1, b + 1));
        assert forall|i: int| 0 <= i < a + 1 implies is_space(#[trigger] s[i]) by {
            if i > 0 {
                assert(rest[i - 1] == s[i]);
            }
        }
        assert forall|i: int| b + 1 <= i < s.len() implies is_space(#[trigger] s[i]) by {
            assert(rest[i - 1] == s[i]);
        }
        (a + 1, b + 1)
    } else if is_space(s.last()) {
        let front = s.drop_last();
        let (a, b) = law_trimming_cuts_only_space(front);
        assert(front.subrange(a, b) =~= s.subrange(a, b));
        assert forall|i: int| 0 <= i < a implies is_space(#[trigger] s[i]) by {
            assert(front[i] == s[i]);
        }
        assert forall|i: int| b <= i < s.len() implies is_space(#[trigger] s[i]) by {
            if i < front.len() {
                assert(front[i] == s[i]);
            }
        }
        (a, b)
    } else {
        assert(s.subrange(0, s.len() as int) =~= s);
        (0, s.len() as int)
    }
}

/// Where an element last stands: behind it the element does not occur.
pub proof fn law_last_at<T>(s: Seq<T>, x: T)
    ensures
        -1 <= last_at(s, x) < s.len(),
        last_at(s, x) >= 0 ==> s[last_at(s, x)] == x,
        forall|j: int| last_at(s, x) < j < s.len() ==> s[j] != x,
    decreases s.len(),
{
    if s.len() > 0 && s.last() != x {
        law_last_at(s.drop_last(), x);
        assert forall|j: int| last_at(s, x) < j < s.len() implies s[j] != x by {
            if j < s.len() - 1 {
                assert(s.drop_last()[j] == s[j]);
            }
        }
    }
}

/// A separator splits a text in two parts, each split for itself; a text without one is
/// one piece.
pub proof fn law_split_at_every_separator(a: Seq<char>, b: Seq<char>, c: char)
    ensures
        split_on(a + seq![c] + b, c) == split_on(a, c) + split_on(b, c),
        !a.contains(c) ==> split_on(a, c) == seq![a],
    decreases a.len(),
{
    let s = a + seq![c] + b;
    let k = first_at(a, c);
    lemma_first_at(a, c);
    if k < a.len() {
        assert(a[k] == c);
        assert forall|j: int| 0 <= j < k implies s[j] != c by {
            assert(s[j] == a[j]);
        }
        assert(s[k] == c);
        lemma_first_at_is(s, c, k);
        let rest = a.skip(k + 1);
        law_split_at_every_separator(rest, b, c);
        assert(s.take(k) =~= a.take(k));
        assert(s.skip(k + 1) =~= rest + seq![c] + b);
        assert(split_on(s, c) =~= split_on(a, c) + split_on(b, c));
        assert(a.contains(c));
    } else {
        assert forall|j: int| 0 <= j < a.len() implies s[j] != c by {
            assert(s[j] == a[j]);
        }
        assert(s[a.len() as int] == c);
        lemma_first_at_is(s, c, a.len() as int);
        assert(s.take(a.len() as int) =~= a);
        assert(s.skip(a.len() as int + 1) =~= b);
        assert(split_on(s, c) =~= split_on(a, c) + split_on(b, c));
    }
}

/// A line ends at the first newline, and a carriage return directly before it does not
/// belong to it; a text without a newline is one line, and an empty one has none.
pub proof fn law_lines_end_at_newlines(a: Seq<char>, b: Seq<char>)
    requires
        !a.contains('\n'),
    ensures
        lines_of(a + seq!['\r', '\n'] + b) == seq![a] + lines_of(b),
        (a.len() == 0 || a.last() != '\r') ==> lines_of(a + seq!['\n'] + b) == seq![a] + lines_of(
            b,
        ),
        a.len() > 0 ==> lines_of(a) == seq![a],
        lines_of(Seq::empty()).len() == 0,
{
    let n = a.len() as int;
    let s = a + seq!['\n'] + b;
    assert forall|j: int| 0 <= j < n implies s[j] != '\n' by {
        assert(s[j] == a[j]);
        assert(a.contains(a[j]));
    }
    assert(s[n] == '\n');
    lemma_first_at_is(s, '\n', n);
    assert(s.take(n) =~= a);
    assert(s.skip(n + 1) =~= b);
    let t = a + seq!['\r', '\n'] + b;
    assert forall|j: int| 0 <= j < n + 1 implies t[j] != '\n' by {
        if j < n {
            assert(t[j] == a[j]);
            assert(a.contains(a[j]));
        } else {
            assert(t[j] == '\r');
        }
    }
    assert(t[n + 1] == '\n');
    lemma_first_at_is(t, '\n', n + 1);
    assert(t.take(n + 1) =~= a.push('\r'));
    assert(without_cr(a.push('\r')) =~= a);
    assert(t.skip(n + 2) =~= b);
    assert forall|j: int| 0 <= j < n implies a[j] != '\n' by {
        assert(a.contains(a[j]));
    }
    lemma_first_at_is(a, '\n', n);
}

/// White space parts the words of a text, and characters that are none make up one word.
pub proof fn law_space_parts_words(a: Seq<char>, c: char, b: Seq<char>)
    requires
        is_space(c),
    ensures
        words_of(a + seq![c] + b) == words_of(a) + words_of(b),
        a.len() > 0 && (forall|i: int| 0 <= i < a.len() ==> !is_space(#[trigger] a[i]))
            ==> words_of(a) == seq![a],
        words_of(Seq::empty()).len() == 0,
    decreases a.len(),
{
    let s = a + seq![c] + b;
    if a.len() == 0 {
        assert(s.drop_first() =~= b);
        assert(words_of(a) + words_of(b) =~= words_of(b));
    } else if is_space(a[0]) {
        law_space_parts_words(a.drop_first(), c, b);
        assert(s.drop_first() =~= a.drop_first() + seq![c] + b);
    } else {
        lemma_word_len(a);
        let k = word_len(a);
        lemma_word_len_is(s, k);
        assert(k > 0);
        let rest = a.skip(k);
        law_space_parts_words(rest, c, b);
        assert(s.take(k) =~= a.take(k));
        assert(s.skip(k) =~= rest + seq![c] + b);
        assert(words_of(s) =~= words_of(a) + words_of(b));
        if forall|i: int| 0 <= i < a.len() ==> !is_space(#[trigger] a[i]) {
            assert(k == a.len());
            assert(a.take(k) =~= a);
            assert(rest =~= Seq::empty());
            assert(words_of(a) =~= seq![a]);
        }
    }
}

proof fn lemma_word_len_is(s: Seq<char>, k: int)
    requires
        0 <= k <= s.len(),
        forall|j: int| 0 <= j < k ==> !is_space(s[j]),
        k < s.len() ==> is_space(s[k]),
    ensures
        word_len(s) == k,
{
    lemma_word_len(s);
}

/// A prefix is cut off where the text begins with it, and what is left is the rest.
pub proof fn law_prefix_is_cut_off(s: Seq<char>, p: Seq<char>, rest: Seq<char>)
    ensures
        after_prefix(p + rest, p) == Some(rest),
        after_prefix(s, p) matches Some(r) ==> s == p + r,
        after_prefix(s, p) is None ==> s != p + rest,
{
    assert((p + rest).take(p.len() as int) =~= p);
    assert((p + rest).skip(p.len() as int) =~= rest);
    if after_prefix(s, p) is Some {
        assert(s =~= p + s.skip(p.len() as int));
    }
}

/// Decimal notation: one character per digit, the highest first.
pub proof fn law_decimal_notation(a: nat, d: nat)
    requires
        d < 10,
    ensures
        decimal(0) == seq!['0'],
        decimal(1) == seq!['1'],
        decimal(d).len() == 1,
        decimal(d)[0] as u32 == '0' as u32 + d,
        a > 0 ==> decimal(10 * a + d) == decimal(a) + decimal(d),
{
    assert(decimal(0) =~= seq!['0']);
    assert(decimal(1) =~= seq!['1']);
    if a > 0 {
        let n = 10 * a + d;
        assert(n / 10 == a && n % 10 == d);
        assert(decimal(n) =~= decimal(a) + decimal(d));
    }
}

/// A number is read where there are digits alone, behind an optional plus sign, and it
/// is not too large: each further digit counts ten times as little as the one before.
pub proof fn law_numbers_are_read_digit_by_digit(s: Seq<char>, c: char, max: nat)
    ensures
        unsigned_of(s, max) matches Some(n) ==> n <= max && s.len() > 0 && s.last() != '+',
        unsigned_of(Seq::empty(), max) is None,
        '0' <= c <= '9' && (unsigned_of(s, max) matches Some(n) && 10 * n + (c as u32 - '0' as u32)
            <= max) ==> unsigned_of(s.push(c), max) == Some(
            (10 * unsigned_of(s, max)->0 + (c as u32 - '0' as u32)) as nat,
        ),
        !('0' <= c <= '9') && !(s.len() == 0 && c == '+') ==> unsigned_of(s.push(c), max) is None,
        s.len() > 0 && s[0] != '+' ==> unsigned_of(seq!['+'] + s, max) == unsigned_of(s, max),
        '0' <= c <= '9' && (c as u32 - '0' as u32) <= max ==> unsigned_of(seq![c], max) == Some(
            (c as u32 - '0' as u32) as nat,
        ),
{
    let t = s.push(c);
    let d = unsigned_part(s);
    let e = unsigned_part(t);
    if unsigned_of(s, max) is Some {
        assert(is_digit(d[d.len() - 1]));
        assert(d.last() == s.last());
    }
    if s.len() > 0 {
        assert(e =~= d.push(c));
        assert(e.drop_last() =~= d);
        if unsigned_of(s, max) is Some && '0' <= c <= '9' {
            assert forall|i: int| 0 <= i < e.len() implies is_digit(#[trigger] e[i]) by {
                if i < d.len() {
                    assert(d[i] == e[i]);
                }
            }
        }
        if !is_digit(c) {
            assert(!is_digit(e[e.len() - 1]));
        }
    } else if c != '+' {
        assert(e =~= seq![c]);
        if !is_digit(c) {
            assert(!is_digit(e[0]));
        }
    }
    let one = seq![c];
    assert(one.drop_last() =~= Seq::<char>::empty());
    assert(digits_value(one.drop_last()) == 0);
    if '0' <= c <= '9' {
        assert(unsigned_part(one) =~= one);
        assert(all_digits(one));
    }
    if s.len() > 0 && s[0] != '+' {
        assert((seq!['+'] + s).drop_first() =~= s);
    }
}

/// A signed number is an unsigned one with a minus sign for the negative ones.
pub proof fn law_signed_numbers(n: int)
    requires
        i64::MIN <= n <= i64::MAX,
    ensures
        signed_of(signed_decimal(n)) == Some(n),
        n >= 0 ==> signed_decimal(n) == decimal(n as nat),
        n < 0 ==> signed_decimal(n) == seq!['-'] + decimal((-n) as nat),
{
    if n >= 0 {
        lemma_decimal_round_trip(n as nat, i64::MAX as nat);
        lemma_decimal_value(n as nat);
        assert(is_digit(decimal(n as nat)[0]));
    } else {
        let m = (-n) as nat;
        lemma_decimal_value(m);
        assert((seq!['-'] + decimal(m)).drop_first() =~= decimal(m));
    }
}

/// Letters in ASCII upper case become those in lower case, and nothing else changes.
pub proof fn law_lower_case(s: Seq<char>, i: int)
    requires
        0 <= i < s.len(),
    ensures
        lowered(s).len() == s.len(),
        'A' <= s[i] <= 'Z' ==> lowered(s)[i] as u32 == s[i] as u32 + ('a' as u32 - 'A' as u32),
        !('A' <= s[i] <= 'Z') ==> lowered(s)[i] == s[i],
        lowered(lowered(s)) == lowered(s),
{
    let a = lowered(lowered(s));
    assert forall|k: int| 0 <= k < s.len() implies a[k] == #[trigger] lowered(s)[k] by {
        let c = s[k];
        assert(!('A' <= lower(c) <= 'Z'));
    }
    assert(a =~= lowered(s));
}

/// Whether a text holds another as a part of it.
pub open spec fn has_part(text: Seq<char>, part: Seq<char>) -> bool {
    exists|before: Seq<char>, after: Seq<char>| text == #[trigger] (before + part + after)
}

/// What is appended to a text is a part of it, and all its parts stay.
pub proof fn lemma_parts(text: Seq<char>, more: Seq<char>)
    ensures
        has_part(text + more, more),
        has_part(text + more, text),
        forall|part: Seq<char>| #[trigger] has_part(text, part) ==> has_part(text + more, part),
{
    let none = Seq::<char>::empty();
    assert(text + more =~= text + more + none);
    assert(text + more =~= none + text + more);
    assert forall|part: Seq<char>| #[trigger] has_part(text, part) implies has_part(
        text + more,
        part,
    ) by {
        let (before, after) = choose|before: Seq<char>, after: Seq<char>|
            text == #[trigger] (before + part + after);
        assert(text + more =~= before + part + (after + more));
    }
}

} // verus!
