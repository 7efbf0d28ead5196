//! Character-level building blocks shared by the textual codecs: conversion
//! between strings and character vectors, decimal numbers, whitespace
//! trimming and field splitting.
use crate::errors::IntErrorKind;
use crate::txt_format::{lemma_line_end_is, line_at, next_line};
use std::string::FromUtf8Error;
use vstd::prelude::*;
use vstd::std_specs::iter::IteratorSpec;
use vstd::utf8::*;

verus! {

/// The error type of `String::from_utf8`, carried through as an opaque value.
#[verifier::external_type_specification]
#[verifier::external_body]
pub struct ExFromUtf8Error(FromUtf8Error);

/// Assumed of `String::from_utf8`, not proved: it succeeds exactly on
/// well-formed UTF-8 and then yields the characters that the bytes encode.
pub assume_specification[ String::from_utf8 ](vec: Vec<u8>) -> (res: Result<String, FromUtf8Error>)
    ensures
        res is Ok <==> valid_utf8(vec@),
        res matches Ok(s) ==> s@ == decode_utf8(vec@),
;

/// Assumed of `String::push`, not proved: it appends the character to the end
/// of the string and changes nothing else.
pub assume_specification[ String::push ](s: &mut String, ch: char)
    ensures
        final(s)@ == old(s)@.push(ch),
;

/// The characters of `s`, in order.
pub fn str_chars(s: &str) -> (out: Vec<char>)
    ensures
        out@ == s@,
{
    broadcast use vstd::string::axiom_spec_iter, vstd::string::next_postcondition;

    let mut it = s.chars();
    let mut out: Vec<char> = Vec::new();
    loop
        invariant
            out@ + it.remaining() == s@,
            it.obeys_prophetic_iter_laws(),
            it.decrease() is Some,
        decreases it.decrease()->0,
    {
        match it.next() {
            Some(c) => {
                out.push(c);
                assert(out@ + it.remaining() =~= s@);
            },
            None => {
                assert(out@ =~= s@);
                return out;
            },
        }
    }
}

/// A string holding exactly the characters `chars[from..to]`.
pub fn string_of(chars: &Vec<char>, from: usize, to: usize) -> (out: String)
    requires
        from <= to <= chars.len(),
    ensures
        out@ == chars@.subrange(from as int, to as int),
{
    let mut out = String::new();
    let mut i: usize = from;
    while i < to
        invariant
            from <= i <= to <= chars.len(),
            out@ == chars@.subrange(from as int, i as int),
        decreases to - i,
    {
        out.push(chars[i]);
        i += 1;
        assert(out@ =~= chars@.subrange(from as int, i as int));
    }
    out
}

/// A vector holding exactly the characters `chars[from..to]`.
pub fn copy_range(chars: &Vec<char>, from: usize, to: usize) -> (out: Vec<char>)
    requires
        from <= to <= chars.len(),
    ensures
        out@ == chars@.subrange(from as int, to as int),
{
    let mut out: Vec<char> = Vec::new();
    let mut i: usize = from;
    while i < to
        invariant
            from <= i <= to <= chars.len(),
            out@ == chars@.subrange(from as int, i as int),
        decreases to - i,
    {
        out.push(chars[i]);
        i += 1;
        assert(out@ =~= chars@.subrange(from as int, i as int));
    }
    out
}

/// Whether two character vectors hold the same text.
pub fn same_chars(a: &Vec<char>, b: &Vec<char>) -> (r: bool)
    ensures
        r == (a@ == b@),
{
    if a.len() != b.len() {
        return false;
    }
    let mut i: usize = 0;
    while i < a.len()
        invariant
            i <= a.len(),
            a.len() == b.len(),
            a@.subrange(0, i as int) == b@.subrange(0, i as int),
        decreases a.len() - i,
    {
        if a[i] != b[i] {
            return false;
        }
        i += 1;
        assert(a@.subrange(0, i as int) =~= a@.subrange(0, i - 1).push(a@[i - 1]));
        assert(b@.subrange(0, i as int) =~= b@.subrange(0, i - 1).push(b@[i - 1]));
    }
    assert(a@ =~= a@.subrange(0, a.len() as int));
    assert(b@ =~= b@.subrange(0, b.len() as int));
    true
}

/// Whether `chars` spells exactly the text of `word`.
pub fn spells(chars: &Vec<char>, word: &str) -> (r: bool)
    ensures
        r == (chars@ == word@),
{
    let other = str_chars(word);
    same_chars(chars, &other)
}

// ---------------------------------------------------------------------------
// Decimal numbers
// ---------------------------------------------------------------------------
/// Whether `c` is one of the ASCII digits `0` to `9`.
pub open spec fn is_digit(c: char) -> bool {
    48 <= c as u32 <= 57
}

/// The number that the ASCII digit `c` stands for.
pub open spec fn digit_value(c: char) -> nat {
    (c as u32 - 48) as nat
}

/// The ASCII digit that stands for `d`, for `d` below ten.
pub open spec fn digit_char(d: nat) -> char {
    ((48 + d) as u8) as char
}

/// Base-10 rendering of `n`: no sign, no leading zero except for zero itself.
pub open spec fn decimal(n: nat) -> Seq<char>
    decreases n,
{
    if n < 10 {
        seq![digit_char(n)]
    } else {
        decimal(n / 10).push(digit_char(n % 10))
    }
}

/// Whether every character of `s` is an ASCII digit.
pub open spec fn all_digits(s: Seq<char>) -> bool {
    forall|i: int| 0 <= i < s.len() ==> is_digit(#[trigger] s[i])
}

/// The number that a run of ASCII digits denotes in base 10.
pub open spec fn decimal_value(s: Seq<char>) -> nat
    decreases s.len(),
{
    if s.len() == 0 {
        0
    } else {
        decimal_value(s.drop_last()) * 10 + digit_value(s.last())
    }
}

/// The digits of a numeric field: the field without its optional leading `+`.
pub open spec fn unsigned_digits(s: Seq<char>) -> Seq<char> {
    if s.len() > 0 && s[0] == '+' {
        s.subrange(1, s.len() as int)
    } else {
        s
    }
}

/// What a numeric field denotes as an unsigned 64-bit number: an optional `+`
/// followed by at least one digit, with a value that fits.
pub open spec fn parse_decimal(s: Seq<char>) -> Result<u64, IntErrorKind> {
    let digits = unsigned_digits(s);
    if s.len() == 0 {
        Err(IntErrorKind::Empty)
    } else if digits.len() == 0 || !all_digits(digits) {
        Err(IntErrorKind::InvalidDigit)
    } else if decimal_value(digits) > u64::MAX {
        Err(IntErrorKind::PosOverflow)
    } else {
        Ok(decimal_value(digits) as u64)
    }
}

/// Appends the base-10 rendering of `n` to `out`.
pub fn push_decimal(out: &mut String, n: u64)
    ensures
        final(out)@ == old(out)@ + decimal(n as nat),
    decreases n,
{
    if n >= 10 {
        push_decimal(out, n / 10);
    }
    let d: u8 = (n % 10) as u8;
    out.push((48u8 + d) as char);
    assert(final(out)@ =~= old(out)@ + decimal(n as nat));
}

/// A longer run of digits never denotes less than one of its prefixes.
pub proof fn lemma_decimal_value_prefix(s: Seq<char>, k: int)
    requires
        0 <= k <= s.len(),
    ensures
        decimal_value(s.subrange(0, k)) <= decimal_value(s),
    decreases s.len(),
{
    if k == s.len() {
        assert(s.subrange(0, k) =~= s);
    } else {
        lemma_decimal_value_prefix(s.drop_last(), k);
        assert(s.drop_last().subrange(0, k) =~= s.subrange(0, k));
    }
}

/// Reads a numeric field as an unsigned 64-bit number.
pub fn parse_u64(chars: &Vec<char>) -> (res: Result<u64, IntErrorKind>)
    ensures
        res == parse_decimal(chars@),
{
    let n = chars.len();
    if n == 0 {
        return Err(IntErrorKind::Empty);
    }
    let start: usize = if chars[0] == '+' { 1 } else { 0 };
    let ghost digits = unsigned_digits(chars@);
    assert(digits =~= chars@.subrange(start as int, n as int));
    if start == n {
        return Err(IntErrorKind::InvalidDigit);
    }
    let mut i: usize = start;
    while i < n
        invariant
            start <= i <= n == chars.len(),
            digits == chars@.subrange(start as int, n as int),
            digits == unsigned_digits(chars@),
            start < n,
            forall|j: int| 0 <= j < i - start ==> is_digit(#[trigger] digits[j]),
        decreases n - i,
    {
        let c = chars[i];
        assert(digits[i - start] == c);
        if (c as u32) < 48 || (c as u32) > 57 {
            assert(!is_digit(digits[i - start]));
            return Err(IntErrorKind::InvalidDigit);
        }
        i += 1;
    }
    assert(all_digits(digits));
    let mut acc: u64 = 0;
    i = start;
    while i < n
        invariant
            start <= i <= n == chars.len(),
            digits == chars@.subrange(start as int, n as int),
            digits == unsigned_digits(chars@),
            start < n,
            all_digits(digits),
            acc as nat == decimal_value(digits.subrange(0, i - start)),
        decreases n - i,
    {
        let c = chars[i];
        assert(digits[i - start] == c);
        assert(is_digit(digits[i - start]));
        let d: u64 = (c as u32 - 48) as u64;
        proof {
            let next = digits.subrange(0, i - start + 1);
            assert(next.drop_last() =~= digits.subrange(0, i - start));
            assert(next.last() == c);
            assert(decimal_value(next) == acc as nat * 10 + d as nat);
            lemma_decimal_value_prefix(digits, i - start + 1);
        }
        if acc > (u64::MAX - d) / 10 {
            assert(acc as nat * 10 + d as nat > u64::MAX);
            return Err(IntErrorKind::PosOverflow);
        }
        acc = acc * 10 + d;
        i += 1;
    }
    assert(digits.subrange(0, n - start) =~= digits);
    Ok(acc)
}

/// Rendering a number and reading it back gives the number.
pub proof fn lemma_decimal_round_trip(n: nat)
    ensures
        decimal(n).len() > 0,
        all_digits(decimal(n)),
        decimal_value(decimal(n)) == n,
    decreases n,
{
    if n < 10 {
        assert(decimal(n).drop_last() =~= Seq::<char>::empty());
        assert(decimal_value(decimal(n).drop_last()) == 0);
    } else {
        lemma_decimal_round_trip(n / 10);
        assert(decimal(n).drop_last() =~= decimal(n / 10));
    }
}

// ---------------------------------------------------------------------------
// Whitespace
// ---------------------------------------------------------------------------
/// Whether `c` is a Unicode white-space character.
pub open spec fn is_whitespace(c: char) -> bool {
    let u = c as u32;
    ||| 0x09 <= u <= 0x0D
    ||| u == 0x20
    ||| u == 0x85
    ||| u == 0xA0
    ||| u == 0x1680
    ||| 0x2000 <= u <= 0x200A
    ||| u == 0x2028
    ||| u == 0x2029
    ||| u == 0x202F
    ||| u == 0x205F
    ||| u == 0x3000
}

/// Tests one character for Unicode white space.
pub fn char_is_whitespace(c: char) -> (r: bool)
    ensures
        r == is_whitespace(c),
{
    let u: u32 = c as u32;
    (0x09 <= u && u <= 0x0D) || u == 0x20 || u == 0x85 || u == 0xA0 || u == 0x1680 || (0x2000 <= u
        && u <= 0x200A) || u == 0x2028 || u == 0x2029 || u == 0x202F || u == 0x205F || u == 0x3000
}

/// `s` without its leading white space.
pub open spec fn trim_start(s: Seq<char>) -> Seq<char>
    decreases s.len(),
{
    if s.len() > 0 && is_whitespace(s[0]) {
        trim_start(s.drop_first())
    } else {
        s
    }
}

/// `s` without its trailing white space.
pub open spec fn trim_end(s: Seq<char>) -> Seq<char>
    decreases s.len(),
{
    if s.len() > 0 && is_whitespace(s.last()) {
        trim_end(s.drop_last())
    } else {
        s
    }
}

/// `s` without leading and trailing white space.
pub open spec fn trim(s: Seq<char>) -> Seq<char> {
    trim_end(trim_start(s))
}

/// The trimmed text of `chars[from..to]`, as a vector of its own.
pub fn trimmed(chars: &Vec<char>, from: usize, to: usize) -> (out: Vec<char>)
    requires
        from <= to <= chars.len(),
    ensures
        out@ == trim(chars@.subrange(from as int, to as int)),
{
    let mut a: usize = from;
    while a < to && char_is_whitespace(chars[a])
        invariant
            from <= a <= to <= chars.len(),
            trim_start(chars@.subrange(from as int, to as int)) == trim_start(
                chars@.subrange(a as int, to as int),
            ),
        decreases to - a,
    {
        assert(chars@.subrange(a as int, to as int).drop_first() =~= chars@.subrange(
            a + 1,
            to as int,
        ));
        a += 1;
    }
    let mut b: usize = to;
    while a < b && char_is_whitespace(chars[b - 1])
        invariant
            a <= b <= to <= chars.len(),
            trim_end(chars@.subrange(a as int, to as int)) == trim_end(
                chars@.subrange(a as int, b as int),
            ),
        decreases b - a,
    {
        assert(chars@.subrange(a as int, b as int).drop_last() =~= chars@.subrange(
            a as int,
            b - 1,
        ));
        b -= 1;
    }
    copy_range(chars, a, b)
}

// ---------------------------------------------------------------------------
// Splitting
// ---------------------------------------------------------------------------
/// Position of the first `c` in `s`, or the length of `s` where there is none.
pub open spec fn index_of(s: Seq<char>, c: char) -> int
    decreases s.len(),
{
    if s.len() == 0 || s[0] == c {
        0
    } else {
        1 + index_of(s.drop_first(), c)
    }
}

/// `index_of` is the one position that holds `c` with no `c` before it.
pub proof fn lemma_index_of(s: Seq<char>, c: char, i: int)
    requires
        0 <= i <= s.len(),
        forall|j: int| 0 <= j < i ==> s[j] != c,
        i < s.len() ==> s[i] == c,
    ensures
        index_of(s, c) == i,
    decreases s.len(),
{
    if i > 0 {
        lemma_index_of(s.drop_first(), c, i - 1);
    }
}

/// Finds the first `c` in `chars[from..]`; the result is `chars.len()` where
/// there is none.
pub fn find_char(chars: &Vec<char>, from: usize, c: char) -> (i: usize)
    requires
        from <= chars.len(),
    ensures
        from <= i <= chars.len(),
        i - from == index_of(chars@.subrange(from as int, chars.len() as int), c),
{
    let mut i: usize = from;
    while i < chars.len() && chars[i] != c
        invariant
            from <= i <= chars.len(),
            forall|j: int| from <= j < i ==> chars@[j] != c,
        decreases chars.len() - i,
    {
        i += 1;
    }
    proof {
        lemma_index_of(chars@.subrange(from as int, chars.len() as int), c, i - from);
    }
    i
}

/// The fields of `s` between occurrences of `sep`; always at least one.
pub open spec fn split(s: Seq<char>, sep: char) -> Seq<Seq<char>>
    decreases s.len(),
{
    let i = index_of(s, sep);
    if i < 0 || i >= s.len() {
        seq![s]
    } else {
        seq![s.subrange(0, i)] + split(s.subrange(i + 1, s.len() as int), sep)
    }
}

/// The texts held by a sequence of character vectors.
pub open spec fn texts(fields: Seq<Vec<char>>) -> Seq<Seq<char>> {
    Seq::new(fields.len(), |i: int| fields[i]@)
}

/// Splits `chars` at every `sep`.
pub fn split_fields(chars: &Vec<char>, sep: char) -> (fields: Vec<Vec<char>>)
    ensures
        texts(fields@) == split(chars@, sep),
{
    let n = chars.len();
    let mut fields: Vec<Vec<char>> = Vec::new();
    let mut start: usize = 0;
    assert(chars@.subrange(0, n as int) =~= chars@);
    assert(texts(fields@) + split(chars@, sep) =~= split(chars@, sep));
    loop
        invariant
            start <= n == chars.len(),
            texts(fields@) + split(chars@.subrange(start as int, n as int), sep) == split(
                chars@,
                sep,
            ),
        decreases n - start,
    {
        let end = find_char(chars, start, sep);
        let field = copy_range(chars, start, end);
        let ghost rest = chars@.subrange(start as int, n as int);
        let ghost before = texts(fields@);
        fields.push(field);
        assert(rest.subrange(0, end - start) =~= field@);
        assert(texts(fields@) =~= before + seq![field@]);
        if end == n {
            assert(split(rest, sep) =~= seq![field@]);
            return fields;
        }
        assert(rest.subrange(end - start + 1, rest.len() as int) =~= chars@.subrange(
            end + 1,
            n as int,
        ));
        assert(before + split(rest, sep) =~= texts(fields@) + split(
            chars@.subrange(end + 1, n as int),
            sep,
        ));
        start = end + 1;
    }
}

// ---------------------------------------------------------------------------
// Quotes
// ---------------------------------------------------------------------------
/// `s` with every double quote removed.
pub open spec fn strip_quotes(s: Seq<char>) -> Seq<char>
    decreases s.len(),
{
    if s.len() == 0 {
        s
    } else if s.last() == '"' {
        strip_quotes(s.drop_last())
    } else {
        strip_quotes(s.drop_last()).push(s.last())
    }
}

/// Stripped text holds no double quote.
pub proof fn lemma_strip_quotes_free(s: Seq<char>)
    ensures
        !strip_quotes(s).contains('"'),
    decreases s.len(),
{
    if s.len() > 0 {
        lemma_strip_quotes_free(s.drop_last());
        let rest = strip_quotes(s.drop_last());
        if s.last() != '"' && rest.push(s.last()).contains('"') {
            let i = choose|i: int|
                0 <= i < rest.push(s.last()).len() && rest.push(s.last())[i] == '"';
            if i < rest.len() {
                assert(rest[i] == '"');
            }
        }
    }
}

/// Wrapping quote-free text in double quotes and stripping them gives it back.
pub proof fn lemma_strip_quotes_wrapped(s: Seq<char>)
    requires
        !s.contains('"'),
    ensures
        strip_quotes(quoted(s)) == s,
{
    let w = seq!['"'] + s + seq!['"'];
    assert(w.drop_last() =~= seq!['"'] + s);
    lemma_strip_quotes_left(s);
}

/// A leading double quote in front of quote-free text is removed.
pub proof fn lemma_strip_quotes_left(s: Seq<char>)
    requires
        !s.contains('"'),
    ensures
        strip_quotes(seq!['"'] + s) == s,
    decreases s.len(),
{
    let w = seq!['"'] + s;
    if s.len() == 0 {
        assert(w.drop_last() =~= Seq::<char>::empty());
        assert(strip_quotes(w.drop_last()) =~= Seq::<char>::empty());
    } else {
        assert(s[s.len() - 1] != '"');
        assert forall|c: char| s.drop_last().contains(c) implies s.contains(c) by {
            let i = choose|i: int| 0 <= i < s.drop_last().len() && s.drop_last()[i] == c;
            assert(s[i] == c);
        }
        lemma_strip_quotes_left(s.drop_last());
        assert(w.drop_last() =~= seq!['"'] + s.drop_last());
        assert(s.drop_last().push(s.last()) =~= s);
    }
}

/// A string holding `chars` without its double quotes.
pub fn unquoted(chars: &Vec<char>) -> (out: String)
    ensures
        out@ == strip_quotes(chars@),
{
    let mut out = String::new();
    let mut i: usize = 0;
    while i < chars.len()
        invariant
            i <= chars.len(),
            out@ == strip_quotes(chars@.subrange(0, i as int)),
        decreases chars.len() - i,
    {
        let c = chars[i];
        assert(chars@.subrange(0, i + 1).drop_last() =~= chars@.subrange(0, i as int));
        if c != '"' {
            out.push(c);
        }
        i += 1;
    }
    assert(chars@.subrange(0, chars.len() as int) =~= chars@);
    out
}

// ---------------------------------------------------------------------------
// Lines
// ---------------------------------------------------------------------------
/// The bytes of a run of text lines: each line in UTF-8, followed by a line
/// feed.
pub open spec fn encode_lines(lines: Seq<Seq<char>>) -> Seq<u8>
    decreases lines.len(),
{
    if lines.len() == 0 {
        Seq::empty()
    } else {
        encode_lines(lines.drop_last()) + encode_utf8(lines.last()) + seq![10u8]
    }
}

/// Appends `line` in UTF-8, followed by a line feed.
pub fn push_line(out: &mut Vec<u8>, line: &str)
    ensures
        final(out)@ == old(out)@ + encode_utf8(line@) + seq![10u8],
{
    let bytes = line.as_bytes();
    let mut i: usize = 0;
    while i < bytes.len()
        invariant
            i <= bytes.len(),
            bytes@ == encode_utf8(line@),
            out@ == old(out)@ + bytes@.subrange(0, i as int),
        decreases bytes.len() - i,
    {
        out.push(bytes[i]);
        i += 1;
        assert(out@ =~= old(out)@ + bytes@.subrange(0, i as int));
    }
    assert(bytes@.subrange(0, bytes.len() as int) =~= bytes@);
    out.push(10);
}

/// The texts held by a sequence of strings.
pub open spec fn string_texts(lines: Seq<String>) -> Seq<Seq<char>> {
    Seq::new(lines.len(), |i: int| lines[i]@)
}

/// Appends every line of `lines` in UTF-8, each followed by a line feed.
pub fn push_lines(out: &mut Vec<u8>, lines: &Vec<String>)
    ensures
        final(out)@ == old(out)@ + encode_lines(string_texts(lines@)),
{
    let ghost all = string_texts(lines@);
    let mut i: usize = 0;
    assert(all.subrange(0, 0) =~= Seq::<Seq<char>>::empty());
    assert(out@ =~= old(out)@ + encode_lines(all.subrange(0, 0)));
    while i < lines.len()
        invariant
            i <= lines.len(),
            all == string_texts(lines@),
            out@ == old(out)@ + encode_lines(all.subrange(0, i as int)),
        decreases lines.len() - i,
    {
        let ghost before = out@;
        push_line(out, lines[i].as_str());
        assert(all.subrange(0, i + 1).drop_last() =~= all.subrange(0, i as int));
        assert(all.subrange(0, i + 1).last() == lines[i as int]@);
        assert(out@ =~= old(out)@ + encode_lines(all.subrange(0, i + 1)));
        i += 1;
    }
    assert(all.subrange(0, lines.len() as int) =~= all);
}

// ---------------------------------------------------------------------------
// UTF-8 bytes of text
// ---------------------------------------------------------------------------
/// Setting the top bit of a byte gives a byte of at least 0x80.
proof fn lemma_marked_bytes(x: u8)
    ensures
        0x80u8 | x >= 0x80,
        0xC0u8 | x >= 0x80,
        0xE0u8 | x >= 0x80,
        0xF0u8 | x >= 0x80,
{
    assert(0x80u8 | x >= 0x80) by (bit_vector);
    assert(0xC0u8 | x >= 0x80) by (bit_vector);
    assert(0xE0u8 | x >= 0x80) by (bit_vector);
    assert(0xF0u8 | x >= 0x80) by (bit_vector);
}

/// The UTF-8 bytes of one character: an ASCII character is its own single
/// byte, and every byte of any other character is 0x80 or above.
pub proof fn lemma_scalar_bytes(c: char)
    ensures
        encode_scalar(c as u32).len() >= 1,
        (c as u32) < 0x80 ==> encode_scalar(c as u32) == seq![(c as u32) as u8],
        (c as u32) >= 0x80 ==> forall|i: int|
            0 <= i < encode_scalar(c as u32).len() ==> #[trigger] encode_scalar(c as u32)[i]
                >= 0x80,
{
    let v = c as u32;
    if v < 0x80 {
        assert((v & 0x7F) as u8 == v as u8) by (bit_vector)
            requires
                v < 0x80,
        ;
        assert(encode_scalar(v) =~= seq![v as u8]);
    } else {
        lemma_marked_bytes(((v >> 6) & 0x1F) as u8);
        lemma_marked_bytes(((v >> 12) & 0x0F) as u8);
        lemma_marked_bytes(((v >> 18) & 0x7) as u8);
        lemma_marked_bytes((v & 0x3F) as u8);
        lemma_marked_bytes(((v >> 6) & 0x3F) as u8);
        lemma_marked_bytes(((v >> 12) & 0x3F) as u8);
    }
}

/// The UTF-8 bytes of two texts put together are the bytes of the first
/// followed by the bytes of the second.
pub proof fn lemma_encode_concat(a: Seq<char>, b: Seq<char>)
    ensures
        encode_utf8(a + b) == encode_utf8(a) + encode_utf8(b),
    decreases a.len(),
{
    if a.len() == 0 {
        assert(a + b =~= b);
        assert(encode_utf8(a) + encode_utf8(b) =~= encode_utf8(b));
    } else {
        lemma_encode_concat(a.drop_first(), b);
        assert((a + b).drop_first() =~= a.drop_first() + b);
        assert(encode_utf8(a + b) =~= encode_utf8(a) + encode_utf8(b));
    }
}

/// Two characters with the same number are the same character.
pub proof fn lemma_char_number(a: char, b: char)
    requires
        a as u32 == b as u32,
    ensures
        a == b,
{
    char_u32_cast(a, a as u32);
    char_u32_cast(b, a as u32);
}

/// The UTF-8 bytes of text without the ASCII character `c` do not hold the
/// byte of `c`.
pub proof fn lemma_ascii_free(s: Seq<char>, c: char)
    requires
        (c as u32) < 0x80,
        !s.contains(c),
    ensures
        !encode_utf8(s).contains((c as u32) as u8),
    decreases s.len(),
{
    if s.len() > 0 {
        let rest = s.drop_first();
        assert forall|x: char| rest.contains(x) implies s.contains(x) by {
            let i = choose|i: int| 0 <= i < rest.len() && rest[i] == x;
            assert(s[i + 1] == x);
        }
        lemma_ascii_free(rest, c);
        lemma_scalar_bytes(s[0]);
        let head = encode_scalar(s[0] as u32);
        let b = (c as u32) as u8;
        assert(s[0] != c);
        if s[0] as u32 == c as u32 {
            lemma_char_number(s[0], c);
        }
        assert forall|i: int| 0 <= i < encode_utf8(s).len() implies encode_utf8(s)[i] != b by {
            if i < head.len() {
                assert(encode_utf8(s)[i] == head[i]);
            } else {
                assert(encode_utf8(s)[i] == encode_utf8(rest)[i - head.len()]);
            }
        }
    }
}

/// The last UTF-8 byte of text that ends in a character other than the ASCII
/// character `c` is not the byte of `c`.
pub proof fn lemma_last_byte(s: Seq<char>, c: char)
    requires
        (c as u32) < 0x80,
        s.len() > 0,
        s.last() != c,
    ensures
        encode_utf8(s).len() > 0,
        encode_utf8(s).last() != (c as u32) as u8,
{
    assert(s =~= s.drop_last() + seq![s.last()]);
    lemma_encode_concat(s.drop_last(), seq![s.last()]);
    lemma_scalar_bytes(s.last());
    let tail = encode_scalar(s.last() as u32);
    let one = seq![s.last()];
    assert(one[0] == s.last());
    assert(one.drop_first() =~= Seq::<char>::empty());
    assert(encode_utf8(Seq::<char>::empty()) =~= Seq::<u8>::empty());
    assert(encode_utf8(one) =~= tail);
    if s.last() as u32 == c as u32 {
        lemma_char_number(s.last(), c);
    }
    assert(encode_utf8(s).last() == tail.last());
}

/// Whether `s` can stand as one line of text: it holds no line feed and does
/// not end in a carriage return.
pub open spec fn is_line(s: Seq<char>) -> bool {
    !s.contains('\n') && (s.len() > 0 ==> s.last() != '\r')
}

/// Where the bytes of a line and a line feed stand at offset `pre.len()`,
/// the line found there is that line, and the next line starts behind the
/// line feed.
pub proof fn lemma_line_found(pre: Seq<u8>, s: Seq<char>, rest: Seq<u8>)
    requires
        is_line(s),
    ensures
        line_at(pre + encode_utf8(s) + seq![10u8] + rest, pre.len() as int) == encode_utf8(s),
        next_line(pre + encode_utf8(s) + seq![10u8] + rest, pre.len() as int) == pre.len()
            + encode_utf8(s).len() + 1,
        valid_utf8(encode_utf8(s)),
        decode_utf8(encode_utf8(s)) == s,
{
    let bytes = encode_utf8(s);
    let data = pre + bytes + seq![10u8] + rest;
    let pos = pre.len() as int;
    let end = pos + bytes.len();
    lemma_ascii_free(s, '\n');
    assert forall|j: int| pos <= j < end implies data[j] != 10 by {
        assert(data[j] == bytes[j - pos]);
    }
    assert(data[end] == 10);
    lemma_line_end_is(data, pos, end);
    if s.len() > 0 {
        lemma_last_byte(s, '\r');
        assert(data[end - 1] == bytes.last());
    } else {
        assert(bytes.len() == 0);
    }
    assert(data.subrange(pos, end) =~= bytes);
    encode_utf8_valid_utf8(s);
    encode_utf8_decode_utf8(s);
}

/// The bytes of a run of lines start with the bytes of its first line.
pub proof fn lemma_encode_lines_first(lines: Seq<Seq<char>>)
    requires
        lines.len() > 0,
    ensures
        encode_lines(lines) == encode_utf8(lines[0]) + seq![10u8] + encode_lines(
            lines.drop_first(),
        ),
    decreases lines.len(),
{
    if lines.len() == 1 {
        assert(lines.drop_last() =~= Seq::<Seq<char>>::empty());
        assert(lines.drop_first() =~= Seq::<Seq<char>>::empty());
        assert(encode_lines(lines) =~= encode_utf8(lines[0]) + seq![10u8] + encode_lines(
            lines.drop_first(),
        ));
    } else {
        lemma_encode_lines_first(lines.drop_last());
        assert(lines.drop_last().drop_first() =~= lines.drop_first().drop_last());
        assert(lines.drop_first().last() == lines.last());
        assert(encode_lines(lines) =~= encode_utf8(lines[0]) + seq![10u8] + encode_lines(
            lines.drop_first(),
        ));
    }
}

// ---------------------------------------------------------------------------
// Words
// ---------------------------------------------------------------------------
/// Whether `c` is an upper-case ASCII letter or an underscore.
pub open spec fn is_word_char(c: char) -> bool {
    (65 <= c as u32 <= 90) || c as u32 == 95
}

/// Whether `s` is a non-empty run of upper-case ASCII letters and underscores.
pub open spec fn is_word(s: Seq<char>) -> bool {
    s.len() > 0 && forall|i: int| 0 <= i < s.len() ==> is_word_char(#[trigger] s[i])
}

/// The canonical names and the field keys are words.
pub proof fn lemma_words()
    ensures
        is_word("DEPOSIT"@),
        is_word("TRANSFER"@),
        is_word("WITHDRAWAL"@),
        is_word("SUCCESS"@),
        is_word("FAILURE"@),
        is_word("PENDING"@),
        is_word("TX_ID"@),
        is_word("TX_TYPE"@),
        is_word("FROM_USER_ID"@),
        is_word("TO_USER_ID"@),
        is_word("AMOUNT"@),
        is_word("TIMESTAMP"@),
        is_word("STATUS"@),
        is_word("DESCRIPTION"@),
{
    reveal_strlit("DEPOSIT");
    reveal_strlit("TRANSFER");
    reveal_strlit("WITHDRAWAL");
    reveal_strlit("SUCCESS");
    reveal_strlit("FAILURE");
    reveal_strlit("PENDING");
    reveal_strlit("TX_ID");
    reveal_strlit("TX_TYPE");
    reveal_strlit("FROM_USER_ID");
    reveal_strlit("TO_USER_ID");
    reveal_strlit("AMOUNT");
    reveal_strlit("TIMESTAMP");
    reveal_strlit("STATUS");
    reveal_strlit("DESCRIPTION");
}

/// A word holds no character that is neither an upper-case letter nor an
/// underscore.
pub proof fn lemma_word_free(s: Seq<char>, c: char)
    requires
        is_word(s),
        !is_word_char(c),
    ensures
        !s.contains(c),
{
}

/// A run of digits holds no character that is not a digit.
pub proof fn lemma_digits_free(s: Seq<char>, c: char)
    requires
        all_digits(s),
        !is_digit(c),
    ensures
        !s.contains(c),
{
}

/// Text that neither starts nor ends with white space is its own trimmed
/// form.
pub proof fn lemma_trim_same(s: Seq<char>)
    requires
        s.len() > 0 ==> !is_whitespace(s[0]) && !is_whitespace(s.last()),
    ensures
        trim(s) == s,
{
}

/// One space in front of text that neither starts nor ends with white space
/// is trimmed away.
pub proof fn lemma_trim_space(s: Seq<char>)
    requires
        s.len() > 0 ==> !is_whitespace(s[0]) && !is_whitespace(s.last()),
    ensures
        trim(seq![' '] + s) == s,
{
    let t = seq![' '] + s;
    assert(t.drop_first() =~= s);
    assert(trim_start(t) == trim_start(s));
}

/// A rendered number reads back as itself.
pub proof fn lemma_parse_decimal_round_trip(n: u64)
    ensures
        parse_decimal(decimal(n as nat)) == Ok::<u64, IntErrorKind>(n),
        all_digits(decimal(n as nat)),
        decimal(n as nat).len() > 0,
{
    lemma_decimal_round_trip(n as nat);
    assert(is_digit(decimal(n as nat)[0]));
}

/// Text put together from two texts holds `c` only where one of them does.
pub proof fn lemma_concat_free(a: Seq<char>, b: Seq<char>, c: char)
    requires
        !a.contains(c),
        !b.contains(c),
    ensures
        !(a + b).contains(c),
{
    if (a + b).contains(c) {
        let i = choose|i: int| 0 <= i < (a + b).len() && (a + b)[i] == c;
        if i < a.len() {
            assert(a[i] == c);
        } else {
            assert(b[i - a.len()] == c);
        }
    }
}

/// `s` between two double quotes.
pub open spec fn quoted(s: Seq<char>) -> Seq<char> {
    seq!['"'] + s + seq!['"']
}

/// Quoted text holds `c`, other than the quote, only where the text does.
pub proof fn lemma_quoted_free(s: Seq<char>, c: char)
    requires
        !s.contains(c),
        c != '"',
    ensures
        !quoted(s).contains(c),
        quoted(s).len() > 0,
        quoted(s)[0] == '"',
        quoted(s).last() == '"',
{
    if quoted(s).contains(c) {
        let i = choose|i: int| 0 <= i < quoted(s).len() && quoted(s)[i] == c;
        assert(s[i - 1] == c);
    }
}

/// The fields of `fields` with `sep` between each two neighbours.
pub open spec fn join(fields: Seq<Seq<char>>, sep: char) -> Seq<char>
    decreases fields.len(),
{
    if fields.len() == 0 {
        Seq::empty()
    } else if fields.len() == 1 {
        fields[0]
    } else {
        fields[0] + seq![sep] + join(fields.drop_first(), sep)
    }
}

/// Joined fields hold `c`, other than the separator, only where a field does.
pub proof fn lemma_join_free(fields: Seq<Seq<char>>, sep: char, c: char)
    requires
        c != sep,
        forall|i: int| 0 <= i < fields.len() ==> !(#[trigger] fields[i]).contains(c),
    ensures
        !join(fields, sep).contains(c),
    decreases fields.len(),
{
    if fields.len() == 1 {
        assert(!fields[0].contains(c));
    } else if fields.len() > 1 {
        let rest = fields.drop_first();
        assert forall|i: int| 0 <= i < rest.len() implies !(#[trigger] rest[i]).contains(c) by {
            assert(rest[i] == fields[i + 1]);
        }
        lemma_join_free(rest, sep, c);
        assert(!fields[0].contains(c));
        assert(!seq![sep].contains(c));
        lemma_concat_free(fields[0], seq![sep], c);
        lemma_concat_free(fields[0] + seq![sep], join(rest, sep), c);
    }
}

/// Splitting joined fields gives the fields back where none of them holds
/// the separator.
pub proof fn lemma_split_join(fields: Seq<Seq<char>>, sep: char)
    requires
        fields.len() > 0,
        forall|i: int| 0 <= i < fields.len() ==> !(#[trigger] fields[i]).contains(sep),
    ensures
        split(join(fields, sep), sep) == fields,
    decreases fields.len(),
{
    let first = fields[0];
    assert(!first.contains(sep));
    if fields.len() == 1 {
        lemma_index_of(first, sep, first.len() as int);
        assert(split(first, sep) =~= fields);
    } else {
        let rest = fields.drop_first();
        let text = join(fields, sep);
        assert forall|i: int| 0 <= i < rest.len() implies !(#[trigger] rest[i]).contains(sep) by {
            assert(rest[i] == fields[i + 1]);
        }
        lemma_split_join(rest, sep);
        assert forall|j: int| 0 <= j < first.len() implies text[j] != sep by {
            assert(text[j] == first[j]);
        }
        assert(text[first.len() as int] == sep);
        lemma_index_of(text, sep, first.len() as int);
        assert(text.subrange(0, first.len() as int) =~= first);
        assert(text.subrange(first.len() as int + 1, text.len() as int) =~= join(rest, sep));
        assert(split(text, sep) =~= fields);
    }
}

/// The bytes of two runs of lines put together are the bytes of the first
/// followed by the bytes of the second.
pub proof fn lemma_encode_lines_concat(a: Seq<Seq<char>>, b: Seq<Seq<char>>)
    ensures
        encode_lines(a + b) == encode_lines(a) + encode_lines(b),
    decreases b.len(),
{
    if b.len() == 0 {
        assert(a + b =~= a);
        assert(encode_lines(a) + encode_lines(b) =~= encode_lines(a));
    } else {
        lemma_encode_lines_concat(a, b.drop_last());
        assert((a + b).drop_last() =~= a + b.drop_last());
        assert((a + b).last() == b.last());
        assert(encode_lines(a + b) =~= encode_lines(a) + encode_lines(b));
    }
}

} // verus!
