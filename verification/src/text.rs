//! Text helpers: ASCII case folding, code-point order, splitting at a
//! delimiter, UTF-8 decoding and hexadecimal rendering, each with a contract
//! over `Seq<char>`.
use vstd::prelude::*;
use vstd::std_specs::iter::IteratorSpec;
use vstd::string::{StrSliceExecFns, StringExecFns};
use vstd::utf8::{decode_utf8, valid_utf8};

verus! {

/// `c` with `A`–`Z` mapped to `a`–`z`.
pub open spec fn ascii_lower(c: char) -> char {
    if 'A' <= c && c <= 'Z' {
        ((c as u32) + 32) as char
    } else {
        c
    }
}

/// `c` with `a`–`z` mapped to `A`–`Z`.
pub open spec fn ascii_upper(c: char) -> char {
    if 'a' <= c && c <= 'z' {
        ((c as u32) - 32) as char
    } else {
        c
    }
}

/// `s` with every character passed through [`ascii_lower`].
pub open spec fn lower_text(s: Seq<char>) -> Seq<char> {
    s.map_values(|c: char| ascii_lower(c))
}

/// `s` with every character passed through [`ascii_upper`].
pub open spec fn upper_text(s: Seq<char>) -> Seq<char> {
    s.map_values(|c: char| ascii_upper(c))
}

/// Equality of two texts up to the case of ASCII letters.
pub open spec fn same_ignoring_case(a: Seq<char>, b: Seq<char>) -> bool {
    lower_text(a) == lower_text(b)
}

/// Strict lexicographic order of two texts by code point.
pub open spec fn text_before(a: Seq<char>, b: Seq<char>) -> bool
    decreases a.len(),
{
    if b.len() == 0 {
        false
    } else if a.len() == 0 {
        true
    } else if a[0] != b[0] {
        (a[0] as u32) < (b[0] as u32)
    } else {
        text_before(a.drop_first(), b.drop_first())
    }
}

/// Whether a character is white space, as `char::is_whitespace` says: one
/// of the code points with the Unicode property `White_Space`.
pub open spec fn is_space(c: char) -> bool {
    let n = c as u32;
    ||| 0x09 <= n <= 0x0D
    ||| n == 0x20
    ||| n == 0x85
    ||| n == 0xA0
    ||| n == 0x1680
    ||| 0x2000 <= n <= 0x200A
    ||| n == 0x2028
    ||| n == 0x2029
    ||| n == 0x202F
    ||| n == 0x205F
    ||| n == 0x3000
}

/// `s` without its leading whitespace.
pub open spec fn trim_front(s: Seq<char>) -> Seq<char>
    decreases s.len(),
{
    if s.len() > 0 && is_space(s[0]) {
        trim_front(s.drop_first())
    } else {
        s
    }
}

/// `s` without its trailing whitespace.
pub open spec fn trim_back(s: Seq<char>) -> Seq<char>
    decreases s.len(),
{
    if s.len() > 0 && is_space(s.last()) {
        trim_back(s.drop_last())
    } else {
        s
    }
}

/// `s` without leading and trailing whitespace.
pub open spec fn trimmed(s: Seq<char>) -> Seq<char> {
    trim_back(trim_front(s))
}

/// The UTF-16 code units of one character: the code point itself below
/// `0x10000`, and a high and a low surrogate from there on.
pub open spec fn char_units(c: char) -> Seq<u16> {
    let n = c as u32;
    if n < 0x10000 {
        seq![n as u16]
    } else {
        seq![(0xD800 + (n - 0x10000) / 0x400) as u16, (0xDC00 + (n - 0x10000) % 0x400) as u16]
    }
}

/// The UTF-16 code units of a text.
pub open spec fn utf16_units(s: Seq<char>) -> Seq<u16>
    decreases s.len(),
{
    if s.len() == 0 {
        Seq::empty()
    } else {
        char_units(s[0]) + utf16_units(s.drop_first())
    }
}

/// The decimal digits of a number, without leading zeros.
pub open spec fn decimal_of(n: u64) -> Seq<char>
    decreases n,
{
    if n < 10 {
        seq![hex_digit(n as int)]
    } else {
        decimal_of(n / 10) + seq![hex_digit((n % 10) as int)]
    }
}

/// The number that a row of decimal digits spells, or `None` where a byte
/// is no digit; nothing spells zero.
pub open spec fn digits_value(digits: Seq<u8>) -> Option<nat>
    decreases digits.len(),
{
    if digits.len() == 0 {
        Some(0)
    } else {
        match digits_value(digits.drop_last()) {
            Some(v) => if 48 <= digits.last() <= 57 {
                Some(10 * v + (digits.last() - 48) as nat)
            } else {
                None
            },
            None => None,
        }
    }
}

/// The digits of a decimal number: the bytes without a leading plus sign.
pub open spec fn decimal_digits(bytes: Seq<u8>) -> Seq<u8> {
    if bytes.len() > 0 && bytes[0] == 43 {
        bytes.skip(1)
    } else {
        bytes
    }
}

/// The number that a text spells in decimal digits, with or without a plus
/// sign before them, or `None` where the text is anything else or the
/// number is beyond `u64`.
pub open spec fn decimal_u64(s: Seq<char>) -> Option<u64> {
    let digits = decimal_digits(vstd::utf8::encode_utf8(s));
    if digits.len() == 0 {
        None
    } else {
        match digits_value(digits) {
            Some(v) => if v <= u64::MAX {
                Some(v as u64)
            } else {
                None
            },
            None => None,
        }
    }
}

/// A row of digits spells at least what its beginning spells.
pub proof fn lemma_digits_grow(digits: Seq<u8>, i: int)
    requires
        0 <= i <= digits.len(),
        digits_value(digits) is Some,
    ensures
        digits_value(digits.take(i)) matches Some(v) && v <= digits_value(digits)->Some_0,
    decreases digits.len() - i,
{
    if i < digits.len() {
        lemma_digits_grow(digits, i + 1);
        assert(digits.take(i + 1).drop_last() =~= digits.take(i));
    } else {
        assert(digits.take(i) =~= digits);
    }
}

/// Where the beginning of a row of bytes spells no number, the row spells
/// none.
pub proof fn lemma_digits_fail(digits: Seq<u8>, i: int)
    requires
        0 <= i <= digits.len(),
        digits_value(digits.take(i)) is None,
    ensures
        digits_value(digits) is None,
    decreases digits.len() - i,
{
    if i < digits.len() {
        assert(digits.take(i + 1).drop_last() =~= digits.take(i));
        lemma_digits_fail(digits, i + 1);
    } else {
        assert(digits.take(i) =~= digits);
    }
}

/// `std::str::Utf8Error`, carried through as it is.
#[verifier::external_type_specification]
#[verifier::external_body]
pub struct ExUtf8Error(std::str::Utf8Error);

/// `std::str::from_utf8` accepts exactly the well-formed UTF-8 byte strings
/// and returns the text that the bytes encode.
pub assume_specification[ std::str::from_utf8 ](bytes: &[u8]) -> (r: Result<
    &str,
    std::str::Utf8Error,
>)
    ensures
        r is Ok <==> valid_utf8(bytes@),
        r matches Ok(s) ==> s@ == decode_utf8(bytes@),
;

/// Whether a character is white space.
fn space(c: char) -> (r: bool)
    ensures
        r == is_space(c),
{
    let n = c as u32;
    (0x09 <= n && n <= 0x0D) || n == 0x20 || n == 0x85 || n == 0xA0 || n == 0x1680 || (0x2000 <= n
        && n <= 0x200A) || n == 0x2028 || n == 0x2029 || n == 0x202F || n == 0x205F || n == 0x3000
}

/// Leading white space can be left out before the rest is cut off.
proof fn lemma_trim_front_skip(s: Seq<char>, i: int)
    requires
        0 <= i <= s.len(),
        forall|j: int| 0 <= j < i ==> is_space(s[j]),
    ensures
        trim_front(s) == trim_front(s.skip(i)),
    decreases i,
{
    if i > 0 {
        let rest = s.drop_first();
        assert forall|j: int| 0 <= j < i - 1 implies is_space(rest[j]) by {
            assert(rest[j] == s[j + 1]);
        }
        lemma_trim_front_skip(rest, i - 1);
        assert(rest.skip(i - 1) =~= s.skip(i));
    } else {
        assert(s.skip(0) =~= s);
    }
}

/// Trailing white space can be left out before the rest is cut off.
proof fn lemma_trim_back_take(s: Seq<char>, e: int)
    requires
        0 <= e <= s.len(),
        forall|j: int| e <= j < s.len() ==> is_space(s[j]),
    ensures
        trim_back(s) == trim_back(s.take(e)),
    decreases s.len() - e,
{
    if e < s.len() {
        let front = s.drop_last();
        lemma_trim_back_take(front, e);
        assert(front.take(e) =~= s.take(e));
    } else {
        assert(s.take(e) =~= s);
    }
}

/// The text without leading and trailing white space.
pub fn trim_text<'a>(s: &'a str) -> (r: &'a str)
    ensures
        r@ == trimmed(s@),
{
    broadcast use vstd::string::axiom_spec_iter, vstd::string::next_postcondition;

    let n = s.unicode_len();
    let mut it = s.chars();
    let mut i: usize = 0;
    let mut found = false;
    let mut start: usize = 0;
    let mut end: usize = 0;
    assert(it.remaining() =~= s@.skip(0));
    loop
        invariant
            i <= n,
            n == s@.len(),
            it.remaining() == s@.skip(i as int),
            !found ==> start == 0 && end == 0 && forall|j: int| 0 <= j < i ==> is_space(s@[j]),
            found ==> start < end <= i && !is_space(s@[start as int]) && !is_space(
                s@[end - 1],
            ) && (forall|j: int| 0 <= j < start ==> is_space(s@[j])) && (forall|j: int|
                end <= j < i ==> is_space(s@[j])),
            it.decrease() is Some,
        decreases it.decrease()->0,
    {
        match it.next() {
            Some(c) => {
                assert(i < n);
                assert(c == s@[i as int]);
                if !space(c) {
                    if !found {
                        start = i;
                        found = true;
                    }
                    end = i + 1;
                }
                assert(it.remaining() =~= s@.skip(i + 1));
                i = i + 1;
            },
            None => {
                assert(i == n);
                let r = s.substring_char(start, end);
                proof {
                    lemma_trim_front_skip(s@, if found {
                        start as int
                    } else {
                        n as int
                    });
                    if found {
                        let rest = s@.skip(start as int);
                        assert(rest[0] == s@[start as int]);
                        assert(trim_front(rest) == rest);
                        assert forall|j: int| end - start <= j < rest.len() implies is_space(
                            rest[j],
                        ) by {
                            assert(rest[j] == s@[start + j]);
                        }
                        lemma_trim_back_take(rest, end - start);
                        let kept = rest.take(end - start);
                        assert(kept.last() == s@[end - 1]);
                        assert(trim_back(kept) == kept);
                        assert(kept =~= s@.subrange(start as int, end as int));
                    } else {
                        assert(s@.skip(n as int) =~= Seq::<char>::empty());
                        assert(trim_front(Seq::<char>::empty()) == Seq::<char>::empty());
                        assert(trim_back(Seq::<char>::empty()) == Seq::<char>::empty());
                        assert(r@ =~= Seq::<char>::empty());
                    }
                }
                return r;
            },
        }
    }
}

/// A text that neither begins nor ends with white space is left as it is
/// by trimming.
pub proof fn lemma_trimmed_same(s: Seq<char>)
    requires
        s.len() > 0 ==> !is_space(s.first()) && !is_space(s.last()),
    ensures
        trimmed(s) == s,
{
}

/// The eight hexadecimal digits of a number are in capitals already.
pub proof fn lemma_hex8_upper(v: u32)
    ensures
        upper_text(hex8(v)) == hex8(v),
{
    let s = hex8(v);
    assert forall|i: int| 0 <= i < 8 implies ascii_upper(#[trigger] s[i]) == s[i] by {
        let d = ((v as int) / pow16(7 - i)) % 16;
        assert(s[i] == hex_digit(d));
    }
    assert(upper_text(s) =~= s);
}

/// The eight hexadecimal digits of a number are left as they are by
/// trimming.
pub proof fn lemma_hex8_trimmed(v: u32)
    ensures
        trimmed(hex8(v)) == hex8(v),
{
    let s = hex8(v);
    assert(!is_space(hex_digit(((v as int) / pow16(7)) % 16)));
    assert(!is_space(hex_digit(((v as int) / pow16(0)) % 16)));
    assert(s.first() == hex_digit(((v as int) / pow16(7)) % 16));
    assert(s.last() == hex_digit(((v as int) / pow16(0)) % 16));
    lemma_trimmed_same(s);
}

/// A byte with `a`–`z` mapped to `A`–`Z`.
pub open spec fn upper_byte(b: u8) -> u8 {
    if 0x61 <= b <= 0x7A {
        (b - 32) as u8
    } else {
        b
    }
}

/// A byte that holds the mark of a leading or a continuation byte of
/// UTF-8 is at least 128.
proof fn lemma_high_bit(x: u8)
    by (bit_vector)
    ensures
        (0x80u8 | x) >= 0x80,
        (0xC0u8 | x) >= 0x80,
        (0xE0u8 | x) >= 0x80,
        (0xF0u8 | x) >= 0x80,
{
}

/// The seven low bits of a number below 128 are the number.
proof fn lemma_low_bits(n: u32)
    by (bit_vector)
    requires
        n <= 0x7F,
    ensures
        n & 0x7F == n,
{
}

/// The UTF-8 bytes of a character in upper case are the bytes of the
/// character, each in upper case: only a letter `a`–`z` has one of them
/// among its bytes.
proof fn lemma_upper_scalar(c: char)
    ensures
        vstd::utf8::encode_scalar(ascii_upper(c) as u32) == vstd::utf8::encode_scalar(
            c as u32,
        ).map_values(|b: u8| upper_byte(b)),
{
    let n = c as u32;
    let up = ascii_upper(c) as u32;
    let bytes = vstd::utf8::encode_scalar(n);
    let mapped = bytes.map_values(|b: u8| upper_byte(b));
    vstd::utf8::char_is_scalar(c);
    if n <= 0x7F {
        lemma_low_bits(n);
        if 0x61 <= n <= 0x7A {
            assert(up == n - 32);
            lemma_low_bits(up);
        }
        assert(vstd::utf8::encode_scalar(up) =~= mapped);
    } else {
        assert(up == n);
        lemma_high_bit(((n >> 6) & 0x1F) as u8);
        lemma_high_bit(((n >> 12) & 0x0F) as u8);
        lemma_high_bit(((n >> 18) & 0x7) as u8);
        lemma_high_bit((n & 0x3F) as u8);
        lemma_high_bit(((n >> 6) & 0x3F) as u8);
        lemma_high_bit(((n >> 12) & 0x3F) as u8);
        assert(bytes =~= mapped);
    }
}

/// The UTF-8 bytes of a text in upper case are the bytes of the text, each
/// in upper case.
pub proof fn lemma_upper_bytes(s: Seq<char>)
    ensures
        vstd::utf8::encode_utf8(upper_text(s)) == vstd::utf8::encode_utf8(s).map_values(
            |b: u8| upper_byte(b),
        ),
    decreases s.len(),
{
    if s.len() > 0 {
        let rest = s.drop_first();
        lemma_upper_bytes(rest);
        lemma_upper_scalar(s[0]);
        assert(upper_text(s).drop_first() =~= upper_text(rest));
        assert(upper_text(s)[0] == ascii_upper(s[0]));
        let head = vstd::utf8::encode_scalar(s[0] as u32);
        let tail = vstd::utf8::encode_utf8(rest);
        assert((head + tail).map_values(|b: u8| upper_byte(b)) =~= head.map_values(
            |b: u8| upper_byte(b),
        ) + tail.map_values(|b: u8| upper_byte(b)));
    } else {
        assert(upper_text(s) =~= s);
        assert(vstd::utf8::encode_utf8(s).map_values(|b: u8| upper_byte(b))
            =~= vstd::utf8::encode_utf8(s));
    }
}

/// The text with `a`–`z` mapped to `A`–`Z`.
pub fn upper_ascii(a: &str) -> (r: String)
    ensures
        r@ == upper_text(a@),
{
    let bytes = a.as_bytes();
    let mut out: Vec<u8> = Vec::new();
    let mut i: usize = 0;
    while i < bytes.len()
        invariant
            0 <= i <= bytes.len(),
            out@.len() == i,
            forall|j: int| 0 <= j < i ==> out@[j] == upper_byte(bytes@[j]),
        decreases bytes.len() - i,
    {
        let b = bytes[i];
        if 0x61 <= b && b <= 0x7A {
            out.push(b - 32);
        } else {
            out.push(b);
        }
        i = i + 1;
    }
    proof {
        assert(out@ =~= bytes@.map_values(|b: u8| upper_byte(b)));
        lemma_upper_bytes(a@);
        vstd::utf8::encode_utf8_valid_utf8(upper_text(a@));
        vstd::utf8::encode_utf8_decode_utf8(upper_text(a@));
    }
    text_of_utf8(out.as_slice()).unwrap()
}

/// The code point of a character after `A`–`Z` are mapped to `a`–`z`.
fn lower_code(c: char) -> (r: u32)
    ensures
        r == ascii_lower(c) as u32,
{
    let n = c as u32;
    if 65 <= n && n <= 90 {
        n + 32
    } else {
        n
    }
}

/// Whether two texts are the same up to the case of ASCII letters.
pub fn eq_ignoring_case(a: &str, b: &str) -> (r: bool)
    ensures
        r == same_ignoring_case(a@, b@),
{
    broadcast use vstd::string::axiom_spec_iter, vstd::string::next_postcondition;

    let mut ia = a.chars();
    let mut ib = b.chars();
    let ghost mut i: int = 0;
    assert(a@.skip(0) =~= a@);
    assert(b@.skip(0) =~= b@);
    loop
        invariant
            0 <= i <= a@.len(),
            i <= b@.len(),
            ia.remaining() == a@.skip(i),
            ib.remaining() == b@.skip(i),
            forall|j: int| 0 <= j < i ==> ascii_lower(a@[j]) == ascii_lower(b@[j]),
            ia.decrease() is Some,
        decreases ia.decrease()->0,
    {
        match ia.next() {
            None => {
                assert(i == a@.len());
                match ib.next() {
                    None => {
                        assert(i == b@.len());
                        assert(lower_text(a@) =~= lower_text(b@));
                        return true;
                    },
                    Some(_) => {
                        assert(lower_text(a@).len() != lower_text(b@).len());
                        return false;
                    },
                }
            },
            Some(ca) => {
                assert(ca == a@[i]);
                match ib.next() {
                    None => {
                        assert(lower_text(a@).len() != lower_text(b@).len());
                        return false;
                    },
                    Some(cb) => {
                        assert(cb == b@[i]);
                        if lower_code(ca) != lower_code(cb) {
                            assert(lower_text(a@)[i] != lower_text(b@)[i]);
                            return false;
                        }
                        assert(ascii_lower(ca) == ascii_lower(cb));
                        assert(ia.remaining() =~= a@.skip(i + 1));
                        assert(ib.remaining() =~= b@.skip(i + 1));
                        proof {
                            i = i + 1;
                        }
                    },
                }
            },
        }
    }
}

/// Whether two texts hold the same characters.
pub fn same_text(a: &str, b: &str) -> (r: bool)
    ensures
        r == (a@ == b@),
{
    let x = a.as_bytes();
    let y = b.as_bytes();
    proof {
        vstd::utf8::encode_utf8_decode_utf8(a@);
        vstd::utf8::encode_utf8_decode_utf8(b@);
    }
    if x.len() != y.len() {
        return false;
    }
    let mut i: usize = 0;
    while i < x.len()
        invariant
            0 <= i <= x.len(),
            x.len() == y.len(),
            x@ == vstd::utf8::encode_utf8(a@),
            y@ == vstd::utf8::encode_utf8(b@),
            forall|j: int| 0 <= j < i ==> x@[j] == y@[j],
        decreases x.len() - i,
    {
        if x[i] != y[i] {
            return false;
        }
        i = i + 1;
    }
    proof {
        assert(x@ =~= y@);
        vstd::utf8::encode_utf8_decode_utf8(a@);
        vstd::utf8::encode_utf8_decode_utf8(b@);
    }
    true
}

/// Whether `a` comes before `b` in the order of their code points.
pub fn text_lt(a: &str, b: &str) -> (r: bool)
    ensures
        r == text_before(a@, b@),
{
    broadcast use vstd::string::axiom_spec_iter, vstd::string::next_postcondition;

    let mut ia = a.chars();
    let mut ib = b.chars();
    loop
        invariant
            text_before(a@, b@) == text_before(ia.remaining(), ib.remaining()),
            ib.decrease() is Some,
        decreases ib.decrease()->0,
    {
        let ghost x = ia.remaining();
        let ghost y = ib.remaining();
        match ib.next() {
            None => {
                return false;
            },
            Some(cb) => {
                match ia.next() {
                    None => {
                        return true;
                    },
                    Some(ca) => {
                        if ca != cb {
                            return (ca as u32) < (cb as u32);
                        }
                        assert(text_before(x, y) == text_before(x.drop_first(), y.drop_first()));
                    },
                }
            },
        }
    }
}

/// Splits a text at the first occurrence of a character: what stands
/// before it and what stands after it, or `None` where it does not occur.
pub fn split_once_at<'a>(s: &'a str, delim: char) -> (r: Option<(&'a str, &'a str)>)
    ensures
        r is None <==> !s@.contains(delim),
        r matches Some((head, tail)) ==> s@ == head@ + seq![delim] + tail@ && !head@.contains(
            delim,
        ),
{
    broadcast use vstd::string::axiom_spec_iter, vstd::string::next_postcondition;

    let n = s.unicode_len();
    let mut it = s.chars();
    let mut i: usize = 0;
    assert(it.remaining() =~= s@.subrange(0, n as int));
    loop
        invariant
            i <= n,
            n == s@.len(),
            it.remaining() == s@.subrange(i as int, n as int),
            forall|j: int| 0 <= j < i ==> s@[j] != delim,
            it.decrease() is Some,
        decreases it.decrease()->0,
    {
        match it.next() {
            Some(c) => {
                assert(i < n);
                assert(c == s@[i as int]);
                if c == delim {
                    let head = s.substring_char(0, i);
                    let tail = s.substring_char(i + 1, n);
                    proof {
                        assert(s@ =~= head@ + seq![delim] + tail@);
                        assert(!head@.contains(delim));
                        assert(s@.contains(delim));
                    }
                    return Some((head, tail));
                }
                assert(it.remaining() =~= s@.subrange(i + 1, n as int));
                i = i + 1;
            },
            None => {
                assert(i == n);
                assert(!s@.contains(delim));
                return None;
            },
        }
    }
}

/// The rest of `s` after `prefix`, or `None` where `s` does not begin with
/// it.
pub fn strip_prefix_of<'a>(s: &'a str, prefix: &str) -> (r: Option<&'a str>)
    ensures
        r is Some <==> prefix@.is_prefix_of(s@),
        r matches Some(rest) ==> s@ == prefix@ + rest@,
{
    broadcast use vstd::string::axiom_spec_iter, vstd::string::next_postcondition;

    let n = s.unicode_len();
    let mut it = s.chars();
    let mut ip = prefix.chars();
    let mut i: usize = 0;
    assert(it.remaining() =~= s@.subrange(0, n as int));
    assert(ip.remaining() =~= prefix@.subrange(0, prefix@.len() as int));
    loop
        invariant
            i <= n,
            n == s@.len(),
            i <= prefix@.len(),
            it.remaining() == s@.subrange(i as int, n as int),
            ip.remaining() == prefix@.subrange(i as int, prefix@.len() as int),
            forall|j: int| 0 <= j < i ==> s@[j] == prefix@[j],
            ip.decrease() is Some,
        decreases ip.decrease()->0,
    {
        match ip.next() {
            None => {
                assert(i == prefix@.len());
                let rest = s.substring_char(i, n);
                proof {
                    assert(s@ =~= prefix@ + rest@);
                    assert(prefix@.is_prefix_of(s@));
                }
                return Some(rest);
            },
            Some(cp) => {
                assert(cp == prefix@[i as int]);
                match it.next() {
                    None => {
                        assert(i == n);
                        assert(!prefix@.is_prefix_of(s@));
                        return None;
                    },
                    Some(cs) => {
                        assert(cs == s@[i as int]);
                        if cs != cp {
                            assert(!prefix@.is_prefix_of(s@)) by {
                                if prefix@.is_prefix_of(s@) {
                                    assert(s@.subrange(0, prefix@.len() as int)[i as int]
                                        == prefix@[i as int]);
                                }
                            }
                            return None;
                        }
                        assert(it.remaining() =~= s@.subrange(i + 1, n as int));
                        assert(ip.remaining() =~= prefix@.subrange(
                            i + 1,
                            prefix@.len() as int,
                        ));
                        i = i + 1;
                    },
                }
            },
        }
    }
}

/// The UTF-16 code units of a text.
pub fn utf16_of(s: &str) -> (r: Vec<u16>)
    ensures
        r@ == utf16_units(s@),
{
    broadcast use vstd::string::axiom_spec_iter, vstd::string::next_postcondition;

    let mut it = s.chars();
    let mut out: Vec<u16> = Vec::new();
    assert(out@ + utf16_units(it.remaining()) =~= utf16_units(s@));
    loop
        invariant
            out@ + utf16_units(it.remaining()) == utf16_units(s@),
            it.decrease() is Some,
        decreases it.decrease()->0,
    {
        let ghost rest = it.remaining();
        let ghost before = out@;
        match it.next() {
            Some(c) => {
                let n = c as u32;
                if n < 0x10000 {
                    out.push(n as u16);
                } else {
                    let m: u32 = n - 0x10000;
                    out.push((0xD800 + m / 0x400) as u16);
                    out.push((0xDC00 + m % 0x400) as u16);
                }
                proof {
                    assert(out@ =~= before + char_units(c));
                    assert(utf16_units(rest) == char_units(c) + utf16_units(rest.drop_first()));
                    assert(out@ + utf16_units(it.remaining()) =~= before + utf16_units(rest));
                }
            },
            None => {
                assert(utf16_units(rest) =~= Seq::<u16>::empty());
                assert(out@ =~= utf16_units(s@));
                return out;
            },
        }
    }
}

/// The number that a text spells in decimal digits, with or without a plus
/// sign before them; `None` where the text is anything else, or the number
/// is beyond `u64`.
pub fn parse_decimal_u64(s: &str) -> (r: Option<u64>)
    ensures
        r == decimal_u64(s@),
{
    let bytes = s.as_bytes();
    let start: usize = if bytes.len() > 0 && bytes[0] == 43 {
        1
    } else {
        0
    };
    if bytes.len() == start {
        return None;
    }
    let ghost digits = decimal_digits(bytes@);
    assert(digits =~= bytes@.skip(start as int));
    assert(digits.take(0) =~= Seq::<u8>::empty());
    let mut value: u64 = 0;
    let mut i: usize = start;
    while i < bytes.len()
        invariant
            start <= i <= bytes.len(),
            bytes@ == vstd::utf8::encode_utf8(s@),
            digits == decimal_digits(bytes@),
            digits == bytes@.skip(start as int),
            digits.len() > 0,
            digits_value(digits.take(i - start)) == Some(value as nat),
        decreases bytes.len() - i,
    {
        let b = bytes[i];
        proof {
            assert(digits.take(i - start + 1).drop_last() =~= digits.take(i - start));
            assert(digits.take(i - start + 1).last() == b);
        }
        if b < 48 || b > 57 {
            proof {
                lemma_digits_fail(digits, i - start + 1);
            }
            return None;
        }
        let next = match value.checked_mul(10) {
            Some(v) => v.checked_add((b - 48) as u64),
            None => None,
        };
        match next {
            Some(v) => {
                value = v;
            },
            None => {
                proof {
                    if digits_value(digits) is Some {
                        lemma_digits_grow(digits, i - start + 1);
                    }
                }
                return None;
            },
        }
        i = i + 1;
    }
    proof {
        assert(digits.take(i - start) =~= digits);
    }
    Some(value)
}

/// The text that well-formed UTF-8 bytes encode, as an owned `String`.
pub fn text_of_utf8(bytes: &[u8]) -> (r: Option<String>)
    ensures
        r is Some <==> valid_utf8(bytes@),
        r matches Some(s) ==> s@ == decode_utf8(bytes@),
{
    match std::str::from_utf8(bytes) {
        Ok(s) => Some(String::from_str(s)),
        Err(_) => None,
    }
}

/// The upper-case hexadecimal digit of a value below sixteen.
pub open spec fn hex_digit(n: int) -> char {
    if n == 0 {
        '0'
    } else if n == 1 {
        '1'
    } else if n == 2 {
        '2'
    } else if n == 3 {
        '3'
    } else if n == 4 {
        '4'
    } else if n == 5 {
        '5'
    } else if n == 6 {
        '6'
    } else if n == 7 {
        '7'
    } else if n == 8 {
        '8'
    } else if n == 9 {
        '9'
    } else if n == 10 {
        'A'
    } else if n == 11 {
        'B'
    } else if n == 12 {
        'C'
    } else if n == 13 {
        'D'
    } else if n == 14 {
        'E'
    } else {
        'F'
    }
}

/// The eight upper-case hexadecimal digits of `v`, most significant first.
pub open spec fn hex8(v: u32) -> Seq<char> {
    Seq::new(8, |i: int| hex_digit(((v as int) / pow16(7 - i)) % 16))
}

/// Sixteen to the power `e`, for `e` up to seven.
pub open spec fn pow16(e: int) -> int {
    if e <= 0 {
        1
    } else if e == 1 {
        0x10
    } else if e == 2 {
        0x100
    } else if e == 3 {
        0x1000
    } else if e == 4 {
        0x1_0000
    } else if e == 5 {
        0x10_0000
    } else if e == 6 {
        0x100_0000
    } else {
        0x1000_0000
    }
}

/// The upper-case hexadecimal digit of a value below sixteen, as a text.
pub fn hex_digit_text(n: u32) -> (r: &'static str)
    requires
        n < 16,
    ensures
        r@ == seq![hex_digit(n as int)],
{
    proof {
        reveal_strlit("0");
        reveal_strlit("1");
        reveal_strlit("2");
        reveal_strlit("3");
        reveal_strlit("4");
        reveal_strlit("5");
        reveal_strlit("6");
        reveal_strlit("7");
        reveal_strlit("8");
        reveal_strlit("9");
        reveal_strlit("A");
        reveal_strlit("B");
        reveal_strlit("C");
        reveal_strlit("D");
        reveal_strlit("E");
        reveal_strlit("F");
    }
    let r = if n == 0 {
        "0"
    } else if n == 1 {
        "1"
    } else if n == 2 {
        "2"
    } else if n == 3 {
        "3"
    } else if n == 4 {
        "4"
    } else if n == 5 {
        "5"
    } else if n == 6 {
        "6"
    } else if n == 7 {
        "7"
    } else if n == 8 {
        "8"
    } else if n == 9 {
        "9"
    } else if n == 10 {
        "A"
    } else if n == 11 {
        "B"
    } else if n == 12 {
        "C"
    } else if n == 13 {
        "D"
    } else if n == 14 {
        "E"
    } else {
        "F"
    };
    assert(r@ =~= seq![hex_digit(n as int)]);
    r
}

/// The number in decimal digits, without leading zeros.
pub fn decimal_text(n: u64) -> (r: String)
    ensures
        r@ == decimal_of(n),
    decreases n,
{
    if n < 10 {
        String::from_str(hex_digit_text(n as u32))
    } else {
        let mut out = decimal_text(n / 10);
        out.append(hex_digit_text((n % 10) as u32));
        out
    }
}

/// `v` as eight upper-case hexadecimal digits.
pub fn hex8_text(v: u32) -> (r: String)
    ensures
        r@ == hex8(v),
{
    let mut out = String::new();
    let mut i: u32 = 0;
    let mut div: u32 = 0x1000_0000;
    while i < 8
        invariant
            0 <= i <= 8,
            div as int == pow16(7 - i as int) || (i == 8 && div == 0),
            out@.len() == i,
            forall|j: int| 0 <= j < i ==> out@[j] == hex8(v)[j],
        decreases 8 - i,
    {
        let d = (v / div) % 16;
        let t = hex_digit_text(d);
        let ghost before = out@;
        out.append(t);
        assert(out@ =~= before + seq![hex_digit(d as int)]);
        div = div / 16;
        i = i + 1;
    }
    assert(out@ =~= hex8(v));
    out
}

/// `a` followed by `b`, as an owned `String`.
pub fn concat2(a: &str, b: &str) -> (r: String)
    ensures
        r@ == a@ + b@,
{
    let mut out = String::from_str(a);
    out.append(b);
    out
}

/// `a`, `b` and `c` in a row, as an owned `String`.
pub fn concat3(a: &str, b: &str, c: &str) -> (r: String)
    ensures
        r@ == a@ + b@ + c@,
{
    let mut out = String::from_str(a);
    out.append(b);
    out.append(c);
    out
}

} // verus!
