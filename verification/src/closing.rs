//! Why a header closes: where its text grows with the decimal digits of
//! the two places it stores and with nothing else, the rounds of
//! [`close_header`] come to rest after a few steps.
use crate::checksum::{crc32_of, placeholder_text};
use crate::header::HeaderView;
use crate::text::{decimal_of, hex8};
use crate::writer::{close_header, header_line, sealed, with_crc, with_sizes, CLOSE_ROUNDS};
use vstd::prelude::*;
use vstd::utf8::encode_utf8;

verus! {

/// The number of decimal digits of a number.
pub open spec fn digits(n: nat) -> nat
    decreases n,
{
    if n < 10 {
        1
    } else {
        1 + digits(n / 10)
    }
}

/// The decimal text of a number has as many characters as the number has
/// digits.
pub proof fn lemma_decimal_len(n: u64)
    ensures
        decimal_of(n).len() == digits(n as nat),
    decreases n,
{
    if n >= 10 {
        lemma_decimal_len(n / 10);
    }
}

/// A larger number has no fewer digits.
pub proof fn lemma_digits_monotone(a: nat, b: nat)
    requires
        a <= b,
    ensures
        digits(a) <= digits(b),
    decreases b,
{
    if b >= 10 && a >= 10 {
        lemma_digits_monotone(a / 10, b / 10);
    }
}

/// Ten times a number has one digit more.
pub proof fn lemma_digits_times_ten(n: nat)
    requires
        n >= 1,
    ensures
        digits(10 * n) == digits(n) + 1,
{
    assert((10 * n) / 10 == n);
}

/// A number of 64 bits has at most twenty digits.
pub proof fn lemma_digits_u64(n: nat)
    requires
        n <= u64::MAX,
    ensures
        1 <= digits(n) <= 20,
{
    lemma_digits_monotone(n, u64::MAX as nat);
    reveal_with_fuel(digits, 21);
    assert(digits(18446744073709551615) == 20);
}

/// A number a little above another has at most one digit more.
pub proof fn lemma_digits_window(a: nat, b: nat)
    requires
        14 <= a <= b <= a + 38,
    ensures
        digits(a) <= digits(b) <= digits(a) + 1,
{
    lemma_digits_monotone(a, b);
    lemma_digits_monotone(b, 10 * a);
    lemma_digits_times_ten(a);
}

/// The length in bytes of the line of a header with another CRC and other
/// places.
pub open spec fn line_len(h: HeaderView, crc: u32, payload_start: u64, file_size: u64, pretty: bool) -> nat {
    encode_utf8(header_line(with_sizes(with_crc(h, hex8(crc)), payload_start, file_size), pretty)).len()
}

/// Whether the line of a header grows with the decimal digits of the two
/// places and with nothing else: whatever the CRC and the places, its
/// length is `base` and the digits of the two. This is what a serializer
/// gives that writes a number in decimal digits without padding.
pub open spec fn decimal_sized(h: HeaderView, pretty: bool, base: nat) -> bool {
    forall|crc: u32, payload_start: u64, file_size: u64|
        #[trigger] line_len(h, crc, payload_start, file_size, pretty) == base + decimal_of(
            payload_start,
        ).len() + decimal_of(file_size).len()
}

/// The CRC that sealing gives a header.
pub open spec fn seal_of(h: HeaderView, pretty: bool) -> u32 {
    crc32_of(encode_utf8(placeholder_text(header_line(with_crc(h, "00000000"@), pretty))))
}

/// A header whose payload begins where `before` digits put it closes
/// within as many rounds as its places can still gain digits, and one.
proof fn lemma_closes_from(
    g: HeaderView,
    crc: u32,
    p: u64,
    f: u64,
    total: nat,
    pretty: bool,
    base: nat,
    before: nat,
    rounds: nat,
)
    requires
        decimal_sized(g, pretty, base),
        base + 40 <= u32::MAX,
        12 + base + 40 + total <= u64::MAX,
        2 <= before <= 40,
        p == 12 + base + before,
        f == p + total,
        before <= digits(p as nat) + digits(f as nat),
        rounds + before >= digits(14 + base) + digits(14 + base + total) + 3,
    ensures
        close_header(with_sizes(with_crc(g, hex8(crc)), p, f), total, pretty, rounds) is Ok,
    decreases rounds,
{
    let cur = with_sizes(with_crc(g, hex8(crc)), p, f);
    let x = seal_of(cur, pretty);
    let s = sealed(cur, pretty);
    assert(s == with_sizes(with_crc(g, hex8(x)), p, f));
    let line = header_line(s, pretty);
    let len = encode_utf8(line).len();
    assert(len == line_len(g, x, p, f, pretty));
    lemma_decimal_len(p);
    lemma_decimal_len(f);
    lemma_digits_u64(p as nat);
    lemma_digits_u64(f as nat);
    let sum = digits(p as nat) + digits(f as nat);
    assert(len == base + sum);
    lemma_digits_window(14 + base, p as nat);
    lemma_digits_window(14 + base + total, f as nat);
    assert(rounds >= 1);
    if p == 12 + len && f == 12 + len + total {
    } else {
        assert(sum > before);
        let p2 = (12 + len) as u64;
        let f2 = (12 + len + total) as u64;
        let next = with_sizes(s, p2, f2);
        assert(next == with_sizes(with_crc(g, hex8(x)), p2, f2));
        lemma_digits_monotone(p as nat, p2 as nat);
        lemma_digits_monotone(f as nat, f2 as nat);
        lemma_closes_from(g, x, p2, f2, total, pretty, base, sum, (rounds - 1) as nat);
    }
}

/// Header stability: a header that is not yet placed closes within ten
/// rounds, where its line grows with the decimal digits of the two places
/// and with nothing else ([`decimal_sized`]) and the file stays within
/// `u64` and the line within `u32`.
pub proof fn lemma_header_closes(h: HeaderView, total: nat, pretty: bool, base: nat)
    requires
        h.payload_start == 0,
        h.file_size == 0,
        decimal_sized(h, pretty, base),
        base + 40 <= u32::MAX,
        12 + base + 40 + total <= u64::MAX,
    ensures
        close_header(h, total, pretty, CLOSE_ROUNDS as nat) is Ok,
{
    let x = seal_of(h, pretty);
    let s = sealed(h, pretty);
    assert(s == with_sizes(with_crc(h, hex8(x)), 0, 0));
    let len = encode_utf8(header_line(s, pretty)).len();
    assert(len == line_len(h, x, 0, 0, pretty));
    lemma_decimal_len(0);
    assert(len == base + 2);
    let p1 = (14 + base) as u64;
    let f1 = (14 + base + total) as u64;
    let first = with_sizes(s, p1, f1);
    assert(first == with_sizes(with_crc(h, hex8(x)), p1, f1));
    assert(close_header(h, total, pretty, 10) == close_header(first, total, pretty, 9));

    let x1 = seal_of(first, pretty);
    let s1 = sealed(first, pretty);
    assert(s1 == with_sizes(with_crc(h, hex8(x1)), p1, f1));
    let len1 = encode_utf8(header_line(s1, pretty)).len();
    assert(len1 == line_len(h, x1, p1, f1, pretty));
    lemma_decimal_len(p1);
    lemma_decimal_len(f1);
    lemma_digits_u64(p1 as nat);
    lemma_digits_u64(f1 as nat);
    let sum = digits(p1 as nat) + digits(f1 as nat);
    assert(digits(p1 as nat) >= 2) by {
        lemma_digits_monotone(10, p1 as nat);
        reveal_with_fuel(digits, 3);
    }
    assert(len1 == base + sum);
    let p2 = (12 + len1) as u64;
    let f2 = (12 + len1 + total) as u64;
    let second = with_sizes(s1, p2, f2);
    assert(second == with_sizes(with_crc(h, hex8(x1)), p2, f2));
    assert(close_header(first, total, pretty, 9) == close_header(second, total, pretty, 8));
    lemma_digits_monotone(p1 as nat, p2 as nat);
    lemma_digits_monotone(f1 as nat, f2 as nat);
    lemma_closes_from(h, x1, p2, f2, total, pretty, base, sum, 8);
}

} // verus!
