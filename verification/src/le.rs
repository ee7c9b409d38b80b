//! Little-endian encodings of fixed-width integers and of sequences of them.
use crate::error::GbfError;
use vstd::prelude::*;
use vstd::string::StringExecFns;

verus! {

/// The two bytes of `x`, low byte first.
pub open spec fn u16_le(x: u16) -> Seq<u8> {
    seq![(x & 0xff) as u8, ((x >> 8) & 0xff) as u8]
}

/// The number whose low byte is `b[0]` and whose high byte is `b[1]`.
pub open spec fn u16_of_le(b: Seq<u8>) -> u16 {
    (b[0] as u16) | ((b[1] as u16) << 8)
}

/// The four bytes of `x`, lowest byte first.
pub open spec fn u32_le(x: u32) -> Seq<u8> {
    seq![
        (x & 0xff) as u8,
        ((x >> 8) & 0xff) as u8,
        ((x >> 16) & 0xff) as u8,
        ((x >> 24) & 0xff) as u8,
    ]
}

/// The number that the four bytes of `b` spell, lowest byte first.
pub open spec fn u32_of_le(b: Seq<u8>) -> u32 {
    (b[0] as u32) | ((b[1] as u32) << 8) | ((b[2] as u32) << 16) | ((b[3] as u32) << 24)
}

/// The eight bytes of `x`, lowest byte first.
pub open spec fn u64_le(x: u64) -> Seq<u8> {
    seq![
        (x & 0xff) as u8,
        ((x >> 8) & 0xff) as u8,
        ((x >> 16) & 0xff) as u8,
        ((x >> 24) & 0xff) as u8,
        ((x >> 32) & 0xff) as u8,
        ((x >> 40) & 0xff) as u8,
        ((x >> 48) & 0xff) as u8,
        ((x >> 56) & 0xff) as u8,
    ]
}

/// The number that the eight bytes of `b` spell, lowest byte first.
pub open spec fn u64_of_le(b: Seq<u8>) -> u64 {
    (b[0] as u64) | ((b[1] as u64) << 8) | ((b[2] as u64) << 16) | ((b[3] as u64) << 24) | ((
    b[4] as u64) << 32) | ((b[5] as u64) << 40) | ((b[6] as u64) << 48) | ((b[7] as u64) << 56)
}

/// Decoding the two bytes of a number gives the number back.
pub proof fn lemma_u16_round_trip(x: u16)
    ensures
        u16_le(x).len() == 2,
        u16_of_le(u16_le(x)) == x,
{
    assert((((x & 0xff) as u8) as u16) | ((((x >> 8) & 0xff) as u8) as u16) << 8 == x)
        by (bit_vector);
}

/// Decoding the four bytes of a number gives the number back.
pub proof fn lemma_u32_round_trip(x: u32)
    ensures
        u32_le(x).len() == 4,
        u32_of_le(u32_le(x)) == x,
{
    assert((((x & 0xff) as u8) as u32) | ((((x >> 8) & 0xff) as u8) as u32) << 8 | ((((x >> 16)
        & 0xff) as u8) as u32) << 16 | ((((x >> 24) & 0xff) as u8) as u32) << 24 == x)
        by (bit_vector);
}

/// Decoding the eight bytes of a number gives the number back.
pub proof fn lemma_u64_round_trip(x: u64)
    ensures
        u64_le(x).len() == 8,
        u64_of_le(u64_le(x)) == x,
{
    assert((((x & 0xff) as u8) as u64) | ((((x >> 8) & 0xff) as u8) as u64) << 8 | ((((x >> 16)
        & 0xff) as u8) as u64) << 16 | ((((x >> 24) & 0xff) as u8) as u64) << 24 | ((((x >> 32)
        & 0xff) as u8) as u64) << 32 | ((((x >> 40) & 0xff) as u8) as u64) << 40 | ((((x >> 48)
        & 0xff) as u8) as u64) << 48 | ((((x >> 56) & 0xff) as u8) as u64) << 56 == x)
        by (bit_vector);
}

/// Appends the two bytes of `v`, low byte first.
pub fn write_u16_le(out: &mut Vec<u8>, v: u16)
    ensures
        final(out)@ == old(out)@ + u16_le(v),
{
    out.push((v & 0xff) as u8);
    out.push(((v >> 8) & 0xff) as u8);
    assert(out@ =~= old(out)@ + u16_le(v));
}

/// Appends the four bytes of `v`, lowest byte first.
pub fn write_u32_le(out: &mut Vec<u8>, v: u32)
    ensures
        final(out)@ == old(out)@ + u32_le(v),
{
    out.push((v & 0xff) as u8);
    out.push(((v >> 8) & 0xff) as u8);
    out.push(((v >> 16) & 0xff) as u8);
    out.push(((v >> 24) & 0xff) as u8);
    assert(out@ =~= old(out)@ + u32_le(v));
}

/// Appends the eight bytes of `v`, lowest byte first.
pub fn write_u64_le(out: &mut Vec<u8>, v: u64)
    ensures
        final(out)@ == old(out)@ + u64_le(v),
{
    out.push((v & 0xff) as u8);
    out.push(((v >> 8) & 0xff) as u8);
    out.push(((v >> 16) & 0xff) as u8);
    out.push(((v >> 24) & 0xff) as u8);
    out.push(((v >> 32) & 0xff) as u8);
    out.push(((v >> 40) & 0xff) as u8);
    out.push(((v >> 48) & 0xff) as u8);
    out.push(((v >> 56) & 0xff) as u8);
    assert(out@ =~= old(out)@ + u64_le(v));
}

/// The number that the two bytes at `at` spell, low byte first.
pub fn u16_at(raw: &[u8], at: usize) -> (v: u16)
    requires
        at + 2 <= raw.len(),
    ensures
        v == u16_of_le(raw@.subrange(at as int, at + 2)),
{
    (raw[at] as u16) | ((raw[at + 1] as u16) << 8)
}

/// The number that the four bytes at `at` spell, lowest byte first.
pub fn u32_at(raw: &[u8], at: usize) -> (v: u32)
    requires
        at + 4 <= raw.len(),
    ensures
        v == u32_of_le(raw@.subrange(at as int, at + 4)),
{
    (raw[at] as u32) | ((raw[at + 1] as u32) << 8) | ((raw[at + 2] as u32) << 16) | ((raw[at
        + 3] as u32) << 24)
}

/// The number that the eight bytes at `at` spell, lowest byte first.
pub fn u64_at(raw: &[u8], at: usize) -> (v: u64)
    requires
        at + 8 <= raw.len(),
    ensures
        v == u64_of_le(raw@.subrange(at as int, at + 8)),
{
    (raw[at] as u64) | ((raw[at + 1] as u64) << 8) | ((raw[at + 2] as u64) << 16) | ((raw[at
        + 3] as u64) << 24) | ((raw[at + 4] as u64) << 32) | ((raw[at + 5] as u64) << 40) | ((
    raw[at + 6] as u64) << 48) | ((raw[at + 7] as u64) << 56)
}

/// The bytes of a sequence of `u16` values: each value's 2 bytes in turn,
/// lowest byte first.
pub open spec fn u16s_le(xs: Seq<u16>) -> Seq<u8> {
    Seq::new(2 * xs.len(), |i: int| u16_le(xs[i / 2])[i % 2])
}

/// The `u16` values that a byte sequence spells, 2 bytes each; bytes
/// left over at the end are not read.
pub open spec fn u16s_of_le(b: Seq<u8>) -> Seq<u16> {
    Seq::new(b.len() / 2, |i: int| u16_of_le(b.subrange(2 * i, 2 * i + 2)))
}

/// The bytes of the value at place `i` stand at `2 * i` in the bytes of
/// the sequence.
pub proof fn lemma_u16s_block(xs: Seq<u16>, i: int)
    requires
        0 <= i < xs.len(),
    ensures
        u16s_le(xs).subrange(2 * i, 2 * i + 2) == u16_le(xs[i]),
{
    let b = u16s_le(xs);
    let part = b.subrange(2 * i, 2 * i + 2);
    let want = u16_le(xs[i]);
    assert(want.len() == 2);
    assert forall|k: int| 0 <= k < 2 implies part[k] == want[k] by {
        assert((2 * i + k) / 2 == i);
        assert((2 * i + k) % 2 == k);
        assert(part[k] == b[2 * i + k]);
    }
    assert(part =~= want);
}

/// Decoding the bytes of a sequence of `u16` values gives the sequence back.
pub proof fn lemma_u16s_round_trip(xs: Seq<u16>)
    ensures
        u16s_le(xs).len() == 2 * xs.len(),
        u16s_of_le(u16s_le(xs)) == xs,
{
    let b = u16s_le(xs);
    assert(b.len() / 2 == xs.len());
    assert forall|i: int| 0 <= i < xs.len() implies u16s_of_le(b)[i] == xs[i] by {
        let x = xs[i];
        lemma_u16_round_trip(x);
        lemma_u16s_block(xs, i);
    }
    assert(u16s_of_le(b) =~= xs);
}

/// Appends the bytes of each value of `xs`, lowest byte first.
pub fn write_u16s_le(out: &mut Vec<u8>, xs: &[u16])
    ensures
        final(out)@ == old(out)@ + u16s_le(xs@),
{
    let mut i: usize = 0;
    while i < xs.len()
        invariant
            0 <= i <= xs.len(),
            out@ == old(out)@ + u16s_le(xs@.take(i as int)),
        decreases xs.len() - i,
    {
        let ghost before = out@;
        write_u16_le(out, xs[i]);
        proof {
            lemma_u16_round_trip(xs@[i as int]);
            assert(u16s_le(xs@.take(i + 1)) =~= u16s_le(xs@.take(i as int)) + u16_le(
                xs@[i as int],
            ));
            assert(out@ =~= old(out)@ + u16s_le(xs@.take(i + 1)));
        }
        i = i + 1;
    }
    proof {
        assert(xs@.take(xs.len() as int) =~= xs@);
    }
}

/// The `count` values of type `u16` that the bytes from `at` on spell.
pub fn u16s_at(raw: &[u8], at: usize, count: usize) -> (r: Vec<u16>)
    requires
        at + 2 * count <= raw.len(),
    ensures
        r@ == u16s_of_le(raw@.subrange(at as int, at + 2 * count)),
{
    let mut out: Vec<u16> = Vec::new();
    let mut i: usize = 0;
    let ghost block = raw@.subrange(at as int, at + 2 * count);
    while i < count
        invariant
            0 <= i <= count,
            at + 2 * count <= raw.len(),
            block == raw@.subrange(at as int, at + 2 * count),
            out@.len() == i,
            forall|j: int| 0 <= j < i ==> out@[j] == u16s_of_le(block)[j],
        decreases count - i,
    {
        let v = u16_at(raw, at + 2 * i);
        proof {
            assert(raw@.subrange(at + 2 * i, at + 2 * i + 2) =~= block.subrange(
                2 * i,
                2 * i + 2,
            ));
        }
        out.push(v);
        i = i + 1;
    }
    assert(out@ =~= u16s_of_le(block));
    out
}

/// The bytes of a sequence of `i16` values: each value's 2 bytes in turn,
/// lowest byte first.
pub open spec fn i16s_le(xs: Seq<i16>) -> Seq<u8> {
    Seq::new(2 * xs.len(), |i: int| u16_le(xs[i / 2] as u16)[i % 2])
}

/// The `i16` values that a byte sequence spells, 2 bytes each; bytes
/// left over at the end are not read.
pub open spec fn i16s_of_le(b: Seq<u8>) -> Seq<i16> {
    Seq::new(b.len() / 2, |i: int| u16_of_le(b.subrange(2 * i, 2 * i + 2)) as i16)
}

/// The bytes of the value at place `i` stand at `2 * i` in the bytes of
/// the sequence.
pub proof fn lemma_i16s_block(xs: Seq<i16>, i: int)
    requires
        0 <= i < xs.len(),
    ensures
        i16s_le(xs).subrange(2 * i, 2 * i + 2) == u16_le(xs[i] as u16),
{
    let b = i16s_le(xs);
    let part = b.subrange(2 * i, 2 * i + 2);
    let want = u16_le(xs[i] as u16);
    assert(want.len() == 2);
    assert forall|k: int| 0 <= k < 2 implies part[k] == want[k] by {
        assert((2 * i + k) / 2 == i);
        assert((2 * i + k) % 2 == k);
        assert(part[k] == b[2 * i + k]);
    }
    assert(part =~= want);
}

/// Decoding the bytes of a sequence of `i16` values gives the sequence back.
pub proof fn lemma_i16s_round_trip(xs: Seq<i16>)
    ensures
        i16s_le(xs).len() == 2 * xs.len(),
        i16s_of_le(i16s_le(xs)) == xs,
{
    let b = i16s_le(xs);
    assert(b.len() / 2 == xs.len());
    assert forall|i: int| 0 <= i < xs.len() implies i16s_of_le(b)[i] == xs[i] by {
        let x = xs[i];
        lemma_u16_round_trip(x as u16);
        lemma_i16s_block(xs, i);
        assert(((x as u16) as i16) == x) by (bit_vector);
    }
    assert(i16s_of_le(b) =~= xs);
}

/// Appends the bytes of each value of `xs`, lowest byte first.
pub fn write_i16s_le(out: &mut Vec<u8>, xs: &[i16])
    ensures
        final(out)@ == old(out)@ + i16s_le(xs@),
{
    let mut i: usize = 0;
    while i < xs.len()
        invariant
            0 <= i <= xs.len(),
            out@ == old(out)@ + i16s_le(xs@.take(i as int)),
        decreases xs.len() - i,
    {
        let ghost before = out@;
        write_u16_le(out, xs[i] as u16);
        proof {
            lemma_u16_round_trip(xs@[i as int] as u16);
            assert(i16s_le(xs@.take(i + 1)) =~= i16s_le(xs@.take(i as int)) + u16_le(
                xs@[i as int] as u16,
            ));
            assert(out@ =~= old(out)@ + i16s_le(xs@.take(i + 1)));
        }
        i = i + 1;
    }
    proof {
        assert(xs@.take(xs.len() as int) =~= xs@);
    }
}

/// The `count` values of type `i16` that the bytes from `at` on spell.
pub fn i16s_at(raw: &[u8], at: usize, count: usize) -> (r: Vec<i16>)
    requires
        at + 2 * count <= raw.len(),
    ensures
        r@ == i16s_of_le(raw@.subrange(at as int, at + 2 * count)),
{
    let mut out: Vec<i16> = Vec::new();
    let mut i: usize = 0;
    let ghost block = raw@.subrange(at as int, at + 2 * count);
    while i < count
        invariant
            0 <= i <= count,
            at + 2 * count <= raw.len(),
            block == raw@.subrange(at as int, at + 2 * count),
            out@.len() == i,
            forall|j: int| 0 <= j < i ==> out@[j] == i16s_of_le(block)[j],
        decreases count - i,
    {
        let v = u16_at(raw, at + 2 * i);
        proof {
            assert(raw@.subrange(at + 2 * i, at + 2 * i + 2) =~= block.subrange(
                2 * i,
                2 * i + 2,
            ));
        }
        out.push(v as i16);
        i = i + 1;
    }
    assert(out@ =~= i16s_of_le(block));
    out
}

/// The bytes of a sequence of `u32` values: each value's 4 bytes in turn,
/// lowest byte first.
pub open spec fn u32s_le(xs: Seq<u32>) -> Seq<u8> {
    Seq::new(4 * xs.len(), |i: int| u32_le(xs[i / 4])[i % 4])
}

/// The `u32` values that a byte sequence spells, 4 bytes each; bytes
/// left over at the end are not read.
pub open spec fn u32s_of_le(b: Seq<u8>) -> Seq<u32> {
    Seq::new(b.len() / 4, |i: int| u32_of_le(b.subrange(4 * i, 4 * i + 4)))
}

/// The bytes of the value at place `i` stand at `4 * i` in the bytes of
/// the sequence.
pub proof fn lemma_u32s_block(xs: Seq<u32>, i: int)
    requires
        0 <= i < xs.len(),
    ensures
        u32s_le(xs).subrange(4 * i, 4 * i + 4) == u32_le(xs[i]),
{
    let b = u32s_le(xs);
    let part = b.subrange(4 * i, 4 * i + 4);
    let want = u32_le(xs[i]);
    assert(want.len() == 4);
    assert forall|k: int| 0 <= k < 4 implies part[k] == want[k] by {
        assert((4 * i + k) / 4 == i);
        assert((4 * i + k) % 4 == k);
        assert(part[k] == b[4 * i + k]);
    }
    assert(part =~= want);
}

/// Decoding the bytes of a sequence of `u32` values gives the sequence back.
pub proof fn lemma_u32s_round_trip(xs: Seq<u32>)
    ensures
        u32s_le(xs).len() == 4 * xs.len(),
        u32s_of_le(u32s_le(xs)) == xs,
{
    let b = u32s_le(xs);
    assert(b.len() / 4 == xs.len());
    assert forall|i: int| 0 <= i < xs.len() implies u32s_of_le(b)[i] == xs[i] by {
        let x = xs[i];
        lemma_u32_round_trip(x);
        lemma_u32s_block(xs, i);
    }
    assert(u32s_of_le(b) =~= xs);
}

/// Appends the bytes of each value of `xs`, lowest byte first.
pub fn write_u32s_le(out: &mut Vec<u8>, xs: &[u32])
    ensures
        final(out)@ == old(out)@ + u32s_le(xs@),
{
    let mut i: usize = 0;
    while i < xs.len()
        invariant
            0 <= i <= xs.len(),
            out@ == old(out)@ + u32s_le(xs@.take(i as int)),
        decreases xs.len() - i,
    {
        let ghost before = out@;
        write_u32_le(out, xs[i]);
        proof {
            lemma_u32_round_trip(xs@[i as int]);
            assert(u32s_le(xs@.take(i + 1)) =~= u32s_le(xs@.take(i as int)) + u32_le(
                xs@[i as int],
            ));
            assert(out@ =~= old(out)@ + u32s_le(xs@.take(i + 1)));
        }
        i = i + 1;
    }
    proof {
        assert(xs@.take(xs.len() as int) =~= xs@);
    }
}

/// The `count` values of type `u32` that the bytes from `at` on spell.
pub fn u32s_at(raw: &[u8], at: usize, count: usize) -> (r: Vec<u32>)
    requires
        at + 4 * count <= raw.len(),
    ensures
        r@ == u32s_of_le(raw@.subrange(at as int, at + 4 * count)),
{
    let mut out: Vec<u32> = Vec::new();
    let mut i: usize = 0;
    let ghost block = raw@.subrange(at as int, at + 4 * count);
    while i < count
        invariant
            0 <= i <= count,
            at + 4 * count <= raw.len(),
            block == raw@.subrange(at as int, at + 4 * count),
            out@.len() == i,
            forall|j: int| 0 <= j < i ==> out@[j] == u32s_of_le(block)[j],
        decreases count - i,
    {
        let v = u32_at(raw, at + 4 * i);
        proof {
            assert(raw@.subrange(at + 4 * i, at + 4 * i + 4) =~= block.subrange(
                4 * i,
                4 * i + 4,
            ));
        }
        out.push(v);
        i = i + 1;
    }
    assert(out@ =~= u32s_of_le(block));
    out
}

/// The bytes of a sequence of `i32` values: each value's 4 bytes in turn,
/// lowest byte first.
pub open spec fn i32s_le(xs: Seq<i32>) -> Seq<u8> {
    Seq::new(4 * xs.len(), |i: int| u32_le(xs[i / 4] as u32)[i % 4])
}

/// The `i32` values that a byte sequence spells, 4 bytes each; bytes
/// left over at the end are not read.
pub open spec fn i32s_of_le(b: Seq<u8>) -> Seq<i32> {
    Seq::new(b.len() / 4, |i: int| u32_of_le(b.subrange(4 * i, 4 * i + 4)) as i32)
}

/// The bytes of the value at place `i` stand at `4 * i` in the bytes of
/// the sequence.
pub proof fn lemma_i32s_block(xs: Seq<i32>, i: int)
    requires
        0 <= i < xs.len(),
    ensures
        i32s_le(xs).subrange(4 * i, 4 * i + 4) == u32_le(xs[i] as u32),
{
    let b = i32s_le(xs);
    let part = b.subrange(4 * i, 4 * i + 4);
    let want = u32_le(xs[i] as u32);
    assert(want.len() == 4);
    assert forall|k: int| 0 <= k < 4 implies part[k] == want[k] by {
        assert((4 * i + k) / 4 == i);
        assert((4 * i + k) % 4 == k);
        assert(part[k] == b[4 * i + k]);
    }
    assert(part =~= want);
}

/// Decoding the bytes of a sequence of `i32` values gives the sequence back.
pub proof fn lemma_i32s_round_trip(xs: Seq<i32>)
    ensures
        i32s_le(xs).len() == 4 * xs.len(),
        i32s_of_le(i32s_le(xs)) == xs,
{
    let b = i32s_le(xs);
    assert(b.len() / 4 == xs.len());
    assert forall|i: int| 0 <= i < xs.len() implies i32s_of_le(b)[i] == xs[i] by {
        let x = xs[i];
        lemma_u32_round_trip(x as u32);
        lemma_i32s_block(xs, i);
        assert(((x as u32) as i32) == x) by (bit_vector);
    }
    assert(i32s_of_le(b) =~= xs);
}

/// Appends the bytes of each value of `xs`, lowest byte first.
pub fn write_i32s_le(out: &mut Vec<u8>, xs: &[i32])
    ensures
        final(out)@ == old(out)@ + i32s_le(xs@),
{
    let mut i: usize = 0;
    while i < xs.len()
        invariant
            0 <= i <= xs.len(),
            out@ == old(out)@ + i32s_le(xs@.take(i as int)),
        decreases xs.len() - i,
    {
        let ghost before = out@;
        write_u32_le(out, xs[i] as u32);
        proof {
            lemma_u32_round_trip(xs@[i as int] as u32);
            assert(i32s_le(xs@.take(i + 1)) =~= i32s_le(xs@.take(i as int)) + u32_le(
                xs@[i as int] as u32,
            ));
            assert(out@ =~= old(out)@ + i32s_le(xs@.take(i + 1)));
        }
        i = i + 1;
    }
    proof {
        assert(xs@.take(xs.len() as int) =~= xs@);
    }
}

/// The `count` values of type `i32` that the bytes from `at` on spell.
pub fn i32s_at(raw: &[u8], at: usize, count: usize) -> (r: Vec<i32>)
    requires
        at + 4 * count <= raw.len(),
    ensures
        r@ == i32s_of_le(raw@.subrange(at as int, at + 4 * count)),
{
    let mut out: Vec<i32> = Vec::new();
    let mut i: usize = 0;
    let ghost block = raw@.subrange(at as int, at + 4 * count);
    while i < count
        invariant
            0 <= i <= count,
            at + 4 * count <= raw.len(),
            block == raw@.subrange(at as int, at + 4 * count),
            out@.len() == i,
            forall|j: int| 0 <= j < i ==> out@[j] == i32s_of_le(block)[j],
        decreases count - i,
    {
        let v = u32_at(raw, at + 4 * i);
        proof {
            assert(raw@.subrange(at + 4 * i, at + 4 * i + 4) =~= block.subrange(
                4 * i,
                4 * i + 4,
            ));
        }
        out.push(v as i32);
        i = i + 1;
    }
    assert(out@ =~= i32s_of_le(block));
    out
}

/// The bytes of a sequence of `i64` values: each value's 8 bytes in turn,
/// lowest byte first.
pub open spec fn i64s_le(xs: Seq<i64>) -> Seq<u8> {
    Seq::new(8 * xs.len(), |i: int| u64_le(xs[i / 8] as u64)[i % 8])
}

/// The `i64` values that a byte sequence spells, 8 bytes each; bytes
/// left over at the end are not read.
pub open spec fn i64s_of_le(b: Seq<u8>) -> Seq<i64> {
    Seq::new(b.len() / 8, |i: int| u64_of_le(b.subrange(8 * i, 8 * i + 8)) as i64)
}

/// The bytes of the value at place `i` stand at `8 * i` in the bytes of
/// the sequence.
pub proof fn lemma_i64s_block(xs: Seq<i64>, i: int)
    requires
        0 <= i < xs.len(),
    ensures
        i64s_le(xs).subrange(8 * i, 8 * i + 8) == u64_le(xs[i] as u64),
{
    let b = i64s_le(xs);
    let part = b.subrange(8 * i, 8 * i + 8);
    let want = u64_le(xs[i] as u64);
    assert(want.len() == 8);
    assert forall|k: int| 0 <= k < 8 implies part[k] == want[k] by {
        assert((8 * i + k) / 8 == i);
        assert((8 * i + k) % 8 == k);
        assert(part[k] == b[8 * i + k]);
    }
    assert(part =~= want);
}

/// Decoding the bytes of a sequence of `i64` values gives the sequence back.
pub proof fn lemma_i64s_round_trip(xs: Seq<i64>)
    ensures
        i64s_le(xs).len() == 8 * xs.len(),
        i64s_of_le(i64s_le(xs)) == xs,
{
    let b = i64s_le(xs);
    assert(b.len() / 8 == xs.len());
    assert forall|i: int| 0 <= i < xs.len() implies i64s_of_le(b)[i] == xs[i] by {
        let x = xs[i];
        lemma_u64_round_trip(x as u64);
        lemma_i64s_block(xs, i);
        assert(((x as u64) as i64) == x) by (bit_vector);
    }
    assert(i64s_of_le(b) =~= xs);
}

/// Appends the bytes of each value of `xs`, lowest byte first.
pub fn write_i64s_le(out: &mut Vec<u8>, xs: &[i64])
    ensures
        final(out)@ == old(out)@ + i64s_le(xs@),
{
    let mut i: usize = 0;
    while i < xs.len()
        invariant
            0 <= i <= xs.len(),
            out@ == old(out)@ + i64s_le(xs@.take(i as int)),
        decreases xs.len() - i,
    {
        let ghost before = out@;
        write_u64_le(out, xs[i] as u64);
        proof {
            lemma_u64_round_trip(xs@[i as int] as u64);
            assert(i64s_le(xs@.take(i + 1)) =~= i64s_le(xs@.take(i as int)) + u64_le(
                xs@[i as int] as u64,
            ));
            assert(out@ =~= old(out)@ + i64s_le(xs@.take(i + 1)));
        }
        i = i + 1;
    }
    proof {
        assert(xs@.take(xs.len() as int) =~= xs@);
    }
}

/// The `count` values of type `i64` that the bytes from `at` on spell.
pub fn i64s_at(raw: &[u8], at: usize, count: usize) -> (r: Vec<i64>)
    requires
        at + 8 * count <= raw.len(),
    ensures
        r@ == i64s_of_le(raw@.subrange(at as int, at + 8 * count)),
{
    let mut out: Vec<i64> = Vec::new();
    let mut i: usize = 0;
    let ghost block = raw@.subrange(at as int, at + 8 * count);
    while i < count
        invariant
            0 <= i <= count,
            at + 8 * count <= raw.len(),
            block == raw@.subrange(at as int, at + 8 * count),
            out@.len() == i,
            forall|j: int| 0 <= j < i ==> out@[j] == i64s_of_le(block)[j],
        decreases count - i,
    {
        let v = u64_at(raw, at + 8 * i);
        proof {
            assert(raw@.subrange(at + 8 * i, at + 8 * i + 8) =~= block.subrange(
                8 * i,
                8 * i + 8,
            ));
        }
        out.push(v as i64);
        i = i + 1;
    }
    assert(out@ =~= i64s_of_le(block));
    out
}

/// The bytes of a sequence of `u64` values: each value's 8 bytes in turn,
/// lowest byte first.
pub open spec fn u64s_le(xs: Seq<u64>) -> Seq<u8> {
    Seq::new(8 * xs.len(), |i: int| u64_le(xs[i / 8])[i % 8])
}

/// Appends the bytes of each value of `xs`, lowest byte first.
pub fn write_u64s_le(out: &mut Vec<u8>, xs: &[u64])
    ensures
        final(out)@ == old(out)@ + u64s_le(xs@),
{
    let mut i: usize = 0;
    while i < xs.len()
        invariant
            0 <= i <= xs.len(),
            out@ == old(out)@ + u64s_le(xs@.take(i as int)),
        decreases xs.len() - i,
    {
        write_u64_le(out, xs[i]);
        proof {
            lemma_u64_round_trip(xs@[i as int]);
            assert(u64s_le(xs@.take(i + 1)) =~= u64s_le(xs@.take(i as int)) + u64_le(
                xs@[i as int],
            ));
            assert(out@ =~= old(out)@ + u64s_le(xs@.take(i + 1)));
        }
        i = i + 1;
    }
    proof {
        assert(xs@.take(xs.len() as int) =~= xs@);
    }
}

/// The number that the four bytes at `at` spell, lowest byte first; an I/O
/// error where the bytes end before them.
pub fn read_u32_le(raw: &[u8], at: usize) -> (r: Result<u32, GbfError>)
    ensures
        r is Ok <==> at + 4 <= raw.len(),
        r matches Ok(v) ==> v == u32_of_le(raw@.subrange(at as int, at + 4)),
        r matches Err(e) ==> e is Io,
{
    if raw.len() < 4 || at > raw.len() - 4 {
        return Err(GbfError::Io(String::from_str("failed to fill whole buffer")));
    }
    Ok(u32_at(raw, at))
}

} // verus!
