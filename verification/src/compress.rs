//! The compression policy and zlib: when a field is compressed, what is
//! stored, and how stored bytes become raw bytes again.
use crate::checksum::{compute_crc32, crc32_of};
use crate::error::{ErrorView, GbfError};
use crate::header::{FieldMeta, FieldMetaView};
use crate::text::{eq_ignoring_case, same_ignoring_case, same_text};
use vstd::prelude::*;
use vstd::slice::slice_to_vec;
use vstd::string::StringExecFns;

verus! {

/// When fields are compressed.
#[derive(Debug, Clone, Copy, PartialEq, Eq, Structural)]
pub enum CompressionMode {
    /// Where the field is large enough and its bytes do not look random.
    Auto,
    /// Wherever the field is large enough.
    Always,
    Never,
}

/// Fields below this size are never compressed.
pub const COMPRESS_THRESHOLD_BYTES: usize = 1024;

/// Under `Auto`, arrays of floating-point numbers below this size are not
/// compressed.
pub const AUTO_COMPRESS_THRESHOLD_BYTES: usize = 65536;

/// Under `Auto`, the number of leading bytes that are sampled.
pub const AUTO_ENTROPY_SAMPLE_BYTES: usize = 4096;

/// No field may be larger than this, stored or raw: 16 GiB.
pub const MAX_FIELD_USIZE: u64 = 17179869184;

/// No stored field may be larger than this: 16 GiB.
pub const MAX_FIELD_CSIZE: u64 = 17179869184;

/// What `flate2::write::ZlibEncoder` makes of `raw` at a compression level
/// of 0 to 9, or `None` where it fails.
pub uninterp spec fn zlib_deflated(raw: Seq<u8>, level: u32) -> Option<Seq<u8>>;

/// What `flate2::read::ZlibDecoder` reads out of `stored` when at most
/// `limit` bytes are taken, or `None` where the stream is broken.
pub uninterp spec fn zlib_inflated(stored: Seq<u8>, limit: u64) -> Option<Seq<u8>>;

/// `flate2::write::ZlibEncoder::new` on an empty `Vec` with
/// `Compression::new(level)`, `write_all` of `raw`, then `finish`.
#[verifier::external_body]
fn deflate(raw: &[u8], level: u32) -> (r: Option<Vec<u8>>)
    requires
        level <= 9,
    ensures
        r is Some <==> zlib_deflated(raw@, level) is Some,
        r matches Some(out) ==> zlib_deflated(raw@, level) == Some(out@),
{
    let mut enc = flate2::write::ZlibEncoder::new(Vec::new(), flate2::Compression::new(level));
    match std::io::Write::write_all(&mut enc, raw) {
        Ok(_) => enc.finish().ok(),
        Err(_) => None,
    }
}

/// `flate2::read::ZlibDecoder::new` on `stored`, `std::io::Read::take` of
/// `limit` bytes, then `read_to_end`: never more than `limit` bytes come
/// out. The error is given as its text.
#[verifier::external_body]
fn inflate(stored: &[u8], limit: u64) -> (r: Result<Vec<u8>, String>)
    ensures
        r is Ok <==> zlib_inflated(stored@, limit) is Some,
        r matches Ok(out) ==> zlib_inflated(stored@, limit) == Some(out@) && out@.len() <= limit,
{
    let mut out = Vec::new();
    let mut taken = std::io::Read::take(flate2::read::ZlibDecoder::new(stored), limit);
    match std::io::Read::read_to_end(&mut taken, &mut out) {
        Ok(_) => Ok(out),
        Err(e) => Err(e.to_string()),
    }
}

/// The number of different values among the bytes.
pub open spec fn distinct_bytes(sample: Seq<u8>) -> nat
    decreases sample.len(),
{
    if sample.len() == 0 {
        0
    } else if sample.drop_last().contains(sample.last()) {
        distinct_bytes(sample.drop_last())
    } else {
        distinct_bytes(sample.drop_last()) + 1
    }
}

/// Whether the leading bytes of a field look compressible: among the first
/// 4096 bytes (or all, if fewer) at most 95 in 100 are different values.
pub open spec fn sample_compressible(raw: Seq<u8>) -> bool {
    let len = if raw.len() < AUTO_ENTROPY_SAMPLE_BYTES {
        raw.len() as int
    } else {
        AUTO_ENTROPY_SAMPLE_BYTES as int
    };
    len > 0 && distinct_bytes(raw.take(len)) * 100 <= 95 * len
}

/// Whether `Auto` tries to compress a field: it is at least 1 KiB, at
/// least 64 KiB if it is an array of `double` or `single`, and its sample
/// looks compressible.
pub open spec fn auto_tries(kind: Seq<char>, class_name: Seq<char>, raw: Seq<u8>) -> bool {
    &&& raw.len() >= COMPRESS_THRESHOLD_BYTES
    &&& !(kind == "numeric"@ && (class_name == "double"@ || class_name == "single"@) && raw.len()
        < AUTO_COMPRESS_THRESHOLD_BYTES)
    &&& sample_compressible(raw)
}

/// Whether compression is tried on a field under the given options.
pub open spec fn tries_compression(
    compression: bool,
    mode: CompressionMode,
    kind: Seq<char>,
    class_name: Seq<char>,
    raw: Seq<u8>,
) -> bool {
    compression && match mode {
        CompressionMode::Never => false,
        CompressionMode::Always => raw.len() >= COMPRESS_THRESHOLD_BYTES,
        CompressionMode::Auto => auto_tries(kind, class_name, raw),
    }
}

/// The number of byte values below `k` that occur in the bytes.
pub open spec fn present_below(sample: Seq<u8>, k: int) -> nat
    decreases k,
{
    if k <= 0 {
        0
    } else if sample.contains((k - 1) as u8) {
        present_below(sample, k - 1) + 1
    } else {
        present_below(sample, k - 1)
    }
}

/// One more byte adds one to the values that occur where it is new and
/// below `k`, and nothing else.
proof fn lemma_present_push(front: Seq<u8>, x: u8, k: int)
    requires
        0 <= k <= 256,
    ensures
        present_below(front.push(x), k) == present_below(front, k) + if !front.contains(x) && x
            < k {
            1nat
        } else {
            0nat
        },
    decreases k,
{
    if k > 0 {
        lemma_present_push(front, x, k - 1);
        let v = (k - 1) as u8;
        let all = front.push(x);
        if front.contains(v) {
            let i = choose|i: int| 0 <= i < front.len() && front[i] == v;
            assert(all[i] == v);
        }
        if all.contains(v) {
            let i = choose|i: int| 0 <= i < all.len() && all[i] == v;
            if i < front.len() {
                assert(front[i] == v);
            }
        }
        if v == x {
            assert(all[front.len() as int] == x);
        }
    }
}

/// The number of different values among bytes is the number of byte
/// values that occur, and so at most 256.
pub proof fn lemma_distinct_bound(sample: Seq<u8>)
    ensures
        distinct_bytes(sample) == present_below(sample, 256),
        distinct_bytes(sample) <= 256,
    decreases sample.len(),
{
    lemma_present_at_most(sample, 256);
    if sample.len() > 0 {
        let front = sample.drop_last();
        lemma_distinct_bound(front);
        lemma_present_push(front, sample.last(), 256);
        assert(front.push(sample.last()) =~= sample);
    } else {
        lemma_present_none(sample, 256);
    }
}

/// At most `k` byte values below `k` occur.
proof fn lemma_present_at_most(sample: Seq<u8>, k: int)
    requires
        0 <= k,
    ensures
        present_below(sample, k) <= k,
    decreases k,
{
    if k > 0 {
        lemma_present_at_most(sample, k - 1);
    }
}

/// No byte value occurs in no bytes.
proof fn lemma_present_none(sample: Seq<u8>, k: int)
    requires
        sample.len() == 0,
        0 <= k,
    ensures
        present_below(sample, k) == 0,
    decreases k,
{
    if k > 0 {
        lemma_present_none(sample, k - 1);
    }
}

/// The sample of a field of at least 1 KiB always looks compressible: it
/// holds at least 1024 bytes and at most 256 different values, which is one
/// in four. So `Auto` tries to compress every field of at least 1 KiB that
/// is no array of floating-point numbers, and every such array of at least
/// 64 KiB.
pub proof fn lemma_auto_tries(kind: Seq<char>, class_name: Seq<char>, raw: Seq<u8>)
    ensures
        raw.len() >= COMPRESS_THRESHOLD_BYTES ==> sample_compressible(raw),
        auto_tries(kind, class_name, raw) == (raw.len() >= COMPRESS_THRESHOLD_BYTES && !(kind
            == "numeric"@ && (class_name == "double"@ || class_name == "single"@) && raw.len()
            < AUTO_COMPRESS_THRESHOLD_BYTES)),
{
    let len = if raw.len() < AUTO_ENTROPY_SAMPLE_BYTES {
        raw.len() as int
    } else {
        AUTO_ENTROPY_SAMPLE_BYTES as int
    };
    lemma_distinct_bound(raw.take(len));
}

/// The number of different values among the first `len` bytes.
fn count_distinct(raw: &[u8], len: usize) -> (n: usize)
    requires
        len <= raw.len(),
    ensures
        n == distinct_bytes(raw@.take(len as int)),
        n <= len,
{
    let mut seen: Vec<bool> = Vec::new();
    let mut k: usize = 0;
    while k < 256
        invariant
            0 <= k <= 256,
            seen.len() == k,
            forall|j: int| 0 <= j < k ==> !seen@[j],
        decreases 256 - k,
    {
        seen.push(false);
        k = k + 1;
    }
    let mut unique: usize = 0;
    let mut i: usize = 0;
    while i < len
        invariant
            0 <= i <= len <= raw.len(),
            seen.len() == 256,
            unique <= i,
            unique == distinct_bytes(raw@.take(i as int)),
            forall|b: int| 0 <= b < 256 ==> (seen@[b] <==> raw@.take(i as int).contains(b as u8)),
        decreases len - i,
    {
        let b = raw[i];
        let ghost before = raw@.take(i as int);
        let ghost after = raw@.take(i + 1);
        proof {
            assert(after.drop_last() =~= before);
            assert(after.last() == b);
        }
        let idx = b as usize;
        if !seen[idx] {
            seen.set(idx, true);
            unique = unique + 1;
        }
        proof {
            assert forall|c: int| 0 <= c < 256 implies (seen@[c] <==> after.contains(c as u8)) by {
                if after.contains(c as u8) {
                    let j = choose|j: int| 0 <= j < after.len() && after[j] == c as u8;
                    if j < i {
                        assert(before[j] == c as u8);
                    }
                }
                if before.contains(c as u8) {
                    let j = choose|j: int| 0 <= j < before.len() && before[j] == c as u8;
                    assert(after[j] == c as u8);
                }
                if c == b as int {
                    assert(after[i as int] == b);
                }
            }
        }
        i = i + 1;
    }
    unique
}

/// Whether `Auto` tries to compress a field of the given kind and class
/// with these raw bytes.
pub fn should_try_compress(kind: &str, class_name: &str, raw: &[u8]) -> (r: bool)
    ensures
        r == auto_tries(kind@, class_name@, raw@),
{
    if raw.len() < COMPRESS_THRESHOLD_BYTES {
        return false;
    }
    if same_text(kind, "numeric") && (same_text(class_name, "double") || same_text(
        class_name,
        "single",
    )) {
        if raw.len() < AUTO_COMPRESS_THRESHOLD_BYTES {
            return false;
        }
    }
    let sample_len = if raw.len() < AUTO_ENTROPY_SAMPLE_BYTES {
        raw.len()
    } else {
        AUTO_ENTROPY_SAMPLE_BYTES
    };
    if sample_len == 0 {
        return false;
    }
    let unique = count_distinct(raw, sample_len);
    unique * 100 <= 95 * sample_len
}

/// Whether compression is tried on a field under the given options.
pub fn wants_compression(
    compression: bool,
    mode: CompressionMode,
    kind: &str,
    class_name: &str,
    raw: &[u8],
) -> (r: bool)
    ensures
        r == tries_compression(compression, mode, kind@, class_name@, raw@),
{
    if !compression {
        return false;
    }
    match mode {
        CompressionMode::Never => false,
        CompressionMode::Always => raw.len() >= COMPRESS_THRESHOLD_BYTES,
        CompressionMode::Auto => should_try_compress(kind, class_name, raw),
    }
}

/// The zlib stream of `raw` at a level of at most 9 (a higher level counts
/// as 9), or `None` where the encoder fails.
pub fn zlib_compress(raw: &[u8], level: u32) -> (r: Option<Vec<u8>>)
    ensures
        r is Some <==> zlib_deflated(raw@, clamp_level(level)) is Some,
        r matches Some(out) ==> zlib_deflated(raw@, clamp_level(level)) == Some(out@),
{
    let level = if level > 9 {
        9
    } else {
        level
    };
    deflate(raw, level)
}

/// The level that is used for a level asked for: at most 9.
pub open spec fn clamp_level(level: u32) -> u32 {
    if level > 9 {
        9
    } else {
        level
    }
}

/// The cap on the bytes that come out of one field: what is asked for, and
/// at most 16 GiB.
pub open spec fn output_cap(max_out: u64) -> u64 {
    if max_out > MAX_FIELD_USIZE {
        MAX_FIELD_USIZE
    } else {
        max_out
    }
}

/// The bytes that a zlib stream holds under a cap on their number: one
/// byte more than the cap is taken, and the stream is refused where that
/// byte comes.
pub open spec fn zlib_decompress_spec(stored: Seq<u8>, max_out: u64) -> Option<Seq<u8>> {
    match zlib_inflated(stored, (output_cap(max_out) + 1) as u64) {
        Some(out) => if out.len() > output_cap(max_out) {
            None
        } else {
            Some(out)
        },
        None => None,
    }
}

/// Holds what came out of a zlib stream against the cap: `None` where it is
/// longer.
pub fn within_cap(out: Vec<u8>, cap: u64) -> (r: Option<Vec<u8>>)
    ensures
        r == if out@.len() > cap {
            None
        } else {
            Some(out)
        },
{
    if out.len() as u64 > cap {
        None
    } else {
        Some(out)
    }
}

/// The bytes that the zlib stream `stored` holds, at most `max_out` and at
/// most 16 GiB of them; the error is given as its text.
pub fn zlib_decompress(stored: &[u8], max_out: u64) -> (r: Result<Vec<u8>, String>)
    ensures
        r is Ok <==> zlib_decompress_spec(stored@, max_out) is Some,
        r matches Ok(out) ==> zlib_decompress_spec(stored@, max_out) == Some(out@),
{
    let cap = if max_out > MAX_FIELD_USIZE {
        MAX_FIELD_USIZE
    } else {
        max_out
    };
    match inflate(stored, cap + 1) {
        Ok(out) => match within_cap(out, cap) {
            Some(v) => Ok(v),
            None => Err(String::from_str("decompressed data exceeds configured limit")),
        },
        Err(m) => Err(m),
    }
}

/// What is stored for a field, given its raw bytes and, where compression
/// was tried and the encoder did not fail, the compressed bytes: the
/// compressed bytes where they are strictly fewer, else the raw bytes.
pub open spec fn stored_choice(raw: Seq<u8>, compressed: Option<Seq<u8>>) -> (Seq<u8>, bool) {
    match compressed {
        Some(c) if c.len() < raw.len() => (c, true),
        _ => (raw, false),
    }
}

/// Chooses what is stored for a field: the compressed bytes where there
/// are some and they are strictly fewer than the raw bytes, else the raw
/// bytes. The flag says whether the stored bytes are compressed.
///
/// So the stored bytes are never more than the raw bytes, and without
/// compressed bytes the raw bytes are stored as they are.
pub fn choose_stored(raw: Vec<u8>, compressed: Option<Vec<u8>>) -> (r: (Vec<u8>, bool))
    ensures
        (r.0@, r.1) == stored_choice(
            raw@,
            match compressed {
                Some(c) => Some(c@),
                None => None,
            },
        ),
        r.0@.len() <= raw@.len(),
        compressed is None ==> r.0@ == raw@ && !r.1,
{
    match compressed {
        Some(c) => {
            if c.len() < raw.len() {
                (c, true)
            } else {
                (raw, false)
            }
        },
        None => (raw, false),
    }
}

/// The most raw bytes that a field may hold: its declared size, or 16 GiB
/// where it declares none.
pub open spec fn field_cap(field: FieldMetaView) -> u64 {
    if field.usize > 0 {
        field.usize
    } else {
        MAX_FIELD_USIZE
    }
}

/// Whether the field's stored bytes are a zlib stream.
pub open spec fn is_zlib(field: FieldMetaView) -> bool {
    same_ignoring_case(field.compression, "zlib"@)
}

/// Whether raw bytes pass the checks of a read: under validation their
/// number is the declared size (where one is declared) and their CRC is the
/// stored one (where one is stored). The error says which check failed
/// first.
pub open spec fn raw_check(field: FieldMetaView, raw: Seq<u8>, crc: u32, validate: bool) -> Option<
    ErrorView,
> {
    if validate && field.usize > 0 && raw.len() != field.usize {
        Some(
            ErrorView::FieldSizeMismatch {
                name: field.name,
                expected: field.usize,
                got: raw.len() as u64,
            },
        )
    } else if validate && field.crc32 != 0 && crc != field.crc32 {
        Some(ErrorView::FieldCrcMismatch { name: field.name, expected: field.crc32, got: crc })
    } else {
        None
    }
}

/// Holds the raw bytes of a field, and their CRC-32 `crc`, against the
/// field's description. Without validation nothing is checked; with it,
/// the number of bytes where the field declares one, then the CRC where the
/// field stores one.
pub fn check_raw(field: &FieldMeta, raw: Vec<u8>, crc: u32, validate: bool) -> (r: Result<
    Vec<u8>,
    GbfError,
>)
    ensures
        match r {
            Ok(out) => raw_check(field@, raw@, crc, validate) is None && out@ == raw@,
            Err(e) => raw_check(field@, raw@, crc, validate) == Some(e@),
        },
{
    if validate && field.usize > 0 && raw.len() as u64 != field.usize {
        return Err(
            GbfError::FieldSizeMismatch {
                name: field.name.clone(),
                expected: field.usize,
                got: raw.len() as u64,
            },
        );
    }
    if validate && field.crc32 != 0 && crc != field.crc32 {
        return Err(
            GbfError::FieldCrcMismatch {
                name: field.name.clone(),
                expected: field.crc32,
                got: crc,
            },
        );
    }
    Ok(raw)
}

/// The raw bytes of a field, given its stored bytes, or the error that
/// reading them ends with: a zlib stream is inflated under the field's
/// cap, other bytes are taken as they are (16 GiB at most); then the checks
/// of [`raw_check`] are made.
#[verifier::opaque]
pub open spec fn field_raw_spec(field: FieldMetaView, stored: Seq<u8>, validate: bool) -> Result<
    Seq<u8>,
    ErrorView,
> {
    if is_zlib(field) {
        match zlib_decompress_spec(stored, field_cap(field)) {
            None => Err(ErrorView::DecompressionFailed { name: field.name }),
            Some(raw) => match raw_check(field, raw, crc32_of(raw), validate) {
                Some(k) => Err(k),
                None => Ok(raw),
            },
        }
    } else if stored.len() > MAX_FIELD_USIZE {
        Err(ErrorView::Unsupported)
    } else {
        match raw_check(field, stored, crc32_of(stored), validate) {
            Some(k) => Err(k),
            None => Ok(stored),
        }
    }
}

/// The raw bytes of a field from its stored bytes: inflated where the field
/// is tagged `zlib`, and checked against the declared size and the stored
/// CRC where `validate` is set. An error about the size holds the field's
/// name, the declared size and the number of raw bytes; an error about the
/// CRC holds the name, the stored CRC and the CRC of the raw bytes.
pub fn decode_field_bytes(field: &FieldMeta, comp_bytes: &[u8], validate: bool) -> (r: Result<
    Vec<u8>,
    GbfError,
>)
    ensures
        match r {
            Ok(raw) => field_raw_spec(field@, comp_bytes@, validate) == Ok::<Seq<u8>, ErrorView>(
                raw@,
            ),
            Err(e) => field_raw_spec(field@, comp_bytes@, validate) == Err::<Seq<u8>, ErrorView>(
                e@,
            ),
        },
        r matches Ok(raw) ==> (validate && field.crc32 != 0 ==> crc32_of(raw@) == field.crc32),
        r matches Ok(raw) ==> (validate && field.usize > 0 ==> raw@.len() == field.usize),
        r matches Err(e) ==> e.names(field.name@),
{
    proof {
        reveal(field_raw_spec);
    }
    let max_out = if field.usize > 0 {
        field.usize
    } else {
        MAX_FIELD_USIZE
    };
    let raw = if eq_ignoring_case(field.compression.as_str(), "zlib") {
        match zlib_decompress(comp_bytes, max_out) {
            Ok(v) => v,
            Err(message) => {
                return Err(GbfError::DecompressionFailed { name: field.name.clone(), message });
            },
        }
    } else {
        if comp_bytes.len() as u64 > MAX_FIELD_USIZE {
            return Err(
                crate::error::unsupported_error(
                    "field `",
                    field.name.as_str(),
                    "` raw payload exceeds configured limit",
                ),
            );
        }
        slice_to_vec(comp_bytes)
    };
    let crc = if validate && field.crc32 != 0 {
        compute_crc32(raw.as_slice())
    } else {
        0
    };
    check_raw(field, raw, crc, validate)
}

} // verus!
