//! The writer: from a value to the bytes of a container.
use crate::checksum::{compute_crc32, compute_header_crc32_hex_from_original_json, crc32_of, header_crc_text};
use crate::compress::{
    choose_stored, clamp_level, stored_choice, tries_compression, wants_compression, zlib_compress,
    zlib_deflated, CompressionMode,
};
use crate::error::{ErrorView, GbfError};
use crate::header::{fields_view, FieldMeta, FieldMetaView, Header, HeaderView, MAGIC_BYTES, VERSION};
use crate::le::{u32_le, write_u32_le};
use crate::leaf::{
    encode_failure, encode_leaf, leaf_bytes, leaf_class, leaf_complex, leaf_encoding, leaf_kind,
    leaf_shape,
};
use crate::schema::{header_text, render_header};
use crate::text::concat2;
use crate::tree::{flatten_spec, flatten_to_leaves};
use crate::value::{entries_view, lemma_entries_view, GbfValue, ValueView};
use vstd::prelude::*;
use vstd::string::StringExecFns;
use vstd::utf8::encode_utf8;

verus! {

/// How a container is written.
#[derive(Debug, Clone, Copy)]
pub struct WriteOptions {
    /// Whether fields may be compressed at all.
    pub compression: bool,
    pub compression_mode: CompressionMode,
    /// The zlib level, 0 to 9; a higher level counts as 9.
    pub compression_level: u32,
    /// Whether the CRC-32 of each field is computed and stored.
    pub crc: bool,
    /// Whether the header is laid out over lines.
    pub pretty_header: bool,
}

impl Default for WriteOptions {
    fn default() -> (r: Self)
        ensures
            r.compression,
            r.compression_mode == CompressionMode::Auto,
            r.compression_level == 1,
            !r.crc,
            !r.pretty_header,
    {
        WriteOptions {
            compression: true,
            compression_mode: CompressionMode::Auto,
            compression_level: 1,
            crc: false,
            pretty_header: false,
        }
    }
}

/// The magic bytes as a sequence.
pub open spec fn magic_seq() -> Seq<u8> {
    seq![71u8, 82u8, 69u8, 68u8, 66u8, 73u8, 78u8, 0u8]
}

/// What is stored for a leaf under the options, and whether it is
/// compressed: where compression is tried, the zlib stream if it is
/// strictly shorter than the raw bytes; else the raw bytes. `None` where
/// compression is tried and the encoder fails.
pub open spec fn stored_for(leaf: ValueView, opts: WriteOptions) -> Option<(Seq<u8>, bool)> {
    let raw = leaf_bytes(leaf);
    if tries_compression(
        opts.compression,
        opts.compression_mode,
        leaf_kind(leaf),
        leaf_class(leaf),
        raw,
    ) {
        match zlib_deflated(raw, clamp_level(opts.compression_level)) {
            None => None,
            Some(c) => Some(stored_choice(raw, Some(c))),
        }
    } else {
        Some((raw, false))
    }
}

/// The description of a leaf that is stored at `offset`.
pub open spec fn field_for(
    name: Seq<char>,
    leaf: ValueView,
    opts: WriteOptions,
    offset: u64,
    stored: Seq<u8>,
    zlib: bool,
) -> FieldMetaView {
    FieldMetaView {
        name,
        kind: leaf_kind(leaf),
        class_name: leaf_class(leaf),
        shape: leaf_shape(leaf),
        complex: leaf_complex(leaf),
        encoding: leaf_encoding(leaf),
        compression: if zlib {
            "zlib"@
        } else {
            "none"@
        },
        offset,
        csize: stored.len() as u64,
        usize: leaf_bytes(leaf).len() as u64,
        crc32: if opts.crc {
            crc32_of(leaf_bytes(leaf))
        } else {
            0
        },
    }
}

/// The field table and the stored bytes of a list of named leaves, and the
/// number of stored bytes in all: each leaf is encoded, compressed as the
/// options say, and laid out right behind the one before it. An error of
/// the first leaf that cannot be encoded ends it; so does a failure of the
/// zlib encoder (an I/O error), and a payload beyond `u64` (unsupported).
pub open spec fn planned(leaves: Seq<(Seq<char>, ValueView)>, opts: WriteOptions) -> Result<
    (Seq<FieldMetaView>, Seq<Seq<u8>>, nat),
    ErrorView,
>
    decreases leaves.len(),
{
    if leaves.len() == 0 {
        Ok((Seq::empty(), Seq::empty(), 0))
    } else {
        match planned(leaves.drop_last(), opts) {
            Err(k) => Err(k),
            Ok((fields, chunks, total)) => {
                let name = leaves.last().0;
                let leaf = leaves.last().1;
                match encode_failure(leaf) {
                    Some(k) => Err(k),
                    None => match stored_for(leaf, opts) {
                        None => Err(ErrorView::Io),
                        Some((stored, zlib)) => if leaf_bytes(leaf).len() > u64::MAX || total
                            + stored.len() > u64::MAX {
                            Err(ErrorView::Unsupported)
                        } else {
                            Ok(
                                (
                                    fields.push(
                                        field_for(name, leaf, opts, total as u64, stored, zlib),
                                    ),
                                    chunks.push(stored),
                                    total + stored.len(),
                                ),
                            )
                        },
                    },
                }
            },
        }
    }
}

/// Where the first leaves cannot be laid out, neither can all.
pub proof fn lemma_planned_prefix_fails(
    leaves: Seq<(Seq<char>, ValueView)>,
    opts: WriteOptions,
    i: int,
)
    requires
        0 <= i <= leaves.len(),
        planned(leaves.take(i), opts) is Err,
    ensures
        planned(leaves, opts) == planned(leaves.take(i), opts),
    decreases leaves.len() - i,
{
    if i < leaves.len() {
        assert(leaves.take(i + 1).drop_last() =~= leaves.take(i));
        lemma_planned_prefix_fails(leaves, opts, i + 1);
    } else {
        assert(leaves.take(i) =~= leaves);
    }
}

/// Size accounting of a layout: each field begins where the one before it
/// ends, the first at 0, each is as long as its stored bytes, and the total
/// is the sum of the stored sizes.
pub proof fn lemma_planned_contiguous(leaves: Seq<(Seq<char>, ValueView)>, opts: WriteOptions)
    requires
        planned(leaves, opts) is Ok,
    ensures
        ({
            let (fields, chunks, total) = planned(leaves, opts)->Ok_0;
            &&& fields.len() == leaves.len()
            &&& chunks.len() == leaves.len()
            &&& total <= u64::MAX
            &&& forall|i: int|
                0 <= i < fields.len() ==> (#[trigger] fields[i]).csize == chunks[i].len()
            &&& fields.len() > 0 ==> fields[0].offset == 0
            &&& forall|i: int|
                0 <= i < fields.len() - 1 ==> (#[trigger] fields[i + 1]).offset
                    == fields[i].offset + fields[i].csize
            &&& fields.len() > 0 ==> total == fields.last().offset + fields.last().csize
            &&& fields.len() == 0 ==> total == 0
        }),
    decreases leaves.len(),
{
    if leaves.len() > 0 {
        lemma_planned_contiguous(leaves.drop_last(), opts);
        let (f0, c0, t0) = planned(leaves.drop_last(), opts)->Ok_0;
        let (fields, chunks, total) = planned(leaves, opts)->Ok_0;
        assert(fields.drop_last() =~= f0);
        assert(chunks.drop_last() =~= c0);
        assert forall|i: int| 0 <= i < fields.len() - 1 implies (#[trigger] fields[i + 1]).offset
            == fields[i].offset + fields[i].csize by {
            if i < fields.len() - 2 {
                assert(fields[i + 1] == f0[i + 1]);
                assert(fields[i] == f0[i]);
            } else {
                assert(fields[i] == f0.last());
            }
        }
    }
}

/// Monotonicity of storing: a stored field is never longer than its raw
/// bytes; where compression is off or the mode is `Never`, every field is
/// stored as it is and tagged `none`.
pub proof fn lemma_planned_sizes(leaves: Seq<(Seq<char>, ValueView)>, opts: WriteOptions)
    requires
        planned(leaves, opts) is Ok,
    ensures
        ({
            let (fields, chunks, total) = planned(leaves, opts)->Ok_0;
            &&& fields.len() == leaves.len()
            &&& forall|i: int| 0 <= i < fields.len() ==> (#[trigger] fields[i]).csize <= fields[i].usize
            &&& (!opts.compression || opts.compression_mode == CompressionMode::Never)
                ==> forall|i: int|
                0 <= i < fields.len() ==> (#[trigger] fields[i]).compression == "none"@
                    && fields[i].csize == fields[i].usize && chunks[i] == leaf_bytes(leaves[i].1)
        }),
    decreases leaves.len(),
{
    if leaves.len() > 0 {
        lemma_planned_sizes(leaves.drop_last(), opts);
        lemma_planned_contiguous(leaves, opts);
        let (f0, c0, t0) = planned(leaves.drop_last(), opts)->Ok_0;
        let (fields, chunks, total) = planned(leaves, opts)->Ok_0;
        let leaf = leaves.last().1;
        let (stored, zlib) = stored_for(leaf, opts)->Some_0;
        assert(stored.len() <= leaf_bytes(leaf).len());
        assert forall|i: int| 0 <= i < fields.len() implies (#[trigger] fields[i]).csize
            <= fields[i].usize by {
            if i < fields.len() - 1 {
                assert(fields[i] == f0[i]);
            }
        }
        if !opts.compression || opts.compression_mode == CompressionMode::Never {
            assert forall|i: int| 0 <= i < fields.len() implies (#[trigger] fields[i]).compression
                == "none"@ && fields[i].csize == fields[i].usize && chunks[i] == leaf_bytes(
                leaves[i].1,
            ) by {
                if i < fields.len() - 1 {
                    assert(fields[i] == f0[i]);
                    assert(chunks[i] == c0[i]);
                    assert(leaves[i] == leaves.drop_last()[i]);
                }
            }
        }
    }
}

/// The stored bytes of a list of fields, as sequences.
pub open spec fn chunks_view(chunks: Seq<Vec<u8>>) -> Seq<Seq<u8>> {
    Seq::new(chunks.len(), |i: int| chunks[i]@)
}

/// Encodes, compresses and lays out a list of named leaves: the field
/// table, the stored bytes of each field, and the number of stored bytes in
/// all.
pub fn plan_fields(leaves: &Vec<(String, GbfValue)>, opts: &WriteOptions) -> (r: Result<
    (Vec<FieldMeta>, Vec<Vec<u8>>, u64),
    GbfError,
>)
    ensures
        match r {
            Ok(t) => planned(entries_view(leaves@), *opts) == Ok::<
                (Seq<FieldMetaView>, Seq<Seq<u8>>, nat),
                ErrorView,
            >((fields_view(t.0@), chunks_view(t.1@), t.2 as nat)),
            Err(e) => planned(entries_view(leaves@), *opts) == Err::<
                (Seq<FieldMetaView>, Seq<Seq<u8>>, nat),
                ErrorView,
            >(e@),
        },
{
    let ghost all = entries_view(leaves@);
    proof {
        lemma_entries_view(leaves@);
    }
    let mut fields: Vec<FieldMeta> = Vec::new();
    let mut chunks: Vec<Vec<u8>> = Vec::new();
    let mut total: u64 = 0;
    let mut i: usize = 0;
    proof {
        assert(fields_view(fields@) =~= Seq::<FieldMetaView>::empty());
        assert(chunks_view(chunks@) =~= Seq::<Seq<u8>>::empty());
    }
    while i < leaves.len()
        invariant
            0 <= i <= leaves.len(),
            all == entries_view(leaves@),
            all.len() == leaves.len(),
            forall|j: int|
                0 <= j < leaves.len() ==> (#[trigger] all[j]) == (leaves@[j].0@, leaves@[j].1@),
            planned(all.take(i as int), *opts) == Ok::<
                (Seq<FieldMetaView>, Seq<Seq<u8>>, nat),
                ErrorView,
            >((fields_view(fields@), chunks_view(chunks@), total as nat)),
        decreases leaves.len() - i,
    {
        proof {
            assert(all.take(i + 1).drop_last() =~= all.take(i as int));
            assert(all.take(i + 1).last() == all[i as int]);
        }
        let name = leaves[i].0.as_str();
        let leaf = &leaves[i].1;
        let (raw, kind, class_name, shape, complex, encoding) = match encode_leaf(name, leaf) {
            Ok(t) => t,
            Err(e) => {
                proof {
                    lemma_planned_prefix_fails(all, *opts, i + 1);
                }
                return Err(e);
            },
        };
        let usize_u64 = raw.len() as u64;
        let crc = if opts.crc {
            compute_crc32(raw.as_slice())
        } else {
            0
        };
        let tries = wants_compression(
            opts.compression,
            opts.compression_mode,
            kind.as_str(),
            class_name.as_str(),
            raw.as_slice(),
        );
        let compressed = if tries {
            match zlib_compress(raw.as_slice(), opts.compression_level) {
                Some(c) => Some(c),
                None => {
                    proof {
                        lemma_planned_prefix_fails(all, *opts, i + 1);
                    }
                    return Err(GbfError::Io(String::from_str("zlib encoder failed")));
                },
            }
        } else {
            None
        };
        let (stored, zlib) = choose_stored(raw, compressed);
        let csize = stored.len() as u64;
        let next = match total.checked_add(csize) {
            Some(n) => n,
            None => {
                proof {
                    lemma_planned_prefix_fails(all, *opts, i + 1);
                }
                return Err(GbfError::Unsupported(String::from_str("payload too large")));
            },
        };
        let field = FieldMeta {
            name: String::from_str(name),
            kind,
            class_name,
            shape,
            complex,
            encoding,
            compression: if zlib {
                String::from_str("zlib")
            } else {
                String::from_str("none")
            },
            offset: total,
            csize,
            usize: usize_u64,
            crc32: crc,
        };
        let ghost f0 = fields_view(fields@);
        let ghost c0 = chunks_view(chunks@);
        proof {
            assert(field@ == field_for(all[i as int].0, all[i as int].1, *opts, total, stored@, zlib));
        }
        fields.push(field);
        chunks.push(stored);
        proof {
            assert(fields_view(fields@) =~= f0.push(field@));
            assert(chunks_view(chunks@) =~= c0.push(stored@));
        }
        total = next;
        i = i + 1;
    }
    proof {
        assert(all.take(i as int) =~= all);
    }
    Ok((fields, chunks, total))
}

/// The header with another stored CRC.
pub open spec fn with_crc(h: HeaderView, crc: Seq<char>) -> HeaderView {
    HeaderView { header_crc32_hex: crc, ..h }
}

/// The header with other places of the payload and the end of the file.
pub open spec fn with_sizes(h: HeaderView, payload_start: u64, file_size: u64) -> HeaderView {
    HeaderView { payload_start, file_size, ..h }
}

/// The header text as it stands in the file: the JSON text and a newline.
pub open spec fn header_line(h: HeaderView, pretty: bool) -> Seq<char> {
    header_text(h, pretty) + seq!['\n']
}

/// The header with its CRC: the CRC of the header line that holds eight
/// zeros in the CRC's place.
pub open spec fn sealed(h: HeaderView, pretty: bool) -> HeaderView {
    with_crc(h, header_crc_text(header_line(with_crc(h, "00000000"@), pretty)))
}

/// Whether a header and its line are closed over a payload of `total`
/// bytes: the line is the text of the header, the payload begins after the
/// magic, the length and the line, the file ends after the payload, and the
/// stored CRC is that of the line with eight zeros in the CRC's place.
pub open spec fn closed(h: HeaderView, line: Seq<char>, total: nat, pretty: bool) -> bool {
    &&& line == header_line(h, pretty)
    &&& encode_utf8(line).len() <= u32::MAX
    &&& h.payload_start == 8 + 4 + encode_utf8(line).len()
    &&& h.file_size == h.payload_start + total
    &&& h == sealed(h, pretty)
}

/// The closed header that at most `rounds` rounds lead to: in each round
/// the header is sealed and written out, and the places that follow from
/// the length of its line are held against those it stores; where they
/// agree the header is closed, else they are stored and the next round
/// begins. A line beyond `u32` and a file beyond `u64` are unsupported; a
/// header that is not closed after the last round is a format error.
pub open spec fn close_header(h: HeaderView, total: nat, pretty: bool, rounds: nat) -> Result<
    (HeaderView, Seq<char>),
    ErrorView,
>
    decreases rounds,
{
    if rounds == 0 {
        Err(ErrorView::Format)
    } else {
        let s = sealed(h, pretty);
        let line = header_line(s, pretty);
        let len = encode_utf8(line).len();
        if len > u32::MAX || 12 + len + total > u64::MAX {
            Err(ErrorView::Unsupported)
        } else if h.payload_start == 12 + len && h.file_size == 12 + len + total {
            Ok((s, line))
        } else {
            close_header(
                with_sizes(s, (12 + len) as u64, (12 + len + total) as u64),
                total,
                pretty,
                (rounds - 1) as nat,
            )
        }
    }
}

/// What [`close_header`] leads to is closed, and differs from the header
/// it began with in the places and the CRC only.
pub proof fn lemma_close_header(h: HeaderView, total: nat, pretty: bool, rounds: nat)
    requires
        close_header(h, total, pretty, rounds) is Ok,
    ensures
        ({
            let (c, line) = close_header(h, total, pretty, rounds)->Ok_0;
            &&& closed(c, line, total, pretty)
            &&& with_sizes(with_crc(c, h.header_crc32_hex), h.payload_start, h.file_size) == h
        }),
    decreases rounds,
{
    let s = sealed(h, pretty);
    let line = header_line(s, pretty);
    let len = encode_utf8(line).len();
    assert(with_crc(s, "00000000"@) == with_crc(h, "00000000"@));
    if h.payload_start == 12 + len && h.file_size == 12 + len + total {
        assert(sealed(s, pretty) == s);
        assert(with_sizes(with_crc(s, h.header_crc32_hex), h.payload_start, h.file_size) == h);
    } else {
        let n = with_sizes(s, (12 + len) as u64, (12 + len + total) as u64);
        lemma_close_header(n, total, pretty, (rounds - 1) as nat);
        let (c, l2) = close_header(n, total, pretty, (rounds - 1) as nat)->Ok_0;
        assert(with_sizes(with_crc(c, h.header_crc32_hex), h.payload_start, h.file_size) == h);
    }
}

/// The number of rounds in which a header must close.
pub const CLOSE_ROUNDS: usize = 10;

/// Closes a header over a payload of `total` bytes: sets its CRC and the
/// places that depend on the length of its own text, in at most ten rounds.
/// Returns the closed header and its line (the JSON text and a newline).
pub fn close(header: Header, total: u64, pretty: bool) -> (r: Result<(Header, String), GbfError>)
    ensures
        match r {
            Ok(t) => close_header(header@, total as nat, pretty, CLOSE_ROUNDS as nat) == Ok::<
                (HeaderView, Seq<char>),
                ErrorView,
            >((t.0@, t.1@)) && closed(t.0@, t.1@, total as nat, pretty),
            Err(e) => close_header(header@, total as nat, pretty, CLOSE_ROUNDS as nat) == Err::<
                (HeaderView, Seq<char>),
                ErrorView,
            >(e@),
        },
{
    let ghost start = header@;
    let mut h = header;
    let mut round: usize = 0;
    proof {
        reveal_strlit("\n");
        assert("\n"@ =~= seq!['\n']);
    }
    while round < CLOSE_ROUNDS
        invariant
            0 <= round <= CLOSE_ROUNDS,
            start == header@,
            "\n"@ == seq!['\n'],
            close_header(start, total as nat, pretty, CLOSE_ROUNDS as nat) == close_header(
                h@,
                total as nat,
                pretty,
                (CLOSE_ROUNDS - round) as nat,
            ),
        decreases CLOSE_ROUNDS - round,
    {
        let ghost before = h@;
        h.header_crc32_hex = String::from_str("00000000");
        assert(h@ == with_crc(before, "00000000"@));
        let blank_line = concat2(render_header(&h, pretty).as_str(), "\n");
        let crc = match compute_header_crc32_hex_from_original_json(blank_line.as_str()) {
            Ok(c) => c,
            Err(e) => {
                return Err(GbfError::Format(String::from_str("header CRC failed")));
            },
        };
        h.header_crc32_hex = crc;
        assert(h@ == sealed(before, pretty));
        let line = concat2(render_header(&h, pretty).as_str(), "\n");
        let len = line.as_str().as_bytes().len();
        if len > 0xffff_ffff {
            return Err(GbfError::Unsupported(String::from_str("header too large")));
        }
        let payload_start = 12 + len as u64;
        let file_size = match payload_start.checked_add(total) {
            Some(v) => v,
            None => {
                return Err(GbfError::Unsupported(String::from_str("file too large")));
            },
        };
        if h.payload_start == payload_start && h.file_size == file_size {
            proof {
                lemma_close_header(start, total as nat, pretty, CLOSE_ROUNDS as nat);
            }
            return Ok((h, line));
        }
        h.payload_start = payload_start;
        h.file_size = file_size;
        assert(h@ == with_sizes(sealed(before, pretty), payload_start, file_size));
        round = round + 1;
    }
    Err(GbfError::Format(String::from_str("header did not settle")))
}

/// All stored bytes in a row.
pub open spec fn payload_of(chunks: Seq<Seq<u8>>) -> Seq<u8>
    decreases chunks.len(),
{
    if chunks.len() == 0 {
        Seq::empty()
    } else {
        payload_of(chunks.drop_last()) + chunks.last()
    }
}

/// The bytes of a container: the magic, the byte length of the header
/// line as `u32`, the header line, and the payload.
pub open spec fn file_image(line: Seq<char>, chunks: Seq<Seq<u8>>) -> Seq<u8> {
    magic_seq() + u32_le(encode_utf8(line).len() as u32) + encode_utf8(line) + payload_of(chunks)
}

/// Puts a container together: the magic, the length of the header line,
/// the line and the stored bytes of the fields in order.
pub fn assemble_image(line: &str, chunks: &Vec<Vec<u8>>) -> (image: Vec<u8>)
    requires
        encode_utf8(line@).len() <= u32::MAX,
    ensures
        image@ == file_image(line@, chunks_view(chunks@)),
{
    let bytes = line.as_bytes();
    let mut image: Vec<u8> = Vec::new();
    let magic = MAGIC_BYTES;
    let mut k: usize = 0;
    while k < 8
        invariant
            0 <= k <= 8,
            magic == MAGIC_BYTES,
            image@ == magic_seq().take(k as int),
        decreases 8 - k,
    {
        image.push(magic[k]);
        assert(image@ =~= magic_seq().take(k + 1));
        k = k + 1;
    }
    assert(magic_seq().take(8) =~= magic_seq());
    write_u32_le(&mut image, bytes.len() as u32);
    image.extend_from_slice(bytes);
    let ghost head = image@;
    let ghost all = chunks_view(chunks@);
    let mut i: usize = 0;
    assert(payload_of(all.take(0)) =~= Seq::<u8>::empty());
    while i < chunks.len()
        invariant
            0 <= i <= chunks.len(),
            all == chunks_view(chunks@),
            image@ == head + payload_of(all.take(i as int)),
        decreases chunks.len() - i,
    {
        proof {
            assert(all.take(i + 1).drop_last() =~= all.take(i as int));
            assert(all.take(i + 1).last() == chunks@[i as int]@);
        }
        image.extend_from_slice(chunks[i].as_slice());
        assert(image@ =~= head + payload_of(all.take(i + 1)));
        i = i + 1;
    }
    proof {
        assert(all.take(i as int) =~= all);
    }
    image
}

/// The word for the kind of the top-level value: `struct` for a record,
/// `single` for one leaf.
pub open spec fn root_word(v: ValueView) -> Seq<char> {
    if v is Struct {
        "struct"@
    } else {
        "single"@
    }
}

/// The header of a container before it is closed.
pub open spec fn open_header(
    root: Seq<char>,
    created_utc: Seq<char>,
    producer_version: Seq<char>,
    fields: Seq<FieldMetaView>,
) -> HeaderView {
    HeaderView {
        format: "GBF"@,
        magic: "GREDBIN"@,
        version: VERSION,
        endianness: "little"@,
        order: "column-major"@,
        root,
        created_utc,
        producer_version,
        fields,
        payload_start: 0,
        file_size: 0,
        header_crc32_hex: "00000000"@,
    }
}

/// The bytes of the container of a value, or the error that
/// writing ends with: the leaves of the value are flattened, laid out as
/// [`planned`] says, described by a header that is closed as
/// [`close_header`] says, and put together as [`file_image`] says.
pub open spec fn write_spec(
    v: ValueView,
    opts: WriteOptions,
    created_utc: Seq<char>,
    producer_version: Seq<char>,
) -> Result<Seq<u8>, ErrorView> {
    match flatten_spec(v, Seq::empty()) {
        None => Err(ErrorView::Unsupported),
        Some(leaves) => match planned(leaves, opts) {
            Err(k) => Err(k),
            Ok((fields, chunks, total)) => match close_header(
                open_header(root_word(v), created_utc, producer_version, fields),
                total,
                opts.pretty_header,
                CLOSE_ROUNDS as nat,
            ) {
                Err(k) => Err(k),
                Ok((h, line)) => Ok(file_image(line, chunks)),
            },
        },
    }
}

/// The parts of a container: its closed header, the header line (the JSON
/// text and a newline), and the stored bytes of each field in the order of
/// the field table. The file is the magic, the length of the header line,
/// the line, and the stored bytes in a row.
pub struct Container {
    pub header: Header,
    pub header_line: String,
    pub chunks: Vec<Vec<u8>>,
}

/// Writes the container of a value and keeps its parts.
///
/// `created_utc` is the time of writing as `YYYY-MM-DDTHH:MM:SSZ` and
/// `producer_version` names the writing program; both go into the header
/// as they are.
///
/// On success the header is closed over the payload ([`closed`]): the
/// payload begins at `8 + 4 +` the length of the header line, the file ends
/// where the payload ends, and the fields are laid out as [`planned`] says,
/// without gaps.
pub fn write_container(
    value: &GbfValue,
    opts: &WriteOptions,
    created_utc: &str,
    producer_version: &str,
) -> (r: Result<Container, GbfError>)
    ensures
        match r {
            Ok(c) => {
                &&& write_spec(value@, *opts, created_utc@, producer_version@) == Ok::<
                    Seq<u8>,
                    ErrorView,
                >(file_image(c.header_line@, chunks_view(c.chunks@)))
                &&& flatten_spec(value@, Seq::empty()) matches Some(leaves) && planned(
                    leaves,
                    *opts,
                ) matches Ok(p) && p.0 == c.header@.fields && p.1 == chunks_view(c.chunks@)
                    && closed(c.header@, c.header_line@, p.2, opts.pretty_header)
                &&& c.header@.root == root_word(value@)
            },
            Err(e) => write_spec(value@, *opts, created_utc@, producer_version@) == Err::<
                Seq<u8>,
                ErrorView,
            >(e@),
        },
{
    let mut leaves: Vec<(String, GbfValue)> = Vec::new();
    proof {
        lemma_entries_view(leaves@);
        assert(entries_view(leaves@) =~= Seq::empty());
    }
    let empty = "";
    proof {
        reveal_strlit("");
        assert(empty@ =~= Seq::<char>::empty());
    }
    match flatten_to_leaves(value, empty, &mut leaves) {
        Ok(_) => {},
        Err(e) => {
            return Err(e);
        },
    }
    proof {
        let more = flatten_spec(value@, Seq::empty())->Some_0;
        assert(Seq::<(Seq<char>, ValueView)>::empty() + more =~= more);
    }
    let root = match value {
        GbfValue::Struct(m) => {
            proof {
                crate::value::lemma_struct_view(*m);
            }
            "struct"
        },
        _ => "single",
    };
    let (fields, chunks, total) = plan_fields(&leaves, opts)?;
    let header = Header {
        format: String::from_str("GBF"),
        magic: String::from_str("GREDBIN"),
        version: VERSION,
        endianness: String::from_str("little"),
        order: String::from_str("column-major"),
        root: String::from_str(root),
        created_utc: String::from_str(created_utc),
        producer_version: String::from_str(producer_version),
        fields,
        payload_start: 0,
        file_size: 0,
        header_crc32_hex: String::from_str("00000000"),
    };
    let ghost opened = header@;
    let (closed_header, line) = close(header, total, opts.pretty_header)?;
    proof {
        lemma_close_header(opened, total as nat, opts.pretty_header, CLOSE_ROUNDS as nat);
    }
    Ok(Container { header: closed_header, header_line: line, chunks })
}

/// Writes the container of a value: the bytes of the file.
///
/// The result is [`write_spec`] of the arguments, so equal arguments give
/// equal files, byte for byte.
pub fn write_file(value: &GbfValue, opts: &WriteOptions, created_utc: &str, producer_version: &str) -> (r:
    Result<Vec<u8>, GbfError>)
    ensures
        match r {
            Ok(image) => write_spec(value@, *opts, created_utc@, producer_version@) == Ok::<
                Seq<u8>,
                ErrorView,
            >(image@),
            Err(e) => write_spec(value@, *opts, created_utc@, producer_version@) == Err::<
                Seq<u8>,
                ErrorView,
            >(e@),
        },
{
    match write_container(value, opts, created_utc, producer_version) {
        Ok(c) => Ok(assemble_image(c.header_line.as_str(), &c.chunks)),
        Err(e) => Err(e),
    }
}

/// Determinism of writing: two files that were written from equal
/// arguments are equal, byte for byte, and so are the kinds of two errors.
pub proof fn lemma_equal_files(
    first: Result<Vec<u8>, GbfError>,
    second: Result<Vec<u8>, GbfError>,
    v: ValueView,
    opts: WriteOptions,
    created_utc: Seq<char>,
    producer_version: Seq<char>,
)
    requires
        match first {
            Ok(image) => write_spec(v, opts, created_utc, producer_version) == Ok::<
                Seq<u8>,
                ErrorView,
            >(image@),
            Err(e) => write_spec(v, opts, created_utc, producer_version) == Err::<
                Seq<u8>,
                ErrorView,
            >(e@),
        },
        match second {
            Ok(image) => write_spec(v, opts, created_utc, producer_version) == Ok::<
                Seq<u8>,
                ErrorView,
            >(image@),
            Err(e) => write_spec(v, opts, created_utc, producer_version) == Err::<
                Seq<u8>,
                ErrorView,
            >(e@),
        },
    ensures
        first is Ok <==> second is Ok,
        first matches Ok(a) ==> second matches Ok(b) && a@ == b@,
        first matches Err(a) ==> second matches Err(b) && a@ == b@,
{
}

} // verus!
