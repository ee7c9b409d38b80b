//! The header of a container: the description of the file and of each field.
use vstd::prelude::*;

verus! {

/// The eight bytes that every container begins with: `GREDBIN` and a zero.
pub const MAGIC_BYTES: [u8; 8] = [71, 82, 69, 68, 66, 73, 78, 0];

/// The version of the format.
pub const VERSION: u32 = 1;

/// The description of one field: what it is and where its bytes are.
#[derive(Debug, PartialEq, Eq)]
pub struct FieldMeta {
    /// The dotted path of the field.
    pub name: String,
    pub kind: String,
    pub class_name: String,
    pub shape: Vec<u64>,
    pub complex: bool,
    pub encoding: String,
    /// `"zlib"` or `"none"`.
    pub compression: String,
    /// Where the stored bytes begin, counted from the start of the payload.
    pub offset: u64,
    /// The number of stored bytes.
    pub csize: u64,
    /// The number of bytes before compression.
    pub usize: u64,
    /// The CRC-32 of the bytes before compression; zero where none was
    /// computed.
    pub crc32: u32,
}

/// The mathematical content of a [`FieldMeta`].
pub struct FieldMetaView {
    pub name: Seq<char>,
    pub kind: Seq<char>,
    pub class_name: Seq<char>,
    pub shape: Seq<u64>,
    pub complex: bool,
    pub encoding: Seq<char>,
    pub compression: Seq<char>,
    pub offset: u64,
    pub csize: u64,
    pub usize: u64,
    pub crc32: u32,
}

impl View for FieldMeta {
    type V = FieldMetaView;

    open spec fn view(&self) -> FieldMetaView {
        FieldMetaView {
            name: self.name@,
            kind: self.kind@,
            class_name: self.class_name@,
            shape: self.shape@,
            complex: self.complex,
            encoding: self.encoding@,
            compression: self.compression@,
            offset: self.offset,
            csize: self.csize,
            usize: self.usize,
            crc32: self.crc32,
        }
    }
}

impl Clone for FieldMeta {
    fn clone(&self) -> (r: Self)
        ensures
            r@ == self@,
    {
        FieldMeta {
            name: self.name.clone(),
            kind: self.kind.clone(),
            class_name: self.class_name.clone(),
            shape: self.shape.clone(),
            complex: self.complex,
            encoding: self.encoding.clone(),
            compression: self.compression.clone(),
            offset: self.offset,
            csize: self.csize,
            usize: self.usize,
            crc32: self.crc32,
        }
    }
}

/// The views of a list of field descriptions, in order.
pub open spec fn fields_view(fields: Seq<FieldMeta>) -> Seq<FieldMetaView> {
    Seq::new(fields.len(), |i: int| fields[i]@)
}

/// The header of a container.
#[derive(Debug, PartialEq, Eq)]
pub struct Header {
    pub format: String,
    pub magic: String,
    pub version: u32,
    pub endianness: String,
    pub order: String,
    /// `"struct"` where the top-level value is a record, `"single"` where it
    /// is one leaf stored under the name `data`.
    pub root: String,
    pub created_utc: String,
    pub producer_version: String,
    pub fields: Vec<FieldMeta>,
    /// Where the payload begins in the file.
    pub payload_start: u64,
    pub file_size: u64,
    /// The CRC-32 of the header text, as eight hexadecimal digits.
    pub header_crc32_hex: String,
}

/// The mathematical content of a [`Header`].
pub struct HeaderView {
    pub format: Seq<char>,
    pub magic: Seq<char>,
    pub version: u32,
    pub endianness: Seq<char>,
    pub order: Seq<char>,
    pub root: Seq<char>,
    pub created_utc: Seq<char>,
    pub producer_version: Seq<char>,
    pub fields: Seq<FieldMetaView>,
    pub payload_start: u64,
    pub file_size: u64,
    pub header_crc32_hex: Seq<char>,
}

impl View for Header {
    type V = HeaderView;

    open spec fn view(&self) -> HeaderView {
        HeaderView {
            format: self.format@,
            magic: self.magic@,
            version: self.version,
            endianness: self.endianness@,
            order: self.order@,
            root: self.root@,
            created_utc: self.created_utc@,
            producer_version: self.producer_version@,
            fields: fields_view(self.fields@),
            payload_start: self.payload_start,
            file_size: self.file_size,
            header_crc32_hex: self.header_crc32_hex@,
        }
    }
}

/// A copy of a list of field descriptions.
pub fn clone_fields(fields: &Vec<FieldMeta>) -> (r: Vec<FieldMeta>)
    ensures
        fields_view(r@) == fields_view(fields@),
{
    let mut out: Vec<FieldMeta> = Vec::new();
    let mut i: usize = 0;
    while i < fields.len()
        invariant
            0 <= i <= fields.len(),
            out@.len() == i,
            forall|j: int| 0 <= j < i ==> out@[j]@ == fields@[j]@,
        decreases fields.len() - i,
    {
        out.push(fields[i].clone());
        i = i + 1;
    }
    assert(fields_view(out@) =~= fields_view(fields@));
    out
}

impl Clone for Header {
    fn clone(&self) -> (r: Self)
        ensures
            r@ == self@,
    {
        Header {
            format: self.format.clone(),
            magic: self.magic.clone(),
            version: self.version,
            endianness: self.endianness.clone(),
            order: self.order.clone(),
            root: self.root.clone(),
            created_utc: self.created_utc.clone(),
            producer_version: self.producer_version.clone(),
            fields: clone_fields(&self.fields),
            payload_start: self.payload_start,
            file_size: self.file_size,
            header_crc32_hex: self.header_crc32_hex.clone(),
        }
    }
}

} // verus!
