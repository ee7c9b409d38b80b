//! The value model: typed arrays and records of them, each with its
//! mathematical view.
use crate::le::{u32s_le, u64s_le, write_u32s_le, write_u64s_le};
use crate::text::{eq_ignoring_case, same_ignoring_case, utf16_of, utf16_units};
use vstd::prelude::*;

verus! {

/// The element type of a numeric array.
#[derive(Debug, Clone, Copy, PartialEq, Eq, Hash, Structural)]
pub enum NumericClass {
    Double,
    Single,
    Int8,
    Uint8,
    Int16,
    Uint16,
    Int32,
    Uint32,
    Int64,
    Uint64,
}

/// The class that a name stands for, whatever the case of its letters.
pub open spec fn class_of_name(s: Seq<char>) -> Option<NumericClass> {
    if same_ignoring_case(s, "double"@) {
        Some(NumericClass::Double)
    } else if same_ignoring_case(s, "single"@) {
        Some(NumericClass::Single)
    } else if same_ignoring_case(s, "int8"@) {
        Some(NumericClass::Int8)
    } else if same_ignoring_case(s, "uint8"@) {
        Some(NumericClass::Uint8)
    } else if same_ignoring_case(s, "int16"@) {
        Some(NumericClass::Int16)
    } else if same_ignoring_case(s, "uint16"@) {
        Some(NumericClass::Uint16)
    } else if same_ignoring_case(s, "int32"@) {
        Some(NumericClass::Int32)
    } else if same_ignoring_case(s, "uint32"@) {
        Some(NumericClass::Uint32)
    } else if same_ignoring_case(s, "int64"@) {
        Some(NumericClass::Int64)
    } else if same_ignoring_case(s, "uint64"@) {
        Some(NumericClass::Uint64)
    } else {
        None
    }
}

impl NumericClass {
    /// The name of the class as the header spells it.
    pub open spec fn name(self) -> Seq<char> {
        match self {
            NumericClass::Double => "double"@,
            NumericClass::Single => "single"@,
            NumericClass::Int8 => "int8"@,
            NumericClass::Uint8 => "uint8"@,
            NumericClass::Int16 => "int16"@,
            NumericClass::Uint16 => "uint16"@,
            NumericClass::Int32 => "int32"@,
            NumericClass::Uint32 => "uint32"@,
            NumericClass::Int64 => "int64"@,
            NumericClass::Uint64 => "uint64"@,
        }
    }

    /// The width of one element in bytes.
    pub open spec fn width(self) -> nat {
        match self {
            NumericClass::Double => 8,
            NumericClass::Single => 4,
            NumericClass::Int8 => 1,
            NumericClass::Uint8 => 1,
            NumericClass::Int16 => 2,
            NumericClass::Uint16 => 2,
            NumericClass::Int32 => 4,
            NumericClass::Uint32 => 4,
            NumericClass::Int64 => 8,
            NumericClass::Uint64 => 8,
        }
    }

    /// The class that `s` names; the case of ASCII letters does not matter.
    pub fn from_matlab_class(s: &str) -> (r: Option<Self>)
        ensures
            r == class_of_name(s@),
    {
        if eq_ignoring_case(s, "double") {
            Some(NumericClass::Double)
        } else if eq_ignoring_case(s, "single") {
            Some(NumericClass::Single)
        } else if eq_ignoring_case(s, "int8") {
            Some(NumericClass::Int8)
        } else if eq_ignoring_case(s, "uint8") {
            Some(NumericClass::Uint8)
        } else if eq_ignoring_case(s, "int16") {
            Some(NumericClass::Int16)
        } else if eq_ignoring_case(s, "uint16") {
            Some(NumericClass::Uint16)
        } else if eq_ignoring_case(s, "int32") {
            Some(NumericClass::Int32)
        } else if eq_ignoring_case(s, "uint32") {
            Some(NumericClass::Uint32)
        } else if eq_ignoring_case(s, "int64") {
            Some(NumericClass::Int64)
        } else if eq_ignoring_case(s, "uint64") {
            Some(NumericClass::Uint64)
        } else {
            None
        }
    }

    /// The name of the class as the header spells it.
    pub fn as_matlab_class(&self) -> (r: &'static str)
        ensures
            r@ == self.name(),
    {
        match self {
            NumericClass::Double => "double",
            NumericClass::Single => "single",
            NumericClass::Int8 => "int8",
            NumericClass::Uint8 => "uint8",
            NumericClass::Int16 => "int16",
            NumericClass::Uint16 => "uint16",
            NumericClass::Int32 => "int32",
            NumericClass::Uint32 => "uint32",
            NumericClass::Int64 => "int64",
            NumericClass::Uint64 => "uint64",
        }
    }

    /// The width of one element in bytes.
    pub fn bytes_per_element(&self) -> (r: usize)
        ensures
            r == self.width(),
    {
        match self {
            NumericClass::Double => 8,
            NumericClass::Single => 4,
            NumericClass::Int8 => 1,
            NumericClass::Uint8 => 1,
            NumericClass::Int16 => 2,
            NumericClass::Uint16 => 2,
            NumericClass::Int32 => 4,
            NumericClass::Uint32 => 4,
            NumericClass::Int64 => 8,
            NumericClass::Uint64 => 8,
        }
    }
}

/// The product of the dimensions; one for no dimensions.
pub open spec fn shape_product(shape: Seq<usize>) -> nat
    decreases shape.len(),
{
    if shape.len() == 0 {
        1
    } else {
        shape_product(shape.drop_last()) * (shape.last() as nat)
    }
}

/// The number of elements that a leaf of this shape holds: the product of
/// the dimensions, and none where there are no dimensions.
pub open spec fn element_total(shape: Seq<usize>) -> nat {
    if shape.len() == 0 {
        0
    } else {
        shape_product(shape)
    }
}

/// A shape with a zero dimension has an empty product.
pub proof fn lemma_product_zero(shape: Seq<usize>, k: int)
    requires
        0 <= k < shape.len(),
        shape[k] == 0,
    ensures
        shape_product(shape) == 0,
    decreases shape.len(),
{
    if k < shape.len() - 1 {
        lemma_product_zero(shape.drop_last(), k);
        assert(shape_product(shape.drop_last()) * (shape.last() as nat) == 0) by (nonlinear_arith)
            requires
                shape_product(shape.drop_last()) == 0,
        ;
    } else {
        assert(shape_product(shape.drop_last()) * (shape.last() as nat) == 0) by (nonlinear_arith)
            requires
                shape.last() == 0,
        ;
    }
}

/// Without a zero dimension the product of a prefix is at most the product
/// of the whole shape, and at least one.
pub proof fn lemma_product_prefix(shape: Seq<usize>, i: int)
    requires
        0 <= i <= shape.len(),
        forall|j: int| 0 <= j < shape.len() ==> shape[j] >= 1,
    ensures
        1 <= shape_product(shape.take(i)) <= shape_product(shape),
    decreases shape.len() - i,
{
    if i == shape.len() {
        assert(shape.take(i) =~= shape);
        lemma_product_positive(shape);
    } else {
        lemma_product_prefix(shape, i + 1);
        assert(shape.take(i + 1).drop_last() =~= shape.take(i));
        let p = shape_product(shape.take(i));
        let d = shape[i] as nat;
        assert(shape_product(shape.take(i + 1)) == p * d);
        lemma_product_positive(shape.take(i));
        assert(p <= p * d) by (nonlinear_arith)
            requires
                d >= 1,
        ;
    }
}

/// Without a zero dimension the product is at least one.
pub proof fn lemma_product_positive(shape: Seq<usize>)
    requires
        forall|j: int| 0 <= j < shape.len() ==> shape[j] >= 1,
    ensures
        shape_product(shape) >= 1,
    decreases shape.len(),
{
    if shape.len() > 0 {
        lemma_product_positive(shape.drop_last());
        let p = shape_product(shape.drop_last());
        let d = shape.last() as nat;
        assert(p * d >= 1) by (nonlinear_arith)
            requires
                p >= 1,
                d >= 1,
        ;
    }
}

/// The product of the dimensions, saturating at `usize::MAX`; one for no
/// dimensions.
pub fn element_count(shape: &[usize]) -> (n: usize)
    ensures
        n as nat == if shape_product(shape@) <= usize::MAX {
            shape_product(shape@)
        } else {
            usize::MAX as nat
        },
{
    let mut acc: usize = 1;
    let mut i: usize = 0;
    while i < shape.len()
        invariant
            0 <= i <= shape.len(),
            acc as nat == if shape_product(shape@.take(i as int)) <= usize::MAX {
                shape_product(shape@.take(i as int))
            } else {
                usize::MAX as nat
            },
        decreases shape.len() - i,
    {
        let d = shape[i];
        let ghost p = shape_product(shape@.take(i as int));
        proof {
            assert(shape@.take(i + 1).drop_last() =~= shape@.take(i as int));
            assert(shape_product(shape@.take(i + 1)) == p * (d as nat));
            if p > usize::MAX {
                if d >= 1 {
                    assert(p * (d as nat) >= p) by (nonlinear_arith)
                        requires
                            d >= 1,
                    ;
                    assert((usize::MAX as nat) * (d as nat) >= usize::MAX as nat)
                        by (nonlinear_arith)
                        requires
                            d >= 1,
                    ;
                } else {
                    assert(p * (d as nat) == 0) by (nonlinear_arith)
                        requires
                            d == 0,
                    ;
                }
            }
        }
        acc = match acc.checked_mul(d) {
            Some(v) => v,
            None => usize::MAX,
        };
        i = i + 1;
    }
    proof {
        assert(shape@.take(shape.len() as int) =~= shape@);
    }
    acc
}

/// The number of elements of a leaf of this shape, or `None` where it does
/// not fit in `usize`.
pub fn element_count_checked(shape: &[usize]) -> (r: Option<usize>)
    ensures
        r is Some <==> element_total(shape@) <= usize::MAX,
        r matches Some(n) ==> n as nat == element_total(shape@),
{
    if shape.len() == 0 {
        return Some(0);
    }
    let mut k: usize = 0;
    while k < shape.len()
        invariant
            0 <= k <= shape.len(),
            forall|j: int| 0 <= j < k ==> shape@[j] >= 1,
        decreases shape.len() - k,
    {
        if shape[k] == 0 {
            proof {
                lemma_product_zero(shape@, k as int);
            }
            return Some(0);
        }
        k = k + 1;
    }
    let mut n: usize = 1;
    let mut i: usize = 0;
    while i < shape.len()
        invariant
            0 <= i <= shape.len(),
            shape.len() > 0,
            forall|j: int| 0 <= j < shape.len() ==> shape@[j] >= 1,
            n as nat == shape_product(shape@.take(i as int)),
        decreases shape.len() - i,
    {
        proof {
            assert(shape@.take(i + 1).drop_last() =~= shape@.take(i as int));
            lemma_product_prefix(shape@, i + 1);
        }
        match n.checked_mul(shape[i]) {
            Some(v) => {
                n = v;
            },
            None => {
                return None;
            },
        }
        i = i + 1;
    }
    proof {
        assert(shape@.take(shape.len() as int) =~= shape@);
    }
    Some(n)
}

/// An array of numbers, stored as the little-endian bytes of its elements
/// in column-major order.
#[derive(Debug, PartialEq, Eq)]
pub struct NumericArray {
    pub class: NumericClass,
    pub shape: Vec<usize>,
    pub complex: bool,
    pub real_le: Vec<u8>,
    pub imag_le: Option<Vec<u8>>,
}

/// The mathematical content of a [`NumericArray`].
pub struct NumericView {
    pub class: NumericClass,
    pub shape: Seq<usize>,
    pub complex: bool,
    pub real_le: Seq<u8>,
    pub imag_le: Option<Seq<u8>>,
}

impl View for NumericArray {
    type V = NumericView;

    open spec fn view(&self) -> NumericView {
        NumericView {
            class: self.class,
            shape: self.shape@,
            complex: self.complex,
            real_le: self.real_le@,
            imag_le: match self.imag_le {
                Some(v) => Some(v@),
                None => None,
            },
        }
    }
}

impl NumericView {
    /// The byte length of one part (real or imaginary).
    pub open spec fn part_len(self) -> nat {
        element_total(self.shape) * self.class.width()
    }

    /// The parts have the length that shape and class ask for, and the
    /// imaginary part is there exactly for a complex array.
    pub open spec fn wf(self) -> bool {
        &&& self.real_le.len() == self.part_len()
        &&& self.complex ==> (self.imag_le matches Some(im) && im.len() == self.part_len())
        &&& !self.complex ==> self.imag_le is None
    }
}

impl Clone for NumericArray {
    fn clone(&self) -> (r: Self)
        ensures
            r@ == self@,
    {
        NumericArray {
            class: self.class,
            shape: self.shape.clone(),
            complex: self.complex,
            real_le: self.real_le.clone(),
            imag_le: match &self.imag_le {
                Some(v) => Some(v.clone()),
                None => None,
            },
        }
    }
}

impl NumericArray {
    /// The product of the dimensions times the element width, saturating.
    pub fn bytes_per_part(&self) -> (n: usize)
        ensures
            n as nat == {
                let c = if shape_product(self.shape@) <= usize::MAX {
                    shape_product(self.shape@)
                } else {
                    usize::MAX as nat
                };
                if c * self.class.width() <= usize::MAX {
                    c * self.class.width()
                } else {
                    usize::MAX as nat
                }
            },
    {
        let c = element_count(self.shape.as_slice());
        match c.checked_mul(self.class.bytes_per_element()) {
            Some(v) => v,
            None => usize::MAX,
        }
    }

    /// A real array of the given class and shape over `real_le`.
    pub fn new_real(class: NumericClass, shape: Vec<usize>, real_le: Vec<u8>) -> (r: Self)
        ensures
            r@ == (NumericView {
                class,
                shape: shape@,
                complex: false,
                real_le: real_le@,
                imag_le: None,
            }),
    {
        NumericArray { class, shape, complex: false, real_le, imag_le: None }
    }

    /// A real array of doubles from the bit patterns of its elements, in
    /// column-major order: eight bytes for each, lowest byte first.
    pub fn from_f64_bits_column_major(shape: Vec<usize>, bits: &[u64]) -> (r: Self)
        ensures
            r@ == (NumericView {
                class: NumericClass::Double,
                shape: shape@,
                complex: false,
                real_le: u64s_le(bits@),
                imag_le: None,
            }),
    {
        let mut bytes: Vec<u8> = Vec::new();
        write_u64s_le(&mut bytes, bits);
        assert(bytes@ =~= u64s_le(bits@));
        NumericArray::new_real(NumericClass::Double, shape, bytes)
    }

    /// A real array of singles from the bit patterns of its elements, in
    /// column-major order: four bytes for each, lowest byte first.
    pub fn from_f32_bits_column_major(shape: Vec<usize>, bits: &[u32]) -> (r: Self)
        ensures
            r@ == (NumericView {
                class: NumericClass::Single,
                shape: shape@,
                complex: false,
                real_le: u32s_le(bits@),
                imag_le: None,
            }),
    {
        let mut bytes: Vec<u8> = Vec::new();
        write_u32s_le(&mut bytes, bits);
        assert(bytes@ =~= u32s_le(bits@));
        NumericArray::new_real(NumericClass::Single, shape, bytes)
    }

    /// A complex array of the given class and shape over its two parts.
    pub fn new_complex(
        class: NumericClass,
        shape: Vec<usize>,
        real_le: Vec<u8>,
        imag_le: Vec<u8>,
    ) -> (r: Self)
        ensures
            r@ == (NumericView {
                class,
                shape: shape@,
                complex: true,
                real_le: real_le@,
                imag_le: Some(imag_le@),
            }),
    {
        NumericArray { class, shape, complex: true, real_le, imag_le: Some(imag_le) }
    }
}

/// An array of truth values, one byte (0 or 1) per element.
#[derive(Debug, PartialEq, Eq)]
pub struct LogicalArray {
    pub shape: Vec<usize>,
    pub data: Vec<u8>,
}

/// The mathematical content of a [`LogicalArray`].
pub struct LogicalView {
    pub shape: Seq<usize>,
    pub data: Seq<u8>,
}

impl View for LogicalArray {
    type V = LogicalView;

    open spec fn view(&self) -> LogicalView {
        LogicalView { shape: self.shape@, data: self.data@ }
    }
}

impl LogicalView {
    /// There is one element of data for each element of the shape.
    pub open spec fn wf(self) -> bool {
        self.data.len() == element_total(self.shape)
    }
}

impl Clone for LogicalArray {
    fn clone(&self) -> (r: Self)
        ensures
            r@ == self@,
    {
        LogicalArray { shape: self.shape.clone(), data: self.data.clone() }
    }
}

/// An array of UTF-16 code units in column-major order.
#[derive(Debug, PartialEq, Eq)]
pub struct CharArray {
    pub shape: Vec<usize>,
    pub data: Vec<u16>,
}

/// The mathematical content of a [`CharArray`].
pub struct CharView {
    pub shape: Seq<usize>,
    pub data: Seq<u16>,
}

impl View for CharArray {
    type V = CharView;

    open spec fn view(&self) -> CharView {
        CharView { shape: self.shape@, data: self.data@ }
    }
}

impl CharView {
    /// There is one element of data for each element of the shape.
    pub open spec fn wf(self) -> bool {
        self.data.len() == element_total(self.shape)
    }
}

impl Clone for CharArray {
    fn clone(&self) -> (r: Self)
        ensures
            r@ == self@,
    {
        CharArray { shape: self.shape.clone(), data: self.data.clone() }
    }
}

impl CharArray {
    /// The text as one row of UTF-16 code units.
    pub fn from_str_row(s: &str) -> (r: Self)
        ensures
            r@.data == utf16_units(s@),
            r@.shape == seq![1usize, utf16_units(s@).len() as usize],
            r@.wf(),
    {
        let data = utf16_of(s);
        let mut shape: Vec<usize> = Vec::new();
        shape.push(1);
        shape.push(data.len());
        proof {
            let sh = shape@;
            assert(sh =~= seq![1usize, data@.len() as usize]);
            let one = sh.drop_last();
            assert(one.len() == 1 && one[0] == 1);
            assert(one.drop_last().len() == 0);
            assert(shape_product(one.drop_last()) == 1);
            assert(shape_product(one) == shape_product(one.drop_last()) * (one.last() as nat));
            assert(shape_product(one) == 1);
            assert(shape_product(sh) == shape_product(one) * (sh.last() as nat));
            assert(shape_product(sh) == data@.len());
        }
        CharArray { shape, data }
    }
}

/// An array of texts, each of which may be missing.
#[derive(Debug, PartialEq, Eq)]
pub struct StringArray {
    pub shape: Vec<usize>,
    pub data: Vec<Option<String>>,
}

/// The mathematical content of a [`StringArray`].
pub struct StringView {
    pub shape: Seq<usize>,
    pub data: Seq<Option<Seq<char>>>,
}

impl View for StringArray {
    type V = StringView;

    open spec fn view(&self) -> StringView {
        StringView { shape: self.shape@, data: self.data.deep_view() }
    }
}

impl StringView {
    /// There is one element of data for each element of the shape.
    pub open spec fn wf(self) -> bool {
        self.data.len() == element_total(self.shape)
    }
}

impl Clone for StringArray {
    fn clone(&self) -> (r: Self)
        ensures
            r@ == self@,
    {
        let mut data: Vec<Option<String>> = Vec::new();
        let mut i: usize = 0;
        while i < self.data.len()
            invariant
                0 <= i <= self.data.len(),
                data.len() == i,
                forall|j: int| 0 <= j < i ==> data@[j].deep_view() == self.data@[j].deep_view(),
            decreases self.data.len() - i,
        {
            let item = match &self.data[i] {
                Some(s) => Some(s.clone()),
                None => None,
            };
            data.push(item);
            i = i + 1;
        }
        assert(data.deep_view() =~= self.data.deep_view());
        StringArray { shape: self.shape.clone(), data }
    }
}

/// An array of points in time, held by their calendar components.
#[derive(Debug, PartialEq, Eq)]
pub struct DateTimeArray {
    pub shape: Vec<usize>,
    pub tz: Option<String>,
    pub locale: Option<String>,
    pub format: Option<String>,
    /// One byte per element, nonzero where the element is not a time.
    pub is_nat: Vec<u8>,
    pub year: Vec<i16>,
    pub month: Vec<u8>,
    pub day: Vec<u8>,
    /// Milliseconds since midnight.
    pub ms_day: Vec<i32>,
}

/// The mathematical content of a [`DateTimeArray`].
pub struct DateTimeView {
    pub shape: Seq<usize>,
    pub tz: Option<Seq<char>>,
    pub locale: Option<Seq<char>>,
    pub format: Option<Seq<char>>,
    pub is_nat: Seq<u8>,
    pub year: Seq<i16>,
    pub month: Seq<u8>,
    pub day: Seq<u8>,
    pub ms_day: Seq<i32>,
}

/// The view of a text that may be absent.
pub open spec fn text_view(t: Option<String>) -> Option<Seq<char>> {
    match t {
        Some(s) => Some(s@),
        None => None,
    }
}

impl View for DateTimeArray {
    type V = DateTimeView;

    open spec fn view(&self) -> DateTimeView {
        DateTimeView {
            shape: self.shape@,
            tz: text_view(self.tz),
            locale: text_view(self.locale),
            format: text_view(self.format),
            is_nat: self.is_nat@,
            year: self.year@,
            month: self.month@,
            day: self.day@,
            ms_day: self.ms_day@,
        }
    }
}

impl DateTimeView {
    /// Every component has one element for each element of the shape.
    pub open spec fn wf(self) -> bool {
        let n = element_total(self.shape);
        &&& self.is_nat.len() == n
        &&& self.year.len() == n
        &&& self.month.len() == n
        &&& self.day.len() == n
        &&& self.ms_day.len() == n
    }
}

/// A copy of a text that may be absent.
pub fn clone_text(t: &Option<String>) -> (r: Option<String>)
    ensures
        text_view(r) == text_view(*t),
{
    match t {
        Some(s) => Some(s.clone()),
        None => None,
    }
}

impl Clone for DateTimeArray {
    fn clone(&self) -> (r: Self)
        ensures
            r@ == self@,
    {
        DateTimeArray {
            shape: self.shape.clone(),
            tz: clone_text(&self.tz),
            locale: clone_text(&self.locale),
            format: clone_text(&self.format),
            is_nat: self.is_nat.clone(),
            year: self.year.clone(),
            month: self.month.clone(),
            day: self.day.clone(),
            ms_day: self.ms_day.clone(),
        }
    }
}

/// An array of time spans in milliseconds.
#[derive(Debug, PartialEq, Eq)]
pub struct DurationArray {
    pub shape: Vec<usize>,
    /// One byte per element, nonzero where the element is not a number.
    pub is_nan: Vec<u8>,
    pub ms: Vec<i64>,
}

/// The mathematical content of a [`DurationArray`].
pub struct DurationView {
    pub shape: Seq<usize>,
    pub is_nan: Seq<u8>,
    pub ms: Seq<i64>,
}

impl View for DurationArray {
    type V = DurationView;

    open spec fn view(&self) -> DurationView {
        DurationView { shape: self.shape@, is_nan: self.is_nan@, ms: self.ms@ }
    }
}

impl DurationView {
    /// Every component has one element for each element of the shape.
    pub open spec fn wf(self) -> bool {
        let n = element_total(self.shape);
        &&& self.is_nan.len() == n
        &&& self.ms.len() == n
    }
}

impl Clone for DurationArray {
    fn clone(&self) -> (r: Self)
        ensures
            r@ == self@,
    {
        DurationArray {
            shape: self.shape.clone(),
            is_nan: self.is_nan.clone(),
            ms: self.ms.clone(),
        }
    }
}

/// An array of calendar time spans: months, days and a time of day.
#[derive(Debug, PartialEq, Eq)]
pub struct CalendarDurationArray {
    pub shape: Vec<usize>,
    /// One byte per element, nonzero where the element is missing.
    pub is_missing: Vec<u8>,
    pub months: Vec<i32>,
    pub days: Vec<i32>,
    pub time_ms: Vec<i64>,
}

/// The mathematical content of a [`CalendarDurationArray`].
pub struct CalendarDurationView {
    pub shape: Seq<usize>,
    pub is_missing: Seq<u8>,
    pub months: Seq<i32>,
    pub days: Seq<i32>,
    pub time_ms: Seq<i64>,
}

impl View for CalendarDurationArray {
    type V = CalendarDurationView;

    open spec fn view(&self) -> CalendarDurationView {
        CalendarDurationView {
            shape: self.shape@,
            is_missing: self.is_missing@,
            months: self.months@,
            days: self.days@,
            time_ms: self.time_ms@,
        }
    }
}

impl CalendarDurationView {
    /// Every component has one element for each element of the shape.
    pub open spec fn wf(self) -> bool {
        let n = element_total(self.shape);
        &&& self.is_missing.len() == n
        &&& self.months.len() == n
        &&& self.days.len() == n
        &&& self.time_ms.len() == n
    }
}

impl Clone for CalendarDurationArray {
    fn clone(&self) -> (r: Self)
        ensures
            r@ == self@,
    {
        CalendarDurationArray {
            shape: self.shape.clone(),
            is_missing: self.is_missing.clone(),
            months: self.months.clone(),
            days: self.days.clone(),
            time_ms: self.time_ms.clone(),
        }
    }
}

/// An array of codes into a list of category names; code 0 is undefined,
/// code `k` names category `k - 1`.
#[derive(Debug, PartialEq, Eq)]
pub struct CategoricalArray {
    pub shape: Vec<usize>,
    pub categories: Vec<String>,
    pub codes: Vec<u32>,
}

/// The mathematical content of a [`CategoricalArray`].
pub struct CategoricalView {
    pub shape: Seq<usize>,
    pub categories: Seq<Seq<char>>,
    pub codes: Seq<u32>,
}

impl View for CategoricalArray {
    type V = CategoricalView;

    open spec fn view(&self) -> CategoricalView {
        CategoricalView {
            shape: self.shape@,
            categories: self.categories.deep_view(),
            codes: self.codes@,
        }
    }
}

impl CategoricalView {
    /// Every code is 0 or names a category.
    pub open spec fn codes_in_range(self) -> bool {
        forall|i: int| 0 <= i < self.codes.len() ==> self.codes[i] <= self.categories.len()
    }

    /// There is one code for each element of the shape, and every code is 0
    /// or names a category.
    pub open spec fn wf(self) -> bool {
        &&& self.codes.len() == element_total(self.shape)
        &&& self.codes_in_range()
    }
}

impl Clone for CategoricalArray {
    fn clone(&self) -> (r: Self)
        ensures
            r@ == self@,
    {
        let mut categories: Vec<String> = Vec::new();
        let mut i: usize = 0;
        while i < self.categories.len()
            invariant
                0 <= i <= self.categories.len(),
                categories.len() == i,
                forall|j: int| 0 <= j < i ==> categories@[j]@ == self.categories@[j]@,
            decreases self.categories.len() - i,
        {
            categories.push(self.categories[i].clone());
            i = i + 1;
        }
        assert(categories.deep_view() =~= self.categories.deep_view());
        CategoricalArray { shape: self.shape.clone(), categories, codes: self.codes.clone() }
    }
}

/// A record: named values, held in the strict order of their names.
#[derive(Debug, PartialEq, Eq)]
pub struct StructMap {
    pub entries: Vec<(String, GbfValue)>,
}

/// A value: a record of values, or one typed array.
#[derive(Debug, PartialEq, Eq)]
pub enum GbfValue {
    Struct(StructMap),
    Numeric(NumericArray),
    Logical(LogicalArray),
    Char(CharArray),
    String(StringArray),
    DateTime(DateTimeArray),
    Duration(DurationArray),
    CalendarDuration(CalendarDurationArray),
    Categorical(CategoricalArray),
    /// A record without fields, stored as a leaf.
    EmptyStruct,
}

/// The mathematical content of a [`GbfValue`]: a record is the list of its
/// named fields, in order.
pub enum ValueView {
    Struct(Seq<(Seq<char>, ValueView)>),
    Numeric(NumericView),
    Logical(LogicalView),
    Char(CharView),
    String(StringView),
    DateTime(DateTimeView),
    Duration(DurationView),
    CalendarDuration(CalendarDurationView),
    Categorical(CategoricalView),
    EmptyStruct,
}

impl View for GbfValue {
    type V = ValueView;

    open spec fn view(&self) -> ValueView
        decreases self,
    {
        match self {
            GbfValue::Struct(m) => ValueView::Struct(entries_view(m.entries@)),
            GbfValue::Numeric(a) => ValueView::Numeric(a@),
            GbfValue::Logical(a) => ValueView::Logical(a@),
            GbfValue::Char(a) => ValueView::Char(a@),
            GbfValue::String(a) => ValueView::String(a@),
            GbfValue::DateTime(a) => ValueView::DateTime(a@),
            GbfValue::Duration(a) => ValueView::Duration(a@),
            GbfValue::CalendarDuration(a) => ValueView::CalendarDuration(a@),
            GbfValue::Categorical(a) => ValueView::Categorical(a@),
            GbfValue::EmptyStruct => ValueView::EmptyStruct,
        }
    }
}

/// The views of a list of named values, in order.
pub open spec fn entries_view(entries: Seq<(String, GbfValue)>) -> Seq<(Seq<char>, ValueView)>
    decreases entries,
{
    if entries.len() == 0 {
        Seq::empty()
    } else {
        entries_view(entries.drop_last()).push((entries.last().0@, entries.last().1.view()))
    }
}

impl View for StructMap {
    type V = Seq<(Seq<char>, ValueView)>;

    open spec fn view(&self) -> Seq<(Seq<char>, ValueView)> {
        entries_view(self.entries@)
    }
}

/// The view of a list of named values holds the view of each, in place.
pub proof fn lemma_entries_view(entries: Seq<(String, GbfValue)>)
    ensures
        entries_view(entries).len() == entries.len(),
        forall|i: int|
            0 <= i < entries.len() ==> (#[trigger] entries_view(entries)[i]) == (
                entries[i].0@,
                entries[i].1@,
            ),
    decreases entries.len(),
{
    if entries.len() > 0 {
        lemma_entries_view(entries.drop_last());
        assert(entries_view(entries) == entries_view(entries.drop_last()).push(
            (entries.last().0@, entries.last().1.view()),
        ));
    } else {
        assert(entries_view(entries) == Seq::<(Seq<char>, ValueView)>::empty());
    }
}

/// The view of a record value is the view of its map.
pub proof fn lemma_struct_view(m: StructMap)
    ensures
        GbfValue::Struct(m)@ == ValueView::Struct(m@),
{
}

impl Clone for StructMap {
    fn clone(&self) -> (r: Self)
        ensures
            r@ == self@,
        decreases self,
    {
        let mut out: Vec<(String, GbfValue)> = Vec::new();
        let mut i: usize = 0;
        while i < self.entries.len()
            invariant
                0 <= i <= self.entries.len(),
                out@.len() == i,
                forall|j: int|
                    0 <= j < i ==> out@[j].0@ == self.entries@[j].0@ && out@[j].1@
                        == self.entries@[j].1@,
            decreases self.entries.len() - i,
        {
            let k = self.entries[i].0.clone();
            let v = self.entries[i].1.clone();
            out.push((k, v));
            i = i + 1;
        }
        let r = StructMap { entries: out };
        proof {
            lemma_entries_view(r.entries@);
            lemma_entries_view(self.entries@);
            assert(r@ =~= self@);
        }
        r
    }
}

impl Clone for GbfValue {
    fn clone(&self) -> (r: Self)
        ensures
            r@ == self@,
        decreases self,
    {
        match self {
            GbfValue::Struct(m) => {
                let c = m.clone();
                proof {
                    lemma_struct_view(*m);
                    lemma_struct_view(c);
                }
                GbfValue::Struct(c)
            },
            GbfValue::Numeric(a) => GbfValue::Numeric(a.clone()),
            GbfValue::Logical(a) => GbfValue::Logical(a.clone()),
            GbfValue::Char(a) => GbfValue::Char(a.clone()),
            GbfValue::String(a) => GbfValue::String(a.clone()),
            GbfValue::DateTime(a) => GbfValue::DateTime(a.clone()),
            GbfValue::Duration(a) => GbfValue::Duration(a.clone()),
            GbfValue::CalendarDuration(a) => GbfValue::CalendarDuration(a.clone()),
            GbfValue::Categorical(a) => GbfValue::Categorical(a.clone()),
            GbfValue::EmptyStruct => GbfValue::EmptyStruct,
        }
    }
}

impl ValueView {
    /// Whether the value is a leaf: anything but a record with fields.
    pub open spec fn is_leaf(self) -> bool {
        !(self is Struct)
    }

    /// The lengths of a leaf's components agree with its shape.
    pub open spec fn leaf_wf(self) -> bool {
        match self {
            ValueView::Struct(_) => false,
            ValueView::Numeric(a) => a.wf(),
            ValueView::Logical(a) => a.wf(),
            ValueView::Char(a) => a.wf(),
            ValueView::String(a) => a.wf(),
            ValueView::DateTime(a) => a.wf(),
            ValueView::Duration(a) => a.wf(),
            ValueView::CalendarDuration(a) => a.wf(),
            ValueView::Categorical(a) => a.wf(),
            ValueView::EmptyStruct => true,
        }
    }
}

impl GbfValue {
    /// The record that this value is, if it is one.
    pub fn as_struct(&self) -> (r: Option<&StructMap>)
        ensures
            r is Some <==> self is Struct,
            r matches Some(m) ==> *self == GbfValue::Struct(*m),
    {
        match self {
            GbfValue::Struct(m) => Some(m),
            _ => None,
        }
    }
}

} // verus!
