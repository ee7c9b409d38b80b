//! Facts about the words of the header: the kinds and the classes are
//! different words, also when the case of letters is ignored.
use crate::text::{lower_text, same_ignoring_case};
use crate::value::{class_of_name, NumericClass};
use vstd::prelude::*;

verus! {

proof fn lemma_word_struct()
    ensures
        "struct"@.len() == 6,
        "struct"@[0] == 's',
        "struct"@[1] == 't',
        "struct"@[2] == 'r',
        "struct"@[3] == 'u',
        "struct"@[4] == 'c',
        "struct"@[5] == 't',
        lower_text("struct"@) == "struct"@,
{
    reveal_strlit("struct");
    assert(lower_text("struct"@) =~= "struct"@);
}

proof fn lemma_word_numeric()
    ensures
        "numeric"@.len() == 7,
        "numeric"@[0] == 'n',
        "numeric"@[1] == 'u',
        "numeric"@[2] == 'm',
        "numeric"@[3] == 'e',
        "numeric"@[4] == 'r',
        "numeric"@[5] == 'i',
        "numeric"@[6] == 'c',
        lower_text("numeric"@) == "numeric"@,
{
    reveal_strlit("numeric");
    assert(lower_text("numeric"@) =~= "numeric"@);
}

proof fn lemma_word_logical()
    ensures
        "logical"@.len() == 7,
        "logical"@[0] == 'l',
        "logical"@[1] == 'o',
        "logical"@[2] == 'g',
        "logical"@[3] == 'i',
        "logical"@[4] == 'c',
        "logical"@[5] == 'a',
        "logical"@[6] == 'l',
        lower_text("logical"@) == "logical"@,
{
    reveal_strlit("logical");
    assert(lower_text("logical"@) =~= "logical"@);
}

proof fn lemma_word_char()
    ensures
        "char"@.len() == 4,
        "char"@[0] == 'c',
        "char"@[1] == 'h',
        "char"@[2] == 'a',
        "char"@[3] == 'r',
        lower_text("char"@) == "char"@,
{
    reveal_strlit("char");
    assert(lower_text("char"@) =~= "char"@);
}

proof fn lemma_word_string()
    ensures
        "string"@.len() == 6,
        "string"@[0] == 's',
        "string"@[1] == 't',
        "string"@[2] == 'r',
        "string"@[3] == 'i',
        "string"@[4] == 'n',
        "string"@[5] == 'g',
        lower_text("string"@) == "string"@,
{
    reveal_strlit("string");
    assert(lower_text("string"@) =~= "string"@);
}

proof fn lemma_word_datetime()
    ensures
        "datetime"@.len() == 8,
        "datetime"@[0] == 'd',
        "datetime"@[1] == 'a',
        "datetime"@[2] == 't',
        "datetime"@[3] == 'e',
        "datetime"@[4] == 't',
        "datetime"@[5] == 'i',
        "datetime"@[6] == 'm',
        "datetime"@[7] == 'e',
        lower_text("datetime"@) == "datetime"@,
{
    reveal_strlit("datetime");
    assert(lower_text("datetime"@) =~= "datetime"@);
}

proof fn lemma_word_duration()
    ensures
        "duration"@.len() == 8,
        "duration"@[0] == 'd',
        "duration"@[1] == 'u',
        "duration"@[2] == 'r',
        "duration"@[3] == 'a',
        "duration"@[4] == 't',
        "duration"@[5] == 'i',
        "duration"@[6] == 'o',
        "duration"@[7] == 'n',
        lower_text("duration"@) == "duration"@,
{
    reveal_strlit("duration");
    assert(lower_text("duration"@) =~= "duration"@);
}

proof fn lemma_word_calendarduration()
    ensures
        "calendarduration"@.len() == 16,
        "calendarduration"@[0] == 'c',
        "calendarduration"@[1] == 'a',
        "calendarduration"@[2] == 'l',
        "calendarduration"@[3] == 'e',
        "calendarduration"@[4] == 'n',
        "calendarduration"@[5] == 'd',
        "calendarduration"@[6] == 'a',
        "calendarduration"@[7] == 'r',
        "calendarduration"@[8] == 'd',
        "calendarduration"@[9] == 'u',
        "calendarduration"@[10] == 'r',
        "calendarduration"@[11] == 'a',
        "calendarduration"@[12] == 't',
        "calendarduration"@[13] == 'i',
        "calendarduration"@[14] == 'o',
        "calendarduration"@[15] == 'n',
        lower_text("calendarduration"@) == "calendarduration"@,
{
    reveal_strlit("calendarduration");
    assert(lower_text("calendarduration"@) =~= "calendarduration"@);
}

proof fn lemma_word_categorical()
    ensures
        "categorical"@.len() == 11,
        "categorical"@[0] == 'c',
        "categorical"@[1] == 'a',
        "categorical"@[2] == 't',
        "categorical"@[3] == 'e',
        "categorical"@[4] == 'g',
        "categorical"@[5] == 'o',
        "categorical"@[6] == 'r',
        "categorical"@[7] == 'i',
        "categorical"@[8] == 'c',
        "categorical"@[9] == 'a',
        "categorical"@[10] == 'l',
        lower_text("categorical"@) == "categorical"@,
{
    reveal_strlit("categorical");
    assert(lower_text("categorical"@) =~= "categorical"@);
}

proof fn lemma_word_double()
    ensures
        "double"@.len() == 6,
        "double"@[0] == 'd',
        "double"@[1] == 'o',
        "double"@[2] == 'u',
        "double"@[3] == 'b',
        "double"@[4] == 'l',
        "double"@[5] == 'e',
        lower_text("double"@) == "double"@,
{
    reveal_strlit("double");
    assert(lower_text("double"@) =~= "double"@);
}

proof fn lemma_word_single()
    ensures
        "single"@.len() == 6,
        "single"@[0] == 's',
        "single"@[1] == 'i',
        "single"@[2] == 'n',
        "single"@[3] == 'g',
        "single"@[4] == 'l',
        "single"@[5] == 'e',
        lower_text("single"@) == "single"@,
{
    reveal_strlit("single");
    assert(lower_text("single"@) =~= "single"@);
}

proof fn lemma_word_int8()
    ensures
        "int8"@.len() == 4,
        "int8"@[0] == 'i',
        "int8"@[1] == 'n',
        "int8"@[2] == 't',
        "int8"@[3] == '8',
        lower_text("int8"@) == "int8"@,
{
    reveal_strlit("int8");
    assert(lower_text("int8"@) =~= "int8"@);
}

proof fn lemma_word_uint8()
    ensures
        "uint8"@.len() == 5,
        "uint8"@[0] == 'u',
        "uint8"@[1] == 'i',
        "uint8"@[2] == 'n',
        "uint8"@[3] == 't',
        "uint8"@[4] == '8',
        lower_text("uint8"@) == "uint8"@,
{
    reveal_strlit("uint8");
    assert(lower_text("uint8"@) =~= "uint8"@);
}

proof fn lemma_word_int16()
    ensures
        "int16"@.len() == 5,
        "int16"@[0] == 'i',
        "int16"@[1] == 'n',
        "int16"@[2] == 't',
        "int16"@[3] == '1',
        "int16"@[4] == '6',
        lower_text("int16"@) == "int16"@,
{
    reveal_strlit("int16");
    assert(lower_text("int16"@) =~= "int16"@);
}

proof fn lemma_word_uint16()
    ensures
        "uint16"@.len() == 6,
        "uint16"@[0] == 'u',
        "uint16"@[1] == 'i',
        "uint16"@[2] == 'n',
        "uint16"@[3] == 't',
        "uint16"@[4] == '1',
        "uint16"@[5] == '6',
        lower_text("uint16"@) == "uint16"@,
{
    reveal_strlit("uint16");
    assert(lower_text("uint16"@) =~= "uint16"@);
}

proof fn lemma_word_int32()
    ensures
        "int32"@.len() == 5,
        "int32"@[0] == 'i',
        "int32"@[1] == 'n',
        "int32"@[2] == 't',
        "int32"@[3] == '3',
        "int32"@[4] == '2',
        lower_text("int32"@) == "int32"@,
{
    reveal_strlit("int32");
    assert(lower_text("int32"@) =~= "int32"@);
}

proof fn lemma_word_uint32()
    ensures
        "uint32"@.len() == 6,
        "uint32"@[0] == 'u',
        "uint32"@[1] == 'i',
        "uint32"@[2] == 'n',
        "uint32"@[3] == 't',
        "uint32"@[4] == '3',
        "uint32"@[5] == '2',
        lower_text("uint32"@) == "uint32"@,
{
    reveal_strlit("uint32");
    assert(lower_text("uint32"@) =~= "uint32"@);
}

proof fn lemma_word_int64()
    ensures
        "int64"@.len() == 5,
        "int64"@[0] == 'i',
        "int64"@[1] == 'n',
        "int64"@[2] == 't',
        "int64"@[3] == '6',
        "int64"@[4] == '4',
        lower_text("int64"@) == "int64"@,
{
    reveal_strlit("int64");
    assert(lower_text("int64"@) =~= "int64"@);
}

proof fn lemma_word_uint64()
    ensures
        "uint64"@.len() == 6,
        "uint64"@[0] == 'u',
        "uint64"@[1] == 'i',
        "uint64"@[2] == 'n',
        "uint64"@[3] == 't',
        "uint64"@[4] == '6',
        "uint64"@[5] == '4',
        lower_text("uint64"@) == "uint64"@,
{
    reveal_strlit("uint64");
    assert(lower_text("uint64"@) =~= "uint64"@);
}

/// No kind is another kind, whatever the case of the letters.
pub proof fn lemma_kinds_differ()
    ensures
        !same_ignoring_case("numeric"@, "struct"@),
        !same_ignoring_case("logical"@, "struct"@),
        !same_ignoring_case("logical"@, "numeric"@),
        !same_ignoring_case("char"@, "struct"@),
        !same_ignoring_case("char"@, "numeric"@),
        !same_ignoring_case("char"@, "logical"@),
        !same_ignoring_case("string"@, "struct"@),
        !same_ignoring_case("string"@, "numeric"@),
        !same_ignoring_case("string"@, "logical"@),
        !same_ignoring_case("string"@, "char"@),
        !same_ignoring_case("datetime"@, "struct"@),
        !same_ignoring_case("datetime"@, "numeric"@),
        !same_ignoring_case("datetime"@, "logical"@),
        !same_ignoring_case("datetime"@, "char"@),
        !same_ignoring_case("datetime"@, "string"@),
        !same_ignoring_case("duration"@, "struct"@),
        !same_ignoring_case("duration"@, "numeric"@),
        !same_ignoring_case("duration"@, "logical"@),
        !same_ignoring_case("duration"@, "char"@),
        !same_ignoring_case("duration"@, "string"@),
        !same_ignoring_case("duration"@, "datetime"@),
        !same_ignoring_case("calendarduration"@, "struct"@),
        !same_ignoring_case("calendarduration"@, "numeric"@),
        !same_ignoring_case("calendarduration"@, "logical"@),
        !same_ignoring_case("calendarduration"@, "char"@),
        !same_ignoring_case("calendarduration"@, "string"@),
        !same_ignoring_case("calendarduration"@, "datetime"@),
        !same_ignoring_case("calendarduration"@, "duration"@),
        !same_ignoring_case("categorical"@, "struct"@),
        !same_ignoring_case("categorical"@, "numeric"@),
        !same_ignoring_case("categorical"@, "logical"@),
        !same_ignoring_case("categorical"@, "char"@),
        !same_ignoring_case("categorical"@, "string"@),
        !same_ignoring_case("categorical"@, "datetime"@),
        !same_ignoring_case("categorical"@, "duration"@),
        !same_ignoring_case("categorical"@, "calendarduration"@),
{
    lemma_word_struct();
    lemma_word_numeric();
    lemma_word_logical();
    lemma_word_char();
    lemma_word_string();
    lemma_word_datetime();
    lemma_word_duration();
    lemma_word_calendarduration();
    lemma_word_categorical();
}

/// The name of a class is read back as that class.
pub proof fn lemma_class_names()
    ensures
        forall|c: NumericClass| class_of_name(c.name()) == Some(c),
{
    lemma_word_double();
    lemma_word_single();
    lemma_word_int8();
    lemma_word_uint8();
    lemma_word_int16();
    lemma_word_uint16();
    lemma_word_int32();
    lemma_word_uint32();
    lemma_word_int64();
    lemma_word_uint64();
    assert forall|c: NumericClass| class_of_name(c.name()) == Some(c) by {
        match c {
            NumericClass::Double => {},
            NumericClass::Single => {},
            NumericClass::Int8 => {},
            NumericClass::Uint8 => {},
            NumericClass::Int16 => {},
            NumericClass::Uint16 => {},
            NumericClass::Int32 => {},
            NumericClass::Uint32 => {},
            NumericClass::Int64 => {},
            NumericClass::Uint64 => {},
        }
    }
}

} // verus!
