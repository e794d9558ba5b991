//! The four kinds of value that a field of a record can hold, and their
//! conversions from and to documents and relational values.

use crate::error::PipelineError;
use crate::state::document::{Document, DocumentModel};
use vstd::prelude::*;
use vstd::slice::slice_to_vec;
use vstd::std_specs::cmp::PartialEqSpecImpl;
use vstd::utf8::*;

verus! {

/// A value of a field. A float is held as its decimal text, the way a document
/// holds it: values of this kind are compared and written out, never computed with.
#[derive(Debug)]
pub enum Variant {
    Null,
    String(String),
    Float(String),
    Int(i64),
}

/// What a `Variant` holds, as a mathematical value.
pub enum VariantModel {
    Null,
    String(Seq<char>),
    Float(Seq<char>),
    Int(i64),
}

/// A value as a relational database hands it out. `Float` and `Double` hold
/// the decimal text of the number, widened to double precision; `Other` stands
/// for every kind that has no place among the four kinds of `Variant` (a date,
/// a time).
#[derive(Debug)]
pub enum RelationalValue {
    Null,
    Bytes(Vec<u8>),
    Int(i64),
    UInt(u64),
    Float(String),
    Double(String),
    Other,
}

/// What a `RelationalValue` holds, as a mathematical value.
pub enum RelationalModel {
    Null,
    Bytes(Seq<u8>),
    Int(i64),
    UInt(u64),
    Float(Seq<char>),
    Double(Seq<char>),
    Other,
}

impl View for Variant {
    type V = VariantModel;

    open spec fn view(&self) -> VariantModel {
        match self {
            Variant::Null => VariantModel::Null,
            Variant::String(text) => VariantModel::String(text@),
            Variant::Float(text) => VariantModel::Float(text@),
            Variant::Int(i) => VariantModel::Int(*i),
        }
    }
}

impl View for RelationalValue {
    type V = RelationalModel;

    open spec fn view(&self) -> RelationalModel {
        match self {
            RelationalValue::Null => RelationalModel::Null,
            RelationalValue::Bytes(bytes) => RelationalModel::Bytes(bytes@),
            RelationalValue::Int(i) => RelationalModel::Int(*i),
            RelationalValue::UInt(u) => RelationalModel::UInt(*u),
            RelationalValue::Float(text) => RelationalModel::Float(text@),
            RelationalValue::Double(text) => RelationalModel::Double(text@),
            RelationalValue::Other => RelationalModel::Other,
        }
    }
}

/// The character of a hexadecimal digit, in lower case.
pub open spec fn hex_digit(d: int) -> char {
    if d < 10 {
        ((48 + d) as u8) as char
    } else {
        ((87 + d) as u8) as char
    }
}

/// What a document writes for one character of a string: the double quote
/// and the backslash behind a backslash; backspace, tab, line feed, form feed
/// and carriage return as a backslash and a letter; any other control
/// character as `\u00` and two hexadecimal digits; every other character
/// as it is.
pub open spec fn escaped(c: char) -> Seq<char> {
    if c == '"' {
        seq!['\\', '"']
    } else if c == '\\' {
        seq!['\\', '\\']
    } else if c == '\u{8}' {
        seq!['\\', 'b']
    } else if c == '\t' {
        seq!['\\', 't']
    } else if c == '\n' {
        seq!['\\', 'n']
    } else if c == '\u{c}' {
        seq!['\\', 'f']
    } else if c == '\r' {
        seq!['\\', 'r']
    } else if (c as u32) < 0x20 {
        seq!['\\', 'u', '0', '0', hex_digit((c as int) / 16), hex_digit((c as int) % 16)]
    } else {
        seq![c]
    }
}

/// What a document writes for the characters of a string, one after the other.
pub open spec fn escaped_text(text: Seq<char>) -> Seq<char>
    decreases text.len(),
{
    if text.len() == 0 {
        Seq::empty()
    } else {
        escaped_text(text.drop_last()) + escaped(text.last())
    }
}

/// The text that a document writes for a string: the string between double
/// quotes, with the characters that a document cannot hold as they are escaped.
pub open spec fn quoted(text: Seq<char>) -> Seq<char> {
    seq!['"'] + escaped_text(text) + seq!['"']
}

/// The character of a decimal digit.
pub open spec fn digit(d: int) -> char {
    ((48 + d) as u8) as char
}

/// The decimal digits of a natural number, without leading zeros.
pub open spec fn decimal_digits(n: nat) -> Seq<char>
    decreases n,
{
    if n < 10 {
        seq![digit(n as int)]
    } else {
        decimal_digits(n / 10).push(digit((n % 10) as int))
    }
}

/// The decimal text of an integer: a minus sign where it is negative, then its digits.
pub open spec fn decimal(i: int) -> Seq<char> {
    if i < 0 {
        seq!['-'] + decimal_digits((-i) as nat)
    } else {
        decimal_digits(i as nat)
    }
}

/// The canonical text of a value: what a document writes for it.
pub open spec fn canonical_text(value: VariantModel) -> Seq<char> {
    match value {
        VariantModel::Null => "null"@,
        VariantModel::String(text) => quoted(text),
        VariantModel::Float(text) => text,
        VariantModel::Int(i) => decimal(i as int),
    }
}

/// The value that a document stands for: null, a string, an integer of 64
/// bits or a float; nothing for any other document.
pub open spec fn variant_of_document(document: DocumentModel) -> Option<VariantModel> {
    match document {
        DocumentModel::Null => Some(VariantModel::Null),
        DocumentModel::String(text) => Some(VariantModel::String(text)),
        DocumentModel::Float(text) => Some(VariantModel::Float(text)),
        DocumentModel::Int(i) => if i64::MIN <= i <= i64::MAX {
            Some(VariantModel::Int(i as i64))
        } else {
            None
        },
        _ => None,
    }
}

/// The document that stands for a value.
pub open spec fn document_of_variant(value: VariantModel) -> DocumentModel {
    match value {
        VariantModel::Null => DocumentModel::Null,
        VariantModel::String(text) => DocumentModel::String(text),
        VariantModel::Float(text) => DocumentModel::Float(text),
        VariantModel::Int(i) => DocumentModel::Int(i as int),
    }
}

/// An unsigned integer of 64 bits read as a signed one of the same bits.
pub open spec fn as_signed(u: u64) -> i64 {
    if u <= i64::MAX {
        u as i64
    } else {
        (u - 0x1_0000_0000_0000_0000) as i64
    }
}

/// The value that a relational value stands for: bytes are a string where
/// they are UTF-8, both kinds of integer are an integer, both kinds of float a
/// float; nothing for bytes that are no text and for any other kind.
pub open spec fn variant_of_relational(value: RelationalModel) -> Option<VariantModel> {
    match value {
        RelationalModel::Null => Some(VariantModel::Null),
        RelationalModel::Bytes(bytes) => if valid_utf8(bytes) {
            Some(VariantModel::String(decode_utf8(bytes)))
        } else {
            None
        },
        RelationalModel::Int(i) => Some(VariantModel::Int(i)),
        RelationalModel::UInt(u) => Some(VariantModel::Int(as_signed(u))),
        RelationalModel::Float(text) => Some(VariantModel::Float(text)),
        RelationalModel::Double(text) => Some(VariantModel::Float(text)),
        RelationalModel::Other => None,
    }
}

/// The relational value that stands for a value.
pub open spec fn relational_of_variant(value: VariantModel) -> RelationalModel {
    match value {
        VariantModel::Null => RelationalModel::Null,
        VariantModel::String(text) => RelationalModel::Bytes(encode_utf8(text)),
        VariantModel::Float(text) => RelationalModel::Double(text),
        VariantModel::Int(i) => RelationalModel::Int(i),
    }
}

/// Calls `to_string` on a `serde_json::Value` that holds the string: the
/// result is the JSON text of the string, between double quotes, each
/// character written as `escaped` says.
#[verifier::external_body]
fn string_text(text: &str) -> (written: String)
    ensures
        written@ == quoted(text@),
{
    serde_json::Value::from(text).to_string()
}

/// Calls `to_string` on a `serde_json::Number` made of the integer: the
/// result is the integer in decimal, with a minus sign where it is negative.
#[verifier::external_body]
fn integer_text(i: i64) -> (written: String)
    ensures
        written@ == decimal(i as int),
{
    serde_json::Number::from(i).to_string()
}

/// Calls `String::from_utf8`: the text that the bytes encode, where they are
/// valid UTF-8, and nothing where they are not.
#[verifier::external_body]
fn text_of_bytes(bytes: Vec<u8>) -> (text: Option<String>)
    ensures
        text is Some <==> valid_utf8(bytes@),
        text matches Some(t) ==> t@ == decode_utf8(bytes@),
{
    String::from_utf8(bytes).ok()
}

impl Clone for Variant {
    fn clone(&self) -> (copy: Variant)
        ensures
            copy@ == self@,
    {
        match self {
            Variant::Null => Variant::Null,
            Variant::String(text) => Variant::String(text.clone()),
            Variant::Float(text) => Variant::Float(text.clone()),
            Variant::Int(i) => Variant::Int(*i),
        }
    }
}

impl PartialEq for Variant {
    fn eq(&self, other: &Variant) -> (same: bool) {
        match (self, other) {
            (Variant::Null, Variant::Null) => true,
            (Variant::String(a), Variant::String(b)) => *a == *b,
            (Variant::Float(a), Variant::Float(b)) => *a == *b,
            (Variant::Int(a), Variant::Int(b)) => *a == *b,
            _ => false,
        }
    }
}

impl PartialEqSpecImpl for Variant {
    open spec fn obeys_eq_spec() -> bool {
        true
    }

    open spec fn eq_spec(&self, other: &Variant) -> bool {
        self@ == other@
    }
}

impl Variant {
    /// The value that a document stands for. A document of any other kind
    /// than null, string and number, or an integer that 64 bits cannot hold,
    /// is refused.
    pub fn from_serde_value(value: &Document) -> (converted: Result<Variant, PipelineError>)
        ensures
            match converted {
                Ok(variant) => variant_of_document(value@) == Some(variant@),
                Err(error) => error == PipelineError::UnsupportedValueKind && variant_of_document(
                    value@,
                ) is None,
            },
    {
        match value {
            Document::Null => Ok(Variant::Null),
            Document::String(text) => Ok(Variant::String(text.clone())),
            Document::Float(text) => Ok(Variant::Float(text.clone())),
            Document::Int(i) => {
                if -0x8000_0000_0000_0000 <= *i && *i <= 0x7fff_ffff_ffff_ffff {
                    Ok(Variant::Int(*i as i64))
                } else {
                    Err(PipelineError::UnsupportedValueKind)
                }
            },
            _ => Err(PipelineError::UnsupportedValueKind),
        }
    }

    /// The value that a relational value stands for. Bytes that are no UTF-8
    /// text, and any kind that is none of null, bytes, integer and float, are refused.
    pub fn from_mysql_value(value: RelationalValue) -> (converted: Result<Variant, PipelineError>)
        ensures
            match converted {
                Ok(variant) => variant_of_relational(value@) == Some(variant@),
                Err(error) => error == PipelineError::UnsupportedValueKind && variant_of_relational(
                    value@,
                ) is None,
            },
    {
        match value {
            RelationalValue::Null => Ok(Variant::Null),
            RelationalValue::Bytes(bytes) => {
                match text_of_bytes(bytes) {
                    Some(text) => Ok(Variant::String(text)),
                    None => Err(PipelineError::UnsupportedValueKind),
                }
            },
            RelationalValue::Int(i) => Ok(Variant::Int(i)),
            RelationalValue::UInt(u) => {
                if u <= 0x7fff_ffff_ffff_ffff {
                    Ok(Variant::Int(u as i64))
                } else {
                    let low: u64 = u - 0x8000_0000_0000_0000;
                    Ok(Variant::Int((low as i64) - 0x4000_0000_0000_0000 - 0x4000_0000_0000_0000))
                }
            },
            RelationalValue::Float(text) => Ok(Variant::Float(text)),
            RelationalValue::Double(text) => Ok(Variant::Float(text)),
            RelationalValue::Other => Err(PipelineError::UnsupportedValueKind),
        }
    }

    /// The relational value that stands for this value: a string goes out as
    /// its UTF-8 bytes, a float in double precision.
    pub fn to_mysql_value(&self) -> (converted: RelationalValue)
        ensures
            converted@ == relational_of_variant(self@),
    {
        match self {
            Variant::Null => RelationalValue::Null,
            Variant::String(text) => RelationalValue::Bytes(slice_to_vec(text.as_str().as_bytes())),
            Variant::Int(i) => RelationalValue::Int(*i),
            Variant::Float(text) => RelationalValue::Double(text.clone()),
        }
    }

    /// The document that stands for this value.
    pub fn to_serde_value(&self) -> (converted: Document)
        ensures
            converted@ == document_of_variant(self@),
    {
        match self {
            Variant::Null => Document::Null,
            Variant::String(text) => Document::String(text.clone()),
            Variant::Int(i) => Document::Int(*i as i128),
            Variant::Float(text) => Document::Float(text.clone()),
        }
    }

    /// The canonical text of this value, as a document writes it: `null`, a
    /// string between quotes, a number as it is.
    pub fn display(&self) -> (text: String)
        ensures
            text@ == canonical_text(self@),
    {
        match self {
            Variant::Null => String::from_str("null"),
            Variant::String(text) => string_text(text.as_str()),
            Variant::Int(i) => integer_text(*i),
            Variant::Float(text) => text.clone(),
        }
    }
}

/// A value that went out as a document comes back, from that document, as the same value.
pub proof fn lemma_document_round_trip(value: VariantModel)
    ensures
        variant_of_document(document_of_variant(value)) == Some(value),
{
}

/// A value that went out as a relational value comes back, from that
/// relational value, as the same value.
pub proof fn lemma_relational_round_trip(value: VariantModel)
    ensures
        variant_of_relational(relational_of_variant(value)) == Some(value),
{
    if let VariantModel::String(text) = value {
        encode_utf8_valid_utf8(text);
        encode_utf8_decode_utf8(text);
    }
}

} // verus!
