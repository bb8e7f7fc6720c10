//! The items of `std` and of other crates that the library calls, each with
//! the contract that the rest of the library relies on without proof.
use std::path::PathBuf;

use vstd::prelude::*;
#[allow(unused_imports)]
use vstd::utf8::encode_utf8;

#[allow(unused_imports)]
use crate::text::line_views;

verus! {

/// `std::path::PathBuf`, carried through as an opaque value.
#[verifier::external_type_specification]
#[verifier::external_body]
pub struct ExPathBuf(std::path::PathBuf);

/// `PathBuf::clone`: the copy is the same path.
pub assume_specification[ <std::path::PathBuf as Clone>::clone ](path: &PathBuf) -> (copy: PathBuf)
    ensures
        copy == *path,
;

/// `String::push`: the character is appended at the end.
pub assume_specification[ String::push ](s: &mut String, c: char)
    ensures
        final(s)@ == old(s)@.push(c),
;

/// The text that `Path::display` shows for a path.
pub uninterp spec fn path_text(path: PathBuf) -> Seq<char>;

/// Calls `Path::display` and collects what it shows. The text depends on the
/// path alone; how bytes that are no UTF-8 are shown is left unsaid.
#[verifier::external_body]
pub(crate) fn display_path(path: &PathBuf) -> (text: String)
    ensures
        text@ == path_text(*path),
{
    path.display().to_string()
}

/// The last component of a path as lossily decoded text, or `None` where
/// `Path::file_name` finds none (a root, a path that ends in `..`).
pub uninterp spec fn path_file_name(path: PathBuf) -> Option<Seq<char>>;

/// Calls `Path::file_name` and decodes what it finds lossily. The result
/// depends on the path alone.
#[verifier::external_body]
pub(crate) fn file_name_of(path: &PathBuf) -> (name: Option<String>)
    ensures
        match (name, path_file_name(*path)) {
            (Some(n), Some(text)) => n@ == text,
            (None, None) => true,
            _ => false,
        },
{
    path.file_name().map(|s| s.to_string_lossy().into_owned())
}

/// Whether `==` takes two paths for the same.
pub uninterp spec fn same_path(a: PathBuf, b: PathBuf) -> bool;

/// Compares two paths with `PathBuf::eq`. The result depends on the two paths
/// alone, and a path is the same as itself; which other spellings of a path
/// count as the same is left unsaid.
#[verifier::external_body]
pub(crate) fn is_same_path(a: &PathBuf, b: &PathBuf) -> (same: bool)
    ensures
        same == same_path(*a, *b),
        *a == *b ==> same,
{
    a == b
}

/// The path that `PathBuf::from` makes of a text.
pub uninterp spec fn text_as_path(text: Seq<char>) -> PathBuf;

/// Calls `PathBuf::from`. The path depends on the text alone.
#[verifier::external_body]
pub(crate) fn path_from_text(text: &str) -> (path: PathBuf)
    ensures
        path == text_as_path(text@),
{
    PathBuf::from(text)
}

/// What `humansize::format_size` gives for a byte count under its `BINARY`
/// options, with or without a space before the unit.
pub uninterp spec fn human_size(size_in_bytes: u64, space_after_value: bool) -> Seq<char>;

/// Whether a text is made of digits, a point and letters, and of spaces only
/// where they are allowed.
pub open spec fn is_size_text(text: Seq<char>, spaced: bool) -> bool {
    forall|i: int|
        0 <= i < text.len() ==> {
            let code = (#[trigger] text[i]) as u32;
            ||| 0x30 <= code <= 0x39
            ||| code == 0x2e
            ||| 0x41 <= code <= 0x5a
            ||| 0x61 <= code <= 0x7a
            ||| (spaced && code == 0x20)
        }
}

/// Calls `humansize::format_size` with `BINARY.space_after_value(..)`. The
/// text depends on the two arguments alone. It is a number and a unit, with
/// nothing but a space between them, and that only where it is asked for;
/// which digits and which unit it shows is left unsaid.
#[verifier::external_body]
pub(crate) fn format_size(size_in_bytes: u64, space_after_value: bool) -> (text: String)
    ensures
        text@ == human_size(size_in_bytes, space_after_value),
        text@.len() > 0,
        is_size_text(text@, space_after_value),
{
    humansize::format_size(size_in_bytes, humansize::BINARY.space_after_value(space_after_value))
}

/// The bytes that make it necessary to quote a field: the delimiter, the quote
/// itself, and both characters that a reader takes for the end of a record.
pub open spec fn csv_special(byte: u8, delimiter: u8) -> bool {
    byte == delimiter || byte == 0x22 || byte == 0x0d || byte == 0x0a
}

/// Whether a field has to be quoted.
pub open spec fn csv_needs_quotes(field: Seq<u8>, delimiter: u8) -> bool {
    exists|i: int| 0 <= i < field.len() && csv_special(#[trigger] field[i], delimiter)
}

/// The field with each of its quotes doubled.
pub open spec fn csv_doubled(field: Seq<u8>) -> Seq<u8>
    decreases field.len(),
{
    if field.len() == 0 {
        Seq::empty()
    } else if field.last() == 0x22 {
        csv_doubled(field.drop_last()) + seq![0x22u8, 0x22u8]
    } else {
        csv_doubled(field.drop_last()).push(field.last())
    }
}

/// A field as it is written: as it is, or doubled and between quotes where it
/// has to be quoted.
pub open spec fn csv_field(field: Seq<u8>, delimiter: u8) -> Seq<u8> {
    if csv_needs_quotes(field, delimiter) {
        seq![0x22u8] + csv_doubled(field) + seq![0x22u8]
    } else {
        field
    }
}

/// The first `n` fields as they are written, with delimiters between them.
pub open spec fn csv_joined(fields: Seq<Seq<char>>, n: int, delimiter: u8) -> Seq<u8>
    decreases n,
{
    if n <= 0 {
        Seq::empty()
    } else {
        let last = csv_field(encode_utf8(fields[n - 1]), delimiter);
        if n == 1 {
            last
        } else {
            csv_joined(fields, n - 1, delimiter).push(delimiter) + last
        }
    }
}

/// A record as it is written, its line feed included.
pub open spec fn csv_record(fields: Seq<Seq<char>>, delimiter: u8) -> Seq<u8> {
    csv_joined(fields, fields.len() as int, delimiter).push(0x0a)
}

/// Calls `csv::Writer::write_record` on a writer into memory that
/// `csv::WriterBuilder` made with the given delimiter and its defaults
/// otherwise, and takes the bytes with `into_inner`. Fields are quoted only
/// where that is necessary, quotes in them are doubled, and the record ends in
/// a line feed. Writing to memory does not fail. A record of fewer than two
/// fields is left out: one that is empty altogether is written as a pair of
/// quotes.
#[verifier::external_body]
pub(crate) fn write_csv_record(fields: &Vec<String>, delimiter: u8) -> (bytes: Vec<u8>)
    requires
        fields@.len() >= 2,
    ensures
        bytes@ == csv_record(line_views(fields@), delimiter),
{
    let mut writer = csv::WriterBuilder::new().delimiter(delimiter).from_writer(Vec::new());
    writer.write_record(fields).unwrap();
    writer.into_inner().unwrap()
}

} // verus!
