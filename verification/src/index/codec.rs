//! Keys and rows of the index store.

use vstd::prelude::*;
use vstd::string::*;
use vstd::utf8::{encode_utf8, encode_utf8_decode_utf8, valid_utf8};

use crate::path::{path_parts, FilePath};
use crate::query::record::string_texts;

verus! {

/// The text of `bytes`, with the replacement character for what is no UTF-8.
pub uninterp spec fn lossy_text(bytes: Seq<u8>) -> Seq<char>;

/// `String::from_utf8_lossy`. Bytes that are UTF-8 give the text they encode.
#[verifier::external_body]
fn decode_lossy(bytes: &[u8]) -> (text: String)
    ensures
        text@ == lossy_text(bytes@),
        valid_utf8(bytes@) ==> encode_utf8(text@) == bytes@,
{
    String::from_utf8_lossy(bytes).into_owned()
}

/// The key of a path: the bytes of its text, as it is written.
pub fn path_to_bytes(path: &FilePath) -> (bytes: Vec<u8>)
    ensures
        bytes@ == encode_utf8(path.spec_text()),
{
    let text = path.to_text();
    text.as_str().as_bytes_vec()
}

/// The path of a key. Bytes that are UTF-8 are taken as they are; in others
/// what is no UTF-8 is replaced. The key of a path gives back that path, written
/// as it was.
pub fn path_from_bytes(bytes: &[u8]) -> (path: FilePath)
    ensures
        path@ == path_parts(path.spec_text()),
        path.spec_text() == lossy_text(bytes@),
        forall|text: Seq<char>|
            bytes@ == #[trigger] encode_utf8(text) ==> path.spec_text() == text,
{
    let text = decode_lossy(bytes);
    proof {
        assert forall|other: Seq<char>| bytes@ == #[trigger] encode_utf8(other) implies text@
            == other by {
            vstd::utf8::encode_utf8_valid_utf8(other);
            encode_utf8_decode_utf8(other);
            encode_utf8_decode_utf8(text@);
        }
    }
    FilePath::new(text.as_str())
}

/// The contents of each mark: a text, and whether it is set.
pub open spec fn mark_views(marks: Seq<(String, bool)>) -> Seq<(Seq<char>, bool)> {
    Seq::new(marks.len(), |i: int| (marks[i].0@, marks[i].1))
}

/// The row that holds a text, or why there is none.
pub uninterp spec fn text_row(text: Seq<char>) -> Result<Seq<u8>, Seq<char>>;

/// The text that a row holds, or why there is none. Lengths are read as machine
/// words, so rows that no text is written as can depend on their size.
pub uninterp spec fn row_text(row: Seq<u8>, word_bits: u32) -> Result<Seq<char>, Seq<char>>;

/// The row that holds marks and texts, or why there is none.
pub uninterp spec fn marks_row(
    marks: Seq<(Seq<char>, bool)>,
    texts: Seq<Seq<char>>,
) -> Result<Seq<u8>, Seq<char>>;

/// The marks and texts that a row holds, or why there are none. Lengths are read
/// as machine words, so rows that none are written as can depend on their size.
pub uninterp spec fn row_marks(
    row: Seq<u8>,
    word_bits: u32,
) -> Result<(Seq<(Seq<char>, bool)>, Seq<Seq<char>>), Seq<char>>;

/// `postcard::to_extend` of a string. `postcard::from_bytes` reads that string
/// from the row.
#[verifier::external_body]
pub(crate) fn encode_text(text: &str) -> (row: Result<Vec<u8>, String>)
    ensures
        match row {
            Ok(bytes) => text_row(text@) == Ok::<Seq<u8>, Seq<char>>(bytes@) && row_text(
                bytes@,
                usize::BITS,
            ) == Ok::<Seq<char>, Seq<char>>(text@),
            Err(detail) => text_row(text@) == Err::<Seq<u8>, Seq<char>>(detail@),
        },
{
    postcard::to_extend(text, Vec::new()).map_err(|error| error.to_string())
}

/// `postcard::from_bytes` of a string.
#[verifier::external_body]
pub(crate) fn decode_text(row: &[u8]) -> (text: Result<String, String>)
    ensures
        match text {
            Ok(found) => row_text(row@, usize::BITS) == Ok::<Seq<char>, Seq<char>>(found@),
            Err(detail) => row_text(row@, usize::BITS) == Err::<Seq<char>, Seq<char>>(detail@),
        },
{
    postcard::from_bytes(row).map_err(|error| error.to_string())
}

/// `postcard::to_extend` of a pair of vectors. `postcard::from_bytes` reads that
/// pair from the row.
#[verifier::external_body]
pub(crate) fn encode_marks(marks: &Vec<(String, bool)>, texts: &Vec<String>) -> (row: Result<
    Vec<u8>,
    String,
>)
    ensures
        match row {
            Ok(bytes) => {
                &&& marks_row(mark_views(marks@), string_texts(texts@)) == Ok::<
                    Seq<u8>,
                    Seq<char>,
                >(bytes@)
                &&& row_marks(bytes@, usize::BITS) == Ok::<
                    (Seq<(Seq<char>, bool)>, Seq<Seq<char>>),
                    Seq<char>,
                >((mark_views(marks@), string_texts(texts@)))
            },
            Err(detail) => marks_row(mark_views(marks@), string_texts(texts@)) == Err::<
                Seq<u8>,
                Seq<char>,
            >(detail@),
        },
{
    postcard::to_extend(&(marks, texts), Vec::new()).map_err(|error| error.to_string())
}

/// `postcard::from_bytes` of a pair of vectors.
#[verifier::external_body]
pub(crate) fn decode_marks(row: &[u8]) -> (pair: Result<(Vec<(String, bool)>, Vec<String>), String>)
    ensures
        match pair {
            Ok(found) => row_marks(row@, usize::BITS) == Ok::<
                (Seq<(Seq<char>, bool)>, Seq<Seq<char>>),
                Seq<char>,
            >((mark_views(found.0@), string_texts(found.1@))),
            Err(detail) => row_marks(row@, usize::BITS) == Err::<
                (Seq<(Seq<char>, bool)>, Seq<Seq<char>>),
                Seq<char>,
            >(detail@),
        },
{
    postcard::from_bytes(row).map_err(|error| error.to_string())
}

} // verus!
