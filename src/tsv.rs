//! Tab-separated records: compression detection, field decoding and row decoding.

use vstd::prelude::*;
use vstd::string::StringSliceAdditionalSpecFns;

use crate::decimal::{parse_fixed, parse_fixed_spec};

verus! {

/// The first byte of the gzip magic number.
pub const GZIP_MAGIC_0: u8 = 0x1f;

/// The second byte of the gzip magic number.
pub const GZIP_MAGIC_1: u8 = 0x8b;

/// How the bytes of a source are to be read.
#[derive(Debug, Clone, Copy, PartialEq, Eq, Structural)]
pub enum Compression {
    /// Whole-source gzip: read through a decompressor.
    Gzip,
    /// Read as-is.
    Plain,
}

/// A source too short to carry the two-byte magic number.
#[derive(Debug, Clone, Copy, PartialEq, Eq, Structural)]
pub struct TooShort {
    pub len: usize,
}

/// The compression of a source, from its leading bytes.
pub open spec fn compression_spec(head: Seq<u8>) -> Result<Compression, TooShort> {
    if head.len() < 2 {
        Err(TooShort { len: head.len() as usize })
    } else if head[0] == GZIP_MAGIC_0 && head[1] == GZIP_MAGIC_1 {
        Ok(Compression::Gzip)
    } else {
        Ok(Compression::Plain)
    }
}

/// Classifies a source by its leading bytes (at least the first two of it, or all
/// of it when it is shorter): gzip exactly when they start with 0x1f, 0x8b.
pub fn detect_compression(head: &[u8]) -> (r: Result<Compression, TooShort>)
    ensures
        r == compression_spec(head@),
{
    if head.len() < 2 {
        Err(TooShort { len: head.len() })
    } else if head[0] == GZIP_MAGIC_0 && head[1] == GZIP_MAGIC_1 {
        Ok(Compression::Gzip)
    } else {
        Ok(Compression::Plain)
    }
}

/// The bytes of each missing-value token.
pub open spec fn token_bytes(tokens: Seq<&str>) -> Seq<Seq<u8>> {
    tokens.map_values(|t: &str| t.spec_bytes())
}

/// The decoding of one field: `Some(None)` when its text is one of the
/// missing-value tokens, `Some(Some(v))` when it parses to `v`, and `None` (a
/// decode error) otherwise.
pub open spec fn decode_spec(field: Seq<u8>, tokens: Seq<Seq<u8>>) -> Option<Option<int>> {
    if tokens.contains(field) {
        Some(None)
    } else {
        match parse_fixed_spec(field) {
            Some(v) => Some(Some(v)),
            None => None,
        }
    }
}

pub open spec fn value_of(v: Option<i64>) -> Option<int> {
    match v {
        Some(x) => Some(x as int),
        None => None,
    }
}

/// A field whose text is neither a missing-value token nor a number.
#[derive(Debug, Clone, PartialEq, Eq)]
pub struct DecodeError {
    /// The text as it stood in the field.
    pub text: String,
}

fn bytes_equal(a: &[u8], b: &[u8]) -> (r: bool)
    ensures
        r == (a@ == b@),
{
    if a.len() != b.len() {
        return false;
    }
    let mut i: usize = 0;
    while i < a.len()
        invariant
            i <= a@.len(),
            a@.len() == b@.len(),
            forall|j: int| 0 <= j < i ==> a@[j] == b@[j],
        decreases a@.len() - i,
    {
        if a[i] != b[i] {
            return false;
        }
        i = i + 1;
    }
    assert(a@ =~= b@);
    true
}

fn is_missing(field: &[u8], missing_chars: &[&str]) -> (r: bool)
    ensures
        r == token_bytes(missing_chars@).contains(field@),
{
    let mut i: usize = 0;
    while i < missing_chars.len()
        invariant
            i <= missing_chars@.len(),
            forall|j: int| 0 <= j < i ==> missing_chars@[j].spec_bytes() != field@,
        decreases missing_chars@.len() - i,
    {
        if bytes_equal(missing_chars[i].as_bytes(), field) {
            assert(token_bytes(missing_chars@)[i as int] == field@);
            return true;
        }
        i = i + 1;
    }
    assert(!token_bytes(missing_chars@).contains(field@)) by {
        if token_bytes(missing_chars@).contains(field@) {
            let j = choose|j: int|
                0 <= j < token_bytes(missing_chars@).len() && token_bytes(missing_chars@)[j]
                    == field@;
            assert(missing_chars@[j].spec_bytes() == field@);
        }
    }
    false
}

/// Decodes one field: absent when its text is exactly one of `missing_chars`
/// (whether or not it would parse), else the fixed-point number it spells, else
/// an error that keeps the text.
pub fn deserialize_option_generic(field: &str, missing_chars: &[&str]) -> (r: Result<
    Option<i64>,
    DecodeError,
>)
    ensures
        match r {
            Ok(v) => decode_spec(field.spec_bytes(), token_bytes(missing_chars@)) == Some(
                value_of(v),
            ),
            Err(e) => decode_spec(field.spec_bytes(), token_bytes(missing_chars@)) is None
                && e.text@ == field@,
        },
{
    let bytes = field.as_bytes();
    if is_missing(bytes, missing_chars) {
        Ok(None)
    } else {
        match parse_fixed(bytes) {
            Some(v) => Ok(Some(v)),
            None => Err(DecodeError { text: field.to_owned() }),
        }
    }
}

/// A field whose text is a missing-value token decodes to absent, whether or
/// not that text would also parse as a number.
pub proof fn lemma_missing_token_is_absent(field: Seq<u8>, tokens: Seq<Seq<u8>>)
    requires
        tokens.contains(field),
    ensures
        decode_spec(field, tokens) == Some(None::<int>),
{
}

/// Why a row could not be decoded.
#[derive(Debug, Clone, PartialEq, Eq)]
pub enum RecordError {
    /// The row does not have the expected number of columns.
    ColumnCount { row: usize, expected: usize, found: usize },
    /// The value column of the row holds text that does not decode.
    Decode { row: usize, column: usize, text: String },
}

/// A single-pass decoder of the rows of a tab-separated source, in order: each
/// row must have `columns` fields, and the field at `value_column` (from zero)
/// is decoded against the missing-value tokens.
pub struct TsvRecordIterator<'a> {
    pub missing_chars: &'a [&'a str],
    pub columns: usize,
    pub value_column: usize,
    /// How many rows have been decoded so far.
    pub row: usize,
}

/// What decoding a row yields: the value of its value column, or the error and
/// its place.
pub open spec fn row_spec(
    fields: Seq<&str>,
    tokens: Seq<Seq<u8>>,
    columns: usize,
    value_column: usize,
    row: usize,
) -> Result<Option<int>, (usize, usize, usize, Seq<char>)> {
    if fields.len() != columns || value_column >= fields.len() {
        Err((row, columns, fields.len() as usize, Seq::empty()))
    } else {
        match decode_spec(fields[value_column as int].spec_bytes(), tokens) {
            Some(v) => Ok(v),
            None => Err((row, value_column, 0, fields[value_column as int]@)),
        }
    }
}

impl RecordError {
    /// The error as its row, the expected column count or the column, the
    /// found column count (zero for a decode error), and the text.
    pub open spec fn parts(&self) -> (usize, usize, usize, Seq<char>) {
        match self {
            RecordError::ColumnCount { row, expected, found } => (*row, *expected, *found, Seq::empty()),
            RecordError::Decode { row, column, text } => (*row, *column, 0, text@),
        }
    }

    pub open spec fn is_column_count(&self) -> bool {
        self is ColumnCount
    }
}

impl<'a> TsvRecordIterator<'a> {
    /// A decoder at the first row.
    pub fn new(missing_chars: &'a [&'a str], columns: usize, value_column: usize) -> (r: Self)
        ensures
            r.missing_chars == missing_chars,
            r.columns == columns,
            r.value_column == value_column,
            r.row == 0,
    {
        TsvRecordIterator { missing_chars, columns, value_column, row: 0 }
    }

    /// Decodes the next row, given as its fields. A row with the wrong number
    /// of columns is a structural error; a value that does not decode is a
    /// decode error that names the row, the column and the text. Either way the
    /// decoder moves on to the next row.
    pub fn next_record(&mut self, fields: &[&str]) -> (r: Result<Option<i64>, RecordError>)
        ensures
            final(self).missing_chars == old(self).missing_chars,
            final(self).columns == old(self).columns,
            final(self).value_column == old(self).value_column,
            final(self).row == if old(self).row < usize::MAX {
                old(self).row + 1
            } else {
                old(self).row as int
            },
            match r {
                Ok(v) => row_spec(
                    fields@,
                    token_bytes(old(self).missing_chars@),
                    old(self).columns,
                    old(self).value_column,
                    old(self).row,
                ) == Ok::<Option<int>, (usize, usize, usize, Seq<char>)>(value_of(v)),
                Err(e) => row_spec(
                    fields@,
                    token_bytes(old(self).missing_chars@),
                    old(self).columns,
                    old(self).value_column,
                    old(self).row,
                ) == Err::<Option<int>, (usize, usize, usize, Seq<char>)>(e.parts()) && (
                e.is_column_count() <==> (fields@.len() != old(self).columns || old(
                    self,
                ).value_column >= fields@.len())),
            },
    {
        let row = self.row;
        if self.row < usize::MAX {
            self.row = self.row + 1;
        }
        if fields.len() != self.columns || self.value_column >= fields.len() {
            return Err(
                RecordError::ColumnCount { row, expected: self.columns, found: fields.len() },
            );
        }
        let field = fields[self.value_column];
        match deserialize_option_generic(field, self.missing_chars) {
            Ok(v) => Ok(v),
            Err(e) => Err(RecordError::Decode { row, column: self.value_column, text: e.text }),
        }
    }
}

} // verus!
