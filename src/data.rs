//! The data segment: 32-bit words in list mode, in the byte order that the text
//! segment declares.
use byteorder::{BigEndian, ByteOrder, LittleEndian};
use vstd::prelude::*;

use crate::text::Text;

verus! {

/// Why a data segment cannot be decoded.
#[derive(Debug, Clone, Copy, PartialEq, Eq, Structural)]
pub enum DataError {
    /// `$MODE` is not list mode (`L`).
    UnsupportedMode,
    /// `$BYTEORD` is neither `1,2,3,4` nor `4,3,2,1`.
    UnsupportedByteOrder,
    /// `$DATATYPE` is not 32-bit float (`F`).
    UnsupportedDataType,
    /// The data could not be read in whole words.
    BadRead,
}

/// The order of the bytes in each word.
#[derive(Debug, Clone, Copy, PartialEq, Eq, Structural)]
pub enum WordOrder {
    /// `$BYTEORD` `1,2,3,4`: least significant byte first.
    Little,
    /// `$BYTEORD` `4,3,2,1`: most significant byte first.
    Big,
}

/// Whether the mapping gives `key` the value `v`.
pub open spec fn has_value(m: Map<Seq<char>, Seq<char>>, key: Seq<char>, v: Seq<char>) -> bool {
    m.contains_key(key) && m[key] == v
}

/// The word order that the text's keys declare, or why they declare none that can
/// be decoded. Mode is checked first, then data type, then byte order.
pub open spec fn layout(m: Map<Seq<char>, Seq<char>>) -> Result<WordOrder, DataError> {
    if !has_value(m, "$MODE"@, "L"@) {
        Err(DataError::UnsupportedMode)
    } else if !has_value(m, "$DATATYPE"@, "F"@) {
        Err(DataError::UnsupportedDataType)
    } else if has_value(m, "$BYTEORD"@, "1,2,3,4"@) {
        Ok(WordOrder::Little)
    } else if has_value(m, "$BYTEORD"@, "4,3,2,1"@) {
        Ok(WordOrder::Big)
    } else {
        Err(DataError::UnsupportedByteOrder)
    }
}

/// Four bytes read least significant first.
pub open spec fn le_value(b: Seq<u8>) -> int {
    b[0] + 256 * b[1] + 65536 * b[2] + 16777216 * b[3]
}

/// Four bytes read most significant first.
pub open spec fn be_value(b: Seq<u8>) -> int {
    b[3] + 256 * b[2] + 65536 * b[1] + 16777216 * b[0]
}

/// Word `i` of `b` in the given order.
pub open spec fn word(b: Seq<u8>, i: int, order: WordOrder) -> int {
    let w = b.subrange(4 * i, 4 * i + 4);
    match order {
        WordOrder::Little => le_value(w),
        WordOrder::Big => be_value(w),
    }
}

/// Relies on `byteorder::LittleEndian::read_u32`: the first four bytes, least
/// significant first.
#[verifier::external_body]
fn read_u32_le(b: &[u8]) -> (r: u32)
    requires
        b@.len() >= 4,
    ensures
        r as int == le_value(b@),
{
    LittleEndian::read_u32(b)
}

/// Relies on `byteorder::BigEndian::read_u32`: the first four bytes, most significant
/// first.
#[verifier::external_body]
fn read_u32_be(b: &[u8]) -> (r: u32)
    requires
        b@.len() >= 4,
    ensures
        r as int == be_value(b@),
{
    BigEndian::read_u32(b)
}

fn str_eq(a: &str, b: &str) -> (r: bool)
    ensures
        r == (a@ == b@),
{
    a.to_owned() == b.to_owned()
}

/// Whether `text` gives `key` the value `v`.
fn text_has(text: &Text, key: &str, v: &str) -> (r: bool)
    requires
        text.wf(),
    ensures
        r == has_value(text.map(), key@, v@),
{
    match text.get(key) {
        Some(s) => str_eq(s.as_str(), v),
        None => false,
    }
}

/// The word order that `text` declares for the data segment.
pub fn data_layout(text: &Text) -> (r: Result<WordOrder, DataError>)
    requires
        text.wf(),
    ensures
        r == layout(text.map()),
{
    if !text_has(text, "$MODE", "L") {
        Err(DataError::UnsupportedMode)
    } else if !text_has(text, "$DATATYPE", "F") {
        Err(DataError::UnsupportedDataType)
    } else if text_has(text, "$BYTEORD", "1,2,3,4") {
        Ok(WordOrder::Little)
    } else if text_has(text, "$BYTEORD", "4,3,2,1") {
        Ok(WordOrder::Big)
    } else {
        Err(DataError::UnsupportedByteOrder)
    }
}

/// The whole words of `data` in the given order; one to three trailing bytes are
/// dropped.
pub fn read_words(data: &[u8], order: WordOrder) -> (r: Vec<u32>)
    ensures
        r@.len() == data@.len() / 4,
        forall|i: int| 0 <= i < r@.len() ==> r@[i] as int == #[trigger] word(data@, i, order),
{
    let mut r: Vec<u32> = Vec::new();
    let mut at: usize = 0;
    while data.len() - at >= 4
        invariant
            at == 4 * r@.len(),
            at <= data@.len(),
            forall|k: int| 0 <= k < r@.len() ==> r@[k] as int == #[trigger] word(data@, k, order),
        decreases data@.len() - at,
    {
        let w = &data[at..at + 4];
        let v = match order {
            WordOrder::Little => read_u32_le(w),
            WordOrder::Big => read_u32_be(w),
        };
        r.push(v);
        at = at + 4;
    }
    r
}

/// Decodes the data segment `data` as `text` describes it: the bit patterns of its
/// 32-bit float values, in order.
pub fn decode_words(text: &Text, data: &[u8]) -> (r: Result<Vec<u32>, DataError>)
    requires
        text.wf(),
    ensures
        match layout(text.map()) {
            Ok(order) => r is Ok && r->Ok_0@.len() == data@.len() / 4 && forall|i: int|
                0 <= i < data@.len() / 4 ==> r->Ok_0@[i] as int == #[trigger] word(data@, i, order),
            Err(e) => r is Err && r->Err_0 == e,
        },
{
    match data_layout(text) {
        Ok(order) => Ok(read_words(data, order)),
        Err(e) => Err(e),
    }
}

} // verus!
