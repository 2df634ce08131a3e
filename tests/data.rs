use fcs::data::{decode_words, data_layout, DataError, WordOrder};
use fcs::text::Text;

fn text(mode: &str, data_type: &str, byte_order: &str) -> Text {
    let mut text = Text::new('/');
    text.insert("$MODE".into(), mode.into());
    text.insert("$DATATYPE".into(), data_type.into());
    text.insert("$BYTEORD".into(), byte_order.into());
    text
}

fn floats(words: Vec<u32>) -> Vec<f32> {
    words.into_iter().map(f32::from_bits).collect()
}

fn le_bytes() -> Vec<u8> {
    let mut bytes = 1.0f32.to_le_bytes().to_vec();
    bytes.extend_from_slice(&2.0f32.to_le_bytes());
    bytes
}

#[test]
fn data_little_endian_floats() {
    let words = decode_words(&text("L", "F", "1,2,3,4"), &le_bytes()).unwrap();
    assert_eq!(floats(words), vec![1.0, 2.0]);
}

#[test]
fn data_big_endian_floats() {
    let mut bytes = 1.0f32.to_be_bytes().to_vec();
    bytes.extend_from_slice(&(-2.5f32).to_be_bytes());
    let words = decode_words(&text("L", "F", "4,3,2,1"), &bytes).unwrap();
    assert_eq!(floats(words), vec![1.0, -2.5]);
}

#[test]
fn data_word_values() {
    let bytes = [1u8, 2, 3, 4];
    assert_eq!(
        decode_words(&text("L", "F", "1,2,3,4"), &bytes).unwrap(),
        vec![0x04030201]
    );
    assert_eq!(
        decode_words(&text("L", "F", "4,3,2,1"), &bytes).unwrap(),
        vec![0x01020304]
    );
}

#[test]
fn data_unsupported_mode() {
    assert_eq!(
        decode_words(&text("H", "F", "1,2,3,4"), &le_bytes()),
        Err(DataError::UnsupportedMode)
    );
}

#[test]
fn data_unsupported_byte_order() {
    assert_eq!(
        decode_words(&text("L", "F", "2,1,4,3"), &le_bytes()),
        Err(DataError::UnsupportedByteOrder)
    );
}

#[test]
fn data_unsupported_data_type() {
    assert_eq!(
        decode_words(&text("L", "I", "1,2,3,4"), &le_bytes()),
        Err(DataError::UnsupportedDataType)
    );
}

#[test]
fn data_mode_checked_first() {
    assert_eq!(
        decode_words(&text("H", "I", "2,1,4,3"), &le_bytes()),
        Err(DataError::UnsupportedMode)
    );
}

#[test]
fn data_missing_keys() {
    let empty = Text::new(',');
    assert_eq!(data_layout(&empty), Err(DataError::UnsupportedMode));
    let mut no_order = Text::new(',');
    no_order.insert("$MODE".into(), "L".into());
    no_order.insert("$DATATYPE".into(), "F".into());
    assert_eq!(data_layout(&no_order), Err(DataError::UnsupportedByteOrder));
    no_order.insert("$BYTEORD".into(), "4,3,2,1".into());
    assert_eq!(data_layout(&no_order), Ok(WordOrder::Big));
}

#[test]
fn data_trailing_bytes_dropped() {
    let mut bytes = le_bytes();
    bytes.extend_from_slice(&[9, 9, 9]);
    let words = decode_words(&text("L", "F", "1,2,3,4"), &bytes).unwrap();
    assert_eq!(floats(words), vec![1.0, 2.0]);
}

#[test]
fn data_empty_segment() {
    let words = decode_words(&text("L", "F", "1,2,3,4"), &[1, 2, 3]).unwrap();
    assert!(words.is_empty());
}
