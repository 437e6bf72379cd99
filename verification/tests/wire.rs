//! Wire-level tests: the cursor, fixed-width primitives, the structural
//! record codec, enumeration tags, and the plot collections.

use trilogy_save::cursor::{write_i32, write_u32, SaveCursor};
use trilogy_save::error::DecodeError;
use trilogy_save::plot::{decode_bool_table, encode_bool_table, BoolTable, SparseTable};
use trilogy_save::record::{
    decode_codex, decode_codex_page, decode_enum_tag, encode_codex, encode_enum_tag, PlotCodex,
    PlotCodexPage,
};

#[test]
fn u32_little_endian_exact_bytes() {
    let mut out: Vec<u8> = Vec::new();
    write_u32(&mut out, 0x01020304);
    assert_eq!(out, vec![0x04, 0x03, 0x02, 0x01]);
}

#[test]
fn i32_negative_round_trip() {
    let mut out: Vec<u8> = Vec::new();
    write_i32(&mut out, -3);
    assert_eq!(out, vec![0xfd, 0xff, 0xff, 0xff]);
    let mut cursor = SaveCursor::new(out);
    assert_eq!(cursor.read_i32().unwrap(), -3);
}

#[test]
fn read_advances_by_exactly_what_it_consumed() {
    let mut cursor = SaveCursor::new(vec![1, 2, 3, 4, 5]);
    assert_eq!(cursor.position(), 0);
    assert_eq!(cursor.read_u8().unwrap(), 1);
    assert_eq!(cursor.position(), 1);
    assert_eq!(cursor.read_u32().unwrap(), 0x05040302);
    assert_eq!(cursor.position(), 5);
}

#[test]
fn read_past_end_is_out_of_bounds() {
    let mut cursor = SaveCursor::new(vec![1, 2]);
    assert_eq!(cursor.read_u32(), Err(DecodeError::OutOfBounds));
    // A failed read leaves the cursor where it was.
    assert_eq!(cursor.position(), 0);
    assert_eq!(cursor.read_u8().unwrap(), 1);
}

#[test]
fn bool_word_strict() {
    let mut cursor = SaveCursor::new(vec![1, 0, 0, 0, 0, 0, 0, 0, 2, 0, 0, 0]);
    assert_eq!(cursor.read_bool_word().unwrap(), true);
    assert_eq!(cursor.read_bool_word().unwrap(), false);
    assert_eq!(cursor.read_bool_word(), Err(DecodeError::Corrupt));
}

#[test]
fn length_prefixed_block_round_trip() {
    let mut cursor = SaveCursor::new(vec![3, 0, 0, 0, b'a', b'b', b'c', 9]);
    assert_eq!(cursor.read_block().unwrap(), b"abc".to_vec());
    assert_eq!(cursor.position(), 7);
}

#[test]
fn error_descriptions() {
    assert_eq!(
        DecodeError::OutOfBounds.describe(),
        "read past the end of the buffer"
    );
    assert_eq!(DecodeError::Corrupt.describe(), "corrupt or mismatched save data");
    assert_eq!(DecodeError::UnknownEnumTag.describe(), "unknown enumeration tag");
}

#[test]
fn codex_record_fields_in_declared_order() {
    // page first, then is_new as a whole word: field order is wire format.
    let mut cursor = SaveCursor::new(vec![7, 0, 0, 0, 1, 0, 0, 0]);
    let p = decode_codex_page(&mut cursor).unwrap();
    assert_eq!(p, PlotCodexPage { page: 7, is_new: true });
}

#[test]
fn codex_round_trip() {
    let c = PlotCodex {
        pages: vec![
            PlotCodexPage { page: 1, is_new: false },
            PlotCodexPage { page: -2, is_new: true },
        ],
    };
    let mut out: Vec<u8> = Vec::new();
    encode_codex(&c, &mut out).unwrap();
    let mut cursor = SaveCursor::new(out);
    let back = decode_codex(&mut cursor).unwrap();
    assert_eq!(back, c);
}

#[test]
fn enum_tag_is_ordinal_byte() {
    let mut cursor = SaveCursor::new(vec![2]);
    assert_eq!(decode_enum_tag(&mut cursor, 3).unwrap(), 2);
}

#[test]
fn enum_tag_unknown_is_fatal() {
    let mut cursor = SaveCursor::new(vec![5]);
    assert_eq!(decode_enum_tag(&mut cursor, 3), Err(DecodeError::UnknownEnumTag));
    assert_eq!(cursor.position(), 0);
    let mut empty = SaveCursor::new(vec![]);
    assert_eq!(decode_enum_tag(&mut empty, 3), Err(DecodeError::OutOfBounds));
}

#[test]
fn enum_tag_encode_round_trip() {
    let mut out: Vec<u8> = Vec::new();
    encode_enum_tag(&mut out, 1, 4);
    let mut cursor = SaveCursor::new(out);
    assert_eq!(decode_enum_tag(&mut cursor, 4).unwrap(), 1);
}

#[test]
fn bool_table_bits_are_lsb_first() {
    // 0b...0110 -> bit 0 false, bits 1 and 2 true.
    let t = BoolTable::from_words(vec![0b110]);
    assert_eq!(t.len(), 32);
    assert_eq!(t.get(0), Some(false));
    assert_eq!(t.get(1), Some(true));
    assert_eq!(t.get(2), Some(true));
    assert_eq!(t.get(3), Some(false));
    assert_eq!(t.get(32), None);
}

#[test]
fn bool_table_set_changes_one_bit() {
    let mut t = BoolTable::from_words(vec![0]);
    assert!(t.set(5, true));
    assert_eq!(t.get(5), Some(true));
    assert_eq!(t.get(4), Some(false));
    assert_eq!(t.get(6), Some(false));
    assert_eq!(t.to_words(), vec![1 << 5]);
    assert!(t.set(5, false));
    assert_eq!(t.to_words(), vec![0]);
    assert!(!t.set(32, true));
}

#[test]
fn bool_plot_round_trip() {
    // Sixty-four booleans through encode then decode come back unchanged.
    let words = vec![0xdead_beef, 0x1234_5678];
    let t = BoolTable::from_words(words.clone());
    let mut out: Vec<u8> = Vec::new();
    encode_bool_table(&t, &mut out);
    assert_eq!(out.len(), 4 + 8);
    let mut cursor = SaveCursor::new(out);
    let back = decode_bool_table(&mut cursor).unwrap();
    assert_eq!(back.to_words(), words);
    for i in 0..64 {
        assert_eq!(back.get(i), t.get(i));
    }
}

#[test]
fn sparse_table_keeps_insertion_order_and_unique_ids() {
    let mut s = SparseTable::new();
    assert!(s.insert(5, 10));
    assert!(s.insert(1000, (-3i32) as u32));
    assert_eq!(s.len(), 2);
    assert_eq!(s.entry_at(0), Some((5, 10)));
    assert_eq!(s.entry_at(1), Some((1000, (-3i32) as u32)));
    assert_eq!(s.entry_at(2), None);
    assert_eq!(s.get(5), Some(10));
    assert_eq!(s.get(1000).map(|v| v as i32), Some(-3));
    assert_eq!(s.get(6), None);
    assert!(s.contains(1000));
    // A duplicate id is rejected and nothing changes.
    assert!(!s.insert(5, 99));
    assert_eq!(s.len(), 2);
    assert_eq!(s.get(5), Some(10));
}

#[test]
fn float_bits_survive_the_wire() {
    let bits = 3.5f32.to_bits();
    let mut out: Vec<u8> = Vec::new();
    write_u32(&mut out, bits);
    let mut cursor = SaveCursor::new(out);
    assert_eq!(f32::from_bits(cursor.read_u32().unwrap()), 3.5f32);
}
