//! File-level tests: decoding whole save buffers, round-trip fidelity,
//! reference validation, unknown-property skipping, and editing.

use trilogy_save::data::{DataProperty, StructFields};
use trilogy_save::error::DecodeError;
use trilogy_save::plot::PlotShape;
use trilogy_save::save::{decode_save, encode_save, int_value_at, set_int_at};

fn le(v: u32) -> [u8; 4] {
    v.to_le_bytes()
}

fn le_i(v: i32) -> [u8; 4] {
    v.to_le_bytes()
}

/// An empty plot section: no boolean words, no integers, no floats.
fn empty_plot(buf: &mut Vec<u8>) {
    buf.extend_from_slice(&le(0));
    buf.extend_from_slice(&le(0));
    buf.extend_from_slice(&le(0));
}

/// The buffer of scenario A: one name, one object holding a single `Int`
/// property valued `difficulty`, then the terminator.
fn combat_difficulty_save(difficulty: i32) -> Vec<u8> {
    let mut buf: Vec<u8> = Vec::new();
    buf.extend_from_slice(&le(1)); // version
    buf.extend_from_slice(&le(1)); // one name
    buf.extend_from_slice(&le(19));
    buf.extend_from_slice(b"m_nCombatDifficulty");
    buf.extend_from_slice(&le(1)); // one object
    buf.extend_from_slice(&le(0)); // its name id
    // Its Data block: Int property, then the None-tagged terminator.
    buf.extend_from_slice(&le(0)); // name_id
    buf.extend_from_slice(&le(4)); // type_tag: Int
    buf.extend_from_slice(&le(4)); // payload_size
    buf.extend_from_slice(&le_i(difficulty));
    buf.extend_from_slice(&le(0)); // terminator name_id
    buf.extend_from_slice(&le(10)); // type_tag: None
    buf.extend_from_slice(&le(0)); // empty payload
    empty_plot(&mut buf);
    buf
}

#[test]
fn round_trip_unedited_is_byte_identical() {
    let buf = combat_difficulty_save(2);
    let f = decode_save(buf.clone(), PlotShape::Dense).unwrap();
    assert_eq!(encode_save(&f), buf);
}

#[test]
fn decoding_twice_gives_equal_graphs() {
    let buf = combat_difficulty_save(2);
    let f1 = decode_save(buf.clone(), PlotShape::Dense).unwrap();
    let f2 = decode_save(buf, PlotShape::Dense).unwrap();
    assert_eq!(f1.version, f2.version);
    assert_eq!(f1.names, f2.names);
    assert_eq!(f1.objects.len(), f2.objects.len());
    for (a, b) in f1.objects.iter().zip(f2.objects.iter()) {
        assert_eq!(a.name_id, b.name_id);
        assert_eq!(a.data, b.data);
    }
    assert_eq!(f1.plot.booleans.to_words(), f2.plot.booleans.to_words());
    assert_eq!(encode_save(&f1), encode_save(&f2));
}

#[test]
fn edit_combat_difficulty_changes_only_its_payload() {
    let buf = combat_difficulty_save(2);
    let mut f = decode_save(buf.clone(), PlotShape::Dense).unwrap();
    let wanted = b"m_nCombatDifficulty".to_vec();
    let idx = f.find_property(&f.objects[0].data.properties, &wanted).unwrap();
    assert_eq!(int_value_at(&f.objects[0].data.properties, idx), Some(2));
    assert!(set_int_at(&mut f.objects[0].data.properties, idx, 4));
    let out = encode_save(&f);
    assert_eq!(out, combat_difficulty_save(4));
    // Identical except the four payload bytes, which now encode 4.
    assert_eq!(out.len(), buf.len());
    let diff: Vec<usize> = (0..buf.len()).filter(|&i| out[i] != buf[i]).collect();
    assert_eq!(diff, vec![51]);
    assert_eq!(&out[51..55], &le_i(4));
}

/// The buffer of scenario B: a property with an unrecognized tag between
/// two known properties.
fn save_with_unknown_property() -> Vec<u8> {
    let mut buf: Vec<u8> = Vec::new();
    buf.extend_from_slice(&le(1));
    buf.extend_from_slice(&le(1));
    buf.extend_from_slice(&le(1));
    buf.push(b'n');
    buf.extend_from_slice(&le(1));
    buf.extend_from_slice(&le(0));
    // Int 7
    buf.extend_from_slice(&le(0));
    buf.extend_from_slice(&le(4));
    buf.extend_from_slice(&le(4));
    buf.extend_from_slice(&le_i(7));
    // Unrecognized tag 255 with an eight-byte payload.
    buf.extend_from_slice(&le(0));
    buf.extend_from_slice(&le(255));
    buf.extend_from_slice(&le(8));
    buf.extend_from_slice(&[9, 8, 7, 6, 5, 4, 3, 2]);
    // Int 9
    buf.extend_from_slice(&le(0));
    buf.extend_from_slice(&le(4));
    buf.extend_from_slice(&le(4));
    buf.extend_from_slice(&le_i(9));
    // Terminator.
    buf.extend_from_slice(&le(0));
    buf.extend_from_slice(&le(10));
    buf.extend_from_slice(&le(0));
    empty_plot(&mut buf);
    buf
}

#[test]
fn unknown_property_is_skipped_and_what_follows_still_decodes() {
    let buf = save_with_unknown_property();
    let f = decode_save(buf.clone(), PlotShape::Dense).unwrap();
    let props = &f.objects[0].data.properties;
    assert_eq!(props.len(), 4);
    assert!(matches!(props[0], DataProperty::Int { value: 7, .. }));
    match &props[1] {
        DataProperty::Unknown { type_tag, payload, .. } => {
            assert_eq!(*type_tag, 255);
            assert_eq!(payload, &vec![9, 8, 7, 6, 5, 4, 3, 2]);
        },
        other => panic!("expected the unrecognized property to be kept, got {:?}", other),
    }
    assert!(matches!(props[2], DataProperty::Int { value: 9, .. }));
    assert!(matches!(props[3], DataProperty::NoneTag { .. }));
    // The skipped payload is carried, so the file is still byte-faithful.
    assert_eq!(encode_save(&f), buf);
}

/// The buffer of scenario C: a sparse integer plot collection with ids 5
/// and 1000.
fn sparse_plot_save() -> Vec<u8> {
    let mut buf: Vec<u8> = Vec::new();
    buf.extend_from_slice(&le(1));
    buf.extend_from_slice(&le(0)); // no names
    buf.extend_from_slice(&le(0)); // no objects
    buf.extend_from_slice(&le(0)); // no boolean words
    buf.extend_from_slice(&le(2)); // two sparse integer pairs
    buf.extend_from_slice(&le_i(5));
    buf.extend_from_slice(&le_i(10));
    buf.extend_from_slice(&le_i(1000));
    buf.extend_from_slice(&le_i(-3));
    buf.extend_from_slice(&le(0)); // no sparse float pairs
    buf
}

#[test]
fn sparse_plot_preserves_ids_and_values() {
    let buf = sparse_plot_save();
    let mut f = decode_save(buf.clone(), PlotShape::Sparse).unwrap();
    let ints = match &mut f.plot.integers {
        trilogy_save::plot::NumTable::Sparse(s) => s,
        _ => panic!("the sparse variant must decode to a sparse table"),
    };
    assert_eq!(ints.len(), 2);
    assert_eq!(ints.get(5), Some(10));
    assert_eq!(ints.get(1000).map(|v| v as i32), Some(-3));
    // A duplicate id is rejected on insert.
    assert!(!ints.insert(5, 77));
    assert_eq!(ints.get(5), Some(10));
    assert_eq!(encode_save(&f), buf);
}

#[test]
fn duplicate_sparse_id_in_the_file_is_corrupt() {
    let mut buf: Vec<u8> = Vec::new();
    buf.extend_from_slice(&le(1));
    buf.extend_from_slice(&le(0));
    buf.extend_from_slice(&le(0));
    buf.extend_from_slice(&le(0));
    buf.extend_from_slice(&le(2));
    buf.extend_from_slice(&le_i(5));
    buf.extend_from_slice(&le_i(10));
    buf.extend_from_slice(&le_i(5));
    buf.extend_from_slice(&le_i(11));
    buf.extend_from_slice(&le(0));
    assert!(matches!(decode_save(buf, PlotShape::Sparse), Err(DecodeError::Corrupt)));
}

#[test]
fn missing_terminator_is_out_of_bounds_not_a_hang() {
    let mut buf: Vec<u8> = Vec::new();
    buf.extend_from_slice(&le(1));
    buf.extend_from_slice(&le(1));
    buf.extend_from_slice(&le(1));
    buf.push(b'n');
    buf.extend_from_slice(&le(1));
    buf.extend_from_slice(&le(0));
    // One Int property and then the buffer just ends: no terminator.
    buf.extend_from_slice(&le(0));
    buf.extend_from_slice(&le(4));
    buf.extend_from_slice(&le(4));
    buf.extend_from_slice(&le_i(7));
    assert!(matches!(decode_save(buf, PlotShape::Dense), Err(DecodeError::OutOfBounds)));
}

#[test]
fn name_id_outside_the_name_table_is_corrupt() {
    let mut buf: Vec<u8> = Vec::new();
    buf.extend_from_slice(&le(1));
    buf.extend_from_slice(&le(1));
    buf.extend_from_slice(&le(1));
    buf.push(b'n');
    buf.extend_from_slice(&le(1));
    buf.extend_from_slice(&le(0));
    buf.extend_from_slice(&le(7)); // name_id 7, but the table holds one name
    buf.extend_from_slice(&le(4));
    buf.extend_from_slice(&le(4));
    buf.extend_from_slice(&le_i(7));
    assert!(matches!(decode_save(buf, PlotShape::Dense), Err(DecodeError::Corrupt)));
}

fn object_ref_save(object_id: u32) -> Vec<u8> {
    let mut buf: Vec<u8> = Vec::new();
    buf.extend_from_slice(&le(1));
    buf.extend_from_slice(&le(1));
    buf.extend_from_slice(&le(1));
    buf.push(b'n');
    buf.extend_from_slice(&le(1));
    buf.extend_from_slice(&le(0));
    buf.extend_from_slice(&le(0));
    buf.extend_from_slice(&le(6)); // type_tag: Object
    buf.extend_from_slice(&le(4));
    buf.extend_from_slice(&le(object_id));
    buf.extend_from_slice(&le(0));
    buf.extend_from_slice(&le(10));
    buf.extend_from_slice(&le(0));
    empty_plot(&mut buf);
    buf
}

#[test]
fn object_reference_zero_or_in_table_is_accepted() {
    // Zero means "no reference"; one points at the only object.
    for id in [0u32, 1u32] {
        let f = decode_save(object_ref_save(id), PlotShape::Dense).unwrap();
        let oid = f
            .find_object_id(&f.objects[0].data.properties, &b"n".to_vec())
            .unwrap();
        assert_eq!(oid, id);
        if id == 0 {
            assert!(f.object_data(oid).is_none());
        } else {
            assert_eq!(f.object_data(oid).unwrap(), &f.objects[0].data);
        }
    }
}

#[test]
fn object_reference_past_the_table_is_corrupt() {
    assert!(matches!(decode_save(object_ref_save(5), PlotShape::Dense), Err(DecodeError::Corrupt)));
}

#[test]
fn payload_size_mismatch_is_corrupt() {
    let mut buf: Vec<u8> = Vec::new();
    buf.extend_from_slice(&le(1));
    buf.extend_from_slice(&le(1));
    buf.extend_from_slice(&le(1));
    buf.push(b'n');
    buf.extend_from_slice(&le(1));
    buf.extend_from_slice(&le(0));
    buf.extend_from_slice(&le(0));
    buf.extend_from_slice(&le(4)); // Int
    buf.extend_from_slice(&le(8)); // but its payload claims eight bytes
    buf.extend_from_slice(&le_i(7));
    buf.extend_from_slice(&le(0));
    buf.extend_from_slice(&le(10));
    buf.extend_from_slice(&le(0));
    empty_plot(&mut buf);
    assert!(matches!(decode_save(buf, PlotShape::Dense), Err(DecodeError::Corrupt)));
}

#[test]
fn trailing_bytes_are_corrupt() {
    let mut buf = combat_difficulty_save(2);
    buf.push(0);
    assert!(matches!(decode_save(buf, PlotShape::Dense), Err(DecodeError::Corrupt)));
}

#[test]
fn empty_save_round_trip() {
    let mut buf: Vec<u8> = Vec::new();
    buf.extend_from_slice(&le(42));
    buf.extend_from_slice(&le(0));
    buf.extend_from_slice(&le(0));
    empty_plot(&mut buf);
    let f = decode_save(buf.clone(), PlotShape::Dense).unwrap();
    assert_eq!(f.version, 42);
    assert!(f.names.is_empty());
    assert!(f.objects.is_empty());
    assert_eq!(encode_save(&f), buf);
}

/// A save holding every modeled property kind, nested structs and arrays
/// included, all round-tripping byte-for-byte.
fn kitchen_sink_save() -> Vec<u8> {
    let mut buf: Vec<u8> = Vec::new();
    buf.extend_from_slice(&le(3));
    buf.extend_from_slice(&le(2));
    buf.extend_from_slice(&le(1));
    buf.push(b'a');
    buf.extend_from_slice(&le(1));
    buf.push(b'b');
    buf.extend_from_slice(&le(1));
    buf.extend_from_slice(&le(1));
    // Bool
    buf.extend_from_slice(&le(0));
    buf.extend_from_slice(&le(1));
    buf.extend_from_slice(&le(4));
    buf.extend_from_slice(&le(1));
    // Byte
    buf.extend_from_slice(&le(1));
    buf.extend_from_slice(&le(2));
    buf.extend_from_slice(&le(1));
    buf.push(0xab);
    // Float (bit pattern of 3.5)
    buf.extend_from_slice(&le(0));
    buf.extend_from_slice(&le(3));
    buf.extend_from_slice(&le(4));
    buf.extend_from_slice(&le(3.5f32.to_bits()));
    // Name reference
    buf.extend_from_slice(&le(0));
    buf.extend_from_slice(&le(5));
    buf.extend_from_slice(&le(4));
    buf.extend_from_slice(&le(1));
    // Str "hi"
    buf.extend_from_slice(&le(0));
    buf.extend_from_slice(&le(7));
    buf.extend_from_slice(&le(6));
    buf.extend_from_slice(&le(2));
    buf.extend_from_slice(b"hi");
    // StringRef
    buf.extend_from_slice(&le(1));
    buf.extend_from_slice(&le(8));
    buf.extend_from_slice(&le(4));
    buf.extend_from_slice(&le_i(-77));
    // Struct holding one Int, with its own terminator
    buf.extend_from_slice(&le(0));
    buf.extend_from_slice(&le(9));
    buf.extend_from_slice(&le(4 + 12 + 4 + 12));
    buf.extend_from_slice(&le(1)); // struct name id
    buf.extend_from_slice(&le(1));
    buf.extend_from_slice(&le(4));
    buf.extend_from_slice(&le(4));
    buf.extend_from_slice(&le_i(5));
    buf.extend_from_slice(&le(0));
    buf.extend_from_slice(&le(10));
    buf.extend_from_slice(&le(0));
    // Array of one Data block holding just a terminator
    buf.extend_from_slice(&le(0));
    buf.extend_from_slice(&le(0));
    buf.extend_from_slice(&le(4 + 12));
    buf.extend_from_slice(&le(1)); // element count
    buf.extend_from_slice(&le(0));
    buf.extend_from_slice(&le(10));
    buf.extend_from_slice(&le(0));
    // Terminator of the object's own block
    buf.extend_from_slice(&le(1));
    buf.extend_from_slice(&le(10));
    buf.extend_from_slice(&le(0));
    // Plot: one boolean word, one dense integer, one dense float.
    buf.extend_from_slice(&le(1));
    buf.extend_from_slice(&le(0b101));
    buf.extend_from_slice(&le(1));
    buf.extend_from_slice(&le_i(-1));
    buf.extend_from_slice(&le(1));
    buf.extend_from_slice(&le(1.25f32.to_bits()));
    buf
}

#[test]
fn every_property_kind_round_trips() {
    let buf = kitchen_sink_save();
    let f = decode_save(buf.clone(), PlotShape::Dense).unwrap();
    let props = &f.objects[0].data.properties;
    assert_eq!(props.len(), 9);
    assert!(matches!(props[0], DataProperty::Bool { value: true, .. }));
    assert!(matches!(props[1], DataProperty::Byte { value: 0xab, .. }));
    match &props[2] {
        DataProperty::Float { bits, .. } => assert_eq!(f32::from_bits(*bits), 3.5),
        other => panic!("expected a float property, got {:?}", other),
    }
    assert!(matches!(props[3], DataProperty::Name { value_name_id: 1, .. }));
    match &props[4] {
        DataProperty::Str { value, .. } => assert_eq!(value, &b"hi".to_vec()),
        other => panic!("expected a string property, got {:?}", other),
    }
    assert!(matches!(props[5], DataProperty::StringRef { string_id: -77, .. }));
    match &props[6] {
        DataProperty::Struct { struct_name_id, fields, .. } => {
            assert_eq!(*struct_name_id, 1);
            match fields {
                StructFields::Properties(nested) => {
                    assert!(matches!(nested[0], DataProperty::Int { value: 5, .. }));
                    assert!(matches!(nested[1], DataProperty::NoneTag { .. }));
                },
                other => panic!("expected a nested property list, got {:?}", other),
            }
        },
        other => panic!("expected a struct property, got {:?}", other),
    }
    match &props[7] {
        DataProperty::Array { elements, .. } => {
            assert_eq!(elements.len(), 1);
            assert_eq!(elements[0].properties.len(), 1);
        },
        other => panic!("expected an array property, got {:?}", other),
    }
    assert_eq!(f.plot.booleans.to_words(), vec![0b101]);
    assert_eq!(encode_save(&f), buf);
}

#[test]
fn name_lookup_resolves_through_the_table() {
    let buf = combat_difficulty_save(2);
    let f = decode_save(buf, PlotShape::Dense).unwrap();
    assert_eq!(f.name_at(0).unwrap(), &b"m_nCombatDifficulty".to_vec());
    assert!(f.name_at(1).is_none());
}

#[test]
fn empty_buffer_is_out_of_bounds() {
    assert!(matches!(
        decode_save(Vec::new(), PlotShape::Dense),
        Err(DecodeError::OutOfBounds)
    ));
}

#[test]
fn plot_booleans_edit_in_place() {
    let mut buf: Vec<u8> = Vec::new();
    buf.extend_from_slice(&le(1));
    buf.extend_from_slice(&le(0));
    buf.extend_from_slice(&le(0));
    buf.extend_from_slice(&le(1)); // one boolean word
    buf.extend_from_slice(&le(0));
    buf.extend_from_slice(&le(0));
    buf.extend_from_slice(&le(0));
    let mut f = decode_save(buf.clone(), PlotShape::Dense).unwrap();
    assert_eq!(f.plot.booleans.get(7), Some(false));
    assert!(f.plot.booleans.set(7, true));
    assert_eq!(f.plot.booleans.get(7), Some(true));
    let out = encode_save(&f);
    // Only the byte holding bit seven changed.
    let diff: Vec<usize> = (0..buf.len()).filter(|&i| out[i] != buf[i]).collect();
    assert_eq!(diff, vec![16]);
    assert_eq!(out[16], 1 << 7);
}

#[test]
fn sparse_floats_carry_bit_patterns() {
    let mut buf: Vec<u8> = Vec::new();
    buf.extend_from_slice(&le(1));
    buf.extend_from_slice(&le(0));
    buf.extend_from_slice(&le(0));
    buf.extend_from_slice(&le(0));
    buf.extend_from_slice(&le(0)); // no sparse integers
    buf.extend_from_slice(&le(1)); // one sparse float pair
    buf.extend_from_slice(&le_i(12));
    buf.extend_from_slice(&le(2.5f32.to_bits()));
    let f = decode_save(buf.clone(), PlotShape::Sparse).unwrap();
    let floats = match &f.plot.floats {
        trilogy_save::plot::NumTable::Sparse(s) => s,
        _ => panic!("the sparse variant must decode to a sparse table"),
    };
    assert_eq!(floats.get(12).map(f32::from_bits), Some(2.5f32));
    assert_eq!(encode_save(&f), buf);
}

#[test]
fn linear_color_struct_uses_the_fixed_layout() {
    let mut buf: Vec<u8> = Vec::new();
    buf.extend_from_slice(&le(1));
    buf.extend_from_slice(&le(2)); // two names
    buf.extend_from_slice(&le(1));
    buf.push(b'c');
    buf.extend_from_slice(&le(11));
    buf.extend_from_slice(b"LinearColor");
    buf.extend_from_slice(&le(1)); // one object
    buf.extend_from_slice(&le(0));
    // A struct property whose resolved name is LinearColor: fixed layout of
    // four 32-bit float words, no nested terminator.
    buf.extend_from_slice(&le(0)); // property name_id: "c"
    buf.extend_from_slice(&le(9)); // type_tag: Struct
    buf.extend_from_slice(&le(20)); // payload: struct name id + four words
    buf.extend_from_slice(&le(1)); // struct_name_id: "LinearColor"
    buf.extend_from_slice(&le(1.0f32.to_bits()));
    buf.extend_from_slice(&le(0.5f32.to_bits()));
    buf.extend_from_slice(&le(0.25f32.to_bits()));
    buf.extend_from_slice(&le(1.0f32.to_bits()));
    buf.extend_from_slice(&le(0)); // terminator
    buf.extend_from_slice(&le(10));
    buf.extend_from_slice(&le(0));
    empty_plot(&mut buf);
    let f = decode_save(buf.clone(), PlotShape::Dense).unwrap();
    match &f.objects[0].data.properties[0] {
        DataProperty::Struct { struct_name_id, fields, .. } => {
            assert_eq!(*struct_name_id, 1);
            match fields {
                StructFields::LinearColor { r, g, b, a } => {
                    assert_eq!(f32::from_bits(*r), 1.0);
                    assert_eq!(f32::from_bits(*g), 0.5);
                    assert_eq!(f32::from_bits(*b), 0.25);
                    assert_eq!(f32::from_bits(*a), 1.0);
                },
                other => panic!("expected the fixed linear-color layout, got {:?}", other),
            }
        },
        other => panic!("expected a struct property, got {:?}", other),
    }
    assert_eq!(encode_save(&f), buf);
}
