//! The property graph of one save file: tagged properties, the Data blocks
//! that group them, and their wire codec.
//!
//! A Data block is a run of properties, each written as a twelve-byte header
//! (`name_id`, `type_tag`, `payload_size`) followed by `payload_size` bytes
//! of payload, and closed by a single `None`-tagged property. A property
//! whose tag the engine does not recognize is kept verbatim (header plus raw
//! payload) so that the block still re-serializes byte-for-byte; a known
//! payload whose decoded length disagrees with its declared size aborts the
//! load as corrupt.
//!
//! The spec functions `ser_prop`, `ser_prop_seq`, `ser_data` and
//! `ser_data_seq` define the wire image of a decoded value; every decoder
//! ensures the bytes it consumed are that image, and every encoder ensures
//! it appends exactly that image.

use vstd::prelude::*;

use crate::cursor::{le_block, le_i32, le_u32, bool_word, write_block, write_bool_word, write_bytes, write_i32, write_u32, write_u8, SaveCursor};
use crate::error::DecodeError;

verus! {

/// One object's ordered property block, including its terminator.
#[derive(Debug, PartialEq, Eq)]
pub struct Data {
    pub properties: Vec<DataProperty>,
}

/// One named field of an object's Data block.
///
/// `NoneTag` is the `None`-tagged list terminator of the wire format.
/// `Unknown` holds a property whose type tag the engine does not model: its
/// payload is carried verbatim so that re-serialization is byte-faithful.
/// Floating-point payloads are carried as their raw 32-bit word (`bits`).
#[derive(Debug, PartialEq, Eq)]
pub enum DataProperty {
    Array { name_id: u32, elements: Vec<Data> },
    Bool { name_id: u32, value: bool },
    Byte { name_id: u32, value: u8 },
    Float { name_id: u32, bits: u32 },
    Int { name_id: u32, value: i32 },
    Name { name_id: u32, value_name_id: u32 },
    Object { name_id: u32, object_id: u32 },
    Str { name_id: u32, value: Vec<u8> },
    StringRef { name_id: u32, string_id: i32 },
    Struct { name_id: u32, struct_name_id: u32, fields: StructFields },
    NoneTag { name_id: u32 },
    Unknown { name_id: u32, type_tag: u32, payload: Vec<u8> },
}

/// What a `Struct` property carries: either a nested, terminated property
/// list, or a fixed named layout. The one fixed layout of this format is
/// the linear color, four 32-bit float words; a struct uses it exactly when
/// its resolved struct name is `LinearColor`, which is how the decoder
/// chooses between the two forms.
#[derive(Debug, PartialEq, Eq)]
pub enum StructFields {
    Properties(Vec<DataProperty>),
    LinearColor { r: u32, g: u32, b: u32, a: u32 },
}

/// The struct name that selects the fixed linear-color layout.
pub open spec fn linear_color_name() -> Seq<u8> {
    seq![76u8, 105u8, 110u8, 101u8, 97u8, 114u8, 67u8, 111u8, 108u8, 111u8, 114u8]
}

/// The name-table strings as byte sequences, which reference checks and
/// the struct-layout choice are stated over.
pub open spec fn views_of(ns: Seq<Vec<u8>>) -> Seq<Seq<u8>> {
    ns.map_values(|v: Vec<u8>| v@)
}

/// The name-table id of a property, uniform over every variant.
pub open spec fn prop_name_id(p: DataProperty) -> u32 {
    match p {
        DataProperty::Array { name_id, .. } => name_id,
        DataProperty::Bool { name_id, .. } => name_id,
        DataProperty::Byte { name_id, .. } => name_id,
        DataProperty::Float { name_id, .. } => name_id,
        DataProperty::Int { name_id, .. } => name_id,
        DataProperty::Name { name_id, .. } => name_id,
        DataProperty::Object { name_id, .. } => name_id,
        DataProperty::Str { name_id, .. } => name_id,
        DataProperty::StringRef { name_id, .. } => name_id,
        DataProperty::Struct { name_id, .. } => name_id,
        DataProperty::NoneTag { name_id } => name_id,
        DataProperty::Unknown { name_id, .. } => name_id,
    }
}

/// The type tag a property carries on the wire. Tags zero through ten name
/// the modeled variants in declared order; anything larger is unknown.
pub open spec fn prop_wire_tag(p: DataProperty) -> u32 {
    match p {
        DataProperty::Array { .. } => 0,
        DataProperty::Bool { .. } => 1,
        DataProperty::Byte { .. } => 2,
        DataProperty::Float { .. } => 3,
        DataProperty::Int { .. } => 4,
        DataProperty::Name { .. } => 5,
        DataProperty::Object { .. } => 6,
        DataProperty::Str { .. } => 7,
        DataProperty::StringRef { .. } => 8,
        DataProperty::Struct { .. } => 9,
        DataProperty::NoneTag { .. } => 10,
        DataProperty::Unknown { type_tag, .. } => type_tag,
    }
}

/// The largest type tag the engine models.
pub open spec fn last_known_tag() -> u32 {
    10
}

/// Whether a property is the `None`-tagged terminator.
pub open spec fn is_terminator(p: DataProperty) -> bool {
    match p {
        DataProperty::NoneTag { .. } => true,
        _ => false,
    }
}

/// A property list with exactly one terminator, at its end.
pub open spec fn terminated(ps: Seq<DataProperty>) -> bool {
    &&& ps.len() >= 1
    &&& is_terminator(ps.last())
    &&& forall|i: int| 0 <= i < ps.len() - 1 ==> !is_terminator(#[trigger] ps[i])
}

/// The payload bytes of one property.
pub open spec fn ser_payload(p: DataProperty) -> Seq<u8>
    decreases p, 0int,
{
    match p {
        DataProperty::Array { elements, .. } => le_u32(elements.len() as u32) + ser_data_seq(
            elements@,
        ),
        DataProperty::Bool { value, .. } => le_u32(bool_word(value)),
        DataProperty::Byte { value, .. } => seq![value],
        DataProperty::Float { bits, .. } => le_u32(bits),
        DataProperty::Int { value, .. } => le_i32(value),
        DataProperty::Name { value_name_id, .. } => le_u32(value_name_id),
        DataProperty::Object { object_id, .. } => le_u32(object_id),
        DataProperty::Str { value, .. } => le_block(value@),
        DataProperty::StringRef { string_id, .. } => le_i32(string_id),
        DataProperty::Struct { struct_name_id, fields, .. } => le_u32(struct_name_id)
            + ser_struct_fields(fields),
        DataProperty::NoneTag { .. } => Seq::empty(),
        DataProperty::Unknown { payload, .. } => payload@,
    }
}

/// The payload a struct's fields occupy after its struct name id.
pub open spec fn ser_struct_fields(f: StructFields) -> Seq<u8>
    decreases f, 2int,
{
    match f {
        StructFields::Properties(q) => ser_prop_seq(q@),
        StructFields::LinearColor { r, g, b, a } => le_u32(r) + le_u32(g) + le_u32(b) + le_u32(a),
    }
}

/// The full wire image of one property: header, then payload.
pub open spec fn ser_prop(p: DataProperty) -> Seq<u8>
    decreases p, 1int,
{
    le_u32(prop_name_id(p)) + le_u32(prop_wire_tag(p)) + le_u32(ser_payload(p).len() as u32)
        + ser_payload(p)
}

/// The wire image of a run of properties, in order.
pub open spec fn ser_prop_seq(ps: Seq<DataProperty>) -> Seq<u8>
    decreases ps, 2int,
{
    if ps.len() == 0 {
        Seq::empty()
    } else {
        ser_prop(ps[0]) + ser_prop_seq(ps.drop_first())
    }
}

/// The wire image of one Data block.
pub open spec fn ser_data(d: Data) -> Seq<u8>
    decreases d, 2int,
{
    ser_prop_seq(d.properties@)
}

/// The wire image of a run of Data blocks, in order.
pub open spec fn ser_data_seq(ds: Seq<Data>) -> Seq<u8>
    decreases ds, 3int,
{
    if ds.len() == 0 {
        Seq::empty()
    } else {
        ser_data(ds[0]) + ser_data_seq(ds.drop_first())
    }
}

/// Every count and payload of the property fits its 32-bit wire field, so
/// the property can be encoded.
pub open spec fn sizes_ok_payload(p: DataProperty) -> bool
    decreases p, 0int,
{
    match p {
        DataProperty::Array { elements, .. } => elements@.len() <= u32::MAX && sizes_ok_data_seq(
            elements@,
        ),
        DataProperty::Str { value, .. } => value@.len() <= u32::MAX,
        DataProperty::Struct { fields, .. } => match fields {
            StructFields::Properties(q) => sizes_ok_prop_seq(q@),
            StructFields::LinearColor { .. } => true,
        },
        _ => true,
    }
}

/// `sizes_ok_payload`, plus the payload itself fits its declared-size field.
pub open spec fn sizes_ok_prop(p: DataProperty) -> bool
    decreases p, 1int,
{
    sizes_ok_payload(p) && ser_payload(p).len() <= u32::MAX
}

pub open spec fn sizes_ok_prop_seq(ps: Seq<DataProperty>) -> bool
    decreases ps, 2int,
{
    forall|i: int| 0 <= i < ps.len() ==> sizes_ok_prop(#[trigger] ps[i])
}

pub open spec fn sizes_ok_data(d: Data) -> bool
    decreases d, 2int,
{
    sizes_ok_prop_seq(d.properties@)
}

pub open spec fn sizes_ok_data_seq(ds: Seq<Data>) -> bool
    decreases ds, 3int,
{
    forall|i: int| 0 <= i < ds.len() ==> sizes_ok_data(#[trigger] ds[i])
}

/// Every reference the property makes stays inside the tables: its own name,
/// a `Name` payload, and an `Object` payload (zero meaning "no reference"),
/// recursively; and every nested property list is properly terminated.
pub open spec fn refs_ok_prop(p: DataProperty, names: Seq<Seq<u8>>, objects: int) -> bool
    decreases p, 1int,
{
    &&& (prop_name_id(p) as int) < names.len()
    &&& match p {
        DataProperty::Array { elements, .. } => refs_ok_data_seq(elements@, names, objects),
        DataProperty::Name { value_name_id, .. } => (value_name_id as int) < names.len(),
        DataProperty::Object { object_id, .. } => object_id == 0 || (object_id as int) <= objects,
        DataProperty::Struct { struct_name_id, fields, .. } => (struct_name_id as int)
            < names.len() && match fields {
            StructFields::Properties(q) => refs_ok_prop_seq(q@, names, objects) && terminated(q@)
                && names[struct_name_id as int] != linear_color_name(),
            StructFields::LinearColor { .. } => names[struct_name_id as int]
                == linear_color_name(),
        },
        DataProperty::Unknown { type_tag, .. } => type_tag > last_known_tag(),
        _ => true,
    }
}

pub open spec fn refs_ok_prop_seq(ps: Seq<DataProperty>, names: Seq<Seq<u8>>, objects: int) -> bool
    decreases ps, 2int,
{
    forall|i: int| 0 <= i < ps.len() ==> refs_ok_prop(#[trigger] ps[i], names, objects)
}

pub open spec fn refs_ok_data(d: Data, names: Seq<Seq<u8>>, objects: int) -> bool
    decreases d, 2int,
{
    refs_ok_prop_seq(d.properties@, names, objects) && terminated(d.properties@)
}

pub open spec fn refs_ok_data_seq(ds: Seq<Data>, names: Seq<Seq<u8>>, objects: int) -> bool
    decreases ds, 3int,
{
    forall|i: int| 0 <= i < ds.len() ==> refs_ok_data(#[trigger] ds[i], names, objects)
}

/// What the decoder guarantees of every Data block it returns.
pub open spec fn wf_data(d: Data, names: Seq<Seq<u8>>, objects: int) -> bool {
    sizes_ok_data(d) && refs_ok_data(d, names, objects)
}

/// Appending a property extends the wire image of a run at its end.
pub proof fn lemma_ser_prop_seq_push(ps: Seq<DataProperty>, p: DataProperty)
    ensures
        ser_prop_seq(ps.push(p)) == ser_prop_seq(ps) + ser_prop(p),
    decreases ps.len(),
{
    if ps.len() == 0 {
        reveal_with_fuel(ser_prop_seq, 2);
        assert(ps.push(p).drop_first() =~= Seq::<DataProperty>::empty());
        assert(ps.push(p)[0] == p);
        assert(ser_prop_seq(ps.push(p)) =~= ser_prop(p));
        assert(ser_prop_seq(ps) + ser_prop(p) =~= ser_prop(p));
    } else {
        assert(ps.push(p).drop_first() =~= ps.drop_first().push(p));
        lemma_ser_prop_seq_push(ps.drop_first(), p);
        assert(ps.push(p)[0] == ps[0]);
        assert(ser_prop_seq(ps.push(p)) =~= ser_prop_seq(ps) + ser_prop(p));
    }
}

/// Appending a Data block extends the wire image of a run at its end.
pub proof fn lemma_ser_data_seq_push(ds: Seq<Data>, d: Data)
    ensures
        ser_data_seq(ds.push(d)) == ser_data_seq(ds) + ser_data(d),
    decreases ds.len(),
{
    if ds.len() == 0 {
        reveal_with_fuel(ser_data_seq, 2);
        assert(ds.push(d).drop_first() =~= Seq::<Data>::empty());
        assert(ds.push(d)[0] == d);
        assert(ser_data_seq(ds.push(d)) =~= ser_data(d));
        assert(ser_data_seq(ds) + ser_data(d) =~= ser_data(d));
    } else {
        assert(ds.push(d).drop_first() =~= ds.drop_first().push(d));
        lemma_ser_data_seq_push(ds.drop_first(), d);
        assert(ds.push(d)[0] == ds[0]);
        assert(ser_data_seq(ds.push(d)) =~= ser_data_seq(ds) + ser_data(d));
    }
}

/// A range of bytes splits at any interior point.
pub proof fn lemma_subrange_split(b: Seq<u8>, i: int, j: int, k: int)
    requires
        0 <= i <= j <= k <= b.len(),
    ensures
        b.subrange(i, k) == b.subrange(i, j) + b.subrange(j, k),
{
    assert(b.subrange(i, k) =~= b.subrange(i, j) + b.subrange(j, k));
}

/// Byte-for-byte equality of two strings.
pub fn bytes_eq(a: &Vec<u8>, b: &Vec<u8>) -> (r: bool)
    ensures
        r == (a@ == b@),
{
    if a.len() != b.len() {
        proof {
            assert(a@.len() != b@.len());
        }
        return false;
    }
    let mut i: usize = 0;
    while i < a.len()
        invariant
            i <= a@.len(),
            a@.len() == b@.len(),
            forall|k: int| 0 <= k < i ==> a@[k] == b@[k],
        decreases a@.len() - i,
    {
        if a[i] != b[i] {
            return false;
        }
        i = i + 1;
    }
    proof {
        assert(a@ =~= b@);
    }
    true
}

/// Splices header facts and a payload fact into the wire image of a whole
/// property.
proof fn lemma_assemble_prop(
    b: Seq<u8>,
    entry: int,
    p: DataProperty,
    endp: int,
    name_id: u32,
    tag: u32,
    size: u32,
)
    requires
        0 <= entry,
        entry + 12 <= endp <= b.len(),
        b.subrange(entry, entry + 4) == le_u32(name_id),
        b.subrange(entry + 4, entry + 8) == le_u32(tag),
        b.subrange(entry + 8, entry + 12) == le_u32(size),
        b.subrange(entry + 12, endp) == ser_payload(p),
        prop_name_id(p) == name_id,
        prop_wire_tag(p) == tag,
        ser_payload(p).len() == size,
    ensures
        b.subrange(entry, endp) == ser_prop(p),
        ser_prop(p).len() == endp - entry,
        ser_prop(p).len() >= 12,
{
    lemma_subrange_split(b, entry, entry + 12, endp);
    lemma_subrange_split(b, entry, entry + 4, entry + 12);
    lemma_subrange_split(b, entry + 4, entry + 8, entry + 12);
    assert(ser_payload(p).len() as u32 == size);
    assert(b.subrange(entry, endp) =~= le_u32(name_id) + le_u32(tag) + le_u32(size) + ser_payload(
        p,
    ));
}

/// Decodes the payload of a `Struct` property, after its header: the struct
/// name id, then either the fixed linear-color layout or a nested
/// terminated property list, chosen by the resolved struct name exactly as
/// `ser_struct_fields` lays them out.
#[verifier::rlimit(60)]
fn decode_struct_prop(
    cursor: &mut SaveCursor,
    names: &Vec<Vec<u8>>,
    objects_len: usize,
    name_id: u32,
    size: u32,
) -> (r: Result<DataProperty, DecodeError>)
    requires
        old(cursor).wf(),
        (name_id as int) < names@.len(),
    ensures
        final(cursor).wf(),
        final(cursor).bytes() == old(cursor).bytes(),
        old(cursor).pos() <= final(cursor).pos(),
        match r {
            Ok(p) => {
                &&& p is Struct
                &&& prop_name_id(p) == name_id
                &&& refs_ok_prop(p, views_of(names@), objects_len as int)
                &&& sizes_ok_prop(p)
                &&& ser_payload(p).len() == size
                &&& final(cursor).pos() == old(cursor).pos() + ser_payload(p).len()
                &&& old(cursor).bytes().subrange(old(cursor).pos(), final(cursor).pos())
                    == ser_payload(p)
            },
            Err(e) => e == DecodeError::OutOfBounds || e == DecodeError::Corrupt,
        },
    decreases old(cursor).remaining(), 2int,
{
    let ghost gpstart = cursor.pos();
    let pstart = cursor.position();
    let psize = size as usize;
    let struct_name_id = match cursor.read_u32() {
        Ok(v) => v,
        Err(e) => {
            return Err(e);
        },
    };
    if struct_name_id as usize >= names.len() {
        return Err(DecodeError::Corrupt);
    }
    let lc_name: Vec<u8> = vec![
        76u8,
        105u8,
        110u8,
        101u8,
        97u8,
        114u8,
        67u8,
        111u8,
        108u8,
        111u8,
        114u8,
    ];
    proof {
        assert(lc_name@ =~= linear_color_name());
    }
    let ghost c0 = cursor.pos();
    if bytes_eq(&names[struct_name_id as usize], &lc_name) {
        let cr = match cursor.read_u32() {
            Ok(v) => v,
            Err(e) => {
                return Err(e);
            },
        };
        let cg = match cursor.read_u32() {
            Ok(v) => v,
            Err(e) => {
                return Err(e);
            },
        };
        let cb = match cursor.read_u32() {
            Ok(v) => v,
            Err(e) => {
                return Err(e);
            },
        };
        let ca = match cursor.read_u32() {
            Ok(v) => v,
            Err(e) => {
                return Err(e);
            },
        };
        let consumed = cursor.position() - pstart;
        if consumed != psize {
            return Err(DecodeError::Corrupt);
        }
        let p = DataProperty::Struct {
            name_id,
            struct_name_id,
            fields: StructFields::LinearColor { r: cr, g: cg, b: cb, a: ca },
        };
        proof {
            lemma_subrange_split(old(cursor).bytes(), gpstart, c0, cursor.pos());
            lemma_subrange_split(old(cursor).bytes(), c0, c0 + 4, cursor.pos());
            lemma_subrange_split(old(cursor).bytes(), c0 + 4, c0 + 8, cursor.pos());
            lemma_subrange_split(old(cursor).bytes(), c0 + 8, c0 + 12, cursor.pos());
            assert(ser_payload(p) =~= le_u32(struct_name_id) + le_u32(cr) + le_u32(cg) + le_u32(
                cb,
            ) + le_u32(ca));
            assert(ser_payload(p) =~= old(cursor).bytes().subrange(gpstart, cursor.pos()));
            assert(views_of(names@)[struct_name_id as int] == names@[struct_name_id as int]@);
        }
        Ok(p)
    } else {
        let properties = match decode_props(cursor, names, objects_len) {
            Ok(ps) => ps,
            Err(e) => {
                return Err(e);
            },
        };
        let ghost gq = properties@;
        let consumed = cursor.position() - pstart;
        if consumed != psize {
            return Err(DecodeError::Corrupt);
        }
        let p = DataProperty::Struct {
            name_id,
            struct_name_id,
            fields: StructFields::Properties(properties),
        };
        proof {
            lemma_subrange_split(old(cursor).bytes(), gpstart, c0, cursor.pos());
            assert(ser_payload(p) =~= le_u32(struct_name_id) + ser_prop_seq(gq));
            assert(ser_payload(p) == old(cursor).bytes().subrange(gpstart, cursor.pos()));
            assert(views_of(names@)[struct_name_id as int] == names@[struct_name_id as int]@);
        }
        Ok(p)
    }
}

/// Decodes one property: a twelve-byte header, then a payload shaped by the
/// type tag. An unrecognized tag keeps its payload verbatim; a known payload
/// that does not consume exactly its declared size is corrupt.
#[verifier::rlimit(100)]
#[verifier::spinoff_prover]
pub fn decode_property(cursor: &mut SaveCursor, names: &Vec<Vec<u8>>, objects_len: usize) -> (r:
    Result<DataProperty, DecodeError>)
    requires
        old(cursor).wf(),
    ensures
        final(cursor).wf(),
        final(cursor).bytes() == old(cursor).bytes(),
        old(cursor).pos() <= final(cursor).pos(),
        match r {
            Ok(p) => {
                &&& refs_ok_prop(p, views_of(names@), objects_len as int)
                &&& sizes_ok_prop(p)
                &&& final(cursor).pos() == old(cursor).pos() + ser_prop(p).len()
                &&& old(cursor).bytes().subrange(old(cursor).pos(), final(cursor).pos())
                    == ser_prop(p)
                &&& ser_prop(p).len() >= 12
            },
            Err(e) => e == DecodeError::OutOfBounds || e == DecodeError::Corrupt,
        },
    decreases old(cursor).remaining(), 0int,
{
    let ghost entry = cursor.pos();
    let name_id = match cursor.read_u32() {
        Ok(v) => v,
        Err(e) => {
            return Err(e);
        },
    };
    if name_id as usize >= names.len() {
        return Err(DecodeError::Corrupt);
    }
    let tag = match cursor.read_u32() {
        Ok(v) => v,
        Err(e) => {
            return Err(e);
        },
    };
    let size = match cursor.read_u32() {
        Ok(v) => v,
        Err(e) => {
            return Err(e);
        },
    };
    let psize = size as usize;
    let pstart = cursor.position();
    let ghost gpstart = cursor.pos();
    if tag == 0 {
        let count = match cursor.read_u32() {
            Ok(v) => v,
            Err(e) => {
                return Err(e);
            },
        };
        let count_us = count as usize;
        let mut elements: Vec<Data> = Vec::new();
        let mut i: usize = 0;
        while i < count_us
            invariant
                cursor.wf(),
                cursor.bytes() == old(cursor).bytes(),
                i <= count_us,
                elements@.len() == i,
                0 <= gpstart,
                gpstart + 4 <= cursor.pos() <= cursor.bytes().len(),
                ser_data_seq(elements@) == old(cursor).bytes().subrange(
                    gpstart + 4,
                    cursor.pos(),
                ),
                refs_ok_data_seq(elements@, views_of(names@), objects_len as int),
                sizes_ok_data_seq(elements@),
                cursor.remaining() <= old(cursor).remaining() - 16,
            decreases count_us - i,
        {
            let ghost c0 = cursor.pos();
            let d = match decode_data(cursor, names, objects_len) {
                Ok(d) => d,
                Err(e) => {
                    return Err(e);
                },
            };
            proof {
                lemma_ser_data_seq_push(elements@, d);
                lemma_subrange_split(old(cursor).bytes(), gpstart + 4, c0, cursor.pos());
                assert(refs_ok_data_seq(elements@.push(d), views_of(names@), objects_len as int));
                assert(sizes_ok_data_seq(elements@.push(d)));
            }
            elements.push(d);
            i = i + 1;
        }
        let consumed = cursor.position() - pstart;
        if consumed != psize {
            return Err(DecodeError::Corrupt);
        }
        let p = DataProperty::Array { name_id, elements };
        proof {
            lemma_subrange_split(old(cursor).bytes(), gpstart, gpstart + 4, cursor.pos());
            assert(ser_payload(p) =~= le_u32(count) + ser_data_seq(p->Array_elements@));
            assert(ser_payload(p) == old(cursor).bytes().subrange(gpstart, cursor.pos()));
            lemma_assemble_prop(
                old(cursor).bytes(),
                entry,
                p,
                cursor.pos(),
                name_id,
                tag,
                size,
            );
        }
        Ok(p)
    } else if tag == 1 {
        let value = match cursor.read_bool_word() {
            Ok(v) => v,
            Err(e) => {
                return Err(e);
            },
        };
        let consumed = cursor.position() - pstart;
        if consumed != psize {
            return Err(DecodeError::Corrupt);
        }
        let p = DataProperty::Bool { name_id, value };
        proof {
            lemma_assemble_prop(
                old(cursor).bytes(),
                entry,
                p,
                cursor.pos(),
                name_id,
                tag,
                size,
            );
        }
        Ok(p)
    } else if tag == 2 {
        let value = match cursor.read_u8() {
            Ok(v) => v,
            Err(e) => {
                return Err(e);
            },
        };
        let consumed = cursor.position() - pstart;
        if consumed != psize {
            return Err(DecodeError::Corrupt);
        }
        let p = DataProperty::Byte { name_id, value };
        proof {
            assert(ser_payload(p) =~= old(cursor).bytes().subrange(gpstart, cursor.pos()));
            lemma_assemble_prop(
                old(cursor).bytes(),
                entry,
                p,
                cursor.pos(),
                name_id,
                tag,
                size,
            );
        }
        Ok(p)
    } else if tag == 3 {
        let bits = match cursor.read_u32() {
            Ok(v) => v,
            Err(e) => {
                return Err(e);
            },
        };
        let consumed = cursor.position() - pstart;
        if consumed != psize {
            return Err(DecodeError::Corrupt);
        }
        let p = DataProperty::Float { name_id, bits };
        proof {
            lemma_assemble_prop(
                old(cursor).bytes(),
                entry,
                p,
                cursor.pos(),
                name_id,
                tag,
                size,
            );
        }
        Ok(p)
    } else if tag == 4 {
        let value = match cursor.read_i32() {
            Ok(v) => v,
            Err(e) => {
                return Err(e);
            },
        };
        let consumed = cursor.position() - pstart;
        if consumed != psize {
            return Err(DecodeError::Corrupt);
        }
        let p = DataProperty::Int { name_id, value };
        proof {
            lemma_assemble_prop(
                old(cursor).bytes(),
                entry,
                p,
                cursor.pos(),
                name_id,
                tag,
                size,
            );
        }
        Ok(p)
    } else if tag == 5 {
        let value_name_id = match cursor.read_u32() {
            Ok(v) => v,
            Err(e) => {
                return Err(e);
            },
        };
        if value_name_id as usize >= names.len() {
            return Err(DecodeError::Corrupt);
        }
        let consumed = cursor.position() - pstart;
        if consumed != psize {
            return Err(DecodeError::Corrupt);
        }
        let p = DataProperty::Name { name_id, value_name_id };
        proof {
            lemma_assemble_prop(
                old(cursor).bytes(),
                entry,
                p,
                cursor.pos(),
                name_id,
                tag,
                size,
            );
        }
        Ok(p)
    } else if tag == 6 {
        let object_id = match cursor.read_u32() {
            Ok(v) => v,
            Err(e) => {
                return Err(e);
            },
        };
        if !(object_id == 0 || object_id as usize <= objects_len) {
            return Err(DecodeError::Corrupt);
        }
        let consumed = cursor.position() - pstart;
        if consumed != psize {
            return Err(DecodeError::Corrupt);
        }
        let p = DataProperty::Object { name_id, object_id };
        proof {
            lemma_assemble_prop(
                old(cursor).bytes(),
                entry,
                p,
                cursor.pos(),
                name_id,
                tag,
                size,
            );
        }
        Ok(p)
    } else if tag == 7 {
        let value = match cursor.read_block() {
            Ok(v) => v,
            Err(e) => {
                return Err(e);
            },
        };
        let consumed = cursor.position() - pstart;
        if consumed != psize {
            return Err(DecodeError::Corrupt);
        }
        let p = DataProperty::Str { name_id, value };
        proof {
            lemma_assemble_prop(
                old(cursor).bytes(),
                entry,
                p,
                cursor.pos(),
                name_id,
                tag,
                size,
            );
        }
        Ok(p)
    } else if tag == 8 {
        let string_id = match cursor.read_i32() {
            Ok(v) => v,
            Err(e) => {
                return Err(e);
            },
        };
        let consumed = cursor.position() - pstart;
        if consumed != psize {
            return Err(DecodeError::Corrupt);
        }
        let p = DataProperty::StringRef { name_id, string_id };
        proof {
            lemma_assemble_prop(
                old(cursor).bytes(),
                entry,
                p,
                cursor.pos(),
                name_id,
                tag,
                size,
            );
        }
        Ok(p)
    } else if tag == 9 {
        let p = match decode_struct_prop(cursor, names, objects_len, name_id, size) {
            Ok(p) => p,
            Err(e) => {
                return Err(e);
            },
        };
        proof {
            lemma_assemble_prop(
                old(cursor).bytes(),
                entry,
                p,
                cursor.pos(),
                name_id,
                tag,
                size,
            );
        }
        Ok(p)
    } else if tag == 10 {
        if psize != 0 {
            return Err(DecodeError::Corrupt);
        }
        let p = DataProperty::NoneTag { name_id };
        proof {
            assert(ser_payload(p) =~= old(cursor).bytes().subrange(gpstart, cursor.pos()));
            lemma_assemble_prop(
                old(cursor).bytes(),
                entry,
                p,
                cursor.pos(),
                name_id,
                tag,
                size,
            );
        }
        Ok(p)
    } else {
        let payload = match cursor.read_exact(psize) {
            Ok(v) => v,
            Err(e) => {
                return Err(e);
            },
        };
        let p = DataProperty::Unknown { name_id, type_tag: tag, payload };
        proof {
            lemma_assemble_prop(
                old(cursor).bytes(),
                entry,
                p,
                cursor.pos(),
                name_id,
                tag,
                size,
            );
        }
        Ok(p)
    }
}

/// Decodes a run of properties up to and including its `None`-tagged
/// terminator. A buffer that lacks the terminator fails with `OutOfBounds`
/// once the bytes run out: the loop always terminates.
pub fn decode_props(cursor: &mut SaveCursor, names: &Vec<Vec<u8>>, objects_len: usize) -> (r:
    Result<Vec<DataProperty>, DecodeError>)
    requires
        old(cursor).wf(),
    ensures
        final(cursor).wf(),
        final(cursor).bytes() == old(cursor).bytes(),
        old(cursor).pos() <= final(cursor).pos(),
        match r {
            Ok(ps) => {
                &&& refs_ok_prop_seq(ps@, views_of(names@), objects_len as int)
                &&& sizes_ok_prop_seq(ps@)
                &&& terminated(ps@)
                &&& final(cursor).pos() == old(cursor).pos() + ser_prop_seq(ps@).len()
                &&& old(cursor).bytes().subrange(old(cursor).pos(), final(cursor).pos())
                    == ser_prop_seq(ps@)
            },
            Err(e) => e == DecodeError::OutOfBounds || e == DecodeError::Corrupt,
        },
    decreases old(cursor).remaining(), 1int,
{
    let mut props: Vec<DataProperty> = Vec::new();
    proof {
        assert(old(cursor).bytes().subrange(old(cursor).pos(), old(cursor).pos())
            =~= ser_prop_seq(props@));
    }
    loop
        invariant_except_break
            cursor.wf(),
            old(cursor).wf(),
            cursor.bytes() == old(cursor).bytes(),
            old(cursor).pos() <= cursor.pos(),
            cursor.remaining() <= old(cursor).remaining(),
            cursor.pos() == old(cursor).pos() + ser_prop_seq(props@).len(),
            old(cursor).bytes().subrange(old(cursor).pos(), cursor.pos()) == ser_prop_seq(props@),
            refs_ok_prop_seq(props@, views_of(names@), objects_len as int),
            sizes_ok_prop_seq(props@),
            forall|i: int| 0 <= i < props@.len() ==> !is_terminator(#[trigger] props@[i]),
        ensures
            cursor.wf(),
            cursor.bytes() == old(cursor).bytes(),
            old(cursor).pos() <= cursor.pos(),
            cursor.pos() == old(cursor).pos() + ser_prop_seq(props@).len(),
            old(cursor).bytes().subrange(old(cursor).pos(), cursor.pos()) == ser_prop_seq(props@),
            refs_ok_prop_seq(props@, views_of(names@), objects_len as int),
            sizes_ok_prop_seq(props@),
            terminated(props@),
        decreases cursor.remaining(),
    {
        let ghost c0 = cursor.pos();
        let p = match decode_property(cursor, names, objects_len) {
            Ok(p) => p,
            Err(e) => {
                return Err(e);
            },
        };
        let stop = matches!(p, DataProperty::NoneTag { .. });
        proof {
            lemma_ser_prop_seq_push(props@, p);
            lemma_subrange_split(old(cursor).bytes(), old(cursor).pos(), c0, cursor.pos());
            assert(refs_ok_prop_seq(props@.push(p), views_of(names@), objects_len as int));
            assert(sizes_ok_prop_seq(props@.push(p)));
        }
        props.push(p);
        if stop {
            break ;
        }
    }
    Ok(props)
}

/// Decodes one object's whole Data block.
pub fn decode_data(cursor: &mut SaveCursor, names: &Vec<Vec<u8>>, objects_len: usize) -> (r:
    Result<Data, DecodeError>)
    requires
        old(cursor).wf(),
    ensures
        final(cursor).wf(),
        final(cursor).bytes() == old(cursor).bytes(),
        old(cursor).pos() <= final(cursor).pos(),
        match r {
            Ok(d) => {
                &&& wf_data(d, views_of(names@), objects_len as int)
                &&& final(cursor).pos() == old(cursor).pos() + ser_data(d).len()
                &&& old(cursor).bytes().subrange(old(cursor).pos(), final(cursor).pos())
                    == ser_data(d)
            },
            Err(e) => e == DecodeError::OutOfBounds || e == DecodeError::Corrupt,
        },
    decreases old(cursor).remaining(), 2int,
{
    match decode_props(cursor, names, objects_len) {
        Ok(ps) => Ok(Data { properties: ps }),
        Err(e) => Err(e),
    }
}

/// Appends one property's payload bytes. Fails, leaving nothing partially
/// decided about the property, exactly when some nested count cannot fit its
/// 32-bit wire field.
pub fn encode_payload(p: &DataProperty, out: &mut Vec<u8>) -> (r: Result<(), DecodeError>)
    ensures
        match r {
            Ok(()) => sizes_ok_payload(*p) && final(out)@ == old(out)@ + ser_payload(*p),
            Err(e) => e == DecodeError::Corrupt && !sizes_ok_payload(*p),
        },
    decreases *p, 0int,
{
    match p {
        DataProperty::Array { elements, .. } => {
            if elements.len() > u32::MAX as usize {
                return Err(DecodeError::Corrupt);
            }
            write_u32(out, elements.len() as u32);
            let ghost base = out@;
            let mut i: usize = 0;
            while i < elements.len()
                invariant
                    i <= elements@.len(),
                    elements@.len() <= u32::MAX,
                    *p is Array,
                    (*p)->Array_elements@ == elements@,
                    out@ == base + ser_data_seq(elements@.take(i as int)),
                    sizes_ok_data_seq(elements@.take(i as int)),
                decreases elements@.len() - i,
            {
                proof {
                    let ghost gp = *p;
                    assert(decreases_to!(gp => gp->Array_elements));
                    assert(decreases_to!(gp->Array_elements => gp->Array_elements@));
                    assert(gp->Array_elements@ == elements@);
                    assert(decreases_to!(gp->Array_elements@ => gp->Array_elements@[i as int]));
                }
                match encode_data(&elements[i], out) {
                    Ok(()) => {},
                    Err(e) => {
                        proof {
                            assert(!sizes_ok_data(elements@[i as int]));
                            assert(sizes_ok_data_seq(elements@) ==> sizes_ok_data(
                                elements@[i as int],
                            ));
                            assert(!sizes_ok_payload(*p));
                        }
                        return Err(e);
                    },
                }
                proof {
                    assert(elements@.take(i + 1) =~= elements@.take(i as int).push(
                        elements@[i as int],
                    ));
                    lemma_ser_data_seq_push(elements@.take(i as int), elements@[i as int]);
                }
                i = i + 1;
            }
            proof {
                assert(elements@.take(elements@.len() as int) =~= elements@);
            }
            Ok(())
        },
        DataProperty::Bool { value, .. } => {
            write_bool_word(out, *value);
            Ok(())
        },
        DataProperty::Byte { value, .. } => {
            write_u8(out, *value);
            proof {
                assert(out@ =~= old(out)@ + ser_payload(*p));
            }
            Ok(())
        },
        DataProperty::Float { bits, .. } => {
            write_u32(out, *bits);
            Ok(())
        },
        DataProperty::Int { value, .. } => {
            write_i32(out, *value);
            Ok(())
        },
        DataProperty::Name { value_name_id, .. } => {
            write_u32(out, *value_name_id);
            Ok(())
        },
        DataProperty::Object { object_id, .. } => {
            write_u32(out, *object_id);
            Ok(())
        },
        DataProperty::Str { value, .. } => {
            match write_block(out, value) {
                Ok(()) => Ok(()),
                Err(e) => Err(e),
            }
        },
        DataProperty::StringRef { string_id, .. } => {
            write_i32(out, *string_id);
            Ok(())
        },
        DataProperty::Struct { struct_name_id, fields, .. } => {
            write_u32(out, *struct_name_id);
            match fields {
                StructFields::Properties(properties) => {
                    proof {
                        let ghost gf = (*p)->Struct_fields;
                        assert(decreases_to!(*p => gf));
                        assert(decreases_to!(gf => gf->Properties_0));
                        assert(gf->Properties_0 == *properties);
                        assert(decreases_to!(*properties => properties@));
                    }
                    match encode_props(properties, out) {
                        Ok(()) => Ok(()),
                        Err(e) => Err(e),
                    }
                },
                StructFields::LinearColor { r, g, b, a } => {
                    write_u32(out, *r);
                    write_u32(out, *g);
                    write_u32(out, *b);
                    write_u32(out, *a);
                    proof {
                        assert(out@ =~= old(out)@ + ser_payload(*p));
                    }
                    Ok(())
                },
            }
        },
        DataProperty::NoneTag { .. } => {
            proof {
                assert(out@ =~= old(out)@ + ser_payload(*p));
            }
            Ok(())
        },
        DataProperty::Unknown { payload, .. } => {
            write_bytes(out, payload);
            Ok(())
        },
    }
}

/// Appends one property's full wire image: header, then payload. The
/// declared size is the payload's true length, so decoding what was encoded
/// never trips the size check.
#[verifier::rlimit(60)]
pub fn encode_prop(p: &DataProperty, out: &mut Vec<u8>) -> (r: Result<(), DecodeError>)
    ensures
        match r {
            Ok(()) => sizes_ok_prop(*p) && final(out)@ == old(out)@ + ser_prop(*p),
            Err(e) => e == DecodeError::Corrupt && !sizes_ok_prop(*p),
        },
    decreases *p, 1int,
{
    let mut payload: Vec<u8> = Vec::new();
    match encode_payload(p, &mut payload) {
        Ok(()) => {},
        Err(e) => {
            return Err(e);
        },
    }
    if payload.len() > u32::MAX as usize {
        return Err(DecodeError::Corrupt);
    }
    write_u32(out, prop_name(p));
    write_u32(out, prop_tag(p));
    write_u32(out, payload.len() as u32);
    write_bytes(out, &payload);
    assert(out@ =~= old(out)@ + ser_prop(*p));
    Ok(())
}

/// Appends a run of properties, in order.
pub fn encode_props(ps: &Vec<DataProperty>, out: &mut Vec<u8>) -> (r: Result<(), DecodeError>)
    ensures
        match r {
            Ok(()) => sizes_ok_prop_seq(ps@) && final(out)@ == old(out)@ + ser_prop_seq(ps@),
            Err(e) => e == DecodeError::Corrupt && !sizes_ok_prop_seq(ps@),
        },
    decreases ps@, 2int,
{
    let ghost base = out@;
    let mut i: usize = 0;
    while i < ps.len()
        invariant
            i <= ps@.len(),
            out@ == base + ser_prop_seq(ps@.take(i as int)),
            sizes_ok_prop_seq(ps@.take(i as int)),
        decreases ps@.len() - i,
    {
        match encode_prop(&ps[i], out) {
            Ok(()) => {},
            Err(e) => {
                proof {
                    assert(!sizes_ok_prop(ps@[i as int]));
                }
                return Err(e);
            },
        }
        proof {
            assert(ps@.take(i + 1) =~= ps@.take(i as int).push(ps@[i as int]));
            lemma_ser_prop_seq_push(ps@.take(i as int), ps@[i as int]);
        }
        i = i + 1;
    }
    proof {
        assert(ps@.take(ps@.len() as int) =~= ps@);
    }
    Ok(())
}

/// Appends one object's whole Data block.
pub fn encode_data(d: &Data, out: &mut Vec<u8>) -> (r: Result<(), DecodeError>)
    ensures
        match r {
            Ok(()) => sizes_ok_data(*d) && final(out)@ == old(out)@ + ser_data(*d),
            Err(e) => e == DecodeError::Corrupt && !sizes_ok_data(*d),
        },
    decreases *d, 0int,
{
    proof {
        assert(decreases_to!(*d => (*d).properties));
        assert(decreases_to!((*d).properties => (*d).properties@));
    }
    encode_props(&d.properties, out)
}

/// One wire image, one header: two properties with the same wire image
/// carry the same name id, the same type tag, and the same payload bytes,
/// at every level of the tree. Together with the codec contracts — decoding
/// pins the consumed bytes to the result's wire image — this is why
/// decoding the same buffer twice cannot disagree about any name, tag or
/// payload.
pub proof fn lemma_ser_prop_image_determines_header(p1: DataProperty, p2: DataProperty)
    requires
        ser_prop(p1) == ser_prop(p2),
    ensures
        prop_name_id(p1) == prop_name_id(p2),
        prop_wire_tag(p1) == prop_wire_tag(p2),
        ser_payload(p1) == ser_payload(p2),
{
    assert(le_u32(prop_name_id(p1)) =~= le_u32(prop_name_id(p2))) by {
        assert(forall|k: int|
            0 <= k < 4 ==> #[trigger] le_u32(prop_name_id(p1))[k] == ser_prop(p1)[k] && le_u32(
                prop_name_id(p2),
            )[k] == ser_prop(p2)[k]);
    }
    crate::cursor::lemma_le_u32_injective(prop_name_id(p1), prop_name_id(p2));
    assert(le_u32(prop_wire_tag(p1)) =~= le_u32(prop_wire_tag(p2))) by {
        assert(forall|k: int|
            0 <= k < 4 ==> #[trigger] le_u32(prop_wire_tag(p1))[k] == ser_prop(p1)[k + 4]
                && le_u32(prop_wire_tag(p2))[k] == ser_prop(p2)[k + 4]);
    }
    crate::cursor::lemma_le_u32_injective(prop_wire_tag(p1), prop_wire_tag(p2));
    assert(ser_prop(p1).len() == 12 + ser_payload(p1).len());
    assert(ser_prop(p2).len() == 12 + ser_payload(p2).len());
    assert(ser_payload(p1).len() == ser_payload(p2).len());
    assert(ser_payload(p1) =~= ser_payload(p2)) by {
        assert(forall|k: int|
            0 <= k < ser_payload(p1).len() ==> #[trigger] ser_payload(p1)[k] == ser_prop(p1)[k
                + 12] && ser_payload(p2)[k] == ser_prop(p2)[k + 12]);
    }
}

/// Structural equality of two properties: same variant, same scalar
/// fields, and element-wise equal nested collections. This is the sense in
/// which decoding the same buffer twice yields "the same" graph: the
/// collection-backed nodes are compared by their contents.
pub open spec fn prop_like(p1: DataProperty, p2: DataProperty) -> bool
    decreases p1, 1int,
{
    match (p1, p2) {
        (
            DataProperty::Array { name_id: n1, elements: e1 },
            DataProperty::Array { name_id: n2, elements: e2 },
        ) => n1 == n2 && datas_like(e1@, e2@),
        (
            DataProperty::Bool { name_id: n1, value: v1 },
            DataProperty::Bool { name_id: n2, value: v2 },
        ) => n1 == n2 && v1 == v2,
        (
            DataProperty::Byte { name_id: n1, value: v1 },
            DataProperty::Byte { name_id: n2, value: v2 },
        ) => n1 == n2 && v1 == v2,
        (
            DataProperty::Float { name_id: n1, bits: v1 },
            DataProperty::Float { name_id: n2, bits: v2 },
        ) => n1 == n2 && v1 == v2,
        (
            DataProperty::Int { name_id: n1, value: v1 },
            DataProperty::Int { name_id: n2, value: v2 },
        ) => n1 == n2 && v1 == v2,
        (
            DataProperty::Name { name_id: n1, value_name_id: v1 },
            DataProperty::Name { name_id: n2, value_name_id: v2 },
        ) => n1 == n2 && v1 == v2,
        (
            DataProperty::Object { name_id: n1, object_id: v1 },
            DataProperty::Object { name_id: n2, object_id: v2 },
        ) => n1 == n2 && v1 == v2,
        (
            DataProperty::Str { name_id: n1, value: v1 },
            DataProperty::Str { name_id: n2, value: v2 },
        ) => n1 == n2 && v1@ == v2@,
        (
            DataProperty::StringRef { name_id: n1, string_id: v1 },
            DataProperty::StringRef { name_id: n2, string_id: v2 },
        ) => n1 == n2 && v1 == v2,
        (
            DataProperty::Struct { name_id: n1, struct_name_id: s1, fields: f1 },
            DataProperty::Struct { name_id: n2, struct_name_id: s2, fields: f2 },
        ) => n1 == n2 && s1 == s2 && match (f1, f2) {
            (StructFields::Properties(q1), StructFields::Properties(q2)) => props_like(q1@, q2@),
            (
                StructFields::LinearColor { r: r1, g: g1, b: b1, a: a1 },
                StructFields::LinearColor { r: r2, g: g2, b: b2, a: a2 },
            ) => r1 == r2 && g1 == g2 && b1 == b2 && a1 == a2,
            _ => false,
        },
        (DataProperty::NoneTag { name_id: n1 }, DataProperty::NoneTag { name_id: n2 }) => n1 == n2,
        (
            DataProperty::Unknown { name_id: n1, type_tag: t1, payload: v1 },
            DataProperty::Unknown { name_id: n2, type_tag: t2, payload: v2 },
        ) => n1 == n2 && t1 == t2 && v1@ == v2@,
        _ => false,
    }
}

pub open spec fn props_like(ps1: Seq<DataProperty>, ps2: Seq<DataProperty>) -> bool
    decreases ps1, 2int,
{
    ps1.len() == ps2.len() && forall|i: int|
        0 <= i < ps1.len() ==> prop_like(#[trigger] ps1[i], ps2[i])
}

pub open spec fn data_like(d1: Data, d2: Data) -> bool
    decreases d1, 2int,
{
    props_like(d1.properties@, d2.properties@)
}

pub open spec fn datas_like(ds1: Seq<Data>, ds2: Seq<Data>) -> bool
    decreases ds1, 3int,
{
    ds1.len() == ds2.len() && forall|i: int|
        0 <= i < ds1.len() ==> data_like(#[trigger] ds1[i], ds2[i])
}

/// Two properties that open the same byte stream have the same wire image,
/// and the streams agree after it: the declared payload size in the header
/// makes property images self-delimiting.
proof fn lemma_heads_align(p1: DataProperty, p2: DataProperty, t1: Seq<u8>, t2: Seq<u8>)
    requires
        ser_prop(p1) + t1 == ser_prop(p2) + t2,
        sizes_ok_prop(p1),
        sizes_ok_prop(p2),
    ensures
        ser_prop(p1) == ser_prop(p2),
        t1 == t2,
{
    let s = ser_prop(p1) + t1;
    let l1 = ser_payload(p1).len();
    let l2 = ser_payload(p2).len();
    assert(ser_prop(p1).len() == 12 + l1);
    assert(ser_prop(p2).len() == 12 + l2);
    assert(le_u32(l1 as u32) =~= le_u32(l2 as u32)) by {
        assert(forall|k: int|
            0 <= k < 4 ==> #[trigger] le_u32(l1 as u32)[k] == ser_prop(p1)[k + 8] && le_u32(
                l2 as u32,
            )[k] == ser_prop(p2)[k + 8]);
        assert(forall|k: int|
            0 <= k < 12 ==> #[trigger] ser_prop(p1)[k] == s[k] && ser_prop(p2)[k] == s[k]);
    }
    crate::cursor::lemma_le_u32_injective(l1 as u32, l2 as u32);
    assert(l1 == l2);
    assert(ser_prop(p1) =~= ser_prop(p2)) by {
        assert(forall|k: int|
            0 <= k < ser_prop(p1).len() ==> #[trigger] ser_prop(p1)[k] == s[k] && ser_prop(p2)[k]
                == s[k]);
    }
    assert((ser_prop(p1) + t1).len() == ser_prop(p1).len() + t1.len());
    assert((ser_prop(p2) + t2).len() == ser_prop(p2).len() + t2.len());
    assert((ser_prop(p1) + t1).len() == (ser_prop(p2) + t2).len());
    assert(t1.len() == t2.len());
    assert(t1 =~= t2) by {
        assert(forall|k: int|
            0 <= k < t1.len() ==> #[trigger] t1[k] == (ser_prop(p1) + t1)[k + 12 + l1]);
        assert(forall|k: int|
            0 <= k < t2.len() ==> #[trigger] t2[k] == (ser_prop(p2) + t2)[k + 12 + l2]);
    }
}

/// One byte image, one property, structurally: two properties with equal
/// wire images and valid references are alike at every level of the tree.
#[verifier::rlimit(60)]
proof fn lemma_prop_like_of_image(p1: DataProperty, p2: DataProperty, names: Seq<Seq<u8>>, objects: int)
    requires
        ser_prop(p1) == ser_prop(p2),
        sizes_ok_prop(p1),
        sizes_ok_prop(p2),
        refs_ok_prop(p1, names, objects),
        refs_ok_prop(p2, names, objects),
    ensures
        prop_like(p1, p2),
    decreases p1, 1int,
{
    lemma_ser_prop_image_determines_header(p1, p2);
    let a = ser_payload(p1);
    let b = ser_payload(p2);
    match p1 {
        DataProperty::Array { name_id, elements } => {
            assert(p2 is Array);
            let e1 = elements@;
            let e2 = p2->Array_elements@;
            assert(le_u32(e1.len() as u32) =~= le_u32(e2.len() as u32)) by {
                assert(forall|k: int|
                    0 <= k < 4 ==> #[trigger] le_u32(e1.len() as u32)[k] == a[k] && le_u32(
                        e2.len() as u32,
                    )[k] == b[k]);
            }
            crate::cursor::lemma_le_u32_injective(e1.len() as u32, e2.len() as u32);
            assert(e1.len() == e2.len());
            assert(ser_data_seq(e1) =~= ser_data_seq(e2)) by {
                assert(forall|k: int|
                    0 <= k < ser_data_seq(e1).len() ==> #[trigger] ser_data_seq(e1)[k] == a[k + 4]
                        && ser_data_seq(e2)[k] == b[k + 4]);
            }
            lemma_datas_like_of_stream(
                e1,
                e2,
                Seq::empty(),
                Seq::empty(),
                names,
                objects,
            );
        },
        DataProperty::Bool { .. } => {
            assert(p2 is Bool);
            crate::cursor::lemma_le_u32_injective(
                bool_word(p1->Bool_value),
                bool_word(p2->Bool_value),
            );
        },
        DataProperty::Byte { .. } => {
            assert(p2 is Byte);
            assert(a[0] == p1->Byte_value && b[0] == p2->Byte_value);
        },
        DataProperty::Float { .. } => {
            assert(p2 is Float);
            crate::cursor::lemma_le_u32_injective(p1->Float_bits, p2->Float_bits);
        },
        DataProperty::Int { .. } => {
            assert(p2 is Int);
            let v1 = p1->Int_value;
            let v2 = p2->Int_value;
            crate::cursor::lemma_le_u32_injective(v1 as u32, v2 as u32);
            assert(v1 == v2) by (bit_vector)
                requires
                    v1 as u32 == v2 as u32,
            ;
        },
        DataProperty::Name { .. } => {
            assert(p2 is Name);
            crate::cursor::lemma_le_u32_injective(
                p1->Name_value_name_id,
                p2->Name_value_name_id,
            );
        },
        DataProperty::Object { .. } => {
            assert(p2 is Object);
            crate::cursor::lemma_le_u32_injective(p1->Object_object_id, p2->Object_object_id);
        },
        DataProperty::Str { name_id, value } => {
            assert(p2 is Str);
            let s1 = value@;
            let s2 = p2->Str_value@;
            assert(le_u32(s1.len() as u32) =~= le_u32(s2.len() as u32)) by {
                assert(forall|k: int|
                    0 <= k < 4 ==> #[trigger] le_u32(s1.len() as u32)[k] == a[k] && le_u32(
                        s2.len() as u32,
                    )[k] == b[k]);
            }
            crate::cursor::lemma_le_u32_injective(s1.len() as u32, s2.len() as u32);
            assert(s1.len() == s2.len());
            assert(s1 =~= s2) by {
                assert(forall|k: int|
                    0 <= k < s1.len() ==> #[trigger] s1[k] == a[k + 4] && s2[k] == b[k + 4]);
            }
        },
        DataProperty::StringRef { .. } => {
            assert(p2 is StringRef);
            let v1 = p1->StringRef_string_id;
            let v2 = p2->StringRef_string_id;
            crate::cursor::lemma_le_u32_injective(v1 as u32, v2 as u32);
            assert(v1 == v2) by (bit_vector)
                requires
                    v1 as u32 == v2 as u32,
            ;
        },
        DataProperty::Struct { name_id, struct_name_id, fields } => {
            assert(p2 is Struct);
            let s2v = p2->Struct_struct_name_id;
            assert(le_u32(struct_name_id) =~= le_u32(s2v)) by {
                assert(forall|k: int|
                    0 <= k < 4 ==> #[trigger] le_u32(struct_name_id)[k] == a[k] && le_u32(s2v)[k]
                        == b[k]);
            }
            crate::cursor::lemma_le_u32_injective(struct_name_id, s2v);
            let f2 = p2->Struct_fields;
            match fields {
                StructFields::Properties(q1v) => {
                    assert(names[struct_name_id as int] != linear_color_name());
                    assert(f2 is Properties);
                    let q1 = q1v@;
                    let q2 = f2->Properties_0@;
                    assert(ser_prop_seq(q1) =~= ser_prop_seq(q2)) by {
                        assert(forall|k: int|
                            0 <= k < ser_prop_seq(q1).len() ==> #[trigger] ser_prop_seq(q1)[k]
                                == a[k + 4] && ser_prop_seq(q2)[k] == b[k + 4]);
                    }
                    let gf = p1->Struct_fields;
                    assert(decreases_to!(p1 => gf));
                    assert(decreases_to!(gf => gf->Properties_0));
                    assert(gf->Properties_0 == q1v);
                    assert(decreases_to!(q1v => q1v@));
                    lemma_props_like_of_stream(
                        q1,
                        q2,
                        Seq::empty(),
                        Seq::empty(),
                        names,
                        objects,
                    );
                },
                StructFields::LinearColor { r: r1, g: g1, b: b1v, a: a1v } => {
                    assert(names[struct_name_id as int] == linear_color_name());
                    assert(f2 is LinearColor);
                    assert(le_u32(r1) =~= le_u32(f2->LinearColor_r)) by {
                        assert(forall|k: int|
                            0 <= k < 4 ==> #[trigger] le_u32(r1)[k] == a[k + 4] && le_u32(
                                f2->LinearColor_r,
                            )[k] == b[k + 4]);
                    }
                    crate::cursor::lemma_le_u32_injective(r1, f2->LinearColor_r);
                    assert(le_u32(g1) =~= le_u32(f2->LinearColor_g)) by {
                        assert(forall|k: int|
                            0 <= k < 4 ==> #[trigger] le_u32(g1)[k] == a[k + 8] && le_u32(
                                f2->LinearColor_g,
                            )[k] == b[k + 8]);
                    }
                    crate::cursor::lemma_le_u32_injective(g1, f2->LinearColor_g);
                    assert(le_u32(b1v) =~= le_u32(f2->LinearColor_b)) by {
                        assert(forall|k: int|
                            0 <= k < 4 ==> #[trigger] le_u32(b1v)[k] == a[k + 12] && le_u32(
                                f2->LinearColor_b,
                            )[k] == b[k + 12]);
                    }
                    crate::cursor::lemma_le_u32_injective(b1v, f2->LinearColor_b);
                    assert(le_u32(a1v) =~= le_u32(f2->LinearColor_a)) by {
                        assert(forall|k: int|
                            0 <= k < 4 ==> #[trigger] le_u32(a1v)[k] == a[k + 16] && le_u32(
                                f2->LinearColor_a,
                            )[k] == b[k + 16]);
                    }
                    crate::cursor::lemma_le_u32_injective(a1v, f2->LinearColor_a);
                },
            }
        },
        DataProperty::NoneTag { .. } => {
            assert(p2 is NoneTag);
        },
        DataProperty::Unknown { .. } => {
            assert(p2 is Unknown);
        },
    }
}

/// Parser determinism for terminated property lists: two terminated lists
/// that open the same byte stream are structurally alike, occupy the same
/// bytes, and leave the same remainder.
proof fn lemma_props_like_of_stream(
    ps1: Seq<DataProperty>,
    ps2: Seq<DataProperty>,
    x1: Seq<u8>,
    x2: Seq<u8>,
    names: Seq<Seq<u8>>,
    objects: int,
)
    requires
        ser_prop_seq(ps1) + x1 == ser_prop_seq(ps2) + x2,
        terminated(ps1),
        terminated(ps2),
        sizes_ok_prop_seq(ps1),
        sizes_ok_prop_seq(ps2),
        refs_ok_prop_seq(ps1, names, objects),
        refs_ok_prop_seq(ps2, names, objects),
    ensures
        props_like(ps1, ps2),
        ser_prop_seq(ps1) == ser_prop_seq(ps2),
        x1 == x2,
    decreases ps1, 2int,
{
    let h1 = ps1[0];
    let h2 = ps2[0];
    let r1 = ser_prop_seq(ps1.drop_first());
    let r2 = ser_prop_seq(ps2.drop_first());
    assert(ser_prop_seq(ps1) == ser_prop(h1) + r1);
    assert(ser_prop_seq(ps2) == ser_prop(h2) + r2);
    assert((ser_prop(h1) + r1) + x1 =~= ser_prop(h1) + (r1 + x1));
    assert((ser_prop(h2) + r2) + x2 =~= ser_prop(h2) + (r2 + x2));
    assert(sizes_ok_prop(h1) && sizes_ok_prop(h2));
    assert(refs_ok_prop(h1, names, objects) && refs_ok_prop(h2, names, objects));
    lemma_heads_align(h1, h2, r1 + x1, r2 + x2);
    lemma_ser_prop_image_determines_header(h1, h2);
    lemma_prop_like_of_image(h1, h2, names, objects);
    if is_terminator(h1) {
        assert(is_terminator(h2));
        assert(ps1.len() == 1);
        assert(ps2.len() == 1);
        assert(ps1.drop_first() =~= Seq::<DataProperty>::empty());
        assert(ps2.drop_first() =~= Seq::<DataProperty>::empty());
        assert(r1 =~= Seq::<u8>::empty());
        assert(r2 =~= Seq::<u8>::empty());
        assert(r1 + x1 =~= x1);
        assert(r2 + x2 =~= x2);
        assert(ser_prop_seq(ps1) =~= ser_prop_seq(ps2));
        assert(props_like(ps1, ps2));
    } else {
        assert(prop_wire_tag(h1) != 10);
        assert(!is_terminator(h2));
        assert(ps1.len() >= 2);
        assert(ps2.len() >= 2);
        let d1 = ps1.drop_first();
        let d2 = ps2.drop_first();
        assert(terminated(d1)) by {
            assert(d1.last() == ps1.last());
            assert(forall|i: int| 0 <= i < d1.len() - 1 ==> #[trigger] d1[i] == ps1[i + 1]);
        }
        assert(terminated(d2)) by {
            assert(d2.last() == ps2.last());
            assert(forall|i: int| 0 <= i < d2.len() - 1 ==> #[trigger] d2[i] == ps2[i + 1]);
        }
        assert(sizes_ok_prop_seq(d1) && refs_ok_prop_seq(d1, names, objects)) by {
            assert(forall|i: int| 0 <= i < d1.len() ==> #[trigger] d1[i] == ps1[i + 1]);
        }
        assert(sizes_ok_prop_seq(d2) && refs_ok_prop_seq(d2, names, objects)) by {
            assert(forall|i: int| 0 <= i < d2.len() ==> #[trigger] d2[i] == ps2[i + 1]);
        }
        lemma_props_like_of_stream(d1, d2, x1, x2, names, objects);
        assert(props_like(ps1, ps2)) by {
            assert(ps1.len() == ps2.len());
            assert forall|i: int| 0 <= i < ps1.len() implies prop_like(
                #[trigger] ps1[i],
                ps2[i],
            ) by {
                if i > 0 {
                    assert(d1[i - 1] == ps1[i] && d2[i - 1] == ps2[i]);
                    assert(prop_like(d1[i - 1], d2[i - 1]));
                }
            }
        }
        assert(ser_prop_seq(ps1) == ser_prop_seq(ps2));
    }
}

/// Parser determinism for one Data block within a stream.
proof fn lemma_data_like_of_stream(
    d1: Data,
    d2: Data,
    x1: Seq<u8>,
    x2: Seq<u8>,
    names: Seq<Seq<u8>>,
    objects: int,
)
    requires
        ser_data(d1) + x1 == ser_data(d2) + x2,
        refs_ok_data(d1, names, objects),
        refs_ok_data(d2, names, objects),
        sizes_ok_data(d1),
        sizes_ok_data(d2),
    ensures
        data_like(d1, d2),
        ser_data(d1) == ser_data(d2),
        x1 == x2,
    decreases d1, 2int,
{
    lemma_props_like_of_stream(d1.properties@, d2.properties@, x1, x2, names, objects);
}

/// Parser determinism for equally long runs of Data blocks within a stream.
pub proof fn lemma_datas_like_of_stream(
    ds1: Seq<Data>,
    ds2: Seq<Data>,
    x1: Seq<u8>,
    x2: Seq<u8>,
    names: Seq<Seq<u8>>,
    objects: int,
)
    requires
        ds1.len() == ds2.len(),
        ser_data_seq(ds1) + x1 == ser_data_seq(ds2) + x2,
        refs_ok_data_seq(ds1, names, objects),
        refs_ok_data_seq(ds2, names, objects),
        sizes_ok_data_seq(ds1),
        sizes_ok_data_seq(ds2),
    ensures
        datas_like(ds1, ds2),
        ser_data_seq(ds1) == ser_data_seq(ds2),
        x1 == x2,
    decreases ds1, 3int,
{
    if ds1.len() == 0 {
        assert(ser_data_seq(ds1) =~= Seq::<u8>::empty());
        assert(ser_data_seq(ds2) =~= Seq::<u8>::empty());
        assert(x1 =~= x2);
    } else {
        let h1 = ds1[0];
        let h2 = ds2[0];
        let r1 = ser_data_seq(ds1.drop_first());
        let r2 = ser_data_seq(ds2.drop_first());
        assert(ser_data_seq(ds1) == ser_data(h1) + r1);
        assert(ser_data_seq(ds2) == ser_data(h2) + r2);
        assert((ser_data(h1) + r1) + x1 =~= ser_data(h1) + (r1 + x1));
        assert((ser_data(h2) + r2) + x2 =~= ser_data(h2) + (r2 + x2));
        lemma_data_like_of_stream(h1, h2, r1 + x1, r2 + x2, names, objects);
        let d1 = ds1.drop_first();
        let d2 = ds2.drop_first();
        assert(refs_ok_data_seq(d1, names, objects) && sizes_ok_data_seq(d1)) by {
            assert(forall|i: int| 0 <= i < d1.len() ==> #[trigger] d1[i] == ds1[i + 1]);
        }
        assert(refs_ok_data_seq(d2, names, objects) && sizes_ok_data_seq(d2)) by {
            assert(forall|i: int| 0 <= i < d2.len() ==> #[trigger] d2[i] == ds2[i + 1]);
        }
        lemma_datas_like_of_stream(d1, d2, x1, x2, names, objects);
        assert(datas_like(ds1, ds2)) by {
            assert forall|i: int| 0 <= i < ds1.len() implies data_like(
                #[trigger] ds1[i],
                ds2[i],
            ) by {
                if i > 0 {
                    assert(d1[i - 1] == ds1[i] && d2[i - 1] == ds2[i]);
                    assert(data_like(d1[i - 1], d2[i - 1]));
                }
            }
        }
        assert(ser_data_seq(ds1) == ser_data_seq(ds2));
    }
}

/// Decode is deterministic: two well-formed Data blocks with the same wire
/// image are structurally alike, node for node. Since the decoder's
/// contract pins the bytes it consumed to its result's wire image, decoding
/// the same buffer twice cannot yield two different graphs.
pub proof fn lemma_data_image_determines_graph(d1: Data, d2: Data, names: Seq<Seq<u8>>, objects: int)
    requires
        ser_data(d1) == ser_data(d2),
        wf_data(d1, names, objects),
        wf_data(d2, names, objects),
    ensures
        data_like(d1, d2),
{
    assert(ser_data(d1) + Seq::<u8>::empty() =~= ser_data(d2) + Seq::<u8>::empty());
    lemma_data_like_of_stream(
        d1,
        d2,
        Seq::empty(),
        Seq::empty(),
        names,
        objects,
    );
}

/// The exhaustive-match accessor behind "find a property by name": the
/// uniform `name_id` of any property.
pub fn prop_name(p: &DataProperty) -> (r: u32)
    ensures
        r == prop_name_id(*p),
{
    match *p {
        DataProperty::Array { name_id, .. } => name_id,
        DataProperty::Bool { name_id, .. } => name_id,
        DataProperty::Byte { name_id, .. } => name_id,
        DataProperty::Float { name_id, .. } => name_id,
        DataProperty::Int { name_id, .. } => name_id,
        DataProperty::Name { name_id, .. } => name_id,
        DataProperty::Object { name_id, .. } => name_id,
        DataProperty::Str { name_id, .. } => name_id,
        DataProperty::StringRef { name_id, .. } => name_id,
        DataProperty::Struct { name_id, .. } => name_id,
        DataProperty::NoneTag { name_id } => name_id,
        DataProperty::Unknown { name_id, .. } => name_id,
    }
}

/// The wire tag of a property, as `ser_prop` writes it.
pub fn prop_tag(p: &DataProperty) -> (r: u32)
    ensures
        r == prop_wire_tag(*p),
{
    match *p {
        DataProperty::Array { .. } => 0,
        DataProperty::Bool { .. } => 1,
        DataProperty::Byte { .. } => 2,
        DataProperty::Float { .. } => 3,
        DataProperty::Int { .. } => 4,
        DataProperty::Name { .. } => 5,
        DataProperty::Object { .. } => 6,
        DataProperty::Str { .. } => 7,
        DataProperty::StringRef { .. } => 8,
        DataProperty::Struct { .. } => 9,
        DataProperty::NoneTag { .. } => 10,
        DataProperty::Unknown { type_tag, .. } => type_tag,
    }
}

} // verus!
