//! One whole save file: header, name table, object table, per-object Data
//! blocks, plot table; its codec; and the lookups the editing boundary uses.
//!
//! The name and object tables are built once, in a single forward pass over
//! the buffer, and form the addressable backbone of the object graph: every
//! property names itself through a name-table id, and an `Object`-typed
//! property holds only an integer id that is resolved against the object
//! table on demand, never eagerly, so cyclic and back-referencing graphs
//! need no special handling.

use vstd::prelude::*;

use crate::cursor::{le_block, le_u32, write_block, write_u32, SaveCursor};
use crate::data::{
    bytes_eq, decode_data, encode_data, lemma_subrange_split, prop_name, prop_name_id, ser_data,
    views_of, wf_data, Data, DataProperty,
};
use crate::error::DecodeError;
use crate::plot::{
    decode_plot, encode_plot, num_table_shape, plot_wf, ser_plot, ser_words, lemma_ser_words_push,
    PlotShape, PlotTable,
};

verus! {

/// One entry of the object table: the object's name and its Data block.
pub struct SaveObject {
    pub name_id: u32,
    pub data: Data,
}

/// One decoded save file.
pub struct SaveFile {
    pub version: u32,
    pub names: Vec<Vec<u8>>,
    pub objects: Vec<SaveObject>,
    pub plot: PlotTable,
}

/// The wire image of the name table's strings, in order.
pub open spec fn ser_names(ns: Seq<Vec<u8>>) -> Seq<u8>
    decreases ns.len(),
{
    if ns.len() == 0 {
        Seq::empty()
    } else {
        le_block(ns[0]@) + ser_names(ns.drop_first())
    }
}

/// The object table's header words: each object's name id, in order.
pub open spec fn object_name_ids(os: Seq<SaveObject>) -> Seq<u32> {
    os.map_values(|o: SaveObject| o.name_id)
}

/// The wire image of the objects' Data blocks, in table order.
pub open spec fn ser_object_datas(os: Seq<SaveObject>) -> Seq<u8>
    decreases os.len(),
{
    if os.len() == 0 {
        Seq::empty()
    } else {
        ser_data(os[0].data) + ser_object_datas(os.drop_first())
    }
}

/// The wire image of one whole save file.
pub open spec fn ser_file(f: SaveFile) -> Seq<u8> {
    le_u32(f.version) + le_u32(f.names@.len() as u32) + ser_names(f.names@) + le_u32(
        f.objects@.len() as u32,
    ) + ser_words(object_name_ids(f.objects@)) + ser_object_datas(f.objects@) + ser_plot(f.plot)
}

/// What every decoded file satisfies: counts fit their wire fields, every
/// name id points into the name table, every Data block is well-formed
/// against both tables, and the plot table is well-formed.
pub open spec fn file_wf(f: SaveFile) -> bool {
    &&& f.names@.len() <= u32::MAX
    &&& f.objects@.len() <= u32::MAX
    &&& forall|i: int| 0 <= i < f.names@.len() ==> (#[trigger] f.names@[i])@.len() <= u32::MAX
    &&& forall|i: int|
        0 <= i < f.objects@.len() ==> ((#[trigger] f.objects@[i]).name_id as int)
            < f.names@.len() && wf_data(f.objects@[i].data, views_of(f.names@), f.objects@.len() as int)
    &&& plot_wf(f.plot)
}

pub proof fn lemma_ser_names_push(ns: Seq<Vec<u8>>, n: Vec<u8>)
    ensures
        ser_names(ns.push(n)) == ser_names(ns) + le_block(n@),
    decreases ns.len(),
{
    if ns.len() == 0 {
        reveal_with_fuel(ser_names, 2);
        assert(ns.push(n).drop_first() =~= Seq::<Vec<u8>>::empty());
        assert(ser_names(ns.push(n)) =~= ser_names(ns) + le_block(n@));
    } else {
        assert(ns.push(n).drop_first() =~= ns.drop_first().push(n));
        lemma_ser_names_push(ns.drop_first(), n);
        assert(ser_names(ns.push(n)) =~= ser_names(ns) + le_block(n@));
    }
}

pub proof fn lemma_ser_object_datas_push(os: Seq<SaveObject>, o: SaveObject)
    ensures
        ser_object_datas(os.push(o)) == ser_object_datas(os) + ser_data(o.data),
    decreases os.len(),
{
    if os.len() == 0 {
        reveal_with_fuel(ser_object_datas, 2);
        assert(os.push(o).drop_first() =~= Seq::<SaveObject>::empty());
        assert(ser_object_datas(os.push(o)) =~= ser_object_datas(os) + ser_data(o.data));
    } else {
        assert(os.push(o).drop_first() =~= os.drop_first().push(o));
        lemma_ser_object_datas_push(os.drop_first(), o);
        assert(ser_object_datas(os.push(o)) =~= ser_object_datas(os) + ser_data(o.data));
    }
}

/// Decodes one whole save file, in a single forward pass: header, name
/// table, object table, each object's Data block in table order, then the
/// plot table in the shape the game variant prescribes. Bytes left over
/// after the plot table mean the file is not one this engine models:
/// corrupt.
#[verifier::rlimit(30)]
pub fn decode_save(buf: Vec<u8>, shape: PlotShape) -> (r: Result<SaveFile, DecodeError>)
    ensures
        match r {
            Ok(f) => {
                &&& file_wf(f)
                &&& num_table_shape(f.plot.integers) == shape
                &&& num_table_shape(f.plot.floats) == shape
                &&& ser_file(f) == buf@
            },
            Err(e) => e == DecodeError::OutOfBounds || e == DecodeError::Corrupt,
        },
{
    let buf_len = buf.len();
    let mut cursor = SaveCursor::new(buf);
    let ghost bytes = cursor.bytes();
    let version = match cursor.read_u32() {
        Ok(v) => v,
        Err(e) => {
            return Err(e);
        },
    };
    // Name table: a count, then that many length-prefixed strings.
    let name_count = match cursor.read_u32() {
        Ok(v) => v,
        Err(e) => {
            return Err(e);
        },
    };
    let name_count_us = name_count as usize;
    let mut names: Vec<Vec<u8>> = Vec::new();
    let ghost c_names = cursor.pos();
    proof {
        assert(ser_names(names@) =~= bytes.subrange(c_names, c_names));
    }
    let mut i: usize = 0;
    while i < name_count_us
        invariant
            cursor.wf(),
            cursor.bytes() == bytes,
            i <= name_count_us,
            names@.len() == i,
            0 <= c_names <= cursor.pos() <= bytes.len(),
            ser_names(names@) == bytes.subrange(c_names, cursor.pos()),
            forall|k: int| 0 <= k < names@.len() ==> (#[trigger] names@[k])@.len() <= u32::MAX,
        decreases name_count_us - i,
    {
        let ghost c0 = cursor.pos();
        let n = match cursor.read_block() {
            Ok(v) => v,
            Err(e) => {
                return Err(e);
            },
        };
        proof {
            lemma_ser_names_push(names@, n);
            lemma_subrange_split(bytes, c_names, c0, cursor.pos());
        }
        names.push(n);
        i = i + 1;
    }
    // Object table: a count, then each object's name id.
    let object_count = match cursor.read_u32() {
        Ok(v) => v,
        Err(e) => {
            return Err(e);
        },
    };
    let object_count_us = object_count as usize;
    let mut name_ids: Vec<u32> = Vec::new();
    let ghost c_heads = cursor.pos();
    proof {
        assert(ser_words(name_ids@) =~= bytes.subrange(c_heads, c_heads));
    }
    let mut i: usize = 0;
    while i < object_count_us
        invariant
            cursor.wf(),
            cursor.bytes() == bytes,
            i <= object_count_us,
            name_ids@.len() == i,
            0 <= c_heads <= cursor.pos() <= bytes.len(),
            ser_words(name_ids@) == bytes.subrange(c_heads, cursor.pos()),
            forall|k: int|
                0 <= k < name_ids@.len() ==> (#[trigger] name_ids@[k] as int) < names@.len(),
            names@.len() == name_count_us,
        decreases object_count_us - i,
    {
        let ghost c0 = cursor.pos();
        let nid = match cursor.read_u32() {
            Ok(v) => v,
            Err(e) => {
                return Err(e);
            },
        };
        if nid as usize >= names.len() {
            return Err(DecodeError::Corrupt);
        }
        proof {
            lemma_ser_words_push(name_ids@, nid);
            lemma_subrange_split(bytes, c_heads, c0, cursor.pos());
        }
        name_ids.push(nid);
        i = i + 1;
    }
    // Each object's Data block, in table order.
    let mut objects: Vec<SaveObject> = Vec::new();
    let ghost c_datas = cursor.pos();
    proof {
        assert(ser_object_datas(objects@) =~= bytes.subrange(c_datas, c_datas));
    }
    let mut i: usize = 0;
    while i < object_count_us
        invariant
            cursor.wf(),
            cursor.bytes() == bytes,
            i <= object_count_us,
            objects@.len() == i,
            name_ids@.len() == object_count_us,
            names@.len() == name_count_us,
            0 <= c_datas <= cursor.pos() <= bytes.len(),
            ser_object_datas(objects@) == bytes.subrange(c_datas, cursor.pos()),
            forall|k: int|
                0 <= k < objects@.len() ==> (#[trigger] objects@[k]).name_id == name_ids@[k],
            forall|k: int|
                0 <= k < objects@.len() ==> wf_data(
                    (#[trigger] objects@[k]).data,
                    views_of(names@),
                    object_count_us as int,
                ),
            forall|k: int|
                0 <= k < name_ids@.len() ==> (#[trigger] name_ids@[k] as int) < names@.len(),
        decreases object_count_us - i,
    {
        let ghost c0 = cursor.pos();
        let d = match decode_data(&mut cursor, &names, object_count_us) {
            Ok(d) => d,
            Err(e) => {
                return Err(e);
            },
        };
        let o = SaveObject { name_id: name_ids[i], data: d };
        proof {
            lemma_ser_object_datas_push(objects@, o);
            lemma_subrange_split(bytes, c_datas, c0, cursor.pos());
        }
        objects.push(o);
        i = i + 1;
    }
    // Plot table, then nothing else.
    let ghost c_plot = cursor.pos();
    let plot = match decode_plot(&mut cursor, shape) {
        Ok(p) => p,
        Err(e) => {
            return Err(e);
        },
    };
    if cursor.position() != buf_len {
        return Err(DecodeError::Corrupt);
    }
    let f = SaveFile { version, names, objects, plot };
    proof {
        assert(object_name_ids(f.objects@) =~= name_ids@);
        assert(le_u32(f.names@.len() as u32) == bytes.subrange(4, 8));
        assert(le_u32(f.objects@.len() as u32) == bytes.subrange(c_names + ser_names(
            f.names@,
        ).len(), c_heads));
        lemma_subrange_split(bytes, 0, 4, 8);
        lemma_subrange_split(bytes, 0, 8, c_names + ser_names(f.names@).len());
        lemma_subrange_split(bytes, 0, c_names + ser_names(f.names@).len(), c_heads);
        lemma_subrange_split(bytes, 0, c_heads, c_datas);
        lemma_subrange_split(bytes, 0, c_datas, c_plot);
        lemma_subrange_split(bytes, 0, c_plot, bytes.len() as int);
        assert(bytes.subrange(0, bytes.len() as int) =~= bytes);
        assert(ser_file(f) == bytes);
    }
    Ok(f)
}

/// Serializes one whole save file; an unedited decoded file re-serializes
/// to exactly the bytes it was decoded from, since `decode_save` ensures
/// those bytes are `ser_file` of its result.
pub fn encode_save(f: &SaveFile) -> (r: Vec<u8>)
    requires
        file_wf(*f),
    ensures
        r@ == ser_file(*f),
{
    let mut out: Vec<u8> = Vec::new();
    write_u32(&mut out, f.version);
    write_u32(&mut out, f.names.len() as u32);
    let ghost base = out@;
    let mut i: usize = 0;
    while i < f.names.len()
        invariant
            i <= f.names@.len(),
            f.names@.len() <= u32::MAX,
            forall|k: int| 0 <= k < f.names@.len() ==> (#[trigger] f.names@[k])@.len() <= u32::MAX,
            out@ == base + ser_names(f.names@.take(i as int)),
        decreases f.names@.len() - i,
    {
        match write_block(&mut out, &f.names[i]) {
            Ok(()) => {},
            Err(_) => {
                proof {
                    assert(false);
                }
            },
        }
        proof {
            assert(f.names@.take(i + 1) =~= f.names@.take(i as int).push(f.names@[i as int]));
            lemma_ser_names_push(f.names@.take(i as int), f.names@[i as int]);
        }
        i = i + 1;
    }
    proof {
        assert(f.names@.take(f.names@.len() as int) =~= f.names@);
    }
    write_u32(&mut out, f.objects.len() as u32);
    let ghost base2 = out@;
    let mut i: usize = 0;
    while i < f.objects.len()
        invariant
            i <= f.objects@.len(),
            out@ == base2 + ser_words(object_name_ids(f.objects@).take(i as int)),
        decreases f.objects@.len() - i,
    {
        write_u32(&mut out, f.objects[i].name_id);
        proof {
            let ids = object_name_ids(f.objects@);
            assert(ids.take(i + 1) =~= ids.take(i as int).push(ids[i as int]));
            lemma_ser_words_push(ids.take(i as int), ids[i as int]);
        }
        i = i + 1;
    }
    proof {
        let ids = object_name_ids(f.objects@);
        assert(ids.take(ids.len() as int) =~= ids);
    }
    let ghost base3 = out@;
    let mut i: usize = 0;
    while i < f.objects.len()
        invariant
            i <= f.objects@.len(),
            f.names@.len() <= u32::MAX,
            f.objects@.len() <= u32::MAX,
            forall|k: int|
                0 <= k < f.objects@.len() ==> wf_data(
                    (#[trigger] f.objects@[k]).data,
                    views_of(f.names@),
                    f.objects@.len() as int,
                ),
            out@ == base3 + ser_object_datas(f.objects@.take(i as int)),
        decreases f.objects@.len() - i,
    {
        match encode_data(&f.objects[i].data, &mut out) {
            Ok(()) => {},
            Err(_) => {
                proof {
                    assert(false);
                }
            },
        }
        proof {
            assert(f.objects@.take(i + 1) =~= f.objects@.take(i as int).push(
                f.objects@[i as int],
            ));
            lemma_ser_object_datas_push(f.objects@.take(i as int), f.objects@[i as int]);
        }
        i = i + 1;
    }
    proof {
        assert(f.objects@.take(f.objects@.len() as int) =~= f.objects@);
    }
    encode_plot(&f.plot, &mut out);
    proof {
        assert(out@ =~= ser_file(*f));
    }
    out
}

/// The Data blocks of a run of objects, in table order.
pub open spec fn object_datas(os: Seq<SaveObject>) -> Seq<Data> {
    os.map_values(|o: SaveObject| o.data)
}

/// Structural equality of two decoded files: same version, same names,
/// same object table, node-for-node alike Data blocks, and equal plot
/// contents.
pub open spec fn file_like(f1: SaveFile, f2: SaveFile) -> bool {
    &&& f1.version == f2.version
    &&& views_of(f1.names@) == views_of(f2.names@)
    &&& object_name_ids(f1.objects@) == object_name_ids(f2.objects@)
    &&& crate::data::datas_like(object_datas(f1.objects@), object_datas(f2.objects@))
    &&& crate::plot::plot_like(f1.plot, f2.plot)
}

/// Splitting one shared byte stream at a boundary both sides agree on.
proof fn lemma_concat_split(a1: Seq<u8>, t1: Seq<u8>, a2: Seq<u8>, t2: Seq<u8>)
    requires
        a1 + t1 == a2 + t2,
        a1.len() == a2.len(),
    ensures
        a1 == a2,
        t1 == t2,
{
    assert((a1 + t1).len() == a1.len() + t1.len());
    assert((a2 + t2).len() == a2.len() + t2.len());
    assert(a1 =~= a2) by {
        assert(forall|k: int|
            0 <= k < a1.len() ==> #[trigger] a1[k] == (a1 + t1)[k] && a2[k] == (a2 + t2)[k]);
    }
    assert(t1 =~= t2) by {
        assert(forall|k: int| 0 <= k < t1.len() ==> #[trigger] t1[k] == (a1 + t1)[a1.len() + k]);
        assert(forall|k: int| 0 <= k < t2.len() ==> #[trigger] t2[k] == (a2 + t2)[a2.len() + k]);
    }
}

/// Ser of an object run is ser of its Data blocks.
proof fn lemma_ser_object_datas_is_data_seq(os: Seq<SaveObject>)
    ensures
        ser_object_datas(os) == crate::data::ser_data_seq(object_datas(os)),
    decreases os.len(),
{
    if os.len() == 0 {
        assert(object_datas(os).len() == 0);
    } else {
        lemma_ser_object_datas_is_data_seq(os.drop_first());
        assert(object_datas(os).drop_first() =~= object_datas(os.drop_first()));
        assert(object_datas(os)[0] == os[0].data);
        assert(crate::data::ser_data_seq(object_datas(os)) == ser_data(os[0].data)
            + crate::data::ser_data_seq(object_datas(os.drop_first())));
    }
}

/// Name-table strings are length-prefixed, so their run is
/// self-delimiting: two equally long runs that open the same stream spell
/// the same strings and leave the same remainder.
proof fn lemma_names_of_stream(ns1: Seq<Vec<u8>>, ns2: Seq<Vec<u8>>, x1: Seq<u8>, x2: Seq<u8>)
    requires
        ns1.len() == ns2.len(),
        forall|i: int| 0 <= i < ns1.len() ==> (#[trigger] ns1[i])@.len() <= u32::MAX,
        forall|i: int| 0 <= i < ns2.len() ==> (#[trigger] ns2[i])@.len() <= u32::MAX,
        ser_names(ns1) + x1 == ser_names(ns2) + x2,
    ensures
        views_of(ns1) == views_of(ns2),
        ser_names(ns1) == ser_names(ns2),
        x1 == x2,
    decreases ns1.len(),
{
    if ns1.len() == 0 {
        assert(ser_names(ns1) =~= Seq::<u8>::empty());
        assert(ser_names(ns2) =~= Seq::<u8>::empty());
        assert(x1 =~= x2);
        assert(views_of(ns1) =~= views_of(ns2));
    } else {
        let h1 = ns1[0]@;
        let h2 = ns2[0]@;
        let r1 = ser_names(ns1.drop_first());
        let r2 = ser_names(ns2.drop_first());
        assert(ser_names(ns1) == le_block(h1) + r1);
        assert(ser_names(ns2) == le_block(h2) + r2);
        assert((le_block(h1) + r1) + x1 =~= le_block(h1) + (r1 + x1));
        assert((le_block(h2) + r2) + x2 =~= le_block(h2) + (r2 + x2));
        let s1 = le_block(h1) + (r1 + x1);
        let s2 = le_block(h2) + (r2 + x2);
        assert(le_u32(h1.len() as u32) =~= le_u32(h2.len() as u32)) by {
            assert(forall|k: int|
                0 <= k < 4 ==> #[trigger] le_u32(h1.len() as u32)[k] == le_block(h1)[k] && le_u32(
                    h2.len() as u32,
                )[k] == le_block(h2)[k]);
            assert(forall|k: int|
                0 <= k < 4 ==> #[trigger] le_block(h1)[k] == s1[k] && le_block(h2)[k] == s2[k]);
        }
        crate::cursor::lemma_le_u32_injective(h1.len() as u32, h2.len() as u32);
        assert(h1.len() == h2.len());
        assert(le_block(h1).len() == le_block(h2).len());
        lemma_concat_split(le_block(h1), r1 + x1, le_block(h2), r2 + x2);
        assert(h1 =~= h2) by {
            assert(forall|k: int|
                0 <= k < h1.len() ==> #[trigger] h1[k] == le_block(h1)[4 + k] && h2[k] == le_block(
                    h2,
                )[4 + k]);
        }
        let d1 = ns1.drop_first();
        let d2 = ns2.drop_first();
        assert(forall|i: int| 0 <= i < d1.len() ==> (#[trigger] d1[i])@.len() <= u32::MAX) by {
            assert(forall|i: int| 0 <= i < d1.len() ==> #[trigger] d1[i] == ns1[i + 1]);
        }
        assert(forall|i: int| 0 <= i < d2.len() ==> (#[trigger] d2[i])@.len() <= u32::MAX) by {
            assert(forall|i: int| 0 <= i < d2.len() ==> #[trigger] d2[i] == ns2[i + 1]);
        }
        lemma_names_of_stream(d1, d2, x1, x2);
        assert(views_of(ns1) =~= views_of(ns2)) by {
            assert forall|i: int| 0 <= i < ns1.len() implies #[trigger] views_of(ns1)[i]
                == views_of(ns2)[i] by {
                if i > 0 {
                    assert(d1[i - 1] == ns1[i] && d2[i - 1] == ns2[i]);
                    assert(views_of(d1)[i - 1] == views_of(d2)[i - 1]);
                }
            }
        }
        assert(ser_names(ns1) == ser_names(ns2));
    }
}

/// Decode is deterministic, file for file: two well-formed files with the
/// same wire image and the same per-variant plot shape agree on every
/// observable part of the graph — decoding the same buffer twice cannot
/// yield two different save graphs.
#[verifier::rlimit(60)]
pub proof fn lemma_file_image_determines_graph(f1: SaveFile, f2: SaveFile)
    requires
        ser_file(f1) == ser_file(f2),
        file_wf(f1),
        file_wf(f2),
        crate::plot::num_table_shape(f1.plot.integers) == crate::plot::num_table_shape(
            f2.plot.integers,
        ),
        crate::plot::num_table_shape(f1.plot.floats) == crate::plot::num_table_shape(
            f2.plot.floats,
        ),
    ensures
        file_like(f1, f2),
{
    let a1 = le_u32(f1.version);
    let b1 = le_u32(f1.names@.len() as u32);
    let c1 = ser_names(f1.names@);
    let d1 = le_u32(f1.objects@.len() as u32);
    let e1 = ser_words(object_name_ids(f1.objects@));
    let g1 = ser_object_datas(f1.objects@);
    let p1 = ser_plot(f1.plot);
    let a2 = le_u32(f2.version);
    let b2 = le_u32(f2.names@.len() as u32);
    let c2 = ser_names(f2.names@);
    let d2 = le_u32(f2.objects@.len() as u32);
    let e2 = ser_words(object_name_ids(f2.objects@));
    let g2 = ser_object_datas(f2.objects@);
    let p2 = ser_plot(f2.plot);
    assert(ser_file(f1) =~= a1 + (b1 + (c1 + (d1 + (e1 + (g1 + p1))))));
    assert(ser_file(f2) =~= a2 + (b2 + (c2 + (d2 + (e2 + (g2 + p2))))));
    lemma_concat_split(a1, b1 + (c1 + (d1 + (e1 + (g1 + p1)))), a2, b2 + (c2 + (d2 + (e2 + (g2
        + p2)))));
    crate::cursor::lemma_le_u32_injective(f1.version, f2.version);
    lemma_concat_split(b1, c1 + (d1 + (e1 + (g1 + p1))), b2, c2 + (d2 + (e2 + (g2 + p2))));
    crate::cursor::lemma_le_u32_injective(f1.names@.len() as u32, f2.names@.len() as u32);
    assert(f1.names@.len() == f2.names@.len());
    lemma_names_of_stream(
        f1.names@,
        f2.names@,
        d1 + (e1 + (g1 + p1)),
        d2 + (e2 + (g2 + p2)),
    );
    lemma_concat_split(d1, e1 + (g1 + p1), d2, e2 + (g2 + p2));
    crate::cursor::lemma_le_u32_injective(f1.objects@.len() as u32, f2.objects@.len() as u32);
    assert(f1.objects@.len() == f2.objects@.len());
    crate::plot::lemma_ser_words_len(object_name_ids(f1.objects@));
    crate::plot::lemma_ser_words_len(object_name_ids(f2.objects@));
    assert(object_name_ids(f1.objects@).len() == f1.objects@.len());
    assert(object_name_ids(f2.objects@).len() == f2.objects@.len());
    lemma_concat_split(e1, g1 + p1, e2, g2 + p2);
    crate::plot::lemma_ser_words_injective(
        object_name_ids(f1.objects@),
        object_name_ids(f2.objects@),
    );
    lemma_ser_object_datas_is_data_seq(f1.objects@);
    lemma_ser_object_datas_is_data_seq(f2.objects@);
    let ds1 = object_datas(f1.objects@);
    let ds2 = object_datas(f2.objects@);
    assert(crate::data::refs_ok_data_seq(ds1, views_of(f1.names@), f1.objects@.len() as int)
        && crate::data::sizes_ok_data_seq(ds1)) by {
        assert(forall|i: int| 0 <= i < ds1.len() ==> #[trigger] ds1[i] == f1.objects@[i].data);
    }
    assert(crate::data::refs_ok_data_seq(ds2, views_of(f1.names@), f1.objects@.len() as int)
        && crate::data::sizes_ok_data_seq(ds2)) by {
        assert(forall|i: int| 0 <= i < ds2.len() ==> #[trigger] ds2[i] == f2.objects@[i].data);
    }
    crate::data::lemma_datas_like_of_stream(
        ds1,
        ds2,
        p1,
        p2,
        views_of(f1.names@),
        f1.objects@.len() as int,
    );
    assert(ser_plot(f1.plot) + Seq::<u8>::empty() =~= ser_plot(f2.plot) + Seq::<u8>::empty());
    crate::plot::lemma_plot_of_stream(
        f1.plot,
        f2.plot,
        Seq::empty(),
        Seq::empty(),
    );
}

/// Whether a property's name, resolved through the name table, is `name`.
pub open spec fn prop_named(names: Seq<Vec<u8>>, p: DataProperty, name: Seq<u8>) -> bool {
    (prop_name_id(p) as int) < names.len() && names[prop_name_id(p) as int]@ == name
}

impl SaveFile {
    /// The string a name id denotes, if the id is in the table.
    pub fn name_at(&self, id: u32) -> (r: Option<&Vec<u8>>)
        ensures
            match r {
                Some(n) => (id as int) < self.names@.len() && n@ == self.names@[id as int]@,
                None => (id as int) >= self.names@.len(),
            },
    {
        if (id as usize) < self.names.len() {
            Some(&self.names[id as usize])
        } else {
            None
        }
    }

    /// The Data block a non-zero object id refers to; id zero means "no
    /// reference" and ids are one-based, as the wire format has them.
    pub fn object_data(&self, object_id: u32) -> (r: Option<&Data>)
        ensures
            match r {
                Some(d) => 1 <= object_id && (object_id as int) <= self.objects@.len() && *d
                    == self.objects@[object_id as int - 1].data,
                None => object_id == 0 || (object_id as int) > self.objects@.len(),
            },
    {
        if object_id >= 1 && (object_id as usize) <= self.objects.len() {
            Some(&self.objects[(object_id as usize) - 1].data)
        } else {
            None
        }
    }

    /// The first property in the list whose name, resolved through the name
    /// table, is `name`: one exhaustive match over the whole union,
    /// extracting the uniform name id.
    pub fn find_property(&self, props: &Vec<DataProperty>, name: &Vec<u8>) -> (r: Option<usize>)
        ensures
            match r {
                Some(i) => {
                    &&& i < props@.len()
                    &&& prop_named(self.names@, props@[i as int], name@)
                    &&& forall|j: int|
                        0 <= j < i ==> !prop_named(self.names@, #[trigger] props@[j], name@)
                },
                None => forall|j: int|
                    0 <= j < props@.len() ==> !prop_named(self.names@, #[trigger] props@[j], name@),
            },
    {
        let mut i: usize = 0;
        while i < props.len()
            invariant
                i <= props@.len(),
                forall|j: int|
                    0 <= j < i ==> !prop_named(self.names@, #[trigger] props@[j], name@),
            decreases props@.len() - i,
        {
            let nid = prop_name(&props[i]);
            if (nid as usize) < self.names.len() {
                if bytes_eq(&self.names[nid as usize], name) {
                    return Some(i);
                }
            }
            i = i + 1;
        }
        None
    }

    /// The object id held by the first property of that name, if that
    /// property is `Object`-typed: `Some` exactly when the first property
    /// whose name resolves to `name` is an `Object` reference, `None` when
    /// no property has that name or the first one of that name is of any
    /// other kind.
    pub fn find_object_id(&self, props: &Vec<DataProperty>, name: &Vec<u8>) -> (r: Option<u32>)
        ensures
            match r {
                Some(oid) => exists|i: int|
                    {
                        &&& 0 <= i < props@.len()
                        &&& prop_named(self.names@, #[trigger] props@[i], name@)
                        &&& forall|j: int|
                            0 <= j < i ==> !prop_named(self.names@, #[trigger] props@[j], name@)
                        &&& props@[i] is Object
                        &&& props@[i]->Object_object_id == oid
                    },
                None => forall|i: int|
                    (0 <= i < props@.len() && prop_named(self.names@, #[trigger] props@[i], name@)
                        && (forall|j: int|
                        0 <= j < i ==> !prop_named(self.names@, #[trigger] props@[j], name@)))
                        ==> !(props@[i] is Object),
            },
    {
        match self.find_property(props, name) {
            Some(i) => {
                match &props[i] {
                    DataProperty::Object { object_id, .. } => Some(*object_id),
                    _ => {
                        proof {
                            assert forall|k: int|
                                (0 <= k < props@.len() && prop_named(
                                    self.names@,
                                    #[trigger] props@[k],
                                    name@,
                                ) && (forall|j: int|
                                    0 <= j < k ==> !prop_named(
                                        self.names@,
                                        #[trigger] props@[j],
                                        name@,
                                    ))) implies !(props@[k] is Object) by {
                                if k != i as int {
                                    if k < i as int {
                                        assert(!prop_named(self.names@, props@[k], name@));
                                    } else {
                                        assert(!prop_named(self.names@, props@[i as int], name@));
                                    }
                                }
                            }
                        }
                        None
                    },
                }
            },
            None => None,
        }
    }
}

/// Reads the integer held by an `Int`-typed property.
pub fn int_value_at(props: &Vec<DataProperty>, i: usize) -> (r: Option<i32>)
    ensures
        match r {
            Some(v) => i < props@.len() && props@[i as int] is Int && props@[i as int]->Int_value
                == v,
            None => i >= props@.len() || !(props@[i as int] is Int),
        },
{
    if i < props.len() {
        match &props[i] {
            DataProperty::Int { value, .. } => Some(*value),
            _ => None,
        }
    } else {
        None
    }
}

/// Writes a new integer into an `Int`-typed property, leaving its name and
/// every other property untouched: the in-place edit of the editing
/// boundary.
pub fn set_int_at(props: &mut Vec<DataProperty>, i: usize, v: i32) -> (r: bool)
    ensures
        if i < old(props)@.len() && old(props)@[i as int] is Int {
            &&& r
            &&& final(props)@ == old(props)@.update(
                i as int,
                DataProperty::Int {
                    name_id: prop_name_id(old(props)@[i as int]),
                    value: v,
                },
            )
        } else {
            !r && *final(props) == *old(props)
        },
{
    if i < props.len() {
        let nid = match &props[i] {
            DataProperty::Int { name_id, .. } => *name_id,
            _ => {
                return false;
            },
        };
        props.set(i, DataProperty::Int { name_id: nid, value: v });
        true
    } else {
        false
    }
}

} // verus!
