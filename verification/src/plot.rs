//! The plot table: compact storage of scripted game-progress state.
//!
//! Booleans are a bit-vector backed by 32-bit words, least-significant bit
//! first, written as a word count followed by the words. Integer and float
//! collections are stored either as a dense ordered run of 32-bit values or
//! as explicit `(id, value)` pairs with unique ids in insertion order; which
//! of the two a file uses is fixed by the game variant being decoded, never
//! inferred from the data. Float values travel as their raw 32-bit word.

use vstd::prelude::*;

use crate::cursor::{le_i32, le_u32, write_i32, write_u32, SaveCursor};
use crate::error::DecodeError;

verus! {

/// The boolean plot bit-vector: bitvec's `BitVec`, 32-bit words in `Lsb0`
/// order, held opaquely. Verus sees it only through `bool_vec_words`,
/// `bool_vec_len` and the trusted accessors beside them.
#[verifier::external_body]
pub struct BoolVec {
    inner: bitvec::vec::BitVec<u32, bitvec::order::Lsb0>,
}

#[verifier::external_type_specification]
#[verifier::external_body]
#[verifier::reject_recursive_types(K)]
#[verifier::reject_recursive_types(V)]
#[verifier::reject_recursive_types(S)]
pub struct ExIndexMap<K, V, S>(indexmap::IndexMap<K, V, S>);

/// The 32-bit words backing a bit-vector, in storage order.
pub uninterp spec fn bool_vec_words(v: BoolVec) -> Seq<u32>;

/// How many live bits the bit-vector holds.
pub uninterp spec fn bool_vec_len(v: BoolVec) -> nat;

/// The `(id, value)` pairs of the map, in insertion order.
pub uninterp spec fn sparse_entries(m: indexmap::IndexMap<i32, u32>) -> Seq<(i32, u32)>;

/// Bit `j` of a word, least-significant bit first.
pub open spec fn word_bit(w: u32, j: u32) -> bool {
    (w >> j) & 1 == 1
}

/// A word with bit `j` forced to `b` and every other bit kept.
pub open spec fn set_word_bit(w: u32, j: u32, b: bool) -> u32 {
    if b {
        w | (1u32 << j)
    } else {
        w & !(1u32 << j)
    }
}

/// The boolean sequence a run of words spells out, least-significant bit of
/// the first word first.
pub open spec fn unpack_bits(words: Seq<u32>) -> Seq<bool> {
    Seq::new(words.len() * 32, |i: int| word_bit(words[i / 32], (i % 32) as u32))
}

/// Relies on bitvec's `BitVec::from_vec`: every bit of every word becomes a
/// live bit, in `Lsb0` order within each word. The word count stays under
/// the crate's bit-addressing ceiling, so the conversion cannot fail.
#[verifier::external_body]
pub(crate) fn bv_from_words(words: Vec<u32>) -> (r: BoolVec)
    requires
        words@.len() <= usize::MAX / 256,
    ensures
        bool_vec_words(r) == words@,
        bool_vec_len(r) == words@.len() * 32,
{
    BoolVec { inner: bitvec::vec::BitVec::from_vec(words) }
}

/// Relies on bitvec's `BitSlice::as_raw_slice`: the backing words of the
/// live bits, in storage order.
#[verifier::external_body]
pub(crate) fn bv_to_words(v: &BoolVec) -> (r: Vec<u32>)
    ensures
        r@ == bool_vec_words(*v),
{
    v.inner.as_raw_slice().to_vec()
}

/// Relies on bitvec's `BitSlice::len`: the number of live bits.
#[verifier::external_body]
pub(crate) fn bv_len(v: &BoolVec) -> (r: usize)
    ensures
        r == bool_vec_len(*v),
{
    v.inner.len()
}

/// Relies on bitvec's bit indexing: bit `i` lives in storage word `i / 32`
/// at `Lsb0` position `i % 32`.
#[verifier::external_body]
pub(crate) fn bv_get(v: &BoolVec, i: usize) -> (r: bool)
    requires
        i < bool_vec_len(*v),
        i / 32 < bool_vec_words(*v).len(),
    ensures
        r == word_bit(bool_vec_words(*v)[i as int / 32], (i % 32) as u32),
{
    *v.inner.get(i).unwrap()
}

/// Relies on bitvec's `BitSlice::set`: writes bit `i % 32` of storage word
/// `i / 32` and leaves every other bit and the length alone.
#[verifier::external_body]
pub(crate) fn bv_set(v: &mut BoolVec, i: usize, b: bool)
    requires
        i < bool_vec_len(*old(v)),
        i / 32 < bool_vec_words(*old(v)).len(),
    ensures
        bool_vec_len(*final(v)) == bool_vec_len(*old(v)),
        bool_vec_words(*final(v)) == bool_vec_words(*old(v)).update(
            i as int / 32,
            set_word_bit(bool_vec_words(*old(v))[i as int / 32], (i % 32) as u32, b),
        ),
{
    v.inner.set(i, b);
}

/// Relies on indexmap's `IndexMap::new`: an empty map.
#[verifier::external_body]
pub(crate) fn im_new() -> (r: indexmap::IndexMap<i32, u32>)
    ensures
        sparse_entries(r) == Seq::<(i32, u32)>::empty(),
{
    indexmap::IndexMap::new()
}

/// Relies on indexmap's `IndexMap::len`: the number of entries.
#[verifier::external_body]
pub(crate) fn im_len(m: &indexmap::IndexMap<i32, u32>) -> (r: usize)
    ensures
        r == sparse_entries(*m).len(),
{
    m.len()
}

/// Relies on indexmap's `IndexMap::contains_key`.
#[verifier::external_body]
pub(crate) fn im_contains(m: &indexmap::IndexMap<i32, u32>, k: i32) -> (r: bool)
    ensures
        r == entries_have_key(sparse_entries(*m), k),
{
    m.contains_key(&k)
}

/// Relies on indexmap's `IndexMap::insert`: a key the map does not hold yet
/// is appended, last in order.
#[verifier::external_body]
pub(crate) fn im_insert_new(m: &mut indexmap::IndexMap<i32, u32>, k: i32, v: u32)
    requires
        !entries_have_key(sparse_entries(*old(m)), k),
    ensures
        sparse_entries(*final(m)) == sparse_entries(*old(m)).push((k, v)),
{
    m.insert(k, v);
}

/// Relies on indexmap's `IndexMap::get`: the value stored under the key, if
/// any.
#[verifier::external_body]
pub(crate) fn im_get(m: &indexmap::IndexMap<i32, u32>, k: i32) -> (r: Option<u32>)
    ensures
        match r {
            Some(v) => exists|i: int|
                0 <= i < sparse_entries(*m).len() && #[trigger] sparse_entries(*m)[i] == (k, v),
            None => !entries_have_key(sparse_entries(*m), k),
        },
{
    m.get(&k).copied()
}

/// Relies on indexmap's `IndexMap::get_index`: the entry at a position, in
/// insertion order.
#[verifier::external_body]
pub(crate) fn im_entry_at(m: &indexmap::IndexMap<i32, u32>, i: usize) -> (r: Option<(i32, u32)>)
    ensures
        match r {
            Some(e) => i < sparse_entries(*m).len() && e == sparse_entries(*m)[i as int],
            None => i >= sparse_entries(*m).len(),
        },
{
    m.get_index(i).map(|(k, v)| (*k, *v))
}

/// Whether some entry carries the key.
pub open spec fn entries_have_key(es: Seq<(i32, u32)>, k: i32) -> bool {
    exists|i: int| 0 <= i < es.len() && #[trigger] es[i].0 == k
}

/// Every id appears at most once.
pub open spec fn entries_unique(es: Seq<(i32, u32)>) -> bool {
    forall|i: int, j: int| 0 <= i < j < es.len() ==> (#[trigger] es[i]).0 != (#[trigger] es[j]).0
}

/// Forcing one bit leaves every other bit of the word alone.
pub proof fn lemma_set_word_bit(w: u32, j: u32, b: bool, j2: u32)
    requires
        j < 32,
        j2 < 32,
    ensures
        word_bit(set_word_bit(w, j, b), j2) == if j2 == j {
            b
        } else {
            word_bit(w, j2)
        },
{
    assert(((if b {
        w | (1u32 << j)
    } else {
        w & !(1u32 << j)
    }) >> j2) & 1 == (if j2 == j {
        if b {
            1u32
        } else {
            0u32
        }
    } else {
        (w >> j2) & 1
    })) by (bit_vector)
        requires
            j < 32,
            j2 < 32,
    ;
}

/// The boolean plot collection: a word-aligned bit-vector. The logical
/// sequence of booleans is the concatenation of the words' bits,
/// least-significant bit first.
pub struct BoolTable {
    bits: BoolVec,
}

impl BoolTable {
    /// The backing 32-bit words, as the wire carries them.
    pub closed spec fn words(&self) -> Seq<u32> {
        bool_vec_words(self.bits)
    }

    /// The logical boolean sequence.
    pub open spec fn bools(&self) -> Seq<bool> {
        unpack_bits(self.words())
    }

    /// The bit-vector stays word-aligned and its word count fits the wire.
    pub closed spec fn wf(&self) -> bool {
        bool_vec_len(self.bits) == self.words().len() * 32 && self.words().len() <= u32::MAX
    }

    pub fn from_words(words: Vec<u32>) -> (r: BoolTable)
        requires
            words@.len() <= u32::MAX,
            words@.len() <= usize::MAX / 256,
        ensures
            r.wf(),
            r.words() == words@,
    {
        BoolTable { bits: bv_from_words(words) }
    }

    pub fn to_words(&self) -> (r: Vec<u32>)
        ensures
            r@ == self.words(),
    {
        bv_to_words(&self.bits)
    }

    pub fn len(&self) -> (r: usize)
        requires
            self.wf(),
        ensures
            r == self.bools().len(),
    {
        bv_len(&self.bits)
    }

    /// Reads one boolean, if the index is within the recorded count.
    pub fn get(&self, i: usize) -> (r: Option<bool>)
        requires
            self.wf(),
        ensures
            match r {
                Some(b) => i < self.bools().len() && b == self.bools()[i as int],
                None => i >= self.bools().len(),
            },
    {
        let n = bv_len(&self.bits);
        if i < n {
            proof {
                assert((i as int) / 32 < self.words().len()) by (nonlinear_arith)
                    requires
                        (i as int) < self.words().len() * 32,
                        0 <= i as int,
                ;
            }
            Some(bv_get(&self.bits, i))
        } else {
            None
        }
    }

    /// Writes one boolean in place; reports whether the index was within the
    /// recorded count.
    pub fn set(&mut self, i: usize, b: bool) -> (r: bool)
        requires
            old(self).wf(),
        ensures
            final(self).wf(),
            if i < old(self).bools().len() {
                r && final(self).bools() == old(self).bools().update(i as int, b)
                    && final(self).words().len() == old(self).words().len()
            } else {
                !r && *final(self) == *old(self)
            },
    {
        let n = bv_len(&self.bits);
        if i < n {
            proof {
                assert((i as int) / 32 < self.words().len()) by (nonlinear_arith)
                    requires
                        (i as int) < self.words().len() * 32,
                        0 <= i as int,
                ;
            }
            bv_set(&mut self.bits, i, b);
            proof {
                let ow = old(self).words();
                let nw = self.words();
                let ii = i as int;
                assert(nw.len() == ow.len());
                assert forall|k: int| 0 <= k < nw.len() * 32 implies unpack_bits(nw)[k] == (if k
                    == ii {
                    b
                } else {
                    unpack_bits(ow)[k]
                }) by {
                    vstd::arithmetic::div_mod::lemma_fundamental_div_mod(k, 32);
                    vstd::arithmetic::div_mod::lemma_fundamental_div_mod(ii, 32);
                    assert(0 <= k % 32 < 32);
                    assert(0 <= ii % 32 < 32);
                    assert(k / 32 < nw.len()) by (nonlinear_arith)
                        requires
                            0 <= k < nw.len() * 32,
                    ;
                    if k / 32 == ii / 32 {
                        lemma_set_word_bit(ow[ii / 32], (ii % 32) as u32, b, (k % 32) as u32);
                    }
                }
                assert(unpack_bits(nw) =~= unpack_bits(ow).update(ii, b));
            }
            true
        } else {
            false
        }
    }
}

/// A sparse numeric plot collection: `(id, value)` pairs in insertion
/// order, each id held at most once.
pub struct SparseTable {
    map: indexmap::IndexMap<i32, u32>,
}

impl SparseTable {
    /// The pairs, in insertion order.
    pub closed spec fn entries(&self) -> Seq<(i32, u32)> {
        sparse_entries(self.map)
    }

    /// Ids are unique.
    pub open spec fn wf(&self) -> bool {
        entries_unique(self.entries())
    }

    pub open spec fn has_key(&self, id: i32) -> bool {
        entries_have_key(self.entries(), id)
    }

    pub fn new() -> (r: SparseTable)
        ensures
            r.wf(),
            r.entries() == Seq::<(i32, u32)>::empty(),
    {
        SparseTable { map: im_new() }
    }

    pub fn len(&self) -> (r: usize)
        ensures
            r == self.entries().len(),
    {
        im_len(&self.map)
    }

    pub fn contains(&self, id: i32) -> (r: bool)
        ensures
            r == self.has_key(id),
    {
        im_contains(&self.map, id)
    }

    /// Appends a new pair; a duplicate id is rejected and the table is left
    /// untouched.
    pub fn insert(&mut self, id: i32, value: u32) -> (r: bool)
        requires
            old(self).wf(),
        ensures
            final(self).wf(),
            if old(self).has_key(id) {
                !r && *final(self) == *old(self)
            } else {
                r && final(self).entries() == old(self).entries().push((id, value))
            },
    {
        if im_contains(&self.map, id) {
            false
        } else {
            im_insert_new(&mut self.map, id, value);
            proof {
                let es = old(self).entries();
                assert forall|i: int, j: int|
                    0 <= i < j < es.push((id, value)).len() implies (#[trigger] es.push(
                    (id, value),
                )[i]).0 != (#[trigger] es.push((id, value))[j]).0 by {
                    if j < es.len() {
                    } else {
                        assert(es.push((id, value))[j] == (id, value));
                        assert(es[i].0 != id);
                    }
                }
            }
            true
        }
    }

    /// The value stored under an id, if any.
    pub fn get(&self, id: i32) -> (r: Option<u32>)
        ensures
            match r {
                Some(v) => exists|i: int|
                    0 <= i < self.entries().len() && #[trigger] self.entries()[i] == (id, v),
                None => !self.has_key(id),
            },
    {
        let r = im_get(&self.map, id);
        proof {
            if let Some(v) = r {
                let i = choose|i: int|
                    0 <= i < sparse_entries(self.map).len() && #[trigger] sparse_entries(
                        self.map,
                    )[i] == (id, v);
                assert(self.entries()[i] == (id, v));
            }
        }
        r
    }

    /// The pair at a position, in insertion order.
    pub fn entry_at(&self, i: usize) -> (r: Option<(i32, u32)>)
        ensures
            match r {
                Some(e) => i < self.entries().len() && e == self.entries()[i as int],
                None => i >= self.entries().len(),
            },
    {
        im_entry_at(&self.map, i)
    }
}

/// Integer or float plot values. Whether a game variant stores them densely
/// (a run indexed by plot id) or sparsely (explicit pairs) is fixed by the
/// variant; both store raw 32-bit words, an integer as its two's-complement
/// word and a float as its bit pattern.
pub enum NumTable {
    Dense(Vec<u32>),
    Sparse(SparseTable),
}

/// The storage shape a game variant prescribes for numeric plot values.
#[derive(Clone, Copy, Debug, PartialEq, Eq, Structural)]
pub enum PlotShape {
    Dense,
    Sparse,
}

pub open spec fn num_table_wf(t: NumTable) -> bool {
    match t {
        NumTable::Dense(v) => v@.len() <= u32::MAX,
        NumTable::Sparse(s) => s.wf() && s.entries().len() <= u32::MAX,
    }
}

pub open spec fn num_table_shape(t: NumTable) -> PlotShape {
    match t {
        NumTable::Dense(_) => PlotShape::Dense,
        NumTable::Sparse(_) => PlotShape::Sparse,
    }
}

/// One save's whole plot state.
pub struct PlotTable {
    pub booleans: BoolTable,
    pub integers: NumTable,
    pub floats: NumTable,
}

pub open spec fn plot_wf(p: PlotTable) -> bool {
    p.booleans.wf() && num_table_wf(p.integers) && num_table_wf(p.floats)
}

/// The wire image of a run of words.
pub open spec fn ser_words(ws: Seq<u32>) -> Seq<u8>
    decreases ws.len(),
{
    if ws.len() == 0 {
        Seq::empty()
    } else {
        le_u32(ws[0]) + ser_words(ws.drop_first())
    }
}

/// The wire image of a run of sparse pairs.
pub open spec fn ser_entries(es: Seq<(i32, u32)>) -> Seq<u8>
    decreases es.len(),
{
    if es.len() == 0 {
        Seq::empty()
    } else {
        le_i32(es[0].0) + le_u32(es[0].1) + ser_entries(es.drop_first())
    }
}

/// The wire image of the boolean table: word count, then the words.
pub open spec fn ser_bool_table(t: BoolTable) -> Seq<u8> {
    le_u32(t.words().len() as u32) + ser_words(t.words())
}

/// The wire image of a numeric table: count, then values or pairs.
pub open spec fn ser_num_table(t: NumTable) -> Seq<u8> {
    match t {
        NumTable::Dense(v) => le_u32(v.len() as u32) + ser_words(v@),
        NumTable::Sparse(s) => le_u32(s.entries().len() as u32) + ser_entries(s.entries()),
    }
}

/// The wire image of the whole plot table: booleans, integers, floats.
pub open spec fn ser_plot(p: PlotTable) -> Seq<u8> {
    ser_bool_table(p.booleans) + ser_num_table(p.integers) + ser_num_table(p.floats)
}

pub proof fn lemma_ser_words_push(ws: Seq<u32>, w: u32)
    ensures
        ser_words(ws.push(w)) == ser_words(ws) + le_u32(w),
    decreases ws.len(),
{
    if ws.len() == 0 {
        reveal_with_fuel(ser_words, 2);
        assert(ws.push(w).drop_first() =~= Seq::<u32>::empty());
        assert(ser_words(ws.push(w)) =~= ser_words(ws) + le_u32(w));
    } else {
        assert(ws.push(w).drop_first() =~= ws.drop_first().push(w));
        lemma_ser_words_push(ws.drop_first(), w);
        assert(ser_words(ws.push(w)) =~= ser_words(ws) + le_u32(w));
    }
}

pub proof fn lemma_ser_entries_push(es: Seq<(i32, u32)>, e: (i32, u32))
    ensures
        ser_entries(es.push(e)) == ser_entries(es) + le_i32(e.0) + le_u32(e.1),
    decreases es.len(),
{
    if es.len() == 0 {
        reveal_with_fuel(ser_entries, 2);
        assert(es.push(e).drop_first() =~= Seq::<(i32, u32)>::empty());
        assert(ser_entries(es.push(e)) =~= ser_entries(es) + le_i32(e.0) + le_u32(e.1));
    } else {
        assert(es.push(e).drop_first() =~= es.drop_first().push(e));
        lemma_ser_entries_push(es.drop_first(), e);
        assert(ser_entries(es.push(e)) =~= ser_entries(es) + le_i32(e.0) + le_u32(e.1));
    }
}

/// The four id bytes of the sparse pair at slot `j` of a pair run whose
/// first pair starts at `base`.
pub open spec fn pair_id_bytes(b: Seq<u8>, base: int, j: int) -> Seq<u8> {
    b.subrange(base + 8 * j, base + 8 * j + 4)
}

/// Each sparse pair occupies its own eight-byte slot of the run's image.
pub proof fn lemma_ser_entries_index(es: Seq<(i32, u32)>, j: int)
    requires
        0 <= j < es.len(),
    ensures
        le_i32(es[j].0) == ser_entries(es).subrange(8 * j, 8 * j + 4),
        le_u32(es[j].1) == ser_entries(es).subrange(8 * j + 4, 8 * j + 8),
    decreases j,
{
    lemma_ser_entries_len(es);
    let img = ser_entries(es);
    let head = le_i32(es[0].0) + le_u32(es[0].1);
    assert(img == head + ser_entries(es.drop_first()));
    if j == 0 {
        assert(le_i32(es[0].0) =~= img.subrange(0, 4)) by {
            assert(forall|k: int| 0 <= k < 4 ==> #[trigger] img[k] == head[k]);
        }
        assert(le_u32(es[0].1) =~= img.subrange(4, 8)) by {
            assert(forall|k: int| 0 <= k < 4 ==> #[trigger] img[k + 4] == head[k + 4]);
        }
    } else {
        let d = es.drop_first();
        lemma_ser_entries_index(d, j - 1);
        lemma_ser_entries_len(d);
        assert(d[j - 1] == es[j]);
        assert(le_i32(es[j].0) =~= img.subrange(8 * j, 8 * j + 4)) by {
            assert(forall|k: int|
                0 <= k < 4 ==> #[trigger] img[8 * j + k] == ser_entries(d)[8 * (j - 1) + k]);
            assert(forall|k: int|
                0 <= k < 4 ==> #[trigger] le_i32(es[j].0)[k] == ser_entries(d).subrange(
                    8 * (j - 1),
                    8 * (j - 1) + 4,
                )[k]);
        }
        assert(le_u32(es[j].1) =~= img.subrange(8 * j + 4, 8 * j + 8)) by {
            assert(forall|k: int|
                0 <= k < 4 ==> #[trigger] img[8 * j + 4 + k] == ser_entries(d)[8 * (j - 1) + 4
                    + k]);
            assert(forall|k: int|
                0 <= k < 4 ==> #[trigger] le_u32(es[j].1)[k] == ser_entries(d).subrange(
                    8 * (j - 1) + 4,
                    8 * (j - 1) + 8,
                )[k]);
        }
    }
}

/// A run of words occupies four bytes per word.
pub proof fn lemma_ser_words_len(ws: Seq<u32>)
    ensures
        ser_words(ws).len() == 4 * ws.len(),
    decreases ws.len(),
{
    if ws.len() > 0 {
        lemma_ser_words_len(ws.drop_first());
    }
}

/// Reads a count, then that many 32-bit words. Success is owed whenever
/// the buffer holds the count and all the words it announces: failure
/// happens exactly on truncation.
pub fn decode_words(cursor: &mut SaveCursor) -> (r: Result<Vec<u32>, DecodeError>)
    requires
        old(cursor).wf(),
    ensures
        final(cursor).wf(),
        final(cursor).bytes() == old(cursor).bytes(),
        old(cursor).pos() <= final(cursor).pos(),
        match r {
            Ok(ws) => {
                &&& ws@.len() <= u32::MAX
                &&& final(cursor).pos() == old(cursor).pos() + 4 + ser_words(ws@).len()
                &&& old(cursor).bytes().subrange(old(cursor).pos(), final(cursor).pos()) == le_u32(
                    ws@.len() as u32,
                ) + ser_words(ws@)
            },
            Err(e) => e == DecodeError::OutOfBounds && (old(cursor).remaining() < 4 || (exists|
                m: u32,
            |
                #[trigger] le_u32(m) == old(cursor).bytes().subrange(
                    old(cursor).pos(),
                    old(cursor).pos() + 4,
                ) && old(cursor).remaining() < 4 + 4 * m)),
        },
{
    let count = match cursor.read_u32() {
        Ok(v) => v,
        Err(e) => {
            return Err(e);
        },
    };
    let count_us = count as usize;
    let mut ws: Vec<u32> = Vec::new();
    let mut i: usize = 0;
    proof {
        assert(ser_words(ws@) =~= old(cursor).bytes().subrange(
            old(cursor).pos() + 4,
            old(cursor).pos() + 4,
        ));
    }
    while i < count_us
        invariant
            cursor.wf(),
            old(cursor).wf(),
            cursor.bytes() == old(cursor).bytes(),
            i <= count_us,
            count_us == count,
            ws@.len() == i,
            cursor.pos() == old(cursor).pos() + 4 + 4 * i,
            old(cursor).pos() + 4 <= cursor.pos() <= cursor.bytes().len(),
            le_u32(count) == old(cursor).bytes().subrange(
                old(cursor).pos(),
                old(cursor).pos() + 4,
            ),
            ser_words(ws@) == old(cursor).bytes().subrange(old(cursor).pos() + 4, cursor.pos()),
        decreases count_us - i,
    {
        let ghost c0 = cursor.pos();
        let w = match cursor.read_u32() {
            Ok(v) => v,
            Err(e) => {
                proof {
                    assert(old(cursor).remaining() < 4 + 4 * i + 4);
                    assert(old(cursor).remaining() < 4 + 4 * count);
                }
                return Err(e);
            },
        };
        proof {
            lemma_ser_words_push(ws@, w);
            crate::data::lemma_subrange_split(
                old(cursor).bytes(),
                old(cursor).pos() + 4,
                c0,
                cursor.pos(),
            );
        }
        ws.push(w);
        i = i + 1;
        proof {
            lemma_ser_words_len(ws@);
        }
    }
    proof {
        crate::data::lemma_subrange_split(
            old(cursor).bytes(),
            old(cursor).pos(),
            old(cursor).pos() + 4,
            cursor.pos(),
        );
    }
    Ok(ws)
}

/// Appends a count, then the words; fails only when the count cannot fit
/// its 32-bit field.
pub fn encode_words(ws: &Vec<u32>, out: &mut Vec<u8>) -> (r: Result<(), DecodeError>)
    ensures
        match r {
            Ok(()) => ws@.len() <= u32::MAX && final(out)@ == old(out)@ + le_u32(ws@.len() as u32)
                + ser_words(ws@),
            Err(e) => e == DecodeError::Corrupt && ws@.len() > u32::MAX && *final(out) == *old(
                out,
            ),
        },
{
    if ws.len() > u32::MAX as usize {
        return Err(DecodeError::Corrupt);
    }
    write_u32(out, ws.len() as u32);
    let ghost base = out@;
    let mut i: usize = 0;
    while i < ws.len()
        invariant
            i <= ws@.len(),
            out@ == base + ser_words(ws@.take(i as int)),
        decreases ws@.len() - i,
    {
        write_u32(out, ws[i]);
        proof {
            assert(ws@.take(i + 1) =~= ws@.take(i as int).push(ws@[i as int]));
            lemma_ser_words_push(ws@.take(i as int), ws@[i as int]);
        }
        i = i + 1;
    }
    proof {
        assert(ws@.take(ws@.len() as int) =~= ws@);
        assert(out@ =~= old(out)@ + le_u32(ws@.len() as u32) + ser_words(ws@));
    }
    Ok(())
}

/// Reads the boolean table.
pub fn decode_bool_table(cursor: &mut SaveCursor) -> (r: Result<BoolTable, DecodeError>)
    requires
        old(cursor).wf(),
    ensures
        final(cursor).wf(),
        final(cursor).bytes() == old(cursor).bytes(),
        old(cursor).pos() <= final(cursor).pos(),
        match r {
            Ok(t) => {
                &&& t.wf()
                &&& final(cursor).pos() == old(cursor).pos() + ser_bool_table(t).len()
                &&& old(cursor).bytes().subrange(old(cursor).pos(), final(cursor).pos())
                    == ser_bool_table(t)
            },
            Err(e) => (e == DecodeError::OutOfBounds && (old(cursor).remaining() < 4 || (exists|
                m: u32,
            |
                #[trigger] le_u32(m) == old(cursor).bytes().subrange(
                    old(cursor).pos(),
                    old(cursor).pos() + 4,
                ) && old(cursor).remaining() < 4 + 4 * m))) || (e == DecodeError::Corrupt && (exists|
                m: u32,
            |
                #[trigger] le_u32(m) == old(cursor).bytes().subrange(
                    old(cursor).pos(),
                    old(cursor).pos() + 4,
                ) && (m as int) > (usize::MAX as int) / 256)),
        },
{
    let ws = match decode_words(cursor) {
        Ok(v) => v,
        Err(e) => {
            return Err(e);
        },
    };
    if ws.len() > usize::MAX / 256 {
        proof {
            crate::data::lemma_subrange_split(
                old(cursor).bytes(),
                old(cursor).pos(),
                old(cursor).pos() + 4,
                cursor.pos(),
            );
            assert(le_u32(ws@.len() as u32) == old(cursor).bytes().subrange(
                old(cursor).pos(),
                old(cursor).pos() + 4,
            ));
        }
        return Err(DecodeError::Corrupt);
    }
    let t = BoolTable::from_words(ws);
    Ok(t)
}

/// Appends the boolean table.
pub fn encode_bool_table(t: &BoolTable, out: &mut Vec<u8>)
    requires
        t.wf(),
    ensures
        final(out)@ == old(out)@ + ser_bool_table(*t),
{
    let ws = t.to_words();
    match encode_words(&ws, out) {
        Ok(()) => {},
        Err(_) => {
            proof {
                assert(false);
            }
        },
    }
}

/// Reads a numeric table in the shape the game variant prescribes. A sparse
/// table holding the same id twice is corrupt.
pub fn decode_num_table(cursor: &mut SaveCursor, shape: PlotShape) -> (r: Result<
    NumTable,
    DecodeError,
>)
    requires
        old(cursor).wf(),
    ensures
        final(cursor).wf(),
        final(cursor).bytes() == old(cursor).bytes(),
        old(cursor).pos() <= final(cursor).pos(),
        match r {
            Ok(t) => {
                &&& num_table_wf(t)
                &&& num_table_shape(t) == shape
                &&& final(cursor).pos() == old(cursor).pos() + ser_num_table(t).len()
                &&& old(cursor).bytes().subrange(old(cursor).pos(), final(cursor).pos())
                    == ser_num_table(t)
            },
            Err(e) => {
                let first = old(cursor).bytes().subrange(old(cursor).pos(), old(cursor).pos() + 4);
                match shape {
                    PlotShape::Dense => e == DecodeError::OutOfBounds && (old(cursor).remaining()
                        < 4 || (exists|m: u32|
                        #[trigger] le_u32(m) == first && old(cursor).remaining() < 4 + 4 * m)),
                    PlotShape::Sparse => (e == DecodeError::OutOfBounds && (old(
                        cursor,
                    ).remaining() < 4 || (exists|m: u32|
                        #[trigger] le_u32(m) == first && old(cursor).remaining() < 4 + 8 * m))) || (
                    e == DecodeError::Corrupt && (exists|m: u32|
                        #[trigger] le_u32(m) == first && (exists|i: int, k: int, x: i32|
                            #![trigger le_i32(x), pair_id_bytes(old(cursor).bytes(), old(cursor).pos() + 4, i), pair_id_bytes(old(cursor).bytes(), old(cursor).pos() + 4, k)]
                            0 <= k < i < (m as int) && le_i32(x) == pair_id_bytes(
                                old(cursor).bytes(),
                                old(cursor).pos() + 4,
                                i,
                            ) && le_i32(x) == pair_id_bytes(
                                old(cursor).bytes(),
                                old(cursor).pos() + 4,
                                k,
                            )))),
                }
            },
        },
{
    match shape {
        PlotShape::Dense => {
            let ws = match decode_words(cursor) {
                Ok(v) => v,
                Err(e) => {
                    return Err(e);
                },
            };
            Ok(NumTable::Dense(ws))
        },
        PlotShape::Sparse => {
            let count = match cursor.read_u32() {
                Ok(v) => v,
                Err(e) => {
                    return Err(e);
                },
            };
            let count_us = count as usize;
            let mut s = SparseTable::new();
            let mut i: usize = 0;
            proof {
                assert(ser_entries(s.entries()) =~= old(cursor).bytes().subrange(
                    old(cursor).pos() + 4,
                    old(cursor).pos() + 4,
                ));
            }
            while i < count_us
                invariant
                    cursor.wf(),
                    old(cursor).wf(),
                    cursor.bytes() == old(cursor).bytes(),
                    i <= count_us,
                    count_us == count,
                    shape == PlotShape::Sparse,
                    s.wf(),
                    s.entries().len() == i,
                    cursor.pos() == old(cursor).pos() + 4 + 8 * i,
                    old(cursor).pos() + 4 <= cursor.pos() <= cursor.bytes().len(),
                    le_u32(count) == old(cursor).bytes().subrange(
                        old(cursor).pos(),
                        old(cursor).pos() + 4,
                    ),
                    ser_entries(s.entries()) == old(cursor).bytes().subrange(
                        old(cursor).pos() + 4,
                        cursor.pos(),
                    ),
                decreases count_us - i,
            {
                let ghost c0 = cursor.pos();
                let id = match cursor.read_i32() {
                    Ok(v) => v,
                    Err(e) => {
                        proof {
                            assert(le_u32(count) == old(cursor).bytes().subrange(
                                old(cursor).pos(),
                                old(cursor).pos() + 4,
                            ));
                            assert(old(cursor).remaining() < 4 + 8 * count);
                        }
                        return Err(e);
                    },
                };
                let value = match cursor.read_u32() {
                    Ok(v) => v,
                    Err(e) => {
                        proof {
                            assert(le_u32(count) == old(cursor).bytes().subrange(
                                old(cursor).pos(),
                                old(cursor).pos() + 4,
                            ));
                            assert(old(cursor).remaining() < 4 + 8 * count);
                        }
                        return Err(e);
                    },
                };
                let ghost prev = s.entries();
                let fresh = s.insert(id, value);
                if !fresh {
                    proof {
                        let base = old(cursor).pos() + 4;
                        let k = choose|k: int|
                            0 <= k < prev.len() && #[trigger] prev[k].0 == id;
                        lemma_ser_entries_index(prev, k);
                        assert(pair_id_bytes(old(cursor).bytes(), base, k) =~= ser_entries(
                            prev,
                        ).subrange(8 * k, 8 * k + 4));
                        assert(le_i32(id) == pair_id_bytes(old(cursor).bytes(), base, k));
                        assert(pair_id_bytes(old(cursor).bytes(), base, i as int) =~= old(
                            cursor,
                        ).bytes().subrange(c0, c0 + 4));
                        assert(le_i32(id) == pair_id_bytes(old(cursor).bytes(), base, i as int));
                        assert(0 <= k && k < i as int && (i as int) < (count as int));
                        assert(le_u32(count) == old(cursor).bytes().subrange(
                            old(cursor).pos(),
                            old(cursor).pos() + 4,
                        ));
                    }
                    return Err(DecodeError::Corrupt);
                }
                proof {
                    lemma_ser_entries_push(prev, (id, value));
                    crate::data::lemma_subrange_split(
                        old(cursor).bytes(),
                        old(cursor).pos() + 4,
                        c0,
                        c0 + 4,
                    );
                    crate::data::lemma_subrange_split(
                        old(cursor).bytes(),
                        old(cursor).pos() + 4,
                        c0 + 4,
                        cursor.pos(),
                    );
                }
                i = i + 1;
            }
            proof {
                crate::data::lemma_subrange_split(
                    old(cursor).bytes(),
                    old(cursor).pos(),
                    old(cursor).pos() + 4,
                    cursor.pos(),
                );
            }
            Ok(NumTable::Sparse(s))
        },
    }
}

/// Appends a numeric table in the same shape it was parsed in.
pub fn encode_num_table(t: &NumTable, out: &mut Vec<u8>)
    requires
        num_table_wf(*t),
    ensures
        final(out)@ == old(out)@ + ser_num_table(*t),
{
    match t {
        NumTable::Dense(ws) => {
            match encode_words(ws, out) {
                Ok(()) => {},
                Err(_) => {
                    proof {
                        assert(false);
                    }
                },
            }
        },
        NumTable::Sparse(s) => {
            let n = s.len();
            write_u32(out, n as u32);
            let ghost base = out@;
            let mut i: usize = 0;
            while i < n
                invariant
                    i <= n,
                    n == s.entries().len(),
                    out@ == base + ser_entries(s.entries().take(i as int)),
                decreases n - i,
            {
                let e = match s.entry_at(i) {
                    Some(e) => e,
                    None => {
                        proof {
                            assert(false);
                        }
                        (0, 0)
                    },
                };
                write_i32(out, e.0);
                write_u32(out, e.1);
                proof {
                    assert(s.entries().take(i + 1) =~= s.entries().take(i as int).push(
                        s.entries()[i as int],
                    ));
                    lemma_ser_entries_push(s.entries().take(i as int), s.entries()[i as int]);
                }
                i = i + 1;
            }
            proof {
                assert(s.entries().take(s.entries().len() as int) =~= s.entries());
                assert(out@ =~= old(out)@ + ser_num_table(*t));
            }
        },
    }
}

/// Reads the whole plot table for a game variant.
pub fn decode_plot(cursor: &mut SaveCursor, shape: PlotShape) -> (r: Result<
    PlotTable,
    DecodeError,
>)
    requires
        old(cursor).wf(),
    ensures
        final(cursor).wf(),
        final(cursor).bytes() == old(cursor).bytes(),
        old(cursor).pos() <= final(cursor).pos(),
        match r {
            Ok(p) => {
                &&& plot_wf(p)
                &&& num_table_shape(p.integers) == shape
                &&& num_table_shape(p.floats) == shape
                &&& final(cursor).pos() == old(cursor).pos() + ser_plot(p).len()
                &&& old(cursor).bytes().subrange(old(cursor).pos(), final(cursor).pos())
                    == ser_plot(p)
            },
            Err(e) => e == DecodeError::OutOfBounds || e == DecodeError::Corrupt,
        },
{
    let booleans = match decode_bool_table(cursor) {
        Ok(t) => t,
        Err(e) => {
            return Err(e);
        },
    };
    let ghost c1 = cursor.pos();
    let integers = match decode_num_table(cursor, shape) {
        Ok(t) => t,
        Err(e) => {
            return Err(e);
        },
    };
    let ghost c2 = cursor.pos();
    let floats = match decode_num_table(cursor, shape) {
        Ok(t) => t,
        Err(e) => {
            return Err(e);
        },
    };
    let p = PlotTable { booleans, integers, floats };
    proof {
        crate::data::lemma_subrange_split(old(cursor).bytes(), old(cursor).pos(), c1, c2);
        crate::data::lemma_subrange_split(old(cursor).bytes(), old(cursor).pos(), c2, cursor.pos());
    }
    Ok(p)
}

/// Appends the whole plot table.
pub fn encode_plot(p: &PlotTable, out: &mut Vec<u8>)
    requires
        plot_wf(*p),
    ensures
        final(out)@ == old(out)@ + ser_plot(*p),
{
    encode_bool_table(&p.booleans, out);
    encode_num_table(&p.integers, out);
    encode_num_table(&p.floats, out);
}

/// Two equally long runs of words with the same wire image are the same
/// words.
pub proof fn lemma_ser_words_injective(a: Seq<u32>, b: Seq<u32>)
    requires
        a.len() == b.len(),
        ser_words(a) == ser_words(b),
    ensures
        a == b,
    decreases a.len(),
{
    if a.len() == 0 {
        assert(a =~= b);
    } else {
        lemma_ser_words_len(a.drop_first());
        lemma_ser_words_len(b.drop_first());
        assert(le_u32(a[0]) =~= le_u32(b[0])) by {
            assert(forall|k: int|
                0 <= k < 4 ==> #[trigger] le_u32(a[0])[k] == ser_words(a)[k] && le_u32(b[0])[k]
                    == ser_words(b)[k]);
        }
        crate::cursor::lemma_le_u32_injective(a[0], b[0]);
        assert(ser_words(a.drop_first()) =~= ser_words(b.drop_first())) by {
            assert(forall|k: int|
                0 <= k < ser_words(a.drop_first()).len() ==> #[trigger] ser_words(a.drop_first())[k]
                    == ser_words(a)[k + 4] && ser_words(b.drop_first())[k] == ser_words(b)[k + 4]);
        }
        lemma_ser_words_injective(a.drop_first(), b.drop_first());
        assert forall|k: int| 0 <= k < a.len() implies a[k] == b[k] by {
            if k > 0 {
                assert(a.drop_first()[k - 1] == a[k]);
                assert(b.drop_first()[k - 1] == b[k]);
            }
        }
        assert(a =~= b);
    }
}

/// A run of sparse pairs occupies eight bytes per pair.
pub proof fn lemma_ser_entries_len(es: Seq<(i32, u32)>)
    ensures
        ser_entries(es).len() == 8 * es.len(),
    decreases es.len(),
{
    if es.len() > 0 {
        lemma_ser_entries_len(es.drop_first());
    }
}

/// Two equally long runs of sparse pairs with the same wire image are the
/// same pairs.
pub proof fn lemma_ser_entries_injective(a: Seq<(i32, u32)>, b: Seq<(i32, u32)>)
    requires
        a.len() == b.len(),
        ser_entries(a) == ser_entries(b),
    ensures
        a == b,
    decreases a.len(),
{
    if a.len() == 0 {
        assert(a =~= b);
    } else {
        lemma_ser_entries_len(a.drop_first());
        lemma_ser_entries_len(b.drop_first());
        assert(le_i32(a[0].0) =~= le_i32(b[0].0)) by {
            assert(forall|k: int|
                0 <= k < 4 ==> #[trigger] le_i32(a[0].0)[k] == ser_entries(a)[k] && le_i32(
                    b[0].0,
                )[k] == ser_entries(b)[k]);
        }
        crate::cursor::lemma_le_u32_injective(a[0].0 as u32, b[0].0 as u32);
        let k1 = a[0].0;
        let k2 = b[0].0;
        assert(k1 == k2) by (bit_vector)
            requires
                k1 as u32 == k2 as u32,
        ;
        assert(le_u32(a[0].1) =~= le_u32(b[0].1)) by {
            assert(forall|k: int|
                0 <= k < 4 ==> #[trigger] le_u32(a[0].1)[k] == ser_entries(a)[k + 4] && le_u32(
                    b[0].1,
                )[k] == ser_entries(b)[k + 4]);
        }
        crate::cursor::lemma_le_u32_injective(a[0].1, b[0].1);
        assert(ser_entries(a.drop_first()) =~= ser_entries(b.drop_first())) by {
            assert(forall|k: int|
                0 <= k < ser_entries(a.drop_first()).len() ==> #[trigger] ser_entries(
                    a.drop_first(),
                )[k] == ser_entries(a)[k + 8] && ser_entries(b.drop_first())[k] == ser_entries(
                    b,
                )[k + 8]);
        }
        lemma_ser_entries_injective(a.drop_first(), b.drop_first());
        assert forall|k: int| 0 <= k < a.len() implies a[k] == b[k] by {
            if k > 0 {
                assert(a.drop_first()[k - 1] == a[k]);
                assert(b.drop_first()[k - 1] == b[k]);
            }
        }
        assert(a =~= b);
    }
}

/// Structural equality of two numeric plot tables: same shape, same values
/// in the same order.
pub open spec fn num_table_like(t1: NumTable, t2: NumTable) -> bool {
    match (t1, t2) {
        (NumTable::Dense(v1), NumTable::Dense(v2)) => v1@ == v2@,
        (NumTable::Sparse(s1), NumTable::Sparse(s2)) => s1.entries() == s2.entries(),
        _ => false,
    }
}

/// Structural equality of two plot tables.
pub open spec fn plot_like(p1: PlotTable, p2: PlotTable) -> bool {
    &&& p1.booleans.words() == p2.booleans.words()
    &&& num_table_like(p1.integers, p2.integers)
    &&& num_table_like(p1.floats, p2.floats)
}

/// A boolean table's wire image is self-delimiting: two well-formed tables
/// that open the same byte stream hold the same words and leave the same
/// remainder.
pub proof fn lemma_bool_table_of_stream(t1: BoolTable, t2: BoolTable, x1: Seq<u8>, x2: Seq<u8>)
    requires
        t1.wf(),
        t2.wf(),
        ser_bool_table(t1) + x1 == ser_bool_table(t2) + x2,
    ensures
        t1.words() == t2.words(),
        x1 == x2,
{
    let a = t1.words();
    let b = t2.words();
    lemma_ser_words_len(a);
    lemma_ser_words_len(b);
    assert(le_u32(a.len() as u32) =~= le_u32(b.len() as u32)) by {
        assert(forall|k: int|
            0 <= k < 4 ==> #[trigger] le_u32(a.len() as u32)[k] == (ser_bool_table(t1) + x1)[k]
                && le_u32(b.len() as u32)[k] == (ser_bool_table(t2) + x2)[k]);
    }
    crate::cursor::lemma_le_u32_injective(a.len() as u32, b.len() as u32);
    assert(a.len() == b.len());
    assert(ser_words(a) =~= ser_words(b)) by {
        assert(forall|k: int|
            0 <= k < ser_words(a).len() ==> #[trigger] ser_words(a)[k] == (ser_bool_table(t1)
                + x1)[k + 4] && ser_words(b)[k] == (ser_bool_table(t2) + x2)[k + 4]);
    }
    lemma_ser_words_injective(a, b);
    assert((ser_bool_table(t1) + x1).len() == ser_bool_table(t1).len() + x1.len());
    assert((ser_bool_table(t2) + x2).len() == ser_bool_table(t2).len() + x2.len());
    assert(x1.len() == x2.len());
    assert(x1 =~= x2) by {
        assert(forall|k: int|
            0 <= k < x1.len() ==> #[trigger] x1[k] == (ser_bool_table(t1) + x1)[k + 4
                + ser_words(a).len()]);
        assert(forall|k: int|
            0 <= k < x2.len() ==> #[trigger] x2[k] == (ser_bool_table(t2) + x2)[k + 4
                + ser_words(b).len()]);
    }
}

/// A numeric table's wire image is self-delimiting: two well-formed tables
/// of the same shape that open the same byte stream hold the same values
/// and leave the same remainder.
pub proof fn lemma_num_table_of_stream(t1: NumTable, t2: NumTable, x1: Seq<u8>, x2: Seq<u8>)
    requires
        num_table_wf(t1),
        num_table_wf(t2),
        num_table_shape(t1) == num_table_shape(t2),
        ser_num_table(t1) + x1 == ser_num_table(t2) + x2,
    ensures
        num_table_like(t1, t2),
        x1 == x2,
{
    match (t1, t2) {
        (NumTable::Dense(v1), NumTable::Dense(v2)) => {
            let a = v1@;
            let b = v2@;
            lemma_ser_words_len(a);
            lemma_ser_words_len(b);
            assert(le_u32(a.len() as u32) =~= le_u32(b.len() as u32)) by {
                assert(forall|k: int|
                    0 <= k < 4 ==> #[trigger] le_u32(a.len() as u32)[k] == (ser_num_table(t1)
                        + x1)[k] && le_u32(b.len() as u32)[k] == (ser_num_table(t2) + x2)[k]);
            }
            crate::cursor::lemma_le_u32_injective(a.len() as u32, b.len() as u32);
            assert(a.len() == b.len());
            assert(ser_words(a) =~= ser_words(b)) by {
                assert(forall|k: int|
                    0 <= k < ser_words(a).len() ==> #[trigger] ser_words(a)[k] == (ser_num_table(
                        t1,
                    ) + x1)[k + 4] && ser_words(b)[k] == (ser_num_table(t2) + x2)[k + 4]);
            }
            lemma_ser_words_injective(a, b);
            assert((ser_num_table(t1) + x1).len() == ser_num_table(t1).len() + x1.len());
            assert((ser_num_table(t2) + x2).len() == ser_num_table(t2).len() + x2.len());
            assert(x1.len() == x2.len());
            assert(x1 =~= x2) by {
                assert(forall|k: int|
                    0 <= k < x1.len() ==> #[trigger] x1[k] == (ser_num_table(t1) + x1)[k + 4
                        + ser_words(a).len()]);
                assert(forall|k: int|
                    0 <= k < x2.len() ==> #[trigger] x2[k] == (ser_num_table(t2) + x2)[k + 4
                        + ser_words(b).len()]);
            }
        },
        (NumTable::Sparse(s1), NumTable::Sparse(s2)) => {
            let a = s1.entries();
            let b = s2.entries();
            lemma_ser_entries_len(a);
            lemma_ser_entries_len(b);
            assert(le_u32(a.len() as u32) =~= le_u32(b.len() as u32)) by {
                assert(forall|k: int|
                    0 <= k < 4 ==> #[trigger] le_u32(a.len() as u32)[k] == (ser_num_table(t1)
                        + x1)[k] && le_u32(b.len() as u32)[k] == (ser_num_table(t2) + x2)[k]);
            }
            crate::cursor::lemma_le_u32_injective(a.len() as u32, b.len() as u32);
            assert(a.len() == b.len());
            assert(ser_entries(a) =~= ser_entries(b)) by {
                assert(forall|k: int|
                    0 <= k < ser_entries(a).len() ==> #[trigger] ser_entries(a)[k] == (
                    ser_num_table(t1) + x1)[k + 4] && ser_entries(b)[k] == (ser_num_table(t2)
                        + x2)[k + 4]);
            }
            lemma_ser_entries_injective(a, b);
            assert((ser_num_table(t1) + x1).len() == ser_num_table(t1).len() + x1.len());
            assert((ser_num_table(t2) + x2).len() == ser_num_table(t2).len() + x2.len());
            assert(x1.len() == x2.len());
            assert(x1 =~= x2) by {
                assert(forall|k: int|
                    0 <= k < x1.len() ==> #[trigger] x1[k] == (ser_num_table(t1) + x1)[k + 4
                        + ser_entries(a).len()]);
                assert(forall|k: int|
                    0 <= k < x2.len() ==> #[trigger] x2[k] == (ser_num_table(t2) + x2)[k + 4
                        + ser_entries(b).len()]);
            }
        },
        _ => {},
    }
}

/// A plot table's wire image determines its whole contents: words, integer
/// values and float words alike, given the fixed per-variant shape.
pub proof fn lemma_plot_of_stream(p1: PlotTable, p2: PlotTable, x1: Seq<u8>, x2: Seq<u8>)
    requires
        plot_wf(p1),
        plot_wf(p2),
        num_table_shape(p1.integers) == num_table_shape(p2.integers),
        num_table_shape(p1.floats) == num_table_shape(p2.floats),
        ser_plot(p1) + x1 == ser_plot(p2) + x2,
    ensures
        plot_like(p1, p2),
        x1 == x2,
{
    let b1 = ser_bool_table(p1.booleans);
    let b2 = ser_bool_table(p2.booleans);
    let i1 = ser_num_table(p1.integers);
    let i2 = ser_num_table(p2.integers);
    let f1 = ser_num_table(p1.floats);
    let f2 = ser_num_table(p2.floats);
    assert((b1 + i1 + f1) + x1 =~= b1 + (i1 + (f1 + x1)));
    assert((b2 + i2 + f2) + x2 =~= b2 + (i2 + (f2 + x2)));
    lemma_bool_table_of_stream(p1.booleans, p2.booleans, i1 + (f1 + x1), i2 + (f2 + x2));
    lemma_num_table_of_stream(p1.integers, p2.integers, f1 + x1, f2 + x2);
    lemma_num_table_of_stream(p1.floats, p2.floats, x1, x2);
}

/// The boolean plot round trip: two well-formed boolean tables with the
/// same wire image spell the same boolean sequence. Together with the codec
/// contracts — `decode_bool_table` returns a table whose wire image is
/// exactly the bytes it consumed, and `encode_bool_table` appends exactly
/// the table's wire image — decoding an encoded boolean table always yields
/// the boolean sequence that was encoded.
pub proof fn lemma_bool_table_round_trip(t1: BoolTable, t2: BoolTable)
    requires
        t1.wf(),
        t2.wf(),
        ser_bool_table(t1) == ser_bool_table(t2),
    ensures
        t1.words() == t2.words(),
        t1.bools() == t2.bools(),
{
    let a = t1.words();
    let b = t2.words();
    assert(le_u32(a.len() as u32) =~= le_u32(b.len() as u32)) by {
        assert(forall|k: int|
            0 <= k < 4 ==> #[trigger] le_u32(a.len() as u32)[k] == ser_bool_table(t1)[k] && le_u32(
                b.len() as u32,
            )[k] == ser_bool_table(t2)[k]);
    }
    crate::cursor::lemma_le_u32_injective(a.len() as u32, b.len() as u32);
    assert(a.len() == b.len());
    assert(ser_words(a) =~= ser_words(b)) by {
        lemma_ser_words_len(a);
        lemma_ser_words_len(b);
        assert(forall|k: int|
            0 <= k < ser_words(a).len() ==> #[trigger] ser_words(a)[k] == ser_bool_table(t1)[k + 4]
                && ser_words(b)[k] == ser_bool_table(t2)[k + 4]);
    }
    lemma_ser_words_injective(a, b);
}

} // verus!
