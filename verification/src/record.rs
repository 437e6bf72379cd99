//! The structural codec for plain record and enumeration types.
//!
//! A record is decoded by decoding each declared field in source order and
//! re-encoded in the same order: field order is part of the wire format. An
//! enumeration is decoded by reading one unsigned byte holding the
//! zero-based ordinal of the variant; a byte that names no variant is a
//! fatal `UnknownEnumTag`, unlike an unknown property tag, which is
//! skippable. Codecs are written out per type, field by field, so the wire
//! shape of each type is fixed by its declaration and checked here; a field
//! whose type has no codec simply cannot be written down.
//!
//! The codex records, which the plot section of a save carries, are the
//! concrete records of this engine.

use vstd::prelude::*;

use crate::cursor::{bool_word, le_i32, le_u32, write_bool_word, write_i32, write_u32, SaveCursor};
use crate::data::lemma_subrange_split;
use crate::error::DecodeError;

verus! {

/// One page of a plot codex entry.
#[derive(Clone, Copy, Debug, PartialEq, Eq, Structural)]
pub struct PlotCodexPage {
    pub page: i32,
    pub is_new: bool,
}

/// A plot codex entry: its pages, in order.
#[derive(Debug, PartialEq, Eq)]
pub struct PlotCodex {
    pub pages: Vec<PlotCodexPage>,
}

/// The wire image of one codex page: its fields, in declared order.
pub open spec fn ser_codex_page(p: PlotCodexPage) -> Seq<u8> {
    le_i32(p.page) + le_u32(bool_word(p.is_new))
}

/// The wire image of a run of codex pages, in order.
pub open spec fn ser_codex_pages(ps: Seq<PlotCodexPage>) -> Seq<u8>
    decreases ps.len(),
{
    if ps.len() == 0 {
        Seq::empty()
    } else {
        ser_codex_page(ps[0]) + ser_codex_pages(ps.drop_first())
    }
}

/// The wire image of a codex: a page count, then the pages.
pub open spec fn ser_codex(c: PlotCodex) -> Seq<u8> {
    le_u32(c.pages@.len() as u32) + ser_codex_pages(c.pages@)
}

pub proof fn lemma_ser_codex_pages_push(ps: Seq<PlotCodexPage>, p: PlotCodexPage)
    ensures
        ser_codex_pages(ps.push(p)) == ser_codex_pages(ps) + ser_codex_page(p),
    decreases ps.len(),
{
    if ps.len() == 0 {
        reveal_with_fuel(ser_codex_pages, 2);
        assert(ps.push(p).drop_first() =~= Seq::<PlotCodexPage>::empty());
        assert(ser_codex_pages(ps.push(p)) =~= ser_codex_pages(ps) + ser_codex_page(p));
    } else {
        assert(ps.push(p).drop_first() =~= ps.drop_first().push(p));
        lemma_ser_codex_pages_push(ps.drop_first(), p);
        assert(ser_codex_pages(ps.push(p)) =~= ser_codex_pages(ps) + ser_codex_page(p));
    }
}

/// Decodes one codex page, field by field in declared order. Success is
/// owed whenever eight bytes remain and the second word encodes a boolean;
/// on failure the cursor is left where the page began.
pub fn decode_codex_page(cursor: &mut SaveCursor) -> (r: Result<PlotCodexPage, DecodeError>)
    requires
        old(cursor).wf(),
    ensures
        final(cursor).wf(),
        final(cursor).bytes() == old(cursor).bytes(),
        old(cursor).pos() <= final(cursor).pos(),
        match r {
            Ok(p) => final(cursor).pos() == old(cursor).pos() + 8 && old(
                cursor,
            ).bytes().subrange(old(cursor).pos(), final(cursor).pos()) == ser_codex_page(p),
            Err(e) => {
                &&& final(cursor).pos() == old(cursor).pos()
                &&& (e == DecodeError::OutOfBounds ==> old(cursor).remaining() < 8)
                &&& (e == DecodeError::Corrupt ==> old(cursor).remaining() >= 8 && (forall|b: bool|
                    le_u32(bool_word(b)) != old(cursor).bytes().subrange(
                        old(cursor).pos() + 4,
                        old(cursor).pos() + 8,
                    )))
                &&& (e == DecodeError::OutOfBounds || e == DecodeError::Corrupt)
            },
        },
{
    let start = cursor.position();
    let page = match cursor.read_i32() {
        Ok(v) => v,
        Err(e) => {
            return Err(e);
        },
    };
    let is_new = match cursor.read_bool_word() {
        Ok(v) => v,
        Err(e) => {
            cursor.rewind_to(start);
            return Err(e);
        },
    };
    let p = PlotCodexPage { page, is_new };
    proof {
        lemma_subrange_split(
            old(cursor).bytes(),
            old(cursor).pos(),
            old(cursor).pos() + 4,
            cursor.pos(),
        );
    }
    Ok(p)
}

/// Encodes one codex page, field by field in the same order.
pub fn encode_codex_page(p: &PlotCodexPage, out: &mut Vec<u8>)
    ensures
        final(out)@ == old(out)@ + ser_codex_page(*p),
{
    write_i32(out, p.page);
    write_bool_word(out, p.is_new);
}

/// The four bytes holding the `is_new` word of the codex page at slot `j`
/// of a page run whose first page starts at `base`.
pub open spec fn page_bool_bytes(b: Seq<u8>, base: int, j: int) -> Seq<u8> {
    b.subrange(base + 8 * j + 4, base + 8 * j + 8)
}

/// Decodes a codex: a count, then that many pages. Failure happens exactly
/// on truncation or on a page whose `is_new` word encodes no boolean.
pub fn decode_codex(cursor: &mut SaveCursor) -> (r: Result<PlotCodex, DecodeError>)
    requires
        old(cursor).wf(),
    ensures
        final(cursor).wf(),
        final(cursor).bytes() == old(cursor).bytes(),
        old(cursor).pos() <= final(cursor).pos(),
        match r {
            Ok(c) => {
                &&& c.pages@.len() <= u32::MAX
                &&& final(cursor).pos() == old(cursor).pos() + ser_codex(c).len()
                &&& old(cursor).bytes().subrange(old(cursor).pos(), final(cursor).pos())
                    == ser_codex(c)
            },
            Err(e) => (e == DecodeError::OutOfBounds || e == DecodeError::Corrupt) && (old(
                cursor,
            ).remaining() < 4 || (exists|m: u32|
                #[trigger] le_u32(m) == old(cursor).bytes().subrange(
                    old(cursor).pos(),
                    old(cursor).pos() + 4,
                ) && ((e == DecodeError::OutOfBounds && old(cursor).remaining() < 4 + 8 * m) || (e
                    == DecodeError::Corrupt && (exists|i: int|
                    #![trigger page_bool_bytes(old(cursor).bytes(), old(cursor).pos() + 4, i)]
                    0 <= i < m && 4 + 8 * i + 8 <= old(cursor).remaining() && (forall|b: bool|
                        le_u32(bool_word(b)) != page_bool_bytes(
                            old(cursor).bytes(),
                            old(cursor).pos() + 4,
                            i,
                        ))))))),
        },
{
    let count = match cursor.read_u32() {
        Ok(v) => v,
        Err(e) => {
            return Err(e);
        },
    };
    let count_us = count as usize;
    let mut pages: Vec<PlotCodexPage> = Vec::new();
    proof {
        assert(ser_codex_pages(pages@) =~= old(cursor).bytes().subrange(
            old(cursor).pos() + 4,
            old(cursor).pos() + 4,
        ));
    }
    let mut i: usize = 0;
    while i < count_us
        invariant
            cursor.wf(),
            old(cursor).wf(),
            cursor.bytes() == old(cursor).bytes(),
            i <= count_us,
            count_us == count,
            pages@.len() == i,
            cursor.pos() == old(cursor).pos() + 4 + 8 * i,
            old(cursor).pos() + 4 <= cursor.pos() <= cursor.bytes().len(),
            le_u32(count) == old(cursor).bytes().subrange(
                old(cursor).pos(),
                old(cursor).pos() + 4,
            ),
            ser_codex_pages(pages@) == old(cursor).bytes().subrange(
                old(cursor).pos() + 4,
                cursor.pos(),
            ),
        decreases count_us - i,
    {
        let ghost c0 = cursor.pos();
        let p = match decode_codex_page(cursor) {
            Ok(p) => p,
            Err(e) => {
                proof {
                    if e == DecodeError::OutOfBounds {
                        assert(old(cursor).remaining() < 4 + 8 * count);
                    } else {
                        assert(page_bool_bytes(
                            old(cursor).bytes(),
                            old(cursor).pos() + 4,
                            i as int,
                        ) =~= old(cursor).bytes().subrange(c0 + 4, c0 + 8));
                        assert(4 + 8 * (i as int) + 8 <= old(cursor).remaining());
                    }
                }
                return Err(e);
            },
        };
        proof {
            lemma_ser_codex_pages_push(pages@, p);
            lemma_subrange_split(old(cursor).bytes(), old(cursor).pos() + 4, c0, cursor.pos());
        }
        pages.push(p);
        i = i + 1;
    }
    proof {
        lemma_subrange_split(
            old(cursor).bytes(),
            old(cursor).pos(),
            old(cursor).pos() + 4,
            cursor.pos(),
        );
    }
    Ok(PlotCodex { pages })
}

/// Encodes a codex; fails only when its page count cannot fit the wire.
pub fn encode_codex(c: &PlotCodex, out: &mut Vec<u8>) -> (r: Result<(), DecodeError>)
    ensures
        match r {
            Ok(()) => c.pages@.len() <= u32::MAX && final(out)@ == old(out)@ + ser_codex(*c),
            Err(e) => e == DecodeError::Corrupt && c.pages@.len() > u32::MAX && *final(out)
                == *old(out),
        },
{
    if c.pages.len() > u32::MAX as usize {
        return Err(DecodeError::Corrupt);
    }
    write_u32(out, c.pages.len() as u32);
    let ghost base = out@;
    let mut i: usize = 0;
    while i < c.pages.len()
        invariant
            i <= c.pages@.len(),
            out@ == base + ser_codex_pages(c.pages@.take(i as int)),
        decreases c.pages@.len() - i,
    {
        encode_codex_page(&c.pages[i], out);
        proof {
            assert(c.pages@.take(i + 1) =~= c.pages@.take(i as int).push(c.pages@[i as int]));
            lemma_ser_codex_pages_push(c.pages@.take(i as int), c.pages@[i as int]);
        }
        i = i + 1;
    }
    proof {
        assert(c.pages@.take(c.pages@.len() as int) =~= c.pages@);
        assert(out@ =~= old(out)@ + ser_codex(*c));
    }
    Ok(())
}

/// Decodes an enumeration tag: one byte holding the zero-based ordinal of
/// the variant among its `variant_count` declared siblings. A byte with no
/// variant is a fatal `UnknownEnumTag`.
pub fn decode_enum_tag(cursor: &mut SaveCursor, variant_count: u8) -> (r: Result<u8, DecodeError>)
    requires
        old(cursor).wf(),
    ensures
        final(cursor).wf(),
        final(cursor).bytes() == old(cursor).bytes(),
        match r {
            Ok(t) => {
                &&& t < variant_count
                &&& old(cursor).remaining() >= 1
                &&& final(cursor).pos() == old(cursor).pos() + 1
                &&& old(cursor).bytes()[old(cursor).pos()] == t
            },
            Err(e) => {
                &&& final(cursor).pos() == old(cursor).pos()
                &&& (e == DecodeError::OutOfBounds ==> old(cursor).remaining() < 1)
                &&& (e == DecodeError::UnknownEnumTag ==> old(cursor).remaining() >= 1 && old(
                    cursor,
                ).bytes()[old(cursor).pos()] >= variant_count)
                &&& (e == DecodeError::OutOfBounds || e == DecodeError::UnknownEnumTag)
            },
        },
{
    let entry = cursor.position();
    let b = match cursor.read_u8() {
        Ok(b) => b,
        Err(e) => {
            return Err(e);
        },
    };
    if b < variant_count {
        Ok(b)
    } else {
        cursor.rewind_to(entry);
        Err(DecodeError::UnknownEnumTag)
    }
}

/// Appends an enumeration tag byte.
pub fn encode_enum_tag(out: &mut Vec<u8>, tag: u8, variant_count: u8)
    requires
        tag < variant_count,
    ensures
        final(out)@ == old(out)@.push(tag),
{
    crate::cursor::write_u8(out, tag);
}

} // verus!
