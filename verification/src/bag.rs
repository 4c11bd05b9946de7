//! The bag codec: a rooted cell graph as a compact linear byte buffer.
//!
//! Layout: a header of the cell count and the root index (both 32-bit
//! big-endian), then one record per cell in child-before-parent order. A
//! record holds the bit length (16-bit big-endian), the child count (one
//! byte), the packed payload bytes, and one 32-bit big-endian arena index
//! per child. Child indices always point at earlier records, so a decoded
//! buffer can never hold a cycle, and the encoder writes each distinct cell
//! exactly once however many parents reference it.

use vstd::prelude::*;
use crate::cells::{
    CellData, CellStore, cell_child_eq, cell_eq, cell_fields_ok, lemma_cell_eq_extend,
    lemma_mul_div, padding_zero, same_cell, store_extends, trig_int, wf_cells, needed_bytes,
    MAX_CELL_BITS,
};
use crate::errors::CodecError;

verus! {

/// Well-formedness of a decoded cell table: every cell is valid on its own
/// and every child index points at an earlier entry. Unlike the arena
/// invariant `wf_cells` this does not promise deduplication, since a buffer
/// from elsewhere may spell the same cell twice.
pub open spec fn wf_cells_basic(cells: Seq<CellData>) -> bool {
    &&& forall|i: int| 0 <= i < cells.len() ==> cell_fields_ok(#[trigger] cells[i])
    &&& forall|i: int, k: int|
            0 <= i < cells.len() && 0 <= k < cells[i].children@.len()
            ==> (#[trigger] cells[i].children@[k]) < i
}

/// Big-endian bytes of a 16-bit value.
pub open spec fn be16(v: int) -> Seq<u8> {
    seq![(v / 256 % 256) as u8, (v % 256) as u8]
}

/// Big-endian bytes of a 32-bit value.
pub open spec fn be32(v: int) -> Seq<u8> {
    seq![
        (v / 0x1000000 % 256) as u8,
        (v / 0x10000 % 256) as u8,
        (v / 256 % 256) as u8,
        (v % 256) as u8,
    ]
}

/// The child-index bytes of a record.
pub open spec fn children_bytes(ch: Seq<usize>) -> Seq<u8>
    decreases ch.len(),
{
    if ch.len() == 0 {
        Seq::empty()
    } else {
        be32(ch[0] as int) + children_bytes(ch.drop_first())
    }
}

/// The record of one cell.
pub open spec fn record_bytes(c: CellData) -> Seq<u8> {
    be16(c.bit_len as int) + seq![c.children@.len() as u8] + c.data@ + children_bytes(c.children@)
}

/// The records of a cell table, in order.
pub open spec fn records_bytes(cells: Seq<CellData>) -> Seq<u8>
    decreases cells.len(),
{
    if cells.len() == 0 {
        Seq::empty()
    } else {
        record_bytes(cells[0]) + records_bytes(cells.drop_first())
    }
}

/// The whole buffer of a bag: header, then the records.
pub open spec fn bag_bytes(cells: Seq<CellData>, root: int) -> Seq<u8> {
    be32(cells.len() as int) + be32(root) + records_bytes(cells)
}

/// The buffer is the serialization of the well-formed cell table `c` with
/// root `r0`.
pub open spec fn bag_image(bytes: Seq<u8>, c: Seq<CellData>, r0: int) -> bool {
    &&& wf_cells_basic(c)
    &&& c.len() < 0x100000000
    &&& 0 <= r0 < c.len()
    &&& bytes == bag_bytes(c, r0)
}

/// The records of a table split at any index.
proof fn lemma_records_split(c: Seq<CellData>, i: int)
    requires
        0 <= i <= c.len(),
    ensures
        records_bytes(c) == records_bytes(c.take(i)) + records_bytes(c.skip(i)),
    decreases i,
{
    if i == 0 {
        assert(c.take(0) =~= Seq::<CellData>::empty());
        assert(c.skip(0) =~= c);
        assert(records_bytes(c) =~= records_bytes(c.take(0)) + records_bytes(c.skip(0)));
    } else {
        lemma_records_split(c.drop_first(), i - 1);
        assert(c.take(i)[0] == c[0]);
        assert(c.take(i).drop_first() =~= c.drop_first().take(i - 1));
        assert(c.skip(i) =~= c.drop_first().skip(i - 1));
        assert(records_bytes(c) =~= records_bytes(c.take(i)) + records_bytes(c.skip(i)));
    }
}

/// The four bytes of child `k` within the child bytes.
proof fn lemma_children_at(ch: Seq<usize>, k: int)
    requires
        0 <= k < ch.len(),
    ensures
        children_bytes(ch).subrange(4 * k, 4 * k + 4) == be32(ch[k] as int),
    decreases k,
{
    lemma_children_bytes_len(ch);
    if k == 0 {
        assert(children_bytes(ch).subrange(0, 4) =~= be32(ch[0] as int));
    } else {
        lemma_children_at(ch.drop_first(), k - 1);
        lemma_children_bytes_len(ch.drop_first());
        assert(children_bytes(ch).subrange(4 * k, 4 * k + 4)
            =~= children_bytes(ch.drop_first()).subrange(4 * (k - 1), 4 * (k - 1) + 4));
    }
}

/// Position and content of record `i` within an image buffer.
proof fn lemma_record_at(bytes: Seq<u8>, c: Seq<CellData>, r0: int, i: int)
    requires
        bag_image(bytes, c, r0),
        0 <= i < c.len(),
    ensures
        ({
            let pos = 8 + records_bytes(c.take(i)).len() as int;
            let rec = record_bytes(c[i]);
            &&& rec.len() == 3 + c[i].data@.len() + 4 * c[i].children@.len()
            &&& pos + rec.len() <= bytes.len()
            &&& bytes.subrange(pos, pos + rec.len() as int) == rec
        }),
{
    let pos = 8 + records_bytes(c.take(i)).len() as int;
    let rec = record_bytes(c[i]);
    lemma_children_bytes_len(c[i].children@);
    lemma_records_split(c, i);
    assert(c.skip(i)[0] == c[i]);
    assert(c.skip(i).drop_first() =~= c.skip(i + 1));
    assert(records_bytes(c.skip(i)) == rec + records_bytes(c.skip(i + 1)));
    assert(bytes.subrange(pos, pos + rec.len() as int) =~= rec);
}

/// Appending a child index extends the child bytes at the end.
proof fn lemma_children_snoc(ch: Seq<usize>, x: usize)
    ensures
        children_bytes(ch.push(x)) == children_bytes(ch) + be32(x as int),
    decreases ch.len(),
{
    if ch.len() == 0 {
        assert(ch.push(x).drop_first() =~= ch);
        assert(children_bytes(ch.push(x)) =~= children_bytes(ch) + be32(x as int));
    } else {
        lemma_children_snoc(ch.drop_first(), x);
        assert(ch.push(x).drop_first() =~= ch.drop_first().push(x));
        assert(children_bytes(ch.push(x)) =~= children_bytes(ch) + be32(x as int));
    }
}

/// Appending a cell extends the record bytes at the end.
proof fn lemma_records_snoc(cells: Seq<CellData>, c: CellData)
    ensures
        records_bytes(cells.push(c)) == records_bytes(cells) + record_bytes(c),
    decreases cells.len(),
{
    if cells.len() == 0 {
        assert(cells.push(c).drop_first() =~= cells);
        assert(records_bytes(cells.push(c)) =~= records_bytes(cells) + record_bytes(c));
    } else {
        lemma_records_snoc(cells.drop_first(), c);
        assert(cells.push(c).drop_first() =~= cells.drop_first().push(c));
        assert(records_bytes(cells.push(c)) =~= records_bytes(cells) + record_bytes(c));
    }
}

/// Reassembling a 32-bit value from its big-endian bytes.
pub proof fn lemma_be32_of_bytes(b0: u8, b1: u8, b2: u8, b3: u8)
    ensures
        ({
            let v = b0 as int * 0x1000000 + b1 as int * 0x10000 + b2 as int * 256 + b3 as int;
            0 <= v < 0x100000000 && be32(v) =~= seq![b0, b1, b2, b3]
        }),
{
    let v = b0 as int * 0x1000000 + b1 as int * 0x10000 + b2 as int * 256 + b3 as int;
    let low24 = b1 as int * 0x10000 + b2 as int * 256 + b3 as int;
    let low16 = b2 as int * 256 + b3 as int;
    lemma_mul_div(b0 as int, low24, 0x1000000);
    assert(v == b0 as int * 0x1000000 + low24);
    assert((b0 as int * 256 + b1 as int) * 0x10000 == b0 as int * 0x1000000 + b1 as int * 0x10000)
        by (nonlinear_arith);
    lemma_mul_div(b0 as int * 256 + b1 as int, low16, 0x10000);
    lemma_mul_div(b0 as int, b1 as int, 256);
    assert((b0 as int * 0x10000 + b1 as int * 256 + b2 as int) * 256
        == b0 as int * 0x1000000 + b1 as int * 0x10000 + b2 as int * 256) by (nonlinear_arith);
    lemma_mul_div(b0 as int * 0x10000 + b1 as int * 256 + b2 as int, b3 as int, 256);
    lemma_mul_div(b0 as int * 256 + b1 as int, b2 as int, 256);
    lemma_mul_div(v / 0x1000000, v / 0x10000 % 256, 256);
}

/// Reassembling a 16-bit value from its big-endian bytes.
proof fn lemma_be16_of_bytes(b0: u8, b1: u8)
    ensures
        ({
            let v = b0 as int * 256 + b1 as int;
            0 <= v < 0x10000 && be16(v) =~= seq![b0, b1]
        }),
{
    lemma_mul_div(b0 as int, b1 as int, 256);
}

/// The buffer is an image, and cell `i` of `count` cells has its record at
/// `pos`.
pub open spec fn img_at(bytes: Seq<u8>, c: Seq<CellData>, r0: int, i: int, count: int, pos: int) -> bool {
    &&& bag_image(bytes, c, r0)
    &&& count == c.len()
    &&& 0 <= i < c.len()
    &&& pos == 8 + records_bytes(c.take(i)).len()
}

/// Facts about record `i` of an image buffer: its fields sit at fixed
/// offsets after the records before it, and the cell is valid.
proof fn lemma_record_facts(bytes: Seq<u8>, c: Seq<CellData>, r0: int, i: int, count: int, p0: int)
    requires
        img_at(bytes, c, r0, i, count, p0),
    ensures
        cell_fields_ok(c[i]),
        p0 + 3 + c[i].data@.len() + 4 * c[i].children@.len() <= bytes.len(),
        record_bytes(c[i]).len() == 3 + c[i].data@.len() + 4 * c[i].children@.len(),
        seq![bytes[p0], bytes[p0 + 1]] == be16(c[i].bit_len as int),
        bytes[p0 + 2] == c[i].children@.len() as u8,
        bytes.subrange(p0 + 3, p0 + 3 + c[i].data@.len() as int) == c[i].data@,
        forall|k: int| 0 <= k < c[i].children@.len()
            ==> bytes.subrange(
                    p0 + 3 + c[i].data@.len() + 4 * k,
                    p0 + 3 + c[i].data@.len() + 4 * k + 4,
                ) == be32((#[trigger] c[i].children@[k]) as int),
        forall|k: int| 0 <= k < c[i].children@.len()
            ==> ((#[trigger] c[i].children@[k]) as int) < i,
{
    lemma_record_at(bytes, c, r0, i);
    let rec = record_bytes(c[i]);
    let dlen = c[i].data@.len() as int;
    let rl = rec.len() as int;
    lemma_children_bytes_len(c[i].children@);
    assert forall|t: int| 0 <= t < rl implies bytes[p0 + t] == rec[t] by {
        assert(bytes.subrange(p0, p0 + rl)[t] == rec[t]);
    }
    assert(rec[0] == be16(c[i].bit_len as int)[0]);
    assert(rec[1] == be16(c[i].bit_len as int)[1]);
    assert(rec[2] == c[i].children@.len() as u8);
    assert(seq![bytes[p0], bytes[p0 + 1]] =~= be16(c[i].bit_len as int));
    assert forall|j: int| 0 <= j < dlen implies bytes[p0 + 3 + j] == c[i].data@[j] by {
        assert(rec[3 + j] == c[i].data@[j]);
    }
    assert(bytes.subrange(p0 + 3, p0 + 3 + dlen) =~= c[i].data@);
    assert forall|k: int| 0 <= k < c[i].children@.len()
        implies bytes.subrange(p0 + 3 + dlen + 4 * k, p0 + 3 + dlen + 4 * k + 4)
            == be32((#[trigger] c[i].children@[k]) as int) by {
        lemma_children_at(c[i].children@, k);
        assert forall|t: int| 0 <= t < 4
            implies (#[trigger] bytes.subrange(p0 + 3 + dlen + 4 * k, p0 + 3 + dlen + 4 * k + 4)[t])
                == children_bytes(c[i].children@).subrange(4 * k, 4 * k + 4)[t] by {
            assert(rec[3 + dlen + 4 * k + t] == children_bytes(c[i].children@)[4 * k + t]);
            assert(bytes[p0 + 3 + dlen + 4 * k + t] == rec[3 + dlen + 4 * k + t]);
        }
        assert(bytes.subrange(p0 + 3 + dlen + 4 * k, p0 + 3 + dlen + 4 * k + 4)
            =~= children_bytes(c[i].children@).subrange(4 * k, 4 * k + 4));
    }
}

/// Parse the record of cell `i` at `pos`. On success the returned cell is
/// valid on its own, its children point below `i`, and its record is exactly
/// the consumed bytes. When the buffer is the image of a well-formed table,
/// parsing its record never fails and consumes exactly that record.
#[verifier::loop_isolation(false)]
#[verifier::rlimit(100)]
fn decode_record(bytes: &Vec<u8>, pos: usize, i: usize, count: usize) -> (r: Result<(CellData, usize), CodecError>)
    requires
        8 <= pos <= bytes@.len(),
        i < count,
    ensures
        match r {
            Ok((cell, newpos)) => {
                &&& cell_fields_ok(cell)
                &&& forall|m: int| 0 <= m < cell.children@.len() ==> (#[trigger] cell.children@[m]) < i
                &&& pos < newpos <= bytes@.len()
                &&& record_bytes(cell) == bytes@.subrange(pos as int, newpos as int)
            },
            Err(e) => {
                ||| e == CodecError::TruncatedBag
                ||| e == CodecError::MalformedCell
                ||| e == CodecError::DanglingReference
                ||| e == CodecError::CyclicReference
            },
        },
        forall|cc: Seq<CellData>, rr: int| #[trigger] img_at(bytes@, cc, rr, i as int, count as int, pos as int)
            ==> (r matches Ok(p) && p.1 == pos + record_bytes(cc[i as int]).len()),
{
    let ghost p0 = pos as int;
    let mut pos = pos;
    if bytes.len() - pos < 3 {
        proof {
            assert forall|cc: Seq<CellData>, rr: int|
                !(#[trigger] img_at(bytes@, cc, rr, i as int, count as int, p0)) by {
                if img_at(bytes@, cc, rr, i as int, count as int, p0) {
                    lemma_record_facts(bytes@, cc, rr, i as int, count as int, p0);
                }
            }
        }
        return Err(CodecError::TruncatedBag);
    }
    let bl: usize = (bytes[pos] as usize) * 256 + (bytes[pos + 1] as usize);
    proof {
        lemma_be16_of_bytes(bytes@[p0], bytes@[p0 + 1]);
        assert forall|cc: Seq<CellData>, rr: int|
            #[trigger] img_at(bytes@, cc, rr, i as int, count as int, p0)
            implies bl == cc[i as int].bit_len by {
            lemma_record_facts(bytes@, cc, rr, i as int, count as int, p0);
            assert(be16(bl as int) =~= seq![bytes@[p0], bytes@[p0 + 1]]);
            lemma_be16_inj(bl as u64, cc[i as int].bit_len as u64);
        }
    }
    if bl > MAX_CELL_BITS {
        proof {
            assert forall|cc: Seq<CellData>, rr: int|
                !(#[trigger] img_at(bytes@, cc, rr, i as int, count as int, p0)) by {
                if img_at(bytes@, cc, rr, i as int, count as int, p0) {
                    lemma_record_facts(bytes@, cc, rr, i as int, count as int, p0);
                }
            }
        }
        return Err(CodecError::MalformedCell);
    }
    let nch: u8 = bytes[pos + 2];
    proof {
        assert forall|cc: Seq<CellData>, rr: int|
            #[trigger] img_at(bytes@, cc, rr, i as int, count as int, p0)
            implies nch as int == cc[i as int].children@.len() by {
            lemma_record_facts(bytes@, cc, rr, i as int, count as int, p0);
        }
    }
    if nch > 4 {
        proof {
            assert forall|cc: Seq<CellData>, rr: int|
                !(#[trigger] img_at(bytes@, cc, rr, i as int, count as int, p0)) by {
                if img_at(bytes@, cc, rr, i as int, count as int, p0) {
                    lemma_record_facts(bytes@, cc, rr, i as int, count as int, p0);
                }
            }
        }
        return Err(CodecError::MalformedCell);
    }
    pos = pos + 3;
    let nbytes: usize = needed_bytes(bl);
    proof {
        assert forall|cc: Seq<CellData>, rr: int|
            #[trigger] img_at(bytes@, cc, rr, i as int, count as int, p0)
            implies nbytes == cc[i as int].data@.len() by {
            lemma_record_facts(bytes@, cc, rr, i as int, count as int, p0);
        }
    }
    if bytes.len() - pos < nbytes {
        proof {
            assert forall|cc: Seq<CellData>, rr: int|
                !(#[trigger] img_at(bytes@, cc, rr, i as int, count as int, p0)) by {
                if img_at(bytes@, cc, rr, i as int, count as int, p0) {
                    lemma_record_facts(bytes@, cc, rr, i as int, count as int, p0);
                }
            }
        }
        return Err(CodecError::TruncatedBag);
    }
    let mut data: Vec<u8> = Vec::new();
    let mut k: usize = 0;
    while k < nbytes
        invariant
            k <= nbytes,
            pos + nbytes <= bytes@.len(),
            data@ =~= bytes@.subrange(pos as int, pos as int + k as int),
        decreases nbytes - k,
    {
        data.push(bytes[pos + k]);
        k += 1;
        assert(data@ =~= bytes@.subrange(pos as int, pos as int + k as int));
    }
    if bl % 8 != 0 {
        if data[nbytes - 1] & (0xffu8 >> ((bl % 8) as u8)) != 0 {
            proof {
                assert forall|cc: Seq<CellData>, rr: int|
                    !(#[trigger] img_at(bytes@, cc, rr, i as int, count as int, p0)) by {
                    if img_at(bytes@, cc, rr, i as int, count as int, p0) {
                        lemma_record_facts(bytes@, cc, rr, i as int, count as int, p0);
                        assert(data@ == cc[i as int].data@);
                        assert(padding_zero(data@, bl as nat));
                    }
                }
            }
            return Err(CodecError::MalformedCell);
        }
    }
    pos = pos + nbytes;
    let mut children: Vec<usize> = Vec::new();
    let mut k2: usize = 0;
    while k2 < nch as usize
        invariant
            k2 <= nch as usize,
            pos <= bytes@.len(),
            pos == p0 + 3 + nbytes + 4 * k2,
            bytes@.subrange(p0 + 3 + nbytes, pos as int) =~= children_bytes(children@),
            children@.len() == k2,
            forall|m: int| 0 <= m < k2 ==> (#[trigger] children@[m]) < i,
        decreases nch as usize - k2,
    {
        if bytes.len() - pos < 4 {
            proof {
                assert forall|cc: Seq<CellData>, rr: int|
                    !(#[trigger] img_at(bytes@, cc, rr, i as int, count as int, p0)) by {
                    if img_at(bytes@, cc, rr, i as int, count as int, p0) {
                        lemma_record_facts(bytes@, cc, rr, i as int, count as int, p0);
                    }
                }
            }
            return Err(CodecError::TruncatedBag);
        }
        let c: usize = read_be32(bytes, pos);
        proof {
            lemma_be32_of_bytes(bytes@[pos as int], bytes@[pos as int + 1],
                bytes@[pos as int + 2], bytes@[pos as int + 3]);
            assert forall|cc: Seq<CellData>, rr: int|
                #[trigger] img_at(bytes@, cc, rr, i as int, count as int, p0)
                implies c as int == cc[i as int].children@[k2 as int]
                    && (cc[i as int].children@[k2 as int] as int) < i by {
                lemma_record_facts(bytes@, cc, rr, i as int, count as int, p0);
                assert(be32(c as int) =~= bytes@.subrange(pos as int, pos as int + 4));
                lemma_be32_inj(c as u64, cc[i as int].children@[k2 as int] as u64);
            }
        }
        if c >= count {
            proof {
                assert forall|cc: Seq<CellData>, rr: int|
                    !(#[trigger] img_at(bytes@, cc, rr, i as int, count as int, p0)) by {
                }
            }
            return Err(CodecError::DanglingReference);
        }
        if c >= i {
            proof {
                assert forall|cc: Seq<CellData>, rr: int|
                    !(#[trigger] img_at(bytes@, cc, rr, i as int, count as int, p0)) by {
                }
            }
            return Err(CodecError::CyclicReference);
        }
        proof {
            lemma_children_snoc(children@, c);
            assert(be32(c as int) =~= bytes@.subrange(pos as int, pos as int + 4));
            assert(bytes@.subrange(p0 + 3 + nbytes, pos as int + 4)
                =~= bytes@.subrange(p0 + 3 + nbytes, pos as int)
                    + bytes@.subrange(pos as int, pos as int + 4));
        }
        children.push(c);
        pos = pos + 4;
        k2 += 1;
    }
    let cell = CellData { data, bit_len: bl, children };
    proof {
        assert(cell_fields_ok(cell));
        assert(record_bytes(cell) =~= bytes@.subrange(p0, pos as int)) by {
            assert(be16(cell.bit_len as int) =~= bytes@.subrange(p0, p0 + 2));
            assert(seq![cell.children@.len() as u8] =~= bytes@.subrange(p0 + 2, p0 + 3));
            assert(cell.data@ =~= bytes@.subrange(p0 + 3, p0 + 3 + nbytes));
            assert(children_bytes(cell.children@)
                =~= bytes@.subrange(p0 + 3 + nbytes, pos as int));
        }
        assert forall|cc: Seq<CellData>, rr: int|
            #[trigger] img_at(bytes@, cc, rr, i as int, count as int, p0)
            implies pos == p0 + record_bytes(cc[i as int]).len() by {
            lemma_record_facts(bytes@, cc, rr, i as int, count as int, p0);
        }
    }
    Ok((cell, pos))
}

/// Decode a bag buffer into a cell store and the root's arena index.
///
/// The buffer must consist of exactly one well-formed bag: a decoded result
/// re-serializes to the input, byte for byte. Failures: `TruncatedBag` when
/// the buffer ends before the header or a record is complete, `MalformedCell`
/// when a record's bit length, child count or padding bits are out of form,
/// `DanglingReference` when the root or a child index points outside the cell
/// table, `CyclicReference` when a child index does not point at an earlier
/// record, and `InvalidEncoding` when bytes trail the last record.
#[verifier::loop_isolation(false)]
#[verifier::rlimit(100)]
pub fn decode(bytes: &Vec<u8>) -> (r: Result<(CellStore, usize), CodecError>)
    ensures
        match r {
            Ok((s, root)) => {
                &&& wf_cells_basic(s.cells@)
                &&& s.cells@.len() < 0x100000000
                &&& (root as int) < s.cells@.len()
                &&& bytes@ == bag_bytes(s.cells@, root as int)
            },
            Err(e) => {
                ||| e == CodecError::TruncatedBag
                ||| e == CodecError::MalformedCell
                ||| e == CodecError::DanglingReference
                ||| e == CodecError::CyclicReference
                ||| e == CodecError::InvalidEncoding
            },
        },
        bytes@.len() < 8 ==> r == Err::<(CellStore, usize), CodecError>(CodecError::TruncatedBag),
        (exists|cc: Seq<CellData>, rr: int| #[trigger] bag_image(bytes@, cc, rr)) ==> r is Ok,
{
    if bytes.len() < 8 {
        proof {
            assert forall|cc: Seq<CellData>, rr: int| !(#[trigger] bag_image(bytes@, cc, rr)) by {
                if bag_image(bytes@, cc, rr) {
                    assert(bytes@.len() >= 8);
                }
            }
        }
        return Err(CodecError::TruncatedBag);
    }
    let count: usize = read_be32(bytes, 0);
    let root: usize = read_be32(bytes, 4);
    proof {
        lemma_be32_of_bytes(bytes@[0], bytes@[1], bytes@[2], bytes@[3]);
        lemma_be32_of_bytes(bytes@[4], bytes@[5], bytes@[6], bytes@[7]);
        assert(be32(count as int) =~= bytes@.subrange(0, 4));
        assert(be32(root as int) =~= bytes@.subrange(4, 8));
        assert forall|cc: Seq<CellData>, rr: int| #[trigger] bag_image(bytes@, cc, rr)
            implies count == cc.len() && root as int == rr by {
            assert(be32(cc.len() as int) =~= bytes@.subrange(0, 4));
            assert(be32(rr) =~= bytes@.subrange(4, 8));
            lemma_be32_inj(count as u64, cc.len() as u64);
            lemma_be32_inj(root as u64, rr as u64);
        }
    }
    if root >= count {
        proof {
            assert forall|cc: Seq<CellData>, rr: int| !(#[trigger] bag_image(bytes@, cc, rr)) by {
                if bag_image(bytes@, cc, rr) {
                    assert(count == cc.len() && root as int == rr);
                }
            }
        }
        return Err(CodecError::DanglingReference);
    }
    let mut store = CellStore { cells: Vec::new() };
    let mut pos: usize = 8;
    let mut i: usize = 0;
    proof {
        assert(bytes@.subrange(0, 8) =~= bytes@.subrange(0, 4) + bytes@.subrange(4, 8));
        assert(bytes@.subrange(0, 8) =~= be32(count as int) + be32(root as int)
            + records_bytes(store.cells@));
        assert forall|cc: Seq<CellData>, rr: int| #[trigger] bag_image(bytes@, cc, rr)
            implies pos == 8 + records_bytes(cc.take(i as int)).len() by {
            assert(cc.take(0) =~= Seq::<CellData>::empty());
        }
    }
    while i < count
        invariant
            store.cells@.len() == i,
            i <= count,
            8 <= pos <= bytes@.len(),
            pos == 8 + records_bytes(store.cells@).len(),
            bytes@.subrange(0, pos as int) =~= be32(count as int) + be32(root as int)
                + records_bytes(store.cells@),
            wf_cells_basic(store.cells@),
            forall|cc: Seq<CellData>, rr: int| #[trigger] bag_image(bytes@, cc, rr)
                ==> pos == 8 + records_bytes(cc.take(i as int)).len(),
        decreases count - i,
    {
        let ghost cells0 = store.cells@;
        let ghost pos0 = pos as int;
        let (cell, newpos) = match decode_record(bytes, pos, i, count) {
            Ok(p) => p,
            Err(e) => {
                proof {
                    assert forall|cc: Seq<CellData>, rr: int|
                        !(#[trigger] bag_image(bytes@, cc, rr)) by {
                        if bag_image(bytes@, cc, rr) {
                            assert(img_at(bytes@, cc, rr, i as int, count as int, pos as int));
                        }
                    }
                }
                return Err(e);
            },
        };
        proof {
            lemma_records_snoc(cells0, cell);
            assert(bytes@.subrange(0, newpos as int) =~= bytes@.subrange(0, pos0)
                + bytes@.subrange(pos0, newpos as int));
            assert(bytes@.subrange(0, newpos as int) =~= be32(count as int) + be32(root as int)
                + records_bytes(cells0.push(cell)));
            assert forall|cc: Seq<CellData>, rr: int| #[trigger] bag_image(bytes@, cc, rr)
                implies newpos == 8 + records_bytes(cc.take(i as int + 1)).len() by {
                assert(img_at(bytes@, cc, rr, i as int, count as int, pos as int));
                lemma_record_at(bytes@, cc, rr, i as int);
                lemma_records_snoc(cc.take(i as int), cc[i as int]);
                assert(cc.take(i as int + 1) =~= cc.take(i as int).push(cc[i as int]));
            }
        }
        pos = newpos;
        store.cells.push(cell);
        i += 1;
    }
    if pos != bytes.len() {
        proof {
            assert forall|cc: Seq<CellData>, rr: int| !(#[trigger] bag_image(bytes@, cc, rr)) by {
                if bag_image(bytes@, cc, rr) {
                    assert(cc.take(count as int) =~= cc);
                }
            }
        }
        return Err(CodecError::InvalidEncoding);
    }
    proof {
        assert(bytes@.subrange(0, pos as int) =~= bytes@);
        assert(store.cells@.len() == count);
    }
    Ok((store, root))
}

/// The relation between a cell of the arena and its copy in the table that
/// `encode` emits: same payload, and each child index renumbered through
/// `newidx`.
pub open spec fn remapped(cells: Seq<CellData>, newidx: Seq<usize>, emit: Seq<CellData>, m: int) -> bool {
    &&& 0 <= m < cells.len()
    &&& 0 <= m < newidx.len()
    &&& (newidx[m] as int) < emit.len()
    &&& emit[newidx[m] as int].bit_len == cells[m].bit_len
    &&& emit[newidx[m] as int].data@ == cells[m].data@
    &&& emit[newidx[m] as int].children@.len() == cells[m].children@.len()
    &&& forall|k: int| 0 <= k < cells[m].children@.len() ==>
            (#[trigger] emit[newidx[m] as int].children@[k]) == newidx[cells[m].children@[k] as int]
}

/// One step of the marker sweep: if cell `j` is marked, its children become
/// marked too.
pub open spec fn spec_mark_step(cells: Seq<CellData>, keep: Seq<bool>, j: int) -> Seq<bool> {
    Seq::new(keep.len(), |m: int| keep[m]
        || (0 <= j < cells.len() && keep[j]
            && exists|k: int| 0 <= k < cells[j].children@.len()
                && (#[trigger] cells[j].children@[k]) == m))
}

/// The marks after the sweep has processed every cell from the last down to
/// `j`. Children point at earlier cells, so one downward sweep starting from
/// the root's mark reaches everything the root reaches.
pub open spec fn spec_marks_from(cells: Seq<CellData>, root: int, j: int) -> Seq<bool>
    decreases cells.len() - j,
{
    if j >= cells.len() {
        Seq::new(cells.len(), |m: int| m == root)
    } else {
        spec_mark_step(cells, spec_marks_from(cells, root, j + 1), j)
    }
}

/// The reachable-cell marks of the arena.
pub open spec fn spec_marks(cells: Seq<CellData>, root: int) -> Seq<bool> {
    spec_marks_from(cells, root, 0)
}

/// How many cells below `m` are marked: the emitted index of a marked cell.
pub open spec fn spec_rank(keep: Seq<bool>, m: int) -> int
    decreases m,
{
    if m <= 0 {
        0
    } else {
        spec_rank(keep, m - 1) + (if keep[m - 1] { 1int } else { 0int })
    }
}

/// The child-index bytes of a record, each index renumbered to its rank.
pub open spec fn spec_mapped_children(keep: Seq<bool>, ch: Seq<usize>) -> Seq<u8>
    decreases ch.len(),
{
    if ch.len() == 0 {
        Seq::empty()
    } else {
        be32(spec_rank(keep, ch[0] as int)) + spec_mapped_children(keep, ch.drop_first())
    }
}

/// The records of the marked cells among the first `i`, in arena order,
/// children renumbered to their ranks.
pub open spec fn spec_records_upto(cells: Seq<CellData>, keep: Seq<bool>, i: int) -> Seq<u8>
    decreases i,
{
    if i <= 0 {
        Seq::empty()
    } else {
        spec_records_upto(cells, keep, i - 1) + (if keep[i - 1] {
            be16(cells[i - 1].bit_len as int) + seq![cells[i - 1].children@.len() as u8]
                + cells[i - 1].data@ + spec_mapped_children(keep, cells[i - 1].children@)
        } else {
            Seq::empty()
        })
    }
}

/// The bag buffer of a subtree, as a pure function of the arena and the
/// root: the header, then one record per reachable cell, children before
/// parents. `encode` returns exactly this, so encoding is deterministic and
/// bit-stable for a given arena and root.
pub open spec fn spec_encode(cells: Seq<CellData>, root: int) -> Seq<u8> {
    let keep = spec_marks(cells, root);
    be32(spec_rank(keep, cells.len() as int)) + be32(spec_rank(keep, root))
        + spec_records_upto(cells, keep, cells.len() as int)
}

/// Renumbered child indices serialize to the renumbered child bytes.
proof fn lemma_mapped_children_eq(keep: Seq<bool>, orig: Seq<usize>, mapped: Seq<usize>)
    requires
        mapped.len() == orig.len(),
        forall|t: int| 0 <= t < orig.len()
            ==> (#[trigger] mapped[t]) as int == spec_rank(keep, orig[t] as int),
    ensures
        children_bytes(mapped) == spec_mapped_children(keep, orig),
    decreases orig.len(),
{
    if orig.len() > 0 {
        assert forall|t: int| 0 <= t < orig.drop_first().len()
            implies (#[trigger] mapped.drop_first()[t]) as int
                == spec_rank(keep, orig.drop_first()[t] as int) by {
            assert(mapped.drop_first()[t] == mapped[t + 1]);
            assert(orig.drop_first()[t] == orig[t + 1]);
        }
        lemma_mapped_children_eq(keep, orig.drop_first(), mapped.drop_first());
        assert(mapped[0] as int == spec_rank(keep, orig[0] as int));
        assert(children_bytes(mapped) =~= spec_mapped_children(keep, orig));
    } else {
        assert(children_bytes(mapped) =~= spec_mapped_children(keep, orig));
    }
}

/// Mark the cells reachable from `root`: one downward sweep, since children
/// always point at earlier cells.
#[verifier::loop_isolation(false)]
#[verifier::rlimit(100)]
fn mark_reachable(store: &CellStore, root: usize) -> (keep: Vec<bool>)
    requires
        wf_cells(store.cells@),
        (root as int) < store.cells@.len(),
    ensures
        keep@.len() == store.cells@.len(),
        keep@ == spec_marks(store.cells@, root as int),
        keep@[root as int],
        forall|m: int, k: int|
            0 <= m < store.cells@.len() && keep@[m]
                && 0 <= k < store.cells@[m].children@.len()
            ==> keep@[(#[trigger] store.cells@[m].children@[k]) as int],
{
    let ghost cells = store.cells@;
    let n = store.cells.len();
    let mut keep: Vec<bool> = Vec::new();
    let mut z: usize = 0;
    while z < n
        invariant
            keep@.len() == z,
            z <= n,
            forall|m: int| 0 <= m < z ==> (#[trigger] keep@[m]) == (m == root as int),
        decreases n - z,
    {
        keep.push(z == root);
        z += 1;
    }
    proof {
        assert(keep@ =~= spec_marks_from(cells, root as int, n as int));
    }
    let mut j: usize = n;
    while j > 0
        invariant
            keep@.len() == n,
            keep@[root as int],
            j <= n,
            keep@ == spec_marks_from(cells, root as int, j as int),
            forall|m: int, k: int|
                j <= m < n && keep@[m] && 0 <= k < cells[m].children@.len()
                ==> keep@[(#[trigger] cells[m].children@[k]) as int],
        decreases j,
    {
        j -= 1;
        let ghost keep0 = keep@;
        if keep[j] {
            let nchild = store.cells[j].children.len();
            let mut k: usize = 0;
            while k < nchild
                invariant
                    keep@.len() == n,
                    keep@[root as int],
                    j < n,
                    keep@[j as int],
                    keep0[j as int],
                    nchild == cells[j as int].children@.len(),
                    k <= nchild,
                    keep@ == Seq::new(n as nat, |m: int| keep0[m]
                        || (exists|t: int| 0 <= t < k
                            && (#[trigger] cells[j as int].children@[t]) == m)),
                    forall|m: int, k2: int|
                        j + 1 <= m < n && keep@[m] && 0 <= k2 < cells[m].children@.len()
                        ==> keep@[(#[trigger] cells[m].children@[k2]) as int],
                    forall|t: int| 0 <= t < k
                        ==> keep@[(#[trigger] cells[j as int].children@[t]) as int],
                decreases nchild - k,
            {
                let ci = store.cells[j].children[k];
                assert(ci < j);
                let ghost keep1 = keep@;
                keep.set(ci, true);
                k += 1;
                proof {
                    assert forall|m: int| 0 <= m < n
                        implies #[trigger] keep@[m] == (keep0[m]
                            || (exists|t: int| 0 <= t < k
                                && (#[trigger] cells[j as int].children@[t]) == m)) by {
                        if m == ci as int {
                            assert(cells[j as int].children@[k - 1] == m);
                        } else {
                            assert(keep@[m] == keep1[m]);
                            if exists|t: int| 0 <= t < k
                                && (#[trigger] cells[j as int].children@[t]) == m {
                                let t = choose|t: int| 0 <= t < k
                                    && (#[trigger] cells[j as int].children@[t]) == m;
                                assert(t != k - 1);
                                assert(0 <= t < k - 1
                                    && cells[j as int].children@[t] == m);
                            }
                        }
                    }
                    assert(keep@ =~= Seq::new(n as nat, |m: int| keep0[m]
                        || (exists|t: int| 0 <= t < k
                            && (#[trigger] cells[j as int].children@[t]) == m)));
                }
            }
        }
        proof {
            assert(keep@ =~= spec_mark_step(cells, keep0, j as int)) by {
                if keep0[j as int] {
                    assert forall|m: int| 0 <= m < n
                        implies #[trigger] keep@[m]
                            == spec_mark_step(cells, keep0, j as int)[m] by {
                    }
                } else {
                    assert forall|m: int| 0 <= m < n
                        implies #[trigger] keep@[m]
                            == spec_mark_step(cells, keep0, j as int)[m] by {
                    }
                }
            }
            assert(keep@ == spec_marks_from(cells, root as int, j as int));
        }
    }
    keep
}

/// Sweeping from a childless root marks nothing else.
proof fn lemma_marks_leaf(cells: Seq<CellData>, p: int, j: int)
    requires
        0 <= p < cells.len(),
        cells[p].children@.len() == 0,
        0 <= j <= cells.len(),
    ensures
        spec_marks_from(cells, p, j) =~= Seq::new(cells.len(), |m: int| m == p),
    decreases cells.len() - j,
{
    if j < cells.len() {
        lemma_marks_leaf(cells, p, j + 1);
        assert(spec_marks_from(cells, p, j)
            =~= Seq::new(cells.len(), |m: int| m == p));
    }
}

/// With one marked cell, the rank is zero up to it and one after it.
proof fn lemma_rank_single(keep: Seq<bool>, p: int, m: int)
    requires
        0 <= p < keep.len(),
        forall|q: int| 0 <= q < keep.len() ==> (#[trigger] keep[q]) == (q == p),
        0 <= m <= keep.len(),
    ensures
        spec_rank(keep, m) == if m <= p { 0int } else { 1int },
    decreases m,
{
    if m > 0 {
        lemma_rank_single(keep, p, m - 1);
    }
}

/// With one marked, childless cell, the records are that cell's record.
proof fn lemma_records_single(cells: Seq<CellData>, keep: Seq<bool>, p: int, i: int)
    requires
        0 <= p < cells.len(),
        cells[p].children@.len() == 0,
        keep.len() == cells.len(),
        forall|q: int| 0 <= q < keep.len() ==> (#[trigger] keep[q]) == (q == p),
        0 <= i <= cells.len(),
    ensures
        spec_records_upto(cells, keep, i) == if i <= p {
            Seq::<u8>::empty()
        } else {
            be16(cells[p].bit_len as int) + seq![0u8] + cells[p].data@
        },
    decreases i,
{
    if i > 0 {
        lemma_records_single(cells, keep, p, i - 1);
        if i - 1 == p {
            assert(spec_mapped_children(keep, cells[p].children@) =~= Seq::<u8>::empty());
            assert(seq![cells[p].children@.len() as u8] =~= seq![0u8]);
            assert(spec_records_upto(cells, keep, i)
                =~= be16(cells[p].bit_len as int) + seq![0u8] + cells[p].data@);
        } else {
            assert(spec_records_upto(cells, keep, i)
                =~= spec_records_upto(cells, keep, i - 1));
        }
    }
}

/// Encoding a subtree whose root has no children gives a one-record bag
/// holding exactly that cell's payload.
pub proof fn lemma_spec_encode_leaf(cells: Seq<CellData>, p: int)
    requires
        0 <= p < cells.len(),
        cells[p].children@.len() == 0,
    ensures
        spec_encode(cells, p) == be32(1) + be32(0) + be16(cells[p].bit_len as int)
            + seq![0u8] + cells[p].data@,
{
    let keep = spec_marks(cells, p);
    lemma_marks_leaf(cells, p, 0);
    assert forall|q: int| 0 <= q < keep.len() implies (#[trigger] keep[q]) == (q == p) by {
    }
    lemma_rank_single(keep, p, cells.len() as int);
    lemma_rank_single(keep, p, p);
    lemma_records_single(cells, keep, p, cells.len() as int);
    assert(spec_encode(cells, p) =~= be32(1) + be32(0)
        + be16(cells[p].bit_len as int) + seq![0u8] + cells[p].data@);
}

/// What `encode` promises of its output: some deduplicated, well-formed cell
/// table `emit` with root `r2` serializes to exactly the output bytes, and
/// the subtree at `r2` is structurally equal to the encoded subtree.
pub open spec fn encode_witness(cells: Seq<CellData>, root: int, emit: Seq<CellData>, r2: int, out: Seq<u8>) -> bool {
    &&& wf_cells(emit)
    &&& 0 <= r2 < emit.len()
    &&& emit.len() <= cells.len()
    &&& out == bag_bytes(emit, r2)
    &&& cell_eq(cells, root, emit, r2)
}

/// A kept cell of the arena is structurally equal to its renumbered copy.
proof fn lemma_remap_cell_eq(cells: Seq<CellData>, keep: Seq<bool>, newidx: Seq<usize>, emit: Seq<CellData>, i: int)
    requires
        wf_cells(cells),
        keep.len() == cells.len(),
        newidx.len() == cells.len(),
        forall|m: int| 0 <= m < cells.len() && keep[m] ==> remapped(cells, newidx, emit, m),
        forall|m: int, k: int|
            0 <= m < cells.len() && keep[m] && 0 <= k < cells[m].children@.len()
            ==> keep[(#[trigger] cells[m].children@[k]) as int],
        0 <= i < cells.len(),
        keep[i],
    ensures
        cell_eq(cells, i, emit, newidx[i] as int),
    decreases i,
{
    let j = newidx[i] as int;
    assert(remapped(cells, newidx, emit, i));
    assert forall|k: int| 0 <= k < cells[i].children@.len()
        implies cell_child_eq(cells, i, emit, j, trig_int(k)) by {
        let ci = cells[i].children@[k] as int;
        assert(keep[ci]);
        lemma_remap_cell_eq(cells, keep, newidx, emit, ci);
        assert(emit[j].children@[k] == newidx[ci]);
        assert(cell_child_eq(cells, i, emit, j, k));
    }
}

/// The table built by `encode`'s renumbering pass is well formed (children
/// first, deduplicated) and its entry for a kept arena index is structurally
/// equal to that index's subtree.
proof fn lemma_emit_ok(cells: Seq<CellData>, keep: Seq<bool>, newidx: Seq<usize>, emit: Seq<CellData>, origof: Seq<int>, root: int)
    requires
        wf_cells(cells),
        keep.len() == cells.len(),
        newidx.len() == cells.len(),
        origof.len() == emit.len(),
        0 <= root < cells.len(),
        keep[root],
        forall|m: int, k: int|
            0 <= m < cells.len() && keep[m] && 0 <= k < cells[m].children@.len()
            ==> keep[(#[trigger] cells[m].children@[k]) as int],
        forall|m: int| 0 <= m < cells.len() && keep[m] ==> (#[trigger] newidx[m] as int) < emit.len(),
        forall|m: int| 0 <= m < cells.len() && keep[m] ==> remapped(cells, newidx, emit, m),
        forall|m1: int, m2: int|
            0 <= m1 < m2 < cells.len() && keep[m1] && keep[m2]
            ==> (#[trigger] newidx[m1]) < (#[trigger] newidx[m2]),
        forall|p: int| 0 <= p < emit.len() ==> {
            &&& 0 <= (#[trigger] origof[p]) < cells.len()
            &&& keep[origof[p]]
            &&& newidx[origof[p]] == p
        },
        forall|p: int| 0 <= p < emit.len() ==> cell_fields_ok(#[trigger] emit[p]),
    ensures
        wf_cells(emit),
        cell_eq(cells, root, emit, newidx[root] as int),
{
    assert forall|p: int, q: int| 0 <= p < q < emit.len()
        implies !same_cell(#[trigger] emit[p], #[trigger] emit[q]) by {
        let mp = origof[p];
        let mq = origof[q];
        assert(newidx[mp] == p && newidx[mq] == q);
        assert(mp != mq);
        assert(mp < mq) by {
            if mq < mp {
                assert(newidx[mq] < newidx[mp]);
            }
        }
        if same_cell(emit[p], emit[q]) {
            assert(remapped(cells, newidx, emit, mp));
            assert(remapped(cells, newidx, emit, mq));
            assert forall|k: int| 0 <= k < cells[mp].children@.len()
                implies (#[trigger] cells[mp].children@[k]) == cells[mq].children@[k] by {
                assert(emit[p].children@[k] == newidx[cells[mp].children@[k] as int]);
                assert(emit[q].children@[k] == newidx[cells[mq].children@[k] as int]);
                let c1 = cells[mp].children@[k] as int;
                let c2 = cells[mq].children@[k] as int;
                assert(keep[c1] && keep[c2]);
                assert(c1 < mp && c2 < mq);
                if c1 < c2 {
                    assert(newidx[c1] < newidx[c2]);
                }
                if c2 < c1 {
                    assert(newidx[c2] < newidx[c1]);
                }
            }
            assert(cells[mp].children@ =~= cells[mq].children@);
            assert(same_cell(cells[mp], cells[mq]));
            assert(false);
        }
    }
    assert forall|p: int, k: int|
        0 <= p < emit.len() && 0 <= k < emit[p].children@.len()
        implies (#[trigger] emit[p].children@[k]) < p by {
        let m = origof[p];
        assert(remapped(cells, newidx, emit, m));
        let cm = cells[m].children@[k] as int;
        assert(emit[p].children@[k] == newidx[cm]);
        assert(cm < m && keep[cm]);
        assert(newidx[cm] < newidx[m]);
    }
    assert(wf_cells(emit));
    lemma_remap_cell_eq(cells, keep, newidx, emit, root);
}

/// Encode the subtree rooted at `root` as a bag buffer.
///
/// The output is the header and then one record per distinct cell reachable
/// from `root`, children before parents, each reachable cell written once.
/// The contract names the emitted table: it is well formed, deduplicated, no
/// larger than the arena, serializes to exactly the returned bytes, and its
/// root is structurally equal to the encoded subtree.
#[verifier::loop_isolation(false)]
#[verifier::rlimit(100)]
pub fn encode(store: &CellStore, root: usize) -> (r: Vec<u8>)
    requires
        wf_cells(store.cells@),
        (root as int) < store.cells@.len(),
        store.cells@.len() < 0x100000000,
    ensures
        exists|emit: Seq<CellData>, r2: int|
            encode_witness(store.cells@, root as int, emit, r2, r@),
        r@ == spec_encode(store.cells@, root as int),
{
    let ghost cells = store.cells@;
    let n = store.cells.len();
    let keep = mark_reachable(store, root);
    let mut newidx: Vec<usize> = Vec::new();
    let mut emit: Vec<CellData> = Vec::new();
    let ghost mut origof: Seq<int> = Seq::empty();
    let mut i: usize = 0;
    while i < n
        invariant
            keep@.len() == n,
            keep@[root as int],
            newidx@.len() == i,
            i <= n,
            emit@.len() <= i,
            origof.len() == emit@.len(),
            forall|m: int, k: int|
                0 <= m < n && keep@[m] && 0 <= k < cells[m].children@.len()
                ==> keep@[(#[trigger] cells[m].children@[k]) as int],
            forall|m: int| 0 <= m < i && keep@[m] ==> (#[trigger] newidx@[m] as int) < emit@.len(),
            forall|m: int| 0 <= m < i && keep@[m] ==> remapped(cells, newidx@, emit@, m),
            forall|m1: int, m2: int|
                0 <= m1 < m2 < i && keep@[m1] && keep@[m2]
                ==> (#[trigger] newidx@[m1]) < (#[trigger] newidx@[m2]),
            forall|p: int| 0 <= p < emit@.len() ==> {
                &&& 0 <= (#[trigger] origof[p]) < i
                &&& keep@[origof[p]]
                &&& newidx@[origof[p]] == p
            },
            forall|p: int| 0 <= p < emit@.len() ==> cell_fields_ok(#[trigger] emit@[p]),
            emit@.len() == spec_rank(keep@, i as int),
            forall|m: int| 0 <= m < i && keep@[m]
                ==> (#[trigger] newidx@[m]) as int == spec_rank(keep@, m),
            records_bytes(emit@) == spec_records_upto(cells, keep@, i as int),
        decreases n - i,
    {
        let ghost newidx0 = newidx@;
        let ghost emit0 = emit@;
        if keep[i] {
            let nchild = store.cells[i].children.len();
            let mut nc: Vec<usize> = Vec::new();
            let mut k: usize = 0;
            while k < nchild
                invariant
                    i < n,
                    keep@[i as int],
                    nchild == cells[i as int].children@.len(),
                    k <= nchild,
                    nc@.len() == k,
                    forall|t: int| 0 <= t < k ==> (#[trigger] nc@[t]) == newidx@[cells[i as int].children@[t] as int],
                    forall|t: int| 0 <= t < k ==> (#[trigger] nc@[t] as int) < emit@.len(),
                decreases nchild - k,
            {
                let ci = store.cells[i].children[k];
                assert(ci < i);
                assert(keep@[ci as int]);
                nc.push(newidx[ci]);
                k += 1;
            }
            let bl = store.cells[i].bit_len;
            let dcopy = crate::cells::copy_bytes(&store.cells[i].data);
            let cell = CellData { data: dcopy, bit_len: bl, children: nc };
            newidx.push(emit.len());
            proof {
                origof = origof.push(i as int);
            }
            emit.push(cell);
            proof {
                lemma_records_snoc(emit0, cell);
                assert forall|t: int| 0 <= t < cells[i as int].children@.len()
                    implies (#[trigger] cell.children@[t]) as int
                        == spec_rank(keep@, cells[i as int].children@[t] as int) by {
                    assert(cell.children@[t] == newidx0[cells[i as int].children@[t] as int]);
                }
                lemma_mapped_children_eq(keep@, cells[i as int].children@, cell.children@);
                assert(record_bytes(cell) =~= be16(cells[i as int].bit_len as int)
                    + seq![cells[i as int].children@.len() as u8]
                    + cells[i as int].data@
                    + spec_mapped_children(keep@, cells[i as int].children@));
                assert(records_bytes(emit@)
                    =~= spec_records_upto(cells, keep@, i as int + 1));
                assert(cell_fields_ok(cells[i as int]));
                assert(cell_fields_ok(emit@[emit@.len() - 1]));
                assert(remapped(cells, newidx@, emit@, i as int));
                assert forall|m: int| 0 <= m < i + 1 && keep@[m]
                    implies remapped(cells, newidx@, emit@, m) by {
                    if m < i {
                        assert(remapped(cells, newidx0, emit0, m));
                        assert(newidx@[m] == newidx0[m]);
                        assert(emit@[newidx0[m] as int] == emit0[newidx0[m] as int]);
                        assert forall|k3: int| 0 <= k3 < cells[m].children@.len()
                            implies (#[trigger] emit@[newidx@[m] as int].children@[k3])
                                == newidx@[cells[m].children@[k3] as int] by {
                            assert(emit0[newidx0[m] as int].children@[k3]
                                == newidx0[cells[m].children@[k3] as int]);
                            assert((cells[m].children@[k3] as int) < m);
                        }
                    }
                }
            }
        } else {
            newidx.push(0);
            proof {
                assert(records_bytes(emit@)
                    =~= spec_records_upto(cells, keep@, i as int + 1));
            }
        }
        i += 1;
    }
    let r2: usize = newidx[root];
    proof {
        lemma_emit_ok(cells, keep@, newidx@, emit@, origof, root as int);
    }
    let out = write_bag(&emit, r2);
    proof {
        assert(encode_witness(store.cells@, root as int, emit@, r2 as int, out@));
        assert(out@ =~= spec_encode(store.cells@, root as int)) by {
            assert((r2 as int) == spec_rank(keep@, root as int));
            assert(emit@.len() == spec_rank(keep@, n as int));
            assert(records_bytes(emit@) == spec_records_upto(cells, keep@, n as int));
        }
    }
    out
}

/// Serialize a well-formed cell table and root as a bag buffer.
#[verifier::loop_isolation(false)]
#[verifier::rlimit(100)]
fn write_bag(emit: &Vec<CellData>, r2: usize) -> (out: Vec<u8>)
    requires
        wf_cells(emit@),
        (r2 as int) < emit@.len(),
        emit@.len() < 0x100000000,
    ensures
        out@ == bag_bytes(emit@, r2 as int),
{
    let en = emit.len();
    let mut out: Vec<u8> = Vec::new();
    push_be32(&mut out, en);
    push_be32(&mut out, r2);
    proof {
        assert(out@ =~= be32(en as int) + be32(r2 as int) + records_bytes(emit@.subrange(0, 0)));
    }
    let mut e: usize = 0;
    while e < en
        invariant
            e <= en,
            out@ =~= be32(en as int) + be32(r2 as int) + records_bytes(emit@.subrange(0, e as int)),
        decreases en - e,
    {
        let ghost base = out@;
        let bl = emit[e].bit_len;
        out.push((bl / 256 % 256) as u8);
        out.push((bl % 256) as u8);
        out.push(emit[e].children.len() as u8);
        let nb = emit[e].data.len();
        let mut t: usize = 0;
        while t < nb
            invariant
                t <= nb,
                e < en,
                nb == emit@[e as int].data@.len(),
                out@ =~= base + be16(emit@[e as int].bit_len as int)
                    + seq![emit@[e as int].children@.len() as u8]
                    + emit@[e as int].data@.subrange(0, t as int),
            decreases nb - t,
        {
            out.push(emit[e].data[t]);
            t += 1;
            proof {
                assert(emit@[e as int].data@.subrange(0, t as int)
                    =~= emit@[e as int].data@.subrange(0, t - 1) + seq![emit@[e as int].data@[t - 1]]);
                assert(out@ =~= base + be16(emit@[e as int].bit_len as int)
                    + seq![emit@[e as int].children@.len() as u8]
                    + emit@[e as int].data@.subrange(0, t as int));
            }
        }
        proof {
            assert(emit@[e as int].data@.subrange(0, nb as int) =~= emit@[e as int].data@);
        }
        let nchild = emit[e].children.len();
        let mut t2: usize = 0;
        while t2 < nchild
            invariant
                t2 <= nchild,
                e < en,
                nchild == emit@[e as int].children@.len(),
                out@ =~= base + be16(emit@[e as int].bit_len as int)
                    + seq![emit@[e as int].children@.len() as u8]
                    + emit@[e as int].data@
                    + children_bytes(emit@[e as int].children@.subrange(0, t2 as int)),
            decreases nchild - t2,
        {
            let c = emit[e].children[t2];
            assert((c as int) < e);
            push_be32(&mut out, c);
            t2 += 1;
            proof {
                lemma_children_snoc(emit@[e as int].children@.subrange(0, t2 - 1), emit@[e as int].children@[t2 - 1]);
                assert(emit@[e as int].children@.subrange(0, t2 as int)
                    =~= emit@[e as int].children@.subrange(0, t2 - 1).push(emit@[e as int].children@[t2 - 1]));
                assert(out@ =~= base + be16(emit@[e as int].bit_len as int)
                    + seq![emit@[e as int].children@.len() as u8]
                    + emit@[e as int].data@
                    + children_bytes(emit@[e as int].children@.subrange(0, t2 as int)));
            }
        }
        proof {
            assert(emit@[e as int].children@.subrange(0, nchild as int) =~= emit@[e as int].children@);
            assert(out@ =~= base + record_bytes(emit@[e as int]));
            lemma_records_snoc(emit@.subrange(0, e as int), emit@[e as int]);
            assert(emit@.subrange(0, e as int + 1)
                =~= emit@.subrange(0, e as int).push(emit@[e as int]));
            assert(out@ =~= be32(en as int) + be32(r2 as int)
                + records_bytes(emit@.subrange(0, e as int + 1)));
        }
        e += 1;
    }
    proof {
        assert(emit@.subrange(0, en as int) =~= emit@);
        assert(out@ == bag_bytes(emit@, r2 as int));
    }
    out
}

/// `be32` is injective below 2^32.
proof fn lemma_be32_inj(x: u64, y: u64)
    requires
        x < 0x100000000,
        y < 0x100000000,
        be32(x as int) == be32(y as int),
    ensures
        x == y,
{
    assert(be32(x as int)[0] == be32(y as int)[0]);
    assert(be32(x as int)[1] == be32(y as int)[1]);
    assert(be32(x as int)[2] == be32(y as int)[2]);
    assert(be32(x as int)[3] == be32(y as int)[3]);
    assert(x == y) by (bit_vector)
        requires
            x < 0x100000000,
            y < 0x100000000,
            x / 0x1000000 % 256 == y / 0x1000000 % 256,
            x / 0x10000 % 256 == y / 0x10000 % 256,
            x / 256 % 256 == y / 256 % 256,
            x % 256 == y % 256,
    ;
}

/// `be16` is injective below 2^16.
proof fn lemma_be16_inj(x: u64, y: u64)
    requires
        x < 0x10000,
        y < 0x10000,
        be16(x as int) == be16(y as int),
    ensures
        x == y,
{
    assert(be16(x as int)[0] == be16(y as int)[0]);
    assert(be16(x as int)[1] == be16(y as int)[1]);
    assert(x == y) by (bit_vector)
        requires
            x < 0x10000,
            y < 0x10000,
            x / 256 % 256 == y / 256 % 256,
            x % 256 == y % 256,
    ;
}

/// Equal child bytes of equally many children are equal children.
proof fn lemma_children_bytes_inj(c1: Seq<usize>, c2: Seq<usize>)
    requires
        c1.len() == c2.len(),
        forall|t: int| 0 <= t < c1.len() ==> (#[trigger] c1[t]) < 0x100000000,
        forall|t: int| 0 <= t < c2.len() ==> (#[trigger] c2[t]) < 0x100000000,
        children_bytes(c1) == children_bytes(c2),
    ensures
        c1 == c2,
    decreases c1.len(),
{
    if c1.len() == 0 {
        assert(c1 =~= c2);
    } else {
        assert(children_bytes(c1)[0] == children_bytes(c2)[0]);
        assert(be32(c1[0] as int) =~= children_bytes(c1).subrange(0, 4));
        assert(be32(c2[0] as int) =~= children_bytes(c2).subrange(0, 4));
        lemma_be32_inj(c1[0] as u64, c2[0] as u64);
        assert(children_bytes(c1.drop_first()) =~= children_bytes(c1).skip(4));
        assert(children_bytes(c2.drop_first()) =~= children_bytes(c2).skip(4));
        lemma_children_bytes_inj(c1.drop_first(), c2.drop_first());
        assert(c1[0] == c2[0]);
        assert forall|t: int| 0 <= t < c1.len() implies c1[t] == c2[t] by {
            if t > 0 {
                assert(c1.drop_first()[t - 1] == c2.drop_first()[t - 1]);
            }
        }
        assert(c1 =~= c2);
    }
}

/// Equal records of equally many well-formed cells are equal cells.
proof fn lemma_records_inj(a: Seq<CellData>, b: Seq<CellData>)
    requires
        a.len() == b.len(),
        forall|i: int| 0 <= i < a.len() ==> cell_fields_ok(#[trigger] a[i]),
        forall|i: int| 0 <= i < b.len() ==> cell_fields_ok(#[trigger] b[i]),
        forall|i: int, k: int|
            0 <= i < a.len() && 0 <= k < a[i].children@.len()
            ==> (#[trigger] a[i].children@[k]) < 0x100000000,
        forall|i: int, k: int|
            0 <= i < b.len() && 0 <= k < b[i].children@.len()
            ==> (#[trigger] b[i].children@[k]) < 0x100000000,
        records_bytes(a) == records_bytes(b),
    ensures
        forall|i: int| 0 <= i < a.len() ==> same_cell(#[trigger] a[i], b[i]),
    decreases a.len(),
{
    if a.len() > 0 {
        let ra = record_bytes(a[0]);
        let rb = record_bytes(b[0]);
        let sa = records_bytes(a);
        let sb = records_bytes(b);
        assert(sa[0] == sb[0] && sa[1] == sb[1] && sa[2] == sb[2]);
        assert(be16(a[0].bit_len as int) =~= sa.subrange(0, 2));
        assert(be16(b[0].bit_len as int) =~= sb.subrange(0, 2));
        lemma_be16_inj(a[0].bit_len as u64, b[0].bit_len as u64);
        assert(ra[2] == a[0].children@.len() as u8 && rb[2] == b[0].children@.len() as u8);
        assert(a[0].children@.len() == b[0].children@.len());
        let nb = a[0].data@.len() as int;
        let nc = a[0].children@.len() as int;
        assert(b[0].data@.len() == nb);
        assert(ra.len() == 3 + nb + children_bytes(a[0].children@).len());
        assert(children_bytes(a[0].children@).len() == 4 * nc) by {
            lemma_children_bytes_len(a[0].children@);
        }
        assert(children_bytes(b[0].children@).len() == 4 * nc) by {
            lemma_children_bytes_len(b[0].children@);
        }
        assert(ra.len() == rb.len());
        assert(ra =~= sa.subrange(0, ra.len() as int));
        assert(rb =~= sb.subrange(0, rb.len() as int));
        assert(a[0].data@ =~= ra.subrange(3, 3 + nb));
        assert(b[0].data@ =~= rb.subrange(3, 3 + nb));
        assert(a[0].data@ == b[0].data@);
        assert(children_bytes(a[0].children@) =~= ra.subrange(3 + nb, ra.len() as int));
        assert(children_bytes(b[0].children@) =~= rb.subrange(3 + nb, rb.len() as int));
        lemma_children_bytes_inj(a[0].children@, b[0].children@);
        assert(same_cell(a[0], b[0]));
        assert(records_bytes(a.drop_first()) =~= sa.skip(ra.len() as int));
        assert(records_bytes(b.drop_first()) =~= sb.skip(rb.len() as int));
        assert forall|i: int| 0 <= i < a.drop_first().len()
            implies cell_fields_ok(#[trigger] a.drop_first()[i]) by {
            assert(a.drop_first()[i] == a[i + 1]);
        }
        assert forall|i: int| 0 <= i < b.drop_first().len()
            implies cell_fields_ok(#[trigger] b.drop_first()[i]) by {
            assert(b.drop_first()[i] == b[i + 1]);
        }
        assert forall|i: int, k: int|
            0 <= i < a.drop_first().len() && 0 <= k < a.drop_first()[i].children@.len()
            implies (#[trigger] a.drop_first()[i].children@[k]) < 0x100000000 by {
            assert(a.drop_first()[i] == a[i + 1]);
        }
        assert forall|i: int, k: int|
            0 <= i < b.drop_first().len() && 0 <= k < b.drop_first()[i].children@.len()
            implies (#[trigger] b.drop_first()[i].children@[k]) < 0x100000000 by {
            assert(b.drop_first()[i] == b[i + 1]);
        }
        lemma_records_inj(a.drop_first(), b.drop_first());
        assert forall|i: int| 0 <= i < a.len() implies same_cell(#[trigger] a[i], b[i]) by {
            if i > 0 {
                assert(same_cell(a.drop_first()[i - 1], b.drop_first()[i - 1]));
                assert(a.drop_first()[i - 1] == a[i] && b.drop_first()[i - 1] == b[i]);
            }
        }
    }
}

/// Child bytes are four bytes per child.
proof fn lemma_children_bytes_len(ch: Seq<usize>)
    ensures
        children_bytes(ch).len() == 4 * ch.len(),
    decreases ch.len(),
{
    if ch.len() > 0 {
        lemma_children_bytes_len(ch.drop_first());
    }
}

/// A bag buffer determines its cell table and root: two well-formed tables
/// with the same buffer are the same table, cell for cell. Together with the
/// contracts of `encode` and `decode` this says that decoding an encoded bag
/// gives back exactly the emitted table — a graph structurally equal, cell
/// identity for cell identity, to the one encoded.
pub proof fn lemma_bag_bytes_inj(a: Seq<CellData>, ra: int, b: Seq<CellData>, rb: int)
    requires
        forall|i: int| 0 <= i < a.len() ==> cell_fields_ok(#[trigger] a[i]),
        forall|i: int| 0 <= i < b.len() ==> cell_fields_ok(#[trigger] b[i]),
        forall|i: int, k: int|
            0 <= i < a.len() && 0 <= k < a[i].children@.len()
            ==> (#[trigger] a[i].children@[k]) < 0x100000000,
        forall|i: int, k: int|
            0 <= i < b.len() && 0 <= k < b[i].children@.len()
            ==> (#[trigger] b[i].children@[k]) < 0x100000000,
        a.len() < 0x100000000,
        b.len() < 0x100000000,
        0 <= ra < 0x100000000,
        0 <= rb < 0x100000000,
        bag_bytes(a, ra) == bag_bytes(b, rb),
    ensures
        a.len() == b.len(),
        ra == rb,
        forall|i: int| 0 <= i < a.len() ==> same_cell(#[trigger] a[i], b[i]),
{
    let sa = bag_bytes(a, ra);
    let sb = bag_bytes(b, rb);
    assert(be32(a.len() as int) =~= sa.subrange(0, 4));
    assert(be32(b.len() as int) =~= sb.subrange(0, 4));
    lemma_be32_inj(a.len() as u64, b.len() as u64);
    assert(be32(ra) =~= sa.subrange(4, 8));
    assert(be32(rb) =~= sb.subrange(4, 8));
    lemma_be32_inj(ra as u64, rb as u64);
    assert(records_bytes(a) =~= sa.skip(8));
    assert(records_bytes(b) =~= sb.skip(8));
    lemma_records_inj(a, b);
}

/// Round trip of the bag codec: any well-formed cell table that serializes
/// to the buffer `encode` produced for a graph is — cell for cell — the
/// table `encode` emitted, and its root subtree is structurally equal to
/// the encoded subtree. With `decode`'s contract (a decoded table
/// serializes back to its input, byte for byte) this says that decoding an
/// encoded bag reconstructs the reachable graph it came from: same shapes, and
/// one table entry per distinct cell, so same identities.
pub proof fn lemma_bag_round_trip(cells: Seq<CellData>, root: int, out: Seq<u8>, emit: Seq<CellData>, r2: int, cells2: Seq<CellData>, root2: int)
    requires
        encode_witness(cells, root, emit, r2, out),
        cells.len() < 0x100000000,
        wf_cells_basic(cells2),
        cells2.len() < 0x100000000,
        0 <= root2 < cells2.len(),
        out == bag_bytes(cells2, root2),
    ensures
        cells2.len() == emit.len(),
        root2 == r2,
        forall|i: int| 0 <= i < emit.len() ==> same_cell(#[trigger] cells2[i], emit[i]),
        cell_eq(cells, root, cells2, root2),
{
    assert forall|i: int, k: int|
        0 <= i < emit.len() && 0 <= k < emit[i].children@.len()
        implies (#[trigger] emit[i].children@[k]) < 0x100000000 by {
        assert((emit[i].children@[k] as int) < i);
    }
    assert forall|i: int, k: int|
        0 <= i < cells2.len() && 0 <= k < cells2[i].children@.len()
        implies (#[trigger] cells2[i].children@[k]) < 0x100000000 by {
        assert((cells2[i].children@[k] as int) < i);
    }
    lemma_bag_bytes_inj(emit, r2, cells2, root2);
    assert(store_extends(cells2, emit));
    lemma_cell_eq_extend(cells, root, emit, r2, cells2);
}

/// Append the big-endian bytes of a 32-bit value.
fn push_be32(out: &mut Vec<u8>, v: usize)
    requires
        v < 0x100000000,
    ensures
        final(out)@ == old(out)@ + be32(v as int),
{
    out.push((v / 0x1000000 % 256) as u8);
    out.push((v / 0x10000 % 256) as u8);
    out.push((v / 256 % 256) as u8);
    out.push((v % 256) as u8);
    assert(out@ =~= old(out)@ + be32(v as int));
}

/// Read a 32-bit big-endian value at `at`.
fn read_be32(bytes: &Vec<u8>, at: usize) -> (r: usize)
    requires
        at + 4 <= bytes@.len(),
    ensures
        r == bytes@[at as int] as int * 0x1000000 + bytes@[at as int + 1] as int * 0x10000
            + bytes@[at as int + 2] as int * 256 + bytes@[at as int + 3] as int,
        r < 0x100000000,
{
    let n: usize = bytes.len();
    assert(at + 4 <= n);
    (bytes[at] as usize) * 0x1000000 + (bytes[at + 1] as usize) * 0x10000
        + (bytes[at + 2] as usize) * 256 + (bytes[at + 3] as usize)
}

} // verus!
