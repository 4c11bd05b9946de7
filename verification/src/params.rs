//! The parameter codecs: per-parameter-id bidirectional mappings between a
//! dictionary value subtree and a JSON scalar.
//!
//! The registered ids and their schemas are a fixed table: ids `0`, `1` and
//! `3` hold an unsigned 32-bit integer (a 32-bit payload cell), id `2` holds
//! a boolean (a 1-bit payload cell). A dictionary value wraps its payload
//! cell one level deep: the stored cell has an empty payload and one child,
//! the payload cell itself. Every other id is unregistered and fails with
//! `UnsupportedParameter`.

use vstd::prelude::*;
use crate::cells::{CellData, CellStore, store_extends, wf_cells};
use crate::errors::CodecError;
use crate::json::JsonValue;

verus! {

/// The ids with a registered codec.
pub open spec fn is_known_id(id: int) -> bool {
    0 <= id <= 3
}

/// The externally defined name of a registered parameter.
pub open spec fn spec_param_name(id: int) -> Seq<u8> {
    seq![112u8, (48 + id) as u8]
}

/// The JSON name of a registered parameter id, `None` for any other id.
pub fn param_name(id: i32) -> (r: Option<Vec<u8>>)
    ensures
        match r {
            Some(n) => is_known_id(id as int) && n@ == spec_param_name(id as int),
            None => !is_known_id(id as int),
        },
{
    if 0 <= id && id <= 3 {
        let mut n: Vec<u8> = Vec::new();
        n.push(112u8);
        n.push(48u8 + (id as u8));
        proof {
            assert(n@ =~= spec_param_name(id as int));
        }
        Some(n)
    } else {
        None
    }
}

/// A JSON value that satisfies the schema of a registered id: a boolean for
/// id 2, an integer within unsigned 32-bit range for the integer ids.
pub open spec fn param_value_ok(id: int, v: JsonValue) -> bool {
    if id == 2 {
        v is Bool
    } else {
        v matches JsonValue::Int(x) && 0 <= x <= 0xffffffff
    }
}

/// A dictionary value cell: empty payload, exactly one child (the payload
/// cell).
pub open spec fn wrapper_ok(cells: Seq<CellData>, w: int) -> bool {
    &&& 0 <= w < cells.len()
    &&& cells[w].bit_len == 0
    &&& cells[w].data@.len() == 0
    &&& cells[w].children@.len() == 1
    &&& (cells[w].children@[0] as int) < cells.len()
}

/// The payload cell at `p` has the shape id `id` expects.
pub open spec fn payload_ok(id: int, cells: Seq<CellData>, p: int) -> bool {
    &&& 0 <= p < cells.len()
    &&& cells[p].children@.len() == 0
    &&& (if id == 2 {
        cells[p].bit_len == 1 && cells[p].data@.len() == 1
            && (cells[p].data@[0] == 0u8 || cells[p].data@[0] == 0x80u8)
    } else {
        cells[p].bit_len == 32 && cells[p].data@.len() == 4
    })
}

/// The JSON value the payload cell at `p` stands for, under id `id`'s
/// schema.
pub open spec fn payload_value(id: int, cells: Seq<CellData>, p: int) -> JsonValue {
    if id == 2 {
        JsonValue::Bool(cells[p].data@[0] == 0x80u8)
    } else {
        JsonValue::Int((cells[p].data@[0] as int * 0x1000000 + cells[p].data@[1] as int * 0x10000
            + cells[p].data@[2] as int * 256 + cells[p].data@[3] as int) as i64)
    }
}

/// A stored dictionary value (wrapper and payload) of the right shape.
pub open spec fn param_shape_ok(id: int, cells: Seq<CellData>, w: int) -> bool {
    &&& wrapper_ok(cells, w)
    &&& payload_ok(id, cells, cells[w].children@[0] as int)
}

/// The JSON value a stored dictionary value stands for.
pub open spec fn param_value(id: int, cells: Seq<CellData>, w: int) -> JsonValue {
    payload_value(id, cells, cells[w].children@[0] as int)
}

/// What decoding the dictionary value at `w` yields.
pub open spec fn param_decode_result(id: int, cells: Seq<CellData>, w: int) -> Result<JsonValue, CodecError> {
    if !is_known_id(id) {
        Err(CodecError::UnsupportedParameter)
    } else if !param_shape_ok(id, cells, w) {
        Err(CodecError::SchemaMismatch)
    } else {
        Ok(param_value(id, cells, w))
    }
}

/// A codec is its own inverse: decoding any stored value whose shape is id
/// `id`'s and whose content stands for `v` yields exactly `v`. Together with
/// `encode_param`'s contract — which establishes these premises of its
/// output for every value satisfying the schema — decoding an encoded value
/// gives the value back.
pub proof fn lemma_param_round_trip(id: int, cells: Seq<CellData>, w: int, v: JsonValue)
    requires
        is_known_id(id),
        param_value_ok(id, v),
        param_shape_ok(id, cells, w),
        param_value(id, cells, w) == v,
    ensures
        param_decode_result(id, cells, w) == Ok::<JsonValue, CodecError>(v),
{
}

/// Decode the dictionary value at `w` under id `id`'s schema.
pub fn decode_param(store: &CellStore, id: i32, w: usize) -> (r: Result<JsonValue, CodecError>)
    ensures
        r == param_decode_result(id as int, store.cells@, w as int),
{
    if id < 0 || id > 3 {
        return Err(CodecError::UnsupportedParameter);
    }
    if w >= store.cells.len() {
        return Err(CodecError::SchemaMismatch);
    }
    let wc = &store.cells[w];
    if !(wc.bit_len == 0 && wc.data.len() == 0 && wc.children.len() == 1) {
        return Err(CodecError::SchemaMismatch);
    }
    let p = wc.children[0];
    if p >= store.cells.len() {
        return Err(CodecError::SchemaMismatch);
    }
    let pc = &store.cells[p];
    if pc.children.len() != 0 {
        return Err(CodecError::SchemaMismatch);
    }
    if id == 2 {
        if pc.bit_len == 1 && pc.data.len() == 1 && (pc.data[0] == 0 || pc.data[0] == 0x80) {
            Ok(JsonValue::Bool(pc.data[0] == 0x80))
        } else {
            Err(CodecError::SchemaMismatch)
        }
    } else {
        if pc.bit_len == 32 && pc.data.len() == 4 {
            let v: u64 = (pc.data[0] as u64) * 0x1000000 + (pc.data[1] as u64) * 0x10000
                + (pc.data[2] as u64) * 256 + (pc.data[3] as u64);
            Ok(JsonValue::Int(v as i64))
        } else {
            Err(CodecError::SchemaMismatch)
        }
    }
}

/// Encode a JSON value as a fresh dictionary value (wrapper and payload)
/// under id `id`'s schema, returning the wrapper's arena index. Fails with
/// `UnsupportedParameter` for an unregistered id and with `InvalidValue` for
/// a value of the wrong type or outside the schema's range.
pub fn encode_param(store: &mut CellStore, id: i32, v: &JsonValue) -> (r: Result<usize, CodecError>)
    requires
        old(store).wf(),
    ensures
        final(store).wf(),
        store_extends(final(store).cells@, old(store).cells@),
        final(store).cells@.len() <= old(store).cells@.len() + 2,
        !is_known_id(id as int) ==> r == Err::<usize, CodecError>(CodecError::UnsupportedParameter),
        is_known_id(id as int) && !param_value_ok(id as int, *v)
            ==> r == Err::<usize, CodecError>(CodecError::InvalidValue),
        is_known_id(id as int) && param_value_ok(id as int, *v) ==> (r matches Ok(w) && {
            &&& (w as int) < final(store).cells@.len()
            &&& param_shape_ok(id as int, final(store).cells@, w as int)
            &&& param_value(id as int, final(store).cells@, w as int) == *v
        }),
        r is Err ==> final(store).cells@ == old(store).cells@,
{
    if id < 0 || id > 3 {
        return Err(CodecError::UnsupportedParameter);
    }
    let p: usize;
    if id == 2 {
        let b = match v {
            JsonValue::Bool(b) => *b,
            _ => {
                return Err(CodecError::InvalidValue);
            },
        };
        let mut data: Vec<u8> = Vec::new();
        data.push(if b { 0x80u8 } else { 0u8 });
        proof {
            assert(0x80u8 & !(0xffu8 >> 1u8) == 0x80u8) by (bit_vector);
            assert(0u8 & !(0xffu8 >> 1u8) == 0u8) by (bit_vector);
        }
        p = match store.make_cell(data, 1, Vec::new()) {
            Ok(i) => i,
            Err(_) => {
                proof {
                    assert(false);
                }
                0
            },
        };
    } else {
        let x = match v {
            JsonValue::Int(x) => *x,
            _ => {
                return Err(CodecError::InvalidValue);
            },
        };
        if x < 0 || x > 0xffffffff {
            return Err(CodecError::InvalidValue);
        }
        let u: u64 = x as u64;
        let mut data: Vec<u8> = Vec::new();
        data.push((u / 0x1000000) as u8);
        data.push((u / 0x10000 % 256) as u8);
        data.push((u / 256 % 256) as u8);
        data.push((u % 256) as u8);
        proof {
            assert((u / 0x1000000) * 0x1000000 + (u / 0x10000 % 256) * 0x10000
                + (u / 256 % 256) * 256 + u % 256 == u) by (bit_vector)
                requires u < 0x100000000,
            ;
        }
        p = match store.make_cell(data, 32, Vec::new()) {
            Ok(i) => i,
            Err(_) => {
                proof {
                    assert(false);
                }
                0
            },
        };
    }
    let ghost mid = store.cells@;
    let mut wch: Vec<usize> = Vec::new();
    wch.push(p);
    proof {
        assert(wch@ =~= seq![p]);
    }
    let w = match store.make_cell(Vec::new(), 0, wch) {
        Ok(i) => i,
        Err(_) => {
            proof {
                assert(false);
            }
            0
        },
    };
    proof {
        assert(final(store).cells@[w as int].children@[0] == p);
        assert(crate::cells::same_cell(final(store).cells@[p as int], mid[p as int]));
    }
    Ok(w)
}

} // verus!
