//! The two top-level conversion directions.
//!
//! Binary to JSON: base64 text, to bag bytes, to a cell store, dictionary
//! lookup by parameter id, parameter decode, to a one-member JSON object.
//!
//! JSON to binary: the JSON text must describe the entire configuration
//! snapshot, one member per registered parameter. It is parsed, encoded
//! parameter by parameter into a fresh dictionary, the requested id's entry
//! is looked up, and a new bag is rooted at that entry's payload cell (the
//! stored value wraps its payload one level deep). The asymmetry is
//! deliberate: decoding works parameter by parameter, encoding demands the
//! whole configuration.

use vstd::prelude::*;
use crate::bag;
use crate::bag::{
    bag_bytes, bag_image, be16, be32, encode_witness, lemma_be32_of_bytes,
    lemma_spec_encode_leaf, spec_encode, wf_cells_basic,
};
use crate::cells::{CellData, CellStore, cell_eq, same_cell, store_extends, wf_cells};
use crate::dict;
use crate::dict::{dict_wf, key_u32, lookup};
use crate::errors::CodecError;
use crate::json;
use crate::json::{JsonValue, members_view, parse_obj_spec, ser_obj};
use crate::params;
use crate::params::{
    is_known_id, param_decode_result, param_shape_ok, param_value, param_value_ok, payload_ok,
    payload_value, spec_param_name, wrapper_ok,
};
use crate::text;
use crate::text::{b64_decode, b64_encode};

verus! {

/// The value of the first member with the given name.
pub open spec fn find_member(ms: Seq<(Seq<u8>, JsonValue)>, name: Seq<u8>) -> Option<JsonValue>
    decreases ms.len(),
{
    if ms.len() == 0 {
        None
    } else if ms[0].0 == name {
        Some(ms[0].1)
    } else {
        find_member(ms.drop_first(), name)
    }
}

/// A complete configuration object: exactly one member per registered
/// parameter, each valid for its schema, and nothing else.
pub open spec fn config_ok(ms: Seq<(Seq<u8>, JsonValue)>) -> bool {
    &&& ms.len() == 4
    &&& forall|id: int| 0 <= id <= 3 ==> {
        let f = #[trigger] find_member(ms, spec_param_name(id));
        f matches Some(v) && param_value_ok(id, v)
    }
}

/// The payload bytes of a parameter value under its schema.
pub open spec fn spec_payload_bytes(id: int, v: JsonValue) -> Seq<u8> {
    if id == 2 {
        seq![if v == JsonValue::Bool(true) { 0x80u8 } else { 0u8 }]
    } else {
        be32(v->Int_0 as int)
    }
}

/// The exact bag bytes (before base64) the encode direction returns for
/// parameter `id` bound to `v`: a one-record bag holding the payload cell.
pub open spec fn spec_param_bag(id: int, v: JsonValue) -> Seq<u8> {
    be32(1) + be32(0) + be16(if id == 2 { 1int } else { 32int }) + seq![0u8]
        + spec_payload_bytes(id, v)
}

/// Exec form of `find_member`.
fn find_member_x(ms: &Vec<(Vec<u8>, JsonValue)>, name: &Vec<u8>) -> (r: Option<JsonValue>)
    ensures
        r == find_member(members_view(ms@), name@),
{
    let mut i: usize = 0;
    proof {
        assert(members_view(ms@).skip(0) =~= members_view(ms@));
    }
    while i < ms.len()
        invariant
            i <= ms@.len(),
            find_member(members_view(ms@), name@)
                == find_member(members_view(ms@).skip(i as int), name@),
        decreases ms@.len() - i,
    {
        if crate::cells::eq_bytes(&ms[i].0, name) {
            proof {
                assert(members_view(ms@).skip(i as int)[0] == (ms@[i as int].0@, ms@[i as int].1));
            }
            return Some(ms[i].1);
        }
        proof {
            assert(members_view(ms@).skip(i as int)[0] == (ms@[i as int].0@, ms@[i as int].1));
            assert(members_view(ms@).skip(i as int).drop_first()
                =~= members_view(ms@).skip(i as int + 1));
        }
        i += 1;
    }
    proof {
        assert(members_view(ms@).skip(ms@.len() as int) =~= Seq::<(Seq<u8>, JsonValue)>::empty());
    }
    None
}

/// Distinct keys have distinct bit patterns.
proof fn lemma_key_u32_inj(a: i32, b: i32)
    ensures
        a != b ==> key_u32(a) != key_u32(b),
{
}

/// Decoding a parameter reads only cell contents, so two tables whose
/// entries hold the same content decode alike.
proof fn lemma_param_decode_same(id: int, a: Seq<CellData>, b: Seq<CellData>, w: int)
    requires
        a.len() == b.len(),
        store_extends(a, b),
    ensures
        param_decode_result(id, a, w) == param_decode_result(id, b, w),
{
    assert forall|i: int| 0 <= i < a.len() implies same_cell(#[trigger] b[i], a[i]) by {
        assert(same_cell(a[i], b[i]));
    }
    assert(store_extends(b, a));
    if param_shape_ok(id, b, w) {
        lemma_param_preserved(id, b, a, w);
    }
    if param_shape_ok(id, a, w) {
        lemma_param_preserved(id, a, b, w);
    }
}

/// A stored parameter value survives extending the arena.
proof fn lemma_param_preserved(id: int, prior: Seq<CellData>, new: Seq<CellData>, w: int)
    requires
        store_extends(new, prior),
        param_shape_ok(id, prior, w),
    ensures
        param_shape_ok(id, new, w),
        param_value(id, new, w) == param_value(id, prior, w),
{
    assert(same_cell(new[w], prior[w]));
    let p = prior[w].children@[0] as int;
    assert(same_cell(new[p], prior[p]));
}

/// Binary to JSON for one parameter: decode the base64 bag text as a full
/// configuration snapshot, look the id up, and render `{"<name>":<value>}`.
///
/// Failures: `InvalidEncoding` for malformed base64 framing — which the bag
/// decoder also reports when bytes trail the last record, so well-formed
/// base64 of an overlong buffer fails with it too — the bag decoder's other
/// errors for a corrupt container (a buffer shorter than the header always
/// gives `TruncatedBag`), `MalformedDictionary` for a broken prefix tree,
/// `ParameterNotFound` when the id has no entry, `UnsupportedParameter` and
/// `SchemaMismatch` from the parameter codec. An absent id never yields an
/// empty or null object, only the `ParameterNotFound` failure.
#[verifier::rlimit(100)]
pub fn param_to_json(text: &Vec<u8>, id: i32) -> (r: Result<Vec<u8>, CodecError>)
    ensures
        b64_decode(text@) is None ==> r == Err::<Vec<u8>, CodecError>(CodecError::InvalidEncoding),
        (b64_decode(text@) matches Some(b) && b.len() < 8)
            ==> r == Err::<Vec<u8>, CodecError>(CodecError::TruncatedBag),
        r matches Ok(out) ==> (exists|cells: Seq<CellData>, root: int, w: int, v: JsonValue|
            #![trigger bag_bytes(cells, root), param_decode_result(id as int, cells, w),
                ser_obj(seq![(spec_param_name(id as int), v)])]
        {
            &&& b64_decode(text@) == Some(bag_bytes(cells, root))
            &&& wf_cells_basic(cells)
            &&& 0 <= root < cells.len()
            &&& lookup(cells, root, key_u32(id), 0) == Some(Some(w))
            &&& param_decode_result(id as int, cells, w) == Ok::<JsonValue, CodecError>(v)
            &&& out@ == ser_obj(seq![(spec_param_name(id as int), v)])
        }),
        r == Err::<Vec<u8>, CodecError>(CodecError::ParameterNotFound)
            ==> (exists|cells: Seq<CellData>, root: int| {
            &&& b64_decode(text@) == Some(bag_bytes(cells, root))
            &&& wf_cells_basic(cells)
            &&& 0 <= root < cells.len()
            &&& #[trigger] lookup(cells, root, key_u32(id), 0) == Some(None::<int>)
        }),
        r == Err::<Vec<u8>, CodecError>(CodecError::UnsupportedParameter)
            ==> !is_known_id(id as int),
        forall|cells2: Seq<CellData>, rt: int|
            (b64_decode(text@) is Some
                && bag_image(b64_decode(text@)->Some_0, cells2, rt)
                && #[trigger] lookup(cells2, rt, key_u32(id), 0) == Some(None::<int>))
            ==> r == Err::<Vec<u8>, CodecError>(CodecError::ParameterNotFound),
        forall|cells2: Seq<CellData>, rt: int, w: int|
            #![trigger lookup(cells2, rt, key_u32(id), 0), param_decode_result(id as int, cells2, w)]
            (b64_decode(text@) is Some
                && bag_image(b64_decode(text@)->Some_0, cells2, rt)
                && lookup(cells2, rt, key_u32(id), 0) == Some(Some(w))
                && param_decode_result(id as int, cells2, w) is Ok)
            ==> (r matches Ok(out) && out@ == ser_obj(seq![(
                    spec_param_name(id as int),
                    param_decode_result(id as int, cells2, w)->Ok_0,
                )])),
{
    let bytes = match text::from_text(text) {
        Ok(b) => b,
        Err(e) => {
            return Err(e);
        },
    };
    let (store, root) = match bag::decode(&bytes) {
        Ok(p) => p,
        Err(e) => {
            proof {
                assert forall|cells2: Seq<CellData>, rt: int|
                    !(b64_decode(text@) is Some
                        && #[trigger] bag_image(b64_decode(text@)->Some_0, cells2, rt)) by {
                    if b64_decode(text@) is Some
                        && bag_image(b64_decode(text@)->Some_0, cells2, rt) {
                        assert(bag_image(bytes@, cells2, rt));
                    }
                }
            }
            return Err(e);
        },
    };
    proof {
        assert forall|cells2: Seq<CellData>, rt: int|
            (b64_decode(text@) is Some && bag_image(b64_decode(text@)->Some_0, cells2, rt))
            implies #[trigger] lookup(cells2, rt, key_u32(id), 0)
                == lookup(store.cells@, root as int, key_u32(id), 0) by {
            assert(bag_image(bytes@, cells2, rt));
            assert forall|i: int, k: int|
                0 <= i < store.cells@.len() && 0 <= k < store.cells@[i].children@.len()
                implies (#[trigger] store.cells@[i].children@[k]) < 0x100000000 by {
                assert((store.cells@[i].children@[k] as int) < i);
            }
            assert forall|i: int, k: int|
                0 <= i < cells2.len() && 0 <= k < cells2[i].children@.len()
                implies (#[trigger] cells2[i].children@[k]) < 0x100000000 by {
                assert((cells2[i].children@[k] as int) < i);
            }
            crate::bag::lemma_bag_bytes_inj(store.cells@, root as int, cells2, rt);
            assert(crate::cells::store_extends(cells2, store.cells@));
            dict::lemma_lookup_frame(store.cells@, cells2, root as int, key_u32(id), 0);
        }
        assert forall|cells2: Seq<CellData>, w: int|
            (b64_decode(text@) is Some
                && (exists|rt: int| #[trigger] bag_image(b64_decode(text@)->Some_0, cells2, rt)))
            implies #[trigger] param_decode_result(id as int, cells2, w)
                == param_decode_result(id as int, store.cells@, w) by {
            let rt = choose|rt: int| bag_image(b64_decode(text@)->Some_0, cells2, rt);
            assert(bag_image(bytes@, cells2, rt));
            assert forall|i: int, k: int|
                0 <= i < cells2.len() && 0 <= k < cells2[i].children@.len()
                implies (#[trigger] cells2[i].children@[k]) < 0x100000000 by {
                assert((cells2[i].children@[k] as int) < i);
            }
            crate::bag::lemma_bag_bytes_inj(store.cells@, root as int, cells2, rt);
            assert(crate::cells::store_extends(cells2, store.cells@));
            lemma_param_decode_same(id as int, cells2, store.cells@, w);
        }
    }
    let w = match dict::get(&store, root, id) {
        Ok(Some(w)) => w,
        Ok(None) => {
            proof {
                assert(lookup(store.cells@, root as int, key_u32(id), 0) == Some(None::<int>));
            }
            return Err(CodecError::ParameterNotFound);
        },
        Err(e) => {
            return Err(e);
        },
    };
    let v = match params::decode_param(&store, id, w) {
        Ok(v) => v,
        Err(e) => {
            return Err(e);
        },
    };
    let name = match params::param_name(id) {
        Some(n) => n,
        None => {
            proof {
                assert(false);
            }
            return Err(CodecError::UnsupportedParameter);
        },
    };
    let ghost nview = name@;
    let mut members: Vec<(Vec<u8>, JsonValue)> = Vec::new();
    members.push((name, v));
    let out = json::to_json_bytes(&members);
    proof {
        assert(members_view(members@) =~= seq![(spec_param_name(id as int), v)]);
        assert(lookup(store.cells@, root as int, key_u32(id), 0) == Some(Some(w as int)));
    }
    Ok(out)
}

/// JSON to binary for one parameter: the text must describe the entire
/// configuration (every registered parameter present and valid, nothing
/// else), which is encoded into a fresh dictionary snapshot; the requested
/// id's stored value is looked up, and a bag rooted at its payload cell is
/// returned as base64 text.
///
/// Failures: `InvalidJson` when the text is not an object of the accepted
/// grammar, `InvalidValue` when the object is not a complete valid
/// configuration (a missing member is never silently defaulted), and
/// `ParameterNotFound` when the requested id has no entry in the freshly
/// built snapshot — which, the snapshot being complete, means an
/// unregistered id.
#[verifier::loop_isolation(false)]
#[verifier::rlimit(100)]
pub fn param_to_bag(text: &Vec<u8>, id: i32) -> (r: Result<Vec<u8>, CodecError>)
    ensures
        parse_obj_spec(text@) is None ==> r == Err::<Vec<u8>, CodecError>(CodecError::InvalidJson),
        (parse_obj_spec(text@) matches Some(ms) && !config_ok(ms))
            ==> r == Err::<Vec<u8>, CodecError>(CodecError::InvalidValue),
        (parse_obj_spec(text@) matches Some(ms) && config_ok(ms) && !is_known_id(id as int))
            ==> r == Err::<Vec<u8>, CodecError>(CodecError::ParameterNotFound),
        (parse_obj_spec(text@) matches Some(ms) && config_ok(ms) && is_known_id(id as int))
            ==> (r matches Ok(out) && (exists|emit: Seq<CellData>, r2: int| {
                &&& wf_cells(emit)
                &&& 0 <= r2 < emit.len()
                &&& out@ == b64_encode(bag_bytes(emit, r2))
                &&& #[trigger] payload_ok(id as int, emit, r2)
                &&& find_member(parse_obj_spec(text@)->Some_0, spec_param_name(id as int))
                        == Some(payload_value(id as int, emit, r2))
            })),
        (parse_obj_spec(text@) matches Some(ms) && config_ok(ms) && is_known_id(id as int))
            ==> (r matches Ok(out) && out@ == b64_encode(spec_param_bag(
                    id as int,
                    find_member(parse_obj_spec(text@)->Some_0,
                        spec_param_name(id as int))->Some_0,
                ))),
{
    let ms = match json::parse_obj(text) {
        Ok(ms) => ms,
        Err(e) => {
            return Err(e);
        },
    };
    let ghost msv = members_view(ms@);
    if ms.len() != 4 {
        return Err(CodecError::InvalidValue);
    }
    let mut store = CellStore::new();
    let mut root = dict::empty_dict(&mut store);
    let mut k: usize = 0;
    while k < 4
        invariant
            k <= 4,
            store.wf(),
            (root as int) < store.cells@.len(),
            store.cells@.len() <= 1 + 72 * k,
            dict_wf(store.cells@, root as int, 0),
            forall|j: int| 0 <= j < k ==> {
                let f = #[trigger] find_member(msv, spec_param_name(j));
                &&& f is Some
                &&& param_value_ok(j, f->Some_0)
                &&& exists|w: int|
                    #![trigger param_shape_ok(j, store.cells@, w)]
                {
                    &&& 0 <= w < store.cells@.len()
                    &&& lookup(store.cells@, root as int, key_u32(j as i32), 0)
                            == Some(Some(w))
                    &&& param_shape_ok(j, store.cells@, w)
                    &&& param_value(j, store.cells@, w) == f->Some_0
                }
            },
            forall|k2: u32| (forall|j: int| 0 <= j < k ==> k2 != key_u32(#[trigger] (j as i32)))
                ==> #[trigger] lookup(store.cells@, root as int, k2, 0) == Some(None::<int>),
        decreases 4 - k,
    {
        let ghost cells0 = store.cells@;
        let ghost root0 = root;
        let kid: i32 = k as i32;
        let name = match params::param_name(kid) {
            Some(n) => n,
            None => {
                proof {
                    assert(false);
                }
                return Err(CodecError::UnsupportedParameter);
            },
        };
        let fv = match find_member_x(&ms, &name) {
            Some(v) => v,
            None => {
                proof {
                    assert(find_member(msv, spec_param_name(k as int)) is None);
                    assert(!config_ok(msv));
                }
                return Err(CodecError::InvalidValue);
            },
        };
        let w = match params::encode_param(&mut store, kid, &fv) {
            Ok(w) => w,
            Err(e) => {
                proof {
                    assert(e == CodecError::InvalidValue);
                    assert(!param_value_ok(k as int, fv));
                    assert(!config_ok(msv));
                }
                return Err(CodecError::InvalidValue);
            },
        };
        let ghost cells1 = store.cells@;
        proof {
            dict::lemma_dict_wf_frame(cells0, cells1, root0 as int, 0);
        }
        let root2 = match dict::with_entry(&mut store, root, kid, w) {
            Ok(nr) => nr,
            Err(e) => {
                proof {
                    assert(false);
                }
                return Err(e);
            },
        };
        proof {
            let cellsf = store.cells@;
            assert(store_extends(cellsf, cells0));
            assert forall|j: int| 0 <= j < k + 1 implies {
                let f = #[trigger] find_member(msv, spec_param_name(j));
                &&& f is Some
                &&& param_value_ok(j, f->Some_0)
                &&& exists|wx: int|
                    #![trigger param_shape_ok(j, cellsf, wx)]
                {
                    &&& 0 <= wx < cellsf.len()
                    &&& lookup(cellsf, root2 as int, key_u32(j as i32), 0)
                            == Some(Some(wx))
                    &&& param_shape_ok(j, cellsf, wx)
                    &&& param_value(j, cellsf, wx) == f->Some_0
                }
            } by {
                if j < k {
                    let f = find_member(msv, spec_param_name(j));
                    let wj = choose|wx: int|
                        #![trigger param_shape_ok(j, cells0, wx)]
                    {
                        &&& 0 <= wx < cells0.len()
                        &&& lookup(cells0, root0 as int, key_u32(j as i32), 0) == Some(Some(wx))
                        &&& param_shape_ok(j, cells0, wx)
                        &&& param_value(j, cells0, wx) == f->Some_0
                    };
                    lemma_key_u32_inj(j as i32, kid);
                    assert(j as i32 != kid);
                    assert(key_u32(j as i32) != key_u32(kid));
                    dict::lemma_lookup_frame(cells0, cells1, root0 as int, key_u32(j as i32), 0);
                    assert(lookup(cellsf, root2 as int, key_u32(j as i32), 0) == Some(Some(wj)));
                    lemma_param_preserved(j, cells0, cellsf, wj);
                } else {
                    assert(find_member(msv, spec_param_name(k as int)) == Some(fv));
                    assert(param_value_ok(k as int, fv));
                    assert(param_shape_ok(k as int, cells1, w as int));
                    lemma_param_preserved(k as int, cells1, cellsf, w as int);
                    assert(lookup(cellsf, root2 as int, key_u32(kid), 0) == Some(Some(w as int)));
                }
            }
            assert forall|k2: u32| (forall|j: int| 0 <= j < k + 1
                    ==> k2 != key_u32(#[trigger] (j as i32)))
                implies #[trigger] lookup(cellsf, root2 as int, k2, 0) == Some(None::<int>) by {
                assert(((k as int) as i32) == kid);
                assert(k2 != key_u32((k as int) as i32));
                assert(k2 != key_u32(kid));
                dict::lemma_lookup_frame(cells0, cells1, root0 as int, k2, 0);
                assert(lookup(cells0, root0 as int, k2, 0) == Some(None::<int>));
            }
        }
        root = root2;
        k += 1;
    }
    proof {
        assert forall|j: int| 0 <= j <= 3 implies {
            let f = #[trigger] find_member(msv, spec_param_name(j));
            f matches Some(v) && param_value_ok(j, v)
        } by {
            assert(0 <= j < 4);
            assert(find_member(msv, spec_param_name(j)) is Some);
        }
        assert(config_ok(msv));
    }
    let wfound = match dict::get(&store, root, id) {
        Ok(Some(w)) => w,
        Ok(None) => {
            proof {
                if is_known_id(id as int) {
                    assert(find_member(msv, spec_param_name(id as int)) is Some);
                    assert(lookup(store.cells@, root as int, key_u32(id), 0) matches Some(Some(_)));
                }
            }
            return Err(CodecError::ParameterNotFound);
        },
        Err(e) => {
            proof {
                if exists|j: int| 0 <= j < 4 && key_u32(id) == key_u32(#[trigger] (j as i32)) {
                    let j = choose|j: int| 0 <= j < 4 && key_u32(id) == key_u32(#[trigger] (j as i32));
                    assert(find_member(msv, spec_param_name(j)) is Some);
                    assert(lookup(store.cells@, root as int, key_u32(j as i32), 0)
                        matches Some(Some(_)));
                } else {
                    assert(forall|j: int| 0 <= j < 4 ==> key_u32(id) != key_u32(#[trigger] (j as i32)));
                    assert(lookup(store.cells@, root as int, key_u32(id), 0) == Some(None::<int>));
                }
                assert(false);
            }
            return Err(e);
        },
    };
    proof {
        if !is_known_id(id as int) {
            assert forall|j: int| 0 <= j < 4 implies key_u32(id) != key_u32(#[trigger] (j as i32)) by {
                lemma_key_u32_inj(id, j as i32);
            }
            assert(lookup(store.cells@, root as int, key_u32(id), 0) == Some(None::<int>));
            assert(false);
        }
    }
    let ghost fid = find_member(msv, spec_param_name(id as int));
    let ghost widg = choose|wx: int|
        #![trigger param_shape_ok(id as int, store.cells@, wx)]
    {
        &&& 0 <= wx < store.cells@.len()
        &&& lookup(store.cells@, root as int, key_u32(id as i32), 0) == Some(Some(wx))
        &&& param_shape_ok(id as int, store.cells@, wx)
        &&& param_value(id as int, store.cells@, wx) == fid->Some_0
    };
    proof {
        assert(widg == wfound as int);
        assert(wrapper_ok(store.cells@, wfound as int));
    }
    let p = store.cells[wfound].children[0];
    let bytes = bag::encode(&store, p);
    let out = text::to_text(&bytes);
    proof {
        let (emit, r2) = choose|emit: Seq<CellData>, r2: int|
            encode_witness(store.cells@, p as int, emit, r2, bytes@);
        assert(payload_ok(id as int, store.cells@, p as int));
        assert(cell_eq(store.cells@, p as int, emit, r2));
        assert(payload_ok(id as int, emit, r2));
        assert(payload_value(id as int, emit, r2) == payload_value(id as int, store.cells@, p as int));
        assert(find_member(msv, spec_param_name(id as int))
            == Some(payload_value(id as int, emit, r2)));
        assert(out@ == b64_encode(bag_bytes(emit, r2)));
        let v = payload_value(id as int, store.cells@, p as int);
        lemma_spec_encode_leaf(store.cells@, p as int);
        assert(bytes@ == spec_encode(store.cells@, p as int));
        assert(store.cells@[p as int].data@ =~= spec_payload_bytes(id as int, v)) by {
            let d = store.cells@[p as int].data@;
            if id != 2 {
                lemma_be32_of_bytes(d[0], d[1], d[2], d[3]);
                assert(be32(v->Int_0 as int) =~= seq![d[0], d[1], d[2], d[3]]);
                assert(d =~= seq![d[0], d[1], d[2], d[3]]);
            } else {
                assert(d =~= seq![d[0]]);
            }
        }
        assert(bytes@ =~= spec_param_bag(id as int, v));
        assert(find_member(msv, spec_param_name(id as int)) == Some(v));
    }
    Ok(out)
}

} // verus!
