//! The indexed dictionary: a persistent map from 32-bit signed keys to cell
//! references, realized as a cell subtree.
//!
//! The structure is a binary prefix tree over the key's two's-complement
//! bits, most significant first. A node is one of three cell shapes: the
//! empty-subtree marker (payload bit `0`, no children), a fork (payload bit
//! `1`, two children: the `0`-bit and the `1`-bit subtrees), or — after all
//! 32 bits — a leaf (payload bit `1`, one child: the stored value). Lookup
//! walks one fork per key bit; insertion copies the walked path and shares
//! every untouched subtree, so an insert never mutates the old snapshot.

use vstd::prelude::*;
use crate::cells::{CellData, CellStore, same_cell, store_extends, wf_cells};
use crate::errors::CodecError;

verus! {

/// The two's-complement bit pattern of a signed 32-bit key.
pub open spec fn key_u32(key: i32) -> u32 {
    (if key >= 0 {
        key as int
    } else {
        key as int + 0x100000000
    }) as u32
}

/// Exec form of `key_u32`.
pub fn key_bits_of(key: i32) -> (r: u32)
    ensures
        r == key_u32(key),
{
    if key >= 0 {
        key as u32
    } else {
        ((key as i64) + 0x100000000i64) as u32
    }
}

/// Bit `d` (from the most significant) of a key's two's-complement form.
pub open spec fn key_bit(key: u32, d: int) -> bool {
    (key >> ((31 - d) as u32)) & 1 == 1
}

/// Two keys agree on every bit from `d` on.
pub open spec fn same_suffix(k1: u32, k2: u32, d: int) -> bool {
    forall|t: int| d <= t < 32 ==> key_bit(k1, t) == key_bit(k2, t)
}

/// The empty-subtree marker cell.
pub open spec fn is_empty_mark(c: CellData) -> bool {
    c.bit_len == 1 && c.data@ == seq![0u8] && c.children@.len() == 0
}

/// A fork cell: children for the `0` bit and the `1` bit.
pub open spec fn is_fork(c: CellData) -> bool {
    c.bit_len == 1 && c.data@ == seq![0x80u8] && c.children@.len() == 2
}

/// A leaf cell: one child, the stored value.
pub open spec fn is_leaf(c: CellData) -> bool {
    c.bit_len == 1 && c.data@ == seq![0x80u8] && c.children@.len() == 1
}

/// What looking key `key` up from `node` at depth `d` yields: `None` when
/// the structure is malformed, `Some(None)` when the key is absent,
/// `Some(Some(v))` when the key is bound to the cell at arena index `v`.
pub open spec fn lookup(cells: Seq<CellData>, node: int, key: u32, d: int) -> Option<Option<int>>
    decreases node,
{
    if !(0 <= node < cells.len()) {
        None
    } else if d >= 32 {
        if is_empty_mark(cells[node]) {
            Some(None)
        } else if is_leaf(cells[node]) {
            Some(Some(cells[node].children@[0] as int))
        } else {
            None
        }
    } else if is_empty_mark(cells[node]) {
        Some(None)
    } else if is_fork(cells[node]) {
        let ch = if key_bit(key, d) {
            cells[node].children@[1] as int
        } else {
            cells[node].children@[0] as int
        };
        if ch < node {
            lookup(cells, ch, key, d + 1)
        } else {
            None
        }
    } else {
        None
    }
}

/// Well-formedness of the dictionary subtree at `node` for depth `d`.
pub open spec fn dict_wf(cells: Seq<CellData>, node: int, d: int) -> bool
    decreases node,
{
    &&& 0 <= node < cells.len()
    &&& (if is_empty_mark(cells[node]) {
        true
    } else if d >= 32 {
        is_leaf(cells[node])
    } else {
        &&& is_fork(cells[node])
        &&& (cells[node].children@[0] as int) < node
        &&& (cells[node].children@[1] as int) < node
        &&& dict_wf(cells, cells[node].children@[0] as int, d + 1)
        &&& dict_wf(cells, cells[node].children@[1] as int, d + 1)
    })
}

/// A lookup only reads entries at or below its node, so extending the arena
/// changes no lookup result for an old node.
pub proof fn lemma_lookup_frame(prior: Seq<CellData>, new: Seq<CellData>, node: int, key: u32, d: int)
    requires
        store_extends(new, prior),
        0 <= node < prior.len(),
    ensures
        lookup(new, node, key, d) == lookup(prior, node, key, d),
    decreases node,
{
    assert(same_cell(new[node], prior[node]));
    if d >= 32 {
    } else if is_empty_mark(prior[node]) {
    } else if is_fork(prior[node]) {
        let ch = if key_bit(key, d) {
            prior[node].children@[1] as int
        } else {
            prior[node].children@[0] as int
        };
        if 0 <= ch < node {
            lemma_lookup_frame(prior, new, ch, key, d + 1);
        }
    }
}

/// Dictionary well-formedness likewise survives extending the arena.
pub proof fn lemma_dict_wf_frame(prior: Seq<CellData>, new: Seq<CellData>, node: int, d: int)
    requires
        store_extends(new, prior),
        dict_wf(prior, node, d),
    ensures
        dict_wf(new, node, d),
    decreases node,
{
    assert(same_cell(new[node], prior[node]));
    if is_empty_mark(prior[node]) {
    } else if d >= 32 {
    } else {
        lemma_dict_wf_frame(prior, new, prior[node].children@[0] as int, d + 1);
        lemma_dict_wf_frame(prior, new, prior[node].children@[1] as int, d + 1);
    }
}

/// Keys that agree on all 32 bits are the same key.
pub proof fn lemma_same_suffix_zero(k1: u32, k2: u32)
    requires
        same_suffix(k1, k2, 0),
    ensures
        k1 == k2,
{
    assert forall|s: u32| s < 32 implies ((k1 >> s) & 1 == (k2 >> s) & 1) by {
        let t: int = 31 - s as int;
        assert(0 <= t < 32);
        assert(key_bit(k1, t) == key_bit(k2, t));
        assert(((31 - t) as u32) == s);
        assert((k1 >> s) & 1 == 0 || (k1 >> s) & 1 == 1) by (bit_vector);
        assert((k2 >> s) & 1 == 0 || (k2 >> s) & 1 == 1) by (bit_vector);
    }
    assert(k1 == k2) by (bit_vector)
        requires
            (k1 >> 0u32) & 1 == (k2 >> 0u32) & 1,
            (k1 >> 1u32) & 1 == (k2 >> 1u32) & 1,
            (k1 >> 2u32) & 1 == (k2 >> 2u32) & 1,
            (k1 >> 3u32) & 1 == (k2 >> 3u32) & 1,
            (k1 >> 4u32) & 1 == (k2 >> 4u32) & 1,
            (k1 >> 5u32) & 1 == (k2 >> 5u32) & 1,
            (k1 >> 6u32) & 1 == (k2 >> 6u32) & 1,
            (k1 >> 7u32) & 1 == (k2 >> 7u32) & 1,
            (k1 >> 8u32) & 1 == (k2 >> 8u32) & 1,
            (k1 >> 9u32) & 1 == (k2 >> 9u32) & 1,
            (k1 >> 10u32) & 1 == (k2 >> 10u32) & 1,
            (k1 >> 11u32) & 1 == (k2 >> 11u32) & 1,
            (k1 >> 12u32) & 1 == (k2 >> 12u32) & 1,
            (k1 >> 13u32) & 1 == (k2 >> 13u32) & 1,
            (k1 >> 14u32) & 1 == (k2 >> 14u32) & 1,
            (k1 >> 15u32) & 1 == (k2 >> 15u32) & 1,
            (k1 >> 16u32) & 1 == (k2 >> 16u32) & 1,
            (k1 >> 17u32) & 1 == (k2 >> 17u32) & 1,
            (k1 >> 18u32) & 1 == (k2 >> 18u32) & 1,
            (k1 >> 19u32) & 1 == (k2 >> 19u32) & 1,
            (k1 >> 20u32) & 1 == (k2 >> 20u32) & 1,
            (k1 >> 21u32) & 1 == (k2 >> 21u32) & 1,
            (k1 >> 22u32) & 1 == (k2 >> 22u32) & 1,
            (k1 >> 23u32) & 1 == (k2 >> 23u32) & 1,
            (k1 >> 24u32) & 1 == (k2 >> 24u32) & 1,
            (k1 >> 25u32) & 1 == (k2 >> 25u32) & 1,
            (k1 >> 26u32) & 1 == (k2 >> 26u32) & 1,
            (k1 >> 27u32) & 1 == (k2 >> 27u32) & 1,
            (k1 >> 28u32) & 1 == (k2 >> 28u32) & 1,
            (k1 >> 29u32) & 1 == (k2 >> 29u32) & 1,
            (k1 >> 30u32) & 1 == (k2 >> 30u32) & 1,
            (k1 >> 31u32) & 1 == (k2 >> 31u32) & 1,
    ;
}

/// Make (or reuse) the empty-dictionary marker cell, the distinguished root
/// of a dictionary with no entries.
pub fn empty_dict(store: &mut CellStore) -> (r: usize)
    requires
        old(store).wf(),
    ensures
        final(store).wf(),
        store_extends(final(store).cells@, old(store).cells@),
        final(store).cells@.len() <= old(store).cells@.len() + 1,
        (r as int) < final(store).cells@.len(),
        is_empty_mark(final(store).cells@[r as int]),
        forall|key: u32, d: int| lookup(final(store).cells@, r as int, key, d) == Some(None::<int>),
        forall|d: int| dict_wf(final(store).cells@, r as int, d),
    {
    let mut data: Vec<u8> = Vec::new();
    data.push(0u8);
    let children: Vec<usize> = Vec::new();
    proof {
        assert(0u8 & !(0xffu8 >> 1u8) == 0u8) by (bit_vector);
    }
    let r = match store.make_cell(data, 1, children) {
        Ok(i) => i,
        Err(_) => {
            proof {
                assert(false);
            }
            0
        },
    };
    proof {
        assert(final(store).cells@[r as int].data@ =~= seq![0u8]);
        assert(is_empty_mark(final(store).cells@[r as int]));
    }
    r
}

/// Walk the prefix tree for `key` and return the bound value's arena index,
/// `None` when the key is absent, or `MalformedDictionary` when a node on
/// the walked path has none of the three dictionary shapes.
#[verifier::loop_isolation(false)]
pub fn get(store: &CellStore, root: usize, key: i32) -> (r: Result<Option<usize>, CodecError>)
    ensures
        match r {
            Ok(Some(v)) => lookup(store.cells@, root as int, key_u32(key), 0)
                == Some(Some(v as int)),
            Ok(None) => lookup(store.cells@, root as int, key_u32(key), 0) == Some(None::<int>),
            Err(e) => e == CodecError::MalformedDictionary
                && lookup(store.cells@, root as int, key_u32(key), 0) is None,
        },
{
    let k32: u32 = key_bits_of(key);
    if root >= store.cells.len() {
        return Err(CodecError::MalformedDictionary);
    }
    let mut node: usize = root;
    let mut d: usize = 0;
    while d < 32
        invariant
            d <= 32,
            (node as int) < store.cells@.len(),
            lookup(store.cells@, node as int, k32, d as int)
                == lookup(store.cells@, root as int, k32, 0),
        decreases 32 - d,
    {
        let c = &store.cells[node];
        if c.bit_len == 1 && c.data.len() == 1 && c.data[0] == 0 && c.children.len() == 0 {
            proof {
                assert(c.data@ =~= seq![0u8]);
            }
            return Ok(None);
        }
        if c.bit_len == 1 && c.data.len() == 1 && c.data[0] == 0x80 && c.children.len() == 2 {
            proof {
                assert(c.data@ =~= seq![0x80u8]);
            }
            let bit = ((k32 >> ((31 - d) as u32)) & 1) == 1;
            let ch = if bit {
                c.children[1]
            } else {
                c.children[0]
            };
            if ch >= node {
                return Err(CodecError::MalformedDictionary);
            }
            node = ch;
            d += 1;
        } else {
            return Err(CodecError::MalformedDictionary);
        }
    }
    let c = &store.cells[node];
    if c.bit_len == 1 && c.data.len() == 1 && c.data[0] == 0 && c.children.len() == 0 {
        proof {
            assert(c.data@ =~= seq![0u8]);
        }
        Ok(None)
    } else if c.bit_len == 1 && c.data.len() == 1 && c.data[0] == 0x80 && c.children.len() == 1 {
        proof {
            assert(c.data@ =~= seq![0x80u8]);
        }
        Ok(Some(c.children[0]))
    } else {
        Err(CodecError::MalformedDictionary)
    }
}

/// Insertion along the key's bit path: rebuilds the walked forks, shares
/// everything else, and at depth 32 plants the leaf holding `value`.
#[verifier::loop_isolation(false)]
fn with_entry_at(store: &mut CellStore, node: usize, key: u32, value: usize, d: usize) -> (r: Result<usize, CodecError>)
    requires
        old(store).wf(),
        (node as int) < old(store).cells@.len(),
        (value as int) < old(store).cells@.len(),
        d <= 32,
    ensures
        final(store).wf(),
        store_extends(final(store).cells@, old(store).cells@),
        final(store).cells@.len() <= old(store).cells@.len() + 2 * (33 - d as int),
        r matches Ok(nr) ==> (nr as int) < final(store).cells@.len(),
        r is Err ==> r == Err::<usize, CodecError>(CodecError::MalformedDictionary),
        dict_wf(old(store).cells@, node as int, d as int) ==> (r matches Ok(nr) && {
            &&& (nr as int) < final(store).cells@.len()
            &&& dict_wf(final(store).cells@, nr as int, d as int)
            &&& forall|k2: u32| same_suffix(k2, key, d as int)
                    ==> lookup(final(store).cells@, nr as int, k2, d as int)
                        == Some(Some(value as int))
            &&& forall|k2: u32| !same_suffix(k2, key, d as int)
                    ==> lookup(final(store).cells@, nr as int, k2, d as int)
                        == lookup(old(store).cells@, node as int, k2, d as int)
        }),
    decreases 32 - d,
{
    let ghost cells0 = store.cells@;
    if d == 32 {
        let mut data: Vec<u8> = Vec::new();
        data.push(0x80u8);
        let mut children: Vec<usize> = Vec::new();
        children.push(value);
        proof {
            assert(0x80u8 & !(0xffu8 >> 1u8) == 0x80u8) by (bit_vector);
            assert(children@ =~= seq![value]);
            assert(forall|k: int| 0 <= k < children@.len()
                ==> (#[trigger] children@[k]) < store.cells@.len());
        }
        let nr = match store.make_cell(data, 1, children) {
            Ok(i) => i,
            Err(_) => {
                proof {
                    assert(false);
                }
                0
            },
        };
        proof {
            assert(final(store).cells@[nr as int].data@ =~= seq![0x80u8]);
            assert(is_leaf(final(store).cells@[nr as int]));
        }
        Ok(nr)
    } else {
        let c = &store.cells[node];
        let shaped_empty = c.bit_len == 1 && c.data.len() == 1 && c.data[0] == 0
            && c.children.len() == 0;
        let shaped_fork = c.bit_len == 1 && c.data.len() == 1 && c.data[0] == 0x80
            && c.children.len() == 2;
        proof {
            if shaped_empty {
                assert(c.data@ =~= seq![0u8]);
            }
            if shaped_fork {
                assert(c.data@ =~= seq![0x80u8]);
            }
            if !shaped_empty && !shaped_fork {
                if c.data@.len() == 1 {
                    assert(c.data@ =~= seq![c.data@[0]]);
                }
                assert(!is_empty_mark(store.cells@[node as int]));
                assert(!is_fork(store.cells@[node as int]));
            }
        }
        if !shaped_empty && !shaped_fork {
            return Err(CodecError::MalformedDictionary);
        }
        let (c0, c1): (usize, usize) = if shaped_empty {
            (node, node)
        } else {
            (c.children[0], c.children[1])
        };
        if !shaped_empty && (c0 >= node || c1 >= node) {
            return Err(CodecError::MalformedDictionary);
        }
        let bit = ((key >> ((31 - d) as u32)) & 1) == 1;
        let walk: usize = if bit { c1 } else { c0 };
        let keepv: usize = if bit { c0 } else { c1 };
        let sub = match with_entry_at(store, walk, key, value, d + 1) {
            Ok(i) => i,
            Err(e) => {
                proof {
                    if dict_wf(cells0, node as int, d as int) {
                        assert(dict_wf(cells0, walk as int, (d + 1) as int));
                    }
                }
                return Err(e);
            },
        };
        let ghost cells1 = store.cells@;
        let mut data: Vec<u8> = Vec::new();
        data.push(0x80u8);
        let mut children: Vec<usize> = Vec::new();
        if bit {
            children.push(keepv);
            children.push(sub);
        } else {
            children.push(sub);
            children.push(keepv);
        }
        proof {
            assert(0x80u8 & !(0xffu8 >> 1u8) == 0x80u8) by (bit_vector);
            assert(children@.len() == 2);
            assert((children@[0] as int) < store.cells@.len());
            assert((children@[1] as int) < store.cells@.len());
            assert(forall|k: int| 0 <= k < children@.len()
                ==> (#[trigger] children@[k]) < store.cells@.len());
        }
        let nr = match store.make_cell(data, 1, children) {
            Ok(i) => i,
            Err(_) => {
                proof {
                    assert(false);
                }
                0
            },
        };
        proof {
            let cellsf = final(store).cells@;
            assert(cellsf[nr as int].data@ =~= seq![0x80u8]);
            assert(is_fork(cellsf[nr as int]));
            if dict_wf(cells0, node as int, d as int) {
                assert(dict_wf(cells0, walk as int, d + 1));
                assert(dict_wf(cells1, sub as int, d + 1));
                lemma_dict_wf_frame(cells1, cellsf, sub as int, d + 1);
                assert(dict_wf(cells0, keepv as int, d + 1));
                lemma_dict_wf_frame(cells0, cells1, keepv as int, d + 1);
                lemma_dict_wf_frame(cells1, cellsf, keepv as int, d + 1);
                assert(dict_wf(cellsf, nr as int, d as int));
                assert forall|k2: u32| same_suffix(k2, key, d as int)
                    implies lookup(cellsf, nr as int, k2, d as int)
                        == Some(Some(value as int)) by {
                    assert(key_bit(k2, d as int) == key_bit(key, d as int));
                    assert(same_suffix(k2, key, d + 1));
                    assert(lookup(cells1, sub as int, k2, d + 1) == Some(Some(value as int)));
                    lemma_lookup_frame(cells1, cellsf, sub as int, k2, d + 1);
                }
                assert forall|k2: u32| !same_suffix(k2, key, d as int)
                    implies lookup(cellsf, nr as int, k2, d as int)
                        == lookup(cells0, node as int, k2, d as int) by {
                    if key_bit(k2, d as int) != key_bit(key, d as int) {
                        assert(lookup(cellsf, nr as int, k2, d as int)
                            == lookup(cellsf, keepv as int, k2, d + 1));
                        lemma_lookup_frame(cells0, cells1, keepv as int, k2, d + 1);
                        lemma_lookup_frame(cells1, cellsf, keepv as int, k2, d + 1);
                        if shaped_empty {
                            assert(lookup(cells0, node as int, k2, d as int) == Some(None::<int>));
                            assert(lookup(cells0, keepv as int, k2, d + 1) == Some(None::<int>));
                        } else {
                            assert(lookup(cells0, node as int, k2, d as int)
                                == lookup(cells0, keepv as int, k2, d + 1));
                        }
                    } else {
                        assert(!same_suffix(k2, key, d + 1));
                        assert(lookup(cells1, sub as int, k2, d + 1)
                            == lookup(cells0, walk as int, k2, d + 1));
                        lemma_lookup_frame(cells1, cellsf, sub as int, k2, d + 1);
                        assert(lookup(cellsf, nr as int, k2, d as int)
                            == lookup(cellsf, sub as int, k2, d + 1));
                        if shaped_empty {
                            assert(lookup(cells0, node as int, k2, d as int) == Some(None::<int>));
                            assert(lookup(cells0, walk as int, k2, d + 1) == Some(None::<int>));
                        } else {
                            assert(lookup(cells0, node as int, k2, d as int)
                                == lookup(cells0, walk as int, k2, d + 1));
                        }
                    }
                }
            }
        }
        Ok(nr)
    }
}

/// Produce a new dictionary snapshot in which `key` is bound to the cell at
/// `value`, every other key keeps the binding it had under `root`, and
/// `root`'s snapshot itself is untouched. Fails with `MalformedDictionary`
/// when a node on the walked path has none of the three dictionary shapes.
pub fn with_entry(store: &mut CellStore, root: usize, key: i32, value: usize) -> (r: Result<usize, CodecError>)
    requires
        old(store).wf(),
        (root as int) < old(store).cells@.len(),
        (value as int) < old(store).cells@.len(),
    ensures
        final(store).wf(),
        store_extends(final(store).cells@, old(store).cells@),
        final(store).cells@.len() <= old(store).cells@.len() + 70,
        r is Err ==> r == Err::<usize, CodecError>(CodecError::MalformedDictionary),
        dict_wf(old(store).cells@, root as int, 0) ==> (r matches Ok(nr) && {
            &&& (nr as int) < final(store).cells@.len()
            &&& dict_wf(final(store).cells@, nr as int, 0)
            &&& lookup(final(store).cells@, nr as int, key_u32(key), 0)
                    == Some(Some(value as int))
            &&& forall|k2: u32| k2 != key_u32(key)
                    ==> lookup(final(store).cells@, nr as int, k2, 0)
                        == lookup(old(store).cells@, root as int, k2, 0)
        }),
{
    let kb = key_bits_of(key);
    let r = with_entry_at(store, root, kb, value, 0);
    proof {
        if dict_wf(old(store).cells@, root as int, 0) {
            let nr = r.unwrap();
            assert(same_suffix(key_u32(key), key_u32(key), 0));
            assert forall|k2: u32| k2 != key_u32(key)
                implies lookup(final(store).cells@, nr as int, k2, 0)
                    == lookup(old(store).cells@, root as int, k2, 0) by {
                if same_suffix(k2, key_u32(key), 0) {
                    lemma_same_suffix_zero(k2, key_u32(key));
                }
            }
        }
    }
    r
}

} // verus!
