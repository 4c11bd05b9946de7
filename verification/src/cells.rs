//! The cell store: immutable tree nodes ("cells") with a bit-level payload
//! and up to four child references, held in one append-only arena per
//! operation and referenced by index.
//!
//! A child index always points at an earlier entry of the arena, so the
//! stored graph is a DAG by construction. The store deduplicates on
//! insertion: two cells with identical payload and identical child indices
//! are the same entry, so index equality coincides with structural equality
//! of subtrees.

use vstd::prelude::*;
use crate::errors::CodecError;

verus! {

/// Maximum number of payload bits in a single cell.
pub const MAX_CELL_BITS: usize = 1023;
/// Maximum number of child references of a single cell.
pub const MAX_CELL_CHILDREN: usize = 4;

/// One node of the cell arena: a bit payload (packed into bytes, most
/// significant bit first, unused low bits of the last byte zero) and the
/// arena indices of its children.
pub struct CellData {
    /// Packed payload bits; exactly `needed_bytes(bit_len)` bytes.
    pub data: Vec<u8>,
    /// Number of meaningful payload bits.
    pub bit_len: usize,
    /// Arena indices of the children, each smaller than this cell's index.
    pub children: Vec<usize>,
}

/// The append-only arena holding all distinct cells of one operation.
pub struct CellStore {
    pub cells: Vec<CellData>,
}

/// Number of payload bytes a payload of `bits` bits occupies.
pub open spec fn spec_needed_bytes(bits: nat) -> nat {
    (bits + 7) / 8
}

/// Payload bit `i` (counting from the most significant bit of the first
/// byte) of a packed payload.
pub open spec fn payload_bit(data: Seq<u8>, i: int) -> bool {
    (data[i / 8] >> ((7 - (i % 8)) as u8)) & 1 == 1
}

/// The unused low bits of the last payload byte are zero, so that the byte
/// form of a payload is determined by its bit sequence.
pub open spec fn padding_zero(data: Seq<u8>, bit_len: nat) -> bool {
    bit_len % 8 == 0 || (data.len() > 0 &&
        data[data.len() - 1] & (0xffu8 >> ((bit_len % 8) as u8)) == 0)
}

/// Validity of one cell's own fields, independent of the arena.
pub open spec fn cell_fields_ok(c: CellData) -> bool {
    &&& c.bit_len <= MAX_CELL_BITS
    &&& c.children@.len() <= MAX_CELL_CHILDREN
    &&& c.data@.len() == spec_needed_bytes(c.bit_len as nat)
    &&& padding_zero(c.data@, c.bit_len as nat)
}

/// Two cells hold the same content: same payload and same child indices.
pub open spec fn same_cell(a: CellData, b: CellData) -> bool {
    &&& a.bit_len == b.bit_len
    &&& a.data@ == b.data@
    &&& a.children@ == b.children@
}

/// Well-formedness of a cell table: every cell is valid on its own, every
/// child index points at an earlier entry, and no two entries hold the same
/// content.
pub open spec fn wf_cells(cells: Seq<CellData>) -> bool {
    &&& forall|i: int| 0 <= i < cells.len() ==> cell_fields_ok(#[trigger] cells[i])
    &&& forall|i: int, k: int|
            0 <= i < cells.len() && 0 <= k < cells[i].children@.len()
            ==> (#[trigger] cells[i].children@[k]) < i
    &&& forall|i: int, j: int|
            0 <= i < j < cells.len() ==> !same_cell(#[trigger] cells[i], #[trigger] cells[j])
}

/// Structural equality of the subtree rooted at `a[i]` and the subtree
/// rooted at `b[j]`: same payloads and, child by child, structurally equal
/// subtrees. This is the identity notion of the codec: content equality.
pub open spec fn cell_eq(a: Seq<CellData>, i: int, b: Seq<CellData>, j: int) -> bool
    decreases i, 1int,
{
    &&& 0 <= i < a.len()
    &&& 0 <= j < b.len()
    &&& a[i].bit_len == b[j].bit_len
    &&& a[i].data@ == b[j].data@
    &&& a[i].children@.len() == b[j].children@.len()
    &&& forall|k: int| 0 <= k < a[i].children@.len() ==> cell_child_eq(a, i, b, j, #[trigger] trig_int(k))
}

/// Identity on integers, used as a quantifier trigger where no better term
/// exists.
pub open spec fn trig_int(k: int) -> int {
    k
}

/// Structural equality of the `k`-th children of `a[i]` and `b[j]`.
pub open spec fn cell_child_eq(a: Seq<CellData>, i: int, b: Seq<CellData>, j: int, k: int) -> bool
    decreases i, 0int,
{
    if 0 <= i < a.len() && 0 <= j < b.len()
        && 0 <= k < a[i].children@.len() && k < b[j].children@.len() {
        let ci = a[i].children@[k] as int;
        let cj = b[j].children@[k] as int;
        ci < i && cell_eq(a, ci, b, cj)
    } else {
        false
    }
}

/// The arena `new` extends the arena `prior`: nothing already stored ever
/// changes, new cells only appear at the end.
pub open spec fn store_extends(new: Seq<CellData>, prior: Seq<CellData>) -> bool {
    &&& new.len() >= prior.len()
    &&& forall|i: int| 0 <= i < prior.len() ==> same_cell(#[trigger] new[i], prior[i])
}

/// Structural equality of a subtree with itself in an extended arena is
/// preserved, and more generally `cell_eq` only reads entries up to its
/// index, so extending either arena changes nothing.
pub proof fn lemma_cell_eq_extend(a: Seq<CellData>, i: int, b: Seq<CellData>, j: int, b2: Seq<CellData>)
    requires
        cell_eq(a, i, b, j),
        store_extends(b2, b),
    ensures
        cell_eq(a, i, b2, j),
    decreases i,
{
    assert forall|k: int| 0 <= k < a[i].children@.len() implies cell_child_eq(a, i, b2, j, trig_int(k)) by {
        assert(cell_child_eq(a, i, b, j, trig_int(k)));
        let ci = a[i].children@[k] as int;
        let cj = b[j].children@[k] as int;
        lemma_cell_eq_extend(a, ci, b, cj, b2);
        assert(same_cell(b2[j], b[j]));
    }
    assert(same_cell(b2[j], b[j]));
}

impl CellStore {
    /// The arena invariant.
    pub open spec fn wf(&self) -> bool {
        wf_cells(self.cells@)
    }

    /// A fresh, empty arena.
    pub fn new() -> (r: CellStore)
        ensures
            r.wf(),
            r.cells@.len() == 0,
    {
        CellStore { cells: Vec::new() }
    }

    /// Construct a cell from raw payload bytes, its bit length and its child
    /// references, and return its arena index. Fails with `MalformedCell` if
    /// the bit length exceeds the per-node maximum, more than four children
    /// are supplied, or the payload bytes do not match the bit length; fails
    /// with `DanglingReference` if a child index does not name an existing
    /// cell. The unused low bits of the last payload byte are cleared, so
    /// the stored payload is exactly the first `bit_len` bits. An already
    /// stored identical cell is reused rather than stored twice.
    #[verifier::loop_isolation(false)]
    pub fn make_cell(&mut self, data: Vec<u8>, bit_len: usize, children: Vec<usize>) -> (r: Result<usize, CodecError>)
        requires
            old(self).wf(),
        ensures
            final(self).wf(),
            store_extends(final(self).cells@, old(self).cells@),
            final(self).cells@.len() <= old(self).cells@.len() + 1,
            bit_len > MAX_CELL_BITS ==> r == Err::<usize, CodecError>(CodecError::MalformedCell),
            children@.len() > MAX_CELL_CHILDREN ==> r == Err::<usize, CodecError>(CodecError::MalformedCell),
            data@.len() != spec_needed_bytes(bit_len as nat) ==> r == Err::<usize, CodecError>(CodecError::MalformedCell),
            (bit_len <= MAX_CELL_BITS && children@.len() <= MAX_CELL_CHILDREN
                && data@.len() == spec_needed_bytes(bit_len as nat)
                && !(forall|k: int| 0 <= k < children@.len() ==> (#[trigger] children@[k]) < old(self).cells@.len()))
                ==> r == Err::<usize, CodecError>(CodecError::DanglingReference),
            (bit_len <= MAX_CELL_BITS && children@.len() <= MAX_CELL_CHILDREN
                && data@.len() == spec_needed_bytes(bit_len as nat)
                && (forall|k: int| 0 <= k < children@.len() ==> (#[trigger] children@[k]) < old(self).cells@.len()))
                ==> (r matches Ok(i) && {
                    &&& i < final(self).cells@.len()
                    &&& final(self).cells@[i as int].bit_len == bit_len
                    &&& final(self).cells@[i as int].data@ == normalize(data@, bit_len as nat)
                    &&& final(self).cells@[i as int].children@ == children@
                }),
            r is Err ==> final(self).cells@ == old(self).cells@,
    {
        if bit_len > MAX_CELL_BITS {
            return Err(CodecError::MalformedCell);
        }
        if children.len() > MAX_CELL_CHILDREN {
            return Err(CodecError::MalformedCell);
        }
        if data.len() != needed_bytes(bit_len) {
            return Err(CodecError::MalformedCell);
        }
        let mut k: usize = 0;
        while k < children.len()
            invariant
                k <= children@.len(),
                forall|m: int| 0 <= m < k ==> (#[trigger] children@[m]) < old(self).cells@.len(),
                self == old(self),
            decreases children@.len() - k,
        {
            if children[k] >= self.cells.len() {
                assert(children@[k as int] >= old(self).cells@.len());
                return Err(CodecError::DanglingReference);
            }
            k += 1;
        }
        let mut data = data;
        let ghost data0 = data@;
        let rem: usize = bit_len % 8;
        if rem != 0 {
            assert(data@.len() >= 1);
            let last: usize = data.len() - 1;
            let keep: u8 = 0xffu8 << ((8 - rem) as u8);
            let nb: u8 = data[last] & keep;
            data.set(last, nb);
            proof {
                assert(0xffu8 << ((8 - rem) as u8) == !(0xffu8 >> (rem as u8))) by (bit_vector)
                    requires 1 <= rem < 8;
            }
        }
        assert(data@ == normalize(data0, bit_len as nat));
        assert(padding_zero(data@, bit_len as nat)) by {
            if bit_len % 8 != 0 {
                let b = data0[data0.len() - 1];
                let rr = (bit_len % 8) as u8;
                assert((b & !(0xffu8 >> rr)) & (0xffu8 >> rr) == 0) by (bit_vector);
            }
        }
        let cand = CellData { data, bit_len, children };
        let mut i: usize = 0;
        while i < self.cells.len()
            invariant
                i <= self.cells@.len(),
                forall|m: int| 0 <= m < i ==> !same_cell(self.cells@[m], cand),
                self == old(self),
                cand.bit_len == bit_len,
            decreases self.cells@.len() - i,
        {
            let c = &self.cells[i];
            if c.bit_len == cand.bit_len
                && eq_bytes(&c.data, &cand.data)
                && eq_indices(&c.children, &cand.children) {
                return Ok(i);
            }
            assert(!same_cell(self.cells@[i as int], cand));
            i += 1;
        }
        let idx = self.cells.len();
        proof {
            assert forall|m: int| 0 <= m < self.cells@.len()
                implies !same_cell(#[trigger] self.cells@.push(cand)[m], cand) by {
                assert(same_cell(self.cells@.push(cand)[m], self.cells@[m]));
            }
        }
        self.cells.push(cand);
        Ok(idx)
    }
}

/// The packed payload with the unused low bits of its last byte cleared.
pub open spec fn normalize(data: Seq<u8>, bit_len: nat) -> Seq<u8> {
    if bit_len % 8 == 0 || data.len() == 0 {
        data
    } else {
        data.update(data.len() - 1, data[data.len() - 1] & !(0xffu8 >> ((bit_len % 8) as u8)))
    }
}

/// Splitting a value `x*d + y` with `0 <= y < d` recovers `x` and `y`.
pub proof fn lemma_mul_div(x: int, y: int, d: int)
    by (nonlinear_arith)
    requires
        0 <= y < d,
        0 <= x,
    ensures
        (x * d + y) / d == x,
        (x * d + y) % d == y,
{
}

/// Number of payload bytes for `bits` payload bits.
pub fn needed_bytes(bits: usize) -> (r: usize)
    requires
        bits <= MAX_CELL_BITS,
    ensures
        r == spec_needed_bytes(bits as nat),
{
    (bits + 7) / 8
}

/// Element-wise equality of two byte vectors.
pub fn eq_bytes(a: &Vec<u8>, b: &Vec<u8>) -> (r: bool)
    ensures
        r <==> a@ == b@,
{
    if a.len() != b.len() {
        assert(a@ != b@);
        return false;
    }
    let mut i: usize = 0;
    while i < a.len()
        invariant
            i <= a@.len(),
            a@.len() == b@.len(),
            forall|m: int| 0 <= m < i ==> a@[m] == b@[m],
        decreases a@.len() - i,
    {
        if a[i] != b[i] {
            return false;
        }
        i += 1;
    }
    proof {
        assert(a@ =~= b@);
    }
    true
}

/// Element-wise equality of two index vectors.
pub fn eq_indices(a: &Vec<usize>, b: &Vec<usize>) -> (r: bool)
    ensures
        r <==> a@ == b@,
{
    if a.len() != b.len() {
        assert(a@ != b@);
        return false;
    }
    let mut i: usize = 0;
    while i < a.len()
        invariant
            i <= a@.len(),
            a@.len() == b@.len(),
            forall|m: int| 0 <= m < i ==> a@[m] == b@[m],
        decreases a@.len() - i,
    {
        if a[i] != b[i] {
            return false;
        }
        i += 1;
    }
    proof {
        assert(a@ =~= b@);
    }
    true
}

/// A fresh copy of a byte vector.
pub fn copy_bytes(a: &Vec<u8>) -> (r: Vec<u8>)
    ensures
        r@ == a@,
{
    let mut out: Vec<u8> = Vec::new();
    let mut i: usize = 0;
    while i < a.len()
        invariant
            i <= a@.len(),
            out@ == a@.subrange(0, i as int),
        decreases a@.len() - i,
    {
        out.push(a[i]);
        i += 1;
        assert(out@ =~= a@.subrange(0, i as int));
    }
    assert(out@ =~= a@);
    out
}

} // verus!
