use crate::colvec::ColVec;
use crate::fields::Fields;
use vstd::prelude::*;

verus! {

/// A read-only view of the live records of a `ColVec`: the allocation, its
/// capacity and layout, and how many records are live.
pub struct RawColSlice<'a> {
    bytes: &'a [u8],
    cap: usize,
    len: usize,
    fields: &'a Fields,
}

impl<'a> RawColSlice<'a> {
    pub closed spec fn spec_len(self) -> nat {
        self.len as nat
    }

    pub closed spec fn spec_fields(self) -> Fields {
        *self.fields
    }

    /// The live bytes of column `i`.
    pub closed spec fn column(self, i: int) -> Seq<u8> {
        self.fields.column(self.bytes@, self.cap as nat, i, self.len as nat)
    }

    pub closed spec fn wf(self) -> bool {
        &&& self.fields.wf()
        &&& self.cap * self.fields.total() <= self.bytes@.len()
        &&& self.len <= self.cap || self.fields.total() == 0
    }

    /// Number of live records.
    pub fn len(&self) -> (r: usize)
        ensures
            r == self.spec_len(),
    {
        self.len
    }

    /// The live bytes of column `i`.
    pub fn field(&self, i: usize) -> (r: &'a [u8])
        requires
            self.wf(),
            i < self.spec_fields().count(),
        ensures
            r@ == self.column(i as int),
    {
        let blen = self.bytes.len();
        let o = self.fields.offset_of(i);
        let z = self.fields.field_size(i);
        proof {
            self.fields.lemma_offsets_ordered();
            lemma_slice_column(self.cap as int, self.len as int, o as int, z as int, self.fields.total() as int);
        }
        let start = self.cap * o;
        &self.bytes[start..start + self.len * z]
    }
}

impl ColVec {
    /// A read-only view of the live records.
    pub fn as_col_slice(&self) -> (r: RawColSlice<'_>)
        requires
            self.wf(),
        ensures
            r.wf(),
            r.spec_len() == self.spec_len(),
            r.spec_fields() == self.fields(),
            forall|i: int| 0 <= i < self.fields().count() ==> #[trigger] r.column(i) == self@[i],
    {
        let raw = self.raw_ref();
        RawColSlice { bytes: raw.ptr(), cap: raw.allocated_capacity(), len: self.len(), fields: raw.info().fields() }
    }
}

/// A column of `len` elements lies within `cap` elements' bytes, or is empty
/// where elements take no bytes.
proof fn lemma_slice_column(cap: int, len: int, o: int, z: int, total: int)
    requires
        0 <= cap,
        0 <= len,
        len <= cap || total == 0,
        0 <= o,
        0 <= z,
        o + z <= total,
    ensures
        0 <= cap * o,
        0 <= len * z,
        cap * o + len * z <= cap * total,
{
    assert(0 <= len * z) by (nonlinear_arith)
        requires
            0 <= len,
            0 <= z,
    ;
    assert(0 <= cap * o) by (nonlinear_arith)
        requires
            0 <= cap,
            0 <= o,
    ;
    if total == 0 {
        assert(z == 0 && o == 0);
        assert(len * z == 0) by (nonlinear_arith)
            requires
                z == 0,
        ;
    } else {
        assert(cap * o + len * z <= cap * total) by (nonlinear_arith)
            requires
                0 <= len <= cap,
                0 <= o,
                0 <= z,
                o + z <= total,
        ;
    }
}

} // verus!
