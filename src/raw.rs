use crate::error::{AllocLayout, TryReserveError, TryReserveErrorKind};
use crate::fields::Fields;
use vstd::prelude::*;

verus! {

/// Smallest capacity worth allocating for elements of `size` bytes: tiny
/// buffers are rounded up by allocators anyway.
pub open spec fn spec_min_non_zero_cap(size: nat) -> nat {
    if size == 1 {
        8
    } else if size <= 1024 {
        4
    } else {
        1
    }
}

/// `x` rounded up to the next multiple of `align`.
pub open spec fn round_up(x: nat, align: nat) -> nat {
    if x % align == 0 {
        x
    } else {
        (x + (align - x % align)) as nat
    }
}

pub open spec fn max_nat(a: nat, b: nat) -> nat {
    if a >= b {
        a
    } else {
        b
    }
}

/// The capacity that growth picks so that `additional` more elements fit
/// after `len`, or `None` where that is a capacity overflow.
pub open spec fn grown_capacity(
    cap: nat,
    len: nat,
    additional: nat,
    size: nat,
    align: nat,
) -> Option<nat> {
    if size == 0 || len + additional > usize::MAX {
        None
    } else {
        let c = round_up(
            max_nat(spec_min_non_zero_cap(size), max_nat(2 * cap, len + additional)),
            align,
        );
        if c > usize::MAX || c * size > isize::MAX {
            None
        } else {
            Some(c)
        }
    }
}

/// The capacity that a buffer created for `capacity` elements gets, or
/// `None` where that is a capacity overflow.
pub open spec fn initial_capacity(capacity: nat, size: nat, align: nat) -> Option<nat> {
    let c = round_up(capacity, align);
    if c > usize::MAX {
        None
    } else if c * size == 0 {
        Some(0)
    } else if c * size > isize::MAX {
        None
    } else {
        Some(c)
    }
}

/// What a buffer needs to know of the record type it stores: the layout of
/// its fields, the bytes one element takes, and the alignment of the record.
pub struct StructInfo {
    fields: Fields,
    size: usize,
    align: usize,
}

impl StructInfo {
    pub closed spec fn spec_fields(self) -> Fields {
        self.fields
    }

    pub closed spec fn spec_align(self) -> nat {
        self.align as nat
    }

    pub open spec fn spec_size(self) -> nat {
        self.spec_fields().total()
    }

    pub closed spec fn size_cached(self) -> bool {
        self.size == self.fields.total()
    }

    pub open spec fn wf(self) -> bool {
        &&& self.spec_fields().wf()
        &&& self.spec_align() > 0
        &&& self.size_cached()
    }

    /// Describes a record type of the given fields and alignment.
    pub fn new(fields: Fields, align: usize) -> (r: StructInfo)
        requires
            fields.wf(),
            align > 0,
        ensures
            r.wf(),
            r.spec_fields() == fields,
            r.spec_align() == align,
    {
        let size = fields.size();
        StructInfo { fields, size, align }
    }

    pub fn fields(&self) -> (r: &Fields)
        ensures
            r == self.spec_fields(),
    {
        &self.fields
    }

    /// Bytes that one element takes across all columns.
    pub fn size(&self) -> (r: usize)
        requires
            self.wf(),
        ensures
            r == self.spec_size(),
    {
        self.size
    }

    pub fn align(&self) -> (r: usize)
        ensures
            r == self.spec_align(),
    {
        self.align
    }
}

/// One allocation that holds a column per field, each `cap` elements long.
pub struct RawColVec {
    buf: Vec<u8>,
    cap: usize,
    info: StructInfo,
}

impl RawColVec {
    /// The bytes of the allocation.
    pub closed spec fn bytes(self) -> Seq<u8> {
        self.buf@
    }

    /// The capacity that the allocation was made for.
    pub closed spec fn cap(self) -> nat {
        self.cap as nat
    }

    pub closed spec fn spec_info(self) -> StructInfo {
        self.info
    }

    pub open spec fn elem_size(self) -> nat {
        self.spec_info().spec_size()
    }

    pub open spec fn fields(self) -> Fields {
        self.spec_info().spec_fields()
    }

    /// What `capacity` reports: unbounded where elements take no bytes.
    pub open spec fn spec_capacity(self) -> nat {
        if self.elem_size() == 0 {
            usize::MAX as nat
        } else {
            self.cap()
        }
    }

    /// The first `len` elements of the column of field `i`.
    pub open spec fn column(self, i: int, len: nat) -> Seq<u8> {
        self.fields().column(self.bytes(), self.cap(), i, len)
    }

    pub open spec fn wf(self) -> bool {
        &&& self.spec_info().wf()
        &&& self.bytes().len() == self.cap() * self.elem_size()
        &&& self.cap() * self.elem_size() <= isize::MAX
        &&& self.cap() % self.spec_info().spec_align() == 0
        &&& self.elem_size() == 0 ==> self.cap() == 0
    }

    /// Same bytes, capacity and record type.
    pub open spec fn unchanged(old: RawColVec, new: RawColVec) -> bool {
        &&& new.bytes() == old.bytes()
        &&& new.cap() == old.cap()
        &&& new.spec_info() == old.spec_info()
    }

    /// Every column keeps its first `len` elements from `old` to `new`.
    pub open spec fn columns_kept(old: RawColVec, new: RawColVec, len: nat) -> bool {
        forall|i: int| 0 <= i < old.fields().count() ==> #[trigger] new.column(i, len) == old.column(i, len)
    }

    /// An empty buffer: nothing is allocated.
    pub fn new_in(info: StructInfo) -> (r: RawColVec)
        requires
            info.wf(),
        ensures
            r.wf(),
            r.spec_info() == info,
            r.cap() == 0,
    {
        RawColVec { buf: Vec::new(), cap: 0, info }
    }

    /// A buffer with room for at least `capacity` elements, rounded up to a
    /// multiple of the alignment; nothing is allocated where that takes no bytes.
    pub fn with_capacity_in(capacity: usize, info: StructInfo) -> (r: RawColVec)
        requires
            info.wf(),
            initial_capacity(capacity as nat, info.spec_size(), info.spec_align()) is Some,
        ensures
            r.wf(),
            r.spec_info() == info,
            r.cap() == initial_capacity(capacity as nat, info.spec_size(), info.spec_align())->0,
    {
        let size = info.size();
        let cap = match allocation_capacity(capacity, size, info.align()) {
            Ok(cap) => cap,
            Err(_) => 0,
        };
        proof {
            lemma_round_up(capacity as nat, info.spec_align());
            lemma_mul_zero(round_up(capacity as nat, info.spec_align()), size as nat);
        }
        let buf = vec![0u8; cap * size];
        RawColVec { buf, cap, info }
    }

    /// Elements that fit; `usize::MAX` where elements take no bytes.
    pub fn capacity(&self) -> (r: usize)
        requires
            self.wf(),
        ensures
            r == self.spec_capacity(),
    {
        if self.info.size() == 0 {
            usize::MAX
        } else {
            self.cap
        }
    }

    /// The bytes of the allocation; empty where nothing is allocated.
    pub fn ptr(&self) -> (r: &[u8])
        ensures
            r@ == self.bytes(),
    {
        self.buf.as_slice()
    }

    /// The capacity that the allocation was made for; 0 where nothing is
    /// allocated, also where elements take no bytes.
    pub fn allocated_capacity(&self) -> (r: usize)
        ensures
            r == self.cap(),
    {
        self.cap
    }

    pub fn info(&self) -> (r: &StructInfo)
        ensures
            r == self.spec_info(),
    {
        &self.info
    }

    /// Makes room for `additional` elements after the first `len`, growing
    /// by the amortized rule where they do not fit; the first `len` elements
    /// of every column are kept.
    pub fn reserve(&mut self, len: usize, additional: usize)
        requires
            old(self).wf(),
            len <= old(self).spec_capacity(),
            additional > old(self).spec_capacity() - len ==> grown_capacity(
                old(self).cap(),
                len as nat,
                additional as nat,
                old(self).elem_size(),
                old(self).spec_info().spec_align(),
            ) is Some,
        ensures
            final(self).wf(),
            final(self).spec_info() == old(self).spec_info(),
            final(self).spec_capacity() >= len + additional,
            additional <= old(self).spec_capacity() - len ==> RawColVec::unchanged(*old(self), *final(self)),
            additional > old(self).spec_capacity() - len ==> final(self).cap() == grown_capacity(
                old(self).cap(),
                len as nat,
                additional as nat,
                old(self).elem_size(),
                old(self).spec_info().spec_align(),
            )->0,
            RawColVec::columns_kept(*old(self), *final(self), len as nat),
    {
        if self.needs_to_grow(len, additional) {
            if let Ok(cap) = self.amortized_capacity(len, additional) {
                proof {
                    lemma_grown_above(
                        self.cap as nat,
                        len as nat,
                        additional as nat,
                        self.elem_size(),
                        self.info.align as nat,
                    );
                }
                self.finish_grow(cap, len);
            }
        }
    }

    /// Makes room for `additional` elements after the first `len`, or says
    /// why it could not; on an error nothing changes.
    pub fn try_reserve(&mut self, len: usize, additional: usize) -> (r: Result<(), TryReserveError>)
        requires
            old(self).wf(),
            len <= old(self).spec_capacity(),
        ensures
            final(self).wf(),
            final(self).spec_info() == old(self).spec_info(),
            additional <= old(self).spec_capacity() - len ==> r is Ok && RawColVec::unchanged(*old(self), *final(self)),
            additional > old(self).spec_capacity() - len ==> match grown_capacity(
                old(self).cap(),
                len as nat,
                additional as nat,
                old(self).elem_size(),
                old(self).spec_info().spec_align(),
            ) {
                None => r == Err::<(), TryReserveError>(
                    TryReserveError { kind: TryReserveErrorKind::CapacityOverflow },
                ) && RawColVec::unchanged(*old(self), *final(self)),
                Some(c) => (r is Ok && final(self).cap() == c && RawColVec::columns_kept(
                    *old(self),
                    *final(self),
                    len as nat,
                )) || (r == Err::<(), TryReserveError>(
                    TryReserveError {
                        kind: TryReserveErrorKind::AllocError {
                            layout: AllocLayout {
                                size: (c * old(self).elem_size()) as usize,
                                align: old(self).spec_info().spec_align() as usize,
                            },
                        },
                    },
                ) && RawColVec::unchanged(*old(self), *final(self))),
            },
    {
        if self.needs_to_grow(len, additional) {
            self.grow_amortized(len, additional)
        } else {
            Ok(())
        }
    }

    /// Grows so that at least one more element fits after a full buffer;
    /// every element already there is kept.
    pub fn grow_one(&mut self)
        requires
            old(self).wf(),
            grown_capacity(
                old(self).cap(),
                old(self).cap(),
                1,
                old(self).elem_size(),
                old(self).spec_info().spec_align(),
            ) is Some,
        ensures
            final(self).wf(),
            final(self).spec_info() == old(self).spec_info(),
            final(self).cap() == grown_capacity(
                old(self).cap(),
                old(self).cap(),
                1,
                old(self).elem_size(),
                old(self).spec_info().spec_align(),
            )->0,
            RawColVec::columns_kept(*old(self), *final(self), old(self).cap()),
    {
        let len = self.cap;
        if let Ok(cap) = self.amortized_capacity(len, 1) {
            proof {
                lemma_grown_above(self.cap as nat, len as nat, 1, self.elem_size(), self.info.align as nat);
            }
            self.finish_grow(cap, len);
        }
    }

    /// Where the column of field `i` starts: the capacity times its offset.
    pub fn column_start(&self, i: usize) -> (r: usize)
        requires
            self.wf(),
            i < self.fields().count(),
        ensures
            r == self.cap() * self.fields().offsets()[i as int],
    {
        proof {
            self.lemma_column_bounds(i as int, 0);
        }
        self.cap * self.info.fields.offset_of(i)
    }

    /// The first `len` elements of the column of field `i`.
    pub fn column_bytes(&self, i: usize, len: usize) -> (r: &[u8])
        requires
            self.wf(),
            i < self.fields().count(),
            len <= self.cap() || self.elem_size() == 0,
        ensures
            r@ == self.column(i as int, len as nat),
    {
        proof {
            self.lemma_column_len(i as int, len as nat);
            if self.elem_size() == 0 {
                let z = self.fields().sizes()[i as int] as int;
                assert(len * z == 0) by (nonlinear_arith)
                    requires
                        z == 0,
                ;
            } else {
                self.lemma_column_bounds(i as int, len as int);
            }
        }
        let start = self.column_start(i);
        let end = start + len * self.info.fields.field_size(i);
        &self.buf.as_slice()[start..end]
    }

    /// Writes `count` elements given as `bytes` into the column of field `i`,
    /// from element `at` on. No other column changes.
    pub fn write_column(&mut self, i: usize, at: usize, count: usize, bytes: &[u8])
        requires
            old(self).wf(),
            i < old(self).fields().count(),
            at + count <= old(self).cap(),
            bytes@.len() == count * old(self).fields().sizes()[i as int],
        ensures
            final(self).wf(),
            final(self).spec_info() == old(self).spec_info(),
            final(self).cap() == old(self).cap(),
            final(self).column(i as int, (at + count) as nat) == old(self).column(i as int, at as nat)
                + bytes@,
            final(self).bytes().len() == old(self).bytes().len(),
            forall|x: int|
                0 <= x < old(self).bytes().len() && !(old(self).cap() * old(self).fields().offsets()[i as int]
                    + at * old(self).fields().sizes()[i as int] <= x < old(self).cap()
                    * old(self).fields().offsets()[i as int] + at * old(self).fields().sizes()[i as int]
                    + bytes@.len()) ==> #[trigger] final(self).bytes()[x] == old(self).bytes()[x],
            forall|j: int, m: nat|
                0 <= j < old(self).fields().count() && j != i && m <= old(self).cap()
                    ==> #[trigger] final(self).column(j, m) == old(self).column(j, m),
    {
        let ghost orig = self.buf@;
        let ghost cap = self.cap as int;
        let ghost o = self.fields().offsets()[i as int] as int;
        let ghost z = self.fields().sizes()[i as int] as int;
        proof {
            self.lemma_column_bounds(i as int, (at + count) as int);
            lemma_mul_split(cap, o, at as int, count as int, z);
        }
        let sz = self.info.fields.field_size(i);
        let start = self.column_start(i) + at * sz;
        let n = bytes.len();
        let mut k: usize = 0;
        while k < n
            invariant
                n == bytes@.len(),
                k <= n,
                start + n <= orig.len(),
                orig.len() <= isize::MAX,
                self.buf@.len() == orig.len(),
                self.cap == cap,
                self.info == old(self).info,
                forall|x: int| 0 <= x < orig.len() && !(start <= x < start + k) ==> self.buf@[x] == orig[x],
                forall|x: int| 0 <= x < k ==> #[trigger] self.buf@[start + x] == bytes@[x],
            decreases n - k,
        {
            self.buf.set(start + k, bytes[k]);
            k += 1;
        }
        proof {
            let col_old = orig.subrange(cap * o, cap * o + at * z);
            assert(self.column(i as int, (at + count) as nat) =~= col_old + bytes@) by {
                assert forall|x: int| 0 <= x < (at + count) * z implies #[trigger] self.column(
                    i as int,
                    (at + count) as nat,
                )[x] == (col_old + bytes@)[x] by {
                    if x >= at * z {
                        assert(self.buf@[start + (x - at * z)] == bytes@[x - at * z]);
                    }
                }
            }
            assert forall|j: int, m: nat|
                0 <= j < self.fields().count() && j != i && m <= cap implies #[trigger] self.column(j, m)
                == old(self).column(j, m) by {
                self.info.fields.lemma_fields_disjoint(i as int, j);
                old(self).lemma_column_bounds(j, m as int);
                let oj = self.fields().offsets()[j] as int;
                let zj = self.fields().sizes()[j] as int;
                lemma_mul_split(cap, oj, m as int, 0, zj);
                lemma_disjoint_scaled(cap, o, z, oj, zj);
                assert(self.column(j, m) =~= old(self).column(j, m));
            }
        }
    }

    /// A column of `len` elements holds `len` times the field's size in bytes.
    pub proof fn lemma_column_len(self, i: int, len: nat)
        requires
            self.wf(),
            0 <= i < self.fields().count(),
            len <= self.cap() || self.elem_size() == 0,
        ensures
            self.column(i, len).len() == len * self.fields().sizes()[i],
            self.elem_size() == 0 ==> self.fields().sizes()[i] == 0 && self.fields().offsets()[i] == 0,
    {
        self.fields().lemma_offsets_ordered();
        if self.elem_size() == 0 {
            assert(self.fields().offsets()[i] + self.fields().sizes()[i] <= 0);
            assert(len * self.fields().sizes()[i] == 0);
        } else {
            self.lemma_column_bounds(i, len as int);
        }
    }

    /// Columns of no elements, or of elements of no bytes, are empty.
    pub proof fn lemma_columns_empty(self, len: nat)
        requires
            self.wf(),
            len == 0 || self.elem_size() == 0,
        ensures
            forall|i: int| 0 <= i < self.fields().count() ==> #[trigger] self.column(i, len) == Seq::<u8>::empty(),
    {
        assert forall|i: int| 0 <= i < self.fields().count() implies #[trigger] self.column(i, len)
            == Seq::<u8>::empty() by {
            self.lemma_column_len(i, len);
            if len == 0 {
                assert(len * self.fields().sizes()[i] == 0);
            }
            assert(self.column(i, len) =~= Seq::<u8>::empty());
        }
    }

    /// A column of `len <= cap` elements lies within the allocation.
    pub proof fn lemma_column_bounds(self, i: int, len: int)
        requires
            self.wf(),
            0 <= i < self.fields().count(),
            0 <= len <= self.cap(),
        ensures
            0 <= self.cap() * self.fields().offsets()[i],
            self.cap() * self.fields().offsets()[i] + len * self.fields().sizes()[i]
                <= self.cap() * self.elem_size(),
            0 <= len * self.fields().sizes()[i],
    {
        self.fields().lemma_offsets_ordered();
        lemma_column_within(
            self.cap() as int,
            len,
            self.fields().offsets()[i] as int,
            self.fields().sizes()[i] as int,
            self.elem_size() as int,
        );
        assert(0 <= len * self.fields().sizes()[i]) by (nonlinear_arith)
            requires
                0 <= len,
        ;
    }

    fn needs_to_grow(&self, len: usize, additional: usize) -> (r: bool)
        requires
            self.wf(),
            len <= self.spec_capacity(),
        ensures
            r == (additional > self.spec_capacity() - len),
    {
        additional > self.capacity() - len
    }

    /// The capacity that the amortized rule picks: at least twice the
    /// current one and at least `len + additional`, at least the minimum
    /// for the element size, and a multiple of the alignment.
    fn amortized_capacity(&self, len: usize, additional: usize) -> (r: Result<
        usize,
        TryReserveError,
    >)
        requires
            self.wf(),
        ensures
            r == match grown_capacity(
                self.cap(),
                len as nat,
                additional as nat,
                self.elem_size(),
                self.spec_info().spec_align(),
            ) {
                Some(c) => Ok::<usize, TryReserveError>(c as usize),
                None => Err::<usize, TryReserveError>(
                    TryReserveError { kind: TryReserveErrorKind::CapacityOverflow },
                ),
            },
    {
        let size = self.info.size();
        let align = self.info.align();
        if size == 0 {
            // Elements of no bytes report unbounded capacity, so asking for
            // more than that is an overflow.
            return Err(TryReserveError { kind: TryReserveErrorKind::CapacityOverflow });
        }
        let required = match len.checked_add(additional) {
            Some(required) => required,
            None => return Err(TryReserveError { kind: TryReserveErrorKind::CapacityOverflow }),
        };
        proof {
            lemma_cap_bound(self.cap as nat, size as nat);
        }
        let doubled = self.cap * 2;
        let cap = if doubled >= required {
            doubled
        } else {
            required
        };
        let floor = min_non_zero_cap(size);
        let cap = if floor >= cap {
            floor
        } else {
            cap
        };
        let cap = match next_multiple_of(cap, align) {
            Some(cap) => cap,
            None => return Err(TryReserveError { kind: TryReserveErrorKind::CapacityOverflow }),
        };
        let layout = match layout_colvec(cap, size, align) {
            Ok(layout) => layout,
            Err(e) => return Err(e),
        };
        match alloc_guard(layout.size) {
            Ok(()) => Ok(cap),
            Err(e) => Err(e),
        }
    }

    /// The fallible growth path: the new room is asked of the allocator
    /// first, and an allocator that declines leaves the buffer as it was.
    fn grow_amortized(&mut self, len: usize, additional: usize) -> (r: Result<(), TryReserveError>)
        requires
            old(self).wf(),
            len <= old(self).spec_capacity(),
        ensures
            final(self).wf(),
            final(self).spec_info() == old(self).spec_info(),
            match grown_capacity(
                old(self).cap(),
                len as nat,
                additional as nat,
                old(self).elem_size(),
                old(self).spec_info().spec_align(),
            ) {
                None => r == Err::<(), TryReserveError>(
                    TryReserveError { kind: TryReserveErrorKind::CapacityOverflow },
                ) && RawColVec::unchanged(*old(self), *final(self)),
                Some(c) => (r is Ok && final(self).cap() == c && RawColVec::columns_kept(
                    *old(self),
                    *final(self),
                    len as nat,
                )) || (r == Err::<(), TryReserveError>(
                    TryReserveError {
                        kind: TryReserveErrorKind::AllocError {
                            layout: AllocLayout {
                                size: (c * old(self).elem_size()) as usize,
                                align: old(self).spec_info().spec_align() as usize,
                            },
                        },
                    },
                ) && RawColVec::unchanged(*old(self), *final(self))),
            },
    {
        let cap = match self.amortized_capacity(len, additional) {
            Ok(cap) => cap,
            Err(e) => return Err(e),
        };
        let size = self.info.size();
        proof {
            lemma_grown_above(self.cap as nat, len as nat, additional as nat, size as nat, self.info.align as nat);
            vstd::arithmetic::mul::lemma_mul_inequality(self.cap as int, cap as int, size as int);
        }
        let new_size = cap * size;
        let extra = new_size - self.buf.len();
        if self.buf.try_reserve(extra).is_err() {
            return Err(
                TryReserveError {
                    kind: TryReserveErrorKind::AllocError {
                        layout: AllocLayout { size: new_size, align: self.info.align() },
                    },
                },
            );
        }
        self.finish_grow(cap, len);
        Ok(())
    }

    /// Resizes the allocation to `new_cap` elements, keeping its low bytes,
    /// then moves every column to where it lies at the new capacity. A buffer
    /// that held nothing is simply allocated.
    fn finish_grow(&mut self, new_cap: usize, len: usize)
        requires
            old(self).wf(),
            old(self).elem_size() > 0,
            old(self).cap() < new_cap,
            new_cap * old(self).elem_size() <= isize::MAX,
            new_cap as nat % old(self).spec_info().spec_align() == 0,
            len <= old(self).cap(),
        ensures
            final(self).wf(),
            final(self).spec_info() == old(self).spec_info(),
            final(self).cap() == new_cap,
            RawColVec::columns_kept(*old(self), *final(self), len as nat),
    {
        let ghost orig = self.buf@;
        let size = self.info.size();
        proof {
            vstd::arithmetic::mul::lemma_mul_inequality(self.cap as int, new_cap as int, size as int);
        }
        self.buf.resize(new_cap * size, 0u8);
        let ghost resized = self.buf@;
        proof {
            self.info.fields.lemma_offsets_ordered();
            assert forall|i: int| 0 <= i < self.info.fields.count() implies #[trigger] self.info.fields.column(
                resized,
                self.cap as nat,
                i,
                len as nat,
            ) == self.info.fields.column(orig, self.cap as nat, i, len as nat) by {
                let o = self.info.fields.offsets()[i] as int;
                let z = self.info.fields.sizes()[i] as int;
                lemma_column_within(self.cap as int, len as int, o, z, size as int);
                assert(resized.subrange(self.cap * o, self.cap * o + len * z) =~= orig.subrange(
                    self.cap * o,
                    self.cap * o + len * z,
                ));
            }
        }
        if self.cap > 0 {
            self.info.fields.move_fields(&mut self.buf, self.cap, new_cap, len);
        } else {
            proof {
                assert forall|i: int| 0 <= i < self.info.fields.count() implies #[trigger] self.info.fields.column(
                    self.buf@,
                    new_cap as nat,
                    i,
                    len as nat,
                ) == self.info.fields.column(resized, self.cap as nat, i, len as nat) by {
                    assert(len == 0);
                    lemma_column_within(
                        new_cap as int,
                        0,
                        self.info.fields.offsets()[i] as int,
                        self.info.fields.sizes()[i] as int,
                        size as int,
                    );
                    assert(self.info.fields.column(self.buf@, new_cap as nat, i, len as nat) =~= Seq::<u8>::empty());
                    assert(self.info.fields.column(resized, self.cap as nat, i, len as nat) =~= Seq::<u8>::empty());
                }
            }
        }
        self.cap = new_cap;
    }
}

fn min_non_zero_cap(size: usize) -> (r: usize)
    ensures
        r == spec_min_non_zero_cap(size as nat),
{
    if size == 1 {
        8
    } else if size <= 1024 {
        4
    } else {
        1
    }
}

/// `x` rounded up to a multiple of `align`, or `None` where that overflows.
fn next_multiple_of(x: usize, align: usize) -> (r: Option<usize>)
    requires
        align > 0,
    ensures
        round_up(x as nat, align as nat) <= usize::MAX ==> r == Some(
            round_up(x as nat, align as nat) as usize,
        ),
        round_up(x as nat, align as nat) > usize::MAX ==> r is None,
{
    let rem = x % align;
    if rem == 0 {
        Some(x)
    } else {
        x.checked_add(align - rem)
    }
}

/// The byte layout of `cap` elements of `size` bytes, or a capacity overflow.
fn layout_colvec(cap: usize, size: usize, align: usize) -> (r: Result<AllocLayout, TryReserveError>)
    ensures
        cap * size <= usize::MAX ==> r == Ok::<AllocLayout, TryReserveError>(
            AllocLayout { size: (cap * size) as usize, align },
        ),
        cap * size > usize::MAX ==> r == Err::<AllocLayout, TryReserveError>(
            TryReserveError { kind: TryReserveErrorKind::CapacityOverflow },
        ),
{
    match cap.checked_mul(size) {
        Some(bytes) => Ok(AllocLayout { size: bytes, align }),
        None => Err(TryReserveError { kind: TryReserveErrorKind::CapacityOverflow }),
    }
}

/// No single allocation may exceed `isize::MAX` bytes.
fn alloc_guard(alloc_size: usize) -> (r: Result<(), TryReserveError>)
    ensures
        alloc_size <= isize::MAX ==> r is Ok,
        alloc_size > isize::MAX ==> r == Err::<(), TryReserveError>(
            TryReserveError { kind: TryReserveErrorKind::CapacityOverflow },
        ),
{
    if alloc_size > isize::MAX as usize {
        Err(TryReserveError { kind: TryReserveErrorKind::CapacityOverflow })
    } else {
        Ok(())
    }
}

/// The capacity of a buffer created for `capacity` elements, or a capacity
/// overflow.
fn allocation_capacity(capacity: usize, size: usize, align: usize) -> (r: Result<usize, TryReserveError>)
    requires
        align > 0,
    ensures
        r == match initial_capacity(capacity as nat, size as nat, align as nat) {
            Some(c) => Ok::<usize, TryReserveError>(c as usize),
            None => Err::<usize, TryReserveError>(
                TryReserveError { kind: TryReserveErrorKind::CapacityOverflow },
            ),
        },
{
    let cap = match next_multiple_of(capacity, align) {
        Some(cap) => cap,
        None => return Err(TryReserveError { kind: TryReserveErrorKind::CapacityOverflow }),
    };
    let layout = match layout_colvec(cap, size, align) {
        Ok(layout) => layout,
        Err(e) => return Err(e),
    };
    if layout.size == 0 {
        return Ok(0);
    }
    match alloc_guard(layout.size) {
        Ok(()) => Ok(cap),
        Err(e) => Err(e),
    }
}

/// Elements `at..at + count` of a column sit right after its first `at`,
/// inside its `cap` elements.
pub proof fn lemma_mul_split(cap: int, o: int, at: int, count: int, z: int)
    requires
        0 <= at,
        0 <= count,
        at + count <= cap,
        0 <= o,
        0 <= z,
    ensures
        cap * o + at * z + count * z == cap * o + (at + count) * z,
        cap * o + (at + count) * z <= cap * o + cap * z,
        0 <= at * z,
        0 <= count * z,
{
    assert(at * z + count * z == (at + count) * z) by (nonlinear_arith);
    assert((at + count) * z <= cap * z) by (nonlinear_arith)
        requires
            at + count <= cap,
            0 <= z,
    ;
    assert(0 <= at * z) by (nonlinear_arith)
        requires
            0 <= at,
            0 <= z,
    ;
    assert(0 <= count * z) by (nonlinear_arith)
        requires
            0 <= count,
            0 <= z,
    ;
}

/// Disjoint offset ranges stay disjoint when scaled by the capacity.
proof fn lemma_disjoint_scaled(cap: int, o1: int, z1: int, o2: int, z2: int)
    requires
        0 <= cap,
        0 <= o1,
        0 <= z1,
        0 <= o2,
        0 <= z2,
        o1 + z1 <= o2 || o2 + z2 <= o1,
    ensures
        cap * o1 + cap * z1 <= cap * o2 || cap * o2 + cap * z2 <= cap * o1,
{
    if o1 + z1 <= o2 {
        assert(cap * o1 + cap * z1 <= cap * o2) by (nonlinear_arith)
            requires
                0 <= cap,
                o1 + z1 <= o2,
        ;
    } else {
        assert(cap * o2 + cap * z2 <= cap * o1) by (nonlinear_arith)
            requires
                0 <= cap,
                o2 + z2 <= o1,
        ;
    }
}

/// A buffer of elements of some bytes made for `capacity` elements has room
/// for them.
pub proof fn lemma_initial_capacity(capacity: nat, size: nat, align: nat)
    requires
        align > 0,
        size > 0,
        initial_capacity(capacity, size, align) is Some,
    ensures
        initial_capacity(capacity, size, align)->0 >= capacity,
{
    lemma_round_up(capacity, align);
    lemma_mul_zero(round_up(capacity, align), size);
}

proof fn lemma_mul_zero(a: nat, b: nat)
    ensures
        a * b == 0 <==> (a == 0 || b == 0),
{
    assert(a * b == 0 <==> (a == 0 || b == 0)) by (nonlinear_arith);
}

proof fn lemma_round_up(x: nat, align: nat)
    requires
        align > 0,
    ensures
        round_up(x, align) % align == 0,
        round_up(x, align) >= x,
{
    if x % align != 0 {
        assert((x + (align - x % align)) % (align as int) == 0) by (nonlinear_arith)
            requires
                align > 0,
                x % align != 0,
        ;
    }
}

/// A buffer of elements of at least one byte has a capacity of at most
/// `isize::MAX`, so doubling it fits.
proof fn lemma_cap_bound(cap: nat, size: nat)
    requires
        size >= 1,
        cap * size <= isize::MAX,
    ensures
        cap * 2 <= usize::MAX,
{
    assert(cap <= cap * size) by (nonlinear_arith)
        requires
            size >= 1,
    ;
}

/// The grown capacity makes room for what was asked.
pub proof fn lemma_grown_covers(cap: nat, len: nat, additional: nat, size: nat, align: nat)
    requires
        align > 0,
        grown_capacity(cap, len, additional, size, align) is Some,
    ensures
        grown_capacity(cap, len, additional, size, align)->0 >= len + additional,
{
    let m = max_nat(spec_min_non_zero_cap(size), max_nat(2 * cap, len + additional));
    lemma_round_up(m, align);
}

proof fn lemma_grown_above(cap: nat, len: nat, additional: nat, size: nat, align: nat)
    requires
        align > 0,
        size > 0,
        cap * size <= isize::MAX,
        grown_capacity(cap, len, additional, size, align) is Some,
    ensures
        grown_capacity(cap, len, additional, size, align)->0 > cap,
        grown_capacity(cap, len, additional, size, align)->0 % align == 0,
        grown_capacity(cap, len, additional, size, align)->0 >= len + additional,
{
    let m = max_nat(spec_min_non_zero_cap(size), max_nat(2 * cap, len + additional));
    lemma_round_up(m, align);
}

/// A column of `len <= cap` elements lies within `cap` elements' bytes.
proof fn lemma_column_within(cap: int, len: int, offset: int, size: int, total: int)
    requires
        0 <= len <= cap,
        0 <= offset,
        0 <= size,
        offset + size <= total,
    ensures
        0 <= cap * offset,
        cap * offset + len * size <= cap * total,
{
    assert(0 <= cap * offset) by (nonlinear_arith)
        requires
            0 <= cap,
            0 <= offset,
    ;
    assert(cap * offset + len * size <= cap * total) by (nonlinear_arith)
        requires
            0 <= len <= cap,
            0 <= offset,
            0 <= size,
            offset + size <= total,
    ;
}

} // verus!
