use crate::error::{TryReserveError, TryReserveErrorKind};
use crate::fields::Fields;
use crate::raw::{grown_capacity, initial_capacity, lemma_mul_split, RawColVec, StructInfo};
use vstd::prelude::*;

verus! {

/// A growable collection of records stored column by column: element `j`
/// of field `i` is the `j`-th run of that field's bytes in column `i`.
pub struct ColVec {
    buf: RawColVec,
    len: usize,
}

impl ColVec {
    pub closed spec fn raw(self) -> RawColVec {
        self.buf
    }

    pub closed spec fn spec_len(self) -> nat {
        self.len as nat
    }

    pub open spec fn fields(self) -> Fields {
        self.raw().fields()
    }

    pub open spec fn spec_info(self) -> StructInfo {
        self.raw().spec_info()
    }

    /// The live bytes of every column, by declared field index.
    pub open spec fn view(self) -> Seq<Seq<u8>> {
        Seq::new(self.fields().count(), |i: int| self.raw().column(i, self.spec_len()))
    }

    pub open spec fn wf(self) -> bool {
        &&& self.raw().wf()
        &&& self.spec_len() <= self.raw().spec_capacity()
    }

    /// Whether pushing one more record needs no more than the buffer can grow.
    pub open spec fn can_push(self) -> bool {
        &&& self.spec_len() < usize::MAX
        &&& self.spec_len() == self.raw().spec_capacity() ==> grown_capacity(
            self.raw().cap(),
            self.raw().cap(),
            1,
            self.raw().elem_size(),
            self.spec_info().spec_align(),
        ) is Some
    }

    /// Whether room for `additional` more records can be made.
    pub open spec fn can_reserve(self, additional: nat) -> bool {
        additional > self.raw().spec_capacity() - self.spec_len() ==> grown_capacity(
            self.raw().cap(),
            self.spec_len(),
            additional,
            self.raw().elem_size(),
            self.spec_info().spec_align(),
        ) is Some
    }

    /// An empty collection; nothing is allocated.
    pub fn new(info: StructInfo) -> (r: ColVec)
        requires
            info.wf(),
        ensures
            r.wf(),
            r.spec_info() == info,
            r.spec_len() == 0,
            r.raw().cap() == 0,
            r@ == Seq::new(info.spec_fields().count(), |i: int| Seq::<u8>::empty()),
    {
        let r = ColVec { buf: RawColVec::new_in(info), len: 0 };
        proof {
            r.buf.lemma_columns_empty(0);
        }
        assert(r@ =~= Seq::new(info.spec_fields().count(), |i: int| Seq::<u8>::empty()));
        r
    }

    /// An empty collection with room for at least `capacity` records.
    pub fn with_capacity(capacity: usize, info: StructInfo) -> (r: ColVec)
        requires
            info.wf(),
            initial_capacity(capacity as nat, info.spec_size(), info.spec_align()) is Some,
        ensures
            r.wf(),
            r.spec_info() == info,
            r.spec_len() == 0,
            r@ == Seq::new(info.spec_fields().count(), |i: int| Seq::<u8>::empty()),
            r.raw().cap() == initial_capacity(capacity as nat, info.spec_size(), info.spec_align())->0,
            info.spec_size() > 0 ==> r.raw().spec_capacity() >= capacity,
    {
        let r = ColVec { buf: RawColVec::with_capacity_in(capacity, info), len: 0 };
        proof {
            if info.spec_size() > 0 {
                crate::raw::lemma_initial_capacity(capacity as nat, info.spec_size(), info.spec_align());
            }
            r.buf.lemma_columns_empty(0);
        }
        assert(r@ =~= Seq::new(info.spec_fields().count(), |i: int| Seq::<u8>::empty()));
        r
    }

    /// The buffer that holds the columns.
    pub fn raw_ref(&self) -> (r: &RawColVec)
        ensures
            r == self.raw(),
    {
        &self.buf
    }

    /// Number of records.
    pub fn len(&self) -> (r: usize)
        ensures
            r == self.spec_len(),
    {
        self.len
    }

    /// Records that fit without growing; `usize::MAX` where records take no bytes.
    pub fn capacity(&self) -> (r: usize)
        requires
            self.wf(),
        ensures
            r == self.raw().spec_capacity(),
    {
        self.buf.capacity()
    }

    /// The record type's description.
    pub fn info(&self) -> (r: &StructInfo)
        ensures
            r == self.spec_info(),
    {
        self.buf.info()
    }

    /// Makes room for `additional` more records; the records stay as they are.
    pub fn reserve(&mut self, additional: usize)
        requires
            old(self).wf(),
            old(self).can_reserve(additional as nat),
        ensures
            final(self).wf(),
            final(self).spec_info() == old(self).spec_info(),
            final(self).spec_len() == old(self).spec_len(),
            final(self)@ == old(self)@,
            final(self).raw().spec_capacity() >= old(self).spec_len() + additional,
            additional <= old(self).raw().spec_capacity() - old(self).spec_len() ==> RawColVec::unchanged(
                old(self).raw(),
                final(self).raw(),
            ),
            additional > old(self).raw().spec_capacity() - old(self).spec_len() ==> final(self).raw().cap()
                == grown_capacity(
                old(self).raw().cap(),
                old(self).spec_len(),
                additional as nat,
                old(self).raw().elem_size(),
                old(self).spec_info().spec_align(),
            )->0,
    {
        self.buf.reserve(self.len, additional);
        assert(self@ =~= old(self)@);
    }

    /// Makes room for `additional` more records, or says why it could not;
    /// the records stay as they are either way.
    pub fn try_reserve(&mut self, additional: usize) -> (r: Result<(), TryReserveError>)
        requires
            old(self).wf(),
        ensures
            final(self).wf(),
            final(self).spec_info() == old(self).spec_info(),
            final(self).spec_len() == old(self).spec_len(),
            final(self)@ == old(self)@,
            r is Ok ==> final(self).raw().spec_capacity() >= old(self).spec_len() + additional,
            r is Ok && additional > old(self).raw().spec_capacity() - old(self).spec_len() ==> final(self).raw().cap() == grown_capacity(
                old(self).raw().cap(),
                old(self).spec_len(),
                additional as nat,
                old(self).raw().elem_size(),
                old(self).spec_info().spec_align(),
            )->0,
            additional <= old(self).raw().spec_capacity() - old(self).spec_len() ==> r is Ok
                && RawColVec::unchanged(old(self).raw(), final(self).raw()),
            additional > old(self).raw().spec_capacity() - old(self).spec_len() && !old(self).can_reserve(additional as nat) ==> r == Err::<(), TryReserveError>(
                TryReserveError { kind: TryReserveErrorKind::CapacityOverflow },
            ),
            old(self).can_reserve(additional as nat) && r is Err ==> r->Err_0.kind is AllocError,
            r is Err ==> RawColVec::unchanged(old(self).raw(), final(self).raw()),
    {
        let r = self.buf.try_reserve(self.len, additional);
        proof {
            if r is Ok && additional > old(self).raw().spec_capacity() - old(self).spec_len() {
                crate::raw::lemma_grown_covers(
                    old(self).raw().cap(),
                    self.len as nat,
                    additional as nat,
                    old(self).raw().elem_size(),
                    old(self).spec_info().spec_align(),
                );
            }
        }
        assert(self@ =~= old(self)@);
        r
    }

    /// The live bytes of the column of field `i`.
    pub fn field_view(&self, i: usize) -> (r: &[u8])
        requires
            self.wf(),
            i < self.fields().count(),
        ensures
            r@ == self@[i as int],
    {
        self.buf.column_bytes(i, self.len)
    }

    /// Appends one record, given as the bytes of each field. The buffer
    /// grows first where it is full; records of no bytes are only counted.
    pub fn push(&mut self, record: &Vec<Vec<u8>>)
        requires
            old(self).wf(),
            old(self).can_push(),
            record@.len() == old(self).fields().count(),
            forall|i: int|
                0 <= i < record@.len() ==> #[trigger] record@[i]@.len() == old(self).fields().sizes()[i],
        ensures
            final(self).wf(),
            final(self).spec_info() == old(self).spec_info(),
            final(self).spec_len() == old(self).spec_len() + 1,
            old(self).spec_len() < old(self).raw().spec_capacity() ==> final(self).raw().cap() == old(self).raw().cap(),
            old(self).spec_len() == old(self).raw().spec_capacity() ==> final(self).raw().cap()
                == grown_capacity(
                old(self).raw().cap(),
                old(self).raw().cap(),
                1,
                old(self).raw().elem_size(),
                old(self).spec_info().spec_align(),
            )->0,
            final(self)@ == extended_columns(*old(self), record@.map_values(|b: Vec<u8>| b@)),
            forall|i: int, j: int|
                0 <= i < old(self).fields().count() && 0 <= j < old(self).spec_len()
                    ==> #[trigger] final(self).element(i, j) == old(self).element(i, j),
            forall|i: int|
                0 <= i < old(self).fields().count()
                    ==> #[trigger] final(self).element(i, old(self).spec_len() as int) == record@[i]@,
    {
        let len = self.len;
        if len == self.buf.capacity() {
            self.buf.grow_one();
        }
        let ghost grown = self.buf;
        proof {
            assert forall|j: int| 0 <= j < old(self).fields().count() implies #[trigger] grown.column(
                j,
                len as nat,
            ) == old(self).raw().column(j, len as nat) by {}
        }
        let n = self.buf.info().fields().field_count();
        if self.buf.info().size() > 0 {
            let mut i: usize = 0;
            while i < n
                invariant
                    self.buf.wf(),
                    self.buf.spec_info() == grown.spec_info(),
                    self.buf.cap() == grown.cap(),
                    self.len == len,
                    len < grown.cap(),
                    n == grown.fields().count(),
                    record@.len() == n,
                    i <= n,
                    forall|j: int|
                        0 <= j < record@.len() ==> #[trigger] record@[j]@.len() == grown.fields().sizes()[j],
                    forall|j: int|
                        0 <= j < i ==> #[trigger] self.buf.column(j, (len + 1) as nat) == grown.column(
                            j,
                            len as nat,
                        ) + record@[j]@,
                    forall|j: int|
                        i <= j < n ==> #[trigger] self.buf.column(j, len as nat) == grown.column(
                            j,
                            len as nat,
                        ),
                decreases n - i,
            {
                proof {
                    vstd::arithmetic::mul::lemma_mul_basics(record@[i as int]@.len() as int);
                }
                self.buf.write_column(i, len, 1, record[i].as_slice());
                i += 1;
            }
        } else {
            proof {
                self.buf.lemma_columns_empty((len + 1) as nat);
                grown.lemma_columns_empty(len as nat);
                assert forall|j: int| 0 <= j < n implies #[trigger] self.buf.column(j, (len + 1) as nat)
                    == grown.column(j, len as nat) + record@[j]@ by {
                    self.buf.lemma_column_len(j, 0);
                    assert(record@[j]@ =~= Seq::<u8>::empty());
                }
            }
        }
        self.len = len + 1;
        proof {
            assert forall|i: int| 0 <= i < n implies #[trigger] self@[i] == old(self)@[i] + record@[i]@ by {
                assert(self@[i] == self.buf.column(i, (len + 1) as nat));
            }
            assert(self@ =~= Seq::new(old(self).fields().count(), |i: int| old(self)@[i] + record@[i]@));
            let added = record@.map_values(|b: Vec<u8>| b@);
            assert(self@ =~= Seq::new(old(self).fields().count(), |i: int| old(self)@[i] + added[i]));
            vstd::arithmetic::mul::lemma_mul_basics(0);
            assert forall|i: int| 0 <= i < added.len() implies #[trigger] added[i].len() == 1
                * old(self).fields().sizes()[i] by {
                vstd::arithmetic::mul::lemma_mul_basics(old(self).fields().sizes()[i] as int);
            }
            self.lemma_elements_after_extend(*old(self), added, 1);
        }
    }

    /// Moves every record of `other` to the end of this collection, field by
    /// field; `other` is left empty, its allocation kept.
    pub fn append(&mut self, other: &mut ColVec)
        requires
            old(self).wf(),
            old(other).wf(),
            old(other).fields().sizes() == old(self).fields().sizes(),
            old(self).spec_len() + old(other).spec_len() <= usize::MAX,
            old(self).can_reserve(old(other).spec_len()),
        ensures
            final(self).wf(),
            final(other).wf(),
            final(self).spec_info() == old(self).spec_info(),
            final(self).spec_len() == old(self).spec_len() + old(other).spec_len(),
            final(self)@ == extended_columns(*old(self), old(other)@),
            final(other).spec_len() == 0,
            RawColVec::unchanged(old(other).raw(), final(other).raw()),
    {
        let count = other.len;
        self.reserve(count);
        let ghost reserved = self.buf;
        let len = self.len;
        let n = self.buf.info().fields().field_count();
        if self.buf.info().size() > 0 {
            let mut i: usize = 0;
            while i < n
                invariant
                    self.buf.wf(),
                    other.wf(),
                    *other == *old(other),
                    self.buf.spec_info() == reserved.spec_info(),
                    self.buf.cap() == reserved.cap(),
                    self.len == len,
                    len + count <= reserved.cap(),
                    count == other.spec_len(),
                    n == reserved.fields().count(),
                    other.fields().sizes() == reserved.fields().sizes(),
                    i <= n,
                    forall|j: int|
                        0 <= j < i ==> #[trigger] self.buf.column(j, (len + count) as nat)
                            == reserved.column(j, len as nat) + other@[j],
                    forall|j: int|
                        i <= j < n ==> #[trigger] self.buf.column(j, len as nat) == reserved.column(
                            j,
                            len as nat,
                        ),
                decreases n - i,
            {
                proof {
                    other.buf.lemma_column_len(i as int, count as nat);
                }
                let src = other.buf.column_bytes(i, count);
                self.buf.write_column(i, len, count, src);
                i += 1;
            }
        } else {
            proof {
                self.buf.lemma_columns_empty((len + count) as nat);
                reserved.lemma_columns_empty(len as nat);
                other.buf.lemma_columns_empty(count as nat);
                assert forall|j: int| 0 <= j < n implies #[trigger] self.buf.column(j, (len + count) as nat)
                    == reserved.column(j, len as nat) + other@[j] by {
                    assert(other@[j] == other.buf.column(j, count as nat));
                    assert(other@[j] =~= Seq::<u8>::empty());
                }
            }
        }
        self.len = len + count;
        other.len = 0;
        proof {
            assert forall|i: int| 0 <= i < n implies #[trigger] self@[i] == old(self)@[i] + old(other)@[i] by {
                assert(self@[i] == self.buf.column(i, (len + count) as nat));
            }
            assert(self@ =~= Seq::new(old(self).fields().count(), |i: int| old(self)@[i] + old(other)@[i]));
        }
    }

    /// Overwrites element `j` of field `i` with `bytes`; every other element
    /// of every field keeps its value.
    pub fn set_element(&mut self, i: usize, j: usize, bytes: &[u8])
        requires
            old(self).wf(),
            i < old(self).fields().count(),
            j < old(self).spec_len(),
            bytes@.len() == old(self).fields().sizes()[i as int],
        ensures
            final(self).wf(),
            final(self).spec_info() == old(self).spec_info(),
            final(self).spec_len() == old(self).spec_len(),
            final(self).raw().cap() == old(self).raw().cap(),
            forall|f: int| 0 <= f < old(self).fields().count() ==> #[trigger] final(self)@[f].len() == old(self)@[f].len(),
            forall|f: int, k: int|
                0 <= f < old(self).fields().count() && 0 <= k < old(self).spec_len()
                    ==> #[trigger] final(self).element(f, k) == if f == i && k == j {
                    bytes@
                } else {
                    old(self).element(f, k)
                },
    {
        let ghost len = self.len as int;
        let ghost z = self.fields().sizes()[i as int] as int;
        let ghost cap = self.buf.cap() as int;
        let ghost o = self.fields().offsets()[i as int] as int;
        proof {
            vstd::arithmetic::mul::lemma_mul_basics(z);
            if self.buf.elem_size() == 0 {
                self.buf.lemma_column_len(i as int, 0);
            }
        }
        if self.buf.info().size() == 0 {
            // Elements of no bytes: there is nothing to write.
            proof {
                self.buf.lemma_columns_empty(self.len as nat);
                assert forall|f: int, k: int|
                    0 <= f < old(self).fields().count() && 0 <= k < old(self).spec_len()
                        implies #[trigger] self.element(f, k) == if f == i && k == j {
                        bytes@
                    } else {
                        old(self).element(f, k)
                    } by {
                    self.buf.lemma_column_len(f, 0);
                    assert(self.element(f, k) =~= Seq::<u8>::empty());
                    assert(bytes@ =~= Seq::<u8>::empty());
                }
            }
            return;
        }
        let ghost before = self.buf;
        self.buf.write_column(i, j, 1, bytes);
        proof {
            assert forall|f: int| 0 <= f < old(self).fields().count() implies #[trigger] self@[f].len()
                == old(self)@[f].len() by {
                self.buf.lemma_column_len(f, self.len as nat);
                before.lemma_column_len(f, self.len as nat);
            }
            assert forall|f: int, k: int|
                0 <= f < old(self).fields().count() && 0 <= k < old(self).spec_len()
                    implies #[trigger] self.element(f, k) == if f == i && k == j {
                    bytes@
                } else {
                    old(self).element(f, k)
                } by {
                let zf = self.fields().sizes()[f] as int;
                before.lemma_column_len(f, self.len as nat);
                self.buf.lemma_column_len(f, self.len as nat);
                lemma_element_within(k, len, zf);
                if f != i {
                    assert(self@[f] == old(self)@[f]);
                } else {
                    before.lemma_column_bounds(i as int, len);
                    lemma_mul_split(cap, o, j as int, 1, z);
                    if k == j {
                        before.lemma_column_len(i as int, (j + 1) as nat);
                        assert(self.buf.column(i as int, (j + 1) as nat) == before.column(i as int, j as nat)
                            + bytes@);
                        assert(self.element(f, k) =~= bytes@) by {
                            assert forall|t: int| 0 <= t < z implies #[trigger] self.element(f, k)[t]
                                == bytes@[t] by {
                                assert(self.element(f, k)[t] == self.buf.bytes()[cap * o + j * z + t]);
                                assert(self.buf.column(i as int, (j + 1) as nat)[j * z + t]
                                    == self.buf.bytes()[cap * o + j * z + t]);
                            }
                        }
                    } else {
                        lemma_disjoint_elements(k, j as int, z);
                        assert(self.element(f, k) =~= old(self).element(f, k)) by {
                            assert forall|t: int| 0 <= t < z implies #[trigger] self.element(f, k)[t]
                                == old(self).element(f, k)[t] by {
                                assert(self.element(f, k)[t] == self.buf.bytes()[cap * o + k * z + t]);
                                assert(old(self).element(f, k)[t] == before.bytes()[cap * o + k * z + t]);
                            }
                        }
                    }
                }
            }
        }
    }

    /// Overwrites every record with the record at the same place in `src`,
    /// field by field; both hold records of the same field sizes and as many
    /// of them.
    pub fn copy_from(&mut self, src: &ColVec)
        requires
            old(self).wf(),
            src.wf(),
            src.fields().sizes() == old(self).fields().sizes(),
            src.spec_len() == old(self).spec_len(),
        ensures
            final(self).wf(),
            final(self).spec_info() == old(self).spec_info(),
            final(self).spec_len() == old(self).spec_len(),
            final(self).raw().cap() == old(self).raw().cap(),
            final(self)@ == src@,
    {
        let len = self.len;
        let n = self.buf.info().fields().field_count();
        if self.buf.info().size() > 0 {
            let ghost start = self.buf;
            proof {
                start.lemma_columns_empty(0);
            }
            let mut i: usize = 0;
            while i < n
                invariant
                    self.buf.wf(),
                    src.wf(),
                    self.buf.spec_info() == start.spec_info(),
                    self.buf.cap() == start.cap(),
                    self.len == len,
                    len <= start.cap(),
                    len == src.spec_len(),
                    n == start.fields().count(),
                    src.fields().sizes() == start.fields().sizes(),
                    i <= n,
                    forall|j: int| 0 <= j < i ==> #[trigger] self.buf.column(j, len as nat) == src@[j],
                    forall|j: int| i <= j < n ==> #[trigger] self.buf.column(j, 0) == Seq::<u8>::empty(),
                decreases n - i,
            {
                proof {
                    src.buf.lemma_column_len(i as int, len as nat);
                }
                let bytes = src.buf.column_bytes(i, len);
                self.buf.write_column(i, 0, len, bytes);
                proof {
                    assert(self.buf.column(i as int, len as nat) =~= src@[i as int]);
                }
                i += 1;
            }
        } else {
            proof {
                self.buf.lemma_columns_empty(len as nat);
                src.buf.lemma_columns_empty(len as nat);
            }
        }
        proof {
            assert forall|j: int| 0 <= j < n implies #[trigger] self@[j] == src@[j] by {
                assert(self@[j] == self.buf.column(j, len as nat));
                assert(src@[j] == src.buf.column(j, len as nat));
            }
            assert(self@ =~= src@);
        }
    }

    /// A collection whose records take no bytes holds no allocation, reports
    /// unbounded capacity, and all its columns are empty, however many
    /// records it counts.
    pub proof fn lemma_zero_size_never_allocates(self)
        requires
            self.wf(),
            self.raw().elem_size() == 0,
        ensures
            self.raw().bytes().len() == 0,
            self.raw().spec_capacity() == usize::MAX,
            forall|i: int| 0 <= i < self.fields().count() ==> #[trigger] self@[i] == Seq::<u8>::empty(),
    {
        self.raw().lemma_columns_empty(self.spec_len());
        assert forall|i: int| 0 <= i < self.fields().count() implies #[trigger] self@[i]
            == Seq::<u8>::empty() by {
            assert(self@[i] == self.raw().column(i, self.spec_len()));
        }
    }

    /// The bytes of element `j` of field `i`.
    pub open spec fn element(self, i: int, j: int) -> Seq<u8> {
        let z = self.fields().sizes()[i] as int;
        self@[i].subrange(j * z, j * z + z)
    }

    /// After the columns grew by `count` elements each, taken from `added`,
    /// the elements before stay and the new ones are those added.
    proof fn lemma_elements_after_extend(self, old: ColVec, added: Seq<Seq<u8>>, count: nat)
        requires
            self.fields() == old.fields(),
            old.fields().wf(),
            self.spec_len() == old.spec_len() + count,
            added.len() == old.fields().count(),
            forall|i: int|
                0 <= i < added.len() ==> #[trigger] added[i].len() == count * old.fields().sizes()[i],
            self@ == Seq::new(old.fields().count(), |i: int| old@[i] + added[i]),
            old.raw().wf(),
            old.spec_len() <= old.raw().cap() || old.raw().elem_size() == 0,
        ensures
            forall|i: int, j: int|
                0 <= i < old.fields().count() && 0 <= j < old.spec_len() ==> #[trigger] self.element(i, j)
                    == old.element(i, j),
            count == 1 ==> forall|i: int|
                0 <= i < old.fields().count() ==> #[trigger] self.element(i, old.spec_len() as int)
                    == added[i],
    {
        assert forall|i: int, j: int|
            0 <= i < old.fields().count() && 0 <= j < old.spec_len() implies #[trigger] self.element(i, j)
            == old.element(i, j) by {
            let z = old.fields().sizes()[i] as int;
            old.raw().lemma_column_len(i, old.spec_len());
            lemma_element_within(j, old.spec_len() as int, z);
            assert(self.element(i, j) =~= old.element(i, j));
        }
        if count == 1 {
            assert forall|i: int| 0 <= i < old.fields().count() implies #[trigger] self.element(
                i,
                old.spec_len() as int,
            ) == added[i] by {
                let z = old.fields().sizes()[i] as int;
                old.raw().lemma_column_len(i, old.spec_len());
                assert(self.element(i, old.spec_len() as int) =~= added[i]);
            }
        }
    }
}

/// The columns of `cols` with `added[i]` appended to column `i`.
pub open spec fn extended_columns(cols: ColVec, added: Seq<Seq<u8>>) -> Seq<Seq<u8>> {
    Seq::new(cols.fields().count(), |i: int| cols@[i] + added[i])
}

/// Each state is the one before with one more record pushed.
pub open spec fn successive_pushes(states: Seq<ColVec>, records: Seq<Seq<Seq<u8>>>) -> bool {
    forall|k: int|
        #![trigger states[k + 1]]
        0 <= k < records.len() ==> {
            &&& states[k + 1].fields().count() == states[k].fields().count()
            &&& states[k + 1]@ == extended_columns(states[k], records[k])
        }
}

/// Field `i` of the first `k` records, one after another.
pub open spec fn field_history(records: Seq<Seq<Seq<u8>>>, i: int, k: int) -> Seq<u8>
    decreases k,
{
    if k <= 0 {
        Seq::empty()
    } else {
        field_history(records, i, k - 1) + records[k - 1][i]
    }
}

/// Pushing records one after another into an empty collection, however
/// often the buffer grows and moves its columns on the way, leaves each
/// column holding that field of every record pushed, in order: state `k` is
/// the collection after the `k`-th push, which `push` relates to the one
/// before.
pub proof fn lemma_push_round_trip(states: Seq<ColVec>, records: Seq<Seq<Seq<u8>>>)
    requires
        states.len() == records.len() + 1,
        forall|i: int|
            0 <= i < states[0].fields().count() ==> #[trigger] states[0]@[i] == Seq::<u8>::empty(),
        successive_pushes(states, records),
    ensures
        forall|k: int, i: int|
            0 <= k < states.len() && 0 <= i < states[0].fields().count() ==> #[trigger] states[k]@[i]
                == field_history(records, i, k),
{
    assert forall|k: int, i: int|
        0 <= k < states.len() && 0 <= i < states[0].fields().count() implies #[trigger] states[k]@[i]
        == field_history(records, i, k) by {
        lemma_push_history(states, records, k, i);
    }
}

proof fn lemma_push_history(states: Seq<ColVec>, records: Seq<Seq<Seq<u8>>>, k: int, i: int)
    requires
        states.len() == records.len() + 1,
        forall|i: int|
            0 <= i < states[0].fields().count() ==> #[trigger] states[0]@[i] == Seq::<u8>::empty(),
        successive_pushes(states, records),
        0 <= k < states.len(),
        0 <= i < states[0].fields().count(),
    ensures
        states[k].fields().count() == states[0].fields().count(),
        states[k]@[i] == field_history(records, i, k),
    decreases k,
{
    if k > 0 {
        lemma_push_history(states, records, k - 1, i);
        let j = k - 1;
        assert(states[j + 1]@ == extended_columns(states[j], records[j]));
    }
}

/// Two different elements of `z` bytes do not overlap.
proof fn lemma_disjoint_elements(k: int, j: int, z: int)
    requires
        0 <= k,
        0 <= j,
        k != j,
        0 <= z,
    ensures
        k * z + z <= j * z || j * z + z <= k * z,
{
    if k < j {
        assert(k * z + z <= j * z) by (nonlinear_arith)
            requires
                k < j,
                0 <= z,
        ;
    } else {
        assert(j * z + z <= k * z) by (nonlinear_arith)
            requires
                j < k,
                0 <= z,
        ;
    }
}

/// Element `j < len` of `z` bytes lies within the first `len` elements.
proof fn lemma_element_within(j: int, len: int, z: int)
    requires
        0 <= j < len,
        0 <= z,
    ensures
        0 <= j * z,
        j * z + z <= len * z,
{
    assert(0 <= j * z) by (nonlinear_arith)
        requires
            0 <= j,
            0 <= z,
    ;
    assert(j * z + z <= len * z) by (nonlinear_arith)
        requires
            j < len,
            0 <= z,
    ;
}

} // verus!
