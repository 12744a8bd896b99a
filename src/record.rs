use crate::colvec::ColVec;
use crate::fields::{sum, Fields};
use crate::raw::{grown_capacity, StructInfo};
use vstd::prelude::*;

verus! {

/// A record of four fields of different sizes, stored column by column in a
/// `TestColVec`.
#[derive(Clone, Copy, Debug, PartialEq, Eq, Structural)]
pub struct Test {
    pub field0: u8,
    pub field1: Option<u8>,
    pub field2: i16,
    pub field3: u32,
}

/// Bytes of each field of `Test`, in declaration order.
pub open spec fn test_sizes() -> Seq<usize> {
    seq![1usize, 2, 2, 4]
}

/// `Test` is aligned as its widest field, a `u32`.
pub const TEST_ALIGN: usize = 4;

pub open spec fn option_bytes(v: Option<u8>) -> Seq<u8> {
    match v {
        None => seq![0u8, 0u8],
        Some(x) => seq![1u8, x],
    }
}

pub open spec fn option_from_bytes(b: Seq<u8>) -> Option<u8> {
    if b[0] == 0 {
        None
    } else {
        Some(b[1])
    }
}

/// The two's complement bits of an `i16`.
pub open spec fn i16_bits(x: i16) -> int {
    if x >= 0 {
        x as int
    } else {
        x + 0x1_0000
    }
}

pub open spec fn i16_le_bytes(x: i16) -> Seq<u8> {
    seq![(i16_bits(x) % 0x100) as u8, (i16_bits(x) / 0x100) as u8]
}

pub open spec fn i16_from_le_bytes(b: Seq<u8>) -> i16 {
    let u = b[0] + b[1] * 0x100;
    if u >= 0x8000 {
        (u - 0x1_0000) as i16
    } else {
        u as i16
    }
}

pub open spec fn u32_le_bytes(x: u32) -> Seq<u8> {
    seq![
        (x % 0x100) as u8,
        (x / 0x100 % 0x100) as u8,
        (x / 0x1_0000 % 0x100) as u8,
        (x / 0x100_0000) as u8,
    ]
}

pub open spec fn u32_from_le_bytes(b: Seq<u8>) -> u32 {
    (b[0] + b[1] * 0x100 + b[2] * 0x1_0000 + b[3] * 0x100_0000) as u32
}

/// The bytes that each field of `t` is stored as.
pub open spec fn test_field_bytes(t: Test) -> Seq<Seq<u8>> {
    seq![seq![t.field0], option_bytes(t.field1), i16_le_bytes(t.field2), u32_le_bytes(t.field3)]
}

/// Element `j` of a collection of `Test` records, read back from its columns.
pub open spec fn test_at(cols: ColVec, j: int) -> Test {
    Test {
        field0: cols.element(0, j)[0],
        field1: option_from_bytes(cols.element(1, j)),
        field2: i16_from_le_bytes(cols.element(2, j)),
        field3: u32_from_le_bytes(cols.element(3, j)),
    }
}

/// A growable collection of `Test` records stored column by column.
pub struct TestColVec {
    inner: ColVec,
}

impl TestColVec {
    pub closed spec fn cols(self) -> ColVec {
        self.inner
    }

    pub open spec fn view(self) -> Seq<Test> {
        Seq::new(self.cols().spec_len(), |j: int| test_at(self.cols(), j))
    }

    pub open spec fn wf(self) -> bool {
        &&& self.cols().wf()
        &&& self.cols().fields().sizes() == test_sizes()
        &&& self.cols().raw().elem_size() == 9
        &&& self.cols().spec_info().spec_align() == TEST_ALIGN
    }

    /// The capacity that the allocation was made for.
    pub open spec fn cap(self) -> nat {
        self.cols().raw().cap()
    }

    /// Whether one more record can be pushed.
    pub open spec fn can_push(self) -> bool {
        self.cols().can_push()
    }

    /// An empty collection; nothing is allocated.
    pub fn new() -> (r: TestColVec)
        ensures
            r.wf(),
            r@ == Seq::<Test>::empty(),
            r.cap() == 0,
    {
        let sizes: [usize; 4] = [1, 2, 2, 4];
        proof {
            assert(sizes@ =~= test_sizes());
            lemma_test_total();
        }
        let info = StructInfo::new(Fields::from_sizes(sizes), TEST_ALIGN);
        let r = TestColVec { inner: ColVec::new(info) };
        assert(r@ =~= Seq::<Test>::empty());
        r
    }

    /// Records that fit without growing.
    pub fn capacity(&self) -> (r: usize)
        requires
            self.wf(),
        ensures
            r == self.cols().raw().spec_capacity(),
    {
        self.inner.capacity()
    }

    /// Number of records.
    pub fn len(&self) -> (r: usize)
        ensures
            r == self@.len(),
    {
        self.inner.len()
    }

    /// The bytes of column `i`, `z` bytes per element.
    fn column(&self, i: usize, z: Ghost<nat>) -> (r: &[u8])
        requires
            self.wf(),
            i < 4,
            z@ == test_sizes()[i as int],
        ensures
            r@.len() == self@.len() * z@,
            forall|j: int|
                0 <= j < self@.len() ==> #[trigger] r@.subrange(j * z@, j * z@ + z@) == self.cols().element(
                    i as int,
                    j,
                ),
    {
        proof {
            lemma_test_total();
            self.inner.raw().lemma_column_len(i as int, self.inner.spec_len());
        }
        self.inner.field_view(i)
    }

    /// The `field0` of every record, in order.
    pub fn field0_slice(&self) -> (r: Vec<u8>)
        requires
            self.wf(),
        ensures
            r@ == self@.map_values(|t: Test| t.field0),
    {
        let col = self.column(0, Ghost(1));
        let len = self.inner.len();
        let clen = col.len();
        let mut r: Vec<u8> = Vec::new();
        let mut j: usize = 0;
        while j < len
            invariant
                self.wf(),
                len == self@.len(),
                clen == col@.len(),
                col@.len() == len * 1,
                forall|k: int| 0 <= k < len ==> #[trigger] col@.subrange(k * 1, k * 1 + 1) == self.cols().element(0, k),
                j <= len,
                r@.len() == j,
                forall|k: int| 0 <= k < j ==> r@[k] == #[trigger] self@[k].field0,
            decreases len - j,
        {
            assert(col@.subrange(j * 1, j * 1 + 1)[0] == col@[j as int]);
            r.push(col[j]);
            j += 1;
        }
        assert(r@ =~= self@.map_values(|t: Test| t.field0));
        r
    }

    /// The `field1` of every record, in order.
    pub fn field1_slice(&self) -> (r: Vec<Option<u8>>)
        requires
            self.wf(),
        ensures
            r@ == self@.map_values(|t: Test| t.field1),
    {
        let col = self.column(1, Ghost(2));
        let len = self.inner.len();
        let clen = col.len();
        let mut r: Vec<Option<u8>> = Vec::new();
        let mut j: usize = 0;
        while j < len
            invariant
                self.wf(),
                len == self@.len(),
                clen == col@.len(),
                col@.len() == len * 2,
                forall|k: int| 0 <= k < len ==> #[trigger] col@.subrange(k * 2, k * 2 + 2) == self.cols().element(1, k),
                j <= len,
                r@.len() == j,
                forall|k: int| 0 <= k < j ==> r@[k] == #[trigger] self@[k].field1,
            decreases len - j,
        {
            let ghost e = col@.subrange(j * 2, j * 2 + 2);
            assert(e[0] == col@[2 * j] && e[1] == col@[2 * j + 1]);
            let v = if col[2 * j] == 0 {
                None
            } else {
                Some(col[2 * j + 1])
            };
            r.push(v);
            j += 1;
        }
        assert(r@ =~= self@.map_values(|t: Test| t.field1));
        r
    }

    /// The `field2` of every record, in order.
    pub fn field2_slice(&self) -> (r: Vec<i16>)
        requires
            self.wf(),
        ensures
            r@ == self@.map_values(|t: Test| t.field2),
    {
        let col = self.column(2, Ghost(2));
        let len = self.inner.len();
        let clen = col.len();
        let mut r: Vec<i16> = Vec::new();
        let mut j: usize = 0;
        while j < len
            invariant
                self.wf(),
                len == self@.len(),
                clen == col@.len(),
                col@.len() == len * 2,
                forall|k: int| 0 <= k < len ==> #[trigger] col@.subrange(k * 2, k * 2 + 2) == self.cols().element(2, k),
                j <= len,
                r@.len() == j,
                forall|k: int| 0 <= k < j ==> r@[k] == #[trigger] self@[k].field2,
            decreases len - j,
        {
            let ghost e = col@.subrange(j * 2, j * 2 + 2);
            assert(e[0] == col@[2 * j] && e[1] == col@[2 * j + 1]);
            let u: u32 = col[2 * j] as u32 + col[2 * j + 1] as u32 * 0x100;
            let v: i16 = if u >= 0x8000 {
                (u as i32 - 0x1_0000) as i16
            } else {
                u as i16
            };
            r.push(v);
            j += 1;
        }
        assert(r@ =~= self@.map_values(|t: Test| t.field2));
        r
    }

    /// The `field3` of every record, in order.
    pub fn field3_slice(&self) -> (r: Vec<u32>)
        requires
            self.wf(),
        ensures
            r@ == self@.map_values(|t: Test| t.field3),
    {
        let col = self.column(3, Ghost(4));
        let len = self.inner.len();
        let clen = col.len();
        let mut r: Vec<u32> = Vec::new();
        let mut j: usize = 0;
        while j < len
            invariant
                self.wf(),
                len == self@.len(),
                clen == col@.len(),
                col@.len() == len * 4,
                forall|k: int| 0 <= k < len ==> #[trigger] col@.subrange(k * 4, k * 4 + 4) == self.cols().element(3, k),
                j <= len,
                r@.len() == j,
                forall|k: int| 0 <= k < j ==> r@[k] == #[trigger] self@[k].field3,
            decreases len - j,
        {
            let ghost e = col@.subrange(j * 4, j * 4 + 4);
            assert(e[0] == col@[4 * j] && e[1] == col@[4 * j + 1] && e[2] == col@[4 * j + 2] && e[3]
                == col@[4 * j + 3]);
            let v: u32 = col[4 * j] as u32 + col[4 * j + 1] as u32 * 0x100 + col[4 * j + 2] as u32
                * 0x1_0000 + col[4 * j + 3] as u32 * 0x100_0000;
            r.push(v);
            j += 1;
        }
        assert(r@ =~= self@.map_values(|t: Test| t.field3));
        r
    }

    /// Overwrites record `j` with `value`, in place.
    pub fn set(&mut self, j: usize, value: Test)
        requires
            old(self).wf(),
            j < old(self)@.len(),
        ensures
            final(self).wf(),
            final(self).cap() == old(self).cap(),
            final(self)@ == old(self)@.update(j as int, value),
    {
        let b0 = vec![value.field0];
        let b1 = option_to_bytes(value.field1);
        let b2 = i16_to_bytes(value.field2);
        let b3 = u32_to_bytes(value.field3);
        proof {
            assert(b0@ =~= seq![value.field0]);
        }
        let ghost s0 = self.inner;
        self.inner.set_element(0, j, b0.as_slice());
        let ghost s1 = self.inner;
        self.inner.set_element(1, j, b1.as_slice());
        let ghost s2 = self.inner;
        self.inner.set_element(2, j, b2.as_slice());
        let ghost s3 = self.inner;
        self.inner.set_element(3, j, b3.as_slice());
        proof {
            lemma_option_round_trip(value.field1);
            lemma_i16_round_trip(value.field2);
            lemma_u32_round_trip(value.field3);
            assert forall|k: int| 0 <= k < self@.len() implies #[trigger] self@[k] == old(self)@.update(
                j as int,
                value,
            )[k] by {
                assert(self.inner.element(0, k) == s3.element(0, k));
                assert(s3.element(0, k) == s2.element(0, k));
                assert(s2.element(0, k) == s1.element(0, k));
                assert(s1.element(0, k) == (if k == j { b0@ } else { s0.element(0, k) }));
                assert(self.inner.element(1, k) == s3.element(1, k));
                assert(s3.element(1, k) == s2.element(1, k));
                assert(s2.element(1, k) == (if k == j { b1@ } else { s1.element(1, k) }));
                assert(s1.element(1, k) == s0.element(1, k));
                assert(self.inner.element(2, k) == s3.element(2, k));
                assert(s3.element(2, k) == (if k == j { b2@ } else { s2.element(2, k) }));
                assert(s2.element(2, k) == s1.element(2, k));
                assert(s1.element(2, k) == s0.element(2, k));
                assert(self.inner.element(3, k) == (if k == j { b3@ } else { s3.element(3, k) }));
                assert(s3.element(3, k) == s2.element(3, k));
                assert(s2.element(3, k) == s1.element(3, k));
                assert(s1.element(3, k) == s0.element(3, k));
            }
            assert(self@ =~= old(self)@.update(j as int, value));
        }
    }

    /// Appends a record; the buffer grows first where it is full.
    pub fn push(&mut self, value: Test)
        requires
            old(self).wf(),
            old(self).can_push(),
        ensures
            final(self).wf(),
            final(self)@ == old(self)@.push(value),
            old(self)@.len() < old(self).cap() ==> final(self).cap() == old(self).cap(),
            old(self)@.len() == old(self).cap() ==> final(self).cap() == grown_capacity(
                old(self).cap(),
                old(self).cap(),
                1,
                9,
                TEST_ALIGN as nat,
            )->0,
    {
        let mut record: Vec<Vec<u8>> = Vec::new();
        record.push(vec![value.field0]);
        record.push(option_to_bytes(value.field1));
        record.push(i16_to_bytes(value.field2));
        record.push(u32_to_bytes(value.field3));
        proof {
            assert(record@[0]@ =~= seq![value.field0]);
            assert(record@.map_values(|b: Vec<u8>| b@) =~= test_field_bytes(value));
        }
        self.inner.push(&record);
        proof {
            lemma_option_round_trip(value.field1);
            lemma_i16_round_trip(value.field2);
            lemma_u32_round_trip(value.field3);
            assert forall|j: int| 0 <= j < self@.len() implies #[trigger] self@[j] == old(self)@.push(value)[j] by {
                if j < old(self)@.len() {
                    assert(self.inner.element(0, j) == old(self).inner.element(0, j));
                    assert(self.inner.element(1, j) == old(self).inner.element(1, j));
                    assert(self.inner.element(2, j) == old(self).inner.element(2, j));
                    assert(self.inner.element(3, j) == old(self).inner.element(3, j));
                } else {
                    assert(self.inner.element(0, j) == record@[0]@);
                    assert(self.inner.element(1, j) == record@[1]@);
                    assert(self.inner.element(2, j) == record@[2]@);
                    assert(self.inner.element(3, j) == record@[3]@);
                }
            }
            assert(self@ =~= old(self)@.push(value));
        }
    }
}

/// One `Test` record takes 9 bytes across its columns.
pub proof fn lemma_test_total()
    ensures
        sum(test_sizes()) == 9,
{
    reveal_with_fuel(sum, 5);
}

fn option_to_bytes(v: Option<u8>) -> (r: Vec<u8>)
    ensures
        r@ == option_bytes(v),
{
    let r = match v {
        None => vec![0u8, 0u8],
        Some(x) => vec![1u8, x],
    };
    assert(r@ =~= option_bytes(v));
    r
}

fn i16_to_bytes(x: i16) -> (r: Vec<u8>)
    ensures
        r@ == i16_le_bytes(x),
{
    let bits: u32 = if x >= 0 {
        x as u32
    } else {
        (x as i32 + 0x1_0000) as u32
    };
    let r = vec![(bits % 0x100) as u8, (bits / 0x100) as u8];
    assert(r@ =~= i16_le_bytes(x));
    r
}

fn u32_to_bytes(x: u32) -> (r: Vec<u8>)
    ensures
        r@ == u32_le_bytes(x),
{
    let r = vec![
        (x % 0x100) as u8,
        (x / 0x100 % 0x100) as u8,
        (x / 0x1_0000 % 0x100) as u8,
        (x / 0x100_0000) as u8,
    ];
    assert(r@ =~= u32_le_bytes(x));
    r
}

proof fn lemma_option_round_trip(v: Option<u8>)
    ensures
        option_from_bytes(option_bytes(v)) == v,
{
}

proof fn lemma_i16_round_trip(x: i16)
    ensures
        i16_from_le_bytes(i16_le_bytes(x)) == x,
{
    let u = i16_bits(x);
    assert(u % 0x100 + (u / 0x100) * 0x100 == u) by (nonlinear_arith)
        requires
            0 <= u < 0x1_0000,
    ;
}

proof fn lemma_u32_round_trip(x: u32)
    ensures
        u32_from_le_bytes(u32_le_bytes(x)) == x,
{
    let v = x as int;
    assert(v % 0x100 + (v / 0x100 % 0x100) * 0x100 + (v / 0x1_0000 % 0x100) * 0x1_0000 + (v
        / 0x100_0000) * 0x100_0000 == v) by (nonlinear_arith)
        requires
            0 <= v < 0x1_0000_0000,
    ;
}

} // verus!
