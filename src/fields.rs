use vstd::arithmetic::div_mod::lemma_fundamental_div_mod_converse;
use vstd::prelude::*;
use vstd::seq_lib::group_to_multiset_ensures;

verus! {

/// A sort key holds the size in its high 64 bits and the complement of the
/// field index in its low 64 bits, so that ascending key order is ascending
/// size order, with the smaller index last among equal sizes.
const KEY_SHIFT: u128 = 0x1_0000_0000_0000_0000;

const INDEX_MASK: u128 = 0xffff_ffff_ffff_ffff;

/// Sum of a sequence of byte sizes.
pub open spec fn sum(s: Seq<usize>) -> nat
    decreases s.len(),
{
    if s.len() == 0 {
        0
    } else {
        (sum(s.drop_last()) + s.last()) as nat
    }
}

/// Field `j` is placed before field `i`: larger fields first, and among equal
/// sizes the smaller declared index first.
pub open spec fn precedes(sizes: Seq<usize>, j: int, i: int) -> bool {
    sizes[j] > sizes[i] || (sizes[j] == sizes[i] && j < i)
}

#[verifier::opaque]
spec fn key_of(size: usize, index: int) -> int {
    size * KEY_SHIFT + (INDEX_MASK - index)
}

#[verifier::opaque]
spec fn key_size(key: u128) -> int {
    key as int / KEY_SHIFT as int
}

#[verifier::opaque]
spec fn key_index(key: u128) -> int {
    INDEX_MASK - key as int % KEY_SHIFT as int
}

/// `k` is the sort key of some field.
spec fn is_field_key(sizes: Seq<usize>, k: u128) -> bool {
    exists|j: int| 0 <= j < sizes.len() && k == #[trigger] key_of(sizes[j], j)
}

/// The key `k` stands somewhere in `kd`.
spec fn key_present(kd: Seq<u128>, k: int) -> bool {
    exists|q: int| 0 <= q < kd.len() && kd[q] == k
}

/// Some field of `order` is the field declared at index `i`.
pub open spec fn has_index(order: Seq<Field>, i: int) -> bool {
    exists|p: int| 0 <= p < order.len() && #[trigger] order[p].index == i
}

/// Sum of the sizes of the fields placed before field `i`.
pub open spec fn preceding_sum(sizes: Seq<usize>, i: int) -> nat {
    sum(Seq::new(sizes.len(), |j: int| if precedes(sizes, j, i) { sizes[j] } else { 0usize }))
}

/// One field of a record type: where it came from, how many bytes one value
/// of it takes, and where its column starts, in bytes per element of capacity.
#[derive(Clone, Copy, Debug, PartialEq, Eq, Structural)]
pub struct Field {
    pub index: usize,
    pub size: usize,
    pub offset: usize,
}

/// The layout of a record type's columns inside one allocation: the fields
/// in placement order (largest first) and, by declared index, the offset of
/// each column as a multiple of the capacity.
pub struct Fields {
    field_id_to_offset: Vec<usize>,
    sizes: Vec<usize>,
    sorted_fields: Vec<Field>,
}

impl Fields {
    /// Byte size of each field, by declared index.
    pub closed spec fn sizes(self) -> Seq<usize> {
        self.sizes@
    }

    /// Column offset of each field, by declared index.
    pub closed spec fn offsets(self) -> Seq<usize> {
        self.field_id_to_offset@
    }

    /// The fields in placement order.
    pub closed spec fn order(self) -> Seq<Field> {
        self.sorted_fields@
    }

    pub open spec fn count(self) -> nat {
        self.sizes().len()
    }

    /// Bytes that one element takes across all columns.
    pub open spec fn total(self) -> nat {
        sum(self.sizes())
    }

    pub open spec fn order_sizes(self) -> Seq<usize> {
        self.order().map_values(|f: Field| f.size)
    }

    /// The column of field `i` holding `len` elements, in an allocation of
    /// capacity `cap`.
    pub open spec fn column(self, bytes: Seq<u8>, cap: nat, i: int, len: nat) -> Seq<u8> {
        bytes.subrange(
            cap * self.offsets()[i],
            cap * self.offsets()[i] + len * self.sizes()[i],
        )
    }

    /// Field `i` has a place in the order.
    pub open spec fn is_placed(self, i: int) -> bool {
        has_index(self.order(), i)
    }

    /// The order is the sorted permutation of the fields under `precedes`, and
    /// each offset is the sum of the sizes placed before it.
    pub open spec fn wf(self) -> bool {
        let n = self.count();
        &&& n <= usize::MAX
        &&& self.offsets().len() == n
        &&& self.order().len() == n
        &&& self.total() <= usize::MAX
        &&& forall|p: int|
            0 <= p < n ==> {
                let f = #[trigger] self.order()[p];
                &&& f.index < n
                &&& f.size == self.sizes()[f.index as int]
                &&& self.offsets()[f.index as int] == f.offset
                &&& f.offset == sum(self.order_sizes().take(p))
            }
        &&& forall|p: int, q: int|
            0 <= p < q < n ==> precedes(
                self.sizes(),
                #[trigger] self.order()[p].index as int,
                #[trigger] self.order()[q].index as int,
            )
        &&& forall|i: int| 0 <= i < n ==> #[trigger] self.is_placed(i)
        &&& sum(self.order_sizes()) == self.total()
    }

    /// Plans the layout of fields of the given byte sizes.
    pub fn from_sizes<const N: usize>(sizes: [usize; N]) -> (r: Fields)
        requires
            sum(sizes@) <= usize::MAX,
        ensures
            r.wf(),
            r.sizes() == sizes@,
            forall|i: int| 0 <= i < N ==> #[trigger] r.offsets()[i] == preceding_sum(sizes@, i),
    {
        let mut keys: Vec<u128> = Vec::new();
        let mut size_vec: Vec<usize> = Vec::new();
        let mut i: usize = 0;
        while i < N
            invariant
                i <= N,
                sizes@.len() == N,
                keys@.len() == i,
                size_vec@ == sizes@.take(i as int),
                forall|j: int| 0 <= j < i ==> keys@[j] == key_of(sizes@[j], j),
            decreases N - i,
        {
            assert(sizes@.take(i + 1) =~= sizes@.take(i as int).push(sizes@[i as int]));
            proof {
                reveal(key_of);
            }
            let key = sizes[i] as u128 * KEY_SHIFT + (INDEX_MASK - i as u128);
            keys.push(key);
            size_vec.push(sizes[i]);
            i += 1;
        }
        assert(size_vec@ =~= sizes@);
        let ghost unsorted = keys@;
        proof {
            lemma_keys_distinct(sizes@, unsorted);
        }
        sort_keys(&mut keys);
        let ghost kd = keys@;
        proof {
            lemma_sorted_keys(sizes@, unsorted, kd);
        }
        let ghost placed = Seq::new(N as nat, |p: int| key_size(kd[N - 1 - p]) as usize);
        proof {
            assert forall|q: int| 0 <= q < N implies #[trigger] placed[q] == key_size(
                kd[N - 1 - q],
            ) by {
                let j = choose|j: int| 0 <= j < N && kd[N - 1 - q] == key_of(sizes@[j], j);
                lemma_key_decode(sizes@[j], j);
            }
            lemma_placed_sum(sizes@, unsorted, kd, placed);
        }

        let mut field_id_to_offset: Vec<usize> = vec![0usize; N];
        let mut sorted_fields: Vec<Field> = Vec::new();
        let mut offset: usize = 0;
        let mut p: usize = 0;
        while p < N
            invariant
                p <= N,
                sizes@.len() == N,
                kd == keys@,
                kd.len() == N,
                placed.len() == N,
                sum(placed) == sum(sizes@),
                sum(sizes@) <= usize::MAX,
                forall|q: int| 0 <= q < N ==> #[trigger] placed[q] == key_size(kd[N - 1 - q]),
                forall|q: int| 0 <= q < N ==> is_field_key(sizes@, #[trigger] kd[q]),
                forall|q: int, t: int| 0 <= q < t < N ==> kd[q] < kd[t],
                field_id_to_offset@.len() == N,
                sorted_fields@.len() == p,
                offset == sum(placed.take(p as int)),
                forall|q: int|
                    0 <= q < p ==> {
                        let f = #[trigger] sorted_fields@[q];
                        &&& f.index == key_index(kd[N - 1 - q])
                        &&& f.size == key_size(kd[N - 1 - q])
                        &&& f.offset == sum(placed.take(q))
                        &&& 0 <= f.index < N
                        &&& field_id_to_offset@[f.index as int] == f.offset
                    },
            decreases N - p,
        {
            let key = keys[N - 1 - p];
            let ghost pos = N - 1 - p;
            let ghost j = choose|j: int| 0 <= j < N && kd[pos] == key_of(sizes@[j], j);
            proof {
                reveal(key_size);
                reveal(key_index);
                lemma_key_decode(sizes@[j], j);
                lemma_sum_take_le(placed, p as int + 1);
                assert(placed.take(p + 1) =~= placed.take(p as int).push(placed[p as int]));
                lemma_sum_push(placed.take(p as int), placed[p as int]);
                assert forall|q: int| 0 <= q < p implies (#[trigger] sorted_fields@[q]).index != j by {
                    let qpos = N - 1 - q;
                    let jq = choose|jq: int| 0 <= jq < N && kd[qpos] == key_of(sizes@[jq], jq);
                    lemma_key_decode(sizes@[jq], jq);
                    lemma_key_order(sizes@[j], j, sizes@[jq], jq);
                    assert(kd[pos] < kd[qpos]);
                }
            }
            let index = (INDEX_MASK - key % KEY_SHIFT) as usize;
            let size = (key / KEY_SHIFT) as usize;
            field_id_to_offset.set(index, offset);
            sorted_fields.push(Field { index, size, offset });
            offset = offset + size;
            p += 1;
        }

        proof {
            lemma_planned(sizes@, kd, placed, field_id_to_offset@, sorted_fields@);
        }
        let r = Fields { field_id_to_offset, sizes: size_vec, sorted_fields };
        assert(r.order_sizes() =~= placed);
        proof {
            assert forall|i: int| 0 <= i < N implies #[trigger] r.offsets()[i] == preceding_sum(
                sizes@,
                i,
            ) by {
                r.lemma_offset_is_preceding_sum(i);
            }
        }
        r
    }

    /// Bytes that one element takes across all columns.
    pub fn size(&self) -> (r: usize)
        requires
            self.wf(),
        ensures
            r == self.total(),
    {
        let mut size: usize = 0;
        let mut i: usize = 0;
        while i < self.sorted_fields.len()
            invariant
                self.wf(),
                i <= self.sorted_fields@.len(),
                size == sum(self.order_sizes().take(i as int)),
            decreases self.sorted_fields@.len() - i,
        {
            proof {
                lemma_sum_take_le(self.order_sizes(), i as int + 1);
                assert(self.order_sizes().take(i + 1) =~= self.order_sizes().take(
                    i as int,
                ).push(self.order_sizes()[i as int]));
                lemma_sum_push(self.order_sizes().take(i as int), self.order_sizes()[i as int]);
            }
            size = size + self.sorted_fields[i].size;
            i += 1;
        }
        assert(self.order_sizes().take(i as int) =~= self.order_sizes());
        size
    }

    /// Column offset of field `index`, in bytes per element of capacity.
    pub fn offset_of(&self, index: usize) -> (r: usize)
        requires
            self.wf(),
            index < self.count(),
        ensures
            r == self.offsets()[index as int],
    {
        self.field_id_to_offset[index]
    }

    /// Byte size of field `index`.
    pub fn field_size(&self, index: usize) -> (r: usize)
        requires
            self.wf(),
            index < self.count(),
        ensures
            r == self.sizes()[index as int],
    {
        self.sizes[index]
    }

    /// Moves the live part of every column from where it lies at capacity
    /// `old_capacity` to where it lies at `new_capacity`. Columns are moved
    /// from the highest offset down, and the column at offset 0 stays: every
    /// destination then lies above every source that has not been read yet.
    #[verifier::rlimit(40)]
    pub fn move_fields(
        &self,
        buf: &mut Vec<u8>,
        old_capacity: usize,
        new_capacity: usize,
        len: usize,
    )
        requires
            self.wf(),
            len <= old_capacity <= new_capacity,
            new_capacity * self.total() <= old(buf)@.len(),
        ensures
            final(buf)@.len() == old(buf)@.len(),
            forall|i: int|
                0 <= i < self.count() ==> #[trigger] self.column(
                    final(buf)@,
                    new_capacity as nat,
                    i,
                    len as nat,
                ) == self.column(old(buf)@, old_capacity as nat, i, len as nat),
            forall|x: int|
                0 <= x < old(buf)@.len() && !self.in_some_column(x, new_capacity as int, len as int)
                    ==> #[trigger] final(buf)@[x] == old(buf)@[x],
    {
        let ghost orig = buf@;
        let ghost total = self.total() as int;
        let blen = buf.len();
        let n = self.sorted_fields.len();
        proof {
            self.lemma_offsets_ordered();
            lemma_mul_le(total, old_capacity as int, new_capacity as int);
        }
        if n == 0 {
            return;
        }
        let ghost mut low: int = orig.len() as int;
        let mut p: usize = n - 1;
        proof {
            let f = self.order()[p as int];
            lemma_mul_le(new_capacity as int, f.offset + f.size, total);
        }
        while p > 0
            invariant
                self.wf(),
                n == self.count(),
                p < n,
                len <= old_capacity <= new_capacity,
                total == self.total(),
                old_capacity * total <= new_capacity * total <= orig.len(),
                orig.len() == blen,
                buf@.len() == orig.len(),
                low <= orig.len(),
                new_capacity * (self.order()[p as int].offset + self.order()[p as int].size) <= low,
                forall|x: int| 0 <= x < low ==> buf@[x] == orig[x],
                forall|x: int|
                    0 <= x < orig.len() && (forall|r: int|
                        p < r < n ==> !#[trigger] self.in_dest(x, new_capacity as int, len as int, r))
                        ==> #[trigger] buf@[x] == orig[x],
                forall|r: int|
                    p < r < n ==> new_capacity * (#[trigger] self.order()[r]).offset >= low,
                forall|r: int|
                    p < r < n ==> #[trigger] self.moved(
                        buf@,
                        orig,
                        old_capacity as int,
                        new_capacity as int,
                        len as int,
                        r,
                    ),
                forall|a: int, b: int|
                    #![trigger self.order()[a], self.order()[b]]
                    0 <= a < b < n ==> self.order()[a].offset + self.order()[a].size
                        <= self.order()[b].offset,
                forall|a: int|
                    0 <= a < n ==> #[trigger] self.order()[a].offset + self.order()[a].size
                        <= total,
            decreases p,
        {
            let f = self.sorted_fields[p];
            let ghost o = f.offset as int;
            let ghost z = f.size as int;
            proof {
                lemma_region_bounds(old_capacity as int, new_capacity as int, len as int, o, z);
                lemma_mul_le(old_capacity as int, o, total);
                lemma_mul_le(new_capacity as int, o, total);
            }
            let src = old_capacity * f.offset;
            let dst = new_capacity * f.offset;
            let count = len * f.size;
            let ghost before = buf@;
            copy_backward(buf, src, dst, count);
            proof {
                assert forall|r: int| p < r < n implies #[trigger] self.moved(
                    buf@,
                    orig,
                    old_capacity as int,
                    new_capacity as int,
                    len as int,
                    r,
                ) by {
                    assert(self.moved(
                        before,
                        orig,
                        old_capacity as int,
                        new_capacity as int,
                        len as int,
                        r,
                    ));
                    let g = self.order()[r];
                    lemma_region_bounds(
                        old_capacity as int,
                        new_capacity as int,
                        len as int,
                        g.offset as int,
                        g.size as int,
                    );
                    lemma_mul_le(new_capacity as int, g.offset + g.size, total);
                    lemma_kept_above(
                        before,
                        buf@,
                        orig,
                        new_capacity * g.offset,
                        new_capacity * g.offset + len * g.size,
                        old_capacity * g.offset,
                        old_capacity * g.offset + len * g.size,
                        dst + count,
                    );
                }
                assert(orig.subrange(src as int, src + count) =~= before.subrange(
                    src as int,
                    src + count,
                ));
                assert forall|x: int|
                    0 <= x < orig.len() && (forall|r: int|
                        p - 1 < r < n ==> !#[trigger] self.in_dest(x, new_capacity as int, len as int, r))
                        implies #[trigger] buf@[x] == orig[x] by {
                    assert(!self.in_dest(x, new_capacity as int, len as int, p as int));
                    assert(before[x] == orig[x]);
                }
                let e = self.order()[p - 1];
                assert(e.offset + e.size <= o);
                lemma_mul_le(new_capacity as int, e.offset + e.size, o);
                low = dst as int;
            }
            p -= 1;
        }
        proof {
            let f = self.order()[0];
            lemma_region_bounds(old_capacity as int, new_capacity as int, len as int, f.offset as int, f.size as int);
            assert(buf@.subrange(0, len * f.size) =~= orig.subrange(0, len * f.size));
            assert(self.moved(buf@, orig, old_capacity as int, new_capacity as int, len as int, 0));
            assert forall|i: int| 0 <= i < n implies #[trigger] self.column(
                buf@,
                new_capacity as nat,
                i,
                len as nat,
            ) == self.column(orig, old_capacity as nat, i, len as nat) by {
                assert(self.is_placed(i));
                let q = choose|q: int| 0 <= q < n && #[trigger] self.order()[q].index == i;
                assert(self.moved(buf@, orig, old_capacity as int, new_capacity as int, len as int, q));
            }
            assert forall|x: int|
                0 <= x < orig.len() && !self.in_some_column(x, new_capacity as int, len as int)
                    implies #[trigger] buf@[x] == orig[x] by {
                assert forall|r: int| 0 < r < n implies !#[trigger] self.in_dest(
                    x,
                    new_capacity as int,
                    len as int,
                    r,
                ) by {
                    let i = self.order()[r].index as int;
                    if self.in_dest(x, new_capacity as int, len as int, r) {
                        assert(self.offsets()[i] == self.order()[r].offset);
                        assert(self.in_some_column(x, new_capacity as int, len as int));
                    }
                }
            }
        }
    }

    /// Byte `x` lies in the live part of the column at position `r` of the
    /// order, at capacity `cap`.
    spec fn in_dest(self, x: int, cap: int, len: int, r: int) -> bool {
        let f = self.order()[r];
        cap * f.offset <= x < cap * f.offset + len * f.size
    }

    /// Byte `x` lies in the live part of some column, `len` elements long,
    /// at capacity `cap`.
    pub open spec fn in_some_column(self, x: int, cap: int, len: int) -> bool {
        exists|i: int|
            0 <= i < self.count() && cap * self.offsets()[i] <= x < cap * #[trigger] self.offsets()[i]
                + len * self.sizes()[i]
    }

    /// The column at position `r` of the order holds in `buf`, at capacity
    /// `new`, what it held in `orig` at capacity `old`.
    spec fn moved(self, buf: Seq<u8>, orig: Seq<u8>, old: int, new: int, len: int, r: int) -> bool {
        let f = self.order()[r];
        buf.subrange(new * f.offset, new * f.offset + len * f.size) == orig.subrange(
            old * f.offset,
            old * f.offset + len * f.size,
        )
    }

    /// Offsets grow along the placement order and every column ends within
    /// the footprint; the first field placed starts at offset 0.
    pub proof fn lemma_offsets_ordered(self)
        requires
            self.wf(),
        ensures
            self.count() > 0 ==> self.order()[0].offset == 0,
            forall|p: int, q: int|
                #![trigger self.order()[p], self.order()[q]]
                0 <= p < q < self.count() ==> self.order()[p].offset + self.order()[p].size
                    <= self.order()[q].offset,
            forall|p: int|
                #![trigger self.order()[p]]
                0 <= p < self.count() ==> self.order()[p].offset + self.order()[p].size
                    <= self.total(),
            forall|i: int|
                #![trigger self.offsets()[i]]
                #![trigger self.sizes()[i]]
                0 <= i < self.count() ==> self.offsets()[i] + self.sizes()[i] <= self.total(),
    {
        let s = self.order_sizes();
        let n = self.count() as int;
        assert(s.take(0) =~= Seq::<usize>::empty());
        assert forall|p: int| 0 <= p < n implies sum(s.take(p + 1)) == self.order()[p].offset
            + self.order()[p].size by {
            assert(s.take(p + 1) =~= s.take(p).push(s[p]));
            lemma_sum_push(s.take(p), s[p]);
        }
        assert forall|p: int, q: int|
            #![trigger self.order()[p], self.order()[q]]
            0 <= p < q < n implies self.order()[p].offset + self.order()[p].size
                <= self.order()[q].offset by {
            lemma_sum_take_mono(s, p + 1, q);
        }
        assert forall|p: int| #![trigger self.order()[p]] 0 <= p < n implies self.order()[p].offset
            + self.order()[p].size <= self.total() by {
            lemma_sum_take_le(s, p + 1);
        }
        assert forall|i: int| #![trigger self.offsets()[i]] 0 <= i < n implies self.offsets()[i]
            + self.sizes()[i] <= self.total() by {
            assert(self.is_placed(i));
            let p = choose|p: int| 0 <= p < n && #[trigger] self.order()[p].index == i;
            lemma_sum_take_le(s, p + 1);
        }
    }

    /// What the planned layout guarantees, by declared index: a field placed
    /// before another (larger, or as large with a smaller index) ends at or
    /// before the other's offset, so offsets never decrease from larger to
    /// smaller fields; every field ends within the footprint; and the field
    /// placed before all others starts at offset 0.
    pub proof fn lemma_planned_layout(self)
        requires
            self.wf(),
        ensures
            forall|i: int, j: int|
                #![trigger self.offsets()[i], self.offsets()[j]]
                0 <= i < self.count() && 0 <= j < self.count() && precedes(self.sizes(), i, j)
                    ==> self.offsets()[i] + self.sizes()[i] <= self.offsets()[j],
            forall|i: int|
                #![trigger self.offsets()[i]]
                0 <= i < self.count() ==> self.offsets()[i] + self.sizes()[i] <= self.total(),
            forall|i: int|
                #![trigger self.offsets()[i]]
                0 <= i < self.count() && (forall|j: int|
                    0 <= j < self.count() && j != i ==> precedes(self.sizes(), i, j))
                    ==> self.offsets()[i] == 0,
    {
        self.lemma_offsets_ordered();
        let n = self.count() as int;
        assert forall|i: int, j: int|
            #![trigger self.offsets()[i], self.offsets()[j]]
            0 <= i < n && 0 <= j < n && precedes(self.sizes(), i, j) implies self.offsets()[i]
            + self.sizes()[i] <= self.offsets()[j] by {
            assert(self.is_placed(i));
            assert(self.is_placed(j));
            let p = choose|p: int| 0 <= p < n && #[trigger] self.order()[p].index == i;
            let q = choose|q: int| 0 <= q < n && #[trigger] self.order()[q].index == j;
            if q < p {
                assert(precedes(self.sizes(), self.order()[q].index as int, self.order()[p].index as int));
            }
            // Name both placed fields so that the ordering facts apply to them.
            let (fp, fq) = (self.order()[p], self.order()[q]);
        }
        assert forall|i: int|
            #![trigger self.offsets()[i]]
            0 <= i < n && (forall|j: int| 0 <= j < n && j != i ==> precedes(self.sizes(), i, j))
                implies self.offsets()[i] == 0 by {
            assert(self.is_placed(i));
            let p = choose|p: int| 0 <= p < n && #[trigger] self.order()[p].index == i;
            if p > 0 {
                let j = self.order()[0].index as int;
                assert(precedes(self.sizes(), j, i));
                assert(precedes(self.sizes(), i, j));
            }
        }
    }

    /// Each offset is the sum of the sizes of the fields placed before it.
    #[verifier::rlimit(40)]
    pub proof fn lemma_offset_is_preceding_sum(self, i: int)
        requires
            self.wf(),
            0 <= i < self.count(),
        ensures
            self.offsets()[i] == preceding_sum(self.sizes(), i),
    {
        let n = self.count() as int;
        let sizes = self.sizes();
        assert(self.is_placed(i));
        let p = choose|p: int| 0 <= p < n && #[trigger] self.order()[p].index == i;
        let g = |j: usize| if precedes(sizes, j as int, i) { sizes[j as int] } else { 0usize };
        let idx = self.order().map_values(|f: Field| f.index);
        let iota = Seq::new(n as nat, |j: int| j as usize);
        self.lemma_order_permutes();
        lemma_sum_same_multiset(idx, iota, g);
        assert(iota.map_values(g) =~= Seq::new(
            sizes.len(),
            |j: int| if precedes(sizes, j, i) { sizes[j] } else { 0usize },
        )) by {
            assert forall|j: int| 0 <= j < n implies #[trigger] iota.map_values(g)[j] == (if precedes(
                sizes,
                j,
                i,
            ) {
                sizes[j]
            } else {
                0usize
            }) by {
                assert(iota[j] as int == j);
            }
        }
        let s = self.order_sizes();
        assert forall|q: int| 0 <= q < n implies #[trigger] idx.map_values(g)[q] == (if q < p {
            s[q]
        } else {
            0usize
        }) by {
            let f = self.order()[q];
            if q < p {
                assert(precedes(sizes, f.index as int, i));
            } else if q > p {
                assert(precedes(sizes, i, f.index as int));
            }
        }
        lemma_sum_zero_tail(idx.map_values(g), s, p);
    }

    /// The declared indices in placement order are a permutation of `0..n`.
    proof fn lemma_order_permutes(self)
        requires
            self.wf(),
        ensures
            self.order().map_values(|f: Field| f.index).to_multiset() == Seq::new(
                self.count(),
                |j: int| j as usize,
            ).to_multiset(),
    {
        broadcast use group_to_multiset_ensures;

        let n = self.count() as int;
        let idx = self.order().map_values(|f: Field| f.index);
        let iota = Seq::new(n as nat, |j: int| j as usize);
        assert(idx.no_duplicates()) by {
            assert forall|a: int, b: int| 0 <= a < n && 0 <= b < n && a != b implies idx[a] != idx[b] by {
                if a < b {
                    assert(precedes(self.sizes(), self.order()[a].index as int, self.order()[b].index as int));
                } else {
                    assert(precedes(self.sizes(), self.order()[b].index as int, self.order()[a].index as int));
                }
            }
        }
        idx.lemma_multiset_has_no_duplicates();
        assert(iota.no_duplicates());
        iota.lemma_multiset_has_no_duplicates();
        assert forall|x: usize| idx.to_multiset().count(x) == iota.to_multiset().count(x) by {
            if x < n {
                assert(self.is_placed(x as int));
                let p = choose|p: int| 0 <= p < n && #[trigger] self.order()[p].index == x;
                assert(idx[p] == x);
                assert(idx.contains(x));
                assert(iota[x as int] == x);
                assert(iota.contains(x));
            } else {
                assert(!idx.contains(x));
                assert(!iota.contains(x));
            }
        }
        assert(idx.to_multiset() =~= iota.to_multiset());
    }

    /// Two different fields take disjoint ranges of offsets.
    pub proof fn lemma_fields_disjoint(self, i: int, j: int)
        requires
            self.wf(),
            0 <= i < self.count(),
            0 <= j < self.count(),
            i != j,
        ensures
            self.offsets()[i] + self.sizes()[i] <= self.offsets()[j] || self.offsets()[j]
                + self.sizes()[j] <= self.offsets()[i],
    {
        self.lemma_offsets_ordered();
        assert(self.is_placed(i));
        assert(self.is_placed(j));
        let p = choose|p: int| 0 <= p < self.count() && #[trigger] self.order()[p].index == i;
        let q = choose|q: int| 0 <= q < self.count() && #[trigger] self.order()[q].index == j;
        // Name both placed fields so that the ordering facts apply to them.
        let (fp, fq) = (self.order()[p], self.order()[q]);
    }

    /// Number of fields.
    pub fn field_count(&self) -> (r: usize)
        requires
            self.wf(),
        ensures
            r == self.count(),
    {
        self.sizes.len()
    }
}

/// The tables built from the sorted keys have the shape that `wf` asks for.
proof fn lemma_planned(
    sizes: Seq<usize>,
    kd: Seq<u128>,
    placed: Seq<usize>,
    offsets: Seq<usize>,
    order: Seq<Field>,
)
    requires
        sizes.len() <= usize::MAX,
        kd.len() == sizes.len(),
        placed.len() == sizes.len(),
        offsets.len() == sizes.len(),
        order.len() == sizes.len(),
        forall|q: int| 0 <= q < kd.len() ==> #[trigger] placed[q] == key_size(kd[kd.len() - 1 - q]),
        forall|q: int| 0 <= q < kd.len() ==> is_field_key(sizes, #[trigger] kd[q]),
        forall|j: int| 0 <= j < sizes.len() ==> key_present(kd, #[trigger] key_of(sizes[j], j)),
        forall|q: int, t: int| 0 <= q < t < kd.len() ==> kd[q] < kd[t],
        forall|q: int|
            0 <= q < order.len() ==> {
                let f = #[trigger] order[q];
                &&& f.index == key_index(kd[kd.len() - 1 - q])
                &&& f.size == key_size(kd[kd.len() - 1 - q])
                &&& f.offset == sum(placed.take(q))
                &&& 0 <= f.index < order.len()
                &&& offsets[f.index as int] == f.offset
            },
    ensures
        order.map_values(|f: Field| f.size) == placed,
        forall|p: int|
            0 <= p < order.len() ==> {
                let f = #[trigger] order[p];
                &&& f.size == sizes[f.index as int]
                &&& f.offset == sum(placed.take(p))
            },
        forall|p: int, q: int|
            0 <= p < q < order.len() ==> precedes(
                sizes,
                #[trigger] order[p].index as int,
                #[trigger] order[q].index as int,
            ),
        forall|i: int| 0 <= i < order.len() ==> #[trigger] has_index(order, i),
{
    let n = kd.len();
    assert(order.map_values(|f: Field| f.size) =~= placed);
    assert forall|q: int| 0 <= q < n implies (#[trigger] order[q]).size == sizes[order[q].index as int] by {
        let j = choose|j: int| 0 <= j < n && kd[n - 1 - q] == key_of(sizes[j], j);
        lemma_key_decode(sizes[j], j);
    }
    assert forall|q: int, t: int| 0 <= q < t < n implies precedes(
        sizes,
        #[trigger] order[q].index as int,
        #[trigger] order[t].index as int,
    ) by {
        let jq = choose|j: int| 0 <= j < n && kd[n - 1 - q] == key_of(sizes[j], j);
        lemma_key_decode(sizes[jq], jq);
        let jt = choose|j: int| 0 <= j < n && kd[n - 1 - t] == key_of(sizes[j], j);
        lemma_key_decode(sizes[jt], jt);
        lemma_key_order(sizes[jt], jt, sizes[jq], jq);
        assert(kd[n - 1 - t] < kd[n - 1 - q]);
    }
    assert forall|i: int| 0 <= i < n implies #[trigger] has_index(order, i) by {
        let pos = choose|pos: int| 0 <= pos < n && kd[pos] == key_of(sizes[i], i);
        lemma_key_decode(sizes[i], i);
        assert(order[n - 1 - pos].index == i);
    }
}

/// Copies `count` bytes from `src` to `dst` within one buffer, last byte
/// first, so that a destination above an overlapping source comes out right.
fn copy_backward(buf: &mut Vec<u8>, src: usize, dst: usize, count: usize)
    requires
        src <= dst,
        dst + count <= old(buf)@.len(),
    ensures
        final(buf)@.len() == old(buf)@.len(),
        final(buf)@.subrange(dst as int, dst + count) == old(buf)@.subrange(src as int, src + count),
        forall|x: int|
            0 <= x < old(buf)@.len() && !(dst <= x < dst + count) ==> final(buf)@[x] == old(buf)@[x],
{
    let ghost orig = buf@;
    let l = buf.len();
    let mut k: usize = count;
    while k > 0
        invariant
            l == orig.len(),
            k <= count,
            src <= dst,
            dst + count <= orig.len(),
            buf@.len() == orig.len(),
            forall|j: int| k <= j < count ==> #[trigger] buf@[dst + j] == orig[src + j],
            forall|x: int| 0 <= x < orig.len() && !(dst + k <= x < dst + count) ==> buf@[x] == orig[x],
        decreases k,
    {
        k -= 1;
        let b = buf[src + k];
        buf.set(dst + k, b);
    }
    assert forall|j: int| 0 <= j < count implies #[trigger] buf@.subrange(dst as int, dst + count)[j]
        == orig.subrange(src as int, src + count)[j] by {
        assert(buf@[dst + j] == orig[src + j]);
    }
    assert(buf@.subrange(dst as int, dst + count) =~= orig.subrange(src as int, src + count));
}

/// A range that lies wholly above `low` is untouched by writes below `low`.
proof fn lemma_kept_above(
    before: Seq<u8>,
    after: Seq<u8>,
    orig: Seq<u8>,
    start: int,
    end: int,
    orig_start: int,
    orig_end: int,
    low: int,
)
    requires
        before.len() == after.len(),
        0 <= low <= start <= end <= before.len(),
        0 <= orig_start <= orig_end <= orig.len(),
        end - start == orig_end - orig_start,
        forall|x: int| low <= x < before.len() ==> after[x] == before[x],
        before.subrange(start, end) == orig.subrange(orig_start, orig_end),
    ensures
        after.subrange(start, end) == orig.subrange(orig_start, orig_end),
{
    assert(after.subrange(start, end) =~= before.subrange(start, end));
}

proof fn lemma_mul_le(c: int, a: int, b: int)
    requires
        0 <= c,
        a <= b,
    ensures
        c * a <= c * b,
{
    assert(c * a <= c * b) by (nonlinear_arith)
        requires
            0 <= c,
            a <= b,
    ;
}

/// Where one column lies before and after a move, for `len <= old <= new`.
proof fn lemma_region_bounds(old: int, new: int, len: int, offset: int, size: int)
    requires
        0 <= len <= old <= new,
        0 <= offset,
        0 <= size,
    ensures
        old * offset + len * size <= old * (offset + size),
        old * (offset + size) <= new * (offset + size),
        new * offset + len * size <= new * (offset + size),
        old * offset <= new * offset,
        0 <= len * size,
{
    assert(old * offset + len * size <= old * (offset + size)) by (nonlinear_arith)
        requires
            0 <= len <= old,
            0 <= size,
    ;
    assert(new * offset + len * size <= new * (offset + size)) by (nonlinear_arith)
        requires
            0 <= len <= new,
            0 <= size,
    ;
    assert(old * (offset + size) <= new * (offset + size)) by (nonlinear_arith)
        requires
            old <= new,
            0 <= offset + size,
    ;
    assert(old * offset <= new * offset) by (nonlinear_arith)
        requires
            old <= new,
            0 <= offset,
    ;
    assert(0 <= len * size) by (nonlinear_arith)
        requires
            0 <= len,
            0 <= size,
    ;
}

/// Prefix sums grow with the prefix.
proof fn lemma_sum_take_mono(s: Seq<usize>, a: int, b: int)
    requires
        0 <= a <= b <= s.len(),
    ensures
        sum(s.take(a)) <= sum(s.take(b)),
    decreases b - a,
{
    if a < b {
        lemma_sum_take_mono(s, a, b - 1);
        assert(s.take(b) =~= s.take(b - 1).push(s[b - 1]));
        lemma_sum_push(s.take(b - 1), s[b - 1]);
    }
}

/// Relies on compile_time_sort::sort_u128_slice: it sorts the slice in place
/// into ascending order, only by swapping its elements.
#[verifier::external_body]
fn sort_keys(keys: &mut Vec<u128>)
    ensures
        final(keys)@.to_multiset() == old(keys)@.to_multiset(),
        forall|i: int, j: int|
            0 <= i < j < final(keys)@.len() ==> final(keys)@[i] <= final(keys)@[j],
{
    compile_time_sort::sort_u128_slice(keys.as_mut_slice());
}

proof fn lemma_key_decode(size: usize, index: int)
    requires
        0 <= index <= INDEX_MASK,
    ensures
        0 <= key_of(size, index) <= u128::MAX,
        key_size(key_of(size, index) as u128) == size,
        key_index(key_of(size, index) as u128) == index,
{
    reveal(key_of);
    reveal(key_size);
    reveal(key_index);
    lemma_fundamental_div_mod_converse(
        key_of(size, index),
        KEY_SHIFT as int,
        size as int,
        INDEX_MASK - index,
    );
}

/// Keys compare as (size, reversed index) pairs.
proof fn lemma_key_order(s1: usize, i1: int, s2: usize, i2: int)
    requires
        0 <= i1 <= INDEX_MASK,
        0 <= i2 <= INDEX_MASK,
    ensures
        key_of(s1, i1) < key_of(s2, i2) <==> (s1 < s2 || (s1 == s2 && i2 < i1)),
        key_of(s1, i1) == key_of(s2, i2) <==> (s1 == s2 && i1 == i2),
{
    reveal(key_of);
}

proof fn lemma_keys_distinct(sizes: Seq<usize>, keys: Seq<u128>)
    requires
        keys.len() == sizes.len(),
        sizes.len() <= usize::MAX,
        forall|j: int| 0 <= j < keys.len() ==> keys[j] == key_of(sizes[j], j),
    ensures
        keys.no_duplicates(),
{
    assert forall|a: int, b: int| 0 <= a < keys.len() && 0 <= b < keys.len() && a != b implies keys[a]
        != keys[b] by {
        lemma_key_order(sizes[a], a, sizes[b], b);
    }
}

/// What sorting the keys gives: each sorted key is the key of one field,
/// each field's key is somewhere, and the keys strictly increase.
proof fn lemma_sorted_keys(sizes: Seq<usize>, unsorted: Seq<u128>, kd: Seq<u128>)
    requires
        unsorted.len() == sizes.len(),
        sizes.len() <= usize::MAX,
        forall|j: int| 0 <= j < unsorted.len() ==> unsorted[j] == key_of(sizes[j], j),
        unsorted.no_duplicates(),
        kd.to_multiset() == unsorted.to_multiset(),
        forall|i: int, j: int| 0 <= i < j < kd.len() ==> kd[i] <= kd[j],
    ensures
        kd.len() == sizes.len(),
        forall|q: int| 0 <= q < kd.len() ==> is_field_key(sizes, #[trigger] kd[q]),
        forall|j: int| 0 <= j < sizes.len() ==> key_present(kd, #[trigger] key_of(sizes[j], j)),
        forall|q: int, t: int| 0 <= q < t < kd.len() ==> kd[q] < kd[t],
{
    broadcast use group_to_multiset_ensures;

    assert(kd.len() == unsorted.len()) by {
        assert(kd.len() == kd.to_multiset().len());
    }
    unsorted.lemma_multiset_has_no_duplicates();
    kd.lemma_multiset_has_no_duplicates_conv();
    assert forall|q: int| 0 <= q < kd.len() implies is_field_key(sizes, #[trigger] kd[q]) by {
        assert(kd.to_multiset().count(kd[q]) > 0);
        assert(unsorted.to_multiset().count(kd[q]) > 0);
        assert(unsorted.contains(kd[q]));
        let i = choose|i: int| 0 <= i < unsorted.len() && unsorted[i] == kd[q];
        assert(kd[q] == key_of(sizes[i], i));
    }
    assert forall|j: int| 0 <= j < sizes.len() implies key_present(
        kd,
        #[trigger] key_of(sizes[j], j),
    ) by {
        assert(unsorted.to_multiset().count(unsorted[j]) > 0);
        assert(kd.to_multiset().count(unsorted[j]) > 0);
        assert(kd.contains(unsorted[j]));
        let q = choose|q: int| 0 <= q < kd.len() && kd[q] == unsorted[j];
        assert(kd[q] == key_of(sizes[j], j));
    }
}

/// The sizes read back in placement order add up to the same total.
proof fn lemma_placed_sum(sizes: Seq<usize>, unsorted: Seq<u128>, kd: Seq<u128>, placed: Seq<usize>)
    requires
        unsorted.len() == sizes.len(),
        kd.len() == sizes.len(),
        sizes.len() <= usize::MAX,
        forall|j: int| 0 <= j < unsorted.len() ==> unsorted[j] == key_of(sizes[j], j),
        kd.to_multiset() == unsorted.to_multiset(),
        forall|q: int| 0 <= q < kd.len() ==> is_field_key(sizes, #[trigger] kd[q]),
        placed == Seq::new(kd.len(), |p: int| key_size(kd[kd.len() - 1 - p]) as usize),
    ensures
        sum(placed) == sum(sizes),
{
    let f = |k: u128| key_size(k) as usize;
    kd.lemma_reverse_to_multiset();
    lemma_sum_same_multiset(kd.reverse(), unsorted, f);
    assert(kd.reverse().map_values(f) =~= placed);
    assert forall|j: int| 0 <= j < sizes.len() implies unsorted.map_values(f)[j] == sizes[j] by {
        lemma_key_decode(sizes[j], j);
    }
    assert(unsorted.map_values(f) =~= sizes);
}

proof fn lemma_sum_push(s: Seq<usize>, x: usize)
    ensures
        sum(s.push(x)) == sum(s) + x,
{
    assert(s.push(x).drop_last() =~= s);
}

/// A sequence that agrees with `s` below `p` and is zero from `p` on adds up
/// to the first `p` elements of `s`.
proof fn lemma_sum_zero_tail(t: Seq<usize>, s: Seq<usize>, p: int)
    requires
        0 <= p <= t.len(),
        p <= s.len(),
        forall|q: int| 0 <= q < t.len() ==> #[trigger] t[q] == (if q < p { s[q] } else { 0usize }),
    ensures
        sum(t) == sum(s.take(p)),
    decreases t.len(),
{
    if t.len() > p {
        lemma_sum_zero_tail(t.drop_last(), s, p);
    } else {
        assert(t =~= s.take(p));
    }
}

proof fn lemma_sum_remove(s: Seq<usize>, k: int)
    requires
        0 <= k < s.len(),
    ensures
        sum(s) == sum(s.remove(k)) + s[k],
    decreases s.len(),
{
    if k == s.len() - 1 {
        assert(s.remove(k) =~= s.drop_last());
    } else {
        lemma_sum_remove(s.drop_last(), k);
        assert(s.remove(k).drop_last() =~= s.drop_last().remove(k));
    }
}

proof fn lemma_sum_same_multiset<A>(a: Seq<A>, b: Seq<A>, f: spec_fn(A) -> usize)
    requires
        a.to_multiset() == b.to_multiset(),
    ensures
        sum(a.map_values(f)) == sum(b.map_values(f)),
    decreases a.len(),
{
    broadcast use group_to_multiset_ensures;

    if a.len() == 0 {
        assert(b.len() == b.to_multiset().len());
        assert(a.map_values(f) =~= Seq::<usize>::empty());
        assert(b.map_values(f) =~= Seq::<usize>::empty());
    } else {
        let x = a.last();
        let a2 = a.drop_last();
        assert(a2.push(x) =~= a);
        assert(a.to_multiset().count(x) > 0);
        assert(b.contains(x));
        let k = choose|k: int| 0 <= k < b.len() && b[k] == x;
        let b2 = b.remove(k);
        assert(b2.to_multiset() =~= a2.to_multiset());
        lemma_sum_same_multiset(a2, b2, f);
        assert(a.map_values(f).drop_last() =~= a2.map_values(f));
        assert(b2.map_values(f) =~= b.map_values(f).remove(k));
        lemma_sum_remove(b.map_values(f), k);
    }
}

/// A prefix never adds up to more than the whole.
pub proof fn lemma_sum_take_le(s: Seq<usize>, k: int)
    requires
        0 <= k <= s.len(),
    ensures
        sum(s.take(k)) <= sum(s),
    decreases s.len() - k,
{
    if k < s.len() {
        lemma_sum_take_le(s, k + 1);
        assert(s.take(k + 1).drop_last() =~= s.take(k));
    } else {
        assert(s.take(k) =~= s);
    }
}

} // verus!
