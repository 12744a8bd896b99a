use colvec::{
    ColVec, Fields, RawColVec, StructInfo, Test, TestColVec, TryReserveError, TryReserveErrorKind,
};

fn u64_column(bytes: &[u8]) -> Vec<u64> {
    bytes
        .chunks(8)
        .map(|c| u64::from_le_bytes([c[0], c[1], c[2], c[3], c[4], c[5], c[6], c[7]]))
        .collect()
}

fn bug(is_red: bool, coolness: u64) -> Vec<Vec<u8>> {
    vec![vec![is_red as u8], coolness.to_le_bytes().to_vec()]
}

fn bug_info() -> StructInfo {
    StructInfo::new(Fields::from_sizes([1, 8]), 8)
}

#[test]
fn test_fields() {
    let f = Fields::from_sizes([4, 2, 3, 1]);
    assert_eq!(f.offset_of(0), 0); // field0 size is 4 and offset is 0
    assert_eq!(f.offset_of(1), 4 + 3); // field1 size is 2 and offset is 4+3
    assert_eq!(f.offset_of(2), 4); // field2 size is 3 and offset is 4
    assert_eq!(f.offset_of(3), 4 + 3 + 2); // field3 size is 1 and offset is 4+3+2
}

#[test]
fn it_works() {
    const LEN: usize = 9;
    let mut test = TestColVec::new();
    for _ in 0..LEN {
        test.push(Test {
            field0: 0,
            field1: Some(1),
            field2: 2,
            field3: 3,
        });
    }

    let _0: Vec<_> = core::iter::repeat_n(0, LEN).collect();
    let _1: Vec<_> = core::iter::repeat_n(Some(1), LEN).collect();
    let _2: Vec<_> = core::iter::repeat_n(2, LEN).collect();
    let _3: Vec<_> = core::iter::repeat_n(3, LEN).collect();
    assert_eq!(_0, test.field0_slice());
    assert_eq!(_1, test.field1_slice());
    assert_eq!(_2, test.field2_slice());
    assert_eq!(_3, test.field3_slice());
}

#[test]
fn test_zst() {
    let mut test = ColVec::new(StructInfo::new(Fields::from_sizes([]), 1));
    test.push(&vec![]);
    test.push(&vec![]);

    assert_eq!(2, test.len());
}

#[test]
fn test_append() {
    let mut bugs = ColVec::with_capacity(2, bug_info());
    bugs.push(&bug(false, 1));

    let mut cool_bugs = ColVec::with_capacity(1, bug_info());
    cool_bugs.push(&bug(true, 1337));

    bugs.append(&mut cool_bugs);

    assert_eq!(&[0u8, 1], bugs.field_view(0));
    assert_eq!(vec![1u64, 1337], u64_column(bugs.field_view(1)));
}

#[test]
fn layout_of_sizes_1_4_2_4() {
    let f = Fields::from_sizes([1, 4, 2, 4]);
    // the two fields of 4 bytes first, by index, then the 2-byte, then the 1-byte
    assert_eq!(f.offset_of(1), 0);
    assert_eq!(f.offset_of(3), 4);
    assert_eq!(f.offset_of(2), 8);
    assert_eq!(f.offset_of(0), 10);
    assert_eq!(f.size(), 11);
    assert_eq!(f.field_count(), 4);
    assert_eq!(f.field_size(3), 4);
}

#[test]
fn layout_offsets_end_within_footprint() {
    let sizes = [3usize, 0, 7, 7, 1, 2];
    let f = Fields::from_sizes(sizes);
    assert_eq!(f.size(), 20);
    for i in 0..sizes.len() {
        assert!(f.offset_of(i) + sizes[i] <= f.size());
    }
    // largest first, ties by index: 2, 3, 0, 5, 4, 1
    assert_eq!(f.offset_of(2), 0);
    assert_eq!(f.offset_of(3), 7);
    assert_eq!(f.offset_of(0), 14);
    assert_eq!(f.offset_of(5), 17);
    assert_eq!(f.offset_of(4), 19);
    assert_eq!(f.offset_of(1), 20);
}

#[test]
fn layout_of_no_fields() {
    let f = Fields::from_sizes([]);
    assert_eq!(f.size(), 0);
    assert_eq!(f.field_count(), 0);
}

#[test]
fn push_nine_records_of_four_fields() {
    let mut test = TestColVec::new();
    assert_eq!(test.capacity(), 0);
    for _ in 0..9 {
        test.push(Test {
            field0: 1,
            field1: Some(2),
            field2: 3,
            field3: 4,
        });
    }
    assert_eq!(test.len(), 9);
    assert_eq!(vec![1u8; 9], test.field0_slice());
    assert_eq!(vec![Some(2u8); 9], test.field1_slice());
    assert_eq!(vec![3i16; 9], test.field2_slice());
    assert_eq!(vec![4u32; 9], test.field3_slice());
    // 4 at first (elements of 9 bytes), then doubled twice
    assert_eq!(test.capacity(), 16);
}

#[test]
fn growth_keeps_every_value() {
    let mut test = TestColVec::new();
    let mut caps = vec![];
    for k in 0..40u32 {
        test.push(Test {
            field0: k as u8,
            field1: if k % 3 == 0 { None } else { Some(k as u8 + 100) },
            field2: -(k as i16) * 300,
            field3: k * 100_000 + 7,
        });
        assert_eq!(test.len(), k as usize + 1);
        if caps.last() != Some(&test.capacity()) {
            caps.push(test.capacity());
        }
    }
    assert_eq!(caps, vec![4, 8, 16, 32, 64]);
    let f0: Vec<u8> = (0..40u32).map(|k| k as u8).collect();
    let f1: Vec<Option<u8>> = (0..40u32)
        .map(|k| if k % 3 == 0 { None } else { Some(k as u8 + 100) })
        .collect();
    let f2: Vec<i16> = (0..40u32).map(|k| -(k as i16) * 300).collect();
    let f3: Vec<u32> = (0..40u32).map(|k| k * 100_000 + 7).collect();
    assert_eq!(f0, test.field0_slice());
    assert_eq!(f1, test.field1_slice());
    assert_eq!(f2, test.field2_slice());
    assert_eq!(f3, test.field3_slice());
}

#[test]
fn extreme_field_values_survive() {
    let mut test = TestColVec::new();
    test.push(Test {
        field0: 255,
        field1: Some(0),
        field2: i16::MIN,
        field3: u32::MAX,
    });
    test.push(Test {
        field0: 0,
        field1: None,
        field2: i16::MAX,
        field3: 0x0102_0304,
    });
    assert_eq!(vec![255u8, 0], test.field0_slice());
    assert_eq!(vec![Some(0u8), None], test.field1_slice());
    assert_eq!(vec![i16::MIN, i16::MAX], test.field2_slice());
    assert_eq!(vec![u32::MAX, 0x0102_0304], test.field3_slice());
}

#[test]
fn zero_field_records_never_allocate() {
    let mut test = ColVec::new(StructInfo::new(Fields::from_sizes([]), 1));
    for _ in 0..9 {
        test.push(&vec![]);
    }
    assert_eq!(test.len(), 9);
    assert_eq!(test.capacity(), usize::MAX);
    assert!(test.raw_ref().ptr().is_empty());
}

#[test]
fn zero_sized_fields_never_allocate() {
    let mut test = ColVec::new(StructInfo::new(Fields::from_sizes([0, 0]), 1));
    for _ in 0..5 {
        test.push(&vec![vec![], vec![]]);
    }
    assert_eq!(test.len(), 5);
    assert_eq!(test.capacity(), usize::MAX);
    assert!(test.field_view(1).is_empty());
    assert!(test.raw_ref().ptr().is_empty());
}

#[test]
fn append_concatenates_columns() {
    let mut a = ColVec::new(bug_info());
    let mut b = ColVec::with_capacity(8, bug_info());
    for k in 0..5u64 {
        a.push(&bug(k % 2 == 0, k));
    }
    for k in 0..6u64 {
        b.push(&bug(true, 1000 + k));
    }
    let b_cap = b.capacity();
    a.append(&mut b);
    assert_eq!(a.len(), 11);
    assert_eq!(b.len(), 0);
    assert_eq!(b.capacity(), b_cap);
    assert_eq!(&[1u8, 0, 1, 0, 1, 1, 1, 1, 1, 1, 1], a.field_view(0));
    assert_eq!(
        vec![0u64, 1, 2, 3, 4, 1000, 1001, 1002, 1003, 1004, 1005],
        u64_column(a.field_view(1))
    );
    assert!(b.field_view(0).is_empty());
}

#[test]
fn with_capacity_rounds_to_alignment() {
    let v = ColVec::with_capacity(3, bug_info());
    assert_eq!(v.capacity(), 8);
    let raw = RawColVec::with_capacity_in(5, StructInfo::new(Fields::from_sizes([1, 2, 2, 4]), 4));
    assert_eq!(raw.capacity(), 8);
    assert_eq!(raw.ptr().len(), 8 * 9);
    let empty = RawColVec::with_capacity_in(0, bug_info());
    assert_eq!(empty.capacity(), 0);
    assert!(empty.ptr().is_empty());
}

#[test]
fn reserve_picks_the_amortized_capacity() {
    let info = StructInfo::new(Fields::from_sizes([1, 2, 2, 4]), 4);
    let mut raw = RawColVec::new_in(info);
    assert_eq!(raw.capacity(), 0);
    raw.reserve(0, 5);
    // max(2 * 0, 5), at least 4, rounded up to a multiple of 4
    assert_eq!(raw.capacity(), 8);
    raw.reserve(3, 5);
    assert_eq!(raw.capacity(), 8);
    raw.reserve(8, 1);
    assert_eq!(raw.capacity(), 16);
    raw.grow_one();
    assert_eq!(raw.capacity(), 32);
}

#[test]
fn single_byte_records_start_at_eight() {
    let mut raw = RawColVec::new_in(StructInfo::new(Fields::from_sizes([1]), 1));
    raw.grow_one();
    assert_eq!(raw.capacity(), 8);
    let mut big = RawColVec::new_in(StructInfo::new(Fields::from_sizes([2000]), 8));
    big.grow_one();
    assert_eq!(big.capacity(), 8);
    let mut odd = RawColVec::new_in(StructInfo::new(Fields::from_sizes([2000]), 1));
    odd.grow_one();
    assert_eq!(odd.capacity(), 1);
}

#[test]
fn try_reserve_reports_capacity_overflow() {
    let mut raw = RawColVec::new_in(bug_info());
    let r = raw.try_reserve(0, usize::MAX);
    assert_eq!(
        r,
        Err(TryReserveError {
            kind: TryReserveErrorKind::CapacityOverflow
        })
    );
    assert_eq!(r.unwrap_err().kind(), TryReserveErrorKind::CapacityOverflow);
    assert_eq!(raw.capacity(), 0);
    assert_eq!(raw.try_reserve(0, 3), Ok(()));
    assert_eq!(raw.capacity(), 8);
    assert_eq!(raw.try_reserve(2, 6), Ok(()));
    assert_eq!(raw.capacity(), 8);
}

#[test]
fn try_reserve_on_zero_sized_records() {
    let mut raw = RawColVec::new_in(StructInfo::new(Fields::from_sizes([]), 1));
    assert_eq!(raw.try_reserve(5, 1000), Ok(()));
    assert_eq!(
        raw.try_reserve(usize::MAX, 1),
        Err(TryReserveError::from(TryReserveErrorKind::CapacityOverflow))
    );
}

#[test]
fn move_fields_relocates_columns() {
    let f = Fields::from_sizes([1, 2]);
    // capacity 2: field 1 at bytes 0..4, field 0 at bytes 4..6
    let mut buf = vec![10u8, 11, 12, 13, 20, 21, 0, 0, 0, 0, 0, 0];
    f.move_fields(&mut buf, 2, 4, 2);
    // capacity 4: field 1 at bytes 0..8, field 0 at bytes 8..12
    assert_eq!(&buf[0..4], &[10, 11, 12, 13]);
    assert_eq!(&buf[8..10], &[20, 21]);
}

#[test]
fn col_slice_shows_live_records() {
    let mut v = ColVec::new(bug_info());
    v.push(&bug(true, 5));
    v.push(&bug(false, 6));
    let s = v.as_col_slice();
    assert_eq!(s.len(), 2);
    assert_eq!(s.field(0), &[1u8, 0]);
    assert_eq!(u64_column(s.field(1)), vec![5u64, 6]);
}

#[test]
fn struct_info_describes_the_record() {
    let info = StructInfo::new(Fields::from_sizes([1, 2, 2, 4]), 4);
    assert_eq!(info.size(), 9);
    assert_eq!(info.align(), 4);
    assert_eq!(info.fields().offset_of(3), 0);
}

#[test]
fn collection_try_reserve() {
    let mut v = ColVec::new(bug_info());
    v.push(&bug(true, 9));
    assert_eq!(
        v.try_reserve(usize::MAX).unwrap_err().kind(),
        TryReserveErrorKind::CapacityOverflow
    );
    assert_eq!(v.len(), 1);
    assert_eq!(v.try_reserve(10), Ok(()));
    // max(2 * 8, 1 + 10) = 16, already a multiple of 8
    assert_eq!(v.capacity(), 16);
    assert_eq!(v.len(), 1);
    assert_eq!(&[1u8], v.field_view(0));
    assert_eq!(vec![9u64], u64_column(v.field_view(1)));
}

#[test]
fn collection_reserve_keeps_records() {
    let mut v = ColVec::new(bug_info());
    v.push(&bug(false, 3));
    v.push(&bug(true, 4));
    v.reserve(100);
    assert!(v.capacity() >= 102);
    assert_eq!(&[0u8, 1], v.field_view(0));
    assert_eq!(vec![3u64, 4], u64_column(v.field_view(1)));
}

fn i32_column(bytes: &[u8]) -> Vec<i32> {
    bytes
        .chunks(4)
        .map(|c| i32::from_le_bytes([c[0], c[1], c[2], c[3]]))
        .collect()
}

#[test]
fn smoke_test_macro() {
    // a record of a u8 and an i32, aligned to 4
    let info = StructInfo::new(Fields::from_sizes([1, 4]), 4);
    let mut test = ColVec::new(info);
    test.push(&vec![vec![255u8], (-1i32).to_le_bytes().to_vec()]);
    test.push(&vec![vec![1u8], (-2i32).to_le_bytes().to_vec()]);

    let mut field0 = test.field_view(0).to_vec();
    field0.sort();
    for (j, v) in field0.iter().enumerate() {
        test.set_element(0, j, &[*v]);
    }
    let mut field1 = i32_column(test.field_view(1));
    field1.sort();
    for (j, v) in field1.iter().enumerate() {
        test.set_element(1, j, &v.to_le_bytes());
    }

    assert_eq!(&[1, 255], test.field_view(0));
    assert_eq!(vec![-2, -1], i32_column(test.field_view(1)));
}

#[test]
fn set_element_changes_one_element() {
    let mut v = ColVec::new(bug_info());
    for k in 0..5u64 {
        v.push(&bug(false, k));
    }
    v.set_element(1, 3, &77u64.to_le_bytes());
    v.set_element(0, 0, &[1]);
    assert_eq!(vec![0u64, 1, 2, 77, 4], u64_column(v.field_view(1)));
    assert_eq!(&[1u8, 0, 0, 0, 0], v.field_view(0));
    assert_eq!(v.len(), 5);
}

#[test]
fn copy_from_takes_every_record() {
    let mut a = ColVec::with_capacity(16, bug_info());
    let mut b = ColVec::new(bug_info());
    for k in 0..3u64 {
        a.push(&bug(false, k));
        b.push(&bug(true, 50 + k));
    }
    let cap = a.capacity();
    a.copy_from(&b);
    assert_eq!(a.capacity(), cap);
    assert_eq!(&[1u8, 1, 1], a.field_view(0));
    assert_eq!(vec![50u64, 51, 52], u64_column(a.field_view(1)));
    assert_eq!(vec![50u64, 51, 52], u64_column(b.field_view(1)));
}

#[test]
fn set_overwrites_one_record() {
    let mut t = TestColVec::new();
    for k in 0..6u8 {
        t.push(Test {
            field0: k,
            field1: None,
            field2: -1,
            field3: k as u32,
        });
    }
    t.set(
        4,
        Test {
            field0: 200,
            field1: Some(9),
            field2: 12345,
            field3: 0xdead_beef,
        },
    );
    assert_eq!(vec![0u8, 1, 2, 3, 200, 5], t.field0_slice());
    assert_eq!(vec![None, None, None, None, Some(9u8), None], t.field1_slice());
    assert_eq!(vec![-1i16, -1, -1, -1, 12345, -1], t.field2_slice());
    assert_eq!(vec![0u32, 1, 2, 3, 0xdead_beef, 5], t.field3_slice());
    assert_eq!(t.capacity(), 8);
}
