use strided::index_tricks::{
    compute_strides, is_contiguous, product_of, ravel_index, shape_from_bounds, unravel_index,
};
use strided::{Array, Error, Field, Range, Reshape, Slice, View, Zeros};

fn range(start: Vec<usize>, stop: Vec<usize>, step: Vec<usize>) -> Range {
    Range { start, stop, step }
}

fn filled(shape: Vec<usize>) -> Array<i64> {
    let mut a: Array<i64> = Array::zeros(&shape);
    let n = a.data.len();
    for f in 0..n {
        let coord = unravel_index(f, &a.strides);
        a.index_mut(&coord, f as i64);
    }
    a
}

#[test]
fn strides_of_3_4_5() {
    assert_eq!(compute_strides(&vec![3, 4, 5]), vec![20, 5, 1]);
    assert_eq!(compute_strides(&vec![7]), vec![1]);
}

#[test]
fn product_of_extents() {
    assert_eq!(product_of(&vec![3, 4, 5]), 60);
    assert_eq!(product_of(&vec![]), 1);
}

#[test]
fn unravel_example() {
    assert_eq!(unravel_index(37, &vec![20, 5, 1]), vec![1, 3, 2]);
}

#[test]
fn ravel_example() {
    assert_eq!(ravel_index(&vec![1, 3, 2], &vec![20, 5, 1]), 37);
}

#[test]
fn ravel_unravel_round_trip() {
    let strides = compute_strides(&vec![3, 4, 5]);
    for f in 0..60 {
        let coord = unravel_index(f, &strides);
        assert_eq!(ravel_index(&coord, &strides), f);
    }
    let strides1 = compute_strides(&vec![7]);
    for f in 0..7 {
        assert_eq!(ravel_index(&unravel_index(f, &strides1), &strides1), f);
    }
}

#[test]
fn shape_from_bounds_subtracts() {
    assert_eq!(shape_from_bounds(&vec![1, 2, 3], &vec![5, 7, 9]), vec![4, 5, 6]);
}

#[test]
fn range_cardinality_and_order() {
    let r = range(vec![1, 2, 3], vec![5, 7, 9], vec![1, 2, 1]);
    let mut it = r.into_iter();
    let mut coords = Vec::new();
    while let Some(c) = it.next() {
        coords.push(c);
    }
    assert_eq!(coords.len(), 72);
    assert_eq!(coords[0], vec![1, 2, 3]);
    assert_eq!(coords[1], vec![1, 2, 4]);
    let pos = coords.iter().position(|c| c == &vec![1, 2, 8]).unwrap();
    assert_eq!(coords[pos + 1], vec![1, 4, 3]);
}

#[test]
fn iterator_stays_exhausted() {
    let r = range(vec![0], vec![2], vec![1]);
    let mut it = r.into_iter();
    assert_eq!(it.next(), Some(vec![0]));
    assert_eq!(it.next(), Some(vec![1]));
    assert_eq!(it.next(), None);
    assert_eq!(it.next(), None);
}

#[test]
fn zeros_3_4_5() {
    let a: Array<i64> = Array::zeros(&vec![3, 4, 5]);
    assert_eq!(a.shape, vec![3, 4, 5]);
    assert_eq!(a.strides, vec![20, 5, 1]);
    assert_eq!(a.data.len(), 60);
    assert!(a.data.iter().all(|x| *x == 0));
}

#[test]
fn index_reads_what_index_mut_wrote() {
    let mut a: Array<i64> = Array::zeros(&vec![2, 3]);
    a.index_mut(&vec![1, 2], 42);
    assert_eq!(a.index(&vec![1, 2]), 42);
    assert_eq!(a.index(&vec![0, 0]), 0);
}

#[test]
fn full_extent_view_matches_source() {
    let a = filled(vec![2, 3]);
    let r = range(vec![0, 0], vec![2, 3], vec![1, 1]);
    let v = a.view(&r).unwrap();
    assert_eq!(v.shape, a.shape);
    assert_eq!(v.strides, a.strides);
    assert_eq!(v.data, &a.data[..]);
}

#[test]
fn view_with_step_two_fails() {
    let a = filled(vec![2, 3]);
    let r = range(vec![0, 0], vec![2, 3], vec![1, 2]);
    assert!(matches!(a.view(&r), Err(Error::MemoryError(_))));
    let b = filled(vec![6]);
    let r1 = range(vec![0], vec![6], vec![2]);
    assert!(matches!(b.view(&r1), Err(Error::MemoryError(_))));
}

#[test]
fn view_run_within_one_row() {
    let a = filled(vec![3, 4, 5]);
    let r = range(vec![1, 2, 0], vec![2, 3, 5], vec![1, 1, 1]);
    let v = a.view(&r).unwrap();
    assert_eq!(v.shape, vec![1, 1, 5]);
    assert_eq!(v.data, &[30, 31, 32, 33, 34]);
}

#[test]
fn view_whole_outer_slabs() {
    let a = filled(vec![3, 4, 5]);
    let r = range(vec![1, 0, 0], vec![3, 4, 5], vec![1, 1, 1]);
    let v = a.view(&r).unwrap();
    assert_eq!(v.shape, vec![2, 4, 5]);
    assert_eq!(v.data.len(), 40);
    assert_eq!(v.data[0], 20);
    assert_eq!(v.data[39], 59);
}

#[test]
fn view_partial_middle_axis_fails() {
    let a = filled(vec![3, 4, 5]);
    let r = range(vec![0, 0, 0], vec![3, 2, 5], vec![1, 1, 1]);
    assert!(matches!(a.view(&r), Err(Error::MemoryError(_))));
}

#[test]
fn view_strided_outer_selection_fails() {
    // two single elements twenty offsets apart are not one unbroken run
    let a = filled(vec![3, 4, 5]);
    let r = range(vec![0, 0, 0], vec![2, 1, 1], vec![1, 1, 1]);
    assert!(matches!(a.view(&r), Err(Error::MemoryError(_))));
}

#[test]
fn view_of_view() {
    let a = filled(vec![3, 4, 5]);
    let outer = range(vec![1, 0, 0], vec![3, 4, 5], vec![1, 1, 1]);
    let v = a.view(&outer).unwrap();
    let inner = range(vec![1, 0, 0], vec![2, 4, 5], vec![1, 1, 1]);
    let w = v.view(&inner).unwrap();
    assert_eq!(w.shape, vec![1, 4, 5]);
    assert_eq!(w.data[0], 40);
    assert_eq!(w.data[19], 59);
}

#[test]
fn is_contiguous_general_rule() {
    let shape = vec![3, 4, 5];
    let full = range(vec![0, 0, 0], vec![3, 4, 5], vec![1, 1, 1]);
    assert!(is_contiguous(&full, &shape));
    let one_row = range(vec![2, 3, 1], vec![3, 4, 4], vec![1, 1, 1]);
    assert!(is_contiguous(&one_row, &shape));
    let trailing_all_rows = range(vec![0, 0, 0], vec![3, 4, 2], vec![1, 1, 1]);
    assert!(!is_contiguous(&trailing_all_rows, &shape));
    let stepped = range(vec![0, 0, 0], vec![3, 4, 5], vec![1, 1, 2]);
    assert!(!is_contiguous(&stepped, &shape));
}

#[test]
fn reshape_preserves_flat_order() {
    let a = filled(vec![3, 4, 5]);
    let flat = a.reshape(&vec![60]).unwrap();
    assert_eq!(flat.shape, vec![60]);
    assert_eq!(flat.strides, vec![1]);
    for f in 0..60 {
        assert_eq!(flat.data[f], f as i64);
    }
}

#[test]
fn reshape_wrong_counts_fail() {
    let a = filled(vec![3, 4, 5]);
    assert!(matches!(a.reshape(&vec![59]), Err(Error::DimensionError(_))));
    let b = filled(vec![3, 4, 5]);
    assert!(matches!(b.reshape(&vec![61]), Err(Error::DimensionError(_))));
}

#[test]
fn reshape_view_rewindows() {
    let a = filled(vec![2, 3]);
    let r = range(vec![0, 0], vec![2, 3], vec![1, 1]);
    let v = a.view(&r).unwrap();
    let w = v.reshape(&vec![6]).unwrap();
    assert_eq!(w.shape, vec![6]);
    assert_eq!(w.data, &[0, 1, 2, 3, 4, 5]);
}

#[test]
fn slice_output_size_is_boxed_extent() {
    let a = filled(vec![3, 4]);
    let r = range(vec![0, 0], vec![3, 4], vec![1, 2]);
    let s = a.slice(&r);
    assert_eq!(s.shape, vec![3, 4]);
    assert_eq!(s.data.len(), 12);
}

#[test]
fn slice_fills_in_emission_order() {
    let a = filled(vec![3, 4]);
    let r = range(vec![0, 0], vec![3, 4], vec![1, 2]);
    let s = a.slice(&r);
    assert_eq!(&s.data[..6], &[0, 2, 4, 6, 8, 10]);
    assert!(s.data[6..].iter().all(|x| *x == 0));
}

#[test]
fn slice_with_unit_steps_copies_everything() {
    let a = filled(vec![2, 3]);
    let r = range(vec![0, 0], vec![2, 3], vec![1, 1]);
    let s = a.slice(&r);
    assert_eq!(&s.data[..], &[0, 1, 2, 3, 4, 5]);
}

#[test]
fn slice_of_sub_region() {
    let a = filled(vec![3, 4]);
    let r = range(vec![1, 1], vec![3, 3], vec![1, 1]);
    let s = a.slice(&r);
    assert_eq!(s.shape, vec![2, 2]);
    assert_eq!(&s.data[..], &[5, 6, 9, 10]);
}

#[test]
fn zeros_with_zero_axis() {
    let a: Array<i64> = Array::zeros(&vec![0, 3]);
    assert_eq!(a.strides, vec![3, 1]);
    assert_eq!(a.data.len(), 0);
    let flat = a.reshape(&vec![0]).unwrap();
    assert_eq!(flat.shape, vec![0]);
}

#[test]
fn slice_of_empty_primary_axis() {
    let a = filled(vec![2, 3]);
    let r = range(vec![0, 0], vec![0, 3], vec![1, 1]);
    let s = a.slice(&r);
    assert_eq!(s.shape, vec![0, 3]);
    assert_eq!(s.data.len(), 0);
}

#[test]
fn element_texts() {
    assert_eq!((0i64).to_text(), "0");
    assert_eq!((5i64).to_text(), "5");
    assert_eq!((-12i64).to_text(), "-12");
    assert_eq!((9007u64).to_text(), "9007");
}

#[test]
fn zeros_of_u64() {
    let a: Array<u64> = Array::zeros(&vec![2, 2]);
    assert!(a.data.iter().all(|x| *x == 0));
}

#[test]
fn render_two_by_three() {
    let a = filled(vec![2, 3]);
    let r = range(vec![0, 0], vec![2, 3], vec![1, 1]);
    let v = a.view(&r).unwrap();
    assert_eq!(v.render(), "[\n [0, 1, 2]\n [3, 4, 5]\n]\n");
}

#[test]
fn render_one_dimension() {
    let mut a: Array<i64> = Array::zeros(&vec![2]);
    a.index_mut(&vec![0], -5);
    a.index_mut(&vec![1], 7);
    let r = range(vec![0], vec![2], vec![1]);
    let v = a.view(&r).unwrap();
    assert_eq!(v.render(), "[-5, 7]");
}

#[test]
fn render_three_levels() {
    let a = filled(vec![2, 1, 2]);
    let r = range(vec![0, 0, 0], vec![2, 1, 2], vec![1, 1, 1]);
    let v = a.view(&r).unwrap();
    assert_eq!(v.render(), "[\n [\n  [0, 1]\n ]\n\n [\n  [2, 3]\n ]\n\n]\n");
}

#[test]
fn error_messages_describe_the_failure() {
    let a = filled(vec![2, 3]);
    let stepped = range(vec![0, 0], vec![2, 3], vec![2, 1]);
    match a.view(&stepped) {
        Err(e) => {
            assert!(e.message().contains("contiguous"));
            assert!(e.message().contains("[2, 3]"));
            assert!(e.message().contains("[2, 1]"));
        }
        Ok(_) => panic!("a stepped view must fail"),
    }
    let b = filled(vec![2, 3]);
    match b.reshape(&vec![7]) {
        Err(e) => {
            assert!(e.message().contains("element counts"));
            assert!(e.message().contains("[2, 3]"));
            assert!(e.message().contains("[7]"));
        }
        Ok(_) => panic!("a size-changing reshape must fail"),
    }
}
