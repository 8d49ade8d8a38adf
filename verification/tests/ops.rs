use dyadic::array::Array;
use dyadic::reshape::DimSpec;
use dyadic::dispatch::{coerce_pair, coerce_to_boxes_pair, Coercion, ElemType};
use dyadic::ArrayError;

fn list(v: Vec<i64>) -> Array {
    Array::from_list(v)
}

#[test]
fn reshape_three_by_four() {
    let mut a = list((0..12).collect());
    a.reshape(&[DimSpec::Fixed(3), DimSpec::Fixed(4)], None).unwrap();
    assert_eq!(a.shape_vec(), vec![3, 4]);
    let d = a.data_vec();
    for i in 0..3 {
        for t in 0..4 {
            assert_eq!(d[4 * i + t], (4 * i + t) as i64);
        }
    }
}

#[test]
fn reshape_round_trip_keeps_data() {
    let mut a = list(vec![9, 8, 7, 6, 5, 4]);
    a.reshape(&[DimSpec::Fixed(2), DimSpec::Fixed(3)], None).unwrap();
    a.undo_reshape(&[6]).unwrap();
    assert_eq!(a.shape_vec(), vec![6]);
    assert_eq!(a.data_vec(), vec![9, 8, 7, 6, 5, 4]);
}

#[test]
fn reshape_placeholder_derives_axis() {
    let mut a = list((0..12).collect());
    a.reshape(&[DimSpec::Fixed(3), DimSpec::Derive(false)], None).unwrap();
    assert_eq!(a.shape_vec(), vec![3, 4]);
}

#[test]
fn reshape_two_placeholders_ambiguous() {
    let mut a = list((0..12).collect());
    let r = a.reshape(&[DimSpec::Derive(false), DimSpec::Derive(false)], None);
    assert_eq!(r, Err(ArrayError::AmbiguousShape));
}

#[test]
fn reshape_zero_other_dimension() {
    let mut a = list((0..12).collect());
    let r = a.reshape(&[DimSpec::Derive(false), DimSpec::Fixed(0)], None);
    assert_eq!(r, Err(ArrayError::ZeroOrNegativeDimension));
}

#[test]
fn reshape_negative_axis_reverses() {
    let mut a = list(vec![1, 2, 3]);
    a.reshape(&[DimSpec::Fixed(-3)], None).unwrap();
    assert_eq!(a.shape_vec(), vec![3]);
    assert_eq!(a.data_vec(), vec![3, 2, 1]);
}

#[test]
fn reshape_extends_cyclically_without_fill() {
    let mut a = list(vec![1, 2, 3]);
    a.reshape(&[DimSpec::Fixed(2), DimSpec::Fixed(3)], None).unwrap();
    assert_eq!(a.data_vec(), vec![1, 2, 3, 1, 2, 3]);
}

#[test]
fn reshape_extends_with_fill() {
    let mut a = list(vec![1, 2, 3]);
    a.reshape(&[DimSpec::Fixed(5)], Some(0)).unwrap();
    assert_eq!(a.data_vec(), vec![1, 2, 3, 0, 0]);
}

#[test]
fn undo_reshape_wrong_count() {
    let mut a = list(vec![1, 2, 3]);
    assert_eq!(a.undo_reshape(&[2, 2]), Err(ArrayError::ShapeMismatch));
}

#[test]
fn rerank_round_trip() {
    let mut a = list((0..6).collect());
    a.reshape(&[DimSpec::Fixed(2), DimSpec::Fixed(3)], None).unwrap();
    a.rerank(0).unwrap();
    assert_eq!(a.shape_vec(), vec![6]);
    a.undo_rerank(0, &[2, 3]).unwrap();
    assert_eq!(a.shape_vec(), vec![2, 3]);
    assert_eq!(a.data_vec(), (0..6).collect::<Vec<i64>>());
}

#[test]
fn rerank_negative_too_deep() {
    let mut a = list(vec![1, 2]);
    assert_eq!(a.rerank(-2), Err(ArrayError::RankMismatch));
}

#[test]
fn undo_rerank_count_mismatch_is_noop() {
    let mut a = list(vec![1, 2, 3, 4]);
    a.undo_rerank(1, &[5, 5]).unwrap();
    assert_eq!(a.shape_vec(), vec![4]);
}

#[test]
fn keep_two_zero_one() {
    let a = list(vec![10, 20, 30]);
    let r = a.keep_list(&[2, 0, 1], None).unwrap();
    assert_eq!(r.shape_vec(), vec![3]);
    assert_eq!(r.data_vec(), vec![10, 10, 30]);
}

#[test]
fn keep_rows_of_matrix() {
    let mut a = list(vec![1, 2, 3, 4]);
    a.reshape(&[DimSpec::Fixed(2), DimSpec::Fixed(2)], None).unwrap();
    let r = a.keep_list(&[0, 2], None).unwrap();
    assert_eq!(r.shape_vec(), vec![2, 2]);
    assert_eq!(r.data_vec(), vec![3, 4, 3, 4]);
}

#[test]
fn keep_all_ones_is_identity() {
    let a = list(vec![4, 5, 6]);
    let r = a.keep_list(&[1, 1, 1], None).unwrap();
    assert_eq!(r.shape_vec(), vec![3]);
    assert_eq!(r.data_vec(), vec![4, 5, 6]);
}

#[test]
fn keep_negative_count_invalid() {
    let a = list(vec![1, 2]);
    assert_eq!(a.keep_list(&[1, -1], None).unwrap_err(), ArrayError::InvalidKeep);
}

#[test]
fn keep_empty_counts_without_fill() {
    let a = list(vec![1, 2]);
    assert_eq!(a.keep_list(&[], None).unwrap_err(), ArrayError::LengthMismatch);
}

#[test]
fn keep_short_counts_cycle() {
    let a = list(vec![1, 2, 3, 4]);
    let r = a.keep_list(&[1, 0], None).unwrap();
    assert_eq!(r.data_vec(), vec![1, 3]);
}

#[test]
fn keep_scalar_integer_replicates() {
    let a = list(vec![7, 8]);
    let r = a.keep_scalar_integer(2).unwrap();
    assert_eq!(r.shape_vec(), vec![4]);
    assert_eq!(r.data_vec(), vec![7, 7, 8, 8]);
}

#[test]
fn unkeep_compresses_runs() {
    let a = list(vec![5, 5, 7, 7, 7, 2]);
    let (counts, comp) = a.unkeep().unwrap();
    assert_eq!(counts.data_vec(), vec![2, 3, 1]);
    assert_eq!(comp.data_vec(), vec![5, 7, 2]);
}

#[test]
fn unkeep_then_keep_restores_distinct_rows() {
    let a = list(vec![5, 7, 5, 2]);
    let (counts, comp) = a.unkeep().unwrap();
    assert_eq!(counts.data_vec(), vec![1, 1, 1, 1]);
    let back = comp.keep_list(&counts.data_vec(), None).unwrap();
    assert_eq!(back.data_vec(), vec![5, 7, 5, 2]);
}

#[test]
fn unkeep_scalar_refused() {
    let a = Array::scalar(3);
    assert!(a.unkeep().is_err());
}

#[test]
fn undo_keep_rebuilds() {
    let orig = list(vec![10, 20, 30]);
    let kept = list(vec![10, 30]);
    let back = kept.undo_keep(&[1, 0, 1], &orig, None).unwrap();
    assert_eq!(back.data_vec(), vec![10, 20, 30]);
}

#[test]
fn undo_keep_nonboolean_refused() {
    let orig = list(vec![10, 20]);
    let kept = list(vec![10, 10]);
    assert_eq!(
        kept.undo_keep(&[2, 0], &orig, None).unwrap_err(),
        ArrayError::NotInvertible
    );
}

#[test]
fn undo_keep_too_few_rows() {
    let orig = list(vec![10, 20]);
    let kept = list(vec![]);
    assert_eq!(
        kept.undo_keep(&[1, 1], &orig, None).unwrap_err(),
        ArrayError::LengthMismatch
    );
}

#[test]
fn rotate_by_two_and_back() {
    let mut a = list(vec![1, 2, 3, 4, 5]);
    let by = list(vec![2]);
    a.rotate(&by, None).unwrap();
    assert_eq!(a.data_vec(), vec![3, 4, 5, 1, 2]);
    let back = list(vec![-2]);
    a.rotate(&back, None).unwrap();
    assert_eq!(a.data_vec(), vec![1, 2, 3, 4, 5]);
}

#[test]
fn rotate_with_fill_blanks_wrapped() {
    let mut a = list(vec![1, 2, 3]);
    let by = list(vec![1]);
    a.rotate(&by, Some(9)).unwrap();
    assert_eq!(a.data_vec(), vec![2, 3, 9]);
}

#[test]
fn rotate_too_many_offsets() {
    let mut a = list(vec![1, 2, 3]);
    let by = list(vec![1, 1]);
    assert_eq!(a.rotate(&by, None).unwrap_err(), ArrayError::TooManyIndices);
}

#[test]
fn rotate_matrix_rows() {
    let mut a = list(vec![1, 2, 3, 4, 5, 6]);
    a.reshape(&[DimSpec::Fixed(3), DimSpec::Fixed(2)], None).unwrap();
    let by = list(vec![1]);
    a.rotate(&by, None).unwrap();
    assert_eq!(a.data_vec(), vec![3, 4, 5, 6, 1, 2]);
}

#[test]
fn windows_of_five_by_two() {
    let a = list(vec![0, 1, 2, 3, 4]);
    let w = a.windows(&[2]).unwrap();
    assert_eq!(w.shape_vec(), vec![4, 2]);
    assert_eq!(w.data_vec(), vec![0, 1, 1, 2, 2, 3, 3, 4]);
}

#[test]
fn windows_zero_size_refused() {
    let a = list(vec![1, 2, 3]);
    assert_eq!(a.windows(&[0]).unwrap_err(), ArrayError::ZeroWindow);
}

#[test]
fn windows_too_many_axes() {
    let a = list(vec![1, 2, 3]);
    assert_eq!(a.windows(&[1, 1]).unwrap_err(), ArrayError::RankMismatch);
}

#[test]
fn windows_oversize_is_empty() {
    let a = list(vec![1, 2, 3]);
    let w = a.windows(&[4]).unwrap();
    assert_eq!(w.shape_vec(), vec![0, 4]);
    assert_eq!(w.data_vec(), Vec::<i64>::new());
}

#[test]
fn windows_negative_size() {
    // negative sizes count back from the axis extent
    let a = list(vec![0, 1, 2, 3, 4]);
    let w = a.windows(&[-2]).unwrap();
    assert_eq!(w.shape_vec(), vec![2, 4]);
    assert_eq!(w.data_vec(), vec![0, 1, 2, 3, 1, 2, 3, 4]);
}

#[test]
fn windows_of_matrix() {
    let mut a = list((0..9).collect());
    a.reshape(&[DimSpec::Fixed(3), DimSpec::Fixed(3)], None).unwrap();
    let w = a.windows(&[2, 2]).unwrap();
    assert_eq!(w.shape_vec(), vec![2, 2, 2, 2]);
    assert_eq!(
        w.data_vec(),
        vec![0, 1, 3, 4, 1, 2, 4, 5, 3, 4, 6, 7, 4, 5, 7, 8]
    );
}

#[test]
fn member_of_list() {
    let needle = list(vec![1, 5, 7]);
    let hay = list(vec![5, 6, 7]);
    let r = needle.member(&hay).unwrap();
    assert_eq!(r.shape_vec(), vec![3]);
    assert_eq!(r.data_vec(), vec![0, 1, 1]);
}

#[test]
fn member_shape_suffix_refused() {
    let mut needle = list(vec![1, 2, 3]);
    needle.reshape(&[DimSpec::Fixed(3)], None).unwrap();
    let mut hay = list((0..8).collect());
    hay.reshape(&[DimSpec::Fixed(2), DimSpec::Fixed(2), DimSpec::Fixed(2)], None).unwrap();
    assert_eq!(needle.member(&hay).unwrap_err(), ArrayError::ShapeMismatch);
}

#[test]
fn index_of_list() {
    let needle = list(vec![7, 5, 9]);
    let hay = list(vec![5, 6, 7]);
    let r = needle.index_of(&hay).unwrap();
    assert_eq!(r.data_vec(), vec![2, 0, 3]);
}

#[test]
fn member_and_index_of_agree() {
    let needle = list(vec![4, 6, 8, 10]);
    let hay = list(vec![6, 10, 11]);
    let m = needle.member(&hay).unwrap().data_vec();
    let ix = needle.index_of(&hay).unwrap().data_vec();
    for i in 0..4 {
        assert_eq!(m[i] == 1, ix[i] < 3);
    }
}

#[test]
fn matrix_mul_small() {
    let a = list(vec![1, 2, 3]);
    let b = list(vec![4, 5]);
    let r = a.matrix_mul(&b).unwrap();
    assert_eq!(r.shape_vec(), vec![3, 2]);
    assert_eq!(r.data_vec(), vec![4, 5, 8, 10, 12, 15]);
}

#[test]
fn matrix_mul_contracts_rows() {
    let mut a = list(vec![1, 2, 3, 4]);
    a.reshape(&[DimSpec::Fixed(2), DimSpec::Fixed(2)], None).unwrap();
    let mut b = list(vec![5, 6, 7, 8]);
    b.reshape(&[DimSpec::Fixed(2), DimSpec::Fixed(2)], None).unwrap();
    // each cell is the dot product of a row of `a` with a row of `b`
    let r = a.matrix_mul(&b).unwrap();
    assert_eq!(r.shape_vec(), vec![2, 2]);
    assert_eq!(r.data_vec(), vec![17, 23, 39, 53]);
}

#[test]
fn matrix_mul_prefix_mismatch() {
    let mut a = list(vec![1, 2, 3, 4]);
    a.reshape(&[DimSpec::Fixed(2), DimSpec::Fixed(2)], None).unwrap();
    let mut b = list(vec![1, 2, 3, 4, 5, 6]);
    b.reshape(&[DimSpec::Fixed(2), DimSpec::Fixed(3)], None).unwrap();
    assert_eq!(a.matrix_mul(&b).unwrap_err(), ArrayError::ShapePrefixMismatch);
}

#[test]
fn matrix_mul_parallel_equals_sequential() {
    // 101 rows forces the worker pool; 3 rows stays sequential; the
    // shared columns must come out identical
    let rows: i64 = 101;
    let a = list((1..=rows).collect());
    let small = list(vec![1, 2, 3]);
    let b = list(vec![10, 100]);
    let big = a.matrix_mul(&b).unwrap();
    let little = small.matrix_mul(&b).unwrap();
    assert_eq!(big.shape_vec(), vec![101, 2]);
    let bd = big.data_vec();
    let ld = little.data_vec();
    for i in 0..3 {
        assert_eq!(bd[2 * i], ld[2 * i]);
        assert_eq!(bd[2 * i + 1], ld[2 * i + 1]);
    }
    for i in 0..101 {
        assert_eq!(bd[2 * i], (i as i64 + 1) * 10);
        assert_eq!(bd[2 * i + 1], (i as i64 + 1) * 100);
    }
}

#[test]
fn reverse_rows() {
    let mut a = list(vec![1, 2, 3]);
    a.reverse();
    assert_eq!(a.data_vec(), vec![3, 2, 1]);
}

#[test]
fn reshape_scalar_replicates() {
    let mut a = list(vec![1, 2]);
    a.reshape_scalar(DimSpec::Fixed(3));
    assert_eq!(a.shape_vec(), vec![3, 2]);
    assert_eq!(a.data_vec(), vec![1, 2, 1, 2, 1, 2]);
}

#[test]
fn coercion_table() {
    assert_eq!(coerce_pair(ElemType::Num, ElemType::Num), Ok(Coercion::Direct));
    assert_eq!(coerce_pair(ElemType::Byte, ElemType::Num), Ok(Coercion::LeftByteToNum));
    assert_eq!(coerce_pair(ElemType::Num, ElemType::Byte), Ok(Coercion::RightByteToNum));
    assert_eq!(coerce_pair(ElemType::Char, ElemType::Boxed), Ok(Coercion::LeftToBoxed));
    assert_eq!(coerce_pair(ElemType::Boxed, ElemType::Num), Ok(Coercion::RightToBoxed));
    assert_eq!(coerce_pair(ElemType::Num, ElemType::Char), Err(ArrayError::TypeMismatch));
}

#[test]
fn pad_counts_with_scalar_fill() {
    let fill = Array::scalar(1);
    let p = dyadic::keep::pad_keep_counts(&[2], 4, Some(&fill)).unwrap();
    assert_eq!(p, vec![2, 1, 1, 1]);
}

#[test]
fn pad_counts_negative_fill_refused() {
    let fill = Array::scalar(-1);
    assert_eq!(
        dyadic::keep::pad_keep_counts(&[2], 4, Some(&fill)).unwrap_err(),
        ArrayError::InvalidKeep
    );
}

#[test]
fn find_pair_in_list() {
    let needle = list(vec![1, 2]);
    let hay = list(vec![0, 1, 2, 1, 2, 0]);
    let r = needle.find(&hay, None).unwrap();
    // matches at the corner positions, padded back to the haystack shape
    assert_eq!(r.shape_vec(), vec![6]);
    assert_eq!(r.data_vec(), vec![0, 1, 0, 1, 0, 0]);
}

#[test]
fn find_block_in_matrix() {
    let mut needle = list(vec![4, 5]);
    needle.reshape(&[DimSpec::Fixed(1), DimSpec::Fixed(2)], None).unwrap();
    let mut hay = list((0..9).collect());
    hay.reshape(&[DimSpec::Fixed(3), DimSpec::Fixed(3)], None).unwrap();
    let r = needle.find(&hay, None).unwrap();
    assert_eq!(r.shape_vec(), vec![3, 3]);
    assert_eq!(r.data_vec(), vec![0, 0, 0, 0, 1, 0, 0, 0, 0]);
}

#[test]
fn find_oversize_needle_without_fill() {
    let needle = list(vec![1, 2, 3, 4]);
    let hay = list(vec![1, 2]);
    let r = needle.find(&hay, None).unwrap();
    assert_eq!(r.shape_vec(), vec![2]);
    assert_eq!(r.data_vec(), vec![0, 0]);
}

#[test]
fn find_oversize_needle_with_fill() {
    // the haystack grows with the fill value until the needle fits
    let needle = list(vec![1, 2, 0]);
    let hay = list(vec![1, 2]);
    let r = needle.find(&hay, Some(0)).unwrap();
    assert_eq!(r.shape_vec(), vec![3]);
    assert_eq!(r.data_vec(), vec![1, 0, 0]);
}

#[test]
fn mask_labels_in_discovery_order() {
    let needle = list(vec![1, 2]);
    let hay = list(vec![0, 1, 2, 1, 2, 0]);
    let r = needle.mask(&hay).unwrap();
    assert_eq!(r.shape_vec(), vec![6]);
    assert_eq!(r.data_vec(), vec![0, 1, 1, 2, 2, 0]);
}

#[test]
fn mask_never_reuses_cells() {
    let needle = list(vec![1, 1]);
    let hay = list(vec![1, 1, 1]);
    let r = needle.mask(&hay).unwrap();
    assert_eq!(r.data_vec(), vec![1, 1, 0]);
}

#[test]
fn mask_agrees_with_find() {
    let needle = list(vec![1, 2]);
    let hay = list(vec![0, 1, 2, 1, 2, 0]);
    let m = needle.mask(&hay).unwrap().data_vec();
    let f = needle.find(&hay, None).unwrap().data_vec();
    // every labeled match started at a corner find marks with one
    assert_eq!(f[1], 1);
    assert_eq!(f[3], 1);
    assert!(m[1] != 0 && m[3] != 0);
}

#[test]
fn mask_deeper_needle_refused() {
    let mut needle = list(vec![1, 2]);
    needle.reshape(&[DimSpec::Fixed(1), DimSpec::Fixed(2)], None).unwrap();
    let hay = list(vec![1, 2]);
    assert_eq!(needle.mask(&hay).unwrap_err(), ArrayError::RankMismatch);
}

#[test]
fn mask_oversize_needle_labels_nothing() {
    let needle = list(vec![1, 2, 3]);
    let hay = list(vec![1, 2]);
    let r = needle.mask(&hay).unwrap();
    assert_eq!(r.shape_vec(), vec![2]);
    assert_eq!(r.data_vec(), vec![0, 0]);
}

#[test]
fn filled_windows_even_size() {
    let a = list(vec![1, 2, 3]);
    let w = a.filled_windows(&[2], 9).unwrap();
    // even sizes get one extra position to keep the centring defined
    assert_eq!(w.shape_vec(), vec![4, 2]);
    assert_eq!(w.data_vec(), vec![9, 1, 1, 2, 2, 3, 3, 9]);
}

#[test]
fn filled_windows_odd_size() {
    let a = list(vec![1, 2, 3]);
    let w = a.filled_windows(&[3], 9).unwrap();
    assert_eq!(w.shape_vec(), vec![3, 3]);
    assert_eq!(w.data_vec(), vec![9, 1, 2, 1, 2, 3, 2, 3, 9]);
}

#[test]
fn filled_windows_size_checks() {
    let a = list(vec![1, 2, 3]);
    assert_eq!(a.filled_windows(&[0], 9).unwrap_err(), ArrayError::ZeroWindow);
    assert_eq!(a.filled_windows(&[1, 1], 9).unwrap_err(), ArrayError::RankMismatch);
}

#[test]
fn coordinate_equal_rank() {
    let needle = list(vec![7, 5]);
    let hay = list(vec![5, 6, 7]);
    let r = needle.coordinate(&hay).unwrap();
    assert_eq!(r.shape_vec(), vec![2, 1]);
    assert_eq!(r.data_vec(), vec![2, 0]);
}

#[test]
fn coordinate_of_block() {
    let mut hay = list((0..8).collect());
    hay.reshape(&[DimSpec::Fixed(2), DimSpec::Fixed(2), DimSpec::Fixed(2)], None).unwrap();
    let needle = list(vec![4, 5]);
    let r = needle.coordinate(&hay).unwrap();
    assert_eq!(r.shape_vec(), vec![2]);
    assert_eq!(r.data_vec(), vec![1, 0]);
}

#[test]
fn coordinate_not_found_is_outer_shape() {
    let mut hay = list((0..8).collect());
    hay.reshape(&[DimSpec::Fixed(2), DimSpec::Fixed(2), DimSpec::Fixed(2)], None).unwrap();
    let needle = list(vec![9, 9]);
    let r = needle.coordinate(&hay).unwrap();
    assert_eq!(r.data_vec(), vec![2, 2]);
}

#[test]
fn coordinate_suffix_mismatch() {
    let needle = list(vec![1, 2]);
    let mut hay = list((0..9).collect());
    hay.reshape(&[DimSpec::Fixed(3), DimSpec::Fixed(3)], None).unwrap();
    assert_eq!(needle.coordinate(&hay).unwrap_err(), ArrayError::ShapeMismatch);
}

#[test]
fn progressive_consumes_each_row_once() {
    let needle = list(vec![5, 5, 6]);
    let hay = list(vec![5, 6, 5]);
    let r = needle.progressive_index_of(&hay).unwrap();
    assert_eq!(r.shape_vec(), vec![3]);
    assert_eq!(r.data_vec(), vec![0, 2, 1]);
}

#[test]
fn progressive_exhausts_to_sentinel() {
    let needle = list(vec![5, 5, 5]);
    let hay = list(vec![5, 6]);
    let r = needle.progressive_index_of(&hay).unwrap();
    assert_eq!(r.data_vec(), vec![0, 2, 2]);
}

#[test]
fn progressive_whole_needle_lookup() {
    let mut hay = list(vec![1, 2, 3, 4, 1, 2]);
    hay.reshape(&[DimSpec::Fixed(3), DimSpec::Fixed(2)], None).unwrap();
    let needle = list(vec![3, 4]);
    let r = needle.progressive_index_of(&hay).unwrap();
    assert_eq!(r.shape_vec(), Vec::<usize>::new());
    assert_eq!(r.data_vec(), vec![1]);
}

#[test]
fn matrix_mul_owes_success_on_compatible_shapes() {
    let a = list(vec![1, 2]);
    let b = list(vec![3]);
    assert!(a.matrix_mul(&b).is_ok());
}

#[test]
fn rotate_two_axes_and_back() {
    let mut a = list((0..6).collect());
    a.reshape(&[DimSpec::Fixed(2), DimSpec::Fixed(3)], None).unwrap();
    let by = list(vec![1, 2]);
    a.rotate(&by, None).unwrap();
    assert_eq!(a.data_vec(), vec![5, 3, 4, 2, 0, 1]);
    let back = list(vec![-1, -2]);
    a.rotate(&back, None).unwrap();
    assert_eq!(a.data_vec(), (0..6).collect::<Vec<i64>>());
    assert_eq!(a.shape_vec(), vec![2, 3]);
}

#[test]
fn undo_keep_all_zero_ignores_kept_shape() {
    // with no count set, nothing is pulled, so the kept array's shape
    // is never validated and the remembered rows come back whole
    let orig = list(vec![10, 20]);
    let mut kept = list(vec![1, 2, 3, 4]);
    kept.reshape(&[DimSpec::Fixed(2), DimSpec::Fixed(2)], None).unwrap();
    let back = kept.undo_keep(&[0, 0], &orig, None).unwrap();
    assert_eq!(back.shape_vec(), vec![2]);
    assert_eq!(back.data_vec(), vec![10, 20]);
}

#[test]
fn undo_keep_empty_kept_is_length_error() {
    // a count of one with no kept row to pull fails on length, even
    // when the row shapes also disagree
    let mut orig = list(vec![1, 2, 3, 4]);
    orig.reshape(&[DimSpec::Fixed(2), DimSpec::Fixed(2)], None).unwrap();
    let kept = list(vec![]);
    assert_eq!(
        kept.undo_keep(&[1, 0], &orig, None).unwrap_err(),
        ArrayError::LengthMismatch
    );
}

#[test]
fn undo_keep_shape_checked_when_pulled() {
    let orig = list(vec![10, 20]);
    let mut kept = list(vec![1, 2]);
    kept.reshape(&[DimSpec::Fixed(1), DimSpec::Fixed(2)], None).unwrap();
    assert_eq!(
        kept.undo_keep(&[1, 0], &orig, None).unwrap_err(),
        ArrayError::ShapeMismatch
    );
}

#[test]
fn box_coercion_table() {
    assert_eq!(
        coerce_to_boxes_pair(ElemType::Boxed, ElemType::Boxed),
        Ok(Coercion::Direct)
    );
    assert_eq!(
        coerce_to_boxes_pair(ElemType::Boxed, ElemType::Num),
        Ok(Coercion::RightToBoxed)
    );
    assert_eq!(
        coerce_to_boxes_pair(ElemType::Char, ElemType::Boxed),
        Ok(Coercion::LeftToBoxed)
    );
    assert_eq!(
        coerce_to_boxes_pair(ElemType::Num, ElemType::Byte),
        Err(ArrayError::TypeMismatch)
    );
}

#[test]
fn windows_with_dispatches_on_fill() {
    let a = list(vec![1, 2, 3]);
    let plain = a.windows_with(&[2], None).unwrap();
    assert_eq!(plain.shape_vec(), vec![2, 2]);
    assert_eq!(plain.data_vec(), vec![1, 2, 2, 3]);
    let filled = a.windows_with(&[2], Some(9)).unwrap();
    assert_eq!(filled.shape_vec(), vec![4, 2]);
    assert_eq!(filled.data_vec(), vec![9, 1, 1, 2, 2, 3, 3, 9]);
}
