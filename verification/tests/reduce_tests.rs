use uiua_reduce::array::Array;
use uiua_reduce::errors::ReduceError;
use uiua_reduce::fast::{fast_adjacent, fast_invscan, fast_reduce, fast_reduce_different, fast_scan, reduce_list};
use uiua_reduce::fold::fold;
use uiua_reduce::func::{Constant, Function, Identity, Join, Pervasive, Pop, Signature};
use uiua_reduce::generic::{generic_adjacent, generic_reduce_inner, generic_scan, generic_unscan};
use uiua_reduce::ops::{ByteOp, Primitive};
use uiua_reduce::reduce::{
    adjacent, adjacent_fallback, generic_reduce, invscan, join_axes, reduce, reduce_content, scan,
    Outcome,
};
use uiua_reduce::shape::{checked_shape_size, shape_product};

fn arr(shape: &[usize], data: &[u8]) -> Array {
    Array::new(shape.to_vec(), data.to_vec()).unwrap()
}

fn parts(a: &Array) -> (Vec<usize>, Vec<u8>) {
    (a.shape().to_vec(), a.data().to_vec())
}

fn pushed(o: Result<Outcome, ReduceError>) -> Vec<(Vec<usize>, Vec<u8>)> {
    match o {
        Ok(Outcome::Pushed(v)) => v.iter().map(parts).collect(),
        Ok(Outcome::Numeric(_)) => panic!("numeric outcome"),
        Err(e) => panic!("error {:?}", e),
    }
}

fn is_numeric(o: &Result<Outcome, ReduceError>) -> bool {
    matches!(o, Ok(Outcome::Numeric(_)))
}

#[test]
fn array_new_checks_sizes() {
    assert!(Array::new(vec![2, 3], vec![0; 6]).is_some());
    assert!(Array::new(vec![2, 3], vec![0; 5]).is_none());
    assert!(Array::new(vec![], vec![9]).is_some());
    assert!(Array::new(vec![0, usize::MAX, 2], vec![]).is_some());
    assert!(Array::new(vec![usize::MAX, 3], vec![]).is_none());
    let s = Array::scalar(4);
    assert_eq!(parts(&s), (vec![], vec![4]));
}

#[test]
fn shape_products() {
    assert_eq!(shape_product(&[2, 3, 4]), 24);
    assert_eq!(shape_product(&[2, 0, 4]), 0);
    assert_eq!(shape_product(&[]), 1);
    assert_eq!(checked_shape_size(&[usize::MAX, 2]), None);
    assert_eq!(checked_shape_size(&[usize::MAX, 2, 0]), Some(0));
}

#[test]
fn rows_split_and_join() {
    let a = arr(&[3, 2], &[1, 2, 3, 4, 5, 6]);
    assert_eq!(a.row_count(), 3);
    assert_eq!(a.row_len(), 2);
    let rows = a.into_rows();
    let got: Vec<_> = rows.iter().map(parts).collect();
    assert_eq!(got, vec![(vec![2], vec![1, 2]), (vec![2], vec![3, 4]), (vec![2], vec![5, 6])]);
    let joined = Array::from_row_values(rows).unwrap();
    assert_eq!(parts(&joined), (vec![3, 2], vec![1, 2, 3, 4, 5, 6]));
    let mixed = vec![arr(&[2], &[1, 2]), arr(&[3], &[1, 2, 3])];
    assert_eq!(Array::from_row_values(mixed).err(), Some(ReduceError::RowShapeMismatch));
    let none = Array::from_row_values(vec![]).unwrap();
    assert_eq!(parts(&none), (vec![0], vec![]));
    let scalar_rows = Array::scalar(5).into_rows();
    assert_eq!(scalar_rows.len(), 1);
    assert_eq!(parts(&scalar_rows[0]), (vec![], vec![5]));
}

#[test]
fn reduce_list_of_bytes() {
    assert_eq!(reduce_list(&[3, 1, 4, 1, 5], ByteOp::Max, 0, None), 5);
    assert_eq!(reduce_list(&[3, 1, 4, 1, 5], ByteOp::Min, 0, None), 1);
    assert_eq!(reduce_list(&[], ByteOp::Max, 9, None), 9);
    assert_eq!(reduce_list(&[3, 1], ByteOp::Max, 0, Some(8)), 8);
    assert_eq!(reduce_list(&[], ByteOp::Min, 0, Some(8)), 8);
}

#[test]
fn fast_reduce_of_a_list_is_a_scalar() {
    let r = fast_reduce(arr(&[5], &[3, 1, 4, 1, 5]), 0, None, 0, ByteOp::Max);
    assert_eq!(parts(&r), (vec![], vec![5]));
    let r = fast_reduce(arr(&[0], &[]), 0, None, 0, ByteOp::Max);
    assert_eq!(parts(&r), (vec![], vec![0]));
    let r = fast_reduce(arr(&[2], &[1, 2]), 0, Some(200), 0, ByteOp::Min);
    assert_eq!(parts(&r), (vec![], vec![1]));
}

#[test]
fn fast_reduce_along_axes() {
    let m = &[2, 3];
    let d = &[1, 9, 2, 7, 3, 8];
    // Depth 0 reduces the rows into one: column maxima.
    let r = fast_reduce(arr(m, d), 0, None, 0, ByteOp::Max);
    assert_eq!(parts(&r), (vec![3], vec![7, 9, 8]));
    // Depth 1 reduces within each row.
    let r = fast_reduce(arr(m, d), 0, None, 1, ByteOp::Min);
    assert_eq!(parts(&r), (vec![2], vec![1, 3]));
    // Depth beyond the rank leaves the array unchanged.
    let r = fast_reduce(arr(m, d), 0, None, 5, ByteOp::Min);
    assert_eq!(parts(&r), (vec![2, 3], d.to_vec()));
    // A default takes part in the fold.
    let r = fast_reduce(arr(m, d), 0, Some(8), 0, ByteOp::Max);
    assert_eq!(parts(&r), (vec![3], vec![8, 9, 8]));
}

#[test]
fn fast_reduce_of_empty_axes() {
    // No rows at depth 0: the identity, whatever the default.
    let r = fast_reduce(arr(&[0, 3], &[]), 4, Some(6), 0, ByteOp::Max);
    assert_eq!(parts(&r), (vec![3], vec![4, 4, 4]));
    // An empty inner axis: the default where given, else the identity.
    let r = fast_reduce(arr(&[2, 0], &[]), 4, Some(6), 1, ByteOp::Max);
    assert_eq!(parts(&r), (vec![2], vec![6, 6]));
    let r = fast_reduce(arr(&[2, 0], &[]), 4, None, 1, ByteOp::Max);
    assert_eq!(parts(&r), (vec![2], vec![4, 4]));
    // Rows of no bytes reduce to no bytes.
    let r = fast_reduce(arr(&[3, 0], &[]), 4, None, 0, ByteOp::Max);
    assert_eq!(parts(&r), (vec![0], vec![]));
}

#[test]
fn fast_reduce_different_uses_each_function() {
    // A list folds with the second function.
    let r = fast_reduce_different(arr(&[3], &[1, 5, 2]), 0, None, 0, ByteOp::Min, ByteOp::Max);
    assert_eq!(parts(&r), (vec![], vec![5]));
    // Other arrays fold with the first.
    let r = fast_reduce_different(arr(&[2, 2], &[1, 5, 2, 0]), 0, None, 0, ByteOp::Min, ByteOp::Max);
    assert_eq!(parts(&r), (vec![2], vec![1, 0]));
}

#[test]
fn fast_reduce_of_rank_three() {
    // Shape [2, 2, 2], reduce axis 1: pairs of rows within each chunk.
    let d = &[1, 8, 6, 2, 5, 5, 9, 0];
    let r = fast_reduce(arr(&[2, 2, 2], d), 0, None, 1, ByteOp::Max);
    assert_eq!(parts(&r), (vec![2, 2], vec![6, 8, 9, 5]));
    let r = fast_reduce(arr(&[2, 2, 2], d), 0, None, 2, ByteOp::Max);
    assert_eq!(parts(&r), (vec![2, 2], vec![8, 6, 5, 9]));
}

#[test]
fn fast_scan_rows() {
    let r = fast_scan(arr(&[4], &[1, 3, 2, 5]), ByteOp::Max);
    assert_eq!(parts(&r), (vec![4], vec![1, 3, 3, 5]));
    let r = fast_scan(arr(&[3, 2], &[4, 1, 2, 3, 5, 0]), ByteOp::Min);
    assert_eq!(parts(&r), (vec![3, 2], vec![4, 1, 2, 1, 2, 0]));
    let r = fast_scan(arr(&[4], &[1, 1, 0, 1]), ByteOp::Ne);
    assert_eq!(parts(&r), (vec![4], vec![1, 0, 0, 1]));
    let r = fast_scan(arr(&[0, 2], &[]), ByteOp::Max);
    assert_eq!(parts(&r), (vec![0, 2], vec![]));
}

#[test]
fn fast_invscan_rows() {
    let r = fast_invscan(arr(&[4], &[1, 0, 0, 1]), ByteOp::Ne);
    assert_eq!(parts(&r), (vec![4], vec![1, 1, 0, 1]));
    let r = fast_invscan(arr(&[2, 2], &[1, 0, 1, 1]), ByteOp::Eq);
    assert_eq!(parts(&r), (vec![2, 2], vec![1, 0, 1, 0]));
}

#[test]
fn fast_adjacent_windows() {
    let r = fast_adjacent(arr(&[4], &[1, 3, 2, 5]), 2, ByteOp::Max).unwrap();
    assert_eq!(parts(&r), (vec![3], vec![3, 3, 5]));
    let r = fast_adjacent(arr(&[3, 2], &[4, 1, 2, 3, 5, 0]), 2, ByteOp::Min).unwrap();
    assert_eq!(parts(&r), (vec![2, 2], vec![2, 1, 2, 0]));
    let r = fast_adjacent(arr(&[2, 3], &[1, 2, 3, 4, 5, 6]), 3, ByteOp::Max).unwrap();
    assert_eq!(parts(&r), (vec![0, 3], vec![]));
    assert_eq!(
        fast_adjacent(Array::scalar(1), 1, ByteOp::Max).err(),
        Some(ReduceError::ScalarAdjacency)
    );
}

#[test]
fn law_full_window_matches_reduce() {
    let d = &[4, 1, 2, 3, 5, 0];
    let w = fast_adjacent(arr(&[3, 2], d), 3, ByteOp::Max).unwrap();
    let r = fast_reduce(arr(&[3, 2], d), 0, None, 0, ByteOp::Max);
    assert_eq!(parts(&w), (vec![1, 2], parts(&r).1));
}

#[test]
fn law_unit_window_keeps_array() {
    let d = &[4, 1, 2, 3, 5, 0];
    let w = fast_adjacent(arr(&[3, 2], d), 1, ByteOp::Min).unwrap();
    assert_eq!(parts(&w), (vec![3, 2], d.to_vec()));
}

#[test]
fn law_scan_ends_in_reduce() {
    let d = &[4, 1, 2, 3, 5, 0];
    let s = fast_scan(arr(&[3, 2], d), ByteOp::Max);
    let r = fast_reduce(arr(&[3, 2], d), 0, None, 0, ByteOp::Max);
    assert_eq!(parts(&s).1[4..6].to_vec(), parts(&r).1);
}

#[test]
fn law_unscan_undoes_scan_on_bits() {
    let d = &[1, 0, 1, 1, 0, 0];
    for op in [ByteOp::Eq, ByteOp::Ne] {
        let s = fast_scan(arr(&[3, 2], d), op);
        let u = fast_invscan(s, op);
        assert_eq!(parts(&u), (vec![3, 2], d.to_vec()));
        let u = fast_invscan(arr(&[6], d), op);
        let s = fast_scan(u, op);
        assert_eq!(parts(&s), (vec![6], d.to_vec()));
    }
}

#[test]
fn law_reduce_extremes() {
    let d = &[7, 3, 9, 2];
    let mx = fast_reduce(arr(&[4], d), 0, None, 0, ByteOp::Max);
    let mn = fast_reduce(arr(&[4], d), 0, None, 0, ByteOp::Min);
    assert_eq!(parts(&mx).1, vec![9]);
    assert_eq!(parts(&mn).1, vec![2]);
}

#[test]
fn law_fast_reduce_matches_rows() {
    let d = &[1, 9, 2, 7, 3, 8];
    let f = Pervasive { op: ByteOp::Max };
    let g = generic_reduce_inner(&f, arr(&[2, 3], d), 0, &None).unwrap();
    let r = fast_reduce(arr(&[2, 3], d), 0, None, 0, ByteOp::Max);
    assert_eq!(parts(&g), parts(&r));
    let g = generic_reduce_inner(&f, arr(&[6], d), 0, &None).unwrap();
    let r = fast_reduce(arr(&[6], d), 0, None, 0, ByteOp::Max);
    assert_eq!(parts(&g), parts(&r));
}

#[test]
fn pervasive_calls() {
    let f = Pervasive { op: ByteOp::Min };
    let out = f.call(vec![arr(&[2], &[5, 1]), arr(&[2], &[3, 4])]).unwrap();
    assert_eq!(out.len(), 1);
    assert_eq!(parts(&out[0]), (vec![2], vec![3, 1]));
    let err = f.call(vec![arr(&[2], &[5, 1]), arr(&[1], &[3])]).err();
    assert_eq!(err, Some(ReduceError::ShapeMismatch));
    assert_eq!(f.signature(), Signature { args: 2, outputs: 1 });
    assert_eq!(f.as_flipped_primitive(), Some((Primitive::Min, false)));
}

#[test]
fn generic_reduce_at_depth() {
    let f = Pervasive { op: ByteOp::Max };
    let d = &[1, 9, 2, 7, 3, 8];
    let g = generic_reduce_inner(&f, arr(&[2, 3], d), 1, &None).unwrap();
    assert_eq!(parts(&g), (vec![2], vec![9, 8]));
    let g = generic_reduce_inner(&f, arr(&[2, 3], d), 0, &Some(arr(&[3], &[8, 0, 8]))).unwrap();
    assert_eq!(parts(&g), (vec![3], vec![8, 9, 8]));
    let e = generic_reduce_inner(&f, arr(&[0, 3], &[]), 0, &None).err();
    assert_eq!(e, Some(ReduceError::EmptyReduce));
    let e = generic_reduce_inner(&Pop { count: 3 }, arr(&[2], &[1, 2]), 0, &None).err();
    assert_eq!(e, Some(ReduceError::SignatureMismatch { args: 3, outputs: 0 }));
    let e = generic_reduce_inner(&f, arr(&[2, 1], &[1, 2]), 0, &Some(arr(&[2], &[0, 0]))).err();
    assert_eq!(e, Some(ReduceError::ShapeMismatch));
}

#[test]
fn generic_reduce_deprecated_forms() {
    // One argument, one output: the function of each row.
    let vals = generic_reduce(&Identity, arr(&[2], &[4, 5]), 0, &None).unwrap();
    let got: Vec<_> = vals.iter().map(parts).collect();
    assert_eq!(got, vec![(vec![], vec![4]), (vec![], vec![5])]);
    // No argument, one output: each row, then the function's result.
    let c = Constant { value: Array::scalar(7) };
    let vals = generic_reduce(&c, arr(&[2], &[4, 5]), 0, &None).unwrap();
    let got: Vec<_> = vals.iter().map(parts).collect();
    assert_eq!(
        got,
        vec![(vec![], vec![4]), (vec![], vec![7]), (vec![], vec![5]), (vec![], vec![7])]
    );
}

#[test]
fn join_function() {
    let out = Join.call(vec![Array::scalar(2), Array::scalar(1)]).unwrap();
    assert_eq!(parts(&out[0]), (vec![2], vec![1, 2]));
    let out = Join.call(vec![arr(&[1, 2], &[5, 6]), arr(&[2, 2], &[1, 2, 3, 4])]).unwrap();
    assert_eq!(parts(&out[0]), (vec![3, 2], vec![1, 2, 3, 4, 5, 6]));
    let out = Join.call(vec![arr(&[2], &[5, 6]), arr(&[1, 2], &[1, 2])]).unwrap();
    assert_eq!(parts(&out[0]), (vec![2, 2], vec![1, 2, 5, 6]));
    let out = Join.call(vec![arr(&[1, 2], &[5, 6]), arr(&[2], &[1, 2])]).unwrap();
    assert_eq!(parts(&out[0]), (vec![2, 2], vec![1, 2, 5, 6]));
    let err = Join.call(vec![arr(&[3], &[5, 6, 7]), arr(&[1, 2], &[1, 2])]).err();
    assert_eq!(err, Some(ReduceError::ShapeMismatch));
}

#[test]
fn generic_scan_and_unscan() {
    let max = Pervasive { op: ByteOp::Max };
    let s = generic_scan(&max, arr(&[3], &[1, 3, 2])).unwrap();
    assert_eq!(parts(&s), (vec![3], vec![1, 3, 3]));
    let u = generic_unscan(&max, arr(&[3], &[1, 3, 2])).unwrap();
    assert_eq!(parts(&u), (vec![3], vec![1, 3, 3]));
    let z = generic_scan(&max, arr(&[0, 2], &[])).unwrap();
    assert_eq!(parts(&z), (vec![0, 2], vec![]));
    assert_eq!(
        generic_scan(&Identity, arr(&[3], &[1, 2, 3])).err(),
        Some(ReduceError::SignatureMismatch { args: 1, outputs: 1 })
    );
    // Joined rows of growing length cannot form an array.
    assert_eq!(generic_scan(&Join, arr(&[3], &[1, 2, 3])).err(), Some(ReduceError::RowShapeMismatch));
}

#[test]
fn generic_adjacent_windows() {
    let w = generic_adjacent(&Join, arr(&[4], &[1, 2, 3, 4]), 2).unwrap();
    assert_eq!(parts(&w), (vec![3, 2], vec![1, 2, 2, 3, 3, 4]));
    let w = generic_adjacent(&Join, arr(&[2], &[1, 2]), 3).unwrap();
    assert_eq!(parts(&w), (vec![0], vec![]));
}

#[test]
fn reduce_dispatch() {
    let max = Pervasive { op: ByteOp::Max };
    let d = &[1, 9, 2, 7, 3, 8];
    assert_eq!(pushed(reduce(&max, arr(&[2, 3], d), 0, &None, None, false)), vec![(vec![3], vec![7, 9, 8])]);
    // A byte fill is the default of the fold.
    assert_eq!(pushed(reduce(&max, arr(&[2, 3], d), 0, &None, Some(8), false)), vec![(vec![3], vec![8, 9, 8])]);
    // No rows, or a number fill without a byte fill: numeric arithmetic.
    assert!(is_numeric(&reduce(&max, arr(&[0], &[]), 0, &None, None, false)));
    assert!(is_numeric(&reduce(&max, arr(&[2], &[1, 2]), 0, &None, None, true)));
    assert!(!is_numeric(&reduce(&max, arr(&[2], &[1, 2]), 0, &None, Some(0), true)));
    // Join merges axes.
    let got = pushed(reduce(&Join, arr(&[2, 3, 1], d), 0, &None, None, false));
    assert_eq!(got, vec![(vec![6, 1], d.to_vec())]);
    let got = pushed(reduce(&Join, arr(&[6], d), 0, &None, None, false));
    assert_eq!(got, vec![(vec![6], d.to_vec())]);
    // With a fill value, join is called on the rows.
    let got = pushed(reduce(&Join, arr(&[2, 1], &[3, 4]), 0, &Some(arr(&[1], &[9])), None, false));
    assert_eq!(got, vec![(vec![3], vec![9, 3, 4])]);
    // Other functions are called on rows.
    let got = pushed(reduce(&Identity, arr(&[2], &[1, 2]), 0, &None, None, false));
    assert_eq!(got, vec![(vec![], vec![1]), (vec![], vec![2])]);
}

#[test]
fn join_merges_axes() {
    let j = join_axes(arr(&[2, 3, 4], &[0; 24]), 1);
    assert_eq!(j.shape().to_vec(), vec![2, 12]);
    let j = join_axes(arr(&[2, 3, 4], &[0; 24]), 0);
    assert_eq!(j.shape().to_vec(), vec![6, 4]);
    let j = join_axes(arr(&[2, 3, 4], &[0; 24]), 2);
    assert_eq!(j.shape().to_vec(), vec![2, 3, 4]);
}

#[test]
fn reduce_content_joins_or_reduces() {
    let items = vec![arr(&[2], &[1, 2]), arr(&[1], &[3])];
    let got: Vec<_> = reduce_content(&Join, items, &None).unwrap().iter().map(parts).collect();
    assert_eq!(got, vec![(vec![3], vec![1, 2, 3])]);
    let max = Pervasive { op: ByteOp::Max };
    let items = vec![arr(&[2], &[1, 4]), arr(&[2], &[3, 2])];
    let got: Vec<_> = reduce_content(&max, items, &None).unwrap().iter().map(parts).collect();
    assert_eq!(got, vec![(vec![2], vec![3, 4])]);
    assert_eq!(reduce_content(&max, vec![], &None).err(), Some(ReduceError::EmptyReduce));
    assert_eq!(
        reduce_content(&Pop { count: 2 }, vec![], &None).err(),
        Some(ReduceError::SignatureMismatch { args: 2, outputs: 0 })
    );
}

#[test]
fn scan_dispatch() {
    let max = Pervasive { op: ByteOp::Max };
    assert_eq!(pushed(scan(&max, arr(&[3], &[2, 1, 3]))), vec![(vec![3], vec![2, 2, 3])]);
    let eq = Pervasive { op: ByteOp::Eq };
    assert_eq!(pushed(scan(&eq, arr(&[3], &[1, 1, 0]))), vec![(vec![3], vec![1, 1, 0])]);
    assert_eq!(scan(&max, Array::scalar(1)).err(), Some(ReduceError::RankZero));
    assert_eq!(scan(&Join, arr(&[2], &[1, 2])).err(), Some(ReduceError::RowShapeMismatch));
}

#[test]
fn invscan_dispatch() {
    let max = Pervasive { op: ByteOp::Max };
    assert_eq!(pushed(invscan(&max, arr(&[3], &[1, 3, 2]))), vec![(vec![3], vec![1, 3, 3])]);
    assert_eq!(invscan(&max, Array::scalar(1)).err(), Some(ReduceError::RankZero));
    assert_eq!(
        invscan(&Identity, arr(&[2], &[1, 2])).err(),
        Some(ReduceError::SignatureMismatch { args: 1, outputs: 1 })
    );
    assert_eq!(pushed(invscan(&max, arr(&[0], &[]))), vec![(vec![0], vec![])]);
}

#[test]
fn adjacent_dispatch() {
    let max = Pervasive { op: ByteOp::Max };
    assert_eq!(pushed(adjacent(&max, 2, arr(&[3], &[1, 5, 2]))), vec![(vec![2], vec![5, 5])]);
    assert_eq!(pushed(adjacent(&max, -2, arr(&[3], &[1, 5, 2]))), vec![(vec![2], vec![5, 5])]);
    assert_eq!(adjacent(&max, 0, arr(&[3], &[1, 5, 2])).err(), Some(ReduceError::ZeroWindow));
    assert_eq!(adjacent(&max, 1, Array::scalar(3)).err(), Some(ReduceError::ScalarAdjacency));
    let got = pushed(adjacent(&Join, 2, arr(&[3], &[1, 5, 2])));
    assert_eq!(got, vec![(vec![2, 2], vec![1, 5, 5, 2])]);
}

#[test]
fn adjacent_fallback_windows() {
    let max = Pervasive { op: ByteOp::Max };
    let windows = vec![arr(&[2], &[1, 5]), arr(&[2], &[5, 2])];
    let st = adjacent_fallback(&max, windows, vec![Array::scalar(9)], &None, None, false).unwrap().unwrap();
    let got: Vec<_> = st.iter().map(parts).collect();
    assert_eq!(got, vec![(vec![], vec![9]), (vec![2], vec![5, 5])]);
    // A window without rows is reduced in numeric arithmetic.
    let windows = vec![arr(&[0], &[])];
    assert!(adjacent_fallback(&max, windows, vec![], &None, None, false).unwrap().is_none());
    // A function that leaves nothing on an empty stack.
    let windows = vec![arr(&[0], &[])];
    assert_eq!(
        adjacent_fallback(&Identity, windows, vec![], &None, None, false).err(),
        Some(ReduceError::EmptyStack)
    );
}

#[test]
fn fold_over_rows() {
    // One iterated array on top, one accumulator below it.
    let max = Pervasive { op: ByteOp::Max };
    let stack = vec![Array::scalar(4), arr(&[3], &[1, 6, 3])];
    let st = fold(&max, stack).unwrap();
    let got: Vec<_> = st.iter().map(parts).collect();
    assert_eq!(got, vec![(vec![], vec![6])]);
    // A single-row array is repeated; iterated arrays must agree.
    let stack = vec![Array::scalar(0), arr(&[1], &[5]), arr(&[2], &[1, 2])];
    let st = fold(&Pop { count: 2 }, stack).unwrap();
    assert_eq!(st.len(), 1);
    let stack = vec![arr(&[3], &[5, 5, 5]), arr(&[2], &[1, 2])];
    assert_eq!(
        fold(&Pop { count: 2 }, stack).err(),
        Some(ReduceError::FoldLengthMismatch { first: 2, second: 3 })
    );
    // No iterated array: one call.
    let stack = vec![Array::scalar(1), Array::scalar(2)];
    let st = fold(&max, stack).unwrap();
    assert_eq!(parts(&st[0]), (vec![], vec![2]));
}

#[test]
fn fold_errors() {
    assert_eq!(fold(&Identity, vec![]).err(), Some(ReduceError::FoldSignature { args: 1, outputs: 1 }));
    let max = Pervasive { op: ByteOp::Max };
    assert_eq!(fold(&max, vec![]).err(), Some(ReduceError::EmptyStack));
    assert_eq!(fold(&max, vec![arr(&[2], &[1, 2])]).err(), Some(ReduceError::EmptyStack));
}

#[test]
fn law_fast_reduce_matches_rows_at_depth() {
    let d = &[1, 8, 6, 2, 5, 5, 9, 0, 3, 3, 7, 4];
    let f = Pervasive { op: ByteOp::Max };
    for depth in 0..3 {
        let g = generic_reduce_inner(&f, arr(&[2, 3, 2], d), depth, &None).unwrap();
        let r = fast_reduce(arr(&[2, 3, 2], d), 0, None, depth, ByteOp::Max);
        assert_eq!(parts(&g), parts(&r));
    }
}

#[test]
fn law_fast_scan_and_unscan_match_rows() {
    let d = &[4, 1, 2, 3, 5, 0];
    for op in [ByteOp::Max, ByteOp::Min, ByteOp::Eq, ByteOp::Ne] {
        let f = Pervasive { op };
        let g = generic_scan(&f, arr(&[3, 2], d)).unwrap();
        let s = fast_scan(arr(&[3, 2], d), op);
        assert_eq!(parts(&g), parts(&s));
        let g = generic_unscan(&f, arr(&[3, 2], d)).unwrap();
        let u = fast_invscan(arr(&[3, 2], d), op);
        assert_eq!(parts(&g), parts(&u));
    }
}

#[test]
fn law_fast_adjacent_matches_rows() {
    let d = &[4, 1, 2, 3, 5, 0, 7, 7];
    for n in 1..6 {
        let f = Pervasive { op: ByteOp::Min };
        let g = generic_adjacent(&f, arr(&[4, 2], d), n).unwrap();
        let w = fast_adjacent(arr(&[4, 2], d), n, ByteOp::Min).unwrap();
        assert_eq!(parts(&g), parts(&w));
    }
}

#[test]
fn law_join_reduce_matches_rows() {
    let d = &[1, 2, 3, 4, 5, 6];
    let g = generic_reduce_inner(&Join, arr(&[3, 2], d), 0, &None).unwrap();
    let j = join_axes(arr(&[3, 2], d), 0);
    assert_eq!(parts(&g), parts(&j));
    assert_eq!(parts(&j), (vec![6], d.to_vec()));
    let g = generic_reduce_inner(&Join, arr(&[6], d), 0, &None).unwrap();
    assert_eq!(parts(&g), (vec![6], d.to_vec()));
    let g = generic_reduce_inner(&Join, arr(&[2, 3, 1], d), 0, &None).unwrap();
    assert_eq!(parts(&g), parts(&join_axes(arr(&[2, 3, 1], d), 0)));
}

#[test]
fn law_fold_is_reduce_from_accumulator() {
    let max = Pervasive { op: ByteOp::Max };
    let acc = arr(&[2], &[4, 0]);
    let xs = arr(&[3, 2], &[1, 2, 6, 1, 3, 3]);
    let st = fold(&max, vec![acc.duplicate(), xs.duplicate()]).unwrap();
    let r = generic_reduce_inner(&max, xs, 0, &Some(acc)).unwrap();
    assert_eq!(st.len(), 1);
    assert_eq!(parts(&st[0]), parts(&r));
    assert_eq!(parts(&r), (vec![2], vec![6, 3]));
}

#[test]
fn adjacent_of_a_scalar_by_a_non_dyadic_function_is_a_signature_error() {
    for n in [2isize, -2, 5] {
        assert_eq!(
            adjacent(&Identity, n, Array::scalar(7)).err(),
            Some(ReduceError::SignatureMismatch { args: 1, outputs: 1 })
        );
    }
    assert_eq!(
        generic_adjacent(&Identity, Array::scalar(7), 3).err(),
        Some(ReduceError::SignatureMismatch { args: 1, outputs: 1 })
    );
}

#[test]
fn adjacent_of_a_scalar_with_a_wide_window_is_refused() {
    assert_eq!(adjacent(&Join, 2, Array::scalar(7)).err(), Some(ReduceError::ScalarAdjacency));
    assert_eq!(
        generic_adjacent(&Join, Array::scalar(7), 2).err(),
        Some(ReduceError::ScalarAdjacency)
    );
}

#[test]
fn law_window_sign() {
    let d: &[u8] = &[3, 9, 1, 7, 2];
    for n in [1isize, 2, 3, 6] {
        let pos = pushed(adjacent(&Join, n, arr(&[5], d)));
        let neg = pushed(adjacent(&Join, -n, arr(&[5], d)));
        assert_eq!(pos, neg);
        let max = Pervasive { op: ByteOp::Max };
        assert_eq!(pushed(adjacent(&max, n, arr(&[5], d))), pushed(adjacent(&max, -n, arr(&[5], d))));
    }
    assert_eq!(pushed(adjacent(&Join, -2, arr(&[3], &[1, 2, 3]))), vec![(vec![2, 2], vec![1, 2, 2, 3])]);
}

#[test]
fn law_unscan_undoes_generic_scan() {
    let d: &[u8] = &[1, 0, 0, 1, 1, 1, 0, 1];
    let ne = Pervasive { op: ByteOp::Ne };
    let scanned = generic_scan(&ne, arr(&[4, 2], d)).unwrap();
    assert_eq!(parts(&scanned), (vec![4, 2], vec![1, 0, 1, 1, 0, 0, 0, 1]));
    let back = pushed(invscan(&ne, scanned));
    assert_eq!(back, vec![(vec![4, 2], d.to_vec())]);
    let eq = Pervasive { op: ByteOp::Eq };
    let scanned = generic_scan(&eq, arr(&[8], d)).unwrap();
    assert_eq!(pushed(invscan(&eq, scanned)), vec![(vec![8], d.to_vec())]);
}

#[test]
fn law_deep_reduce_reduces_cells() {
    let d: &[u8] = &[5, 1, 2, 8, 3, 3, 0, 9, 4, 6, 7, 2];
    let whole = fast_reduce(arr(&[2, 3, 2], d), 0, None, 1, ByteOp::Max);
    assert_eq!(parts(&whole), (vec![2, 2], vec![5, 8, 7, 9]));
    for c in 0..2 {
        let cell = fast_reduce(arr(&[3, 2], &d[c * 6..c * 6 + 6]), 0, None, 0, ByteOp::Max);
        assert_eq!(cell.data().to_vec(), whole.data()[c * 2..c * 2 + 2].to_vec());
    }
    let whole = fast_reduce(arr(&[2, 6], d), 0, Some(4), 1, ByteOp::Min);
    assert_eq!(parts(&whole), (vec![2], vec![1, 0]));
    for c in 0..2 {
        let cell = fast_reduce(arr(&[6], &d[c * 6..c * 6 + 6]), 0, Some(4), 0, ByteOp::Min);
        assert_eq!(parts(&cell), (vec![], vec![whole.data()[c]]));
    }
}

#[test]
fn law_content_reduce_is_row_reduce() {
    let d: &[u8] = &[5, 1, 2, 8, 3, 3];
    let max = Pervasive { op: ByteOp::Max };
    let items = arr(&[3, 2], d).into_rows();
    let by_content = reduce_content(&max, items, &None).unwrap();
    let by_rows = generic_reduce(&max, arr(&[3, 2], d), 0, &None).unwrap();
    let a: Vec<_> = by_content.iter().map(parts).collect();
    let b: Vec<_> = by_rows.iter().map(parts).collect();
    assert_eq!(a, b);
    assert_eq!(a, vec![(vec![2], vec![5, 8])]);
    let fill = Some(arr(&[2], &[9, 0]));
    let items = arr(&[3, 2], d).into_rows();
    let a: Vec<_> = reduce_content(&max, items, &fill).unwrap().iter().map(parts).collect();
    let b: Vec<_> = generic_reduce(&max, arr(&[3, 2], d), 0, &fill).unwrap().iter().map(parts).collect();
    assert_eq!(a, b);
}

#[test]
fn fast_reduce_of_empty_arrays_with_long_axes() {
    let r = fast_reduce(arr(&[0, usize::MAX, 2], &[]), 0, None, 1, ByteOp::Max);
    assert_eq!(parts(&r), (vec![0, 2], vec![]));
    let r = fast_reduce(arr(&[usize::MAX, 3, 0], &[]), 7, Some(1), 1, ByteOp::Min);
    assert_eq!(parts(&r), (vec![usize::MAX, 0], vec![]));
    let r = fast_reduce(arr(&[0, usize::MAX, usize::MAX], &[]), 0, None, 3, ByteOp::Max);
    assert_eq!(parts(&r), (vec![0, usize::MAX, usize::MAX], vec![]));
}

#[test]
fn reduce_of_empty_arrays_with_long_axes() {
    let xs = arr(&[0, usize::MAX, 3], &[]);
    let got = pushed(reduce(&Join, xs, 0, &None, None, false));
    assert_eq!(got, vec![(vec![0, 3], vec![])]);
    let xs = arr(&[usize::MAX, usize::MAX, 0], &[]);
    let got = pushed(reduce(&Join, xs, 2, &None, None, false));
    assert_eq!(got, vec![(vec![usize::MAX, usize::MAX, 0], vec![])]);
    let max = Pervasive { op: ByteOp::Max };
    let xs = arr(&[2, usize::MAX, 0], &[]);
    let got = pushed(reduce(&max, xs, 1, &None, Some(4), false));
    assert_eq!(got, vec![(vec![2, 0], vec![])]);
}
