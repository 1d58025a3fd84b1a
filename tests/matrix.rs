use concurrency::error::MatrixError;
use concurrency::matrix::{dispatch, matrix_mul, matrix_mul_with_workers, worker_for, Collector, Matrix, MsgInput, MsgOutput};
use concurrency::vector::{dot_product, Vector};

fn naive(a: &[i64], b: &[i64], r: usize, k: usize, c: usize) -> Vec<i64> {
    let mut out = vec![0i64; r * c];
    for i in 0..r {
        for j in 0..c {
            let mut s = 0i64;
            for t in 0..k {
                s += a[i * k + t] * b[t * c + j];
            }
            out[i * c + j] = s;
        }
    }
    out
}

fn pseudo_random(seed: &mut u64, n: usize) -> Vec<i64> {
    let mut v = Vec::with_capacity(n);
    for _ in 0..n {
        *seed = seed.wrapping_mul(6364136223846793005).wrapping_add(1442695040888963407);
        v.push(((*seed >> 33) % 2001) as i64 - 1000);
    }
    v
}

#[test]
fn test_matrix_mul() {
    let a = Matrix::new(vec![1, 2, 3, 4, 5, 6], 2, 3).unwrap();
    let b = Matrix::new(vec![1, 2, 3, 4, 5, 6], 3, 2).unwrap();
    let c = matrix_mul(&a, &b).unwrap();
    assert_eq!(c.row(), 2);
    assert_eq!(c.col(), 2);
    assert_eq!(c.data(), &vec![22, 28, 49, 64]);
    assert_eq!(
        c.to_debug_string(),
        "Matrix(row 2, col 2, [[22, 28], [49, 64]])"
    );
}

#[test]
fn test_dot_product() {
    let a = Vector::new(vec![1, 2, 3]);
    let b = Vector::new(vec![4, 5, 6]);
    let c = dot_product(a, b).unwrap();
    assert_eq!(c, 32);
}

#[test]
fn product_display_text() {
    let a = Matrix::new(vec![1, 2, 3, 4, 5, 6], 2, 3).unwrap();
    let b = Matrix::new(vec![1, 2, 3, 4, 5, 6], 3, 2).unwrap();
    let c = matrix_mul(&a, &b).unwrap();
    assert_eq!(c.to_display_string(), "[[22, 28], [49, 64]]");
}

#[test]
fn display_negative_and_wide_values() {
    let m = Matrix::new(vec![-5, 0, i64::MIN, 1234567890], 2, 2).unwrap();
    assert_eq!(
        m.to_display_string(),
        "[[-5, 0], [-9223372036854775808, 1234567890]]"
    );
}

#[test]
fn display_empty_shapes() {
    let m = Matrix::new(vec![], 0, 3).unwrap();
    assert_eq!(m.to_display_string(), "[]");
    let m = Matrix::new(vec![], 2, 0).unwrap();
    assert_eq!(m.to_display_string(), "[[], []]");
    assert_eq!(m.to_debug_string(), "Matrix(row 2, col 0, [[], []])");
}

#[test]
fn dimension_mismatch_is_reported() {
    let a = Matrix::new(vec![1, 2, 3, 4, 5, 6], 2, 3).unwrap();
    let b = Matrix::new(vec![1, 2, 3, 4], 2, 2).unwrap();
    assert_eq!(matrix_mul(&a, &b).err(), Some(MatrixError::DimensionMismatch(3, 2)));
    assert!(matches!(dispatch(&a, &b), Err(MatrixError::DimensionMismatch(3, 2))));
}

#[test]
fn length_mismatch_is_reported() {
    let a = Vector::new(vec![1, 2, 3]);
    let b = Vector::new(vec![4, 5]);
    assert_eq!(dot_product(a, b), Err(MatrixError::LengthMismatch(3, 2)));
}

#[test]
fn buffer_size_mismatch_is_reported() {
    assert!(matches!(
        Matrix::new(vec![1, 2, 3], 2, 2),
        Err(MatrixError::BufferSizeMismatch(3, 2, 2))
    ));
    assert!(matches!(
        Matrix::new(vec![], usize::MAX, 2),
        Err(MatrixError::BufferSizeMismatch(0, usize::MAX, 2))
    ));
}

#[test]
fn overflow_is_reported() {
    let a = Vector::new(vec![i64::MAX, 1]);
    let b = Vector::new(vec![1, 1]);
    assert_eq!(dot_product(a, b), Err(MatrixError::Overflow));
    let a = Matrix::new(vec![i64::MAX], 1, 1).unwrap();
    let b = Matrix::new(vec![2], 1, 1).unwrap();
    assert_eq!(matrix_mul(&a, &b).err(), Some(MatrixError::Overflow));
}

#[test]
fn dot_product_is_commutative() {
    let x = vec![3, -7, 11, 0, 5];
    let y = vec![-2, 4, 9, 13, -6];
    let xy = dot_product(Vector::new(x.clone()), Vector::new(y.clone())).unwrap();
    let yx = dot_product(Vector::new(y), Vector::new(x)).unwrap();
    assert_eq!(xy, yx);
    assert_eq!(xy, -6 - 28 + 99 + 0 - 30);
}

#[test]
fn dot_product_of_empty_vectors_is_zero() {
    assert_eq!(dot_product(Vector::new(vec![]), Vector::new(vec![])), Ok(0));
}

#[test]
fn one_by_one_is_scalar_multiplication() {
    let a = Matrix::new(vec![7], 1, 1).unwrap();
    let b = Matrix::new(vec![-6], 1, 1).unwrap();
    let c = matrix_mul(&a, &b).unwrap();
    assert_eq!(c.data(), &vec![-42]);
    assert_eq!(c.to_display_string(), "[[-42]]");
}

#[test]
fn hundred_by_hundred_matches_reference() {
    let mut seed = 42u64;
    let x = pseudo_random(&mut seed, 100 * 100);
    let y = pseudo_random(&mut seed, 100 * 100);
    let a = Matrix::new(x.clone(), 100, 100).unwrap();
    let b = Matrix::new(y.clone(), 100, 100).unwrap();
    let c = matrix_mul(&a, &b).unwrap();
    assert_eq!(c.row(), 100);
    assert_eq!(c.col(), 100);
    assert_eq!(c.data(), &naive(&x, &y, 100, 100, 100));
}

#[test]
fn rectangular_product_matches_reference() {
    let mut seed = 7u64;
    let x = pseudo_random(&mut seed, 3 * 5);
    let y = pseudo_random(&mut seed, 5 * 4);
    let a = Matrix::new(x.clone(), 3, 5).unwrap();
    let b = Matrix::new(y.clone(), 5, 4).unwrap();
    let c = matrix_mul(&a, &b).unwrap();
    assert_eq!(c.data(), &naive(&x, &y, 3, 5, 4));
}

#[test]
fn tasks_are_row_major_with_row_and_column_operands() {
    let a = Matrix::new(vec![1, 2, 3, 4, 5, 6], 2, 3).unwrap();
    let b = Matrix::new(vec![1, 2, 3, 4, 5, 6], 3, 2).unwrap();
    let tasks = dispatch(&a, &b).unwrap();
    assert_eq!(tasks.len(), 4);
    let values: Vec<(usize, i64)> = tasks
        .iter()
        .map(|t| {
            let o = t.compute().unwrap();
            (o.idx, o.value)
        })
        .collect();
    assert_eq!(values, vec![(0, 22), (1, 28), (2, 49), (3, 64)]);
    assert_eq!(tasks[2].idx(), 2);
    assert_eq!(a.row_vector(1).len(), 3);
    assert_eq!(b.column_vector(1).get(2), 6);
}

#[test]
fn task_compute_reports_dot_product() {
    let t = MsgInput::new(5, Vector::new(vec![1, 2]), Vector::new(vec![3, 4]));
    assert_eq!(t.compute(), Ok(MsgOutput { idx: 5, value: 11 }));
    let t = MsgInput::new(1, Vector::new(vec![1, 2]), Vector::new(vec![3]));
    assert_eq!(t.compute(), Err(MatrixError::LengthMismatch(2, 1)));
}

#[test]
fn replies_in_any_order_and_pool_size_give_same_result() {
    let mut seed = 99u64;
    let x = pseudo_random(&mut seed, 6 * 4);
    let y = pseudo_random(&mut seed, 4 * 5);
    let a = Matrix::new(x, 6, 4).unwrap();
    let b = Matrix::new(y, 4, 5).unwrap();
    let expected = matrix_mul(&a, &b).unwrap();
    for workers in [1usize, 4, 16] {
        let tasks = dispatch(&a, &b).unwrap();
        let mut queues: Vec<Vec<&MsgInput>> = (0..workers).map(|_| Vec::new()).collect();
        for t in tasks.iter() {
            queues[worker_for(t.idx(), workers)].push(t);
        }
        let mut out = Collector::new(6, 5).unwrap();
        for q in queues.iter().rev() {
            for t in q.iter().rev() {
                out.accept(Some(t.compute().unwrap())).unwrap();
            }
        }
        let m = out.finish();
        assert_eq!(m.data(), expected.data());
        assert_eq!(m.to_display_string(), expected.to_display_string());
    }
}

#[test]
fn collector_errors() {
    let mut out = Collector::new(2, 2).unwrap();
    assert_eq!(out.accept(None), Err(MatrixError::WorkerUnavailable));
    assert_eq!(
        out.accept(Some(MsgOutput { idx: 4, value: 1 })),
        Err(MatrixError::IndexOutOfRange(4))
    );
    assert_eq!(out.accept(Some(MsgOutput { idx: 3, value: 9 })), Ok(()));
    assert_eq!(out.finish().data(), &vec![0, 0, 0, 9]);
    assert!(matches!(Collector::new(usize::MAX, 2), Err(MatrixError::Overflow)));
}

#[test]
fn worker_assignment_is_round_robin() {
    assert_eq!(worker_for(0, 4), 0);
    assert_eq!(worker_for(5, 4), 1);
    assert_eq!(worker_for(15, 16), 15);
    assert_eq!(worker_for(7, 1), 0);
}

#[test]
fn pool_sizes_one_four_sixteen_agree() {
    let mut seed = 2024u64;
    let x = pseudo_random(&mut seed, 100 * 100);
    let y = pseudo_random(&mut seed, 100 * 100);
    let a = Matrix::new(x.clone(), 100, 100).unwrap();
    let b = Matrix::new(y.clone(), 100, 100).unwrap();
    let reference = naive(&x, &y, 100, 100, 100);
    for workers in [1usize, 4, 16] {
        let c = matrix_mul_with_workers(&a, &b, workers).unwrap();
        assert_eq!(c.data(), &reference);
    }
    let a = Matrix::new(vec![1, 2, 3, 4, 5, 6], 2, 3).unwrap();
    let b = Matrix::new(vec![1, 2, 3, 4, 5, 6], 3, 2).unwrap();
    for workers in [1usize, 3, 4, 16, 1000] {
        let c = matrix_mul_with_workers(&a, &b, workers).unwrap();
        assert_eq!(c.to_display_string(), "[[22, 28], [49, 64]]");
    }
}
