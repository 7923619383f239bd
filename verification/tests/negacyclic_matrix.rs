use ladon::linalg::DenseColumn;
use ladon::negacyclic::{
    block_negacyclic_matrix, column_to_vector, matrix_to_block_negacyclic, matrix_to_block_negacyclic_transposed,
    negacyclic_matrix, reduce_mod_2k, ring_to_negacyclic, vector_to_column, vector_to_row_negacyclic, N,
};
use ladon::ring::{Matrix, Ring, Vector};

#[test]
fn test_negacyclic_wrap_sign_flip() {
    // a = X^1, b = X^255  =>  a*b = X^256 = -1
    let mut a = [0i128; N];
    a[1] = 1;
    let m = negacyclic_matrix(&a);

    let mut b = DenseColumn::zeros(N);
    b.set(255, 1);
    let c = m.dot(&b);

    assert_eq!(c.get(0), -1, "X*X^255 should give -1 (the X^256 = -1 wrap)");
    for i in 1..N {
        assert_eq!(c.get(i), 0);
    }
}

#[test]
fn test_negacyclic_no_wrap() {
    // a = X^1, b = X^3  =>  a*b = X^4 (no wrap), coeff[4] = 1
    let mut a = [0i128; N];
    a[1] = 1;
    let m = negacyclic_matrix(&a);

    let mut b = DenseColumn::zeros(N);
    b.set(3, 1);
    let c = m.dot(&b);

    assert_eq!(c.get(4), 1);
    for i in 0..N {
        if i != 4 {
            assert_eq!(c.get(i), 0);
        }
    }
}

#[test]
fn test_reduce_mod_2k() {
    let k = 20u32;
    let m = 1i128 << k;
    let mut v = DenseColumn::from_vec(vec![-1i128, m, m + 5, 3, -(m / 2)]);
    reduce_mod_2k(&mut v, k);
    assert_eq!(v.get(0), m - 1);
    assert_eq!(v.get(1), 0);
    assert_eq!(v.get(2), 5);
    assert_eq!(v.get(3), 3);
    assert_eq!(v.get(4), m - (m / 2));
}

#[test]
fn reduce_mod_2k_at_widest_modulus() {
    let mut v = DenseColumn::from_vec(vec![-1i128, i128::MAX, i128::MIN + 1]);
    reduce_mod_2k(&mut v, 127);
    assert_eq!(v.get(0), i128::MAX);
    assert_eq!(v.get(1), i128::MAX);
    assert_eq!(v.get(2), 1);
}

#[test]
fn negacyclic_matrix_entries() {
    let mut a = [0i128; N];
    for i in 0..N {
        a[i] = i as i128 + 1;
    }
    let m = negacyclic_matrix(&a);
    assert_eq!(m.get(0, 0), 1);
    assert_eq!(m.get(5, 2), 4);
    assert_eq!(m.get(2, 5), -a[253]);
    assert_eq!(m.get(0, 255), -2);
    let mut r = Ring::zeroes_degree255();
    r.data[7] = 9;
    let mr = ring_to_negacyclic(&r);
    assert_eq!(mr.get(7, 0), 9);
    assert_eq!(mr.get(0, 249), -9);
}

#[test]
fn block_matrix_times_column_is_matrix_times_vector() {
    // A = [[X, 0], [1, X^255]], s = (X^255, 2): A s = (X^256, X^255 + 2 X^255) = (-1, 3 X^255).
    let mut a = Matrix::<2> { data: [[Ring::zeroes_degree255(); 2]; 2] };
    a.data[0][0].data[1] = 1;
    a.data[1][0].data[0] = 1;
    a.data[1][1].data[255] = 1;
    let mut s = Vector::<2>::new_degree255();
    s.data[0].data[255] = 1;
    s.data[1].data[0] = 2;
    let big = matrix_to_block_negacyclic(&a);
    let col = vector_to_column(&s);
    assert_eq!(col.len(), 512);
    assert_eq!(col.get(255), 1);
    assert_eq!(col.get(256), 2);
    let prod = big.dot(&col);
    assert_eq!(prod.get(0), -1);
    for i in 1..512 {
        if i != 256 + 255 {
            assert_eq!(prod.get(i), 0);
        }
    }
    assert_eq!(prod.get(256 + 255), 3);

    // A^T s: block (0,1) of the transpose is Negacyclic(A[1][0]) = identity.
    let big_t = matrix_to_block_negacyclic_transposed(&a);
    let prod_t = big_t.dot(&col);
    assert_eq!(prod_t.get(0), -1 + 2);
    assert_eq!(prod_t.get(256), 0);
    assert_eq!(prod_t.get(256 + 255), 2);

    let mut blocks = [[[0i128; N]; 2]; 2];
    blocks[0][0][1] = 1;
    blocks[1][0][0] = 1;
    blocks[1][1][255] = 1;
    let big_b = block_negacyclic_matrix(&blocks);
    let prod_b = big_b.dot(&col);
    for i in 0..512 {
        assert_eq!(prod_b.get(i), prod.get(i));
    }
}

#[test]
fn row_of_blocks_gives_inner_product_and_column_round_trips() {
    let mut t = Vector::<2>::new_degree255();
    t.data[0].data[1] = 1;
    t.data[1].data[0] = 5;
    let mut r = Vector::<2>::new_degree255();
    r.data[0].data[255] = 1;
    r.data[1].data[3] = 1;
    let row = vector_to_row_negacyclic(&t);
    let col = vector_to_column(&r);
    let v = row.dot(&col);
    assert_eq!(v.len(), 256);
    // X * X^255 + 5 * X^3 = -1 + 5 X^3
    assert_eq!(v.get(0), -1);
    assert_eq!(v.get(3), 5);
    let back: Vector<2> = column_to_vector(&col);
    assert_eq!(back.data[0].data, r.data[0].data);
    assert_eq!(back.data[1].data, r.data[1].data);
}
