use los::bitmat::BitMat;

#[test]
fn new_matrix_is_empty() {
    let mat = BitMat::new();
    assert_eq!(mat.n_rows(), 0);
    assert_eq!(mat.n_cols(), 0);
    assert_eq!(mat.rows().len(), 0);
    assert_eq!(mat.stringify(), "");
}

#[test]
fn with_size_dimensions() {
    let mat = BitMat::with_size(10, 10);
    assert_eq!(mat.n_rows(), 10);
    assert_eq!(mat.n_cols(), 10);
    let mat = BitMat::with_size(10, 0);
    assert_eq!(mat.rows()[0].len(), 0);
    assert_eq!(BitMat::with_size(2, 3).stringify(), "000\n000\n");
}

#[test]
fn rows_mut_and_new_row() {
    let mut mat = BitMat::new();
    mat.rows_mut().resize(10, BitMat::new_row(0));
    assert_eq!(mat.n_rows(), 10);
    assert_eq!(mat.n_cols(), 0);
    let mut mat = BitMat::new();
    mat.rows_mut().push(BitMat::new_row(10));
    assert_eq!(mat.n_rows(), 1);
    assert_eq!(mat.n_cols(), 10);
}

#[test]
fn swap_rows() {
    let n = 3;
    let mut mat = BitMat::with_size(n, n);
    for i in 0..n {
        mat.set(i, n - i - 1, true);
    }
    assert_eq!(mat.stringify(), "001\n010\n100\n");
    mat.swap(0, n - 1);
    assert_eq!(mat.stringify(), "100\n010\n001\n");
    mat.swap(1, 1);
    assert_eq!(mat.stringify(), "100\n010\n001\n");
}

#[test]
fn stringify_rows() {
    let mut m = BitMat::with_size(2, 2);
    m.set(0, 0, true);
    m.set(1, 1, true);
    assert_eq!(m.stringify(), "10\n01\n");
    assert_eq!(m.get(0, 0), true);
    assert_eq!(m.get(0, 1), false);
}

#[test]
fn xor_rows_twice_restores() {
    let mut m = BitMat::with_size(2, 70);
    for c in [0usize, 3, 64, 69] {
        m.set(0, c, true);
    }
    for c in [3usize, 5, 65] {
        m.set(1, c, true);
    }
    let before = m.stringify();
    m.xor(0, 1);
    assert_eq!(m.get(0, 0), true);
    assert_eq!(m.get(0, 3), false);
    assert_eq!(m.get(0, 5), true);
    assert_eq!(m.get(0, 65), true);
    assert_eq!(m.get(0, 69), true);
    m.xor(0, 1);
    assert_eq!(m.stringify(), before);
}

#[test]
fn xor_row_with_itself_clears_it() {
    let mut m = BitMat::with_size(2, 3);
    m.set(0, 0, true);
    m.set(0, 2, true);
    m.set(1, 1, true);
    m.xor(0, 0);
    assert_eq!(m.stringify(), "000\n010\n");
}
