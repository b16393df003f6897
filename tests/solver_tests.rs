use los::bitalg::BitGauss;
use los::bitmat::BitMat;
use los::bitvec::BitVec;
use los::ligsol::LightsSolver;

fn system_of(rows: &[&str]) -> BitMat {
    let mut m = BitMat::new();
    for r in rows {
        m.rows_mut().push(BitVec::from(r));
    }
    m
}

fn satisfies_all(m: &BitMat, x: &BitVec) -> bool {
    let n_vars = m.n_cols() - 1;
    (0..m.n_rows()).all(|i| {
        let mut parity = false;
        for c in 0..n_vars {
            parity ^= m.get(i, c) && x.get(c);
        }
        parity == m.get(i, n_vars)
    })
}

fn presses_clear(field: &BitMat, presses: &BitMat) -> bool {
    let (n_rows, n_cols) = (field.n_rows(), field.n_cols());
    let mut board: Vec<Vec<bool>> = (0..n_rows)
        .map(|r| (0..n_cols).map(|c| field.get(r, c)).collect())
        .collect();
    for r in 0..n_rows {
        for c in 0..n_cols {
            if presses.get(r, c) {
                board[r][c] = !board[r][c];
                if r > 0 {
                    board[r - 1][c] = !board[r - 1][c];
                }
                if r + 1 < n_rows {
                    board[r + 1][c] = !board[r + 1][c];
                }
                if c > 0 {
                    board[r][c - 1] = !board[r][c - 1];
                }
                if c + 1 < n_cols {
                    board[r][c + 1] = !board[r][c + 1];
                }
            }
        }
    }
    board.iter().all(|row| row.iter().all(|&b| !b))
}

fn all_on(n_rows: usize, n_cols: usize) -> BitMat {
    let mut field = BitMat::with_size(n_rows, n_cols);
    for r in 0..n_rows {
        field.rows_mut()[r].setall(true);
    }
    field
}

#[test]
fn gauss_reverse_diagonal() {
    let n = 3;
    let mut alg = BitGauss::with(BitMat::with_size(n, n + 1));
    for i in 0..n {
        alg.sys_mut().set(i, n - i - 1, true);
        alg.sys_mut().set(i, n, true);
    }
    assert_eq!(alg.sys().stringify(), "0011\n0101\n1001\n");
    assert_eq!(alg.rank(), 0);
    alg.gauss();
    assert_eq!(alg.sys().stringify(), "1001\n0101\n0011\n");
    assert_eq!(alg.rank(), n);
}

#[test]
fn gauss_twice_changes_nothing() {
    let systems: [&[&str]; 4] = [
        &["1101", "0111", "1011"],
        &["0011", "0101", "1001"],
        &["00101", "01100", "01111", "11010"],
        &["000", "011", "110"],
    ];
    for rows in systems.iter() {
        let mut alg = BitGauss::with(system_of(rows));
        alg.gauss();
        let once = alg.sys().stringify();
        let rank = alg.rank();
        alg.gauss();
        assert_eq!(alg.sys().stringify(), once);
        assert_eq!(alg.rank(), rank);
    }
}

#[test]
fn gauss_full_reduction() {
    let mut alg = BitGauss::with(system_of(&["1101", "0111", "1110"]));
    alg.gauss();
    assert_eq!(alg.sys().stringify(), "1001\n0100\n0011\n");
    assert_eq!(alg.rank(), 3);
}

#[test]
fn solve_rejects_empty_equation_with_true_rhs() {
    let mut alg = BitGauss::with(system_of(&["101", "001"]));
    assert!(alg.solve().is_none());
    assert_eq!(alg.rank(), 1);
    let mut alg = BitGauss::with(system_of(&["0001", "1100", "0110"]));
    assert!(alg.solve().is_none());
}

#[test]
fn solve_unique_solution() {
    let given = system_of(&["1101", "0111", "1110"]);
    let mut alg = BitGauss::with(system_of(&["1101", "0111", "1110"]));
    let x = alg.solve().unwrap();
    assert_eq!(x.stringify(), "101");
    assert!(satisfies_all(&given, &x));
}

#[test]
fn solve_prefers_earliest_lightest() {
    let mut alg = BitGauss::with(system_of(&["111"]));
    let x = alg.solve().unwrap();
    assert_eq!(alg.rank(), 1);
    assert_eq!(x.stringify(), "10");
}

#[test]
fn solve_picks_fewest_true() {
    // x0 ^ x2 ^ x3 = 1, x1 ^ x2 ^ x3 = 1: the lightest assignment sets x2 alone.
    let given = system_of(&["10111", "01111"]);
    let mut alg = BitGauss::with(system_of(&["10111", "01111"]));
    let x = alg.solve().unwrap();
    assert_eq!(alg.rank(), 2);
    assert_eq!(x.stringify(), "0010");
    assert_eq!(x.count_ones(), 1);
    assert!(satisfies_all(&given, &x));
}

#[test]
fn solution_satisfies_given_equations() {
    let systems: [&[&str]; 4] = [
        &["11001", "01101", "00110"],
        &["1101", "0111", "1110"],
        &["110100", "011010", "001101"],
        &["000", "011", "110"],
    ];
    for rows in systems.iter() {
        let given = system_of(rows);
        let mut alg = BitGauss::with(system_of(rows));
        let x = alg.solve().unwrap();
        assert!(satisfies_all(&given, &x));
    }
}

#[test]
fn all_zero_system_solves_to_all_false() {
    let mut alg = BitGauss::with(BitMat::with_size(3, 5));
    let x = alg.solve().unwrap();
    assert_eq!(alg.rank(), 0);
    assert_eq!(x.stringify(), "0000");
}

#[test]
fn empty_system_has_empty_solution() {
    let mut alg = BitGauss::with(BitMat::new());
    let x = alg.solve().unwrap();
    assert_eq!(x.len(), 0);
}

#[test]
fn too_many_free_variables_gives_none() {
    let mut alg = BitGauss::with(BitMat::with_size(1, 66));
    assert!(alg.solve().is_none());
    let mut alg = BitGauss::with(BitMat::with_size(1, 10));
    assert!(alg.solve().is_some());
}

#[test]
fn lights_single_cell() {
    let field = all_on(1, 1);
    let mut solver = LightsSolver::with(&field);
    assert_eq!(solver.n_solutions(), 0);
    assert_eq!(solver.min_weight(), 0);
    let sol = solver.solve().unwrap();
    assert_eq!(sol.stringify(), "1\n");
    assert_eq!(solver.min_weight(), 1);
    assert_eq!(solver.n_solutions(), 1);
}

#[test]
fn lights_single_cell_off() {
    let field = BitMat::with_size(1, 1);
    let mut solver = LightsSolver::with(&field);
    let sol = solver.solve().unwrap();
    assert_eq!(sol.stringify(), "0\n");
    assert_eq!(solver.min_weight(), 0);
}

#[test]
fn lights_two_by_two_all_on() {
    let field = all_on(2, 2);
    let mut solver = LightsSolver::with(&field);
    let sol = solver.solve().unwrap();
    assert_eq!(sol.stringify(), "11\n11\n");
    assert_eq!(solver.n_solutions(), 1);
    assert_eq!(solver.min_weight(), 4);
    assert!(presses_clear(&field, &sol));
    let mut again = LightsSolver::with(&field);
    assert_eq!(again.solve().unwrap().stringify(), sol.stringify());
    assert_eq!(again.n_solutions(), solver.n_solutions());
}

#[test]
fn lights_three_by_three_all_on() {
    let field = all_on(3, 3);
    let mut solver = LightsSolver::with(&field);
    let sol = solver.solve().unwrap();
    assert!(presses_clear(&field, &sol));
    assert_eq!(solver.n_solutions(), 1);
    assert_eq!(sol.stringify(), "101\n010\n101\n");
    assert_eq!(solver.min_weight(), 5);
}

#[test]
fn lights_rectangular_field() {
    let mut field = BitMat::with_size(2, 3);
    field.set(0, 0, true);
    field.set(0, 1, true);
    field.set(1, 0, true);
    let mut solver = LightsSolver::with(&field);
    let sol = solver.solve().unwrap();
    assert_eq!(sol.n_rows(), 2);
    assert_eq!(sol.n_cols(), 3);
    assert_eq!(sol.stringify(), "100\n000\n");
    assert!(presses_clear(&field, &sol));
    assert_eq!(solver.min_weight(), 1);
    assert_eq!(solver.n_solutions(), 4);
}

#[test]
fn lights_unreachable_field() {
    let mut field = BitMat::with_size(2, 3);
    field.set(0, 0, true);
    field.set(1, 2, true);
    let mut solver = LightsSolver::with(&field);
    assert!(solver.solve().is_none());
    assert_eq!(solver.n_solutions(), 0);
    assert_eq!(solver.min_weight(), 0);
}

#[test]
fn lights_four_by_four_all_on() {
    let field = all_on(4, 4);
    let mut solver = LightsSolver::with(&field);
    let sol = solver.solve().unwrap();
    assert!(presses_clear(&field, &sol));
    assert_eq!(solver.n_solutions(), 16);
    assert_eq!(solver.min_weight(), 4);
    assert_eq!(sol.stringify(), "0010\n1000\n0001\n0100\n");
}

#[test]
fn lights_empty_field() {
    let field = BitMat::new();
    let mut solver = LightsSolver::with(&field);
    let sol = solver.solve().unwrap();
    assert_eq!(sol.n_rows(), 0);
    assert_eq!(solver.n_solutions(), 1);
    assert_eq!(solver.min_weight(), 0);
}

#[test]
fn skipped_column_then_pivot_is_inconsistent() {
    let mut alg = BitGauss::with(system_of(&["001", "010"]));
    assert!(alg.solve().is_none());
    assert_eq!(alg.rank(), 1);
    assert_eq!(alg.sys().stringify(), "010\n001\n");
}

#[test]
fn skipped_column_system_still_solves() {
    let given = system_of(&["011", "000"]);
    let mut alg = BitGauss::with(system_of(&["011", "000"]));
    let x = alg.solve().unwrap();
    assert_eq!(x.stringify(), "01");
    assert_eq!(alg.rank(), 1);
    assert!(satisfies_all(&given, &x));
}

#[test]
fn rank_counts_pivots() {
    let mut alg = BitGauss::with(system_of(&["0011", "0101", "0110"]));
    alg.gauss();
    assert_eq!(alg.rank(), 2);
    assert_eq!(alg.sys().stringify(), "0101\n0011\n0000\n");
}

#[test]
fn inconsistent_rows_keep_procedure_order() {
    let mut alg = BitGauss::with(system_of(&["11", "10"]));
    alg.gauss();
    assert_eq!(alg.sys().stringify(), "11\n01\n");
    assert_eq!(alg.rank(), 1);
    assert!(alg.solve().is_none());
}
