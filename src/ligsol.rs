//! The "Lights Off" puzzle: pressing a cell toggles it and its four
//! neighbours; find the fewest presses that switch every light off.
use vstd::prelude::*;
use crate::bitvec::count_true;
use crate::bitmat::{BitMat, cols_of, is_rect};
use crate::bitalg::{BitGauss, gauss_result, gauss_of, satisfies, solves, n_vars_of, two_pow, MAX_FREE};
use vstd::arithmetic::div_mod::lemma_fundamental_div_mod;
use vstd::arithmetic::power2::pow2;

verus! {

/// Pressing cell (`r`, `c`) of an `n_rows` by `n_cols` field toggles the
/// cell numbered `u`: the cell itself, or one of its neighbours in the same
/// row or column. Cell (`r`, `c`) is numbered `r * n_cols + c`.
pub open spec fn toggles(n_rows: int, n_cols: int, r: int, c: int, u: int) -> bool {
    let v = r * n_cols + c;
    ||| u == v
    ||| (c + 1 < n_cols && u == v + 1)
    ||| (c >= 1 && u == v - 1)
    ||| (r + 1 < n_rows && u == v + n_cols)
    ||| (r >= 1 && u == v - n_cols)
}

/// The equation of cell (`r`, `c`): a coefficient for each cell whose press
/// toggles it, and its light as right-hand side.
pub open spec fn cell_equation(field: Seq<Seq<bool>>, r: int, c: int) -> Seq<bool> {
    let n_rows = field.len() as int;
    let n_cols = cols_of(field) as int;
    let n = n_rows * n_cols;
    Seq::new(
        (n + 1) as nat,
        |u: int|
            if u == n {
                field[r][c]
            } else {
                toggles(n_rows, n_cols, r, c, u)
            },
    )
}

/// `m` is the augmented system of `field`: one equation per cell, in the
/// order of the cells' numbers.
pub open spec fn lights_system(field: Seq<Seq<bool>>, m: Seq<Seq<bool>>) -> bool {
    let n_rows = field.len() as int;
    let n_cols = cols_of(field) as int;
    &&& m.len() == n_rows * n_cols
    &&& forall|r: int, c: int|
        0 <= r < n_rows && 0 <= c < n_cols ==> #[trigger] m[r * n_cols + c] == cell_equation(
            field,
            r,
            c,
        )
}

/// The assignment `x` laid out as an `n_rows` by `n_cols` field.
pub open spec fn grid_of(x: Seq<bool>, n_rows: nat, n_cols: nat) -> Seq<Seq<bool>> {
    Seq::new(n_rows, |r: int| Seq::new(n_cols, |c: int| x[r * n_cols + c]))
}

proof fn lemma_cell_in_range(r: int, c: int, n_rows: int, n_cols: int)
    requires
        0 <= r < n_rows,
        0 <= c < n_cols,
    ensures
        0 <= r * n_cols + c < n_rows * n_cols,
        r * n_cols + c + n_cols < n_rows * n_cols <== r + 1 < n_rows,
        r * n_cols + c >= n_cols <== r >= 1,
{
    assert(0 <= r * n_cols + c < n_rows * n_cols) by (nonlinear_arith)
        requires
            0 <= r < n_rows,
            0 <= c < n_cols,
    ;
    if r + 1 < n_rows {
        assert(r * n_cols + c + n_cols < n_rows * n_cols) by (nonlinear_arith)
            requires
                0 <= r,
                r + 1 < n_rows,
                0 <= c < n_cols,
        ;
    }
    if r >= 1 {
        assert(r * n_cols + c >= n_cols) by (nonlinear_arith)
            requires
                r >= 1,
                0 <= c < n_cols,
        ;
    }
}

proof fn lemma_cell_unique(r: int, c: int, r2: int, c2: int, n_cols: int)
    requires
        0 <= r,
        0 <= r2,
        0 <= c < n_cols,
        0 <= c2 < n_cols,
        r * n_cols + c == r2 * n_cols + c2,
    ensures
        r == r2,
        c == c2,
{
    if r < r2 {
        assert(r * n_cols + c < r2 * n_cols + c2) by (nonlinear_arith)
            requires
                r < r2,
                0 <= c < n_cols,
                0 <= c2,
        ;
    } else if r2 < r {
        assert(r2 * n_cols + c2 < r * n_cols + c) by (nonlinear_arith)
            requires
                r2 < r,
                0 <= c2 < n_cols,
                0 <= c,
        ;
    }
}

/// Pressing the cells numbered where `x` is `true` switches every light of
/// `field` off: for each cell, the presses that toggle it are odd in number
/// exactly when its light is on.
pub open spec fn clears(field: Seq<Seq<bool>>, x: Seq<bool>) -> bool {
    forall|r: int, c: int|
        0 <= r < field.len() && 0 <= c < cols_of(field) ==> #[trigger] satisfies(
            cell_equation(field, r, c),
            x,
        )
}

/// An assignment solves the augmented system of a field exactly when its
/// presses clear the field.
pub proof fn lemma_clears_iff_solves(field: Seq<Seq<bool>>, m: Seq<Seq<bool>>, x: Seq<bool>)
    requires
        lights_system(field, m),
    ensures
        solves(m, x) <==> clears(field, x),
{
    let n_rows = field.len() as int;
    let n_cols = cols_of(field) as int;
    if solves(m, x) {
        assert forall|r: int, c: int| 0 <= r < n_rows && 0 <= c < n_cols implies #[trigger] satisfies(
            cell_equation(field, r, c),
            x,
        ) by {
            lemma_cell_in_range(r, c, n_rows, n_cols);
            assert(m[r * n_cols + c] == cell_equation(field, r, c));
        }
    }
    if clears(field, x) {
        assert forall|v: int| 0 <= v < m.len() implies satisfies(#[trigger] m[v], x) by {
            assert(n_cols != 0) by (nonlinear_arith)
                requires
                    0 <= v < n_rows * n_cols,
            ;
            lemma_fundamental_div_mod(v, n_cols);
            let r = v / n_cols;
            let c = v % n_cols;
            assert(0 <= c < n_cols);
            assert(0 <= r < n_rows) by (nonlinear_arith)
                requires
                    v == n_cols * r + c,
                    0 <= c < n_cols,
                    0 <= v < n_rows * n_cols,
            ;
            assert(r * n_cols + c == v) by (nonlinear_arith)
                requires
                    v == n_cols * r + c,
            ;
            assert(satisfies(cell_equation(field, r, c), x));
        }
    }
}

/// A field has one augmented system: two solvers built from the same field
/// start from the same system, and so eliminate to the same rank.
pub proof fn lemma_lights_system_unique(field: Seq<Seq<bool>>, m1: Seq<Seq<bool>>, m2: Seq<Seq<bool>>)
    requires
        lights_system(field, m1),
        lights_system(field, m2),
    ensures
        m1 == m2,
{
    let n_rows = field.len() as int;
    let n_cols = cols_of(field) as int;
    assert forall|v: int| 0 <= v < m1.len() implies #[trigger] m1[v] == m2[v] by {
        assert(n_cols != 0) by (nonlinear_arith)
            requires
                0 <= v < n_rows * n_cols,
        ;
        lemma_fundamental_div_mod(v, n_cols);
        let r = v / n_cols;
        let c = v % n_cols;
        assert(0 <= r < n_rows) by (nonlinear_arith)
            requires
                v == n_cols * r + c,
                0 <= c < n_cols,
                0 <= v < n_rows * n_cols,
        ;
        assert(r * n_cols + c == v) by (nonlinear_arith)
            requires
                v == n_cols * r + c,
        ;
        assert(m1[r * n_cols + c] == m2[r * n_cols + c]);
    }
    assert(m1 =~= m2);
}

/// A solver for one "Lights Off" field.
pub struct LightsSolver {
    alg: BitGauss,
    field: Ghost<Seq<Seq<bool>>>,
    n_rows: usize,
    n_cols: usize,
    n_solutions: u64,
    min_weight: usize,
}

impl LightsSolver {
    /// The system is well formed and has one equation per cell.
    pub closed spec fn wf(&self) -> bool {
        &&& self.alg.wf()
        &&& forall|x: Seq<bool>|
            #![trigger solves(self.alg.spec_sys(), x)]
            #![trigger clears(self.field@, x)]
            solves(self.alg.spec_sys(), x) <==> clears(self.field@, x)
        &&& self.field@.len() == self.n_rows
        &&& cols_of(self.field@) == self.n_cols
        &&& self.n_rows * self.n_cols + 64 < usize::MAX
        &&& self.n_cols <= usize::MAX - 63
        &&& self.alg.spec_sys().len() == self.n_rows * self.n_cols
        &&& self.alg.spec_sys().len() > 0 ==> cols_of(self.alg.spec_sys()) == self.n_rows
            * self.n_cols + 1
    }

    /// The field, `true` where a light is on.
    pub closed spec fn spec_field(&self) -> Seq<Seq<bool>> {
        self.field@
    }

    /// The augmented system of the field.
    pub closed spec fn system(&self) -> Seq<Seq<bool>> {
        self.alg.spec_sys()
    }

    /// The rank that the last solve computed.
    pub closed spec fn spec_rank(&self) -> nat {
        self.alg.spec_rank()
    }

    /// Number of rows of the field.
    pub closed spec fn spec_n_rows(&self) -> nat {
        self.n_rows as nat
    }

    /// Number of columns of the field.
    pub closed spec fn spec_n_cols(&self) -> nat {
        self.n_cols as nat
    }

    /// Number of press patterns that clear the field, as the last solve
    /// found it.
    pub closed spec fn spec_n_solutions(&self) -> nat {
        self.n_solutions as nat
    }

    /// Number of presses of the pattern that the last solve returned.
    pub closed spec fn spec_min_weight(&self) -> nat {
        self.min_weight as nat
    }

    /// Builds the augmented system of `field`, where `true` is a light that
    /// is on.
    pub fn with(field: &BitMat) -> (r: LightsSolver)
        requires
            field.wf(),
            field@.len() * cols_of(field@) + 64 < usize::MAX,
        ensures
            r.wf(),
            lights_system(field@, r.system()),
            r.spec_field() == field@,
            r.spec_n_rows() == field@.len(),
            r.spec_n_cols() == cols_of(field@),
            r.spec_n_solutions() == 0,
            r.spec_min_weight() == 0,
    {
        let n_rows = field.n_rows();
        let n_cols = field.n_cols();
        let n = n_rows * n_cols;
        let mut sys = BitMat::with_size(n, n + 1);
        proof {
            field.lemma_shape();
        }
        let ghost f = field@;
        let mut row: usize = 0;
        let mut v: usize = 0;
        while row < n_rows
            invariant
                f == field@,
                field.wf(),
                is_rect(f),
                n_rows == f.len(),
                n_cols == cols_of(f),
                n == n_rows * n_cols,
                n + 64 < usize::MAX,
                row <= n_rows,
                v == row * n_cols,
                sys.wf(),
                sys@.len() == n,
                n > 0 ==> cols_of(sys@) == n + 1,
                forall|r: int, c: int|
                    0 <= r < n_rows && 0 <= c < n_cols && r * n_cols + c < v ==> #[trigger] sys@[r
                        * n_cols + c] == cell_equation(f, r, c),
                forall|w: int| v <= w < n ==> #[trigger] sys@[w] == Seq::new((n + 1) as nat, |u: int| false),
            decreases n_rows - row,
        {
            let mut col: usize = 0;
            while col < n_cols
                invariant
                    f == field@,
                    field.wf(),
                    is_rect(f),
                    n_rows == f.len(),
                    n_cols == cols_of(f),
                    n == n_rows * n_cols,
                    n + 64 < usize::MAX,
                    row < n_rows,
                    col <= n_cols,
                    v == row * n_cols + col,
                    sys.wf(),
                    sys@.len() == n,
                    n > 0 ==> cols_of(sys@) == n + 1,
                    forall|r: int, c: int|
                        0 <= r < n_rows && 0 <= c < n_cols && r * n_cols + c < v ==> #[trigger] sys@[r
                            * n_cols + c] == cell_equation(f, r, c),
                    forall|w: int| v <= w < n ==> #[trigger] sys@[w] == Seq::new((n + 1) as nat, |u: int| false),
                decreases n_cols - col,
            {
                proof {
                    lemma_cell_in_range(row as int, col as int, n_rows as int, n_cols as int);
                    sys.lemma_shape();
                }
                let ghost before = sys@;
                sys.set(v, v, true);
                if col + 1 < n_cols {
                    sys.set(v, v + 1, true);
                }
                if col >= 1 {
                    sys.set(v, v - 1, true);
                }
                if row + 1 < n_rows {
                    sys.set(v, v + n_cols, true);
                }
                if row >= 1 {
                    sys.set(v, v - n_cols, true);
                }
                let light = field.get(row, col);
                sys.set(v, n, light);
                proof {
                    assert(sys@[v as int] =~= cell_equation(f, row as int, col as int));
                    assert forall|w: int| 0 <= w < n && w != v implies #[trigger] sys@[w] == before[w] by {}
                    assert forall|r: int, c: int|
                        0 <= r < n_rows && 0 <= c < n_cols && r * n_cols + c < v + 1 implies #[trigger] sys@[r
                            * n_cols + c] == cell_equation(f, r, c) by {
                        if r * n_cols + c == v {
                            lemma_cell_unique(r, c, row as int, col as int, n_cols as int);
                        }
                    }
                }
                v = v + 1;
                col = col + 1;
            }
            proof {
                assert(v == (row + 1) * n_cols) by (nonlinear_arith)
                    requires
                        v == row * n_cols + n_cols,
                ;
            }
            row = row + 1;
        }
        proof {
            assert forall|r: int, c: int| 0 <= r < n_rows && 0 <= c < n_cols implies #[trigger] sys@[r
                * n_cols + c] == cell_equation(f, r, c) by {
                lemma_cell_in_range(r, c, n_rows as int, n_cols as int);
            }
            assert forall|x: Seq<bool>|
                #![trigger solves(sys@, x)]
                #![trigger clears(f, x)]
                solves(sys@, x) <==> clears(f, x) by {
                lemma_clears_iff_solves(f, sys@, x);
            }
        }
        LightsSolver {
            alg: BitGauss::with(sys),
            field: Ghost(f),
            n_rows,
            n_cols,
            n_solutions: 0,
            min_weight: 0,
        }
    }
    /// Number of press patterns that clear the field, `2` to the power of
    /// the number of free variables; 0 before a successful solve.
    pub fn n_solutions(&self) -> (r: u64)
        ensures
            r == self.spec_n_solutions(),
    {
        self.n_solutions
    }

    /// Number of presses of the pattern that the last successful solve
    /// returned; 0 before.
    pub fn min_weight(&self) -> (r: usize)
        ensures
            r == self.spec_min_weight(),
    {
        self.min_weight
    }

    /// The press pattern with the fewest presses that clears the field, as a
    /// field of the same size, or `None` when the solver finds none.
    pub fn solve(&mut self) -> (r: Option<BitMat>)
        requires
            old(self).wf(),
        ensures
            final(self).wf(),
            gauss_result(old(self).system(), final(self).system(), final(self).spec_rank()),
            gauss_of(old(self).system()) == (final(self).system(), final(self).spec_rank() as int),
            final(self).spec_n_rows() == old(self).spec_n_rows(),
            final(self).spec_n_cols() == old(self).spec_n_cols(),
            final(self).spec_field() == old(self).spec_field(),
            r is None <==> (forall|x: Seq<bool>|
                x.len() == old(self).spec_n_rows() * old(self).spec_n_cols() ==> !#[trigger] clears(
                    old(self).spec_field(),
                    x,
                )) || old(self).spec_n_rows() * old(self).spec_n_cols() - final(self).spec_rank()
                >= MAX_FREE,
            r is None ==> final(self).spec_n_solutions() == old(self).spec_n_solutions()
                && final(self).spec_min_weight() == old(self).spec_min_weight(),
            match r {
                None => true,
                Some(g) => exists|x: Seq<bool>|
                    {
                        &&& x.len() == old(self).spec_n_rows() * old(self).spec_n_cols()
                        &&& #[trigger] clears(old(self).spec_field(), x)
                        &&& forall|y: Seq<bool>|
                            #[trigger] clears(old(self).spec_field(), y) && y.len() == x.len()
                                ==> count_true(x) <= count_true(y)
                        &&& g.wf()
                        &&& g@ == grid_of(x, old(self).spec_n_rows(), old(self).spec_n_cols())
                        &&& final(self).spec_n_solutions() == pow2(
                            (old(self).spec_n_rows() * old(self).spec_n_cols()
                                - final(self).spec_rank()) as nat,
                        )
                        &&& final(self).spec_min_weight() == count_true(x)
                    },
            },
    {
        let ghost fld = self.field@;
        let ghost sys0 = self.alg.spec_sys();
        let ghost n0 = (self.n_rows * self.n_cols) as nat;
        proof {
            assert(n_vars_of(sys0) == n0);
            assert forall|x: Seq<bool>| #[trigger] clears(fld, x) implies solves(sys0, x) by {}
            assert forall|x: Seq<bool>| #[trigger] solves(sys0, x) implies clears(fld, x) by {}
        }
        match self.alg.solve() {
            Some(syssol) => {
                let ghost x = syssol@;
                let n = self.n_rows * self.n_cols;
                let rank = self.alg.rank();
                self.n_solutions = two_pow(n - rank);
                self.min_weight = syssol.count_ones();
                let n_rows = self.n_rows;
                let n_cols = self.n_cols;
                let mut sol = BitMat::with_size(n_rows, n_cols);
                let mut row: usize = 0;
                while row < n_rows
                    invariant
                        row <= n_rows,
                        n_rows * n_cols + 64 < usize::MAX,
                        x == syssol@,
                        syssol.wf(),
                        x.len() == n_rows * n_cols,
                        sol.wf(),
                        sol@.len() == n_rows,
                        n_rows > 0 ==> cols_of(sol@) == n_cols,
                        forall|r: int, c: int| 0 <= r < row && 0 <= c < n_cols ==> #[trigger] sol@[r][c] == x[r * n_cols + c],
                        forall|r: int, c: int| row <= r < n_rows && 0 <= c < n_cols ==> !#[trigger] sol@[r][c],
                    decreases n_rows - row,
                {
                    let mut col: usize = 0;
                    while col < n_cols
                        invariant
                            row < n_rows,
                            col <= n_cols,
                            n_rows * n_cols + 64 < usize::MAX,
                            x == syssol@,
                            syssol.wf(),
                            x.len() == n_rows * n_cols,
                            sol.wf(),
                            sol@.len() == n_rows,
                            cols_of(sol@) == n_cols,
                            forall|r: int, c: int| 0 <= r < row && 0 <= c < n_cols ==> #[trigger] sol@[r][c] == x[r * n_cols + c],
                            forall|c: int| 0 <= c < col ==> #[trigger] sol@[row as int][c] == x[row * n_cols + c],
                            forall|c: int| col <= c < n_cols ==> !#[trigger] sol@[row as int][c],
                            forall|r: int, c: int| row < r < n_rows && 0 <= c < n_cols ==> !#[trigger] sol@[r][c],
                        decreases n_cols - col,
                    {
                        proof {
                            lemma_cell_in_range(row as int, col as int, n_rows as int, n_cols as int);
                            sol.lemma_shape();
                        }
                        if syssol.get(row * n_cols + col) {
                            sol.set(row, col, true);
                        }
                        col = col + 1;
                    }
                    row = row + 1;
                }
                proof {
                    sol.lemma_shape();
                    let g = grid_of(x, n_rows as nat, n_cols as nat);
                    assert forall|r: int| 0 <= r < n_rows implies #[trigger] sol@[r] == g[r] by {
                        assert(sol@[r].len() == cols_of(sol@));
                        assert(sol@[r] =~= g[r]);
                    }
                    assert(sol@ =~= g);
                }
                proof {
                    assert forall|y: Seq<bool>| clears(fld, y) implies #[trigger] solves(sys0, y) by {}
                    assert(solves(sys0, x));
                    assert(clears(fld, x));
                    assert(x.len() == n0);
                    assert(!(n0 - self.alg.spec_rank() >= MAX_FREE));
                    assert(self.field@ == fld);
                    assert(old(self).spec_field() == fld);
                    assert(clears(old(self).spec_field(), x));
                    assert(x.len() == old(self).spec_n_rows() * old(self).spec_n_cols());
                    assert(sol.wf());
                    assert(self.spec_min_weight() == count_true(x));
                    assert(self.spec_n_solutions() == pow2((old(self).spec_n_rows() * old(self).spec_n_cols() - self.spec_rank()) as nat));
                    assert forall|y: Seq<bool>| #[trigger] clears(fld, y) && y.len() == x.len() implies count_true(x) <= count_true(y) by {
                        assert(solves(sys0, y));
                    }
                }
                Some(sol)
            },
            None => {
                proof {
                    assert forall|x: Seq<bool>| x.len() == n0 && !(n0 - self.alg.spec_rank() >= MAX_FREE) implies !#[trigger] clears(fld, x) by {
                        if clears(fld, x) {
                            assert(solves(sys0, x));
                        }
                    }
                }
                None
            },
        }
    }
}

} // verus!
