//! Gaussian elimination over GF(2) on an augmented matrix, and the search
//! for an assignment of fewest `true` variables that satisfies it.
use vstd::prelude::*;
use crate::bitvec::{BitVec, xor_seq, count_true, word_bit};
use crate::bitmat::{BitMat, cols_of, is_rect};
use vstd::arithmetic::power2::{pow2, lemma2_to64, lemma_pow2_unfold, lemma_pow2_strictly_increases, lemma_pow2_pos};

verus! {


/// Parity of the products `row[c] && x[c]` over the first `k` columns.
pub open spec fn dot(row: Seq<bool>, x: Seq<bool>, k: nat) -> bool
    decreases k,
{
    if k == 0 {
        false
    } else {
        dot(row, x, (k - 1) as nat) != (row[k - 1] && x[k - 1])
    }
}

/// The assignment `x` satisfies the equation `row`, whose last element is
/// its right-hand side.
pub open spec fn satisfies(row: Seq<bool>, x: Seq<bool>) -> bool {
    &&& row.len() == x.len() + 1
    &&& dot(row, x, x.len()) == row[x.len() as int]
}

/// The assignment `x` satisfies every equation of the system `m`.
pub open spec fn solves(m: Seq<Seq<bool>>, x: Seq<bool>) -> bool {
    forall|i: int| 0 <= i < m.len() ==> satisfies(#[trigger] m[i], x)
}

/// The two systems are satisfied by the same assignments.
pub open spec fn same_solutions(a: Seq<Seq<bool>>, b: Seq<Seq<bool>>) -> bool {
    forall|x: Seq<bool>| #![trigger solves(a, x)] #![trigger solves(b, x)] solves(a, x) <==> solves(b, x)
}

proof fn lemma_dot_xor(a: Seq<bool>, b: Seq<bool>, x: Seq<bool>, k: nat)
    requires
        k <= a.len(),
        a.len() == b.len(),
    ensures
        dot(xor_seq(a, b), x, k) == (dot(a, x, k) != dot(b, x, k)),
    decreases k,
{
    if k > 0 {
        lemma_dot_xor(a, b, x, (k - 1) as nat);
    }
}

proof fn lemma_xor_row_solutions(m: Seq<Seq<bool>>, i: int, j: int)
    requires
        is_rect(m),
        0 <= i < m.len(),
        0 <= j < m.len(),
        i != j,
    ensures
        same_solutions(m, m.update(i, xor_seq(m[i], m[j]))),
{
    let m2 = m.update(i, xor_seq(m[i], m[j]));
    assert forall|x: Seq<bool>| solves(m, x) <==> solves(m2, x) by {
        assert(m[i].len() == cols_of(m) && m[j].len() == cols_of(m));
        if x.len() + 1 != cols_of(m) {
            assert(!satisfies(m[i], x));
            assert(!satisfies(m2[i], x));
        } else {
            lemma_dot_xor(m[i], m[j], x, x.len());
        }
        if solves(m, x) {
            assert(satisfies(m[i], x) && satisfies(m[j], x));
            assert forall|r: int| 0 <= r < m2.len() implies satisfies(#[trigger] m2[r], x) by {
                if r != i {
                    assert(satisfies(m[r], x));
                }
            }
        }
        if solves(m2, x) {
            assert(satisfies(m2[i], x) && satisfies(m2[j], x));
            assert forall|r: int| 0 <= r < m.len() implies satisfies(#[trigger] m[r], x) by {
                if r != i {
                    assert(satisfies(m2[r], x));
                }
            }
        }
    }
}

proof fn lemma_swap_solutions(m: Seq<Seq<bool>>, i: int, j: int)
    requires
        0 <= i < m.len(),
        0 <= j < m.len(),
    ensures
        same_solutions(m, m.update(i, m[j]).update(j, m[i])),
{
    let m2 = m.update(i, m[j]).update(j, m[i]);
    assert forall|x: Seq<bool>| solves(m, x) <==> solves(m2, x) by {
        if solves(m, x) {
            assert forall|r: int| 0 <= r < m2.len() implies satisfies(#[trigger] m2[r], x) by {
                if r == j {
                    assert(satisfies(m[i], x));
                } else if r == i {
                    assert(satisfies(m[j], x));
                } else {
                    assert(satisfies(m[r], x));
                }
            }
        }
        if solves(m2, x) {
            assert forall|r: int| 0 <= r < m.len() implies satisfies(#[trigger] m[r], x) by {
                if r == j {
                    assert(satisfies(m2[i], x) || i == j);
                    assert(satisfies(m2[j], x));
                } else if r == i {
                    assert(satisfies(m2[j], x));
                } else {
                    assert(satisfies(m2[r], x));
                }
            }
        }
    }
}

/// Number of variables of an augmented system.
pub open spec fn n_vars_of(m: Seq<Seq<bool>>) -> nat {
    if cols_of(m) == 0 {
        0
    } else {
        (cols_of(m) - 1) as nat
    }
}

/// Number of free variables from which the search gives up: candidates are
/// numbered by one 64-bit word.
pub const MAX_FREE: usize = 64;

/// `2` to the power `e`, for `e` below 64.
pub(crate) fn two_pow(e: usize) -> (r: u64)
    requires
        e < 64,
    ensures
        r == pow2(e as nat),
{
    let mut r: u64 = 1;
    let mut k: usize = 0;
    proof {
        lemma2_to64();
    }
    while k < e
        invariant
            k <= e < 64,
            r == pow2(k as nat),
        decreases e - k,
    {
        proof {
            lemma_pow2_unfold((k + 1) as nat);
            lemma_pow2_strictly_increases((k + 1) as nat, 64);
            lemma2_to64();
        }
        r = r * 2;
        k = k + 1;
    }
    r
}

proof fn lemma_dot_zero(row: Seq<bool>, x: Seq<bool>, k: nat)
    requires
        forall|c: int| 0 <= c < k ==> !#[trigger] row[c],
    ensures
        !dot(row, x, k),
    decreases k,
{
    if k > 0 {
        lemma_dot_zero(row, x, (k - 1) as nat);
    }
}

proof fn lemma_dot_pivot_part(row: Seq<bool>, x: Seq<bool>, j: int, k: nat)
    requires
        forall|c: int| 0 <= c < k ==> #[trigger] row[c] == (c == j),
    ensures
        dot(row, x, k) == (0 <= j < k && x[j]),
    decreases k,
{
    if k > 0 {
        lemma_dot_pivot_part(row, x, j, (k - 1) as nat);
    }
}

/// The number whose binary digits, least significant first, are `b`.
pub open spec fn bits_value(b: Seq<bool>) -> nat
    decreases b.len(),
{
    if b.len() == 0 {
        0
    } else {
        2 * bits_value(b.drop_first()) + if b[0] {
            1nat
        } else {
            0nat
        }
    }
}

proof fn lemma_shift_step(v: u64, w: u64, low: u64, k: u64)
    by (bit_vector)
    requires
        low < 2,
        w < 0x8000_0000_0000_0000u64,
        v == 2 * w + low,
        0 < k < 64,
    ensures
        word_bit(v, k) == word_bit(w, (k - 1) as u64),
{
}

proof fn lemma_shift_low(v: u64, w: u64, low: u64)
    by (bit_vector)
    requires
        low < 2,
        w < 0x8000_0000_0000_0000u64,
        v == 2 * w + low,
    ensures
        word_bit(v, 0) == (low == 1),
{
}

proof fn lemma_bits_value(b: Seq<bool>)
    requires
        b.len() < 64,
    ensures
        bits_value(b) < pow2(b.len()),
        forall|k: int| 0 <= k < b.len() ==> word_bit(bits_value(b) as u64, k as u64) == #[trigger] b[k],
    decreases b.len(),
{
    lemma2_to64();
    if b.len() > 0 {
        let t = b.drop_first();
        lemma_bits_value(t);
        lemma_pow2_unfold(b.len());
        assert(pow2(b.len()) == 2 * pow2(t.len()));
        if t.len() < 63 {
            lemma_pow2_strictly_increases(t.len(), 63);
        }
        let w = bits_value(t);
        let low: nat = if b[0] { 1 } else { 0 };
        lemma_pow2_unfold(64);
        assert(w < 0x8000_0000_0000_0000);
        assert forall|k: int| 0 <= k < b.len() implies word_bit(bits_value(b) as u64, k as u64)
            == #[trigger] b[k] by {
            if k == 0 {
                lemma_shift_low(bits_value(b) as u64, w as u64, low as u64);
            } else {
                lemma_shift_step(bits_value(b) as u64, w as u64, low as u64, k as u64);
                assert(t[k - 1] == b[k]);
            }
        }
    }
}

/// The positions `c` of `flags` with `flags[c] == v`, in increasing order.
pub open spec fn cols_where(flags: Seq<bool>, v: bool) -> Seq<usize>
    decreases flags.len(),
{
    if flags.len() == 0 {
        Seq::empty()
    } else if flags.last() == v {
        cols_where(flags.drop_last(), v).push((flags.len() - 1) as usize)
    } else {
        cols_where(flags.drop_last(), v)
    }
}

/// The elements of `y` at the positions `cols`.
pub open spec fn pick(y: Seq<bool>, cols: Seq<usize>) -> Seq<bool> {
    Seq::new(cols.len(), |i: int| y[cols[i] as int])
}

/// `m` is in reduced row-echelon form, where `flags[c]` says whether
/// variable column `c` holds a pivot: pivot `j` sits in row `j` and is the
/// first `true` of that row, its column has no other `true`, and the rows
/// below the pivots have no `true` coefficient.
pub open spec fn is_rref(m: Seq<Seq<bool>>, flags: Seq<bool>) -> bool {
    let p = cols_where(flags, true);
    &&& flags.len() == n_vars_of(m)
    &&& p.len() <= m.len()
    &&& forall|j: int| 0 <= j < p.len() ==> #[trigger] m[j][p[j] as int]
    &&& forall|j: int, c: int| 0 <= j < p.len() && 0 <= c < p[j] ==> !#[trigger] m[j][c]
    &&& forall|j: int, k: int|
        0 <= j < p.len() && 0 <= k < m.len() && k != j ==> !#[trigger] m[k][p[j] as int]
    &&& forall|k: int, c: int| p.len() <= k < m.len() && 0 <= c < n_vars_of(m) ==> !#[trigger] m[k][c]
}

/// The first row from `j` down with a `true` in column `c`, or the number
/// of rows when there is none.
pub open spec fn first_true(m: Seq<Seq<bool>>, c: int, j: int) -> int
    decreases m.len() - j,
{
    if j >= m.len() || j < 0 {
        m.len() as int
    } else if m[j][c] {
        j
    } else {
        first_true(m, c, j + 1)
    }
}

/// Takes the exclusive or of pivot row `r` into every row from `k` down,
/// other than `r`, that has a `true` in column `c`.
pub open spec fn clear_column(m: Seq<Seq<bool>>, r: int, c: int, k: int) -> Seq<Seq<bool>>
    decreases m.len() - k,
{
    if k >= m.len() || k < 0 {
        m
    } else {
        let next = if k != r && m[k][c] {
            m.update(k, xor_seq(m[k], m[r]))
        } else {
            m
        };
        clear_column(next, r, c, k + 1)
    }
}

/// The matrix and the rank that elimination reaches from column `c` on,
/// with `r` pivots found before: for each column, the first row from `r`
/// down with a `true` there is swapped into row `r` and its exclusive or is
/// taken into every other row with a `true` there; a column without one is
/// skipped.
pub open spec fn eliminate_from(m: Seq<Seq<bool>>, r: int, c: int, n_vars: int) -> (Seq<Seq<bool>>, int)
    decreases n_vars - c,
{
    if c >= n_vars || r < 0 || r >= m.len() {
        (m, r)
    } else {
        let j = first_true(m, c, r);
        if j < m.len() {
            let swapped = m.update(j, m[r]).update(r, m[j]);
            eliminate_from(clear_column(swapped, r, c, 0), r + 1, c + 1, n_vars)
        } else {
            eliminate_from(m, r, c + 1, n_vars)
        }
    }
}

/// The matrix and the rank that elimination produces from `m`.
pub open spec fn gauss_of(m: Seq<Seq<bool>>) -> (Seq<Seq<bool>>, int) {
    eliminate_from(m, 0, 0, n_vars_of(m) as int)
}

/// The outcome of elimination on `before`: a system of the same shape with
/// the same solutions, in reduced row-echelon form, whose rank is its number
/// of pivots, and left as it was when it was in that form already.
pub open spec fn gauss_result(before: Seq<Seq<bool>>, after: Seq<Seq<bool>>, rank: nat) -> bool {
    &&& after.len() == before.len()
    &&& is_rect(after)
    &&& cols_of(after) == cols_of(before)
    &&& same_solutions(before, after)
    &&& exists|flags: Seq<bool>|
        #[trigger] is_rref(after, flags) && rank == cols_where(flags, true).len()
    &&& forall|flags: Seq<bool>| #[trigger] is_rref(before, flags) ==> after == before
}

/// The two matrices have as many rows and agree on the columns before `k`.
pub open spec fn agree_below(a: Seq<Seq<bool>>, b: Seq<Seq<bool>>, k: int) -> bool {
    &&& a.len() == b.len()
    &&& forall|r: int, c: int| 0 <= r < a.len() && 0 <= c < k ==> #[trigger] a[r][c] == #[trigger] b[r][c]
}

/// The first `n` bits of `idx`, least significant first.
pub open spec fn idx_bits(idx: u64, n: nat) -> Seq<bool> {
    Seq::new(n, |k: int| word_bit(idx, k as u64))
}

/// The values that the pivot equations of the reduced system `m` force on
/// the pivot variables once the free variables take the bits of `idx`.
pub open spec fn forced(m: Seq<Seq<bool>>, flags: Seq<bool>, idx: u64) -> Seq<bool> {
    let p = cols_where(flags, true);
    let f = cols_where(flags, false);
    Seq::new(
        p.len(),
        |j: int| dot(pick(m[j], f), idx_bits(idx, f.len()), f.len()) != m[j][n_vars_of(m) as int],
    )
}

/// Number of `true` variables of the candidate numbered `idx`.
pub open spec fn cand_weight(m: Seq<Seq<bool>>, flags: Seq<bool>, idx: u64) -> nat {
    count_true(forced(m, flags, idx)) + count_true(idx_bits(idx, cols_where(flags, false).len()))
}

/// Candidate `best` has the fewest `true` variables of all candidates, and
/// every earlier candidate has more.
pub open spec fn is_earliest_lightest(m: Seq<Seq<bool>>, flags: Seq<bool>, best: u64) -> bool {
    let nf = cols_where(flags, false).len();
    &&& best < pow2(nf)
    &&& forall|i: u64| i < pow2(nf) ==> cand_weight(m, flags, i) >= cand_weight(m, flags, best)
    &&& forall|i: u64| i < best ==> cand_weight(m, flags, i) > cand_weight(m, flags, best)
}

proof fn lemma_cols_where(flags: Seq<bool>, v: bool)
    requires
        flags.len() <= usize::MAX,
    ensures
        forall|i: int| 0 <= i < cols_where(flags, v).len() ==> (#[trigger] cols_where(flags, v)[i]) < flags.len()
            && flags[cols_where(flags, v)[i] as int] == v,
        forall|i: int, i2: int| 0 <= i < i2 < cols_where(flags, v).len() ==> #[trigger] cols_where(flags, v)[i] < #[trigger] cols_where(flags, v)[i2],
        cols_where(flags, true).len() + cols_where(flags, false).len() == flags.len(),
    decreases flags.len(),
{
    let n = flags.len();
    if n > 0 {
        let fl = flags.drop_last();
        lemma_cols_where(fl, v);
        lemma_cols_where(fl, true);
        lemma_cols_where(fl, false);
        let s = cols_where(flags, v);
        let s0 = cols_where(fl, v);
        assert forall|i: int| 0 <= i < s.len() implies (#[trigger] s[i]) < n && flags[s[i] as int] == v by {
            if i < s0.len() {
                assert(s[i] == s0[i]);
                assert(flags[s0[i] as int] == fl[s0[i] as int]);
            }
        }
        assert forall|i: int, i2: int| 0 <= i < i2 < s.len() implies #[trigger] s[i] < #[trigger] s[i2] by {
            assert(s[i] == s0[i]);
            if i2 < s0.len() {
                assert(s[i2] == s0[i2]);
            }
        }
    }
}

proof fn lemma_dot_push(a: Seq<bool>, b: Seq<bool>, e: bool, e2: bool, k: nat)
    requires
        k <= a.len(),
        k <= b.len(),
    ensures
        dot(a.push(e), b.push(e2), k) == dot(a, b, k),
    decreases k,
{
    if k > 0 {
        lemma_dot_push(a, b, e, e2, (k - 1) as nat);
    }
}

/// The products and the count split between pivot and free columns.
proof fn lemma_split(row: Seq<bool>, x: Seq<bool>, flags: Seq<bool>)
    requires
        flags.len() <= usize::MAX,
        flags.len() <= row.len(),
        flags.len() <= x.len(),
    ensures
        ({
            let p = cols_where(flags, true);
            let f = cols_where(flags, false);
            &&& dot(row, x, flags.len()) == (dot(pick(row, p), pick(x, p), p.len()) != dot(
                pick(row, f),
                pick(x, f),
                f.len(),
            ))
            &&& count_true(x.take(flags.len() as int)) == count_true(pick(x, p)) + count_true(
                pick(x, f),
            )
        }),
    decreases flags.len(),
{
    let n = flags.len();
    if n > 0 {
        let fl = flags.drop_last();
        lemma_split(row, x, fl);
        let p0 = cols_where(fl, true);
        let f0 = cols_where(fl, false);
        let c = (n - 1) as usize;
        assert(x.take(n as int).drop_last() =~= x.take(n - 1));
        if flags.last() {
            let p = p0.push(c);
            assert(pick(row, p) =~= pick(row, p0).push(row[n - 1]));
            assert(pick(x, p) =~= pick(x, p0).push(x[n - 1]));
            assert(pick(x, p).drop_last() =~= pick(x, p0));
            lemma_dot_push(pick(row, p0), pick(x, p0), row[n - 1], x[n - 1], p0.len());
        } else {
            let f = f0.push(c);
            assert(pick(row, f) =~= pick(row, f0).push(row[n - 1]));
            assert(pick(x, f) =~= pick(x, f0).push(x[n - 1]));
            assert(pick(x, f).drop_last() =~= pick(x, f0));
            lemma_dot_push(pick(row, f0), pick(x, f0), row[n - 1], x[n - 1], f0.len());
        }
    } else {
        assert(pick(x, cols_where(flags, true)) =~= Seq::<bool>::empty());
        assert(pick(x, cols_where(flags, false)) =~= Seq::<bool>::empty());
    }
}

/// The pivots among the first `c` columns come first, in the same order.
proof fn lemma_cols_prefix(flags: Seq<bool>, c: int, v: bool)
    requires
        0 <= c <= flags.len(),
        flags.len() <= usize::MAX,
    ensures
        cols_where(flags.take(c), v).len() <= cols_where(flags, v).len(),
        forall|i: int| 0 <= i < cols_where(flags.take(c), v).len() ==> #[trigger] cols_where(flags, v)[i]
            == cols_where(flags.take(c), v)[i],
        forall|i: int| cols_where(flags.take(c), v).len() <= i < cols_where(flags, v).len()
            ==> #[trigger] cols_where(flags, v)[i] >= c,
    decreases flags.len(),
{
    if c == flags.len() {
        assert(flags.take(c) =~= flags);
    } else {
        let fl = flags.drop_last();
        lemma_cols_prefix(fl, c, v);
        assert(fl.take(c) =~= flags.take(c));
    }
}

/// Two readings of one matrix in reduced row-echelon form have as many
/// pivots.
proof fn lemma_rref_rank_unique(m: Seq<Seq<bool>>, f1: Seq<bool>, f2: Seq<bool>)
    requires
        is_rref(m, f1),
        is_rref(m, f2),
        f1.len() <= usize::MAX,
    ensures
        cols_where(f1, true).len() == cols_where(f2, true).len(),
{
    lemma_cols_where(f1, true);
    lemma_cols_where(f2, true);
    let p1 = cols_where(f1, true);
    let p2 = cols_where(f2, true);
    if p1.len() < p2.len() {
        assert(m[p1.len() as int][p2[p1.len() as int] as int]);
    } else if p2.len() < p1.len() {
        assert(m[p2.len() as int][p1[p2.len() as int] as int]);
    }
}

/// Eliminating a second time what elimination produced changes neither the
/// matrix nor the rank.
pub proof fn lemma_gauss_idempotent(
    start: Seq<Seq<bool>>,
    once: Seq<Seq<bool>>,
    rank_once: nat,
    twice: Seq<Seq<bool>>,
    rank_twice: nat,
)
    requires
        is_rect(start),
        cols_of(start) <= usize::MAX,
        gauss_result(start, once, rank_once),
        gauss_result(once, twice, rank_twice),
    ensures
        twice == once,
        rank_twice == rank_once,
{
    let f1 = choose|flags: Seq<bool>| #[trigger] is_rref(once, flags) && rank_once == cols_where(flags, true).len();
    let f2 = choose|flags: Seq<bool>| #[trigger] is_rref(twice, flags) && rank_twice == cols_where(flags, true).len();
    assert(twice == once);
    lemma_rref_rank_unique(once, f1, f2);
}

proof fn lemma_increasing_lower(s: Seq<usize>, i: int)
    requires
        0 <= i < s.len(),
        forall|a: int, b: int| 0 <= a < b < s.len() ==> #[trigger] s[a] < #[trigger] s[b],
    ensures
        s[i] >= i,
    decreases i,
{
    if i > 0 {
        lemma_increasing_lower(s, i - 1);
        assert(s[i - 1] < s[i]);
    }
}

proof fn lemma_increasing_upper(s: Seq<usize>, i: int)
    requires
        0 <= i < s.len(),
        forall|a: int| 0 <= a < s.len() ==> (#[trigger] s[a]) < s.len(),
        forall|a: int, b: int| 0 <= a < b < s.len() ==> #[trigger] s[a] < #[trigger] s[b],
    ensures
        s[i] <= i,
    decreases s.len() - i,
{
    if i < s.len() - 1 {
        lemma_increasing_upper(s, i + 1);
        assert(s[i] < s[i + 1]);
    }
}

/// A square system whose elimination finds a pivot in every column is left
/// with the identity as its coefficients.
pub proof fn lemma_full_rank_identity(m: Seq<Seq<bool>>, flags: Seq<bool>)
    requires
        is_rref(m, flags),
        m.len() == n_vars_of(m),
        cols_where(flags, true).len() == n_vars_of(m),
        flags.len() <= usize::MAX,
    ensures
        forall|j: int, c: int| 0 <= j < m.len() && 0 <= c < m.len() ==> #[trigger] m[j][c] == (c == j),
{
    let p = cols_where(flags, true);
    lemma_cols_where(flags, true);
    assert forall|i: int| 0 <= i < p.len() implies #[trigger] p[i] == i by {
        lemma_increasing_lower(p, i);
        lemma_increasing_upper(p, i);
    }
    assert forall|j: int, c: int| 0 <= j < m.len() && 0 <= c < m.len() implies #[trigger] m[j][c] == (c == j) by {
        assert(p[c] == c);
        assert(p[j] == j);
    }
}

proof fn lemma_cols_where_complete(flags: Seq<bool>, v: bool, c: int)
    requires
        0 <= c < flags.len(),
        flags[c] == v,
        flags.len() <= usize::MAX,
    ensures
        exists|i: int| 0 <= i < cols_where(flags, v).len() && #[trigger] cols_where(flags, v)[i] == c,
    decreases flags.len(),
{
    let n = flags.len();
    let s0 = cols_where(flags.drop_last(), v);
    if c == n - 1 {
        assert(cols_where(flags, v)[s0.len() as int] == c);
    } else {
        lemma_cols_where_complete(flags.drop_last(), v, c);
        let i = choose|i: int| 0 <= i < s0.len() && #[trigger] s0[i] == c;
        assert(cols_where(flags, v)[i] == c);
    }
}

/// A matrix in reduced row-echelon form has one set of pivot columns.
proof fn lemma_rref_flags_unique(m: Seq<Seq<bool>>, f1: Seq<bool>, f2: Seq<bool>)
    requires
        is_rref(m, f1),
        is_rref(m, f2),
        f1.len() <= usize::MAX,
    ensures
        f1 == f2,
{
    lemma_rref_rank_unique(m, f1, f2);
    lemma_cols_where(f1, true);
    lemma_cols_where(f2, true);
    let p1 = cols_where(f1, true);
    let p2 = cols_where(f2, true);
    assert forall|j: int| 0 <= j < p1.len() implies #[trigger] p1[j] == p2[j] by {
        assert(m[j][p1[j] as int]);
        assert(m[j][p2[j] as int]);
    }
    assert forall|c: int| 0 <= c < f1.len() implies #[trigger] f1[c] == f2[c] by {
        if f1[c] {
            lemma_cols_where_complete(f1, true, c);
            let i = choose|i: int| 0 <= i < p1.len() && #[trigger] p1[i] == c;
            assert(f2[p2[i] as int]);
        } else if f2[c] {
            lemma_cols_where_complete(f2, true, c);
            let i = choose|i: int| 0 <= i < p2.len() && #[trigger] p2[i] == c;
            assert(f1[p1[i] as int]);
        }
    }
    assert(f1 =~= f2);
}

/// Solving is deterministic: a reduced system admits one assignment built
/// from its earliest lightest candidate.
pub proof fn lemma_solution_unique(
    m: Seq<Seq<bool>>,
    f1: Seq<bool>,
    b1: u64,
    x1: Seq<bool>,
    f2: Seq<bool>,
    b2: u64,
    x2: Seq<bool>,
)
    requires
        n_vars_of(m) <= usize::MAX,
        is_rref(m, f1),
        is_rref(m, f2),
        is_earliest_lightest(m, f1, b1),
        is_earliest_lightest(m, f2, b2),
        pick(x1, cols_where(f1, true)) == forced(m, f1, b1),
        pick(x1, cols_where(f1, false)) == idx_bits(b1, cols_where(f1, false).len()),
        pick(x2, cols_where(f2, true)) == forced(m, f2, b2),
        pick(x2, cols_where(f2, false)) == idx_bits(b2, cols_where(f2, false).len()),
        x1.len() == n_vars_of(m),
        x2.len() == n_vars_of(m),
    ensures
        x1 == x2,
{
    lemma_rref_flags_unique(m, f1, f2);
    let f = f1;
    if b1 < b2 {
        assert(cand_weight(m, f, b1) > cand_weight(m, f, b2));
    } else if b2 < b1 {
        assert(cand_weight(m, f, b2) > cand_weight(m, f, b1));
    }
    let p = cols_where(f, true);
    let fr = cols_where(f, false);
    assert forall|c: int| 0 <= c < x1.len() implies #[trigger] x1[c] == x2[c] by {
        if f[c] {
            lemma_cols_where_complete(f, true, c);
            let i = choose|i: int| 0 <= i < p.len() && #[trigger] p[i] == c;
            assert(pick(x1, p)[i] == pick(x2, p)[i]);
        } else {
            lemma_cols_where_complete(f, false, c);
            let i = choose|i: int| 0 <= i < fr.len() && #[trigger] fr[i] == c;
            assert(pick(x1, fr)[i] == pick(x2, fr)[i]);
        }
    }
    assert(x1 =~= x2);
}

/// The solutions of a consistent reduced system match the numbers below
/// `2` to the power of the free-variable count one for one: an assignment
/// solves it exactly when its pivot variables take the values that its free
/// variables, read as a number, force.
pub proof fn lemma_solutions_by_free_bits(m: Seq<Seq<bool>>, flags: Seq<bool>, y: Seq<bool>)
    requires
        is_rect(m),
        m.len() > 0 ==> cols_of(m) == n_vars_of(m) + 1,
        is_rref(m, flags),
        flags.len() <= usize::MAX,
        forall|k: int| cols_where(flags, true).len() <= k < m.len() ==> !#[trigger] m[k][n_vars_of(m) as int],
        cols_where(flags, false).len() < MAX_FREE,
        y.len() == n_vars_of(m),
    ensures
        bits_value(pick(y, cols_where(flags, false))) < pow2(cols_where(flags, false).len()),
        solves(m, y) <==> pick(y, cols_where(flags, true)) == forced(
            m,
            flags,
            bits_value(pick(y, cols_where(flags, false))) as u64,
        ),
{
    let nv = n_vars_of(m);
    let p = cols_where(flags, true);
    let f = cols_where(flags, false);
    let rank = p.len();
    let nf = f.len();
    lemma_cols_where(flags, true);
    lemma_cols_where(flags, false);
    let fy = pick(y, f);
    lemma_bits_value(fy);
    let iy = bits_value(fy) as u64;
    assert(idx_bits(iy, nf) =~= fy);
    if solves(m, y) {
        assert forall|j: int| 0 <= j < rank implies #[trigger] pick(y, p)[j] == forced(m, flags, iy)[j] by {
            assert(satisfies(m[j], y));
            assert(m[j].len() == cols_of(m));
            lemma_split(m[j], y, flags);
            assert forall|c: int| 0 <= c < rank implies #[trigger] pick(m[j], p)[c] == (c == j) by {
                if c != j {
                    assert(!m[j][p[c] as int]);
                }
            }
            lemma_dot_pivot_part(pick(m[j], p), pick(y, p), j, rank);
        }
        assert(pick(y, p) =~= forced(m, flags, iy));
    }
    if pick(y, p) == forced(m, flags, iy) {
        assert forall|i: int| 0 <= i < m.len() implies satisfies(#[trigger] m[i], y) by {
            assert(m[i].len() == cols_of(m));
            if i < rank {
                lemma_split(m[i], y, flags);
                assert forall|c: int| 0 <= c < rank implies #[trigger] pick(m[i], p)[c] == (c == i) by {
                    if c != i {
                        assert(!m[i][p[c] as int]);
                    }
                }
                lemma_dot_pivot_part(pick(m[i], p), pick(y, p), i, rank);
                assert(pick(y, p)[i] == forced(m, flags, iy)[i]);
            } else {
                assert forall|c: int| 0 <= c < nv implies !#[trigger] m[i][c] by {}
                lemma_dot_zero(m[i], y, nv);
            }
        }
    }
}

/// An equation with no `true` coefficient and a `true` right-hand side has
/// no solution, so no assignment solves a system that holds it.
pub proof fn lemma_empty_equation_unsolvable(m: Seq<Seq<bool>>, row: int)
    requires
        0 <= row < m.len(),
        m[row].len() == n_vars_of(m) + 1,
        forall|c: int| 0 <= c < n_vars_of(m) ==> !#[trigger] m[row][c],
        m[row][n_vars_of(m) as int],
    ensures
        forall|x: Seq<bool>| !solves(m, x),
{
    assert forall|x: Seq<bool>| !solves(m, x) by {
        if x.len() == n_vars_of(m) {
            lemma_dot_zero(m[row], x, x.len());
        }
        assert(!satisfies(m[row], x));
    }
}

proof fn lemma_count_bound(a: Seq<bool>)
    ensures
        count_true(a) <= a.len(),
    decreases a.len(),
{
    if a.len() > 0 {
        lemma_count_bound(a.drop_last());
    }
}

/// The assignment assembled from the lightest candidate satisfies the
/// system before elimination, and no solution of it is lighter.
proof fn lemma_solution_facts(
    start: Seq<Seq<bool>>,
    m: Seq<Seq<bool>>,
    flags: Seq<bool>,
    best: u64,
    x: Seq<bool>,
    min_weight: nat,
)
    requires
        is_rect(m),
        m.len() > 0 ==> cols_of(m) == n_vars_of(m) + 1,
        cols_of(start) == cols_of(m),
        same_solutions(start, m),
        is_rref(m, flags),
        flags.len() <= usize::MAX,
        x.len() == n_vars_of(m),
        forall|k: int| cols_where(flags, true).len() <= k < m.len() ==> !#[trigger] m[k][n_vars_of(m) as int],
        cols_where(flags, false).len() < MAX_FREE,
        pick(x, cols_where(flags, true)) == forced(m, flags, best),
        pick(x, cols_where(flags, false)) == idx_bits(best, cols_where(flags, false).len()),
        min_weight == cand_weight(m, flags, best),
        forall|i: u64| i < pow2(cols_where(flags, false).len()) ==> cand_weight(m, flags, i) >= min_weight,
    ensures
        solves(start, x),
        forall|y: Seq<bool>|
            #[trigger] solves(start, y) && y.len() == n_vars_of(start) ==> count_true(x) <= count_true(y),
{
    let nv = n_vars_of(m);
    let p = cols_where(flags, true);
    let f = cols_where(flags, false);
    let rank = p.len();
    let nf = f.len();
    lemma_cols_where(flags, true);
    lemma_cols_where(flags, false);
    assert forall|i: int| 0 <= i < m.len() implies satisfies(#[trigger] m[i], x) by {
        assert(m[i].len() == cols_of(m));
        if i < rank {
            lemma_split(m[i], x, flags);
            assert forall|c: int| 0 <= c < rank implies #[trigger] pick(m[i], p)[c] == (c == i) by {
                if c != i {
                    assert(!m[i][p[c] as int]);
                }
            }
            lemma_dot_pivot_part(pick(m[i], p), pick(x, p), i, rank);
        } else {
            assert forall|c: int| 0 <= c < nv implies !#[trigger] m[i][c] by {}
            lemma_dot_zero(m[i], x, nv);
        }
    }
    assert forall|y: Seq<bool>|
        #[trigger] solves(start, y) && y.len() == n_vars_of(start) implies count_true(x) <= count_true(y) by {
        assert(solves(m, y));
        let fy = pick(y, f);
        lemma_bits_value(fy);
        let iy = bits_value(fy) as u64;
        assert(idx_bits(iy, nf) =~= fy);
        assert forall|j: int| 0 <= j < rank implies #[trigger] pick(y, p)[j] == forced(m, flags, iy)[j] by {
            assert(satisfies(m[j], y));
            assert(m[j].len() == cols_of(m));
            lemma_split(m[j], y, flags);
            assert forall|c: int| 0 <= c < rank implies #[trigger] pick(m[j], p)[c] == (c == j) by {
                if c != j {
                    assert(!m[j][p[c] as int]);
                }
            }
            lemma_dot_pivot_part(pick(m[j], p), pick(y, p), j, rank);
        }
        assert(pick(y, p) =~= forced(m, flags, iy));
        lemma_split(y, y, flags);
        lemma_split(x, x, flags);
        assert(y.take(nv as int) =~= y);
        assert(x.take(nv as int) =~= x);
        assert(cand_weight(m, flags, iy) >= min_weight);
    }
}

/// An augmented system of `n_rows` equations over `n_cols - 1` boolean
/// variables: the last column holds the right-hand sides.
pub struct BitGauss {
    sys: BitMat,
    rank: usize,
}

impl BitGauss {
    /// The system is a well-formed matrix.
    pub closed spec fn wf(&self) -> bool {
        self.sys.wf()
    }

    /// The system as a matrix of rows.
    pub closed spec fn spec_sys(&self) -> Seq<Seq<bool>> {
        self.sys@
    }

    /// The rank last computed by elimination.
    pub closed spec fn spec_rank(&self) -> nat {
        self.rank as nat
    }

    /// Takes ownership of the augmented system `sys`; the rank starts at 0.
    pub fn with(sys: BitMat) -> (r: BitGauss)
        requires
            sys.wf(),
        ensures
            r.wf(),
            r.spec_sys() == sys@,
            r.spec_rank() == 0,
    {
        BitGauss { sys, rank: 0 }
    }

    /// The system.
    pub fn sys(&self) -> (r: &BitMat)
        ensures
            r@ == self.spec_sys(),
            self.wf() ==> r.wf(),
    {
        &self.sys
    }

    /// The system, for changes in place; the rank is left as it was.
    pub fn sys_mut(&mut self) -> (r: &mut BitMat)
        ensures
            r@ == old(self).spec_sys(),
            old(self).wf() ==> r.wf(),
            final(self).spec_sys() == final(r)@,
            final(r).wf() ==> final(self).wf(),
            final(self).spec_rank() == old(self).spec_rank(),
    {
        &mut self.sys
    }

    /// The rank last computed by elimination.
    pub fn rank(&self) -> (r: usize)
        ensures
            r == self.spec_rank(),
    {
        self.rank
    }


    /// Reduces the system in place and returns its pivot columns and its
    /// free columns, with the flags that tell them apart.
    fn eliminate(&mut self) -> (res: (Vec<usize>, Vec<usize>, Ghost<Seq<bool>>))
        requires
            old(self).wf(),
        ensures
            final(self).wf(),
            final(self).spec_sys().len() == old(self).spec_sys().len(),
            is_rect(final(self).spec_sys()),
            cols_of(final(self).spec_sys()) == cols_of(old(self).spec_sys()),
            same_solutions(old(self).spec_sys(), final(self).spec_sys()),
            is_rref(final(self).spec_sys(), res.2@),
            gauss_of(old(self).spec_sys()) == (final(self).spec_sys(), final(self).spec_rank() as int),
            forall|flags: Seq<bool>| #[trigger] is_rref(old(self).spec_sys(), flags) ==> final(self).spec_sys() == old(self).spec_sys(),
            res.0@ == cols_where(res.2@, true),
            res.1@ == cols_where(res.2@, false),
            final(self).spec_rank() == res.0@.len(),
    {
        let n_rows = self.sys.n_rows();
        let n_cols = self.sys.n_cols();
        let n_vars: usize = if n_cols == 0 {
            0
        } else {
            n_cols - 1
        };
        let ghost start = self.sys@;
        proof {
            self.sys.lemma_shape();
        }
        let mut pivots: Vec<usize> = Vec::new();
        let mut free: Vec<usize> = Vec::new();
        let ghost mut flags: Seq<bool> = Seq::empty();
        let ghost fl0 = choose|fl: Seq<bool>| is_rref(start, fl);
        let mut r: usize = 0;
        let mut c: usize = 0;
        while c < n_vars
            invariant
                self.sys.wf(),
                is_rect(start),
                n_rows == self.sys@.len(),
                n_rows == start.len(),
                n_cols == cols_of(self.sys@),
                n_cols == cols_of(start),
                n_vars == n_vars_of(self.sys@),
                c <= n_vars,
                flags.len() == c,
                pivots@ == cols_where(flags, true),
                free@ == cols_where(flags, false),
                r == pivots@.len(),
                r <= n_rows,
                forall|j: int| 0 <= j < r ==> #[trigger] pivots@[j] < c,
                forall|j: int| 0 <= j < r ==> #[trigger] self.sys@[j][pivots@[j] as int],
                forall|j: int, k: int|
                    0 <= j < r && 0 <= k < n_rows && k != j ==> !#[trigger] self.sys@[k][pivots@[j] as int],
                forall|k: int, c2: int| r <= k < n_rows && 0 <= c2 < c ==> !#[trigger] self.sys@[k][c2],
                forall|j: int, c2: int| 0 <= j < r && 0 <= c2 < pivots@[j] ==> !#[trigger] self.sys@[j][c2],
                same_solutions(start, self.sys@),
                n_vars <= usize::MAX,
                eliminate_from(self.sys@, r as int, c as int, n_vars as int) == gauss_of(start),
                is_rref(start, fl0) ==> self.sys@ == start && flags == fl0.take(c as int),
            decreases n_vars - c,
        {
            proof {
                self.sys.lemma_shape();
                lemma_cols_where(flags, true);
                lemma_cols_where(flags, false);
            }
            let ghost cur = self.sys@;
            let ghost same = is_rref(start, fl0) && cur == start && flags == fl0.take(c as int);
            proof {
                if same {
                    lemma_cols_prefix(fl0, c as int, true);
                    lemma_cols_prefix(fl0, c + 1, true);
                    lemma_cols_where(fl0, true);
                    lemma_cols_where(fl0, false);
                    assert(fl0.take(c + 1) =~= fl0.take(c as int).push(fl0[c as int]));
                    assert(fl0.take(c as int).push(true).drop_last() =~= fl0.take(c as int));
                    assert(fl0.take(c as int).push(false).drop_last() =~= fl0.take(c as int));
                    let pp = cols_where(fl0, true);
                    if fl0[c as int] {
                        assert(pp[r as int] == c);
                        assert(cur[r as int][c as int]);
                        assert forall|k: int| 0 <= k < n_rows && k != r implies !#[trigger] cur[k][c as int] by {
                            assert(!start[k][pp[r as int] as int]);
                        }
                    } else {
                        assert forall|k: int| r <= k < n_rows implies !#[trigger] cur[k][c as int] by {
                            if k < pp.len() {
                                assert(pp[k] >= c);
                                assert(fl0[pp[k] as int]);
                                assert(!start[k][c as int]);
                            }
                        }
                    }
                }
            }
            let mut j: usize = r;
            while j < n_rows && !self.sys.get(j, c)
                invariant
                    self.sys.wf(),
                    self.sys@ == cur,
                    r <= j <= n_rows,
                    c < n_vars,
                    n_rows == self.sys@.len(),
                    n_cols == cols_of(self.sys@),
                    n_vars == n_vars_of(self.sys@),
                    forall|k: int| r <= k < j ==> !#[trigger] cur[k][c as int],
                    first_true(cur, c as int, j as int) == first_true(cur, c as int, r as int),
                decreases n_rows - j,
            {
                j = j + 1;
            }
            if j < n_rows {
                self.sys.swap(j, r);
                let ghost base = self.sys@;
                proof {
                    if same {
                        assert(j == r);
                        assert(base =~= cur);
                    }
                    lemma_swap_solutions(cur, j as int, r as int);
                    assert(agree_below(cur, base, c as int));
                }
                let mut k: usize = 0;
                while k < n_rows
                    invariant
                        self.sys.wf(),
                        k <= n_rows,
                        r < n_rows,
                        c < n_vars,
                        n_rows == self.sys@.len(),
                        n_cols == cols_of(self.sys@),
                        n_vars == n_vars_of(self.sys@),
                        base.len() == n_rows,
                        base[r as int][c as int],
                        self.sys@[r as int] == base[r as int],
                        forall|c2: int| 0 <= c2 < c ==> !#[trigger] base[r as int][c2],
                        agree_below(base, self.sys@, c as int),
                        same_solutions(start, self.sys@),
                        forall|k2: int| 0 <= k2 < k && k2 != r ==> !#[trigger] self.sys@[k2][c as int],
                        forall|k2: int| k <= k2 < n_rows ==> #[trigger] self.sys@[k2] == base[k2],
                        same ==> self.sys@ == base && base == cur,
                        clear_column(self.sys@, r as int, c as int, k as int) == clear_column(base, r as int, c as int, 0),
                        same ==> forall|k2: int| 0 <= k2 < n_rows && k2 != r ==> !#[trigger] base[k2][c as int],
                    decreases n_rows - k,
                {
                    proof {
                        self.sys.lemma_shape();
                    }
                    if k != r && self.sys.get(k, c) {
                        let ghost before = self.sys@;
                        self.sys.xor(k, r);
                        proof {
                            lemma_xor_row_solutions(before, k as int, r as int);
                        }
                    }
                    k = k + 1;
                }
                let ghost old_p = pivots@;
                pivots.push(c);
                proof {
                    let m = self.sys@;
                    assert forall|j: int| 0 <= j < r + 1 implies #[trigger] m[j][pivots@[j] as int] by {
                        if j < r {
                            assert(pivots@[j] == old_p[j]);
                            assert(cur[j][old_p[j] as int]);
                            assert(base[j][old_p[j] as int]);
                        }
                    }
                    assert forall|j: int, k2: int|
                        0 <= j < r + 1 && 0 <= k2 < n_rows && k2 != j implies !#[trigger] m[k2][pivots@[j] as int] by {
                        if j < r {
                            assert(pivots@[j] == old_p[j]);
                            assert(!cur[k2][old_p[j] as int]);
                            assert(!base[k2][old_p[j] as int]);
                        }
                    }
                    assert forall|k2: int, c2: int| r + 1 <= k2 < n_rows && 0 <= c2 < c + 1 implies !#[trigger] m[k2][c2] by {
                        if c2 < c {
                            assert(!cur[k2][c2]);
                            assert(!base[k2][c2]);
                        }
                    }
                    assert forall|j2: int, c2: int| 0 <= j2 < r + 1 && 0 <= c2 < pivots@[j2] implies !#[trigger] m[j2][c2] by {
                        if j2 < r {
                            assert(pivots@[j2] == old_p[j2]);
                            assert(!cur[j2][c2]);
                            assert(!base[j2][c2]);
                        } else {
                            assert(!base[r as int][c2]);
                        }
                    }
                    assert(flags.push(true).drop_last() =~= flags);
                    assert(flags.push(false).drop_last() =~= flags);
                    flags = flags.push(true);
                }
                r = r + 1;
            } else {
                free.push(c);
                proof {
                    assert(flags.push(true).drop_last() =~= flags);
                    assert(flags.push(false).drop_last() =~= flags);
                    flags = flags.push(false);
                }
            }
            c = c + 1;
        }
        self.rank = r;
        proof {
            self.sys.lemma_shape();
        }
        (pivots, free, Ghost(flags))
    }

    /// Reduces the system in place to reduced row-echelon form. For each
    /// variable column in turn, the first row from the next pivot row down
    /// with a `true` there is moved up to the pivot row, and its exclusive
    /// or is taken into every other row with a `true` in that column; a
    /// column without such a row is free. The rank becomes the number of
    /// pivots.
    pub fn gauss(&mut self)
        requires
            old(self).wf(),
        ensures
            final(self).wf(),
            gauss_result(old(self).spec_sys(), final(self).spec_sys(), final(self).spec_rank()),
            gauss_of(old(self).spec_sys()) == (final(self).spec_sys(), final(self).spec_rank() as int),
    {
        let res = self.eliminate();
        proof {
            assert(is_rref(self.spec_sys(), res.2@));
        }
    }
    /// Fills `rest` with the bits of `idx` as free variables, and `acc`
    /// with the pivot variables that the reduced system then forces.
    fn build_candidate(
        &self,
        idx: u64,
        pivots: &Vec<usize>,
        free: &Vec<usize>,
        flags: Ghost<Seq<bool>>,
        n_vars: usize,
        rest: &mut BitVec,
        acc: &mut BitVec,
    )
        requires
            self.wf(),
            is_rect(self.spec_sys()),
            n_vars == n_vars_of(self.spec_sys()),
            self.spec_sys().len() > 0 ==> cols_of(self.spec_sys()) == n_vars + 1,
            is_rref(self.spec_sys(), flags@),
            pivots@ == cols_where(flags@, true),
            free@ == cols_where(flags@, false),
            free@.len() < MAX_FREE,
            flags@.len() <= usize::MAX,
            old(rest).wf(),
            old(acc).wf(),
            old(rest)@.len() == free@.len(),
            old(acc)@.len() == pivots@.len(),
        ensures
            final(rest).wf(),
            final(acc).wf(),
            final(rest)@ == idx_bits(idx, free@.len() as nat),
            final(acc)@ == forced(self.spec_sys(), flags@, idx),
    {
        let ghost m = self.spec_sys();
        let n_rest = free.len();
        let rank = pivots.len();
        proof {
            lemma_cols_where(flags@, false);
            lemma_cols_where(flags@, true);
        }
        let mut k: usize = 0;
        while k < n_rest
            invariant
                k <= n_rest,
                n_rest < 64,
                rest.wf(),
                rest@.len() == n_rest,
                forall|k2: int| 0 <= k2 < k ==> rest@[k2] == word_bit(idx, k2 as u64),
            decreases n_rest - k,
        {
            rest.set(k, (idx >> k as u64) & 1u64 == 1u64);
            k = k + 1;
        }
        assert(rest@ =~= idx_bits(idx, n_rest as nat));
        acc.setall(false);
        let ghost bits = idx_bits(idx, n_rest as nat);
        let mut j: usize = 0;
        while j < rank
            invariant
                j <= rank,
                self.wf(),
                is_rect(m),
                m == self.spec_sys(),
                rank <= m.len(),
                n_vars == n_vars_of(m),
                m.len() > 0 ==> cols_of(m) == n_vars + 1,
                rank == pivots@.len(),
                pivots@ == cols_where(flags@, true),
                n_rest == free@.len(),
                bits == idx_bits(idx, n_rest as nat),
                free@ == cols_where(flags@, false),
                forall|i: int| 0 <= i < n_rest ==> (#[trigger] free@[i]) < n_vars,
                rest.wf(),
                rest@ == bits,
                acc.wf(),
                acc@.len() == rank,
                forall|j2: int| 0 <= j2 < j ==> acc@[j2] == forced(m, flags@, idx)[j2],
                forall|j2: int| j <= j2 < rank ==> !acc@[j2],
            decreases rank - j,
        {
            assert(m[j as int].len() == n_vars + 1);
            let ghost row = pick(m[j as int], free@);
            let mut k: usize = 0;
            while k < n_rest
                invariant
                    k <= n_rest,
                    j < rank,
                    self.wf(),
                    m == self.spec_sys(),
                    is_rect(m),
                    rank <= m.len(),
                    cols_of(m) == n_vars + 1,
                    m[j as int].len() == n_vars + 1,
                    n_rest == free@.len(),
                    row == pick(m[j as int], free@),
                    forall|i: int| 0 <= i < n_rest ==> (#[trigger] free@[i]) < n_vars,
                    rest.wf(),
                    rest@ == bits,
                    bits.len() == n_rest,
                    acc.wf(),
                    acc@.len() == rank,
                    forall|j2: int| 0 <= j2 < j ==> acc@[j2] == forced(m, flags@, idx)[j2],
                    forall|j2: int| j < j2 < rank ==> !acc@[j2],
                    acc@[j as int] == dot(row, bits, k as nat),
                decreases n_rest - k,
            {
                if rest.get(k) {
                    let bit = self.sys.get(j, free[k]);
                    acc.xor(j, bit);
                }
                k = k + 1;
            }
            let rhs = self.sys.get(j, n_vars);
            acc.xor(j, rhs);
            assert(acc@[j as int] == forced(m, flags@, idx)[j as int]);
            j = j + 1;
        }
        assert(acc@ =~= forced(m, flags@, idx));
    }

    /// Eliminates, then returns an assignment of the variables that
    /// satisfies every equation with the fewest `true` values, or `None`
    /// when no assignment satisfies the system, or when `MAX_FREE` variables
    /// or more are free. Candidates are tried in the order of the number
    /// that the free variables' values form, and the first lightest is kept.
    pub fn solve(&mut self) -> (r: Option<BitVec>)
        requires
            old(self).wf(),
            old(self).spec_sys().len() > 0 ==> cols_of(old(self).spec_sys()) > 0,
        ensures
            final(self).wf(),
            gauss_result(old(self).spec_sys(), final(self).spec_sys(), final(self).spec_rank()),
            gauss_of(old(self).spec_sys()) == (final(self).spec_sys(), final(self).spec_rank() as int),
            final(self).spec_rank() <= n_vars_of(old(self).spec_sys()),
            r is None <==> (forall|x: Seq<bool>|
                x.len() == n_vars_of(old(self).spec_sys()) ==> !#[trigger] solves(
                    old(self).spec_sys(),
                    x,
                )) || n_vars_of(old(self).spec_sys()) - final(self).spec_rank() >= MAX_FREE,
            match r {
                None => true,
                Some(v) => {
                    &&& v.wf()
                    &&& v@.len() == n_vars_of(old(self).spec_sys())
                    &&& solves(old(self).spec_sys(), v@)
                    &&& forall|y: Seq<bool>|
                        #[trigger] solves(old(self).spec_sys(), y) && y.len() == n_vars_of(
                            old(self).spec_sys(),
                        ) ==> count_true(v@) <= count_true(y)
                    &&& exists|flags: Seq<bool>, best: u64|
                        #[trigger] is_earliest_lightest(final(self).spec_sys(), flags, best)
                            && is_rref(final(self).spec_sys(), flags)
                            && pick(v@, cols_where(flags, true)) == forced(final(self).spec_sys(), flags, best)
                            && pick(v@, cols_where(flags, false)) == idx_bits(
                            best,
                            cols_where(flags, false).len(),
                        )
                },
            },
    {
        let ghost start = self.spec_sys();
        let res = self.eliminate();
        let pivots = res.0;
        let free = res.1;
        let ghost flags = res.2@;
        let ghost m = self.spec_sys();
        let n_rows = self.sys.n_rows();
        let n_cols = self.sys.n_cols();
        let n_vars: usize = if n_cols == 0 {
            0
        } else {
            n_cols - 1
        };
        let rank = self.rank;
        proof {
            self.sys.lemma_shape();
            lemma_cols_where(flags, true);
            lemma_cols_where(flags, false);
            assert(is_rref(m, flags));
        }
        let mut i: usize = rank;
        while i < n_rows
            invariant
                rank <= i <= n_rows,
                self.wf(),
                m == self.spec_sys(),
                is_rect(m),
                is_rref(m, flags),
                rank == cols_where(flags, true).len(),
                rank == self.spec_rank(),
                rank <= n_vars,
                gauss_result(start, m, rank as nat),
                gauss_of(start) == (m, rank as int),
                start == old(self).spec_sys(),
                same_solutions(start, m),
                cols_of(start) == cols_of(m),
                n_rows == m.len(),
                n_vars == n_vars_of(m),
                n_rows > 0 ==> n_cols == n_vars + 1,
                n_cols == cols_of(m),
                forall|i2: int| rank <= i2 < i ==> !#[trigger] m[i2][n_vars as int],
            decreases n_rows - i,
        {
            if self.sys.get(i, n_vars) {
                proof {
                    assert(m[i as int].len() == cols_of(m));
                    assert forall|c: int| 0 <= c < n_vars_of(m) implies !#[trigger] m[i as int][c] by {}
                    lemma_empty_equation_unsolvable(m, i as int);
                    assert forall|x: Seq<bool>| x.len() == n_vars_of(start) implies !#[trigger] solves(start, x) by {
                        assert(!solves(m, x));
                    }
                }
                return None;
            }
            i = i + 1;
        }
        let n_rest = free.len();
        if n_rest >= MAX_FREE {
            return None;
        }
        let n_solutions = two_pow(n_rest);
        proof {
            lemma_pow2_pos(n_rest as nat);
        }
        let mut solution = BitVec::with_length(n_vars);
        let mut min_weight: usize = n_vars + 1;
        let mut rest = BitVec::with_length(n_rest);
        let mut accumulator = BitVec::with_length(rank);
        let mut idx: u64 = 0;
        let ghost mut best: u64 = 0;
        while idx < n_solutions
            invariant
                self.wf(),
                m == self.spec_sys(),
                is_rect(m),
                n_rows == m.len(),
                n_vars == n_vars_of(m),
                n_rows > 0 ==> n_cols == n_vars + 1,
                n_cols == cols_of(m),
                is_rref(m, flags),
                pivots@ == cols_where(flags, true),
                free@ == cols_where(flags, false),
                rank == pivots@.len(),
                n_rest == free@.len(),
                n_rest + rank == n_vars,
                n_rest < MAX_FREE,
                n_solutions == pow2(n_rest as nat),
                idx <= n_solutions,
                forall|i: int| 0 <= i < rank ==> (#[trigger] pivots@[i]) < n_vars,
                forall|i: int, i2: int| 0 <= i < i2 < rank ==> #[trigger] pivots@[i] < #[trigger] pivots@[i2],
                forall|i: int| 0 <= i < n_rest ==> (#[trigger] free@[i]) < n_vars,
                forall|i: int, i2: int| 0 <= i < i2 < n_rest ==> #[trigger] free@[i] < #[trigger] free@[i2],
                forall|i: int| 0 <= i < rank ==> flags[#[trigger] pivots@[i] as int],
                forall|i: int| 0 <= i < n_rest ==> !flags[#[trigger] free@[i] as int],
                solution.wf(),
                solution@.len() == n_vars,
                rest.wf(),
                rest@.len() == n_rest,
                accumulator.wf(),
                accumulator@.len() == rank,
                idx == 0 ==> min_weight == n_vars + 1,
                flags.len() == n_vars,
                idx > 0 ==> {
                    &&& best < idx
                    &&& pick(solution@, pivots@) == forced(m, flags, best)
                    &&& pick(solution@, free@) == idx_bits(best, n_rest as nat)
                    &&& min_weight == cand_weight(m, flags, best)
                    &&& forall|i2: u64| i2 < idx ==> cand_weight(m, flags, i2) >= min_weight
                    &&& forall|i2: u64| i2 < best ==> cand_weight(m, flags, i2) > min_weight
                },
            decreases n_solutions - idx,
        {
            self.build_candidate(idx, &pivots, &free, Ghost(flags), n_vars, &mut rest, &mut accumulator);
            proof {
                lemma_count_bound(rest@);
                lemma_count_bound(accumulator@);
            }
            let weight = rest.count_ones() + accumulator.count_ones();
            if weight < min_weight {
                min_weight = weight;
                let mut j: usize = 0;
                while j < rank
                    invariant
                        j <= rank,
                        rank <= n_vars,
                        solution.wf(),
                        solution@.len() == n_vars,
                        accumulator.wf(),
                        accumulator@.len() == rank,
                        pivots@.len() == rank,
                        forall|i: int| 0 <= i < rank ==> (#[trigger] pivots@[i]) < n_vars,
                        forall|i: int, i2: int| 0 <= i < i2 < rank ==> #[trigger] pivots@[i] < #[trigger] pivots@[i2],
                        forall|j2: int| 0 <= j2 < j ==> solution@[pivots@[j2] as int] == accumulator@[j2],
                    decreases rank - j,
                {
                    let value = accumulator.get(j);
                    let col = pivots[j];
                    solution.set(col, value);
                    proof {
                        assert forall|j2: int| 0 <= j2 < j implies pivots@[j2] != col by {
                            assert(pivots@[j2] < pivots@[j as int]);
                        }
                    }
                    j = j + 1;
                }
                let mut k: usize = 0;
                while k < n_rest
                    invariant
                        k <= n_rest,
                        solution.wf(),
                        solution@.len() == n_vars,
                        rest.wf(),
                        rest@.len() == n_rest,
                        accumulator@.len() == rank,
                        pivots@.len() == rank,
                        free@.len() == n_rest,
                        forall|i: int| 0 <= i < n_rest ==> (#[trigger] free@[i]) < n_vars,
                        forall|i: int, i2: int| 0 <= i < i2 < n_rest ==> #[trigger] free@[i] < #[trigger] free@[i2],
                        flags.len() == n_vars,
                        forall|i: int| 0 <= i < rank ==> flags[#[trigger] pivots@[i] as int],
                        forall|i: int| 0 <= i < n_rest ==> !flags[#[trigger] free@[i] as int],
                        forall|i: int| 0 <= i < rank ==> (#[trigger] pivots@[i]) < n_vars,
                        forall|j2: int| 0 <= j2 < rank ==> solution@[pivots@[j2] as int] == accumulator@[j2],
                        forall|k2: int| 0 <= k2 < k ==> solution@[free@[k2] as int] == rest@[k2],
                    decreases n_rest - k,
                {
                    let value = rest.get(k);
                    let col = free[k];
                    solution.set(col, value);
                    proof {
                        assert forall|k2: int| 0 <= k2 < k implies free@[k2] != col by {
                            assert(free@[k2] < free@[k as int]);
                        }
                        assert forall|j2: int| 0 <= j2 < rank implies pivots@[j2] != col by {
                            assert(flags[pivots@[j2] as int]);
                            assert(!flags[free@[k as int] as int]);
                        }
                    }
                    k = k + 1;
                }
                proof {
                    assert(pick(solution@, pivots@) =~= accumulator@);
                    assert(pick(solution@, free@) =~= rest@);
                    best = idx;
                }
            }
            idx = idx + 1;
        }
        proof {
            lemma_solution_facts(start, m, flags, best, solution@, min_weight as nat);
            assert(is_earliest_lightest(m, flags, best));
        }
        Some(solution)
    }
}

} // verus!
