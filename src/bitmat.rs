//! A boolean matrix held as a vector of equally long bit vectors, one per row.
use vstd::prelude::*;
use vstd::pervasive::VecAdditionalExecFns;
use vstd::string::StringExecFns;
use crate::bitvec::{BitVec, text_of, xor_seq};

verus! {

/// Number of columns of a matrix given as its rows: the length of the first
/// row, or 0 when there is none.
pub open spec fn cols_of(m: Seq<Seq<bool>>) -> nat {
    if m.len() == 0 {
        0
    } else {
        m[0].len()
    }
}

/// Every row has as many elements as the first.
pub open spec fn is_rect(m: Seq<Seq<bool>>) -> bool {
    forall|i: int| 0 <= i < m.len() ==> #[trigger] m[i].len() == cols_of(m)
}

/// The all-`false` matrix of the given size.
pub open spec fn zero_mat(n_rows: nat, n_cols: nat) -> Seq<Seq<bool>> {
    Seq::new(n_rows, |i: int| Seq::new(n_cols, |j: int| false))
}

/// The text of a matrix: each row's text followed by a newline.
pub open spec fn mat_text(m: Seq<Seq<bool>>) -> Seq<char>
    decreases m.len(),
{
    if m.len() == 0 {
        Seq::empty()
    } else {
        mat_text(m.drop_last()) + text_of(m.last()) + seq!['\n']
    }
}

/// A boolean matrix whose rows are `BitVec`s of one common length.
pub struct BitMat {
    rows: Vec<BitVec>,
}

impl View for BitMat {
    type V = Seq<Seq<bool>>;

    closed spec fn view(&self) -> Seq<Seq<bool>> {
        Seq::new(self.rows@.len(), |i: int| self.rows@[i]@)
    }
}

impl BitMat {
    /// Every row is a well-formed vector and all rows have the same length.
    pub closed spec fn wf(&self) -> bool {
        &&& forall|i: int| 0 <= i < self.rows@.len() ==> (#[trigger] self.rows@[i]).wf()
        &&& is_rect(self@)
        &&& cols_of(self@) <= usize::MAX - 63
    }

    /// A well-formed matrix is rectangular, and its rows are short enough to
    /// be built anew.
    pub proof fn lemma_shape(&self)
        requires
            self.wf(),
        ensures
            is_rect(self@),
            cols_of(self@) <= usize::MAX - 63,
    {
    }

    /// Constructs an empty matrix: no rows and no columns.
    pub fn new() -> (r: BitMat)
        ensures
            r.wf(),
            r@ == Seq::<Seq<bool>>::empty(),
    {
        let r = BitMat { rows: Vec::new() };
        assert(r@ =~= Seq::<Seq<bool>>::empty());
        r
    }

    /// Constructs an `n_rows` by `n_cols` matrix of `false` elements, each
    /// row allocated on its own.
    pub fn with_size(n_rows: usize, n_cols: usize) -> (r: BitMat)
        requires
            n_cols <= usize::MAX - 63,
        ensures
            r.wf(),
            r@ == zero_mat(n_rows as nat, n_cols as nat),
    {
        let mut rows: Vec<BitVec> = Vec::new();
        let mut i: usize = 0;
        while i < n_rows
            invariant
                i <= n_rows,
                n_cols <= usize::MAX - 63,
                rows@.len() == i,
                forall|k: int| 0 <= k < i ==> (#[trigger] rows@[k]).wf() && rows@[k]@ == Seq::new(
                    n_cols as nat,
                    |j: int| false,
                ),
            decreases n_rows - i,
        {
            rows.push(BitMat::new_row(n_cols));
            i = i + 1;
        }
        let r = BitMat { rows };
        assert(r@ =~= zero_mat(n_rows as nat, n_cols as nat));
        r
    }

    /// Number of rows.
    pub fn n_rows(&self) -> (r: usize)
        ensures
            r == self@.len(),
    {
        self.rows.len()
    }

    /// Number of columns: the length of the first row, 0 without rows.
    pub fn n_cols(&self) -> (r: usize)
        ensures
            r == cols_of(self@),
    {
        if self.rows.len() == 0 {
            0
        } else {
            self.rows[0].len()
        }
    }

    /// The rows, in order.
    pub fn rows(&self) -> (r: &Vec<BitVec>)
        requires
            self.wf(),
        ensures
            r@.len() == self@.len(),
            forall|i: int| 0 <= i < r@.len() ==> (#[trigger] r@[i]).wf() && r@[i]@ == self@[i],
    {
        &self.rows
    }

    /// The rows, for changes in place; the matrix stays well formed when
    /// the rows stay well formed and of one length.
    pub fn rows_mut(&mut self) -> (r: &mut Vec<BitVec>)
        ensures
            r@.len() == old(self)@.len(),
            forall|i: int| 0 <= i < r@.len() ==> (#[trigger] r@[i])@ == old(self)@[i],
            old(self).wf() ==> forall|i: int| 0 <= i < r@.len() ==> (#[trigger] r@[i]).wf(),
            final(self)@ == Seq::new(final(r)@.len(), |i: int| final(r)@[i]@),
            (forall|i: int| 0 <= i < final(r)@.len() ==> (#[trigger] final(r)@[i]).wf())
                && is_rect(final(self)@) && cols_of(final(self)@) <= usize::MAX - 63
                ==> final(self).wf(),
    {
        &mut self.rows
    }

    /// A row of `n_cols` elements, all `false`.
    pub fn new_row(n_cols: usize) -> (r: BitVec)
        requires
            n_cols <= usize::MAX - 63,
        ensures
            r.wf(),
            r@ == Seq::new(n_cols as nat, |j: int| false),
    {
        BitVec::with_length(n_cols)
    }

    /// Exchanges rows `row_i` and `row_j` by moving the row vectors, without
    /// copying their elements.
    pub fn swap(&mut self, row_i: usize, row_j: usize)
        requires
            old(self).wf(),
            row_i < old(self)@.len(),
            row_j < old(self)@.len(),
        ensures
            final(self).wf(),
            final(self)@ == old(self)@.update(row_i as int, old(self)@[row_j as int]).update(
                row_j as int,
                old(self)@[row_i as int],
            ),
    {
        if row_i != row_j {
            let mut tmp = BitVec::new();
            self.rows.set_and_swap(row_i, &mut tmp);
            self.rows.set_and_swap(row_j, &mut tmp);
            self.rows.set_and_swap(row_i, &mut tmp);
        }
        let ghost target = old(self)@.update(row_i as int, old(self)@[row_j as int]).update(
            row_j as int,
            old(self)@[row_i as int],
        );
        assert(self@ =~= target);
        assert(forall|i: int| 0 <= i < self@.len() ==> #[trigger] self@[i] == target[i]);
        assert(forall|i: int| 0 <= i < self@.len() ==> #[trigger] self@[i].len() == old(self)@[i].len());
    }

    /// Replaces row `row_i` by its element-wise exclusive or with row `row_j`.
    pub fn xor(&mut self, row_i: usize, row_j: usize)
        requires
            old(self).wf(),
            row_i < old(self)@.len(),
            row_j < old(self)@.len(),
        ensures
            final(self).wf(),
            final(self)@ == old(self)@.update(
                row_i as int,
                xor_seq(old(self)@[row_i as int], old(self)@[row_j as int]),
            ),
    {
        assert(old(self)@[row_i as int].len() == cols_of(old(self)@));
        assert(old(self)@[row_j as int].len() == cols_of(old(self)@));
        let mut target = BitVec::new();
        self.rows.set_and_swap(row_i, &mut target);
        if row_i == row_j {
            target.setall(false);
            assert(target@ =~= xor_seq(old(self)@[row_i as int], old(self)@[row_j as int]));
        } else {
            target.xor_with(&self.rows[row_j]);
        }
        self.rows.set_and_swap(row_i, &mut target);
        assert(self@ =~= old(self)@.update(
            row_i as int,
            xor_seq(old(self)@[row_i as int], old(self)@[row_j as int]),
        ));
    }

    /// Writes `value` at (`row`, `col`).
    pub fn set(&mut self, row: usize, col: usize, value: bool)
        requires
            old(self).wf(),
            row < old(self)@.len(),
            col < cols_of(old(self)@),
        ensures
            final(self).wf(),
            final(self)@ == old(self)@.update(row as int, old(self)@[row as int].update(col as int, value)),
    {
        assert(old(self)@[row as int].len() == cols_of(old(self)@));
        let mut target = BitVec::new();
        self.rows.set_and_swap(row, &mut target);
        target.set(col, value);
        self.rows.set_and_swap(row, &mut target);
        assert(self@ =~= old(self)@.update(row as int, old(self)@[row as int].update(col as int, value)));
    }

    /// The element at (`row`, `col`).
    pub fn get(&self, row: usize, col: usize) -> (r: bool)
        requires
            self.wf(),
            row < self@.len(),
            col < cols_of(self@),
        ensures
            r == self@[row as int][col as int],
    {
        assert(self@[row as int].len() == cols_of(self@));
        self.rows[row].get(col)
    }

    /// The text of the matrix: one line of `'0'` and `'1'` per row, each
    /// ended by a newline.
    pub fn stringify(&self) -> (r: String)
        requires
            self.wf(),
        ensures
            r@ == mat_text(self@),
    {
        let mut strmat = String::new();
        let n = self.rows.len();
        let mut i: usize = 0;
        while i < n
            invariant
                i <= n,
                n == self@.len(),
                self.wf(),
                strmat@ == mat_text(self@.take(i as int)),
            decreases n - i,
        {
            proof {
                reveal_strlit("\n");
            }
            let line = self.rows[i].stringify();
            strmat.append(line.as_str());
            strmat.append("\n");
            assert(self@.take(i + 1).drop_last() =~= self@.take(i as int));
            i = i + 1;
        }
        assert(self@.take(n as int) =~= self@);
        strmat
    }
}

/// Replacing row `i` by its exclusive or with another row `j`, twice in a
/// row, gives the matrix back.
pub proof fn lemma_xor_rows_twice(m: Seq<Seq<bool>>, i: int, j: int)
    requires
        is_rect(m),
        0 <= i < m.len(),
        0 <= j < m.len(),
        i != j,
    ensures
        ({
            let once = m.update(i, xor_seq(m[i], m[j]));
            once.update(i, xor_seq(once[i], once[j]))
        }) == m,
{
    let once = m.update(i, xor_seq(m[i], m[j]));
    assert(m[i].len() == cols_of(m) && m[j].len() == cols_of(m));
    assert(xor_seq(xor_seq(m[i], m[j]), m[j]) =~= m[i]);
    assert(once.update(i, xor_seq(once[i], once[j])) =~= m);
}

} // verus!
