//! A growable boolean array that packs its elements into 64-bit words.
use vstd::prelude::*;
use vstd::pervasive::VecAdditionalExecFns;
use vstd::string::StringExecFns;
use vstd::std_specs::iter::IteratorSpec;

verus! {

/// Number of bits held by one word of the backing buffer.
pub const WORDSIZE: usize = 64;

/// Bit `k` of the word `w`.
pub open spec fn word_bit(w: u64, k: u64) -> bool {
    (w >> k) & 1u64 == 1u64
}

/// Number of words needed to store `n` bits.
pub open spec fn words_for(n: nat) -> nat {
    (n + 63) / 64
}

/// Number of `true` elements of `s`.
pub open spec fn count_true(s: Seq<bool>) -> nat
    decreases s.len(),
{
    if s.len() == 0 {
        0
    } else {
        count_true(s.drop_last()) + if s.last() { 1nat } else { 0nat }
    }
}

/// The elements read from text: `'1'` is `true`, any other character `false`.
pub open spec fn bits_of(s: Seq<char>) -> Seq<bool> {
    s.map_values(|c: char| c == '1')
}

/// The text of a sequence of elements: `'1'` for `true`, `'0'` for `false`.
pub open spec fn text_of(b: Seq<bool>) -> Seq<char> {
    b.map_values(|x: bool| if x { '1' } else { '0' })
}

/// Element-wise exclusive or of two sequences of equal length.
pub open spec fn xor_seq(a: Seq<bool>, b: Seq<bool>) -> Seq<bool> {
    Seq::new(a.len(), |i: int| a[i] != b[i])
}

proof fn lemma_set_bit(w: u64, b: u64, k: u64)
    by (bit_vector)
    requires
        b < 64,
        k < 64,
    ensures
        word_bit(w | (1u64 << b), k) == (k == b || word_bit(w, k)),
{
}

proof fn lemma_clear_bit(w: u64, b: u64, k: u64)
    by (bit_vector)
    requires
        b < 64,
        k < 64,
    ensures
        word_bit(w & !(1u64 << b), k) == (k != b && word_bit(w, k)),
{
}

proof fn lemma_flip_bit(w: u64, b: u64, k: u64)
    by (bit_vector)
    requires
        b < 64,
        k < 64,
    ensures
        word_bit(w ^ (1u64 << b), k) == ((k == b) != word_bit(w, k)),
{
}

proof fn lemma_xor_words(a: u64, b: u64, k: u64)
    by (bit_vector)
    requires
        k < 64,
    ensures
        word_bit(a ^ b, k) == (word_bit(a, k) != word_bit(b, k)),
{
}

proof fn lemma_fill_word(k: u64)
    by (bit_vector)
    requires
        k < 64,
    ensures
        !word_bit(0u64, k),
        word_bit(0xffff_ffff_ffff_ffffu64, k),
{
}

proof fn lemma_word_of(i: int, n: int)
    requires
        0 <= i < n * 64,
    ensures
        i / 64 < n,
{
}

/// Index of the buffer word that holds element `index`.
fn buf_index(index: usize) -> (r: usize)
    ensures
        r == index / 64,
{
    index / WORDSIZE
}

/// Position of element `index` inside its word.
fn bit_index(index: usize) -> (r: u64)
    ensures
        r == index % 64,
{
    (index % WORDSIZE) as u64
}

/// A word with only the bit of element `index` set.
fn bit_mask(index: usize) -> (r: u64)
    ensures
        r == 1u64 << (index % 64) as u64,
{
    1u64 << bit_index(index)
}

/// Number of words needed to store `capacity` bits.
fn buf_capacity(capacity: usize) -> (r: usize)
    ensures
        r == words_for(capacity as nat),
{
    let mut cap = buf_index(capacity);
    if bit_index(capacity) != 0 {
        cap += 1;
    }
    cap
}

/// A zeroed buffer large enough for `len` bits.
fn create_buf(len: usize) -> (r: Vec<u64>)
    ensures
        r@ == Seq::new(words_for(len as nat), |i: int| 0u64),
{
    let cap = buf_capacity(len);
    let mut buf: Vec<u64> = Vec::with_capacity(cap);
    buf.resize(cap, 0);
    assert(buf@ =~= Seq::new(words_for(len as nat), |i: int| 0u64));
    buf
}

/// A contiguous growable boolean array. Element `i` is bit `i % 64` of word
/// `i / 64` of the buffer; bits of the buffer at positions `len` and beyond
/// are padding and carry no meaning.
pub struct BitVec {
    buf: Vec<u64>,
    len: usize,
}

impl View for BitVec {
    type V = Seq<bool>;

    closed spec fn view(&self) -> Seq<bool> {
        Seq::new(self.len as nat, |i: int| word_bit(self.buf@[i / 64], (i % 64) as u64))
    }
}

impl BitVec {
    /// The buffer is large enough for every element, and its capacity in bits
    /// fits in a `usize`.
    pub closed spec fn wf(&self) -> bool {
        &&& self.len <= self.buf@.len() * 64
        &&& self.buf@.len() * 64 <= usize::MAX
    }

    /// Number of elements the vector can hold before its buffer must grow.
    pub closed spec fn spec_capacity(&self) -> nat {
        self.buf@.len() * 64
    }

    /// Constructs a new, empty vector that owns no buffer yet.
    pub fn new() -> (r: BitVec)
        ensures
            r.wf(),
            r@ == Seq::<bool>::empty(),
            r.spec_capacity() == 0,
    {
        BitVec { buf: Vec::new(), len: 0 }
    }

    /// Constructs a new, empty vector able to hold `capacity` elements
    /// before its buffer grows.
    pub fn with_capacity(capacity: usize) -> (r: BitVec)
        requires
            capacity <= usize::MAX - 63,
        ensures
            r.wf(),
            r@ == Seq::<bool>::empty(),
            r.spec_capacity() == 64 * words_for(capacity as nat),
    {
        BitVec { buf: create_buf(capacity), len: 0 }
    }

    /// Constructs a vector of `len` elements, all `false`.
    pub fn with_length(len: usize) -> (r: BitVec)
        requires
            len <= usize::MAX - 63,
        ensures
            r.wf(),
            r@ == Seq::new(len as nat, |i: int| false),
            r.spec_capacity() == 64 * words_for(len as nat),
    {
        let r = BitVec { buf: create_buf(len), len: len };
        assert forall|i: int| 0 <= i < len implies !r@[i] by {
            lemma_fill_word((i % 64) as u64);
        }
        assert(r@ =~= Seq::new(len as nat, |i: int| false));
        r
    }

    /// The backing buffer of words.
    pub fn buf(&self) -> (r: &Vec<u64>)
        ensures
            r@.len() * 64 == self.spec_capacity(),
            forall|i: int| 0 <= i < self@.len() ==> #[trigger] self@[i] == word_bit(r@[i / 64], (i % 64) as u64),
    {
        &self.buf
    }

    /// The backing buffer of words, for changes in place; the length stays.
    pub fn buf_mut(&mut self) -> (r: &mut Vec<u64>)
        ensures
            r@.len() * 64 == old(self).spec_capacity(),
            forall|i: int| 0 <= i < old(self)@.len() ==> #[trigger] old(self)@[i] == word_bit(r@[i / 64], (i % 64) as u64),
            final(self)@.len() == old(self)@.len(),
            forall|i: int| 0 <= i < final(self)@.len() ==> #[trigger] final(self)@[i] == word_bit(final(r)@[i / 64], (i % 64) as u64),
            final(self).spec_capacity() == final(r)@.len() * 64,
            old(self)@.len() <= final(r)@.len() * 64 <= usize::MAX ==> final(self).wf(),
    {
        &mut self.buf
    }

    /// Number of elements the vector can hold before its buffer grows; a
    /// multiple of the word size.
    pub fn capacity(&self) -> (r: usize)
        requires
            self.wf(),
        ensures
            r == self.spec_capacity(),
            self@.len() <= r,
    {
        self.buf.len() * WORDSIZE
    }

    /// Number of elements in the vector.
    pub fn len(&self) -> (r: usize)
        ensures
            r == self@.len(),
    {
        self.len
    }

    /// The element at `index`.
    pub fn get(&self, index: usize) -> (r: bool)
        requires
            self.wf(),
            index < self@.len(),
        ensures
            r == self@[index as int],
    {
        proof { lemma_word_of(index as int, self.buf@.len() as int); }
        (self.buf[buf_index(index)] >> bit_index(index)) & 1 == 1
    }

    /// Writes `value` at `index`.
    pub fn set(&mut self, index: usize, value: bool)
        requires
            old(self).wf(),
            index < old(self)@.len(),
        ensures
            final(self).wf(),
            final(self)@ == old(self)@.update(index as int, value),
            final(self).spec_capacity() == old(self).spec_capacity(),
    {
        proof { lemma_word_of(index as int, self.buf@.len() as int); }
        let w = buf_index(index);
        let old_word = self.buf[w];
        let new_word = if value {
            old_word | bit_mask(index)
        } else {
            old_word & !bit_mask(index)
        };
        self.buf.set(w, new_word);
        proof {
            let b = (index % 64) as u64;
            assert forall|i: int| 0 <= i < self@.len() implies self@[i] == old(self)@.update(
                index as int,
                value,
            )[i] by {
                let k = (i % 64) as u64;
                if i / 64 == w {
                    if value {
                        lemma_set_bit(old_word, b, k);
                    } else {
                        lemma_clear_bit(old_word, b, k);
                    }
                }
            }
            assert(self@ =~= old(self)@.update(index as int, value));
        }
    }

    /// Writes `value` into every bit of the buffer, padding included, so
    /// that every element becomes `value`.
    pub fn setall(&mut self, value: bool)
        requires
            old(self).wf(),
        ensures
            final(self).wf(),
            final(self)@ == Seq::new(old(self)@.len(), |i: int| value),
            final(self).spec_capacity() == old(self).spec_capacity(),
    {
        let len = self.buf.len();
        let pkg_value: u64 = if value {
            0xffff_ffff_ffff_ffffu64
        } else {
            0u64
        };
        for i in 0..len
            invariant
                len == self.buf@.len(),
                self.len == old(self).len,
                self.buf@.len() == old(self).buf@.len(),
                forall|k: int| 0 <= k < i ==> self.buf@[k] == pkg_value,
        {
            self.buf.set(i, pkg_value);
        }
        proof {
            assert forall|i: int| 0 <= i < self@.len() implies self@[i] == value by {
                lemma_word_of(i, len as int);
                lemma_fill_word((i % 64) as u64);
            }
            assert(self@ =~= Seq::new(old(self)@.len(), |i: int| value));
        }
    }

    /// Flips the element at `index` when `value` is `true`; does nothing
    /// otherwise.
    pub fn xor(&mut self, index: usize, value: bool)
        requires
            old(self).wf(),
            index < old(self)@.len(),
        ensures
            final(self).wf(),
            final(self)@ == old(self)@.update(index as int, old(self)@[index as int] != value),
            final(self).spec_capacity() == old(self).spec_capacity(),
    {
        if value {
            proof { lemma_word_of(index as int, self.buf@.len() as int); }
            let w = buf_index(index);
            let old_word = self.buf[w];
            self.buf.set(w, old_word ^ bit_mask(index));
            proof {
                let b = (index % 64) as u64;
                assert forall|i: int| 0 <= i < self@.len() implies self@[i] == old(self)@.update(
                    index as int,
                    old(self)@[index as int] != value,
                )[i] by {
                    if i / 64 == w {
                        lemma_flip_bit(old_word, b, (i % 64) as u64);
                    }
                }
                assert(self@ =~= old(self)@.update(index as int, old(self)@[index as int] != value));
            }
        } else {
            assert(self@ =~= old(self)@.update(index as int, old(self)@[index as int] != value));
        }
    }

    /// Appends `value`; the buffer grows by one word when it is full.
    pub fn push(&mut self, value: bool)
        requires
            old(self).wf(),
            old(self)@.len() + 64 < usize::MAX,
        ensures
            final(self).wf(),
            final(self)@ == old(self)@.push(value),
            final(self).spec_capacity() == if old(self)@.len() == old(self).spec_capacity() {
                old(self).spec_capacity() + 64
            } else {
                old(self).spec_capacity()
            },
    {
        let len = self.len;
        let ghost n0 = self.buf@.len();
        if self.buf.len() == 0 || len == self.capacity() {
            self.buf.push(0);
        }
        self.len = len + 1;
        proof {
            let n1 = self.buf@.len();
            assert(len + 1 <= n1 * 64 && n1 * 64 <= usize::MAX) by (nonlinear_arith)
                requires
                    len <= n0 * 64,
                    n0 * 64 <= usize::MAX,
                    len + 64 < usize::MAX,
                    (n0 != 0 && len != n0 * 64 && n1 == n0) || (n1 == n0 + 1 && (n0 == 0 || len == n0 * 64)),
                    n0 == 0 ==> len == 0,
            ;
            assert forall|i: int| 0 <= i < len implies self@[i] == old(self)@[i] by {
                lemma_word_of(i, old(self).buf@.len() as int);
            }
        }
        self.set(len, value);
        assert(self@ =~= old(self)@.push(value));
    }

    /// Removes the last element and returns it, or `None` when empty.
    pub fn pop(&mut self) -> (r: Option<bool>)
        requires
            old(self).wf(),
        ensures
            final(self).wf(),
            old(self)@.len() == 0 ==> r == None::<bool> && final(self)@ == old(self)@,
            old(self)@.len() > 0 ==> r == Some(old(self)@.last()) && final(self)@ == old(
                self,
            )@.drop_last(),
    {
        let len = self.len;
        if len == 0 {
            None
        } else {
            let result = Some(self.get(len - 1));
            self.len = len - 1;
            assert(self@ =~= old(self)@.drop_last());
            result
        }
    }

    /// Resizes the vector in place to `new_len` elements: new elements are
    /// `false`, and shrinking truncates.
    pub fn resize(&mut self, new_len: usize)
        requires
            old(self).wf(),
            new_len <= usize::MAX - 63,
        ensures
            final(self).wf(),
            final(self)@ == if new_len <= old(self)@.len() {
                old(self)@.take(new_len as int)
            } else {
                old(self)@ + Seq::new((new_len - old(self)@.len()) as nat, |i: int| false)
            },
    {
        let len = self.len();
        if new_len > len {
            self.extend(new_len - len);
        } else {
            self.truncate(new_len);
            assert(self@ =~= old(self)@.take(new_len as int));
        }
    }

    /// Appends `n` elements, all `false`.
    pub fn extend(&mut self, n: usize)
        requires
            old(self).wf(),
            old(self)@.len() + n <= usize::MAX - 63,
        ensures
            final(self).wf(),
            final(self)@ == old(self)@ + Seq::new(n as nat, |i: int| false),
    {
        let len = self.len;
        let new_len = len + n;
        if new_len > self.capacity() {
            self.buf.resize(buf_capacity(new_len), 0);
            proof {
                assert(words_for(new_len as nat) * 64 <= new_len + 63) by (nonlinear_arith)
                    requires
                        words_for(new_len as nat) == (new_len + 63) / 64,
                ;
                assert(new_len <= words_for(new_len as nat) * 64) by (nonlinear_arith)
                    requires
                        words_for(new_len as nat) == (new_len + 63) / 64,
                ;
            }
        }
        proof {
            assert forall|i: int| 0 <= i < len implies #[trigger] self.buf@[i / 64] == old(
                self,
            ).buf@[i / 64] by {
                lemma_word_of(i, old(self).buf@.len() as int);
            }
        }
        self.len = new_len;
        let mut i: usize = len;
        while i < new_len
            invariant
                len <= i <= new_len,
                len == old(self)@.len(),
                self.wf(),
                self@.len() == new_len,
                forall|k: int| 0 <= k < len ==> self@[k] == old(self)@[k],
                forall|k: int| len <= k < i ==> !self@[k],
            decreases new_len - i,
        {
            self.set(i, false);
            i = i + 1;
        }
        assert(self@ =~= old(self)@ + Seq::new(n as nat, |i: int| false));
    }

    /// Keeps the first `len` elements and drops the words past them; does
    /// nothing when `len` is not below the current length.
    pub fn truncate(&mut self, len: usize)
        requires
            old(self).wf(),
        ensures
            final(self).wf(),
            len < old(self)@.len() ==> final(self)@ == old(self)@.take(len as int),
            len < old(self)@.len() ==> final(self).spec_capacity() == 64 * words_for(len as nat),
            len >= old(self)@.len() ==> final(self)@ == old(self)@,
            len >= old(self)@.len() ==> final(self).spec_capacity() == old(self).spec_capacity(),
    {
        if len < self.len {
            let ghost n0 = self.buf@.len();
            self.len = len;
            proof {
                assert(words_for(len as nat) <= n0) by (nonlinear_arith)
                    requires
                        words_for(len as nat) == (len + 63) / 64,
                        len < n0 * 64,
                ;
                assert(len <= words_for(len as nat) * 64) by (nonlinear_arith)
                    requires
                        words_for(len as nat) == (len + 63) / 64,
                ;
                assert forall|i: int| 0 <= i < len implies #[trigger] (i / 64) < words_for(
                    len as nat,
                ) by {
                    lemma_word_of(i, words_for(len as nat) as int);
                }
            }
            self.buf.truncate(buf_capacity(len));
            assert(self@ =~= old(self)@.take(len as int));
        }
    }

    /// Number of `true` elements; padding bits are never counted.
    pub fn count_ones(&self) -> (r: usize)
        requires
            self.wf(),
        ensures
            r == count_true(self@),
    {
        let mut count: usize = 0;
        let len = self.len;
        let mut i: usize = 0;
        while i < len
            invariant
                i <= len,
                len == self@.len(),
                self.wf(),
                count == count_true(self@.take(i as int)),
                count <= i,
            decreases len - i,
        {
            proof {
                assert(self@.take(i + 1).drop_last() =~= self@.take(i as int));
            }
            if self.get(i) {
                count = count + 1;
            }
            i = i + 1;
        }
        assert(self@.take(len as int) =~= self@);
        count
    }

    /// Builds a vector from text: `'1'` gives `true`, any other character
    /// gives `false`.
    pub fn from(string: &str) -> (r: BitVec)
        requires
            string@.len() + 64 < usize::MAX,
        ensures
            r.wf(),
            r@ == bits_of(string@),
    {
        broadcast use vstd::string::group_string_axioms;

        let mut vec = BitVec::new();
        let mut chars = string.chars();
        let ghost mut i: int = 0;
        loop
            invariant
                0 <= i <= string@.len(),
                string@.len() + 64 < usize::MAX,
                chars.remaining() == string@.skip(i),
                vec.wf(),
                vec@ == bits_of(string@.take(i)),
            ensures
                vec.wf(),
                vec@ == bits_of(string@),
            decreases string@.len() - i,
        {
            assert(chars.obeys_prophetic_iter_laws());
            let ghost before = chars.remaining();
            match chars.next() {
                Some(c) => {
                    assert(before.len() > 0);
                    assert(string@.skip(i).len() == string@.len() - i);
                    assert(c == string@[i]);
                    assert(vec@.len() == i);
                    let value = c == '1';
                    vec.push(value);
                    proof {
                        assert(string@.take(i + 1) =~= string@.take(i).push(c));
                        assert(chars.remaining() == before.drop_first());
                        i = i + 1;
                        assert(string@.skip(i) =~= string@.skip(i - 1).drop_first());
                    }
                    assert(vec@ =~= bits_of(string@.take(i)));
                },
                None => {
                    assert(string@.take(i) =~= string@);
                    break ;
                },
            }
        }
        vec
    }

    /// The text of the vector: one `'1'` or `'0'` per element.
    pub fn stringify(&self) -> (r: String)
        requires
            self.wf(),
        ensures
            r@ == text_of(self@),
    {
        let len = self.len;
        let mut strvec = String::new();
        let mut i: usize = 0;
        while i < len
            invariant
                i <= len,
                len == self@.len(),
                self.wf(),
                strvec@ == text_of(self@.take(i as int)),
            decreases len - i,
        {
            proof {
                reveal_strlit("1");
                reveal_strlit("0");
            }
            if self.get(i) {
                strvec.append("1");
            } else {
                strvec.append("0");
            }
            assert(self@.take(i + 1) =~= self@.take(i as int).push(self@[i as int]));
            assert(strvec@ =~= text_of(self@.take(i + 1)));
            i = i + 1;
        }
        assert(self@.take(len as int) =~= self@);
        strvec
    }

    /// Replaces the first `words_for(len)` words of the buffer by their
    /// exclusive or with the words of `other`, a vector of the same length.
    pub(crate) fn xor_with(&mut self, other: &BitVec)
        requires
            old(self).wf(),
            other.wf(),
            old(self)@.len() == other@.len(),
        ensures
            final(self).wf(),
            final(self)@ == xor_seq(old(self)@, other@),
    {
        let n = buf_capacity(self.len);
        proof {
            assert(n <= self.buf@.len() && n <= other.buf@.len()) by (nonlinear_arith)
                requires
                    n == (self.len + 63) / 64,
                    self.len <= self.buf@.len() * 64,
                    self.len <= other.buf@.len() * 64,
            ;
        }
        let mut k: usize = 0;
        while k < n
            invariant
                k <= n,
                n <= self.buf@.len(),
                n <= other.buf@.len(),
                self.len == old(self).len,
                self.buf@.len() == old(self).buf@.len(),
                forall|w: int| 0 <= w < k ==> self.buf@[w] == old(self).buf@[w] ^ other.buf@[w],
                forall|w: int| k <= w < self.buf@.len() ==> self.buf@[w] == old(self).buf@[w],
            decreases n - k,
        {
            let x = self.buf[k] ^ other.buf[k];
            self.buf.set(k, x);
            k = k + 1;
        }
        proof {
            assert forall|i: int| 0 <= i < self@.len() implies self@[i] == xor_seq(
                old(self)@,
                other@,
            )[i] by {
                assert(i / 64 < n) by (nonlinear_arith)
                    requires
                        n == (self.len + 63) / 64,
                        0 <= i < self.len,
                ;
                lemma_xor_words(old(self).buf@[i / 64], other.buf@[i / 64], (i % 64) as u64);
            }
            assert(self@ =~= xor_seq(old(self)@, other@));
        }
    }
}

impl Clone for BitVec {
    /// A copy with the same elements and the same buffer.
    fn clone(&self) -> (r: BitVec)
        ensures
            r@ == self@,
            r.wf() == self.wf(),
            r.spec_capacity() == self.spec_capacity(),
    {
        let buf = self.buf.clone();
        proof {
            assert(buf@ =~= self.buf@);
        }
        BitVec { buf, len: self.len }
    }
}

/// Reading an index right after writing `x` there gives `x` back: `set`
/// leaves `v.update(i, x)` and `get` reads the view.
pub proof fn lemma_set_then_get(v: Seq<bool>, i: int, x: bool)
    requires
        0 <= i < v.len(),
    ensures
        v.update(i, x)[i] == x,
        v.update(i, x).len() == v.len(),
{
}

/// Rendering the elements read from a text of `'0'` and `'1'` characters
/// gives that text back.
pub proof fn lemma_text_round_trip(s: Seq<char>)
    requires
        forall|i: int| 0 <= i < s.len() ==> s[i] == '0' || s[i] == '1',
    ensures
        text_of(bits_of(s)) == s,
{
    assert(text_of(bits_of(s)) =~= s);
}

/// A vector whose elements are all `value` counts `len` ones when `value`
/// is `true` and none otherwise, as after `setall`.
pub proof fn lemma_count_uniform(len: nat, value: bool)
    ensures
        count_true(Seq::new(len, |i: int| value)) == if value {
            len
        } else {
            0
        },
    decreases len,
{
    if len > 0 {
        assert(Seq::new(len, |i: int| value).drop_last() =~= Seq::new((len - 1) as nat, |i: int| value));
        lemma_count_uniform((len - 1) as nat, value);
    }
}

/// Exclusive or with the same sequence twice gives the first sequence back.
pub proof fn lemma_xor_twice(a: Seq<bool>, b: Seq<bool>)
    requires
        a.len() == b.len(),
    ensures
        xor_seq(xor_seq(a, b), b) == a,
{
    assert(xor_seq(xor_seq(a, b), b) =~= a);
}

} // verus!
