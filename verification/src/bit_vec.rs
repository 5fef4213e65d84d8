use vstd::prelude::*;

verus! {

/// Whether bit `k` of the word is set.
pub open spec fn word_bit(w: u64, k: int) -> bool {
    (w >> (k as u64)) & 1u64 == 1u64
}

/// Whether bit `k` of a sequence of 64-bit words is set.
pub open spec fn seq_bit(words: Seq<u64>, k: int) -> bool {
    word_bit(words[k / 64], k % 64)
}

/// The number of set bits among `s[0], ..., s[i - 1]`.
pub open spec fn spec_rank1(s: Seq<bool>, i: int) -> int
    recommends
        i <= s.len(),
    decreases i,
{
    if i <= 0 {
        0
    } else {
        spec_rank1(s, i - 1) + if s[i - 1] {
            1int
        } else {
            0int
        }
    }
}

/// The number of clear bits among `s[0], ..., s[i - 1]`.
pub open spec fn spec_rank0(s: Seq<bool>, i: int) -> int {
    i - spec_rank1(s, i)
}

pub open spec fn min2(a: int, b: int) -> int {
    if a <= b {
        a
    } else {
        b
    }
}

/// Rank counts at most one bit per position.
pub proof fn lemma_rank1_bounds(s: Seq<bool>, i: int)
    requires
        0 <= i <= s.len(),
    ensures
        0 <= spec_rank1(s, i) <= i,
    decreases i,
{
    if i > 0 {
        lemma_rank1_bounds(s, i - 1);
    }
}

/// Rank is monotone, and grows by at most the width of the step.
pub proof fn lemma_rank1_monotone(s: Seq<bool>, i: int, j: int)
    requires
        0 <= i <= j <= s.len(),
    ensures
        spec_rank1(s, i) <= spec_rank1(s, j),
        spec_rank1(s, j) - spec_rank1(s, i) <= j - i,
    decreases j,
{
    if i < j {
        lemma_rank1_monotone(s, i, j - 1);
    }
}

/// One step of rank: the count over `i + 1` positions extends the count
/// over `i` positions by the bit at `i`, so consecutive counts differ by
/// zero or one.
pub proof fn lemma_rank1_step(s: Seq<bool>, i: int)
    requires
        0 <= i < s.len(),
    ensures
        spec_rank1(s, i + 1) == spec_rank1(s, i) + if s[i] {
            1int
        } else {
            0int
        },
        spec_rank1(s, i) <= spec_rank1(s, i + 1) <= spec_rank1(s, i) + 1,
{
}

/// Appending bits does not change ranks over the existing prefix.
pub proof fn lemma_rank1_push(s: Seq<bool>, b: bool, i: int)
    requires
        0 <= i <= s.len(),
    ensures
        spec_rank1(s.push(b), i) == spec_rank1(s, i),
    decreases i,
{
    if i > 0 {
        lemma_rank1_push(s, b, i - 1);
        assert(s.push(b)[i - 1] == s[i - 1]);
    }
}

/// Below any prefix holding more than `r` set bits there is a set
/// position of rank exactly `r`.
proof fn lemma_select1_exists_upto(s: Seq<bool>, r: int, m: int)
    requires
        0 <= m <= s.len(),
        0 <= r < spec_rank1(s, m),
    ensures
        exists|i: int| 0 <= i < m && s[i] && #[trigger] spec_rank1(s, i) == r,
    decreases m,
{
    lemma_rank1_bounds(s, m);
    lemma_rank1_step(s, m - 1);
    if spec_rank1(s, m - 1) <= r {
        assert(s[m - 1] && spec_rank1(s, m - 1) == r);
    } else {
        lemma_select1_exists_upto(s, r, m - 1);
    }
}

/// The select/rank inverse, existence half: every rank below the total
/// count is attained at a set position. Together with
/// `lemma_select1_unique` this pins `select1(r)` as the one position `i`
/// with `s[i]` and `rank1(s, i) == r`.
pub proof fn lemma_select1_exists(s: Seq<bool>, r: int)
    requires
        0 <= r < spec_rank1(s, s.len() as int),
    ensures
        exists|i: int| 0 <= i < s.len() && s[i] && #[trigger] spec_rank1(s, i) == r,
{
    lemma_select1_exists_upto(s, r, s.len() as int);
}

proof fn lemma_select0_exists_upto(s: Seq<bool>, r: int, m: int)
    requires
        0 <= m <= s.len(),
        0 <= r < spec_rank0(s, m),
    ensures
        exists|i: int| 0 <= i < m && !s[i] && #[trigger] spec_rank0(s, i) == r,
    decreases m,
{
    lemma_rank1_bounds(s, m);
    lemma_rank1_step(s, m - 1);
    if spec_rank0(s, m - 1) <= r {
        assert(!s[m - 1] && spec_rank0(s, m - 1) == r);
    } else {
        lemma_select0_exists_upto(s, r, m - 1);
    }
}

/// The zero-side select/rank inverse, existence half.
pub proof fn lemma_select0_exists(s: Seq<bool>, r: int)
    requires
        0 <= r < spec_rank0(s, s.len() as int),
    ensures
        exists|i: int| 0 <= i < s.len() && !s[i] && #[trigger] spec_rank0(s, i) == r,
{
    lemma_select0_exists_upto(s, r, s.len() as int);
}

/// A position with a set bit is pinned by its rank: two set positions with
/// the same rank are the same position.
pub proof fn lemma_select1_unique(s: Seq<bool>, i: int, j: int)
    requires
        0 <= i <= j < s.len(),
        s[i],
        s[j],
        spec_rank1(s, i) == spec_rank1(s, j),
    ensures
        i == j,
{
    if i < j {
        lemma_rank1_step(s, i);
        lemma_rank1_monotone(s, i + 1, j);
    }
}

/// A position with a clear bit is pinned by its zero-rank.
pub proof fn lemma_select0_unique(s: Seq<bool>, i: int, j: int)
    requires
        0 <= i <= j < s.len(),
        !s[i],
        !s[j],
        spec_rank0(s, i) == spec_rank0(s, j),
    ensures
        i == j,
{
    if i < j {
        lemma_rank1_step(s, i);
        lemma_rank1_monotone(s, i + 1, j);
    }
}

proof fn lemma_bit_or(w: u64, k: u64, j: u64)
    by (bit_vector)
    requires
        k < 64,
        j < 64,
    ensures
        ((w | (1u64 << k)) >> j) & 1u64 == (if j == k {
            1u64
        } else {
            (w >> j) & 1u64
        }),
{
}

proof fn lemma_bit_and_not(w: u64, k: u64, j: u64)
    by (bit_vector)
    requires
        k < 64,
        j < 64,
    ensures
        ((w & !(1u64 << k)) >> j) & 1u64 == (if j == k {
            0u64
        } else {
            (w >> j) & 1u64
        }),
{
}

proof fn lemma_bit_small(w: u64, j: u64)
    by (bit_vector)
    requires
        w == 0 || w == 1,
        1 <= j < 64,
    ensures
        (w >> j) & 1u64 == 0u64,
{
}

proof fn lemma_bit_low(w: u64)
    by (bit_vector)
    ensures
        (0u64 >> 0u64) & 1u64 == 0u64,
        (1u64 >> 0u64) & 1u64 == 1u64,
{
}

/// A bit sequence stored in 64-bit words, with a sampled rank index built
/// once the sequence is final. Rank and select queries answer from the
/// index; they require the index to have been built.
pub struct BitVec {
    words_: Vec<u64>,
    len_: usize,
    rank_index_: Vec<u32>,
    built_: bool,
}

impl View for BitVec {
    type V = Seq<bool>;

    closed spec fn view(&self) -> Seq<bool> {
        Seq::new(self.len_ as nat, |i: int| seq_bit(self.words_@, i))
    }
}

impl BitVec {
    pub closed spec fn is_built(self) -> bool {
        self.built_
    }

    /// The number of 64-bit words backing the sequence.
    pub closed spec fn spec_word_count(self) -> int {
        self.words_@.len() as int
    }

    /// Storage is exactly as many words as the length requires, unused
    /// high bits are clear, and a built rank index samples the rank at
    /// every word boundary.
    pub closed spec fn wf(self) -> bool {
        &&& self.words_@.len() == (self.len_ + 63) / 64
        &&& self.len_ <= u32::MAX
        &&& forall|k: int|
            self.len_ <= k < 64 * self.words_@.len() ==> !#[trigger] seq_bit(self.words_@, k)
        &&& self.built_ ==> {
            &&& self.rank_index_@.len() == self.words_@.len() + 1
            &&& forall|q: int|
                0 <= q <= self.words_@.len() ==> #[trigger] self.rank_index_@[q] == spec_rank1(
                    self@,
                    min2(64 * q, self.len_ as int),
                )
        }
    }

    pub fn new() -> (r: BitVec)
        ensures
            r.wf(),
            r@.len() == 0,
            !r.is_built(),
    {
        let r = BitVec { words_: Vec::new(), len_: 0, rank_index_: Vec::new(), built_: false };
        proof {
            assert(r@ =~= Seq::<bool>::empty());
        }
        r
    }

    pub fn len(&self) -> (r: usize)
        ensures
            r == self@.len(),
    {
        self.len_
    }

    pub fn is_empty(&self) -> (r: bool)
        ensures
            r == (self@.len() == 0),
    {
        self.len_ == 0
    }

    pub fn at(&self, i: usize) -> (r: bool)
        requires
            self.wf(),
            i < self@.len(),
        ensures
            r == self@[i as int],
    {
        let q = i / 64;
        let k = i % 64;
        proof {
            assert(i / 64 < self.words_@.len() && i % 64 < 64) by (nonlinear_arith)
                requires
                    self.words_@.len() == (self.len_ + 63) / 64,
                    i < self.len_,
            ;
        }
        let w = self.words_[q];
        ((w >> (k as u64)) & 1u64) == 1u64
    }

    /// Appends a bit. Build-time only: the rank index is invalidated.
    pub fn push(&mut self, bit: bool)
        requires
            old(self).wf(),
            old(self)@.len() < u32::MAX,
        ensures
            final(self).wf(),
            final(self)@ == old(self)@.push(bit),
            !final(self).is_built(),
    {
        let ghost olds = self@;
        let ghost olen = self.len_ as int;
        let ghost owlen = self.words_@.len() as int;
        let k = self.len_ % 64;
        let q = self.len_ / 64;
        proof {
            assert(64 * ((self.len_ + 63) / 64) - self.len_ < 64 && self.len_ / 64 * 64 + self.len_
                % 64 == self.len_ && self.len_ % 64 < 64 && (self.len_ % 64 == 0 ==> (self.len_ + 63
                + 1) / 64 == self.len_ / 64 + 1) && (self.len_ % 64 != 0 ==> ((self.len_ + 1 + 63)
                / 64 == (self.len_ + 63) / 64 && self.len_ / 64 < (self.len_ + 63) / 64)))
                by (nonlinear_arith);
        }
        if k == 0 {
            self.words_.push(if bit {
                1u64
            } else {
                0u64
            });
        } else if bit {
            let w = self.words_[q];
            let updated = w | (1u64 << (k as u64));
            self.words_.set(q, updated);
        }
        self.len_ = self.len_ + 1;
        self.built_ = false;
        proof {
            let news = self@;
            assert forall|i: int| 0 <= i < news.len() implies news[i] == olds.push(bit)[i] by {
                let wq = i / 64;
                let wk = i % 64;
                assert(0 <= wq && 0 <= wk < 64 && 64 * wq + wk == i && (i < olen ==> (wq
                    < owlen && 64 * wq <= i)) && (i == olen ==> wq == q
                    && wk == k)) by (nonlinear_arith)
                    requires
                        0 <= i < olen + 1,
                        owlen == (olen + 63) / 64,
                        0 <= olen,
                        q == olen / 64,
                        k == olen % 64,
                        wq == i / 64,
                        wk == i % 64,
                ;
                if k == 0 {
                    // a fresh word was appended
                    if i < old(self).len_ {
                        assert(self.words_@[wq] == old(self).words_@[wq]);
                    } else {
                        let w = self.words_@[q as int];
                        assert(w == 0u64 || w == 1u64);
                        lemma_bit_low(w);
                        if bit {
                            assert(word_bit(w, 0));
                        } else {
                            assert(!word_bit(w, 0));
                        }
                    }
                } else {
                    // the last word may have been updated in place
                    if bit {
                        let w = old(self).words_@[q as int];
                        lemma_bit_or(w, k as u64, wk as u64);
                        if i < old(self).len_ {
                            if wq == q {
                                assert(wk != k);
                                assert(word_bit(self.words_@[q as int], wk) == word_bit(w, wk));
                            } else {
                                assert(self.words_@[wq] == old(self).words_@[wq]);
                            }
                        } else {
                            assert(word_bit(self.words_@[q as int], k as int));
                        }
                    } else {
                        if i == old(self).len_ {
                            // the bit was already clear by the trailing-zeros invariant
                            assert(!seq_bit(old(self).words_@, i));
                        }
                    }
                }
            }
            assert(self@ =~= olds.push(bit));
            // trailing bits stay clear
            assert forall|j: int|
                self.len_ <= j < 64 * self.words_@.len() implies !#[trigger] seq_bit(
                self.words_@,
                j,
            ) by {
                let wq = j / 64;
                let wk = j % 64;
                let nwlen = self.words_@.len() as int;
                assert(0 <= wq < nwlen && 0 <= wk < 64 && 64 * wq + wk == j && (wq < q
                    ==> j < olen) && (wq == q ==> wk >= k) && j >= olen + 1)
                    by (nonlinear_arith)
                    requires
                        olen + 1 <= j < 64 * nwlen,
                        nwlen <= (olen + 63) / 64 + 1,
                        owlen == (olen + 63) / 64,
                        nwlen >= owlen,
                        0 <= olen,
                        q == olen / 64,
                        k == olen % 64,
                        wq == j / 64,
                        wk == j % 64,
                ;
                if k == 0 {
                    if wq < old(self).words_@.len() {
                        assert(!seq_bit(old(self).words_@, j));
                        assert(self.words_@[wq] == old(self).words_@[wq]);
                    } else {
                        let w = self.words_@[wq];
                        assert(w == 0u64 || w == 1u64);
                        assert(wk >= 1);
                        lemma_bit_small(w, wk as u64);
                    }
                } else {
                    if bit {
                        let w = old(self).words_@[q as int];
                        lemma_bit_or(w, k as u64, wk as u64);
                        if wq == q {
                            assert(wk != k);
                            assert(!seq_bit(old(self).words_@, j));
                        } else {
                            assert(!seq_bit(old(self).words_@, j));
                            assert(self.words_@[wq] == old(self).words_@[wq]);
                        }
                    } else {
                        assert(!seq_bit(old(self).words_@, j));
                    }
                }
            }
        }
    }

    /// Overwrites the bit at `i`. Build-time only: the rank index is
    /// invalidated.
    pub fn set(&mut self, i: usize, bit: bool)
        requires
            old(self).wf(),
            i < old(self)@.len(),
        ensures
            final(self).wf(),
            final(self)@ == old(self)@.update(i as int, bit),
            !final(self).is_built(),
    {
        let ghost olds = self@;
        let ghost olen = self.len_ as int;
        let ghost owlen = self.words_@.len() as int;
        let q = i / 64;
        let k = i % 64;
        proof {
            assert(i / 64 < owlen && i % 64 < 64 && 64 * (i / 64) + i % 64 == i)
                by (nonlinear_arith)
                requires
                    owlen == (olen + 63) / 64,
                    0 <= i < olen,
            ;
        }
        let w = self.words_[q];
        let updated = if bit {
            w | (1u64 << (k as u64))
        } else {
            w & !(1u64 << (k as u64))
        };
        self.words_.set(q, updated);
        self.built_ = false;
        proof {
            assert forall|j: int| 0 <= j < self@.len() implies self@[j] == olds.update(
                i as int,
                bit,
            )[j] by {
                let wq = j / 64;
                let wk = j % 64;
                assert(0 <= wq < owlen && 0 <= wk < 64 && 64 * wq + wk == j && ((wq == q && wk
                    == k) <==> j == i)) by (nonlinear_arith)
                    requires
                        0 <= j < olen,
                        owlen == (olen + 63) / 64,
                        q == i / 64,
                        k == i % 64,
                        0 <= i < olen,
                        64 * (i / 64) + i % 64 == i,
                        wq == j / 64,
                        wk == j % 64,
                ;
                if wq == q {
                    if bit {
                        lemma_bit_or(w, k as u64, wk as u64);
                    } else {
                        lemma_bit_and_not(w, k as u64, wk as u64);
                    }
                } else {
                    assert(self.words_@[wq] == old(self).words_@[wq]);
                }
            }
            assert(self@ =~= olds.update(i as int, bit));
            assert forall|j: int|
                self.len_ <= j < 64 * self.words_@.len() implies !#[trigger] seq_bit(
                self.words_@,
                j,
            ) by {
                let wq = j / 64;
                let wk = j % 64;
                assert(0 <= wq < owlen && 0 <= wk < 64 && 64 * wq + wk == j && !(wq == q && wk
                    == k)) by (nonlinear_arith)
                    requires
                        olen <= j < 64 * owlen,
                        owlen == (olen + 63) / 64,
                        q == i / 64,
                        k == i % 64,
                        0 <= i < olen,
                        64 * (i / 64) + i % 64 == i,
                        wq == j / 64,
                        wk == j % 64,
                ;
                assert(!seq_bit(old(self).words_@, j));
                if wq == q {
                    if bit {
                        lemma_bit_or(w, k as u64, wk as u64);
                    } else {
                        lemma_bit_and_not(w, k as u64, wk as u64);
                    }
                }
            }
        }
    }

    /// Finalizes the rank index. Queries become available afterwards.
    pub fn build(&mut self)
        requires
            old(self).wf(),
        ensures
            final(self).wf(),
            final(self)@ == old(self)@,
            final(self).is_built(),
            final(self)@.len() == old(self)@.len(),
    {
        let ghost s = self@;
        let len = self.len_;
        let wlen = self.words_.len();
        let mut idx: Vec<u32> = Vec::new();
        idx.push(0);
        let mut cum: u32 = 0;
        let mut p: usize = 0;
        while p < len
            invariant
                self.wf(),
                self@ == s,
                len == self.len_,
                wlen == self.words_@.len(),
                p <= len,
                cum == spec_rank1(s, p as int),
                0 <= cum <= p,
                idx@.len() == (if p == 0 {
                    1int
                } else {
                    (p + 63) / 64
                }),
                idx@.len() <= wlen + 1,
                forall|t: int|
                    0 <= t < idx@.len() ==> #[trigger] idx@[t] == spec_rank1(
                        s,
                        min2(64 * t, len as int),
                    ),
            decreases len - p,
        {
            if p % 64 == 0 && p > 0 {
                proof {
                    assert((p + 63) / 64 + 1 == (p + 1 + 63) / 64 && 64 * ((p + 63) / 64) == p)
                        by (nonlinear_arith)
                        requires
                            p % 64 == 0,
                            p > 0,
                    ;
                }
                idx.push(cum);
            } else {
                proof {
                    assert((p == 0 ==> (p + 1 + 63) / 64 == 1) && (p % 64 != 0 ==> (p + 1 + 63) / 64
                        == (p + 63) / 64)) by (nonlinear_arith);
                }
            }
            proof {
                lemma_rank1_bounds(s, p as int);
                lemma_rank1_step(s, p as int);
            }
            if self.at(p) {
                cum = cum + 1;
            }
            p = p + 1;
        }
        while idx.len() < wlen + 1
            invariant
                self.wf(),
                self@ == s,
                len == self.len_,
                wlen == self.words_@.len(),
                cum == spec_rank1(s, len as int),
                1 <= idx@.len() <= wlen + 1,
                idx@.len() >= (if len == 0 {
                    1int
                } else {
                    (len + 63) / 64
                }),
                forall|t: int|
                    0 <= t < idx@.len() ==> #[trigger] idx@[t] == spec_rank1(
                        s,
                        min2(64 * t, len as int),
                    ),
            decreases wlen + 1 - idx.len(),
        {
            proof {
                let t = idx@.len() as int;
                assert(64 * t >= len) by (nonlinear_arith)
                    requires
                        t >= (if len == 0 {
                            1int
                        } else {
                            (len + 63) / 64
                        }),
                        len <= u32::MAX,
                ;
            }
            idx.push(cum);
        }
        self.rank_index_ = idx;
        self.built_ = true;
    }

    /// The number of set bits among the first `i` bits.
    pub fn rank1(&self, i: usize) -> (r: usize)
        requires
            self.wf(),
            self.is_built(),
            i <= self@.len(),
        ensures
            r == spec_rank1(self@, i as int),
            r <= i,
    {
        let q = i / 64;
        proof {
            assert(q <= self.words_@.len() && 64 * q <= i && (i % 64 != 0 ==> q
                < self.words_@.len())) by (nonlinear_arith)
                requires
                    self.words_@.len() == (self.len_ + 63) / 64,
                    i <= self.len_,
                    q == i / 64,
            ;
            lemma_rank1_bounds(self@, 64 * q);
        }
        let base = self.rank_index_[q];
        let mut c: usize = base as usize;
        let mut j: usize = 64 * q;
        if j == i {
            return c;
        }
        let w = self.words_[q];
        while j < i
            invariant
                self.wf(),
                self.is_built(),
                i <= self@.len(),
                q == i / 64,
                q < self.words_@.len(),
                w == self.words_@[q as int],
                64 * q <= j <= i,
                c == spec_rank1(self@, j as int),
                c <= j,
            decreases i - j,
        {
            let jj = j - 64 * q;
            proof {
                assert(jj < 64 && j / 64 == q && j % 64 == jj) by (nonlinear_arith)
                    requires
                        jj == j - 64 * q,
                        q == i / 64,
                        64 * q <= j < i,
                        i <= self.len_,
                ;
                lemma_rank1_step(self@, j as int);
                assert(self@[j as int] == seq_bit(self.words_@, j as int));
            }
            if ((w >> (jj as u64)) & 1u64) == 1u64 {
                c = c + 1;
            }
            j = j + 1;
        }
        c
    }

    /// The number of clear bits among the first `i` bits.
    pub fn rank0(&self, i: usize) -> (r: usize)
        requires
            self.wf(),
            self.is_built(),
            i <= self@.len(),
        ensures
            r == spec_rank0(self@, i as int),
            r <= i,
    {
        proof {
            lemma_rank1_bounds(self@, i as int);
        }
        i - self.rank1(i)
    }

    /// The total number of set bits.
    pub fn num_ones(&self) -> (r: usize)
        requires
            self.wf(),
            self.is_built(),
        ensures
            r == spec_rank1(self@, self@.len() as int),
    {
        self.rank1(self.len_)
    }

    /// The position of the `(r + 1)`-th set bit: the least `i` with
    /// `rank1(i + 1) == r + 1`. The returned position carries a set bit
    /// whose rank is exactly `r`.
    pub fn select1(&self, r: usize) -> (ret: usize)
        requires
            self.wf(),
            self.is_built(),
            r < spec_rank1(self@, self@.len() as int),
        ensures
            ret < self@.len(),
            self@[ret as int],
            spec_rank1(self@, ret as int) == r,
    {
        let len = self.len_;
        let wlen = self.words_.len();
        proof {
            assert(min2(0, len as int) == 0 && 64 * wlen >= len) by (nonlinear_arith)
                requires
                    wlen == (len + 63) / 64,
                    len <= u32::MAX,
            ;
            assert(self.rank_index_@[wlen as int] == spec_rank1(self@, len as int));
        }
        let mut lo: usize = 0;
        let mut hi: usize = wlen;
        while hi - lo > 1
            invariant
                self.wf(),
                self.is_built(),
                len == self.len_,
                wlen == self.words_@.len(),
                lo < hi <= wlen,
                self.rank_index_@[lo as int] <= r,
                r < self.rank_index_@[hi as int],
            decreases hi - lo,
        {
            let mid = lo + (hi - lo) / 2;
            if self.rank_index_[mid] as usize <= r {
                lo = mid;
            } else {
                hi = mid;
            }
        }
        if wlen == 0 {
            proof {
                assert(spec_rank1(self@, 0) == 0);
            }
            return 0;
        }
        let q = lo;
        proof {
            assert(64 * q <= 64 * (wlen - 1) && 64 * (wlen - 1) < len) by (nonlinear_arith)
                requires
                    q < wlen,
                    wlen == (len + 63) / 64,
                    wlen >= 1,
                    len <= u32::MAX,
            ;
        }
        let w = self.words_[q];
        let mut c: usize = self.rank_index_[q] as usize;
        let mut j: usize = 0;
        proof {
            lemma_rank1_bounds(self@, 64 * q);
        }
        while j < 64
            invariant
                self.wf(),
                self.is_built(),
                len == self.len_,
                wlen == self.words_@.len(),
                q < wlen,
                w == self.words_@[q as int],
                64 * q < len,
                j <= 64,
                64 * q + j <= len,
                c == spec_rank1(self@, 64 * q + j),
                c <= r,
                r < self.rank_index_@[(q + 1) as int],
            decreases 64 - j,
        {
            let p = 64 * q + j;
            proof {
                // the target bit lies inside this word and before the end
                assert(min2(64 * (q + 1), len as int) <= len);
                if p >= len {
                    assert(64 * (q + 1) >= len) by (nonlinear_arith)
                        requires
                            p == 64 * q + j,
                            j < 64,
                            p >= len,
                    ;
                    assert(self.rank_index_@[(q + 1) as int] == spec_rank1(self@, len as int));
                    lemma_rank1_monotone(self@, len as int, len as int);
                    assert(c == spec_rank1(self@, p as int));
                    lemma_rank1_monotone(self@, len as int, p as int);
                    assert(false);
                }
                assert(p / 64 == q && p % 64 == j) by (nonlinear_arith)
                    requires
                        p == 64 * q + j,
                        j < 64,
                ;
                lemma_rank1_step(self@, p as int);
                assert(self@[p as int] == seq_bit(self.words_@, p as int));
            }
            if ((w >> (j as u64)) & 1u64) == 1u64 {
                if c == r {
                    return p;
                }
                c = c + 1;
            }
            j = j + 1;
        }
        proof {
            // all 64 bits of the word are exhausted, contradicting the
            // binary search bracket
            assert(min2(64 * (q + 1), len as int) >= 64 * q + 64 || min2(64 * (q + 1), len as int)
                == len as int);
            if 64 * (q + 1) <= len {
                assert(c == spec_rank1(self@, 64 * q + 64));
                assert(self.rank_index_@[(q + 1) as int] == spec_rank1(self@, 64 * (q + 1)));
                assert(false);
            } else {
                assert(64 * q + 64 > len && 64 * q + 64 >= len);
                assert(self.rank_index_@[(q + 1) as int] == spec_rank1(self@, len as int));
                assert(c == spec_rank1(self@, 64 * q + 64));
                assert(64 * q + 64 <= len);
                assert(false);
            }
        }
        0
    }

    /// The position of the `(r + 1)`-th clear bit: the least `i` with
    /// `rank0(i + 1) == r + 1`.
    pub fn select0(&self, r: usize) -> (ret: usize)
        requires
            self.wf(),
            self.is_built(),
            r < spec_rank0(self@, self@.len() as int),
        ensures
            ret < self@.len(),
            !self@[ret as int],
            spec_rank0(self@, ret as int) == r,
    {
        let len = self.len_;
        let wlen = self.words_.len();
        proof {
            lemma_rank1_bounds(self@, len as int);
            assert(min2(0, len as int) == 0 && 64 * wlen >= len) by (nonlinear_arith)
                requires
                    wlen == (len + 63) / 64,
                    len <= u32::MAX,
            ;
            assert(self.rank_index_@[wlen as int] == spec_rank1(self@, len as int));
        }
        let mut lo: usize = 0;
        let mut hi: usize = wlen;
        while hi - lo > 1
            invariant
                self.wf(),
                self.is_built(),
                len == self.len_,
                wlen == self.words_@.len(),
                lo < hi <= wlen,
                min2(64 * lo, len as int) - self.rank_index_@[lo as int] <= r,
                r < min2(64 * hi, len as int) - self.rank_index_@[hi as int],
            decreases hi - lo,
        {
            let mid = lo + (hi - lo) / 2;
            let mut b: usize = 64 * mid;
            proof {
                assert(64 * mid <= 64 * wlen) by (nonlinear_arith)
                    requires
                        mid < wlen,
                ;
            }
            if b > len {
                b = len;
            }
            proof {
                lemma_rank1_bounds(self@, min2(64 * mid, len as int));
            }
            let zeros = b - self.rank_index_[mid] as usize;
            if zeros <= r {
                lo = mid;
            } else {
                hi = mid;
            }
        }
        if wlen == 0 {
            return 0;
        }
        let q = lo;
        proof {
            assert(64 * q <= 64 * (wlen - 1) && 64 * (wlen - 1) < len) by (nonlinear_arith)
                requires
                    q < wlen,
                    wlen == (len + 63) / 64,
                    wlen >= 1,
                    len <= u32::MAX,
            ;
            lemma_rank1_bounds(self@, 64 * q);
        }
        let w = self.words_[q];
        let mut c: usize = 64 * q - self.rank_index_[q] as usize;
        let mut j: usize = 0;
        while j < 64
            invariant
                self.wf(),
                self.is_built(),
                len == self.len_,
                wlen == self.words_@.len(),
                q < wlen,
                w == self.words_@[q as int],
                64 * q < len,
                j <= 64,
                64 * q + j <= len,
                c == spec_rank0(self@, 64 * q + j),
                c <= r,
                r < min2(64 * (q + 1), len as int) - self.rank_index_@[(q + 1) as int],
            decreases 64 - j,
        {
            let p = 64 * q + j;
            proof {
                if p >= len {
                    assert(64 * (q + 1) >= len) by (nonlinear_arith)
                        requires
                            p == 64 * q + j,
                            j < 64,
                            p >= len,
                    ;
                    assert(self.rank_index_@[(q + 1) as int] == spec_rank1(self@, len as int));
                    assert(c == spec_rank0(self@, p as int));
                    assert(false);
                }
                assert(p / 64 == q && p % 64 == j) by (nonlinear_arith)
                    requires
                        p == 64 * q + j,
                        j < 64,
                ;
                lemma_rank1_step(self@, p as int);
                assert(self@[p as int] == seq_bit(self.words_@, p as int));
            }
            if ((w >> (j as u64)) & 1u64) == 1u64 {
            } else {
                if c == r {
                    return p;
                }
                c = c + 1;
            }
            j = j + 1;
        }
        proof {
            if 64 * (q + 1) <= len {
                assert(c == spec_rank0(self@, 64 * q + 64));
                assert(self.rank_index_@[(q + 1) as int] == spec_rank1(self@, 64 * (q + 1)));
                assert(min2(64 * (q + 1), len as int) == 64 * (q + 1));
                assert(false);
            } else {
                assert(self.rank_index_@[(q + 1) as int] == spec_rank1(self@, len as int));
                assert(c == spec_rank0(self@, 64 * q + 64));
                assert(64 * q + 64 <= len);
                assert(false);
            }
        }
        0
    }

    /// Serialized footprint in bytes: a header word, the bit words, and
    /// the rank index if built.
    pub open spec fn spec_io_size(self) -> int {
        8 + 8 * self.spec_word_count() + (if self.is_built() {
            4 * (self.spec_word_count() + 1)
        } else {
            0int
        })
    }

    /// The footprint, computed exactly and deterministically.
    pub fn io_size(&self) -> (r: u64)
        requires
            self.wf(),
        ensures
            r == self.spec_io_size(),
            r < 0x100000000u64,
    {
        proof {
            assert(self.words_@.len() <= (0xFFFFFFFFu64 + 63) / 64) by (nonlinear_arith)
                requires
                    self.words_@.len() == (self.len_ + 63) / 64,
                    self.len_ <= u32::MAX,
            ;
        }
        let w = self.words_.len() as u64;
        8 + 8 * w + (if self.built_ {
            4 * (w + 1)
        } else {
            0
        })
    }
}

} // verus!
