//! Rank and select over a bit array, backed by per-word and per-super-block popcount tables.
use vstd::prelude::*;
use vstd::arithmetic::power2::{pow2, lemma_pow2_unfold, lemma2_to64, lemma_pow2_strictly_increases};
use vstd::bits::lemma_u64_shr_is_div;
use crate::bitarray::{BitArray, FormatError, be_u64, bytes_bits, bytes_for};
use crate::logarray::{
    LogArrayBuilder, header_error, logarray_entries, logarray_values, lemma_logarray_round_trip,
    stored_count, stored_width, body_bits,
};

verus! {

/// Bits per block.
pub const BLOCK_BITS: usize = 64;

/// Blocks per super-block.
pub const SBLOCK_SIZE: usize = 52;

/// Bits per super-block.
pub const SBLOCK_BITS: usize = 3328;

/// Number of bits equal to `b` among the first `hi` bits of `s`.
pub open spec fn count(s: Seq<bool>, b: bool, hi: int) -> nat
    decreases hi,
{
    if hi <= 0 {
        0
    } else {
        count(s, b, hi - 1) + if s[hi - 1] == b {
            1nat
        } else {
            0nat
        }
    }
}

/// Number of bits equal to `b` in positions `[lo, hi)` of `s`.
pub open spec fn count_in(s: Seq<bool>, b: bool, lo: int, hi: int) -> int {
    count(s, b, hi) - count(s, b, lo)
}

/// Counting is monotonic and grows by at most one per position.
pub proof fn lemma_count_mono(s: Seq<bool>, b: bool, i: int, j: int)
    requires
        0 <= i <= j,
    ensures
        count(s, b, i) <= count(s, b, j) <= count(s, b, i) + (j - i),
    decreases j,
{
    if j > i {
        lemma_count_mono(s, b, i, j - 1);
    }
}

/// Every position holds a one or a zero: `rank1(i) + rank0(i) == i`.
pub proof fn lemma_rank_sum(s: Seq<bool>, i: int)
    requires
        0 <= i,
    ensures
        count(s, true, i) + count(s, false, i) == i,
    decreases i,
{
    if i > 0 {
        lemma_rank_sum(s, i - 1);
    }
}

/// Counts over a range depend only on the bits inside that range.
pub proof fn lemma_count_in_local(s: Seq<bool>, t: Seq<bool>, b: bool, lo: int, hi: int)
    requires
        0 <= lo <= hi <= s.len(),
        hi <= t.len(),
        s.subrange(lo, hi) == t.subrange(lo, hi),
    ensures
        count_in(s, b, lo, hi) == count_in(t, b, lo, hi),
    decreases hi,
{
    if hi > lo {
        assert(s[hi - 1] == s.subrange(lo, hi)[hi - 1 - lo]);
        assert(t[hi - 1] == t.subrange(lo, hi)[hi - 1 - lo]);
        assert(s.subrange(lo, hi - 1) =~= s.subrange(lo, hi).subrange(0, hi - 1 - lo));
        assert(t.subrange(lo, hi - 1) =~= t.subrange(lo, hi).subrange(0, hi - 1 - lo));
        lemma_count_in_local(s, t, b, lo, hi - 1);
    }
}

/// The position that select reports for rank `r` has rank `r` just past it: `rank(select(r) + 1) == r`.
pub proof fn lemma_rank_of_select(s: Seq<bool>, b: bool, p: int, r: int)
    requires
        0 <= p < s.len(),
        s[p] == b,
        count(s, b, p) == r - 1,
    ensures
        count(s, b, p + 1) == r,
{
}

/// A position holding the `r`-th bit equal to `b` (1-indexed) is unique.
pub proof fn lemma_select_unique(s: Seq<bool>, b: bool, p: int, q: int)
    requires
        0 <= p < s.len(),
        0 <= q < s.len(),
        s[p] == b,
        s[q] == b,
        count(s, b, p) == count(s, b, q),
    ensures
        p == q,
{
    if p < q {
        lemma_count_mono(s, b, p + 1, q);
    } else if q < p {
        lemma_count_mono(s, b, q + 1, p);
    }
}

pub open spec fn min(a: int, b: int) -> int {
    if a < b {
        a
    } else {
        b
    }
}

/// The word and super-block tables reach to the end of the bits.
proof fn lemma_tables_cover(n: int)
    requires
        0 <= n,
    ensures
        64 * BitIndex::num_words(n) >= n,
        BitIndex::num_words(n) == 0 <==> n == 0,
        64 * (BitIndex::num_words(n) - 1) < n || n == 0,
        52 * ((BitIndex::num_words(n) + 51) / 52) >= BitIndex::num_words(n),
        52 * ((BitIndex::num_words(n) + 51) / 52 - 1) < BitIndex::num_words(n) || n == 0,
{
    let w = BitIndex::num_words(n);
    assert(64 * w >= n && (w == 0 <==> n == 0) && (64 * (w - 1) < n || n == 0)) by (nonlinear_arith)
        requires
            w == (n + 63) / 64,
            n >= 0,
    ;
    assert(52 * ((w + 51) / 52) >= w && (52 * ((w + 51) / 52 - 1) < w || w == 0)) by (nonlinear_arith)
        requires
            w >= 0,
    ;
}

/// The cumulative popcount at the end of each 64-bit word.
pub open spec fn block_table(v: Seq<bool>) -> Seq<u64> {
    Seq::new(
        BitIndex::num_words(v.len() as int) as nat,
        |k: int| count(v, true, min(64 * (k + 1), v.len() as int)) as u64,
    )
}

/// The cumulative popcount at the end of each super-block.
pub open spec fn sblock_table(v: Seq<bool>) -> Seq<u64> {
    Seq::new(
        ((BitIndex::num_words(v.len() as int) + 51) / 52) as nat,
        |t: int| count(v, true, min(3328 * (t + 1), v.len() as int)) as u64,
    )
}

/// The bit length stored at the end of a bit file.
pub open spec fn bit_file_len(data: Seq<u8>) -> u64 {
    be_u64(data.subrange(data.len() - 8, data.len() as int))
}

/// The stored bit length matches the size of the file and fits in memory.
pub open spec fn bit_file_fits(data: Seq<u8>) -> bool {
    data.len() - 8 == bytes_for(bit_file_len(data) as int) && bit_file_len(data) <= usize::MAX
}

/// A bit file is well formed.
pub open spec fn bit_file_ok(data: Seq<u8>) -> bool {
    data.len() >= 8 && bit_file_fits(data)
}

/// The bits a bit file holds.
pub open spec fn bit_file_bits(data: Seq<u8>) -> Seq<bool> {
    bytes_bits(data.subrange(0, data.len() - 8), bit_file_len(data) as int)
}

/// The fewest bits, at least one, that hold `n`.
pub fn width_for(n: u64) -> (r: u32)
    ensures
        1 <= r <= 64,
        n < pow2(r as nat),
        r == 1 || n >= pow2((r - 1) as nat),
{
    proof {
        lemma2_to64();
    }
    let mut w: u32 = 1;
    while w < 64 && (n >> (w as u64)) != 0
        invariant
            1 <= w <= 64,
            w == 1 || n >= pow2((w - 1) as nat),
        decreases 64 - w,
    {
        proof {
            lemma_u64_shr_is_div(n, w as u64);
            lemma_pow2_unfold(w as nat);
            vstd::arithmetic::power2::lemma_pow2_pos(w as nat);
            let p = pow2(w as nat) as int;
            assert(n as int / p != 0 ==> n >= p) by (nonlinear_arith)
                requires
                    p > 0,
            ;
        }
        w = w + 1;
    }
    proof {
        lemma2_to64();
        if w < 64 {
            lemma_u64_shr_is_div(n, w as u64);
            vstd::arithmetic::power2::lemma_pow2_pos(w as nat);
            let p = pow2(w as nat) as int;
            assert(n as int / p == 0 ==> n < p) by (nonlinear_arith)
                requires
                    p > 0,
                    n >= 0,
            ;
        }
    }
    w
}

/// Writes `entries` as a log-array of `width`-bit entries.
fn write_table(entries: &Vec<u64>, width: u32) -> (r: Vec<u8>)
    requires
        1 <= width <= 64,
        entries@.len() < 0xffff_ffff,
        entries@.len() * 64 <= usize::MAX,
        forall|k: int| 0 <= k < entries@.len() ==> entries@[k] < pow2(width as nat),
    ensures
        header_error(r@) is None,
        stored_width(r@) == width,
        logarray_values(r@) == entries@,
{
    let mut b = LogArrayBuilder::new(width);
    let mut i: usize = 0;
    while i < entries.len()
        invariant
            1 <= width <= 64,
            entries@.len() < 0xffff_ffff,
            entries@.len() * 64 <= usize::MAX,
            forall|k: int| 0 <= k < entries@.len() ==> entries@[k] < pow2(width as nat),
            i <= entries@.len(),
            b.wf(),
            b.width_spec() == width,
            b@ == entries@.subrange(0, i as int),
        decreases entries@.len() - i,
    {
        proof {
            assert((i + 1) * width <= entries@.len() * 64) by (nonlinear_arith)
                requires
                    i < entries@.len(),
                    width <= 64,
            ;
        }
        b.push(entries[i]);
        assert(b@ =~= entries@.subrange(0, i + 1));
        i = i + 1;
    }
    assert(b@ =~= entries@);
    let r = b.finalize();
    proof {
        lemma_logarray_round_trip(r@, entries@);
    }
    r
}

/// Whether two sequences of integers are equal.
fn same_values(a: &Vec<u64>, b: &Vec<u64>) -> (r: bool)
    ensures
        r == (a@ == b@),
{
    if a.len() != b.len() {
        return false;
    }
    let mut i: usize = 0;
    while i < a.len()
        invariant
            a@.len() == b@.len(),
            i <= a@.len(),
            forall|k: int| 0 <= k < i ==> a@[k] == b@[k],
        decreases a@.len() - i,
    {
        if a[i] != b[i] {
            return false;
        }
        i = i + 1;
    }
    assert(a@ =~= b@);
    true
}

/// A bit array with its rank/select tables.
pub struct BitIndex {
    array: BitArray,
    blocks: Vec<u64>,
    sblocks: Vec<u64>,
}

impl BitIndex {
    pub closed spec fn view(&self) -> Seq<bool> {
        self.array@
    }

    /// Number of 64-bit words.
    pub open spec fn num_words(n: int) -> int {
        (n + 63) / 64
    }

    /// The tables hold the cumulative popcount at the end of each word and each super-block.
    pub closed spec fn wf(&self) -> bool {
        let v = self.array@;
        &&& self.array.wf()
        &&& v.len() <= usize::MAX
        &&& self.blocks@.len() == Self::num_words(v.len() as int)
        &&& forall|k: int|
            0 <= k < self.blocks@.len() ==> #[trigger] self.blocks@[k] == count(
                v,
                true,
                min(64 * (k + 1), v.len() as int),
            )
        &&& self.sblocks@.len() == (self.blocks@.len() + 51) / 52
        &&& forall|t: int|
            0 <= t < self.sblocks@.len() ==> #[trigger] self.sblocks@[t] == count(
                v,
                true,
                min(3328 * (t + 1), v.len() as int),
            )
    }

    /// Counts the ones in positions `[lo, hi)` bit by bit.
    fn count_ones_between(array: &BitArray, lo: usize, hi: usize) -> (r: u64)
        requires
            array.wf(),
            lo <= hi <= array@.len(),
        ensures
            r == count_in(array@, true, lo as int, hi as int),
    {
        let mut c: u64 = 0;
        let mut i = lo;
        while i < hi
            invariant
                array.wf(),
                lo <= i <= hi <= array@.len(),
                c == count_in(array@, true, lo as int, i as int),
            decreases hi - i,
        {
            proof {
                lemma_count_mono(array@, true, lo as int, i as int);
            }
            if array.get(i) {
                c = c + 1;
            }
            i = i + 1;
        }
        c
    }

    /// Builds the rank/select tables of `array`.
    pub fn new(array: BitArray) -> (r: BitIndex)
        requires
            array.wf(),
        ensures
            r.wf(),
            r@ == array@,
    {
        let n = array.len();
        proof {
            array.lemma_len_bound();
        }
        let nwords = n / 64 + if n % 64 == 0 { 0usize } else { 1usize };
        assert(nwords == Self::num_words(n as int));
        let mut blocks: Vec<u64> = Vec::new();
        let mut c: u64 = 0;
        let mut k: usize = 0;
        while k < nwords
            invariant
                array.wf(),
                n == array@.len(),
                nwords == Self::num_words(n as int),
                k <= nwords,
                blocks@.len() == k,
                64 * k <= n + 63,
                c == count(array@, true, min(64 * k, n as int)),
                forall|j: int|
                    0 <= j < k ==> #[trigger] blocks@[j] == count(
                        array@,
                        true,
                        min(64 * (j + 1), n as int),
                    ),
            decreases nwords - k,
        {
            let lo = 64 * k;
            let hi = if n - lo > 64 {
                lo + 64
            } else {
                n
            };
            let part = Self::count_ones_between(&array, lo, hi);
            proof {
                lemma_count_mono(array@, true, 0, lo as int);
                lemma_count_mono(array@, true, lo as int, hi as int);
                lemma_count_mono(array@, true, 0, hi as int);
            }
            c = c + part;
            blocks.push(c);
            k = k + 1;
        }
        let nsb = (nwords + 51) / 52;
        let mut sblocks: Vec<u64> = Vec::new();
        let mut t: usize = 0;
        while t < nsb
            invariant
                nsb == (nwords + 51) / 52,
                blocks@.len() == nwords,
                nwords == Self::num_words(n as int),
                n == array@.len(),
                t <= nsb,
                sblocks@.len() == t,
                forall|j: int|
                    0 <= j < nwords ==> #[trigger] blocks@[j] == count(
                        array@,
                        true,
                        min(64 * (j + 1), n as int),
                    ),
                forall|j: int|
                    0 <= j < t ==> #[trigger] sblocks@[j] == count(
                        array@,
                        true,
                        min(3328 * (j + 1), n as int),
                    ),
            decreases nsb - t,
        {
            let last = if nwords - 52 * t > 52 {
                52 * t + 51
            } else {
                nwords - 1
            };
            assert(blocks@[last as int] == count(array@, true, min(3328 * (t + 1), n as int)));
            sblocks.push(blocks[last]);
            t = t + 1;
        }
        BitIndex { array, blocks, sblocks }
    }

    /// Number of bits equal to `b` before bit `64 * k`, read from the block table.
    fn count_before_word(&self, b: bool, k: usize) -> (r: u64)
        requires
            self.wf(),
            64 * k <= self@.len(),
        ensures
            r == count(self@, b, 64 * k),
    {
        let ones = if k == 0 {
            0u64
        } else {
            self.blocks[k - 1]
        };
        proof {
            lemma_rank_sum(self@, 64 * k);
            lemma_count_mono(self@, true, 0, 64 * k);
            if k > 0 {
                assert(self.blocks@[k - 1] == count(self@, true, min(64 * k, self@.len() as int)));
            }
        }
        let m = (64 * k) as u64;
        assert(ones <= m);
        if b {
            ones
        } else {
            m - ones
        }
    }

    /// Number of bits equal to `b` up to the end of word `k`.
    fn count_through_word(&self, b: bool, k: usize) -> (r: u64)
        requires
            self.wf(),
            k < self.blocks@.len(),
        ensures
            r == count(self@, b, min(64 * (k + 1), self@.len() as int)),
    {
        let n = self.array.len();
        let end = if n - 64 * k > 64 {
            64 * k + 64
        } else {
            n
        };
        let ones = self.blocks[k];
        proof {
            lemma_rank_sum(self@, end as int);
        }
        if b {
            ones
        } else {
            end as u64 - ones
        }
    }

    /// Number of bits equal to `b` up to the end of super-block `t`.
    fn count_through_sblock(&self, b: bool, t: usize) -> (r: u64)
        requires
            self.wf(),
            t < self.sblocks@.len(),
        ensures
            r == count(self@, b, min(3328 * (t + 1), self@.len() as int)),
    {
        let n = self.array.len();
        let end = if n - 3328 * t > 3328 {
            3328 * t + 3328
        } else {
            n
        };
        let ones = self.sblocks[t];
        proof {
            lemma_rank_sum(self@, end as int);
        }
        if b {
            ones
        } else {
            end as u64 - ones
        }
    }

    /// Number of bits equal to `b` in positions `[0, i)`.
    pub fn rank(&self, b: bool, i: u64) -> (r: u64)
        requires
            self.wf(),
            i <= self@.len(),
        ensures
            r == count(self@, b, i as int),
    {
        let i = i as usize;
        let k = i / 64;
        assert(64 * k <= i) by (nonlinear_arith)
            requires
                k == i / 64,
        ;
        let base = self.count_before_word(b, k);
        let ones = Self::count_ones_between(&self.array, 64 * k, i);
        proof {
            lemma_rank_sum(self@, 64 * k);
            lemma_rank_sum(self@, i as int);
            lemma_count_mono(self@, b, 64 * k, i as int);
        }
        if b {
            base + ones
        } else {
            let span = (i - 64 * k) as u64;
            assert(ones <= span);
            base + (span - ones)
        }
    }

    /// Number of ones in positions `[0, i)`.
    pub fn rank1(&self, i: u64) -> (r: u64)
        requires
            self.wf(),
            i <= self@.len(),
        ensures
            r == count(self@, true, i as int),
    {
        self.rank(true, i)
    }

    /// Number of zeros in positions `[0, i)`.
    pub fn rank0(&self, i: u64) -> (r: u64)
        requires
            self.wf(),
            i <= self@.len(),
        ensures
            r == count(self@, false, i as int),
    {
        self.rank(false, i)
    }

    /// Number of bits equal to `b` in positions `[start, end)`.
    pub fn rank_from_range(&self, b: bool, start: u64, end: u64) -> (r: u64)
        requires
            self.wf(),
            start <= end <= self@.len(),
        ensures
            r == count_in(self@, b, start as int, end as int),
    {
        proof {
            lemma_count_mono(self@, b, start as int, end as int);
        }
        self.rank(b, end) - self.rank(b, start)
    }

    /// Number of ones in positions `[start, end)`.
    pub fn rank1_from_range(&self, start: u64, end: u64) -> (r: u64)
        requires
            self.wf(),
            start <= end <= self@.len(),
        ensures
            r == count_in(self@, true, start as int, end as int),
    {
        proof {
            lemma_count_mono(self@, true, start as int, end as int);
        }
        self.rank(true, end) - self.rank(true, start)
    }

    /// Number of zeros in positions `[start, end)`.
    pub fn rank0_from_range(&self, start: u64, end: u64) -> (r: u64)
        requires
            self.wf(),
            start <= end <= self@.len(),
        ensures
            r == count_in(self@, false, start as int, end as int),
    {
        proof {
            lemma_count_mono(self@, false, start as int, end as int);
        }
        self.rank(false, end) - self.rank(false, start)
    }

    /// Position of the `r`-th (1-indexed) bit equal to `b`, if there is one.
    pub fn select(&self, b: bool, r: u64) -> (res: Option<u64>)
        requires
            self.wf(),
        ensures
            res is Some <==> 1 <= r <= count(self@, b, self@.len() as int),
            res is Some ==> {
                let p = res->Some_0 as int;
                &&& p < self@.len()
                &&& self@[p] == b
                &&& count(self@, b, p) == r - 1
            },
    {
        let n = self.array.len();
        let nwords = self.blocks.len();
        let nsb = self.sblocks.len();
        proof {
            lemma_tables_cover(n as int);
        }
        if r == 0 || nwords == 0 {
            return None;
        }
        let total = self.count_through_word(b, nwords - 1);
        if r > total {
            return None;
        }
        // the super-block holding the bit
        let mut t: usize = 0;
        while t + 1 < nsb && self.count_through_sblock(b, t) < r
            invariant
                self.wf(),
                n == self@.len(),
                nsb == self.sblocks@.len(),
                nwords == self.blocks@.len(),
                1 <= r <= count(self@, b, n as int),
                t < nsb,
                3328 * t < n,
                count(self@, b, 3328 * t) < r,
            decreases nsb - t,
        {
            t = t + 1;
        }
        // the word holding the bit
        let mut k: usize = 52 * t;
        while k + 1 < nwords && self.count_through_word(b, k) < r
            invariant
                self.wf(),
                n == self@.len(),
                nwords == self.blocks@.len(),
                1 <= r <= count(self@, b, n as int),
                k < nwords,
                64 * k < n,
                count(self@, b, 64 * k) < r,
            decreases nwords - k,
        {
            k = k + 1;
        }
        let end = if n - 64 * k > 64 {
            64 * k + 64
        } else {
            n
        };
        // the bit itself
        let mut p: usize = 64 * k;
        let mut c = self.count_before_word(b, k);
        while p < end
            invariant
                self.wf(),
                n == self@.len(),
                64 * k <= p <= end <= n,
                c == count(self@, b, p as int),
                c < r,
                1 <= r <= count(self@, b, n as int),
                count(self@, b, end as int) >= r,
            decreases end - p,
        {
            if self.array.get(p) == b {
                if c + 1 == r {
                    return Some(p as u64);
                }
                c = c + 1;
            }
            p = p + 1;
        }
        None
    }

    /// Position of the `r`-th (1-indexed) one, if there is one.
    pub fn select1(&self, r: u64) -> (res: Option<u64>)
        requires
            self.wf(),
        ensures
            res is Some <==> 1 <= r <= count(self@, true, self@.len() as int),
            res is Some ==> {
                let p = res->Some_0 as int;
                &&& p < self@.len()
                &&& self@[p]
                &&& count(self@, true, p) == r - 1
            },
    {
        self.select(true, r)
    }

    /// Position of the `r`-th (1-indexed) zero, if there is one.
    pub fn select0(&self, r: u64) -> (res: Option<u64>)
        requires
            self.wf(),
        ensures
            res is Some <==> 1 <= r <= count(self@, false, self@.len() as int),
            res is Some ==> {
                let p = res->Some_0 as int;
                &&& p < self@.len()
                &&& !self@[p]
                &&& count(self@, false, p) == r - 1
            },
    {
        self.select(false, r)
    }

    /// Position of the `r`-th (1-indexed) bit equal to `b` within `[start, end)`, if there is one.
    pub fn select_from_range(&self, b: bool, r: u64, start: u64, end: u64) -> (res: Option<u64>)
        requires
            self.wf(),
            start <= end <= self@.len(),
        ensures
            res is Some <==> 1 <= r <= count_in(self@, b, start as int, end as int),
            res is Some ==> {
                let p = res->Some_0 as int;
                &&& start <= p < end
                &&& self@[p] == b
                &&& count_in(self@, b, start as int, p) == r - 1
            },
    {
        proof {
            lemma_count_mono(self@, b, start as int, end as int);
            lemma_count_mono(self@, b, end as int, self@.len() as int);
        }
        if r == 0 || r > end - start {
            return None;
        }
        let before = self.rank(b, start);
        proof {
            lemma_count_mono(self@, b, 0, start as int);
        }
        match self.select(b, r + before) {
            Some(p) => {
                proof {
                    if p < start {
                        lemma_count_mono(self@, b, p + 1, start as int);
                    }
                    if p >= end {
                        lemma_count_mono(self@, b, end as int, p as int);
                    } else {
                        lemma_count_mono(self@, b, p + 1, end as int);
                    }
                }
                if p < end {
                    Some(p)
                } else {
                    None
                }
            },
            None => None,
        }
    }

    /// Position of the `r`-th (1-indexed) one within `[start, end)`, if there is one.
    pub fn select1_from_range(&self, r: u64, start: u64, end: u64) -> (res: Option<u64>)
        requires
            self.wf(),
            start <= end <= self@.len(),
        ensures
            res is Some <==> 1 <= r <= count_in(self@, true, start as int, end as int),
            res is Some ==> {
                let p = res->Some_0 as int;
                &&& start <= p < end
                &&& self@[p]
                &&& count_in(self@, true, start as int, p) == r - 1
            },
    {
        self.select_from_range(true, r, start, end)
    }

    /// Position of the `r`-th (1-indexed) zero within `[start, end)`, if there is one.
    pub fn select0_from_range(&self, r: u64, start: u64, end: u64) -> (res: Option<u64>)
        requires
            self.wf(),
            start <= end <= self@.len(),
        ensures
            res is Some <==> 1 <= r <= count_in(self@, false, start as int, end as int),
            res is Some ==> {
                let p = res->Some_0 as int;
                &&& start <= p < end
                &&& !self@[p]
                &&& count_in(self@, false, start as int, p) == r - 1
            },
    {
        self.select_from_range(false, r, start, end)
    }

    /// A copy of this index.
    pub fn duplicate(&self) -> (r: BitIndex)
        ensures
            r@ == self@,
            self.wf() ==> r.wf(),
    {
        let blocks = self.blocks.clone();
        let sblocks = self.sblocks.clone();
        assert(blocks@ =~= self.blocks@);
        assert(sblocks@ =~= self.sblocks@);
        BitIndex { array: self.array.duplicate(), blocks, sblocks }
    }

    /// Number of bits.
    pub fn len(&self) -> (r: usize)
        requires
            self.wf(),
        ensures
            r == self@.len(),
    {
        self.array.len()
    }

    /// The bit at position `i`.
    pub fn get(&self, i: u64) -> (r: bool)
        requires
            self.wf(),
            i < self@.len(),
        ensures
            r == self@[i as int],
    {
        self.array.get(i as usize)
    }

    /// The block and super-block files: the two tables as log-arrays whose width holds the
    /// bit length.
    pub fn index_files(&self) -> (r: (Vec<u8>, Vec<u8>))
        requires
            self.wf(),
            self@.len() < 0xffff_fffe * 64,
            self@.len() + 64 <= usize::MAX,
        ensures
            header_error(r.0@) is None,
            header_error(r.1@) is None,
            logarray_values(r.0@) == block_table(self@),
            logarray_values(r.1@) == sblock_table(self@),
            stored_width(r.0@) == stored_width(r.1@),
            self@.len() < pow2(stored_width(r.0@) as nat),
            stored_width(r.0@) == 1 || self@.len() >= pow2((stored_width(r.0@) - 1) as nat),
    {
        let n = self.array.len();
        let width = width_for(n as u64);
        proof {
            lemma_tables_cover(n as int);
            let nw = self.blocks@.len() as int;
            assert(nw < 0xffff_ffff && nw * 64 <= usize::MAX) by (nonlinear_arith)
                requires
                    64 * (nw - 1) < n || n == 0,
                    nw == 0 <==> n == 0,
                    n < 0xffff_fffe * 64,
                    n + 64 <= usize::MAX,
            ;
            assert forall|k: int| 0 <= k < self.blocks@.len() implies #[trigger] self.blocks@[k]
                < pow2(width as nat) by {
                lemma_count_mono(self@, true, 0, min(64 * (k + 1), n as int));
            }
            assert forall|t: int| 0 <= t < self.sblocks@.len() implies #[trigger] self.sblocks@[t]
                < pow2(width as nat) by {
                lemma_count_mono(self@, true, 0, min(3328 * (t + 1), n as int));
            }
            assert(self.blocks@ =~= block_table(self@));
            assert(self.sblocks@ =~= sblock_table(self@));
        }
        let blocks = write_table(&self.blocks, width);
        let sblocks = write_table(&self.sblocks, width);
        (blocks, sblocks)
    }

    /// Reads an index from its bit file and its block and super-block files, checking that
    /// the tables match the bits.
    pub fn from_maps(bits: Vec<u8>, blocks: Vec<u8>, sblocks: Vec<u8>) -> (r: Result<BitIndex, FormatError>)
        ensures
            bits@.len() < 8 ==> r == Err::<BitIndex, FormatError>(FormatError::MissingControl),
            bits@.len() >= 8 && !bit_file_fits(bits@) ==> r == Err::<BitIndex, FormatError>(
                FormatError::LengthMismatch,
            ),
            bit_file_ok(bits@) && header_error(blocks@) is Some ==> r == Err::<BitIndex, FormatError>(
                header_error(blocks@)->Some_0,
            ),
            bit_file_ok(bits@) && header_error(blocks@) is None && header_error(sblocks@) is Some
                ==> r == Err::<BitIndex, FormatError>(header_error(sblocks@)->Some_0),
            bit_file_ok(bits@) && header_error(blocks@) is None && header_error(sblocks@) is None
                ==> {
                let v = bit_file_bits(bits@);
                let tables_match = logarray_values(blocks@) == block_table(v) && logarray_values(
                    sblocks@,
                ) == sblock_table(v);
                &&& tables_match ==> r is Ok && r->Ok_0.wf() && r->Ok_0@ == v
                &&& !tables_match ==> r == Err::<BitIndex, FormatError>(FormatError::IndexMismatch)
            },
    {
        let array = match BitArray::from_bytes(bits) {
            Ok(a) => a,
            Err(e) => {
                return Err(e);
            },
        };
        let block_values = match logarray_entries(&blocks) {
            Ok(v) => v,
            Err(e) => {
                return Err(e);
            },
        };
        let sblock_values = match logarray_entries(&sblocks) {
            Ok(v) => v,
            Err(e) => {
                return Err(e);
            },
        };
        let index = BitIndex::new(array);
        proof {
            assert(index.blocks@ =~= block_table(index@));
            assert(index.sblocks@ =~= sblock_table(index@));
        }
        if !same_values(&block_values, &index.blocks) || !same_values(&sblock_values, &index.sblocks) {
            return Err(FormatError::IndexMismatch);
        }
        Ok(index)
    }
}

} // verus!
