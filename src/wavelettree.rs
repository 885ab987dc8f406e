//! Wavelet trees: a sequence of `w`-bit symbols stored as `w` layers of one bit per symbol.
use vstd::prelude::*;
use vstd::bits::{lemma_u64_shr_is_div, lemma_u64_pow2_no_overflow};
use vstd::arithmetic::power2::{pow2, lemma_pow2_unfold, lemma2_to64, lemma_pow2_strictly_increases, lemma_pow2_pos};
use crate::bitarray::{BitArray, BitBuffer, FormatError, be_u64, be_bytes_u64, bytes_bits, lemma_be_u64_round_trip};
use crate::logarray::{header_error, logarray_entries, logarray_values, stored_count, stored_width};
use crate::bitindex::{BitIndex, block_table, sblock_table, count, count_in, lemma_count_mono, lemma_rank_sum, lemma_select_unique};

verus! {

/// State of decoding position `i` after `layers` layers: the symbol's range within the
/// layer, its offset in that range, and the bits of the symbol read so far.
pub open spec fn access_state(bits: Seq<bool>, n: int, i: int, layers: int) -> (int, int, int, int)
    decreases layers,
{
    if layers <= 0 {
        (0, n, i, 0)
    } else {
        let (rs, re, off, val) = access_state(bits, n, i, layers - 1);
        let lo = (layers - 1) * n + rs;
        let hi = (layers - 1) * n + re;
        let g = lo + off;
        if bits[g] {
            (rs + count_in(bits, false, lo, hi), re, count_in(bits, true, lo, g + 1) - 1, 2 * val + 1)
        } else {
            (rs, re - count_in(bits, true, lo, hi), count_in(bits, false, lo, g + 1) - 1, 2 * val)
        }
    }
}

/// The symbol at position `i` of the tree with bits `bits`, `n` symbols and `w` layers.
pub open spec fn access(bits: Seq<bool>, n: int, w: int, i: int) -> int {
    access_state(bits, n, i, w).3
}

/// Within-layer positions stay inside the layer while decoding.
proof fn lemma_access_step(bits: Seq<bool>, n: int, w: int, i: int, layer: int)
    requires
        0 <= layer < w,
        bits.len() == n * w,
        ({
            let (rs, re, off, val) = access_state(bits, n, i, layer);
            0 <= rs && 0 <= off && rs + off < re && re <= n && 0 <= val < pow2(layer as nat)
        }),
    ensures
        ({
            let (rs, re, off, val) = access_state(bits, n, i, layer + 1);
            0 <= rs && 0 <= off && rs + off < re && re <= n && 0 <= val < pow2(
                (layer + 1) as nat,
            )
        }),
{
    let (rs, re, off, val) = access_state(bits, n, i, layer);
    let lo = layer * n + rs;
    let hi = layer * n + re;
    let g = lo + off;
    assert(layer * n + n <= n * w) by (nonlinear_arith)
        requires
            0 <= layer < w,
            0 <= n,
    ;
    lemma_rank_sum(bits, lo);
    lemma_rank_sum(bits, hi);
    lemma_count_mono(bits, true, lo, g);
    lemma_count_mono(bits, false, lo, g);
    lemma_count_mono(bits, true, g + 1, hi);
    lemma_count_mono(bits, false, g + 1, hi);
    lemma_pow2_unfold((layer + 1) as nat);
}


/// The bit of symbol `v` that layer `layer` of a `w`-layer tree records, most significant
/// first: whether `v` lies in the upper half of the alphabet interval still live there.
pub open spec fn symbol_bit(v: int, w: int, layer: int) -> bool {
    (v / (pow2((w - 1 - layer) as nat) as int)) % 2 == 1
}

/// The range within layer `layers` that holds the occurrences of symbol `v`.
pub open spec fn lookup_range(bits: Seq<bool>, n: int, w: int, v: int, layers: int) -> (int, int)
    decreases layers,
{
    if layers <= 0 {
        (0, n)
    } else {
        let (s, e) = lookup_range(bits, n, w, v, layers - 1);
        let lo = (layers - 1) * n + s;
        let hi = (layers - 1) * n + e;
        if symbol_bit(v, w, layers - 1) {
            (s + count_in(bits, false, lo, hi), e)
        } else {
            (s, e - count_in(bits, true, lo, hi))
        }
    }
}

/// Lookup ranges stay within the layer and never grow; an empty range stays empty.
proof fn lemma_lookup_step(bits: Seq<bool>, n: int, w: int, v: int, layer: int)
    requires
        0 <= layer < w,
        bits.len() == n * w,
        0 <= lookup_range(bits, n, w, v, layer).0 <= lookup_range(bits, n, w, v, layer).1 <= n,
    ensures
        ({
            let (s0, e0) = lookup_range(bits, n, w, v, layer);
            let (s1, e1) = lookup_range(bits, n, w, v, layer + 1);
            &&& s0 <= s1 <= e1 <= e0
            &&& s0 == e0 ==> s1 == e1
            &&& e1 - s1 == if symbol_bit(v, w, layer) {
                count_in(bits, true, layer * n + s0, layer * n + e0)
            } else {
                count_in(bits, false, layer * n + s0, layer * n + e0)
            }
        }),
{
    let (s, e) = lookup_range(bits, n, w, v, layer);
    let lo = layer * n + s;
    let hi = layer * n + e;
    assert(layer * n + n <= n * w) by (nonlinear_arith)
        requires
            0 <= layer < w,
            0 <= n,
    ;
    lemma_rank_sum(bits, lo);
    lemma_rank_sum(bits, hi);
    lemma_count_mono(bits, true, lo, hi);
    lemma_count_mono(bits, false, lo, hi);
}

/// Once a lookup range is empty it stays empty down to the last layer.
proof fn lemma_lookup_empty(bits: Seq<bool>, n: int, w: int, v: int, from: int, to: int)
    requires
        0 <= from <= to <= w,
        bits.len() == n * w,
        lookup_range(bits, n, w, v, from).0 == lookup_range(bits, n, w, v, from).1,
        0 <= lookup_range(bits, n, w, v, from).0 <= n,
    ensures
        lookup_range(bits, n, w, v, to).0 == lookup_range(bits, n, w, v, to).1,
        0 <= lookup_range(bits, n, w, v, to).0 <= n,
    decreases to - from,
{
    if from < to {
        lemma_lookup_step(bits, n, w, v, from);
        lemma_lookup_empty(bits, n, w, v, from + 1, to);
    }
}


/// The exec form of `symbol_bit`.
fn symbol_bit_of(v: u64, w: usize, layer: usize) -> (r: bool)
    requires
        layer < w <= 64,
    ensures
        r == symbol_bit(v as int, w as int, layer as int),
{
    let k = (w - 1 - layer) as u64;
    proof {
        lemma_u64_shr_is_div(v, k);
    }
    let x = v >> k;
    assert(x & 1u64 == x % 2) by (bit_vector);
    x & 1u64 == 1u64
}

/// Whether `v` is below `2^w`.
fn fits_width(v: u64, w: usize) -> (r: bool)
    requires
        w <= 64,
    ensures
        r == (v < pow2(w as nat)),
{
    proof {
        lemma2_to64();
    }
    if w == 64 {
        return true;
    }
    proof {
        lemma_u64_shr_is_div(v, w as u64);
        let p = pow2(w as nat) as int;
        lemma_pow2_pos(w as nat);
        assert((v as int) < p <==> (v as int) / p == 0) by (nonlinear_arith)
            requires
                p > 0,
                v >= 0,
        ;
    }
    (v >> (w as u64)) == 0
}


/// The position of the `r`-th (1-indexed) bit equal to `b` within `[lo, hi)`.
pub open spec fn select_in(bits: Seq<bool>, b: bool, r: int, lo: int, hi: int) -> int {
    choose|p: int| lo <= p < hi && bits[p] == b && count_in(bits, b, lo, p) == r - 1
}

/// The 1-indexed rank, within its lookup range at layer `l`, of the `k`-th occurrence of
/// symbol `v`: `k + 1` at the last layer, and above it the select of that rank among the bits
/// `v` takes in the range of the layer.
pub open spec fn occurrence_rank(bits: Seq<bool>, n: int, w: int, v: int, k: int, l: int) -> int
    decreases w - l,
{
    if l >= w || l < 0 {
        k + 1
    } else {
        let lo = l * n + lookup_range(bits, n, w, v, l).0;
        let hi = l * n + lookup_range(bits, n, w, v, l).1;
        select_in(bits, symbol_bit(v, w, l), occurrence_rank(bits, n, w, v, k, l + 1), lo, hi) - lo
            + 1
    }
}

/// A wavelet tree over `len() * num_layers()` bits, one layer of `len()` bits per symbol bit.
pub struct WaveletTree {
    bits: BitIndex,
    num_layers: usize,
}

impl WaveletTree {
    /// The bits of all layers, top layer first.
    pub closed spec fn bits_view(&self) -> Seq<bool> {
        self.bits@
    }

    pub closed spec fn layers(&self) -> int {
        self.num_layers as int
    }

    /// Number of symbols.
    pub open spec fn size(&self) -> int {
        self.bits_view().len() as int / self.layers()
    }

    /// The symbols the tree decodes to.
    pub open spec fn view(&self) -> Seq<int> {
        Seq::new(self.size() as nat, |i: int| access(self.bits_view(), self.size(), self.layers(), i))
    }

    pub closed spec fn wf(&self) -> bool {
        &&& self.bits.wf()
        &&& 1 <= self.num_layers <= 64
        &&& self.bits@.len() as int % (self.num_layers as int) == 0
        &&& self.bits@.len() <= usize::MAX
    }

    /// Assembles a tree from its indexed bits and its number of layers.
    pub fn from_parts(bits: BitIndex, num_layers: usize) -> (r: Result<WaveletTree, FormatError>)
        requires
            bits.wf(),
        ensures
            num_layers == 0 || bits@.len() as int % (num_layers as int) != 0 ==> r == Err::<
                WaveletTree,
                FormatError,
            >(FormatError::NotMultipleOfLayers),
            num_layers != 0 && bits@.len() as int % (num_layers as int) == 0 && num_layers > 64 ==> r
                == Err::<WaveletTree, FormatError>(FormatError::BadWidth),
            1 <= num_layers <= 64 && bits@.len() as int % (num_layers as int) == 0 ==> r is Ok
                && r->Ok_0.wf() && r->Ok_0.bits_view() == bits@ && r->Ok_0.layers()
                == num_layers,
    {
        let n = bits.len();
        if num_layers == 0 || n % num_layers != 0 {
            return Err(FormatError::NotMultipleOfLayers);
        }
        if num_layers > 64 {
            return Err(FormatError::BadWidth);
        }
        Ok(WaveletTree { bits, num_layers })
    }

    /// Number of symbols.
    pub fn len(&self) -> (r: usize)
        requires
            self.wf(),
        ensures
            r == self.size(),
    {
        self.bits.len() / self.num_layers
    }

    /// Number of layers, the bit width of the symbols.
    pub fn num_layers(&self) -> (r: usize)
        requires
            self.wf(),
        ensures
            r == self.layers(),
            1 <= r <= 64,
    {
        self.num_layers
    }

    /// The symbol at position `index`.
    pub fn decode_one(&self, index: usize) -> (r: u64)
        requires
            self.wf(),
            index < self.size(),
        ensures
            r == self@[index as int],
    {
        let w = self.num_layers;
        let len = self.len() as u64;
        let ghost bits = self.bits_view();
        let ghost n = len as int;
        proof {
            assert(bits.len() == n * w) by (nonlinear_arith)
                requires
                    n == bits.len() as int / (w as int),
                    bits.len() as int % (w as int) == 0,
                    w >= 1,
            ;
            lemma2_to64();
        }
        let mut offset = index as u64;
        let mut value: u64 = 0;
        let mut range_start: u64 = 0;
        let mut range_end: u64 = len;
        let mut i: usize = 0;
        while i < w
            invariant
                self.wf(),
                bits == self.bits_view(),
                w == self.layers(),
                n == self.size(),
                n == len,
                bits.len() == n * w,
                bits.len() <= usize::MAX,
                i <= w <= 64,
                (range_start as int, range_end as int, offset as int, value as int)
                    == access_state(bits, n, index as int, i as int),
                range_start + offset < range_end <= n,
                value < pow2(i as nat),
            decreases w - i,
        {
            proof {
                lemma_access_step(bits, n, w as int, index as int, i as int);
                lemma_pow2_unfold((i + 1) as nat);
                lemma2_to64();
                if i + 1 < 64 {
                    lemma_pow2_strictly_increases(i as nat + 1, 64);
                }
                lemma_pow2_unfold(i as nat + 1);
                assert(i * n + n <= n * w) by (nonlinear_arith)
                    requires
                        0 <= i < w,
                        0 <= n,
                ;
            }
            let base = i as u64 * len;
            let lo = base + range_start;
            let hi = base + range_end;
            let g = lo + offset;
            if self.bits.get(g) {
                offset = self.bits.rank1_from_range(lo, g + 1) - 1;
                range_start = range_start + self.bits.rank0_from_range(lo, hi);
                value = 2 * value + 1;
            } else {
                offset = self.bits.rank0_from_range(lo, g + 1) - 1;
                range_end = range_end - self.bits.rank1_from_range(lo, hi);
                value = 2 * value;
            }
            i = i + 1;
        }
        value
    }

    /// A copy of this tree.
    pub fn duplicate(&self) -> (r: WaveletTree)
        ensures
            r.bits_view() == self.bits_view(),
            r.layers() == self.layers(),
            self.wf() ==> r.wf(),
    {
        WaveletTree { bits: self.bits.duplicate(), num_layers: self.num_layers }
    }

    /// All symbols, in order.
    pub fn decode(&self) -> (r: Vec<u64>)
        requires
            self.wf(),
        ensures
            r@.len() == self@.len(),
            forall|i: int| 0 <= i < r@.len() ==> r@[i] == self@[i],
    {
        let n = self.len();
        let mut out: Vec<u64> = Vec::new();
        let mut i: usize = 0;
        while i < n
            invariant
                self.wf(),
                n == self.size(),
                i <= n,
                out@.len() == i,
                forall|j: int| 0 <= j < i ==> out@[j] == self@[j],
            decreases n - i,
        {
            let x = self.decode_one(i);
            out.push(x);
            i = i + 1;
        }
        out
    }

    /// The occurrences of symbol `entry`, or `None` where it does not occur.
    pub fn lookup(&self, entry: u64) -> (r: Option<WaveletSlice>)
        requires
            self.wf(),
        ensures
            r is Some <==> entry < pow2(self.layers() as nat) && lookup_range(
                self.bits_view(),
                self.size(),
                self.layers(),
                entry as int,
                self.layers(),
            ).0 < lookup_range(
                self.bits_view(),
                self.size(),
                self.layers(),
                entry as int,
                self.layers(),
            ).1,
            r is Some ==> r->Some_0.wf() && r->Some_0.symbol() == entry
                && r->Some_0.tree_bits() == self.bits_view() && r->Some_0.tree_layers()
                == self.layers(),
    {
        let w = self.num_layers;
        let len = self.len() as u64;
        let ghost bits = self.bits_view();
        let ghost n = len as int;
        proof {
            assert(bits.len() == n * w) by (nonlinear_arith)
                requires
                    n == bits.len() as int / (w as int),
                    bits.len() as int % (w as int) == 0,
                    w >= 1,
            ;
        }
        if !fits_width(entry, w) {
            return None;
        }
        let mut slices: Vec<(bool, u64, u64)> = Vec::new();
        let mut start: u64 = 0;
        let mut end: u64 = len;
        let mut i: usize = 0;
        while i < w
            invariant
                self.wf(),
                bits == self.bits_view(),
                w == self.layers(),
                n == self.size(),
                n == len,
                bits.len() == n * w,
                bits.len() <= usize::MAX,
                i <= w <= 64,
                (start as int, end as int) == lookup_range(bits, n, w as int, entry as int, i as int),
                0 <= start <= end <= n,
                i > 0 ==> start < end,
                slices@.len() == i,
                forall|l: int|
                    0 <= l < i ==> #[trigger] slices@[l] == (
                        symbol_bit(entry as int, w as int, l),
                        (l * n + lookup_range(bits, n, w as int, entry as int, l).0) as u64,
                        (l * n + lookup_range(bits, n, w as int, entry as int, l).1) as u64,
                    ) && 0 <= lookup_range(bits, n, w as int, entry as int, l).0 <= lookup_range(
                        bits,
                        n,
                        w as int,
                        entry as int,
                        l,
                    ).1 <= n,
            decreases w - i,
        {
            proof {
                lemma_lookup_step(bits, n, w as int, entry as int, i as int);
                assert(i * n + n <= n * w) by (nonlinear_arith)
                    requires
                        0 <= i < w,
                        0 <= n,
                ;
            }
            let lo = i as u64 * len + start;
            let hi = i as u64 * len + end;
            let b = symbol_bit_of(entry, w, i);
            let ghost prev = slices@;
            slices.push((b, lo, hi));
            if b {
                start = start + self.bits.rank0_from_range(lo, hi);
            } else {
                end = end - self.bits.rank1_from_range(lo, hi);
            }
            i = i + 1;
            if start == end {
                proof {
                    lemma_lookup_empty(bits, n, w as int, entry as int, i as int, w as int);
                }
                return None;
            }
            proof {
                assert forall|l: int| 0 <= l < i implies #[trigger] slices@[l] == (
                    symbol_bit(entry as int, w as int, l),
                    (l * n + lookup_range(bits, n, w as int, entry as int, l).0) as u64,
                    (l * n + lookup_range(bits, n, w as int, entry as int, l).1) as u64,
                ) && 0 <= lookup_range(bits, n, w as int, entry as int, l).0 <= lookup_range(
                    bits,
                    n,
                    w as int,
                    entry as int,
                    l,
                ).1 <= n by {
                    if l < i - 1 {
                        assert(slices@[l] == prev[l]);
                    }
                }
            }
        }
        Some(WaveletSlice { entry, tree: self.duplicate(), slices })
    }
}

/// The occurrences of one symbol in a wavelet tree.
pub struct WaveletSlice {
    pub entry: u64,
    tree: WaveletTree,
    slices: Vec<(bool, u64, u64)>,
}

impl WaveletSlice {
    /// The symbol whose occurrences these are.
    pub closed spec fn symbol(&self) -> u64 {
        self.entry
    }

    pub closed spec fn tree_bits(&self) -> Seq<bool> {
        self.tree.bits_view()
    }

    pub closed spec fn tree_layers(&self) -> int {
        self.tree.layers()
    }

    pub open spec fn tree_size(&self) -> int {
        self.tree_bits().len() as int / self.tree_layers()
    }

    /// The range of the symbol's occurrences within layer `l`.
    pub open spec fn range(&self, l: int) -> (int, int) {
        lookup_range(self.tree_bits(), self.tree_size(), self.tree_layers(), self.symbol() as int, l)
    }

    /// Number of occurrences.
    pub open spec fn count(&self) -> int {
        self.range(self.tree_layers()).1 - self.range(self.tree_layers()).0
    }

    /// The 1-indexed rank, within the range of layer `l`, of the `k`-th occurrence.
    pub open spec fn rank_at(&self, k: int, l: int) -> int {
        occurrence_rank(self.tree_bits(), self.tree_size(), self.tree_layers(), self.symbol() as int, k, l)
    }

    /// The position in the sequence of the `k`-th (0-indexed) occurrence.
    pub open spec fn position(&self, k: int) -> int {
        self.rank_at(k, 0) - 1
    }

    pub closed spec fn wf(&self) -> bool {
        let bits = self.tree_bits();
        let n = self.tree_size();
        let w = self.tree_layers();
        &&& self.tree.wf()
        &&& self.entry < pow2(w as nat)
        &&& self.slices@.len() == w
        &&& forall|l: int|
            0 <= l < w ==> #[trigger] self.slices@[l] == (
                symbol_bit(self.entry as int, w, l),
                (l * n + self.range(l).0) as u64,
                (l * n + self.range(l).1) as u64,
            ) && 0 <= self.range(l).0 <= self.range(l).1 <= n
        &&& self.range(w).0 < self.range(w).1
    }

    /// Number of occurrences.
    pub fn len(&self) -> (r: usize)
        requires
            self.wf(),
        ensures
            r == self.count(),
            r >= 1,
    {
        let ghost w = self.tree_layers();
        let ghost n = self.tree_size();
        let ghost bits = self.tree_bits();
        let last = self.slices.len() - 1;
        let (b, start, end) = self.slices[last];
        proof {
            assert(bits.len() == n * w) by (nonlinear_arith)
                requires
                    n == bits.len() as int / w,
                    bits.len() as int % w == 0,
                    w >= 1,
            ;
            assert(last * n + n <= n * w) by (nonlinear_arith)
                requires
                    last == w - 1,
                    0 <= n,
            ;
            assert(self.slices@[last as int].1 == (last * n + self.range(last as int).0) as u64);
            lemma_lookup_step(bits, n, w, self.symbol() as int, last as int);
        }
        let r = self.tree.bits.rank_from_range(b, start, end);
        r as usize
    }

    /// The position in the sequence of the `index`-th (0-indexed) occurrence.
    pub fn entry(&self, index: usize) -> (r: u64)
        requires
            self.wf(),
            index < self.count(),
        ensures
            r == self.position(index as int),
            0 <= r < self.tree_size(),
    {
        let ghost w = self.tree_layers();
        let ghost n = self.tree_size();
        let ghost bits = self.tree_bits();
        let ghost v = self.symbol() as int;
        proof {
            assert(bits.len() == n * w) by (nonlinear_arith)
                requires
                    n == bits.len() as int / w,
                    bits.len() as int % w == 0,
                    w >= 1,
            ;
            let _last = self.slices@[w - 1];
            assert(0 <= self.range(w - 1).0 <= self.range(w - 1).1 <= n);
            lemma_lookup_step(bits, n, w, v, w - 1);
            assert(n <= n * w) by (nonlinear_arith)
                requires
                    w >= 1,
                    n >= 0,
            ;
        }
        let mut result = index as u64 + 1;
        let mut l = self.slices.len();
        while l > 0
            invariant
                self.wf(),
                w == self.tree_layers(),
                n == self.tree_size(),
                bits == self.tree_bits(),
                v == self.symbol(),
                bits.len() == n * w,
                l <= w,
                l == w ==> result == index + 1,
                result == self.rank_at(index as int, l as int),
                1 <= result <= self.range(l as int).1 - self.range(l as int).0,
            decreases l,
        {
            l = l - 1;
            let (b, lo, hi) = self.slices[l];
            let ghost s0 = self.range(l as int).0;
            let ghost e0 = self.range(l as int).1;
            proof {
                assert(l * n + n <= n * w) by (nonlinear_arith)
                    requires
                        0 <= l < w,
                        0 <= n,
                ;
                assert(self.slices@[l as int] == (
                    symbol_bit(v, w, l as int),
                    (l * n + s0) as u64,
                    (l * n + e0) as u64,
                ));
                lemma_lookup_step(bits, n, w, v, l as int);
            }
            let found = self.tree.bits.select_from_range(b, result, lo, hi);
            match found {
                Some(p) => {
                    proof {
                        let q = select_in(bits, b, result as int, lo as int, hi as int);
                        assert(lo <= p < hi && bits[p as int] == b && count_in(bits, b, lo as int, p as int)
                            == result - 1);
                        assert(lo <= q < hi && bits[q] == b && count_in(bits, b, lo as int, q) == result
                            - 1);
                        lemma_select_unique(bits, b, p as int, q);
                    }
                    result = p - lo + 1;
                },
                None => {
                    proof {
                        assert(false);
                    }
                },
            }
        }
        result - 1
    }

    /// The positions of all occurrences, in increasing order of occurrence index.
    pub fn iter(&self) -> (r: Vec<u64>)
        requires
            self.wf(),
        ensures
            r@.len() == self.count(),
            forall|k: int| 0 <= k < r@.len() ==> r@[k] == self.position(k),
    {
        let m = self.len();
        let mut out: Vec<u64> = Vec::new();
        let mut k: usize = 0;
        while k < m
            invariant
                self.wf(),
                m == self.count(),
                k <= m,
                out@.len() == k,
                forall|j: int| 0 <= j < k ==> out@[j] == self.position(j),
            decreases m - k,
        {
            let p = self.entry(k);
            out.push(p);
            k = k + 1;
        }
        out
    }
}

/// The top `layer` bits of a `w`-bit symbol: the fragment it falls into at that layer.
pub open spec fn prefix(x: int, w: int, layer: int) -> int {
    x / (pow2((w - layer) as nat) as int)
}

/// The bits fragment `f` of layer `layer` records for the first `j` symbols of `s`.
pub open spec fn fragment_bits(s: Seq<u64>, w: int, layer: int, f: int, j: int) -> Seq<bool>
    decreases j,
{
    if j <= 0 {
        Seq::empty()
    } else if prefix(s[j - 1] as int, w, layer) == f {
        fragment_bits(s, w, layer, f, j - 1).push(symbol_bit(s[j - 1] as int, w, layer))
    } else {
        fragment_bits(s, w, layer, f, j - 1)
    }
}

/// The bits of fragments `0..f` of layer `layer`, in fragment order.
pub open spec fn layer_bits(s: Seq<u64>, w: int, layer: int, f: int) -> Seq<bool>
    decreases f,
{
    if f <= 0 {
        Seq::empty()
    } else {
        layer_bits(s, w, layer, f - 1) + fragment_bits(s, w, layer, f - 1, s.len() as int)
    }
}

/// The bits of layers `0..layers` of the tree built from the `w`-bit symbols `s`.
pub open spec fn tree_bits(s: Seq<u64>, w: int, layers: int) -> Seq<bool>
    decreases layers,
{
    if layers <= 0 {
        Seq::empty()
    } else {
        tree_bits(s, w, layers - 1) + layer_bits(s, w, layers - 1, pow2((layers - 1) as nat) as int)
    }
}

/// Number of the first `j` symbols whose prefix at `layer` lies in `[lo, hi)`.
pub open spec fn prefix_count(s: Seq<u64>, w: int, layer: int, lo: int, hi: int, j: int) -> nat
    decreases j,
{
    if j <= 0 {
        0
    } else {
        prefix_count(s, w, layer, lo, hi, j - 1) + if lo <= prefix(s[j - 1] as int, w, layer)
            < hi {
            1nat
        } else {
            0nat
        }
    }
}

pub proof fn lemma_fragment_len(s: Seq<u64>, w: int, layer: int, f: int, j: int)
    ensures
        fragment_bits(s, w, layer, f, j).len() == prefix_count(s, w, layer, f, f + 1, j),
    decreases j,
{
    if j > 0 {
        lemma_fragment_len(s, w, layer, f, j - 1);
    }
}

pub proof fn lemma_prefix_count_split(s: Seq<u64>, w: int, layer: int, lo: int, mid: int, hi: int, j: int)
    requires
        lo <= mid <= hi,
    ensures
        prefix_count(s, w, layer, lo, hi, j) == prefix_count(s, w, layer, lo, mid, j)
            + prefix_count(s, w, layer, mid, hi, j),
    decreases j,
{
    if j > 0 {
        lemma_prefix_count_split(s, w, layer, lo, mid, hi, j - 1);
    }
}

pub proof fn lemma_prefix_count_mono(s: Seq<u64>, w: int, layer: int, lo: int, hi: int, i: int, j: int)
    requires
        0 <= i <= j,
    ensures
        prefix_count(s, w, layer, lo, hi, i) <= prefix_count(s, w, layer, lo, hi, j),
        prefix_count(s, w, layer, lo, hi, j) <= j,
    decreases j,
{
    if j > 0 {
        if i < j {
            lemma_prefix_count_mono(s, w, layer, lo, hi, i, j - 1);
        } else {
            lemma_prefix_count_mono(s, w, layer, lo, hi, j - 1, j - 1);
        }
    }
}

pub proof fn lemma_prefix_count_empty(s: Seq<u64>, w: int, layer: int, lo: int, j: int)
    ensures
        prefix_count(s, w, layer, lo, lo, j) == 0,
    decreases j,
{
    if j > 0 {
        lemma_prefix_count_empty(s, w, layer, lo, j - 1);
    }
}

pub proof fn lemma_layer_len(s: Seq<u64>, w: int, layer: int, f: int)
    requires
        f >= 0,
    ensures
        layer_bits(s, w, layer, f).len() == prefix_count(s, w, layer, 0, f, s.len() as int),
    decreases f,
{
    if f > 0 {
        lemma_layer_len(s, w, layer, f - 1);
        lemma_fragment_len(s, w, layer, f - 1, s.len() as int);
        lemma_prefix_count_split(s, w, layer, 0, f - 1, f, s.len() as int);
    } else {
        lemma_prefix_count_empty(s, w, layer, 0, s.len() as int);
    }
}

/// Every symbol below `2^w` falls into one of the `2^layer` fragments.
pub proof fn lemma_prefix_bound(x: int, w: int, layer: int)
    requires
        0 <= layer <= w,
        0 <= x < pow2(w as nat),
    ensures
        0 <= prefix(x, w, layer) < pow2(layer as nat),
{
    let p = pow2((w - layer) as nat) as int;
    let q = pow2(layer as nat) as int;
    vstd::arithmetic::power2::lemma_pow2_adds((w - layer) as nat, layer as nat);
    lemma_pow2_pos((w - layer) as nat);
    assert(0 <= x / p < q) by (nonlinear_arith)
        requires
            p > 0,
            0 <= x < p * q,
    ;
}

proof fn lemma_all_counted(s: Seq<u64>, w: int, layer: int, j: int)
    requires
        0 <= layer <= w,
        0 <= j <= s.len(),
        forall|k: int| 0 <= k < s.len() ==> s[k] < pow2(w as nat),
    ensures
        prefix_count(s, w, layer, 0, pow2(layer as nat) as int, j) == j,
    decreases j,
{
    if j > 0 {
        lemma_all_counted(s, w, layer, j - 1);
        lemma_prefix_bound(s[j - 1] as int, w, layer);
    }
}

/// Each full layer holds one bit per symbol.
pub proof fn lemma_layer_len_all(s: Seq<u64>, w: int, layer: int)
    requires
        0 <= layer <= w,
        forall|k: int| 0 <= k < s.len() ==> s[k] < pow2(w as nat),
    ensures
        layer_bits(s, w, layer, pow2(layer as nat) as int).len() == s.len(),
{
    lemma_layer_len(s, w, layer, pow2(layer as nat) as int);
    lemma_all_counted(s, w, layer, s.len() as int);
}

/// Each layer of the tree holds one bit per symbol.
pub proof fn lemma_tree_bits_len(s: Seq<u64>, w: int, layers: int)
    requires
        0 <= layers <= w,
        forall|k: int| 0 <= k < s.len() ==> s[k] < pow2(w as nat),
    ensures
        tree_bits(s, w, layers).len() == layers * s.len(),
    decreases layers,
{
    if layers > 0 {
        lemma_tree_bits_len(s, w, layers - 1);
        lemma_layer_len(s, w, layers - 1, pow2((layers - 1) as nat) as int);
        lemma_all_counted(s, w, layers - 1, s.len() as int);
        let m = s.len() as int;
        assert((layers - 1) * m + m == layers * m) by (nonlinear_arith);
        assert(tree_bits(s, w, layers) == tree_bits(s, w, layers - 1) + layer_bits(
            s,
            w,
            layers - 1,
            pow2((layers - 1) as nat) as int,
        ));
        assert(layer_bits(s, w, layers - 1, pow2((layers - 1) as nat) as int).len() == m);
        assert(tree_bits(s, w, layers - 1).len() == (layers - 1) * m);
    } else {
        assert(0 * s.len() == 0);
    }
}

/// The fragment that `x` falls into at layer `layer`.
fn prefix_of(x: u64, w: usize, layer: usize) -> (r: u64)
    requires
        layer < w <= 64,
    ensures
        r == prefix(x as int, w as int, layer as int),
{
    let shift = w - layer;
    if shift == 64 {
        proof {
            lemma2_to64();
            assert(x as int / 0x10000000000000000int == 0) by (nonlinear_arith);
        }
        0
    } else {
        proof {
            lemma_u64_shr_is_div(x, shift as u64);
        }
        x >> (shift as u64)
    }
}

/// The bits of the wavelet tree of the `width`-bit symbols `entries`: for each layer, for each
/// fragment in order, one bit per symbol of that fragment, in sequence order.
pub fn build_wavelet_bits(entries: &Vec<u64>, width: usize) -> (r: BitBuffer)
    requires
        1 <= width <= 64,
        entries@.len() * width <= usize::MAX,
        forall|k: int| 0 <= k < entries@.len() ==> entries@[k] < pow2(width as nat),
    ensures
        r.wf(),
        r@ == tree_bits(entries@, width as int, width as int),
        r@.len() == entries@.len() * width,
{
    let ghost s = entries@;
    let n = entries.len();
    let mut buf = BitBuffer::new();
    let mut layer: usize = 0;
    while layer < width
        invariant
            s == entries@,
            n == s.len(),
            1 <= width <= 64,
            n * width <= usize::MAX,
            forall|k: int| 0 <= k < s.len() ==> s[k] < pow2(width as nat),
            layer <= width,
            buf.wf(),
            buf@ == tree_bits(s, width as int, layer as int),
        decreases width - layer,
    {
        proof {
            lemma_tree_bits_len(s, width as int, layer as int);
            lemma_u64_pow2_no_overflow(layer as nat);
            vstd::bits::lemma_u64_shl_is_mul(1u64, layer as u64);
            assert((layer + 1) * n <= n * width) by (nonlinear_arith)
                requires
                    layer < width,
                    n >= 0,
            ;
            assert(layer * n + n == (layer + 1) * n) by (nonlinear_arith);
        }
        let fragments: u64 = 1u64 << (layer as u64);
        let mut f: u64 = 0;
        while f < fragments
            invariant
                s == entries@,
                n == s.len(),
                1 <= width <= 64,
                layer < width,
                fragments == pow2(layer as nat),
                (layer + 1) * n <= usize::MAX,
                tree_bits(s, width as int, layer as int).len() == layer * n,
                layer * n + n == (layer + 1) * n,
                f <= fragments,
                buf.wf(),
                buf@ == tree_bits(s, width as int, layer as int) + layer_bits(
                    s,
                    width as int,
                    layer as int,
                    f as int,
                ),
            decreases fragments - f,
        {
            proof {
                lemma_layer_len(s, width as int, layer as int, f as int);
                lemma_prefix_count_split(s, width as int, layer as int, 0, f as int, f + 1, n as int);
                lemma_prefix_count_mono(s, width as int, layer as int, 0, f + 1, n as int, n as int);
            }
            let ghost before = buf@;
            let mut j: usize = 0;
            while j < n
                invariant
                    s == entries@,
                    n == s.len(),
                    1 <= width <= 64,
                    layer < width,
                    (layer + 1) * n <= usize::MAX,
                    before.len() + prefix_count(s, width as int, layer as int, f as int, f + 1, n as int)
                        <= (layer + 1) * n,
                    j <= n,
                    buf.wf(),
                    buf@ == before + fragment_bits(s, width as int, layer as int, f as int, j as int),
                decreases n - j,
            {
                let x = entries[j];
                let p = prefix_of(x, width, layer);
                if p == f {
                    proof {
                        lemma_fragment_len(s, width as int, layer as int, f as int, j as int);
                        lemma_prefix_count_mono(
                            s,
                            width as int,
                            layer as int,
                            f as int,
                            f + 1,
                            j + 1,
                            n as int,
                        );
                    }
                    let b = symbol_bit_of(x, width, layer);
                    buf.push(b);
                }
                proof {
                    assert(buf@ =~= before + fragment_bits(
                        s,
                        width as int,
                        layer as int,
                        f as int,
                        j + 1,
                    ));
                }
                j = j + 1;
            }
            proof {
                assert(buf@ =~= tree_bits(s, width as int, layer as int) + layer_bits(
                    s,
                    width as int,
                    layer as int,
                    f + 1,
                ));
            }
            f = f + 1;
        }
        proof {
            assert(buf@ =~= tree_bits(s, width as int, layer + 1));
        }
        layer = layer + 1;
    }
    proof {
        lemma_tree_bits_len(s, width as int, width as int);
        assert(width * n == n * width) by (nonlinear_arith);
    }
    buf
}

/// Whether a tree of `n` symbols of `w` bits is too large to build and index here.
pub open spec fn too_large(n: int, w: int) -> bool {
    n * w >= 0xffff_fffe * 64 || n * w + 64 > usize::MAX
}

/// Builds the wavelet tree of the log-array `source`: returns its bit file and the block and
/// super-block files of its rank/select index.
pub fn build_wavelet_tree(source: &Vec<u8>) -> (r: Result<(Vec<u8>, Vec<u8>, Vec<u8>), FormatError>)
    ensures
        header_error(source@) is Some ==> r == Err::<(Vec<u8>, Vec<u8>, Vec<u8>), FormatError>(
            header_error(source@)->Some_0,
        ),
        header_error(source@) is None && too_large(
            stored_count(source@) as int,
            stored_width(source@) as int,
        ) ==> r == Err::<(Vec<u8>, Vec<u8>, Vec<u8>), FormatError>(FormatError::TooLarge),
        header_error(source@) is None && !too_large(
            stored_count(source@) as int,
            stored_width(source@) as int,
        ) ==> r is Ok && ({
            let (bit_file, block_file, sblock_file) = r->Ok_0;
            let s = logarray_values(source@);
            let w = stored_width(source@) as int;
            let bits = tree_bits(s, w, w);
            &&& bits.len() == s.len() * w
            &&& bit_file@.len() >= 8
            &&& be_u64(bit_file@.subrange(bit_file@.len() - 8, bit_file@.len() as int)) == bits.len()
            &&& bytes_bits(bit_file@.subrange(0, bit_file@.len() - 8), bits.len() as int) == bits
            &&& header_error(block_file@) is None
            &&& header_error(sblock_file@) is None
            &&& logarray_values(block_file@) == block_table(bits)
            &&& logarray_values(sblock_file@) == sblock_table(bits)
        }),
{
    let entries = match logarray_entries(source) {
        Ok(v) => v,
        Err(e) => {
            return Err(e);
        },
    };
    let w = match crate::logarray::logarray_length_and_width(source) {
        Ok((_, w)) => w,
        Err(e) => {
            return Err(e);
        },
    };
    let n = entries.len();
    assert(n as int * w as int <= 0xffff_ffff * 64) by (nonlinear_arith)
        requires
            n <= 0xffff_ffff,
            w <= 64,
    ;
    let total = n as u64 * w as u64;
    if total >= 0xffff_fffe * 64 || total > usize::MAX as u64 - 64 {
        return Err(FormatError::TooLarge);
    }
    let width = w as usize;
    let buf = build_wavelet_bits(&entries, width);
    let array = BitArray::from_buffer(buf);
    let bit_file = array.to_bytes();
    let index = BitIndex::new(array);
    let (block_file, sblock_file) = index.index_files();
    proof {
        lemma_be_u64_round_trip(total);
    }
    Ok((bit_file, block_file, sblock_file))
}

} // verus!
