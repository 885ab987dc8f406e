//! Proofs that a wavelet tree decodes to the sequence it was built from.
use vstd::prelude::*;
use vstd::arithmetic::power2::{pow2, lemma_pow2_unfold, lemma_pow2_pos, lemma2_to64};
use crate::bitindex::{count, count_in, lemma_count_mono};
use crate::wavelettree::{
    prefix_count, lemma_prefix_count_mono, lemma_prefix_count_split, lemma_fragment_len,
    lemma_layer_len,
    occurrence_rank, select_in, lookup_range, access, access_state, fragment_bits, layer_bits, lemma_tree_bits_len, prefix, symbol_bit,
    tree_bits,
};

verus! {

/// Number of the first `j` symbols in fragment `f` of `layer` whose bit there is `b`.
pub open spec fn in_fragment_with_bit(s: Seq<u64>, w: int, layer: int, f: int, b: bool, j: int) -> nat
    decreases j,
{
    if j <= 0 {
        0
    } else {
        in_fragment_with_bit(s, w, layer, f, b, j - 1) + if prefix(s[j - 1] as int, w, layer) == f
            && symbol_bit(s[j - 1] as int, w, layer) == b {
            1nat
        } else {
            0nat
        }
    }
}

/// The prefix one layer down is the prefix followed by the bit of this layer.
proof fn lemma_prefix_next(x: int, w: int, layer: int)
    requires
        0 <= layer < w,
        0 <= x,
    ensures
        prefix(x, w, layer + 1) == 2 * prefix(x, w, layer) + if symbol_bit(x, w, layer) {
            1int
        } else {
            0int
        },
{
    let k = (w - layer - 1) as nat;
    lemma_pow2_unfold(k + 1);
    lemma_pow2_pos(k);
    let p = pow2(k) as int;
    assert(((w - layer) as nat) == k + 1);
    assert(((w - 1 - layer) as nat) == k);
    assert(((w - (layer + 1)) as nat) == k);
    vstd::arithmetic::div_mod::lemma_div_denominator(x, p, 2);
    assert(p * 2 == pow2(k + 1) as int);
    let y = x / p;
    assert(y == 2 * (y / 2) + y % 2);
}

/// How the counts of one layer give the counts of the next.
proof fn lemma_counts_next(s: Seq<u64>, w: int, layer: int, p: int, j: int)
    requires
        0 <= layer < w,
    ensures
        prefix_count(s, w, layer + 1, 0, 2 * p, j) == prefix_count(s, w, layer, 0, p, j),
        prefix_count(s, w, layer + 1, 0, 2 * p + 1, j) == prefix_count(s, w, layer, 0, p, j)
            + in_fragment_with_bit(s, w, layer, p, false, j),
        prefix_count(s, w, layer + 1, 0, 2 * p + 2, j) == prefix_count(s, w, layer, 0, p + 1, j),
        prefix_count(s, w, layer + 1, 2 * p, 2 * p + 1, j) == in_fragment_with_bit(
            s,
            w,
            layer,
            p,
            false,
            j,
        ),
        prefix_count(s, w, layer + 1, 2 * p + 1, 2 * p + 2, j) == in_fragment_with_bit(
            s,
            w,
            layer,
            p,
            true,
            j,
        ),
    decreases j,
{
    if j > 0 {
        lemma_counts_next(s, w, layer, p, j - 1);
        let x = s[j - 1] as int;
        lemma_prefix_next(x, w, layer);
        lemma_pow2_pos((w - layer) as nat);
        assert(prefix(x, w, layer) >= 0);
    }
}

/// Symbol `i` of fragment `f` sits in the fragment after the earlier symbols of `f`.
proof fn lemma_fragment_at(s: Seq<u64>, w: int, layer: int, f: int, i: int, j: int)
    requires
        0 <= i < j <= s.len(),
        prefix(s[i] as int, w, layer) == f,
    ensures
        fragment_bits(s, w, layer, f, j)[prefix_count(s, w, layer, f, f + 1, i) as int]
            == symbol_bit(s[i] as int, w, layer),
    decreases j,
{
    lemma_fragment_len(s, w, layer, f, j - 1);
    lemma_fragment_len(s, w, layer, f, i);
    if i < j - 1 {
        lemma_fragment_at(s, w, layer, f, i, j - 1);
        lemma_prefix_count_mono(s, w, layer, f, f + 1, i + 1, j - 1);
    }
}

/// Counting is determined by the leading bits alone.
proof fn lemma_count_prefix(a: Seq<bool>, c: Seq<bool>, b: bool, m: int)
    requires
        0 <= m <= a.len(),
        m <= c.len(),
        forall|k: int| 0 <= k < m ==> a[k] == c[k],
    ensures
        count(a, b, m) == count(c, b, m),
    decreases m,
{
    if m > 0 {
        lemma_count_prefix(a, c, b, m - 1);
    }
}

/// Within fragment `f`, the bits before symbol `k`'s place count the earlier symbols of `f`
/// with each bit.
proof fn lemma_fragment_count(s: Seq<u64>, w: int, layer: int, f: int, b: bool, k: int, j: int)
    requires
        0 <= k <= j <= s.len(),
    ensures
        count(fragment_bits(s, w, layer, f, j), b, prefix_count(s, w, layer, f, f + 1, k) as int)
            == in_fragment_with_bit(s, w, layer, f, b, k),
    decreases j,
{
    if j > 0 {
        let prev = fragment_bits(s, w, layer, f, j - 1);
        let cur = fragment_bits(s, w, layer, f, j);
        lemma_fragment_len(s, w, layer, f, j - 1);
        lemma_fragment_len(s, w, layer, f, k);
        if k < j {
            lemma_fragment_count(s, w, layer, f, b, k, j - 1);
            lemma_prefix_count_mono(s, w, layer, f, f + 1, k, j - 1);
            lemma_count_prefix(cur, prev, b, prefix_count(s, w, layer, f, f + 1, k) as int);
        } else {
            lemma_fragment_count(s, w, layer, f, b, j - 1, j - 1);
            lemma_count_prefix(cur, prev, b, prev.len() as int);
        }
    } else {
        assert(prefix_count(s, w, layer, f, f + 1, 0) == 0);
    }
}

/// Fragment `f` occupies a contiguous stretch of its layer, after the fragments before it.
proof fn lemma_layer_at(s: Seq<u64>, w: int, layer: int, fs: int, f: int, k: int)
    requires
        0 <= f < fs,
        0 <= k < fragment_bits(s, w, layer, f, s.len() as int).len(),
    ensures
        layer_bits(s, w, layer, fs)[prefix_count(s, w, layer, 0, f, s.len() as int) + k]
            == fragment_bits(s, w, layer, f, s.len() as int)[k],
        prefix_count(s, w, layer, 0, f, s.len() as int) + k < layer_bits(s, w, layer, fs).len(),
    decreases fs,
{
    lemma_layer_len(s, w, layer, fs - 1);
    lemma_layer_len(s, w, layer, f);
    if f < fs - 1 {
        lemma_layer_at(s, w, layer, fs - 1, f, k);
    }
}

/// Layer `layer` occupies bits `[layer * n, (layer + 1) * n)` of the tree.
proof fn lemma_tree_at(s: Seq<u64>, w: int, layers: int, layer: int, k: int)
    requires
        0 <= layer < layers <= w,
        0 <= k < s.len(),
        forall|q: int| 0 <= q < s.len() ==> s[q] < pow2(w as nat),
    ensures
        tree_bits(s, w, layers)[layer * s.len() + k] == layer_bits(
            s,
            w,
            layer,
            pow2(layer as nat) as int,
        )[k],
    decreases layers,
{
    let n = s.len() as int;
    lemma_tree_bits_len(s, w, layers - 1);
    lemma_tree_bits_len(s, w, layers);
    crate::wavelettree::lemma_layer_len_all(s, w, layers - 1);
    let front = tree_bits(s, w, layers - 1);
    let last = layer_bits(s, w, layers - 1, pow2((layers - 1) as nat) as int);
    assert(tree_bits(s, w, layers) == front + last);
    if layer < layers - 1 {
        lemma_tree_at(s, w, layers - 1, layer, k);
        assert(layer * n + k < (layers - 1) * n) by (nonlinear_arith)
            requires
                layer < layers - 1,
                0 <= k < n,
        ;
        assert(layer * n + k >= 0) by (nonlinear_arith)
            requires
                layer >= 0,
                k >= 0,
                n >= 0,
        ;
    } else {
        assert(front.len() == (layers - 1) * n);
    }
}

/// Counting a stretch of `t` that repeats the first bits of `u`.
proof fn lemma_count_shifted(t: Seq<bool>, u: Seq<bool>, b: bool, a: int, x: int)
    requires
        0 <= a,
        0 <= x <= u.len(),
        a + x <= t.len(),
        forall|k: int| 0 <= k < x ==> t[a + k] == u[k],
    ensures
        count_in(t, b, a, a + x) == count(u, b, x),
    decreases x,
{
    if x > 0 {
        lemma_count_shifted(t, u, b, a, x - 1);
        assert(t[a + (x - 1)] == u[x - 1]);
    }
}

/// Bit `layer * n + rs + k` of the tree is bit `k` of fragment `p` of layer `layer`.
proof fn lemma_tree_fragment(s: Seq<u64>, w: int, layer: int, p: int, k: int)
    requires
        0 <= layer < w,
        0 <= p < pow2(layer as nat),
        0 <= k < fragment_bits(s, w, layer, p, s.len() as int).len(),
        forall|q: int| 0 <= q < s.len() ==> s[q] < pow2(w as nat),
    ensures
        tree_bits(s, w, w)[layer * s.len() + prefix_count(s, w, layer, 0, p, s.len() as int) + k]
            == fragment_bits(s, w, layer, p, s.len() as int)[k],
{
    let fs = pow2(layer as nat) as int;
    lemma_layer_at(s, w, layer, fs, p, k);
    let pos = prefix_count(s, w, layer, 0, p, s.len() as int) + k;
    crate::wavelettree::lemma_layer_len_all(s, w, layer);
    lemma_layer_len(s, w, layer, fs);
    lemma_tree_at(s, w, w, layer, pos);
}

/// At the top layer every symbol is in the one fragment.
proof fn lemma_top_layer(s: Seq<u64>, w: int, lo: int, j: int)
    requires
        0 <= j <= s.len(),
        0 <= w,
        forall|q: int| 0 <= q < s.len() ==> s[q] < pow2(w as nat),
    ensures
        prefix_count(s, w, 0, 0, 1, j) == j,
        prefix_count(s, w, 0, 0, 0, j) == 0,
        forall|q: int| 0 <= q < s.len() ==> prefix(#[trigger] s[q] as int, w, 0) == 0,
    decreases j,
{
    assert forall|q: int| 0 <= q < s.len() implies prefix(#[trigger] s[q] as int, w, 0) == 0 by {
        let p = pow2(w as nat) as int;
        lemma_pow2_pos(w as nat);
        let x = s[q] as int;
        assert(x / p == 0) by (nonlinear_arith)
            requires
                0 <= x < p,
        ;
    }
    if j > 0 {
        lemma_top_layer(s, w, lo, j - 1);
    }
}

/// The decoding state of symbol `i` after `layer` layers: the symbol's fragment spans the
/// symbols with a smaller prefix up to those with a prefix no larger, the offset counts the
/// earlier symbols of the fragment, and the bits read so far are the prefix.
proof fn lemma_access_invariant(s: Seq<u64>, w: int, i: int, layer: int)
    requires
        1 <= w,
        0 <= layer <= w,
        0 <= i < s.len(),
        forall|q: int| 0 <= q < s.len() ==> s[q] < pow2(w as nat),
    ensures
        ({
            let n = s.len() as int;
            let p = prefix(s[i] as int, w, layer);
            access_state(tree_bits(s, w, w), n, i, layer) == (
                prefix_count(s, w, layer, 0, p, n) as int,
                prefix_count(s, w, layer, 0, p + 1, n) as int,
                prefix_count(s, w, layer, p, p + 1, i) as int,
                p,
            )
        }),
    decreases layer,
{
    let n = s.len() as int;
    let bits = tree_bits(s, w, w);
    if layer == 0 {
        lemma_top_layer(s, w, 0, n);
        lemma_top_layer(s, w, 0, i);
        assert(prefix(s[i] as int, w, 0) == 0);
    } else {
        let l = layer - 1;
        lemma_access_invariant(s, w, i, l);
        let x = s[i] as int;
        let p = prefix(x, w, l);
        let rs = prefix_count(s, w, l, 0, p, n) as int;
        let re = prefix_count(s, w, l, 0, p + 1, n) as int;
        let off = prefix_count(s, w, l, p, p + 1, i) as int;
        let frag = fragment_bits(s, w, l, p, n);
        let base = l * n;
        let lo = base + rs;
        let hi = base + re;
        let g = lo + off;
        lemma_tree_bits_len(s, w, w);
        lemma_pow2_pos((w - l) as nat);
        crate::wavelettree::lemma_prefix_bound(x, w, l);
        lemma_prefix_count_split(s, w, l, 0, p, p + 1, n);
        lemma_fragment_len(s, w, l, p, n);
        lemma_prefix_count_mono(s, w, l, p, p + 1, i + 1, n);
        assert(off < frag.len());
        lemma_prefix_count_mono(s, w, l, 0, p + 1, n, n);
        assert(base + n <= n * w) by (nonlinear_arith)
            requires
                base == l * n,
                0 <= l < w,
                n >= 0,
        ;
        assert forall|k: int| 0 <= k < frag.len() implies bits[lo + k] == frag[k] by {
            lemma_tree_fragment(s, w, l, p, k);
        }
        lemma_tree_fragment(s, w, l, p, off);
        lemma_fragment_at(s, w, l, p, i, n);
        let bit = symbol_bit(x, w, l);
        assert(bits[g] == bit);
        lemma_count_shifted(bits, frag, true, lo, frag.len() as int);
        lemma_count_shifted(bits, frag, false, lo, frag.len() as int);
        lemma_count_shifted(bits, frag, true, lo, off + 1);
        lemma_count_shifted(bits, frag, false, lo, off + 1);
        lemma_fragment_count(s, w, l, p, true, n, n);
        lemma_fragment_count(s, w, l, p, false, n, n);
        lemma_fragment_count(s, w, l, p, true, i, n);
        lemma_fragment_count(s, w, l, p, false, i, n);
        crate::bitindex::lemma_rank_sum(frag, frag.len() as int);
        lemma_counts_next(s, w, l, p, n);
        lemma_counts_next(s, w, l, p, i);
        lemma_prefix_next(x, w, l);
        assert(hi == lo + frag.len());
    }
}

/// A wavelet tree built from the `w`-bit symbols `s` decodes position `i` to `s[i]`.
pub proof fn lemma_decode_round_trip(s: Seq<u64>, w: int, i: int)
    requires
        1 <= w,
        0 <= i < s.len(),
        forall|q: int| 0 <= q < s.len() ==> s[q] < pow2(w as nat),
    ensures
        tree_bits(s, w, w).len() == w * s.len(),
        access(tree_bits(s, w, w), s.len() as int, w, i) == s[i],
{
    lemma_tree_bits_len(s, w, w);
    lemma_access_invariant(s, w, i, w);
    lemma2_to64();
    assert(((w - w) as nat) == 0nat);
    assert(pow2(0) == 1);
    assert(s[i] as int / 1 == s[i]);
}

/// Number of the first `j` symbols equal to `v`.
pub open spec fn occurrences(s: Seq<u64>, v: int, j: int) -> nat
    decreases j,
{
    if j <= 0 {
        0
    } else {
        occurrences(s, v, j - 1) + if s[j - 1] == v {
            1nat
        } else {
            0nat
        }
    }
}

/// The lookup range of `v` after `layer` layers spans the symbols whose prefix is smaller than
/// that of `v` up to those whose prefix is no larger.
proof fn lemma_lookup_invariant(s: Seq<u64>, w: int, v: int, layer: int)
    requires
        1 <= w,
        0 <= layer <= w,
        0 <= v < pow2(w as nat),
        forall|q: int| 0 <= q < s.len() ==> s[q] < pow2(w as nat),
    ensures
        ({
            let n = s.len() as int;
            let p = prefix(v, w, layer);
            lookup_range(tree_bits(s, w, w), n, w, v, layer) == (
                prefix_count(s, w, layer, 0, p, n) as int,
                prefix_count(s, w, layer, 0, p + 1, n) as int,
            )
        }),
    decreases layer,
{
    let n = s.len() as int;
    let bits = tree_bits(s, w, w);
    if layer == 0 {
        lemma_top_layer(s, w, 0, n);
        let q = pow2(w as nat) as int;
        lemma_pow2_pos(w as nat);
        assert(v / q == 0) by (nonlinear_arith)
            requires
                0 <= v < q,
        ;
    } else {
        let l = layer - 1;
        lemma_lookup_invariant(s, w, v, l);
        let p = prefix(v, w, l);
        let rs = prefix_count(s, w, l, 0, p, n) as int;
        let re = prefix_count(s, w, l, 0, p + 1, n) as int;
        let frag = fragment_bits(s, w, l, p, n);
        let base = l * n;
        let lo = base + rs;
        lemma_tree_bits_len(s, w, w);
        crate::wavelettree::lemma_prefix_bound(v, w, l);
        lemma_prefix_count_split(s, w, l, 0, p, p + 1, n);
        lemma_fragment_len(s, w, l, p, n);
        lemma_prefix_count_mono(s, w, l, 0, p + 1, n, n);
        assert(base + n <= n * w) by (nonlinear_arith)
            requires
                base == l * n,
                0 <= l < w,
                n >= 0,
        ;
        assert forall|k: int| 0 <= k < frag.len() implies bits[lo + k] == frag[k] by {
            lemma_tree_fragment(s, w, l, p, k);
        }
        lemma_count_shifted(bits, frag, true, lo, frag.len() as int);
        lemma_count_shifted(bits, frag, false, lo, frag.len() as int);
        lemma_fragment_count(s, w, l, p, true, n, n);
        lemma_fragment_count(s, w, l, p, false, n, n);
        crate::bitindex::lemma_rank_sum(frag, frag.len() as int);
        lemma_counts_next(s, w, l, p, n);
        lemma_prefix_next(v, w, l);
    }
}

proof fn lemma_last_layer_counts(s: Seq<u64>, w: int, v: int, j: int)
    requires
        0 <= j <= s.len(),
    ensures
        prefix_count(s, w, w, v, v + 1, j) == occurrences(s, v, j),
    decreases j,
{
    lemma2_to64();
    if j > 0 {
        lemma_last_layer_counts(s, w, v, j - 1);
        assert(((w - w) as nat) == 0nat);
        assert(s[j - 1] as int / 1 == s[j - 1]);
    }
}

/// The lookup range of a symbol at the last layer holds exactly its occurrences; so a symbol
/// that does not occur is not found.
pub proof fn lemma_lookup_counts_occurrences(s: Seq<u64>, w: int, v: int)
    requires
        1 <= w,
        0 <= v < pow2(w as nat),
        forall|q: int| 0 <= q < s.len() ==> s[q] < pow2(w as nat),
    ensures
        lookup_range(tree_bits(s, w, w), s.len() as int, w, v, w).1 - lookup_range(
            tree_bits(s, w, w),
            s.len() as int,
            w,
            v,
            w,
        ).0 == occurrences(s, v, s.len() as int),
        (forall|q: int| 0 <= q < s.len() ==> s[q] != v) ==> lookup_range(
            tree_bits(s, w, w),
            s.len() as int,
            w,
            v,
            w,
        ).0 == lookup_range(tree_bits(s, w, w), s.len() as int, w, v, w).1,
{
    let n = s.len() as int;
    lemma_lookup_invariant(s, w, v, w);
    lemma2_to64();
    assert(((w - w) as nat) == 0nat);
    assert(v / 1 == v);
    lemma_prefix_count_split(s, w, w, 0, v, v + 1, n);
    lemma_last_layer_counts(s, w, v, n);
    if forall|q: int| 0 <= q < s.len() ==> s[q] != v {
        lemma_no_occurrences(s, v, n);
    }
}

proof fn lemma_no_occurrences(s: Seq<u64>, v: int, j: int)
    requires
        0 <= j <= s.len(),
        forall|q: int| 0 <= q < s.len() ==> s[q] != v,
    ensures
        occurrences(s, v, j) == 0,
    decreases j,
{
    if j > 0 {
        lemma_no_occurrences(s, v, j - 1);
    }
}

/// The rank of the occurrence at position `j` within its lookup range at layer `l` is one past
/// the number of earlier symbols in the same fragment.
proof fn lemma_occurrence_rank(s: Seq<u64>, w: int, j: int, k: int, l: int)
    requires
        1 <= w,
        0 <= l <= w,
        0 <= j < s.len(),
        occurrences(s, s[j] as int, j) == k,
        forall|q: int| 0 <= q < s.len() ==> s[q] < pow2(w as nat),
    ensures
        ({
            let v = s[j] as int;
            let p = prefix(v, w, l);
            occurrence_rank(tree_bits(s, w, w), s.len() as int, w, v, k, l) == prefix_count(
                s,
                w,
                l,
                p,
                p + 1,
                j,
            ) + 1
        }),
    decreases w - l,
{
    let n = s.len() as int;
    let v = s[j] as int;
    let bits = tree_bits(s, w, w);
    if l == w {
        lemma_last_layer_counts(s, w, v, j);
        lemma2_to64();
        assert(((w - w) as nat) == 0nat);
        assert(v / 1 == v);
        assert(prefix(v, w, l) == v);
    } else {
        lemma_occurrence_rank(s, w, j, k, l + 1);
        let p = prefix(v, w, l);
        let bit = symbol_bit(v, w, l);
        lemma_prefix_next(v, w, l);
        lemma_counts_next(s, w, l, p, j);
        let r = occurrence_rank(bits, n, w, v, k, l + 1);
        assert(r - 1 == in_fragment_with_bit(s, w, l, p, bit, j));
        lemma_lookup_invariant(s, w, v, l);
        let rs = prefix_count(s, w, l, 0, p, n) as int;
        let frag = fragment_bits(s, w, l, p, n);
        let lo = l * n + rs;
        let hi = l * n + prefix_count(s, w, l, 0, p + 1, n) as int;
        let off = prefix_count(s, w, l, p, p + 1, j) as int;
        let q = lo + off;
        lemma_tree_bits_len(s, w, w);
        crate::wavelettree::lemma_prefix_bound(v, w, l);
        lemma_prefix_count_split(s, w, l, 0, p, p + 1, n);
        lemma_fragment_len(s, w, l, p, n);
        lemma_prefix_count_mono(s, w, l, p, p + 1, j + 1, n);
        lemma_prefix_count_mono(s, w, l, 0, p + 1, n, n);
        assert(l * n + n <= n * w) by (nonlinear_arith)
            requires
                0 <= l < w,
                n >= 0,
        ;
        assert(l * n >= 0) by (nonlinear_arith)
            requires
                0 <= l,
                n >= 0,
        ;
        assert forall|m: int| 0 <= m < frag.len() implies bits[lo + m] == frag[m] by {
            lemma_tree_fragment(s, w, l, p, m);
        }
        lemma_tree_fragment(s, w, l, p, off);
        lemma_fragment_at(s, w, l, p, j, n);
        assert(bits[q] == bit);
        lemma_count_shifted(bits, frag, bit, lo, off);
        lemma_fragment_count(s, w, l, p, bit, j, n);
        assert(count_in(bits, bit, lo, q) == r - 1);
        let chosen = select_in(bits, bit, r, lo, hi);
        assert(lo <= chosen < hi && bits[chosen] == bit && count_in(bits, bit, lo, chosen) == r - 1);
        crate::bitindex::lemma_select_unique(bits, bit, q, chosen);
        assert(occurrence_rank(bits, n, w, v, k, l) == chosen - lo + 1);
    }
}

/// The `k`-th position that a lookup of `s[j]` reports is `j`, where `k` counts the earlier
/// occurrences of `s[j]`: a lookup lists the occurrences in increasing order.
pub proof fn lemma_lookup_positions(s: Seq<u64>, w: int, j: int, k: int)
    requires
        1 <= w,
        0 <= j < s.len(),
        occurrences(s, s[j] as int, j) == k,
        forall|q: int| 0 <= q < s.len() ==> s[q] < pow2(w as nat),
    ensures
        occurrence_rank(tree_bits(s, w, w), s.len() as int, w, s[j] as int, k, 0) - 1 == j,
{
    lemma_occurrence_rank(s, w, j, k, 0);
    lemma_top_layer(s, w, 0, j);
}

} // verus!
