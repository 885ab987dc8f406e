//! Log-arrays: sequences of fixed-width unsigned integers packed MSB-first, followed by a
//! control block holding the count and the width as two big-endian 32-bit fields.
use vstd::prelude::*;
use vstd::arithmetic::power2::{pow2, lemma_pow2_unfold, lemma2_to64, lemma_pow2_strictly_increases, lemma_pow2_pos};
use crate::bitarray::{BitBuffer, FormatError, byte_bit, bytes_bits, bytes_for};
use vstd::bits::lemma_u64_shr_is_div;

verus! {

/// The value of bits `[lo, hi)` of `s` read as a big-endian binary number.
pub open spec fn bits_value(s: Seq<bool>, lo: int, hi: int) -> nat
    decreases hi - lo,
{
    if hi <= lo {
        0
    } else {
        2 * bits_value(s, lo, hi - 1) + if s[hi - 1] {
            1nat
        } else {
            0nat
        }
    }
}

/// The `w` bits of `x`, most significant first.
pub open spec fn value_bits(x: int, w: int) -> Seq<bool> {
    Seq::new(w as nat, |j: int| (x / (pow2((w - 1 - j) as nat) as int)) % 2 == 1)
}

/// The bits of `entries`, each written on `w` bits, one after the other.
pub open spec fn packed(entries: Seq<u64>, w: int) -> Seq<bool>
    decreases entries.len(),
{
    if entries.len() == 0 {
        Seq::empty()
    } else {
        packed(entries.drop_last(), w) + value_bits(entries.last() as int, w)
    }
}

/// The entries a log-array holds.
pub open spec fn logarray_values(data: Seq<u8>) -> Seq<u64> {
    Seq::new(
        stored_count(data) as nat,
        |i: int|
            bits_value(body_bits(data), i * stored_width(data), (i + 1) * stored_width(data)) as u64,
    )
}

proof fn lemma_packed_len(entries: Seq<u64>, w: int)
    requires
        w >= 0,
    ensures
        packed(entries, w).len() == entries.len() * w,
    decreases entries.len(),
{
    if entries.len() > 0 {
        lemma_packed_len(entries.drop_last(), w);
        assert((entries.len() - 1) * w + w == entries.len() * w) by (nonlinear_arith);
    }
}

/// The value of a range of bits depends only on the bits inside it.
pub proof fn lemma_bits_value_local(s: Seq<bool>, lo: int, hi: int)
    requires
        0 <= lo <= hi <= s.len(),
    ensures
        bits_value(s, lo, hi) == bits_value(s.subrange(lo, hi), 0, hi - lo),
    decreases hi - lo,
{
    if hi > lo {
        lemma_bits_value_local(s, lo, hi - 1);
        lemma_bits_value_local(s.subrange(lo, hi), 0, hi - lo - 1);
        assert(s.subrange(lo, hi).subrange(0, hi - lo - 1) =~= s.subrange(lo, hi - 1));
    }
}

/// Reading back the `w` bits of a value below `2^w` gives the value.
pub proof fn lemma_value_bits_round_trip(x: int, w: int)
    requires
        0 <= w,
        0 <= x < pow2(w as nat),
    ensures
        bits_value(value_bits(x, w), 0, w) == x,
    decreases w,
{
    let s = value_bits(x, w);
    if w == 0 {
        lemma2_to64();
    } else {
        lemma_pow2_unfold(w as nat);
        assert(x / 2 < pow2((w - 1) as nat)) by (nonlinear_arith)
            requires
                0 <= x < 2 * pow2((w - 1) as nat),
        ;
        lemma_value_bits_round_trip(x / 2, w - 1);
        assert forall|j: int| 0 <= j < w - 1 implies #[trigger] s.subrange(0, w - 1)[j] == value_bits(
            x / 2,
            w - 1,
        )[j] by {
            let k = (w - 2 - j) as nat;
            lemma_pow2_unfold(k + 1);
            lemma_pow2_pos(k);
            vstd::arithmetic::div_mod::lemma_div_denominator(x, 2, pow2(k) as int);
            assert(2 * pow2(k) as int == pow2(k + 1) as int);
        }
        assert(s.subrange(0, w - 1) =~= value_bits(x / 2, w - 1));
        lemma_bits_value_local(s, 0, w - 1);
        lemma2_to64();
        assert(((w - 1 - (w - 1)) as nat) == 0nat);
        assert(x / (pow2(0) as int) == x);
        assert(s[w - 1] == (x % 2 == 1));
        assert(2 * (x / 2) + x % 2 == x);
    }
}

/// Entry `i` of the packed bits reads back as entry `i` of the sequence.
pub proof fn lemma_packed_entry(entries: Seq<u64>, w: int, i: int)
    requires
        1 <= w,
        0 <= i < entries.len(),
        forall|k: int| 0 <= k < entries.len() ==> entries[k] < pow2(w as nat),
    ensures
        bits_value(packed(entries, w), i * w, (i + 1) * w) == entries[i],
    decreases entries.len(),
{
    let p = packed(entries, w);
    let m = entries.len() - 1;
    let front = entries.drop_last();
    lemma_packed_len(front, w);
    lemma_packed_len(entries, w);
    assert((i + 1) * w <= entries.len() * w && i * w >= 0) by (nonlinear_arith)
        requires
            0 <= i < entries.len(),
            w >= 1,
    ;
    assert((i + 1) * w == i * w + w) by (nonlinear_arith);
    lemma_bits_value_local(p, i * w, (i + 1) * w);
    if i == m {
        assert(p.subrange(i * w, (i + 1) * w) =~= value_bits(entries[i] as int, w));
        lemma_value_bits_round_trip(entries[i] as int, w);
    } else {
        assert((i + 1) * w <= m * w) by (nonlinear_arith)
            requires
                i < m,
                w >= 1,
        ;
        lemma_packed_entry(front, w, i);
        lemma_bits_value_local(packed(front, w), i * w, (i + 1) * w);
        assert(p.subrange(i * w, (i + 1) * w) =~= packed(front, w).subrange(i * w, (i + 1) * w));
    }
}

/// A log-array written from `entries` reads back as `entries`.
pub proof fn lemma_logarray_round_trip(data: Seq<u8>, entries: Seq<u64>)
    requires
        header_error(data) is None,
        stored_count(data) == entries.len(),
        body_bits(data) == packed(entries, stored_width(data) as int),
        forall|k: int| 0 <= k < entries.len() ==> entries[k] < pow2(stored_width(data) as nat),
    ensures
        logarray_values(data) == entries,
{
    let w = stored_width(data) as int;
    assert forall|i: int| 0 <= i < entries.len() implies #[trigger] logarray_values(data)[i]
        == entries[i] by {
        lemma_packed_entry(entries, w, i);
    }
    assert(logarray_values(data) =~= entries);
}

/// The four big-endian bytes of `n`.
pub open spec fn be_bytes_u32(n: u32) -> Seq<u8> {
    seq![(n >> 24u32) as u8, (n >> 16u32) as u8, (n >> 8u32) as u8, n as u8]
}

/// The big-endian value of four bytes.
pub open spec fn be_u32(s: Seq<u8>) -> u32
    recommends
        s.len() == 4,
{
    ((s[0] as u32) << 24u32) | ((s[1] as u32) << 16u32) | ((s[2] as u32) << 8u32) | (s[3] as u32)
}

/// Reading back the big-endian bytes of a number gives the number.
pub proof fn lemma_be_u32_round_trip(n: u32)
    ensures
        be_u32(be_bytes_u32(n)) == n,
{
    assert(((((n >> 24u32) as u8) as u32) << 24u32) | ((((n >> 16u32) as u8) as u32) << 16u32) | ((
    ((n >> 8u32) as u8) as u32) << 8u32) | ((n as u8) as u32) == n) by (bit_vector);
}

fn read_be_u32(data: &Vec<u8>, at: usize) -> (r: u32)
    requires
        at + 4 <= data@.len(),
    ensures
        r == be_u32(data@.subrange(at as int, at + 4)),
{
    let _ = data.len();
    ((data[at] as u32) << 24u32) | ((data[at + 1] as u32) << 16u32) | ((data[at + 2] as u32)
        << 8u32) | (data[at + 3] as u32)
}

fn push_be_u32(out: &mut Vec<u8>, n: u32)
    ensures
        final(out)@ == old(out)@ + be_bytes_u32(n),
{
    let ghost start = out@;
    out.push((n >> 24u32) as u8);
    out.push((n >> 16u32) as u8);
    out.push((n >> 8u32) as u8);
    out.push(n as u8);
    assert(out@ =~= start + be_bytes_u32(n));
}

/// The count stored in a log-array's control block.
pub open spec fn stored_count(data: Seq<u8>) -> u32 {
    be_u32(data.subrange(data.len() - 8, data.len() - 4))
}

/// The width stored in a log-array's control block.
pub open spec fn stored_width(data: Seq<u8>) -> u32 {
    be_u32(data.subrange(data.len() - 4, data.len() as int))
}

/// The packed entries of a log-array, without the control block.
pub open spec fn body_bits(data: Seq<u8>) -> Seq<bool> {
    bytes_bits(
        data.subrange(0, data.len() - 8),
        stored_count(data) as int * stored_width(data) as int,
    )
}

/// The error, if any, that reading a log-array's header reports.
pub open spec fn header_error(data: Seq<u8>) -> Option<FormatError> {
    if data.len() < 8 {
        Some(FormatError::MissingControl)
    } else if stored_width(data) == 0 || stored_width(data) > 64 {
        Some(FormatError::BadWidth)
    } else if data.len() - 8 != bytes_for(stored_count(data) as int * stored_width(data) as int) {
        Some(FormatError::LengthMismatch)
    } else {
        None
    }
}

/// Decodes the control block of a log-array: its number of entries and their width.
pub fn logarray_length_and_width(data: &Vec<u8>) -> (r: Result<(u32, u32), FormatError>)
    ensures
        header_error(data@) is Some ==> r == Err::<(u32, u32), FormatError>(
            header_error(data@)->Some_0,
        ),
        header_error(data@) is None ==> r == Ok::<(u32, u32), FormatError>(
            (stored_count(data@), stored_width(data@)),
        ),
{
    let len = data.len();
    if len < 8 {
        return Err(FormatError::MissingControl);
    }
    let n = read_be_u32(data, len - 8);
    let w = read_be_u32(data, len - 4);
    if w == 0 || w > 64 {
        return Err(FormatError::BadWidth);
    }
    assert((n as int) * (w as int) <= 0xffff_ffff * 64) by (nonlinear_arith)
        requires
            0 <= n <= 0xffff_ffff,
            1 <= w <= 64,
    ;
    let bits = n as u64 * w as u64;
    let need = bits / 8 + if bits % 8 == 0 { 0u64 } else { 1u64 };
    assert(need as int == bytes_for(bits as int)) by (nonlinear_arith)
        requires
            need == bits / 8 + (if bits % 8 == 0 { 0u64 } else { 1u64 }),
    ;
    if need != (len - 8) as u64 {
        return Err(FormatError::LengthMismatch);
    }
    Ok((n, w))
}

/// The bit at position `pos` of the packed bytes.
fn bit_at(data: &Vec<u8>, pos: u64) -> (r: bool)
    requires
        pos / 8 < data@.len(),
    ensures
        r == byte_bit(data@[pos as int / 8], pos as int % 8),
{
    let _ = data.len();
    let idx = (pos / 8) as usize;
    assert(idx as int == pos as int / 8);
    let b = data[idx];
    let s = (7 - pos % 8) as u8;
    assert(s == (7 - (pos as int % 8)) as u8);
    assert(b == data@[pos as int / 8]);
    (b >> s) & 1u8 == 1u8
}

/// Decodes all entries of a log-array, in order.
pub fn logarray_entries(data: &Vec<u8>) -> (r: Result<Vec<u64>, FormatError>)
    ensures
        header_error(data@) is Some ==> r == Err::<Vec<u64>, FormatError>(
            header_error(data@)->Some_0,
        ),
        header_error(data@) is None ==> r is Ok && r->Ok_0@ == logarray_values(data@) && (
        forall|i: int|
            0 <= i < r->Ok_0@.len() ==> #[trigger] r->Ok_0@[i] < pow2(
                stored_width(data@) as nat,
            )),
{
    let (n, w) = match logarray_length_and_width(data) {
        Ok(header) => header,
        Err(e) => {
            return Err(e);
        },
    };
    let ghost body = data@.subrange(0, data@.len() - 8);
    let ghost bits = body_bits(data@);
    let w64 = w as u64;
    let mut out: Vec<u64> = Vec::new();
    let mut i: u32 = 0;
    while i < n
        invariant
            header_error(data@) is None,
            n == stored_count(data@),
            w == stored_width(data@),
            w64 == w,
            1 <= w <= 64,
            body == data@.subrange(0, data@.len() - 8),
            bits == body_bits(data@),
            bits == bytes_bits(body, n * w),
            body.len() == bytes_for(n * w),
            i <= n,
            out@.len() == i,
            forall|k: int|
                0 <= k < i ==> #[trigger] out@[k] == bits_value(bits, k * w, (k + 1) * w),
            forall|k: int| 0 <= k < i ==> #[trigger] out@[k] < pow2(w as nat),
        decreases n - i,
    {
        proof {
            assert(i * w <= 0xffff_ffff * 64 && n * w <= 0xffff_ffff * 64) by (nonlinear_arith)
                requires
                    i < n <= 0xffff_ffff,
                    1 <= w <= 64,
            ;
            lemma2_to64();
        }
        let start = i as u64 * w64;
        let mut v: u64 = 0;
        let mut k: u64 = 0;
        proof {
            assert((i + 1) * w <= n * w) by (nonlinear_arith)
                requires
                    i < n,
                    w >= 1,
            ;
            assert(start + w == (i + 1) * w) by (nonlinear_arith)
                requires
                    start == i * w,
            ;
        }
        while k < w64
            invariant
                1 <= w <= 64,
                w64 == w,
                k <= w64,
                data@.len() >= 8,
                start + w <= n * w,
                start + w <= 0xffff_ffff * 64,
                body == data@.subrange(0, data@.len() - 8),
                bits == bytes_bits(body, n * w),
                body.len() == bytes_for(n * w),
                v == bits_value(bits, start as int, start + k),
                v < pow2(k as nat),
            decreases w64 - k,
        {
            let pos = start + k;
            proof {
                let m = n as int * w as int;
                assert(pos < m);
                assert(pos as int / 8 < body.len()) by (nonlinear_arith)
                    requires
                        pos < m,
                        body.len() == (m + 7) / 8,
                ;
                assert(body[pos as int / 8] == data@[pos as int / 8]);
                lemma2_to64();
                lemma_pow2_unfold(k as nat + 1);
                if k + 1 < 64 {
                    lemma_pow2_strictly_increases(k as nat + 1, 64);
                }
            }
            let b = bit_at(data, pos);
            assert(b == bits[pos as int]);
            v = 2 * v + if b { 1u64 } else { 0u64 };
            k = k + 1;
        }
        out.push(v);
        i = i + 1;
    }
    assert(out@ =~= logarray_values(data@));
    Ok(out)
}

/// Bit `j` of the `w`-bit value `x`, most significant first.
pub fn value_bit(x: u64, w: u32, j: u32) -> (r: bool)
    requires
        j < w <= 64,
    ensures
        r == value_bits(x as int, w as int)[j as int],
{
    let k = (w - 1 - j) as u64;
    proof {
        lemma_u64_shr_is_div(x, k);
    }
    let y = x >> k;
    assert(y & 1u64 == y % 2) by (bit_vector);
    y & 1u64 == 1u64
}

/// Writes a log-array one entry at a time.
pub struct LogArrayBuilder {
    buf: BitBuffer,
    width: u32,
    count: u32,
    entries: Ghost<Seq<u64>>,
}

impl LogArrayBuilder {
    /// The entries written so far.
    pub closed spec fn view(&self) -> Seq<u64> {
        self.entries@
    }

    pub closed spec fn width_spec(&self) -> int {
        self.width as int
    }

    pub closed spec fn wf(&self) -> bool {
        &&& self.buf.wf()
        &&& 1 <= self.width <= 64
        &&& self.count == self.entries@.len()
        &&& self.buf@ == packed(self.entries@, self.width as int)
        &&& self.buf@.len() == self.count * self.width
    }

    /// A builder for entries of `width` bits.
    pub fn new(width: u32) -> (r: LogArrayBuilder)
        requires
            1 <= width <= 64,
        ensures
            r.wf(),
            r@ == Seq::<u64>::empty(),
            r.width_spec() == width,
    {
        LogArrayBuilder { buf: BitBuffer::new(), width, count: 0, entries: Ghost(Seq::empty()) }
    }

    /// Appends an entry.
    pub fn push(&mut self, x: u64)
        requires
            old(self).wf(),
            x < pow2(old(self).width_spec() as nat),
            old(self)@.len() < 0xffff_ffff,
            (old(self)@.len() + 1) * old(self).width_spec() <= usize::MAX,
        ensures
            final(self).wf(),
            final(self)@ == old(self)@.push(x),
            final(self).width_spec() == old(self).width_spec(),
    {
        let ghost start = self.buf@;
        let w = self.width;
        proof {
            assert(self.count * w + w == (self.count + 1) * w) by (nonlinear_arith);
        }
        let mut j: u32 = 0;
        while j < w
            invariant
                1 <= w <= 64,
                self.buf.wf(),
                start.len() + w <= usize::MAX,
                j <= w,
                w == self.width,
                self.count == old(self).count,
                self.entries == old(self).entries,
                self.count == self.entries@.len(),
                self.count < 0xffff_ffff,
                start == packed(self.entries@, w as int),
                self.buf@ == start + value_bits(x as int, w as int).subrange(0, j as int),
            decreases w - j,
        {
            let b = value_bit(x, w, j);
            self.buf.push(b);
            assert(self.buf@ =~= start + value_bits(x as int, w as int).subrange(0, j + 1));
            j = j + 1;
        }
        let ghost new_entries = self.entries@.push(x);
        assert(new_entries.drop_last() =~= self.entries@);
        self.entries = Ghost(new_entries);
        self.count = self.count + 1;
        assert(self.buf@ =~= packed(new_entries, w as int));
    }

    /// The file form: the packed entries, then the count and the width as big-endian fields.
    pub fn finalize(self) -> (r: Vec<u8>)
        requires
            self.wf(),
        ensures
            header_error(r@) is None,
            stored_count(r@) == self@.len(),
            stored_width(r@) == self.width_spec(),
            body_bits(r@) == packed(self@, self.width_spec()),
    {
        let n = self.count;
        let w = self.width;
        let ghost bits = self.buf@;
        let ghost bytes = self.buf.bytes_view();
        let mut out = self.buf.into_bytes();
        let ghost body = out@;
        push_be_u32(&mut out, n);
        push_be_u32(&mut out, w);
        proof {
            lemma_be_u32_round_trip(n);
            lemma_be_u32_round_trip(w);
            assert(out@.subrange(out@.len() - 8, out@.len() - 4) =~= be_bytes_u32(n));
            assert(out@.subrange(out@.len() - 4, out@.len() as int) =~= be_bytes_u32(w));
            assert(out@.subrange(0, out@.len() - 8) =~= body);
            assert(body.len() == bytes_for(bits.len() as int));
            assert(bits.len() == n as int * w as int);
            assert(out@.len() - 8 == body.len());
            assert(stored_count(out@) == n);
            assert(stored_width(out@) == w);
        }
        out
    }
}

} // verus!
