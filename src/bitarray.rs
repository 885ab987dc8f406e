//! Packed bit sequences: MSB-first bits in a byte buffer.
use vstd::prelude::*;

verus! {

/// Bit `j` (0 = most significant) of byte `b`.
pub open spec fn byte_bit(b: u8, j: int) -> bool {
    (b >> ((7 - j) as u8)) & 1u8 == 1u8
}

/// The first `n` bits of `bytes`, MSB-first within each byte.
pub open spec fn bytes_bits(bytes: Seq<u8>, n: int) -> Seq<bool> {
    Seq::new(n as nat, |i: int| byte_bit(bytes[i / 8], i % 8))
}

/// Number of bytes that hold `n` bits.
pub open spec fn bytes_for(n: int) -> int {
    (n + 7) / 8
}

/// The eight big-endian bytes of `n`.
pub open spec fn be_bytes_u64(n: u64) -> Seq<u8> {
    seq![
        (n >> 56u64) as u8, (n >> 48u64) as u8, (n >> 40u64) as u8, (n >> 32u64) as u8,
        (n >> 24u64) as u8, (n >> 16u64) as u8, (n >> 8u64) as u8, n as u8,
    ]
}

/// The big-endian value of eight bytes.
pub open spec fn be_u64(s: Seq<u8>) -> u64
    recommends
        s.len() == 8,
{
    ((s[0] as u64) << 56u64) | ((s[1] as u64) << 48u64) | ((s[2] as u64) << 40u64) | ((
    s[3] as u64) << 32u64) | ((s[4] as u64) << 24u64) | ((s[5] as u64) << 16u64) | ((
    s[6] as u64) << 8u64) | (s[7] as u64)
}

/// Reading back the big-endian bytes of a number gives the number.
pub proof fn lemma_be_u64_round_trip(n: u64)
    ensures
        be_u64(be_bytes_u64(n)) == n,
{
    let s = be_bytes_u64(n);
    let (b0, b1, b2, b3, b4, b5, b6, b7) = (s[0], s[1], s[2], s[3], s[4], s[5], s[6], s[7]);
    assert(b0 == (n >> 56u64) as u8 && b7 == n as u8);
    assert(((((n >> 56u64) as u8) as u64) << 56u64) | ((((n >> 48u64) as u8) as u64) << 48u64) | ((
    ((n >> 40u64) as u8) as u64) << 40u64) | ((((n >> 32u64) as u8) as u64) << 32u64) | ((((n
        >> 24u64) as u8) as u64) << 24u64) | ((((n >> 16u64) as u8) as u64) << 16u64) | ((((n
        >> 8u64) as u8) as u64) << 8u64) | ((n as u8) as u64) == n) by (bit_vector);
}

/// Setting bit `k` of a byte changes that bit alone.
proof fn lemma_set_bit(b: u8, k: u8, j: u8)
    requires
        k < 8,
        j < 8,
    ensures
        byte_bit(b | (1u8 << (7 - k) as u8), j as int) == (j == k || byte_bit(b, j as int)),
{
    let m = (7 - k) as u8;
    let s = (7 - j) as u8;
    assert(((b | (1u8 << m)) >> s) & 1u8 == 1u8 <==> (s == m || (b >> s) & 1u8 == 1u8))
        by (bit_vector)
        requires
            m < 8,
            s < 8,
    ;
}

proof fn lemma_zero_byte(j: u8)
    requires
        j < 8,
    ensures
        !byte_bit(0u8, j as int),
{
    let s = (7 - j) as u8;
    assert((0u8 >> s) & 1u8 == 0u8) by (bit_vector);
}

/// A growable bit buffer, written one bit at a time.
pub struct BitBuffer {
    bytes: Vec<u8>,
    len: usize,
}

impl BitBuffer {
    /// The bits written so far.
    pub closed spec fn view(&self) -> Seq<bool> {
        bytes_bits(self.bytes@, self.len as int)
    }

    /// The bytes holding the bits, padding included.
    pub closed spec fn bytes_view(&self) -> Seq<u8> {
        self.bytes@
    }

    /// The byte buffer holds exactly the bytes needed, with zero padding.
    pub closed spec fn wf(&self) -> bool {
        &&& self.bytes@.len() == bytes_for(self.len as int)
        &&& forall|i: int|
            self.len <= i < 8 * self.bytes@.len() ==> !#[trigger] byte_bit(
                self.bytes@[i / 8],
                i % 8,
            )
    }

    pub fn new() -> (r: BitBuffer)
        ensures
            r.wf(),
            r@ == Seq::<bool>::empty(),
    {
        let r = BitBuffer { bytes: Vec::new(), len: 0 };
        assert(r@ =~= Seq::<bool>::empty());
        r
    }

    pub fn len(&self) -> (r: usize)
        requires
            self.wf(),
        ensures
            r == self@.len(),
    {
        self.len
    }

    /// Appends one bit.
    pub fn push(&mut self, bit: bool)
        requires
            old(self).wf(),
            old(self)@.len() < usize::MAX,
        ensures
            final(self).wf(),
            final(self)@ == old(self)@.push(bit),
    {
        let ghost old_bytes = self.bytes@;
        let ghost old_view = self@;
        let k = (self.len % 8) as u8;
        if k == 0 {
            self.bytes.push(0u8);
            proof {
                assert forall|i: int| self.len <= i < 8 * self.bytes@.len() implies !#[trigger] byte_bit(
                    self.bytes@[i / 8],
                    i % 8,
                ) by {
                    if i < 8 * old_bytes.len() {
                        assert(self.bytes@[i / 8] == old_bytes[i / 8]);
                    } else {
                        assert(i / 8 == old_bytes.len());
                        lemma_zero_byte((i % 8) as u8);
                    }
                }
            }
        }
        let last = self.bytes.len() - 1;
        assert(last as int == self.len as int / 8);
        if bit {
            let b = self.bytes[last];
            let nb = b | (1u8 << (7 - k));
            self.bytes.set(last, nb);
            proof {
                assert forall|j: u8| j < 8 implies #[trigger] byte_bit(nb, j as int) == (j == k
                    || byte_bit(b, j as int)) by {
                    lemma_set_bit(b, k, j);
                }
            }
        }
        self.len = self.len + 1;
        proof {
            let bytes_now = self.bytes@;
            assert forall|i: int| self.len <= i < 8 * bytes_now.len() implies !#[trigger] byte_bit(
                bytes_now[i / 8],
                i % 8,
            ) by {
                if i / 8 == last as int {
                    if bit {
                        assert(byte_bit(bytes_now[last as int], (i % 8) as u8 as int) == ((i % 8) as u8
                            == k || byte_bit(self.bytes@[last as int], i % 8)));
                    }
                }
            }
            assert(self@ =~= old_view.push(bit));
        }
    }

    /// The packed bytes, padding included.
    pub fn into_bytes(self) -> (r: Vec<u8>)
        requires
            self.wf(),
        ensures
            r@ == self.bytes_view(),
            r@.len() == bytes_for(self@.len() as int),
            bytes_bits(r@, self@.len() as int) == self@,
    {
        self.bytes
    }

    /// The file form of the bits: the bytes, then the length in bits as eight big-endian bytes.
    pub fn finalize(self) -> (r: Vec<u8>)
        requires
            self.wf(),
        ensures
            r@ == self.bytes_view() + be_bytes_u64(self@.len() as u64),
            self.bytes_view().len() == bytes_for(self@.len() as int),
            bytes_bits(self.bytes_view(), self@.len() as int) == self@,
    {
        let mut out = self.bytes;
        let n = self.len as u64;
        push_be_u64(&mut out, n);
        out
    }
}

/// Appends the eight big-endian bytes of `n`.
pub fn push_be_u64(out: &mut Vec<u8>, n: u64)
    ensures
        final(out)@ == old(out)@ + be_bytes_u64(n),
{
    let ghost start = out@;
    out.push((n >> 56u64) as u8);
    out.push((n >> 48u64) as u8);
    out.push((n >> 40u64) as u8);
    out.push((n >> 32u64) as u8);
    out.push((n >> 24u64) as u8);
    out.push((n >> 16u64) as u8);
    out.push((n >> 8u64) as u8);
    out.push(n as u8);
    assert(out@ =~= start + be_bytes_u64(n));
}

/// Reads eight big-endian bytes starting at `at`.
pub fn read_be_u64(data: &Vec<u8>, at: usize) -> (r: u64)
    requires
        at + 8 <= data@.len(),
    ensures
        r == be_u64(data@.subrange(at as int, at + 8)),
{
    let _ = data.len();
    ((data[at] as u64) << 56u64) | ((data[at + 1] as u64) << 48u64) | ((data[at + 2] as u64)
        << 40u64) | ((data[at + 3] as u64) << 32u64) | ((data[at + 4] as u64) << 24u64) | ((
    data[at + 5] as u64) << 16u64) | ((data[at + 6] as u64) << 8u64) | (data[at + 7] as u64)
}

/// Why a buffer could not be read as one of this library's structures.
#[derive(Debug, Clone, Copy, PartialEq, Eq, Structural)]
pub enum FormatError {
    /// The buffer is shorter than its trailing control block.
    MissingControl,
    /// The stored length or count does not match the size of the buffer.
    LengthMismatch,
    /// The stored entry width is 0 or greater than 64.
    BadWidth,
    /// The bit length is not a multiple of the number of layers, or there are no layers.
    NotMultipleOfLayers,
    /// A stored rank/select table does not match the bits it indexes.
    IndexMismatch,
    /// The bits to index do not fit the address space or the tables' count field.
    TooLarge,
}

/// An immutable sequence of bits.
pub struct BitArray {
    bytes: Vec<u8>,
    len: usize,
}

impl BitArray {
    pub closed spec fn view(&self) -> Seq<bool> {
        bytes_bits(self.bytes@, self.len as int)
    }

    pub closed spec fn wf(&self) -> bool {
        self.bytes@.len() == bytes_for(self.len as int)
    }

    pub proof fn lemma_len_bound(&self)
        ensures
            self@.len() <= usize::MAX,
    {
    }

    /// Reads the file form: packed bits followed by the bit length as eight big-endian bytes.
    pub fn from_bytes(data: Vec<u8>) -> (r: Result<BitArray, FormatError>)
        ensures
            data@.len() < 8 ==> r == Err::<BitArray, FormatError>(FormatError::MissingControl),
            data@.len() >= 8 ==> {
                let n = be_u64(data@.subrange(data@.len() - 8, data@.len() as int));
                let body = data@.subrange(0, data@.len() - 8);
                &&& body.len() == bytes_for(n as int) && n <= usize::MAX ==> r is Ok && r->Ok_0.wf()
                    && r->Ok_0@ == bytes_bits(body, n as int)
                &&& body.len() != bytes_for(n as int) || n > usize::MAX ==> r == Err::<BitArray, FormatError>(
                    FormatError::LengthMismatch,
                )
            },
    {
        if data.len() < 8 {
            return Err(FormatError::MissingControl);
        }
        let body_len = data.len() - 8;
        let n = read_be_u64(&data, body_len);
        let need = n / 8 + (if n % 8 == 0 { 0u64 } else { 1u64 });
        assert(need as int == bytes_for(n as int)) by (nonlinear_arith)
            requires
                need == n / 8 + (if n % 8 == 0 { 0u64 } else { 1u64 }),
        ;
        if need != body_len as u64 || n > usize::MAX as u64 {
            return Err(FormatError::LengthMismatch);
        }
        let mut body = data;
        body.truncate(body_len);
        let r = BitArray { bytes: body, len: n as usize };
        proof {
            assert(body@ =~= data@.subrange(0, data@.len() - 8));
        }
        Ok(r)
    }

    /// A copy of this array.
    pub fn duplicate(&self) -> (r: BitArray)
        ensures
            r@ == self@,
            self.wf() ==> r.wf(),
    {
        let bytes = self.bytes.clone();
        assert(bytes@ =~= self.bytes@);
        BitArray { bytes, len: self.len }
    }

    /// The file form: the packed bytes, then the length in bits as eight big-endian bytes.
    pub fn to_bytes(&self) -> (r: Vec<u8>)
        requires
            self.wf(),
        ensures
            r@.len() == bytes_for(self@.len() as int) + 8,
            r@.subrange(r@.len() - 8, r@.len() as int) == be_bytes_u64(self@.len() as u64),
            bytes_bits(r@.subrange(0, r@.len() - 8), self@.len() as int) == self@,
    {
        let mut out = self.bytes.clone();
        assert(out@ =~= self.bytes@);
        push_be_u64(&mut out, self.len as u64);
        assert(out@.subrange(out@.len() - 8, out@.len() as int) =~= be_bytes_u64(self.len as u64));
        assert(out@.subrange(0, out@.len() - 8) =~= self.bytes@);
        out
    }

    /// Takes the bits of a finished buffer.
    pub fn from_buffer(buf: BitBuffer) -> (r: BitArray)
        requires
            buf.wf(),
        ensures
            r.wf(),
            r@ == buf@,
    {
        BitArray { bytes: buf.bytes, len: buf.len }
    }

    pub fn len(&self) -> (r: usize)
        ensures
            r == self@.len(),
    {
        self.len
    }

    /// The bit at position `i`.
    pub fn get(&self, i: usize) -> (r: bool)
        requires
            self.wf(),
            i < self@.len(),
        ensures
            r == self@[i as int],
    {
        let b = self.bytes[i / 8];
        let s = (7 - i % 8) as u8;
        (b >> s) & 1u8 == 1u8
    }
}

} // verus!
