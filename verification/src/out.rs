//! A bit sink: arbitrary bit strings are appended most significant bit first
//! and packed into bytes, with at most one partial byte held back.

use vstd::prelude::*;

verus! {

/// Bit `i` of `value`, bit 0 being the least significant.
pub open spec fn bit(value: u32, i: int) -> bool {
    (value >> (i as u32)) & 1 == 1
}

/// The low `k` bits of `value`, most significant first.
pub open spec fn bits_of(value: u32, k: int) -> Seq<bool> {
    Seq::new(k as nat, |j: int| bit(value, k - 1 - j))
}

/// The bits of a byte string, each byte most significant bit first.
pub open spec fn byte_bits(bytes: Seq<u8>) -> Seq<bool> {
    Seq::new(8 * bytes.len(), |j: int| bit(bytes[j / 8] as u32, 7 - j % 8))
}

/// `n` zero bits.
pub open spec fn zero_bits(n: int) -> Seq<bool> {
    Seq::new(n as nat, |j: int| false)
}

/// The number of zero bits that complete a bit string of length `len` to a
/// whole number of bytes.
pub open spec fn padding(len: int) -> int {
    (8 - len % 8) % 8
}

/// The sixteen-bit window in which a strand of `sb` bits and the low `k` bits
/// of `c` stand side by side, the strand at the top.
pub open spec fn window(s: u32, c: u32, sb: u32, k: u32) -> u32 {
    (s << 8) | ((c & (((1u32 << k) - 1) as u32)) << ((16 - sb - k) as u32))
}

proof fn lemma_window(s: u32, c: u32, sb: u32, k: u32, j: u32)
    requires
        s < 256,
        c < 256,
        sb < 8,
        k <= 8,
        j < 16,
        s & (0xFFu32 >> sb) == 0,
    ensures
        window(s, c, sb, k) < 0x10000,
        j < sb ==> (bit(window(s, c, sb, k), 15 - j) <==> bit(s, 7 - j)),
        sb <= j < sb + k ==> (bit(window(s, c, sb, k), 15 - j) <==> bit(c, k - 1 - (j - sb))),
        j >= sb + k ==> !bit(window(s, c, sb, k), 15 - j),
        j < 8 ==> (bit(window(s, c, sb, k) >> 8, 7 - j) <==> bit(window(s, c, sb, k), 15 - j)),
        j < 8 ==> (bit(window(s, c, sb, k) & 0xFF, 7 - j) <==> bit(window(s, c, sb, k), 7 - j)),
        sb + k < 8 ==> (window(s, c, sb, k) >> 8) & (0xFFu32 >> ((sb + k) as u32)) == 0,
        sb + k >= 8 ==> (window(s, c, sb, k) & 0xFF) & (0xFFu32 >> ((sb + k - 8) as u32)) == 0,
{
    let w = window(s, c, sb, k);
    let sh: u32 = (16 - sb - k) as u32;
    assert(w == (s << 8) | ((c & (((1u32 << k) - 1) as u32)) << sh));
    assert(w < 0x10000) by (bit_vector)
        requires
            s < 256,
            c < 256,
            sb < 8,
            k <= 8,
            sh == 16 - sb - k,
            w == (s << 8) | ((c & (((1u32 << k) - 1) as u32)) << sh),
    ;
    let hi: u32 = (15 - j) as u32;
    if j < sb {
        let a: u32 = (7 - j) as u32;
        assert(((w >> hi) & 1 == 1) <==> ((s >> a) & 1 == 1)) by (bit_vector)
            requires
                s < 256,
                c < 256,
                sb < 8,
                k <= 8,
                j < sb,
                hi == 15 - j,
                a == 7 - j,
                sh == 16 - sb - k,
                w == (s << 8) | ((c & (((1u32 << k) - 1) as u32)) << sh),
        ;
    } else if j < sb + k {
        let a: u32 = (k - 1 - (j - sb)) as u32;
        assert(((w >> hi) & 1 == 1) <==> ((c >> a) & 1 == 1)) by (bit_vector)
            requires
                s < 256,
                c < 256,
                sb < 8,
                k <= 8,
                sb <= j,
                j < sb + k,
                hi == 15 - j,
                a == k - 1 - (j - sb),
                sh == 16 - sb - k,
                s & (0xFFu32 >> sb) == 0,
                w == (s << 8) | ((c & (((1u32 << k) - 1) as u32)) << sh),
        ;
    } else {
        assert((w >> hi) & 1 == 0) by (bit_vector)
            requires
                s < 256,
                c < 256,
                sb < 8,
                k <= 8,
                j >= sb + k,
                j < 16,
                hi == 15 - j,
                sh == 16 - sb - k,
                s & (0xFFu32 >> sb) == 0,
                w == (s << 8) | ((c & (((1u32 << k) - 1) as u32)) << sh),
        ;
    }
    if j < 8 {
        let a: u32 = (7 - j) as u32;
        assert((((w >> 8) >> a) & 1 == 1) <==> ((w >> hi) & 1 == 1)) by (bit_vector)
            requires
                j < 8,
                hi == 15 - j,
                a == 7 - j,
        ;
        assert((((w & 0xFF) >> a) & 1 == 1) <==> ((w >> a) & 1 == 1)) by (bit_vector)
            requires
                j < 8,
                a == 7 - j,
        ;
    }
    let r: u32 = (sb + k) as u32;
    if sb + k < 8 {
        assert((w >> 8) & (0xFFu32 >> r) == 0) by (bit_vector)
            requires
                s < 256,
                c < 256,
                sb < 8,
                k <= 8,
                r == sb + k,
                r < 8,
                sh == 16 - sb - k,
                s & (0xFFu32 >> sb) == 0,
                w == (s << 8) | ((c & (((1u32 << k) - 1) as u32)) << sh),
        ;
    } else {
        let r8: u32 = (sb + k - 8) as u32;
        assert((w & 0xFF) & (0xFFu32 >> r8) == 0) by (bit_vector)
            requires
                s < 256,
                c < 256,
                sb < 8,
                k <= 8,
                r8 == sb + k - 8,
                sb + k >= 8,
                sh == 16 - sb - k,
                w == (s << 8) | ((c & (((1u32 << k) - 1) as u32)) << sh),
        ;
    }
}

/// Appending a byte to a byte string appends its eight bits.
pub proof fn lemma_byte_bits_push(bytes: Seq<u8>, b: u8)
    ensures
        byte_bits(bytes.push(b)) =~= byte_bits(bytes) + bits_of(b as u32, 8),
{
    let l = byte_bits(bytes.push(b));
    let r = byte_bits(bytes) + bits_of(b as u32, 8);
    assert(l.len() == r.len());
    assert forall|j: int| 0 <= j < l.len() implies l[j] == r[j] by {
        if j < 8 * bytes.len() {
            assert(j / 8 < bytes.len());
        } else {
            assert(j / 8 == bytes.len());
            assert(j % 8 == j - 8 * bytes.len());
        }
    }
}

/// The bits of a concatenation are the concatenation of the bits.
pub proof fn lemma_byte_bits_concat(a: Seq<u8>, b: Seq<u8>)
    ensures
        byte_bits(a + b) =~= byte_bits(a) + byte_bits(b),
{
    let l = byte_bits(a + b);
    let r = byte_bits(a) + byte_bits(b);
    assert(l.len() == r.len());
    assert forall|j: int| 0 <= j < l.len() implies l[j] == r[j] by {
        if j < 8 * a.len() {
            assert(j / 8 < a.len());
        } else {
            let j2 = j - 8 * a.len();
            assert(j / 8 == a.len() + j2 / 8);
            assert(j % 8 == j2 % 8);
        }
    }
}

/// Shifting right by `b` moves bit `b + i` to bit `i`.
proof fn lemma_bit_shift(v: u32, b: u32, i: u32)
    requires
        b + i < 32,
    ensures
        bit(v >> b, i as int) <==> bit(v, b + i),
        i < 8 ==> (bit(v & 0xFF, i as int) <==> bit(v, i as int)),
        (v & 0xFF) < 256,
{
    let bi: u32 = (b + i) as u32;
    assert((((v >> b) >> i) & 1 == 1) <==> ((v >> bi) & 1 == 1)) by (bit_vector)
        requires
            bi == b + i,
            bi < 32,
    ;
    assert(i < 8 ==> ((((v & 0xFF) >> i) & 1 == 1) <==> ((v >> i) & 1 == 1))) by (bit_vector);
    assert((v & 0xFF) < 256) by (bit_vector);
}

/// The low `a + b` bits are the `a` bits above the low `b`, then the low `b`.
pub proof fn lemma_bits_split(v: u32, a: int, b: int)
    requires
        0 <= a,
        0 <= b,
        a + b <= 32,
    ensures
        bits_of(v, a + b) =~= bits_of(v >> (b as u32), a) + bits_of(v, b),
{
    let l = bits_of(v, a + b);
    let r = bits_of(v >> (b as u32), a) + bits_of(v, b);
    assert(l.len() == r.len());
    assert forall|j: int| 0 <= j < l.len() implies l[j] == r[j] by {
        if j < a {
            lemma_bit_shift(v, b as u32, (a - 1 - j) as u32);
        }
    }
}

/// The low `k <= 8` bits of a value are those of its low byte.
pub proof fn lemma_bits_low_byte(v: u32, k: int)
    requires
        0 <= k <= 8,
    ensures
        bits_of(v & 0xFF, k) =~= bits_of(v, k),
{
    assert forall|j: int| 0 <= j < k implies bits_of(v & 0xFF, k)[j] == bits_of(v, k)[j] by {
        lemma_bit_shift(v, 0, (k - 1 - j) as u32);
    }
}

/// Below its `sb` top bits a well-formed strand holds zeros.
proof fn lemma_strand_low(s: u32, sb: u32, i: u32)
    requires
        sb < 8,
        i < 8 - sb,
        s & (0xFFu32 >> sb) == 0,
    ensures
        !bit(s, i as int),
{
    assert((s >> i) & 1 == 0) by (bit_vector)
        requires
            sb < 8,
            i < 8 - sb,
            s & (0xFFu32 >> sb) == 0,
    ;
}

/// Bytes already emitted, and the strand: up to seven bits, held at the top
/// of a byte, that wait for the bits that complete it.
pub struct OutputStream {
    bytes: Vec<u8>,
    strand: u8,
    strand_bits: usize,
}

impl OutputStream {
    /// The strand holds fewer than eight bits and zeros below them.
    pub closed spec fn wf(&self) -> bool {
        &&& self.strand_bits < 8
        &&& (self.strand as u32) & (0xFFu32 >> (self.strand_bits as u32)) == 0
    }

    /// Every bit written so far, in the order of writing.
    pub closed spec fn bits(&self) -> Seq<bool> {
        byte_bits(self.bytes@) + Seq::new(
            self.strand_bits as nat,
            |j: int| bit(self.strand as u32, 7 - j),
        )
    }

    /// An empty sink.
    pub fn new() -> (out: Self)
        ensures
            out.wf(),
            out.bits() == Seq::<bool>::empty(),
    {
        let out = OutputStream { bytes: Vec::new(), strand: 0u8, strand_bits: 0 };
        proof {
            assert(0u32 & (0xFFu32 >> 0u32) == 0) by (bit_vector);
            assert(out.bits() =~= Seq::<bool>::empty());
        }
        out
    }

    /// Appends the low `num_bits` bits of `chunk`, most significant first.
    pub fn write_bits(&mut self, chunk: u8, num_bits: usize)
        requires
            old(self).wf(),
            num_bits <= 8,
        ensures
            final(self).wf(),
            final(self).bits() == old(self).bits() + bits_of(chunk as u32, num_bits as int),
    {
        let rptr: usize = self.strand_bits + num_bits;
        let ghost s = self.strand as u32;
        let ghost c = chunk as u32;
        let ghost sb = self.strand_bits as u32;
        let ghost k = num_bits as u32;
        proof {
            lemma_window(s, c, sb, k, 0);
            assert((1u32 << k) >= 1) by (bit_vector)
                requires
                    k <= 8,
            ;
        }
        let low: u32 = (chunk as u32) & ((1u32 << (num_bits as u32)) - 1);
        let w: u32 = ((self.strand as u32) << 8) | (low << ((16 - rptr) as u32));
        assert(w == window(s, c, sb, k));
        assert((w >> 8) < 256) by (bit_vector)
            requires
                w < 0x10000,
        ;
        let ghost before = self.bits();
        let ghost old_bytes = self.bytes@;
        if rptr < 8 {
            self.strand = (w >> 8) as u8;
            self.strand_bits = rptr;
            proof {
                let after = self.bits();
                let want = before + bits_of(c, num_bits as int);
                assert(after.len() == want.len());
                assert forall|j: int| 0 <= j < after.len() implies after[j] == want[j] by {
                    if j >= 8 * old_bytes.len() {
                        let q = j - 8 * old_bytes.len();
                        lemma_window(s, c, sb, k, q as u32);
                    }
                }
                assert(after =~= want);
            }
        } else {
            let e: u8 = (w >> 8) as u8;
            self.bytes.push(e);
            self.strand = (w & 0xFF) as u8;
            self.strand_bits = rptr - 8;
            proof {
                lemma_byte_bits_push(old_bytes, e);
                assert((w & 0xFF) < 256) by (bit_vector);
                let after = self.bits();
                let want = before + bits_of(c, num_bits as int);
                assert(after.len() == want.len());
                assert forall|j: int| 0 <= j < after.len() implies after[j] == want[j] by {
                    if j >= 8 * old_bytes.len() {
                        let q = j - 8 * old_bytes.len();
                        lemma_window(s, c, sb, k, q as u32);
                        if q >= 8 {
                            lemma_window(s, c, sb, k, (q - 8) as u32);
                        }
                    }
                }
                assert(after =~= want);
            }
        }
    }
    /// Appends the eight bits of `byte`.
    pub fn write_byte(&mut self, byte: u8)
        requires
            old(self).wf(),
        ensures
            final(self).wf(),
            final(self).bits() == old(self).bits() + bits_of(byte as u32, 8),
    {
        self.write_bits(byte, 8)
    }

    /// Appends the low `num_bits` bits of `chunk`, most significant first:
    /// a leading group of `num_bits % 8` bits, then whole bytes.
    pub fn write_bits_u32(&mut self, chunk: u32, num_bits: usize)
        requires
            old(self).wf(),
            num_bits <= 32,
        ensures
            final(self).wf(),
            final(self).bits() == old(self).bits() + bits_of(chunk, num_bits as int),
    {
        let full: usize = num_bits / 8;
        let rem: usize = num_bits % 8;
        let ghost before = self.bits();
        if rem != 0 {
            let top: u32 = chunk >> ((8 * full) as u32);
            proof {
                lemma_bit_shift(top, 0, 0);
                lemma_bits_low_byte(top, rem as int);
            }
            self.write_bits((top & 0xFF) as u8, rem);
        }
        assert(self.bits() =~= before + bits_of(chunk >> ((8 * full) as u32), rem as int));
        let mut b: usize = full;
        while b > 0
            invariant
                b <= full,
                full <= 4,
                num_bits <= 32,
                num_bits == 8 * full + rem,
                self.wf(),
                self.bits() == before + bits_of(chunk >> ((8 * b) as u32), num_bits - 8 * b),
            decreases b,
        {
            b -= 1;
            let part: u32 = chunk >> ((8 * b) as u32);
            proof {
                lemma_bit_shift(part, 0, 0);
                lemma_bits_low_byte(part, 8);
                lemma_bits_split(part, num_bits - 8 * b - 8, 8);
                let sh: u32 = (8 * b) as u32;
                let sh8: u32 = (8 * b + 8) as u32;
                assert((chunk >> sh) >> 8u32 == chunk >> sh8) by (bit_vector)
                    requires
                        sh8 == sh + 8,
                        sh <= 24,
                ;
            }
            self.write_byte((part & 0xFF) as u8);
        }
        proof {
            assert(chunk >> 0u32 == chunk) by (bit_vector);
        }
    }

    /// Appends whole bytes.
    pub fn write_bytes(&mut self, bytes: &[u8])
        requires
            old(self).wf(),
        ensures
            final(self).wf(),
            final(self).bits() == old(self).bits() + byte_bits(bytes@),
    {
        let ghost before = self.bits();
        if self.strand_bits == 0 {
            proof {
                lemma_byte_bits_concat(self.bytes@, bytes@);
            }
            self.bytes.extend_from_slice(bytes);
            assert(self.bits() =~= before + byte_bits(bytes@));
        } else {
            let n: usize = bytes.len();
            let mut i: usize = 0;
            assert(byte_bits(bytes@.take(0)) =~= Seq::<bool>::empty());
            while i < n
                invariant
                    i <= n,
                    n == bytes@.len(),
                    self.wf(),
                    self.bits() =~= before + byte_bits(bytes@.take(i as int)),
                decreases n - i,
            {
                proof {
                    lemma_byte_bits_push(bytes@.take(i as int), bytes@[i as int]);
                    assert(bytes@.take(i + 1) =~= bytes@.take(i as int).push(bytes@[i as int]));
                }
                self.write_byte(bytes[i]);
                i += 1;
            }
            assert(bytes@.take(n as int) =~= bytes@);
        }
    }

    /// Pads the last byte with zeros and hands over everything written.
    pub fn close(self) -> (out: Vec<u8>)
        requires
            self.wf(),
        ensures
            byte_bits(out@) == self.bits() + zero_bits(padding(self.bits().len() as int)),
            8 * out@.len() == self.bits().len() + padding(self.bits().len() as int),
    {
        let mut bytes = self.bytes;
        if self.strand_bits != 0 {
            proof {
                lemma_byte_bits_push(bytes@, self.strand);
            }
            bytes.push(self.strand);
            proof {
                let sb = self.strand_bits as int;
                let want = self.bits() + zero_bits(padding(self.bits().len() as int));
                assert(padding(self.bits().len() as int) == 8 - sb);
                assert(byte_bits(bytes@).len() == want.len());
                assert forall|j: int| 0 <= j < want.len() implies byte_bits(bytes@)[j]
                    == want[j] by {
                    let q = j - 8 * self.bytes@.len();
                    if q >= sb {
                        lemma_strand_low(self.strand as u32, sb as u32, (7 - q) as u32);
                    }
                }
                assert(byte_bits(bytes@) =~= want);
            }
        } else {
            assert(byte_bits(bytes@) =~= self.bits() + zero_bits(
                padding(self.bits().len() as int),
            ));
        }
        bytes
    }
}

} // verus!
