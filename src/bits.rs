//! Packing bits into bytes, most significant bit first, and reading them
//! back.
use vstd::prelude::*;

verus! {

/// Bit `j` of `b`, counting from the most significant bit (`j < 8`).
pub open spec fn bit_of(b: u8, j: u8) -> bool {
    (b >> ((7u8 - j) as u8)) & 1u8 == 1u8
}

/// Bit `i` of a byte sequence, counting from the most significant bit of
/// the first byte.
pub open spec fn bit_at(bytes: Seq<u8>, i: int) -> bool {
    bit_of(bytes[i / 8], (i % 8) as u8)
}

/// The bits of `bytes` from position `from` up to `to`.
pub open spec fn bits_between(bytes: Seq<u8>, from: int, to: int) -> Seq<bool> {
    Seq::new((to - from) as nat, |i: int| bit_at(bytes, from + i))
}

/// `body` holds `bits` front to back, then zero bits up to a byte boundary,
/// then one byte that says how many bits of the last payload byte are used.
pub open spec fn packs(body: Seq<u8>, bits: Seq<bool>) -> bool {
    &&& body.len() == bits.len() / 8 + 2
    &&& body.last() == bits.len() % 8
    &&& forall|i: int|
        0 <= i < (body.len() - 1) * 8 ==> #[trigger] bit_at(body, i) == (i < bits.len()
            && bits[i])
}

proof fn lemma_set_bit(c: u8, used: u8, j: u8)
    by (bit_vector)
    requires
        used < 8,
        j < 8,
    ensures
        bit_of(c | (0x80u8 >> used), j) == (j == used || bit_of(c, j)),
{
}

proof fn lemma_zero_bits(j: u8)
    by (bit_vector)
    requires
        j < 8,
    ensures
        !bit_of(0u8, j),
{
}

/// Reads bit `index` of `bytes`.
pub fn get_bit(bytes: &[u8], index: usize) -> (r: bool)
    requires
        index / 8 < bytes@.len(),
    ensures
        r == bit_at(bytes@, index as int),
{
    let byte = bytes[index / 8];
    let shift = (7 - index % 8) as u8;
    let r = (byte >> shift) & 1 != 0;
    assert(r == ((byte >> shift) & 1u8 == 1u8)) by (bit_vector)
        requires r == ((byte >> shift) & 1 != 0);
    r
}

/// Accumulates bits into bytes.
pub struct BitWriter {
    bytes: Vec<u8>,
    current: u8,
    used: u8,
    written: Ghost<Seq<bool>>,
}

impl BitWriter {
    /// The bits written so far.
    pub closed spec fn bits(&self) -> Seq<bool> {
        self.written@
    }

    /// The full bytes hold the first bits, the byte being filled the rest,
    /// and its unused low bits are zero.
    pub closed spec fn wf(&self) -> bool {
        &&& self.used < 8
        &&& self.bytes@.len() * 8 + self.used == self.written@.len()
        &&& forall|i: int|
            0 <= i < self.bytes@.len() * 8 ==> #[trigger] bit_at(self.bytes@, i)
                == self.written@[i]
        &&& forall|j: u8|
            j < 8 ==> #[trigger] bit_of(self.current, j) == (j < self.used
                && self.written@[self.bytes@.len() * 8 + j])
    }

    /// A writer with no bits.
    pub fn new() -> (r: BitWriter)
        ensures
            r.wf(),
            r.bits() == Seq::<bool>::empty(),
    {
        let r = BitWriter { bytes: Vec::new(), current: 0, used: 0, written: Ghost(Seq::empty()) };
        assert forall|j: u8| j < 8 implies #[trigger] bit_of(r.current, j) == (j < r.used
            && r.written@[r.bytes@.len() * 8 + j]) by {
            lemma_zero_bits(j);
        }
        r
    }

    /// Appends one bit.
    pub fn push_bit(&mut self, bit: bool)
        requires
            old(self).wf(),
        ensures
            final(self).wf(),
            final(self).bits() == old(self).bits().push(bit),
    {
        let ghost w = self.written@.push(bit);
        let ghost n0 = self.bytes@.len();
        let ghost c0 = self.current;
        let u = self.used;
        if bit {
            self.current = self.current | (0x80u8 >> u);
        }
        proof {
            assert forall|j: u8| j < 8 implies #[trigger] bit_of(self.current, j) == (j < u + 1
                && w[n0 * 8 + j]) by {
                lemma_set_bit(c0, u, j);
                if j < u {
                    assert(w[n0 * 8 + j] == old(self).written@[n0 * 8 + j]);
                }
            }
        }
        self.written = Ghost(w);
        if u == 7 {
            let c = self.current;
            self.bytes.push(c);
            self.current = 0;
            self.used = 0;
            proof {
                assert forall|i: int| 0 <= i < self.bytes@.len() * 8 implies #[trigger] bit_at(
                    self.bytes@,
                    i,
                ) == self.written@[i] by {
                    if i < n0 * 8 {
                        assert(bit_at(old(self).bytes@, i) == old(self).written@[i]);
                        assert(self.bytes@[i / 8] == old(self).bytes@[i / 8]);
                    } else {
                        let j = (i - n0 * 8) as u8;
                        assert(i / 8 == n0 && i % 8 == j);
                    }
                }
                assert forall|j: u8| j < 8 implies #[trigger] bit_of(self.current, j) == (j
                    < self.used && self.written@[self.bytes@.len() * 8 + j]) by {
                    lemma_zero_bits(j);
                }
            }
        } else {
            self.used = u + 1;
        }
    }

    /// Appends a sequence of bits.
    pub fn extend(&mut self, bits: &Vec<bool>)
        requires
            old(self).wf(),
        ensures
            final(self).wf(),
            final(self).bits() == old(self).bits() + bits@,
    {
        let mut i: usize = 0;
        while i < bits.len()
            invariant
                i <= bits@.len(),
                self.wf(),
                self.bits() == old(self).bits() + bits@.subrange(0, i as int),
            decreases bits@.len() - i,
        {
            self.push_bit(bits[i]);
            i = i + 1;
            assert(self.bits() =~= old(self).bits() + bits@.subrange(0, i as int));
        }
        assert(bits@.subrange(0, bits@.len() as int) =~= bits@);
    }

    /// The packed bytes: the payload, the last partial byte (zero-padded),
    /// and a final byte with the number of bits used in that partial byte.
    pub fn collect(self) -> (r: Vec<u8>)
        requires
            self.wf(),
        ensures
            packs(r@, self.bits()),
    {
        let ghost w = self.written@;
        let ghost n0 = self.bytes@.len();
        let mut bytes = self.bytes;
        bytes.push(self.current);
        bytes.push(self.used);
        proof {
            assert(w.len() / 8 == n0 && w.len() % 8 == self.used);
            assert forall|i: int| 0 <= i < (bytes@.len() - 1) * 8 implies #[trigger] bit_at(
                bytes@,
                i,
            ) == (i < w.len() && w[i]) by {
                if i < n0 * 8 {
                    assert(bytes@[i / 8] == self.bytes@[i / 8]);
                    assert(bit_at(self.bytes@, i) == w[i]);
                } else {
                    let j = (i - n0 * 8) as u8;
                    assert(i / 8 == n0 && i % 8 == j);
                    assert(bit_of(self.current, j) == (j < self.used && w[n0 * 8 + j]));
                }
            }
        }
        bytes
    }
}

} // verus!
