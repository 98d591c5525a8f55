use vstd::prelude::*;
use vstd::arithmetic::power2::{pow2, lemma2_to64, lemma_pow2_adds, lemma_pow2_strictly_increases};
use vstd::bits::lemma_u64_shl_is_mul;

verus! {

/// Whether bit `j` (least significant first) of a byte is set.
pub open spec fn bit_of(b: u8, j: int) -> bool {
    b >> (j as u8) & 1 == 1
}

/// The value of a bit run read least-significant-bit first.
pub open spec fn bits_value(bs: Seq<bool>) -> nat
    decreases bs,
{
    if bs.len() == 0 {
        0
    } else {
        (if bs[0] {
            1nat
        } else {
            0nat
        }) + 2 * bits_value(bs.skip(1))
    }
}

/// Reads a byte run bit by bit, least significant bit of each byte
/// first.
pub struct BitReader {
    data: Vec<u8>,
    byte_pos: usize,
    bit_index: usize,
}

impl BitReader {
    /// The reader has not stepped outside its data.
    pub closed spec fn wf(&self) -> bool {
        self.byte_pos <= self.data@.len() && self.bit_index < 8 && (self.byte_pos
            == self.data@.len() ==> self.bit_index == 0)
    }

    /// How many bytes the remaining bits touch.
    pub closed spec fn spec_byte_size(&self) -> int {
        self.data@.len() - self.byte_pos
    }

    /// The bits still in front of the reader.
    pub closed spec fn spec_bits(&self) -> Seq<bool> {
        Seq::new(
            ((self.data@.len() - self.byte_pos) * 8 - self.bit_index) as nat,
            |k: int| bit_of(
                self.data@[self.byte_pos + (self.bit_index + k) / 8],
                (self.bit_index + k) % 8,
            ),
        )
    }

    /// A reader over the given bytes, positioned at the first bit.
    pub fn new(data: Vec<u8>) -> (r: BitReader)
        ensures
            r.wf(),
            r.spec_byte_size() == data@.len(),
            r.spec_bits().len() == data@.len() * 8,
            forall|k: int|
                0 <= k < data@.len() * 8 ==> r.spec_bits()[k] == bit_of(data@[k / 8], k % 8),
    {
        let r = BitReader { data, byte_pos: 0, bit_index: 0 };
        proof {
            assert forall|k: int| 0 <= k < r.data@.len() * 8 implies r.spec_bits()[k] == bit_of(
                r.data@[k / 8],
                k % 8,
            ) by {
                assert(r.spec_bits()[k] == bit_of(r.data@[(0 + k) / 8], (0 + k) % 8));
            }
        }
        r
    }

    /// How many bits are left.
    pub fn bit_size(&self) -> (r: usize)
        requires
            self.wf(),
            self.spec_byte_size() * 8 <= usize::MAX,
        ensures
            r == self.spec_bits().len(),
    {
        (self.data.len() - self.byte_pos) * 8 - self.bit_index
    }

    /// How many bytes the remaining bits touch.
    pub fn byte_size(&self) -> (r: usize)
        requires
            self.wf(),
        ensures
            r == self.spec_byte_size(),
    {
        self.data.len() - self.byte_pos
    }

    /// The next bit, as `0` or `1`, consuming it.
    pub fn get_bit(&mut self) -> (r: Option<u8>)
        requires
            old(self).wf(),
        ensures
            final(self).wf(),
            old(self).spec_bits().len() > 0 ==> r == Some(
                if old(self).spec_bits()[0] {
                    1u8
                } else {
                    0u8
                },
            ) && final(self).spec_bits() == old(self).spec_bits().skip(1),
            old(self).spec_bits().len() == 0 ==> r is None && *final(self) == *old(self),
    {
        if self.byte_pos >= self.data.len() {
            return None;
        }
        let byte = self.data[self.byte_pos];
        let sh = self.bit_index as u8;
        let bit = (byte >> sh) & 1;
        proof {
            assert((byte >> sh) & 1 == 1 || (byte >> sh) & 1 == 0) by (bit_vector);
            assert(old(self).spec_bits()[0] == bit_of(byte, self.bit_index as int));
        }
        self.bit_index = self.bit_index + 1;
        if self.bit_index == 8 {
            self.bit_index = 0;
            self.byte_pos = self.byte_pos + 1;
        }
        proof {
            assert(self.spec_bits() =~= old(self).spec_bits().skip(1)) by {
                assert(forall|k: int|
                    0 <= k < self.spec_bits().len() ==> #[trigger] self.spec_bits()[k] == old(
                        self,
                    ).spec_bits()[k + 1]);
            }
        }
        Some(bit)
    }

    /// Reads `bits` bits into a 64-bit value, least significant first.
    /// When the data runs out first, the read fails and what was
    /// consumed stays consumed.
    #[verifier::loop_isolation(false)]
    fn get_bits_unchecked(&mut self, bits: u8) -> (r: Option<u64>)
        requires
            old(self).wf(),
            bits <= 64,
        ensures
            final(self).wf(),
            bits <= old(self).spec_bits().len() ==> r == Some(
                bits_value(old(self).spec_bits().take(bits as int)) as u64,
            ) && final(self).spec_bits() == old(self).spec_bits().skip(bits as int),
            bits > old(self).spec_bits().len() ==> r is None,
    {
        let ghost bs = self.spec_bits();
        let mut result: u64 = 0;
        let mut read: u8 = 0;
        proof {
            assert(bs.take(0) =~= Seq::<bool>::empty());
            assert(bs.skip(0) =~= bs);
        }
        while read < bits
            invariant
                read <= bits <= 64,
                self.wf(),
                read <= bs.len(),
                self.spec_bits() == bs.skip(read as int),
                result == bits_value(bs.take(read as int)),
            decreases bits - read,
        {
            proof {
                assert(bs.skip(read as int).len() == bs.len() - read);
            }
            let b = match self.get_bit() {
                Some(b) => b,
                None => {
                    proof {
                        assert(bs.skip(read as int).len() == 0);
                        assert(read == bs.len());
                        assert(bits > bs.len());
                    }
                    return None;
                },
            };
            proof {
                assert(bs.skip(read as int).skip(1) =~= bs.skip(read as int + 1));
                assert(bs.skip(read as int)[0] == bs[read as int]);
                assert(bs.take(read as int).push(bs[read as int]) =~= bs.take(read as int + 1));
                lemma_bits_value_push(bs.take(read as int), bs[read as int]);
                lemma_bits_value_bound(bs.take(read as int));
                lemma2_to64();
                lemma_pow2_strictly_increases(read as nat, 64);
                lemma_u64_shl_is_mul(1u64, read as u64);
                lemma_pow2_adds(1, read as nat);
                if read + 1 < 64 {
                    lemma_pow2_strictly_increases((read + 1) as nat, 64);
                }
                assert(result + (1u64 << read) < pow2((read + 1) as nat));
                assert(pow2((read + 1) as nat) <= pow2(64));
            }
            if b == 1 {
                result = result + (1u64 << read);
            }
            read = read + 1;
        }
        proof {
            assert(bs.take(bits as int) == bs.take(read as int));
            lemma_bits_value_bound(bs.take(bits as int));
            lemma2_to64();
            if (bits as nat) < 64 {
                lemma_pow2_strictly_increases(bits as nat, 64);
            }
        }
        Some(result)
    }

    /// Reads up to 8 bits as a byte.
    pub fn get_bits_u8(&mut self, bits: u8) -> (r: Option<u8>)
        requires
            old(self).wf(),
        ensures
            final(self).wf(),
            bits > 8 ==> r is None,
            bits <= 8 && bits <= old(self).spec_bits().len() ==> r == Some(
                bits_value(old(self).spec_bits().take(bits as int)) as u8,
            ) && final(self).spec_bits() == old(self).spec_bits().skip(bits as int),
            bits <= 8 && bits > old(self).spec_bits().len() ==> r is None,
    {
        if bits > 8 {
            return None;
        }
        proof {
            if bits <= old(self).spec_bits().len() {
                lemma_bits_value_bound(old(self).spec_bits().take(bits as int));
                lemma2_to64();
                if (bits as nat) < 8 {
                    lemma_pow2_strictly_increases(bits as nat, 8);
                }
            }
        }
        match self.get_bits_unchecked(bits) {
            Some(v) => Some(v as u8),
            None => None,
        }
    }

    /// Reads up to 16 bits.
    pub fn get_bits_u16(&mut self, bits: u8) -> (r: Option<u16>)
        requires
            old(self).wf(),
        ensures
            final(self).wf(),
            bits > 16 ==> r is None,
            bits <= 16 && bits <= old(self).spec_bits().len() ==> r == Some(
                bits_value(old(self).spec_bits().take(bits as int)) as u16,
            ) && final(self).spec_bits() == old(self).spec_bits().skip(bits as int),
            bits <= 16 && bits > old(self).spec_bits().len() ==> r is None,
    {
        if bits > 16 {
            return None;
        }
        proof {
            if bits <= old(self).spec_bits().len() {
                lemma_bits_value_bound(old(self).spec_bits().take(bits as int));
                lemma2_to64();
                if (bits as nat) < 16 {
                    lemma_pow2_strictly_increases(bits as nat, 16);
                }
            }
        }
        match self.get_bits_unchecked(bits) {
            Some(v) => Some(v as u16),
            None => None,
        }
    }

    /// Reads up to 32 bits.
    pub fn get_bits_u32(&mut self, bits: u8) -> (r: Option<u32>)
        requires
            old(self).wf(),
        ensures
            final(self).wf(),
            bits > 32 ==> r is None,
            bits <= 32 && bits <= old(self).spec_bits().len() ==> r == Some(
                bits_value(old(self).spec_bits().take(bits as int)) as u32,
            ) && final(self).spec_bits() == old(self).spec_bits().skip(bits as int),
            bits <= 32 && bits > old(self).spec_bits().len() ==> r is None,
    {
        if bits > 32 {
            return None;
        }
        proof {
            if bits <= old(self).spec_bits().len() {
                lemma_bits_value_bound(old(self).spec_bits().take(bits as int));
                lemma2_to64();
                if (bits as nat) < 32 {
                    lemma_pow2_strictly_increases(bits as nat, 32);
                }
            }
        }
        match self.get_bits_unchecked(bits) {
            Some(v) => Some(v as u32),
            None => None,
        }
    }

    /// Reads up to 64 bits.
    pub fn get_bits_u64(&mut self, bits: u8) -> (r: Option<u64>)
        requires
            old(self).wf(),
        ensures
            final(self).wf(),
            bits > 64 ==> r is None,
            bits <= 64 && bits <= old(self).spec_bits().len() ==> r == Some(
                bits_value(old(self).spec_bits().take(bits as int)) as u64,
            ) && final(self).spec_bits() == old(self).spec_bits().skip(bits as int),
            bits <= 64 && bits > old(self).spec_bits().len() ==> r is None,
    {
        if bits > 64 {
            return None;
        }
        self.get_bits_unchecked(bits)
    }

    /// Reads up to 8 bits, reinterpreted as a signed byte.
    pub fn get_bits_i8(&mut self, bits: u8) -> (r: Option<i8>)
        requires
            old(self).wf(),
        ensures
            final(self).wf(),
            bits > 8 ==> r is None,
            bits <= 8 && bits <= old(self).spec_bits().len() ==> r == Some(
                bits_value(old(self).spec_bits().take(bits as int)) as i8,
            ) && final(self).spec_bits() == old(self).spec_bits().skip(bits as int),
            bits <= 8 && bits > old(self).spec_bits().len() ==> r is None,
    {
        proof {
            if bits <= 8 && bits <= old(self).spec_bits().len() {
                lemma_bits_value_bound(old(self).spec_bits().take(bits as int));
                lemma2_to64();
                if (bits as nat) < 8 {
                    lemma_pow2_strictly_increases(bits as nat, 8);
                }
                let v = bits_value(old(self).spec_bits().take(bits as int)) as u64;
                assert(v < 256 ==> v as u8 as i8 == v as i8) by (bit_vector);
            }
        }
        match self.get_bits_u8(bits) {
            Some(v) => Some(v as i8),
            None => None,
        }
    }

    /// Reads up to 16 bits, reinterpreted as signed.
    pub fn get_bits_i16(&mut self, bits: u8) -> (r: Option<i16>)
        requires
            old(self).wf(),
        ensures
            final(self).wf(),
            bits > 16 ==> r is None,
            bits <= 16 && bits <= old(self).spec_bits().len() ==> r == Some(
                bits_value(old(self).spec_bits().take(bits as int)) as i16,
            ) && final(self).spec_bits() == old(self).spec_bits().skip(bits as int),
            bits <= 16 && bits > old(self).spec_bits().len() ==> r is None,
    {
        proof {
            if bits <= 16 && bits <= old(self).spec_bits().len() {
                lemma_bits_value_bound(old(self).spec_bits().take(bits as int));
                lemma2_to64();
                if (bits as nat) < 16 {
                    lemma_pow2_strictly_increases(bits as nat, 16);
                }
                let v = bits_value(old(self).spec_bits().take(bits as int)) as u64;
                assert(v < 0x1_0000 ==> v as u16 as i16 == v as i16) by (bit_vector);
            }
        }
        match self.get_bits_u16(bits) {
            Some(v) => Some(v as i16),
            None => None,
        }
    }

    /// Reads up to 32 bits, reinterpreted as signed.
    pub fn get_bits_i32(&mut self, bits: u8) -> (r: Option<i32>)
        requires
            old(self).wf(),
        ensures
            final(self).wf(),
            bits > 32 ==> r is None,
            bits <= 32 && bits <= old(self).spec_bits().len() ==> r == Some(
                bits_value(old(self).spec_bits().take(bits as int)) as i32,
            ) && final(self).spec_bits() == old(self).spec_bits().skip(bits as int),
            bits <= 32 && bits > old(self).spec_bits().len() ==> r is None,
    {
        proof {
            if bits <= 32 && bits <= old(self).spec_bits().len() {
                lemma_bits_value_bound(old(self).spec_bits().take(bits as int));
                lemma2_to64();
                if (bits as nat) < 32 {
                    lemma_pow2_strictly_increases(bits as nat, 32);
                }
                let v = bits_value(old(self).spec_bits().take(bits as int)) as u64;
                assert(v < 0x1_0000_0000 ==> v as u32 as i32 == v as i32) by (bit_vector);
            }
        }
        match self.get_bits_u32(bits) {
            Some(v) => Some(v as i32),
            None => None,
        }
    }

    /// Reads up to 64 bits, reinterpreted as signed.
    pub fn get_bits_i64(&mut self, bits: u8) -> (r: Option<i64>)
        requires
            old(self).wf(),
        ensures
            final(self).wf(),
            bits > 64 ==> r is None,
            bits <= 64 && bits <= old(self).spec_bits().len() ==> r == Some(
                (bits_value(old(self).spec_bits().take(bits as int)) as u64) as i64,
            ) && final(self).spec_bits() == old(self).spec_bits().skip(bits as int),
            bits <= 64 && bits > old(self).spec_bits().len() ==> r is None,
    {
        match self.get_bits_u64(bits) {
            Some(v) => Some(v as i64),
            None => None,
        }
    }
}

/// A bit run's value is below two to its length.
pub proof fn lemma_bits_value_bound(bs: Seq<bool>)
    ensures
        bits_value(bs) < pow2(bs.len()),
    decreases bs,
{
    lemma2_to64();
    if bs.len() > 0 {
        lemma_bits_value_bound(bs.skip(1));
        lemma_pow2_adds(1, (bs.len() - 1) as nat);
    }
}

/// Appending one bit adds its weighted value.
pub proof fn lemma_bits_value_push(s: Seq<bool>, b: bool)
    ensures
        bits_value(s.push(b)) == bits_value(s) + (if b {
            pow2(s.len())
        } else {
            0nat
        }),
    decreases s,
{
    lemma2_to64();
    assert(bits_value(s.push(b)) == (if s.push(b)[0] {
        1nat
    } else {
        0nat
    }) + 2 * bits_value(s.push(b).skip(1)));
    if s.len() == 0 {
        assert(s.push(b).skip(1) =~= Seq::<bool>::empty());
        assert(s.push(b)[0] == b);
        assert(bits_value(Seq::<bool>::empty()) == 0);
    } else {
        assert(s.push(b).skip(1) =~= s.skip(1).push(b));
        assert(s.push(b)[0] == s[0]);
        lemma_bits_value_push(s.skip(1), b);
        lemma_pow2_adds(1, (s.len() - 1) as nat);
    }
}

} // verus!
