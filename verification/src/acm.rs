use vstd::prelude::*;

verus! {

/// What can go wrong while decoding or writing audio.
#[derive(Debug, Clone, Copy, PartialEq, Eq, Structural)]
pub enum AcmError {
    StreamError,
    SigError,
    BitError,
    FillError,
    CorruptBlock,
    WriteError,
}

impl AcmError {
    /// A human-readable description of the error.
    pub fn message(&self) -> (r: &'static str)
        ensures
            *self is StreamError ==> r@ == "Error reading from stream"@,
            *self is SigError ==> r@ == "Invalid file signature"@,
            *self is BitError ==> r@ == "Error reading bits"@,
            *self is FillError ==> r@ == "Error filling block"@,
            *self is CorruptBlock ==> r@ == "Acm block may be corrupt"@,
            *self is WriteError ==> r@ == "Failed to write data"@,
    {
        match self {
            AcmError::StreamError => "Error reading from stream",
            AcmError::SigError => "Invalid file signature",
            AcmError::BitError => "Error reading bits",
            AcmError::FillError => "Error filling block",
            AcmError::CorruptBlock => "Acm block may be corrupt",
            AcmError::WriteError => "Failed to write data",
        }
    }
}

/// A decoded audio clip: channel count, sample rate, and its samples.
#[derive(Debug, Default)]
pub struct Acm {
    pub channels: u32,
    pub sample_rate: u32,
    pub samples: Vec<i16>,
}

/// The two little-endian bytes of a 16-bit value.
pub open spec fn le2(v: u16) -> Seq<u8> {
    seq![(v % 256) as u8, (v / 256) as u8]
}

/// The four little-endian bytes of a 32-bit value.
pub open spec fn le4(v: u32) -> Seq<u8> {
    seq![
        (v % 256) as u8,
        ((v / 256) % 256) as u8,
        ((v / 0x1_0000) % 256) as u8,
        ((v / 0x100_0000) % 256) as u8,
    ]
}

/// Appends the two little-endian bytes of a 16-bit value.
fn push_le2(out: &mut Vec<u8>, v: u16)
    ensures
        final(out)@ == old(out)@ + le2(v),
{
    out.push((v % 256) as u8);
    out.push((v / 256) as u8);
    proof {
        assert(final(out)@ =~= old(out)@ + le2(v));
    }
}

/// Appends the four little-endian bytes of a 32-bit value.
fn push_le4(out: &mut Vec<u8>, v: u32)
    ensures
        final(out)@ == old(out)@ + le4(v),
{
    out.push((v % 256) as u8);
    out.push(((v / 256) % 256) as u8);
    out.push(((v / 0x1_0000) % 256) as u8);
    out.push(((v / 0x100_0000) % 256) as u8);
    proof {
        assert(final(out)@ =~= old(out)@ + le4(v));
    }
}

/// A RIFF WAVE header for 16-bit PCM samples.
#[verifier::ext_equal]
#[derive(Debug, Clone, Copy)]
pub struct WavHeader {
    pub riff: [u8; 4],
    pub size: u32,
    pub wave: [u8; 4],
    pub fmt: [u8; 4],
    pub wave_size: u32,
    pub wave_type: u16,
    pub channels: u16,
    pub sample_rate: u32,
    pub bytes_per_sec: u32,
    pub alignment: u16,
    pub bits_per_sample: u16,
    pub data_header: [u8; 4],
    pub data_size: u32,
}

/// The exact 44 bytes a header writes, field by field, little endian.
pub open spec fn wav_header_bytes(h: WavHeader) -> Seq<u8> {
    h.riff@ + le4(h.size) + h.wave@ + h.fmt@ + le4(h.wave_size) + le2(h.wave_type) + le2(h.channels)
        + le4(h.sample_rate) + le4(h.bytes_per_sec) + le2(h.alignment) + le2(h.bits_per_sample)
        + h.data_header@ + le4(h.data_size)
}

/// The little-endian bytes of a sample run.
pub open spec fn samples_bytes(s: Seq<i16>) -> Seq<u8> {
    samples_suffix(s, 0)
}

impl WavHeader {
    /// The header for a clip: sixteen bits per sample, PCM, with the
    /// clip's channel count and rate.
    pub fn new(acm: &Acm) -> (r: WavHeader)
        requires
            acm.samples@.len() * 2 + 36 <= u32::MAX,
            acm.channels <= u16::MAX,
            acm.channels * 128 <= u16::MAX,
            acm.sample_rate * acm.channels * 2 <= u32::MAX,
        ensures
            r.riff@ == seq![0x52u8, 0x49u8, 0x46u8, 0x46u8],
            r.size == acm.samples@.len() * 2 + 36,
            r.wave@ == seq![0x57u8, 0x41u8, 0x56u8, 0x45u8],
            r.fmt@ == seq![0x66u8, 0x6Du8, 0x74u8, 0x20u8],
            r.wave_size == 16,
            r.wave_type == 1,
            r.channels == acm.channels,
            r.sample_rate == acm.sample_rate,
            r.bytes_per_sec == acm.sample_rate * acm.channels * 2,
            r.alignment == acm.channels * 128,
            r.bits_per_sample == 16,
            r.data_header@ == seq![0x64u8, 0x61u8, 0x74u8, 0x61u8],
            r.data_size == acm.samples@.len() * 2,
    {
        let data_size = (acm.samples.len() as u32) * 2;
        let r = WavHeader {
            riff: [0x52, 0x49, 0x46, 0x46],
            size: data_size + 36,
            wave: [0x57, 0x41, 0x56, 0x45],
            fmt: [0x66, 0x6D, 0x74, 0x20],
            wave_size: 16,
            wave_type: 1,
            channels: acm.channels as u16,
            sample_rate: acm.sample_rate,
            bytes_per_sec: acm.sample_rate * acm.channels * 2,
            alignment: (acm.channels as u16) * 128,
            bits_per_sample: 16,
            data_header: [0x64, 0x61, 0x74, 0x61],
            data_size,
        };
        proof {
            assert(r.riff@ =~= seq![0x52u8, 0x49u8, 0x46u8, 0x46u8]);
            assert(r.wave@ =~= seq![0x57u8, 0x41u8, 0x56u8, 0x45u8]);
            assert(r.fmt@ =~= seq![0x66u8, 0x6Du8, 0x74u8, 0x20u8]);
            assert(r.data_header@ =~= seq![0x64u8, 0x61u8, 0x74u8, 0x61u8]);
        }
        r
    }

    /// The header, serialized: every field in order, little endian.
    pub fn write(&self) -> (r: Result<Vec<u8>, AcmError>)
        ensures
            r matches Ok(v) && v@ == wav_header_bytes(*self),
    {
        let mut out: Vec<u8> = Vec::new();
        out.push(self.riff[0]);
        out.push(self.riff[1]);
        out.push(self.riff[2]);
        out.push(self.riff[3]);
        push_le4(&mut out, self.size);
        out.push(self.wave[0]);
        out.push(self.wave[1]);
        out.push(self.wave[2]);
        out.push(self.wave[3]);
        out.push(self.fmt[0]);
        out.push(self.fmt[1]);
        out.push(self.fmt[2]);
        out.push(self.fmt[3]);
        push_le4(&mut out, self.wave_size);
        push_le2(&mut out, self.wave_type);
        push_le2(&mut out, self.channels);
        push_le4(&mut out, self.sample_rate);
        push_le4(&mut out, self.bytes_per_sec);
        push_le2(&mut out, self.alignment);
        push_le2(&mut out, self.bits_per_sample);
        out.push(self.data_header[0]);
        out.push(self.data_header[1]);
        out.push(self.data_header[2]);
        out.push(self.data_header[3]);
        push_le4(&mut out, self.data_size);
        proof {
            assert(out@ =~= wav_header_bytes(*self));
        }
        Ok(out)
    }
}

impl Acm {
    /// The clip as a WAVE file: the header, then every sample in order,
    /// little endian.
    pub fn write_to_wav(&self) -> (r: Result<Vec<u8>, AcmError>)
        requires
            self.samples@.len() * 2 + 36 <= u32::MAX,
            self.channels <= u16::MAX,
            self.channels * 128 <= u16::MAX,
            self.sample_rate * self.channels * 2 <= u32::MAX,
        ensures
            r matches Ok(v) && v@ == wav_header_bytes(WavHeader::new_spec(self)) + samples_bytes(
                self.samples@,
            ),
    {
        let header = WavHeader::new(self);
        proof {
            assert(header.riff@ =~= WavHeader::new_spec(self).riff@);
            assert(header.wave@ =~= WavHeader::new_spec(self).wave@);
            assert(header.fmt@ =~= WavHeader::new_spec(self).fmt@);
            assert(header.data_header@ =~= WavHeader::new_spec(self).data_header@);
            assert(header =~= WavHeader::new_spec(self));
        }
        let mut out = match header.write() {
            Ok(v) => v,
            Err(e) => {
                return Err(e);
            },
        };
        let ghost head = out@;
        let n = self.samples.len();
        let mut i: usize = 0;
        proof {
            assert(samples_suffix(self.samples@, 0) == samples_bytes(self.samples@));
        }
        #[verifier::loop_isolation(false)]
        while i < n
            invariant
                i <= n == self.samples@.len(),
                out@ + samples_suffix(self.samples@, i as int) == head + samples_bytes(
                    self.samples@,
                ),
            decreases n - i,
        {
            let ghost o0 = out@;
            let v = self.samples[i] as u16;
            push_le2(&mut out, v);
            i = i + 1;
            proof {
                assert(samples_suffix(self.samples@, i - 1) == le2(self.samples@[i - 1] as u16)
                    + samples_suffix(self.samples@, i as int));
                assert(out@ + samples_suffix(self.samples@, i as int) =~= o0 + samples_suffix(
                    self.samples@,
                    i - 1,
                ));
            }
        }
        proof {
            assert(samples_suffix(self.samples@, n as int) =~= Seq::<u8>::empty());
            assert(out@ + Seq::<u8>::empty() =~= out@);
        }
        Ok(out)
    }
}

impl WavHeader {
    /// The header `new` builds, as a value.
    pub open spec fn new_spec(acm: &Acm) -> WavHeader {
        WavHeader {
            riff: [0x52u8, 0x49u8, 0x46u8, 0x46u8],
            size: (acm.samples@.len() * 2 + 36) as u32,
            wave: [0x57u8, 0x41u8, 0x56u8, 0x45u8],
            fmt: [0x66u8, 0x6Du8, 0x74u8, 0x20u8],
            wave_size: 16u32,
            wave_type: 1u16,
            channels: acm.channels as u16,
            sample_rate: acm.sample_rate,
            bytes_per_sec: (acm.sample_rate * acm.channels * 2) as u32,
            alignment: (acm.channels * 128) as u16,
            bits_per_sample: 16u16,
            data_header: [0x64u8, 0x61u8, 0x74u8, 0x61u8],
            data_size: (acm.samples@.len() * 2) as u32,
        }
    }
}

/// The sample bytes from `i` on.
pub open spec fn samples_suffix(s: Seq<i16>, i: int) -> Seq<u8>
    decreases s.len() - i,
{
    if i < 0 || i >= s.len() {
        Seq::empty()
    } else {
        le2(s[i] as u16) + samples_suffix(s, i + 1)
    }
}

} // verus!
