use vstd::prelude::*;
use crate::bytes::{be_u16_at, be_u32_at, le_u16_at, le_u32_at};

verus! {

/// Which byte order a read uses. The native order is taken to be the
/// little-endian one of the machines this targets.
#[derive(Debug, Clone, Copy)]
pub enum ReadMode {
    BE,
    LE,
    NE,
}

/// A value that can be read from `N` raw bytes in either byte order.
pub trait FromBytes<const N: usize>: Sized {
    /// What the big-endian reading of the bytes is.
    spec fn spec_be(bytes: Seq<u8>) -> Self;

    /// What the little-endian reading of the bytes is.
    spec fn spec_le(bytes: Seq<u8>) -> Self;

    fn from_bytes_be(bytes: &[u8]) -> (r: Self)
        requires
            bytes@.len() == N,
        ensures
            r == Self::spec_be(bytes@),
    ;

    fn from_bytes_le(bytes: &[u8]) -> (r: Self)
        requires
            bytes@.len() == N,
        ensures
            r == Self::spec_le(bytes@),
    ;

    fn from_bytes_ne(bytes: &[u8]) -> (r: Self)
        requires
            bytes@.len() == N,
        ensures
            r == Self::spec_le(bytes@),
    ;
}

impl FromBytes<1> for u8 {
    open spec fn spec_be(bytes: Seq<u8>) -> u8 {
        bytes[0]
    }

    open spec fn spec_le(bytes: Seq<u8>) -> u8 {
        bytes[0]
    }

    fn from_bytes_be(bytes: &[u8]) -> u8 {
        bytes[0]
    }

    fn from_bytes_le(bytes: &[u8]) -> u8 {
        bytes[0]
    }

    fn from_bytes_ne(bytes: &[u8]) -> u8 {
        bytes[0]
    }
}

impl FromBytes<1> for i8 {
    open spec fn spec_be(bytes: Seq<u8>) -> i8 {
        bytes[0] as i8
    }

    open spec fn spec_le(bytes: Seq<u8>) -> i8 {
        bytes[0] as i8
    }

    fn from_bytes_be(bytes: &[u8]) -> i8 {
        bytes[0] as i8
    }

    fn from_bytes_le(bytes: &[u8]) -> i8 {
        bytes[0] as i8
    }

    fn from_bytes_ne(bytes: &[u8]) -> i8 {
        bytes[0] as i8
    }
}

impl FromBytes<2> for u16 {
    open spec fn spec_be(bytes: Seq<u8>) -> u16 {
        be_u16_at(bytes, 0)
    }

    open spec fn spec_le(bytes: Seq<u8>) -> u16 {
        le_u16_at(bytes, 0)
    }

    fn from_bytes_be(bytes: &[u8]) -> u16 {
        (bytes[0] as u16) * 0x100 + (bytes[1] as u16)
    }

    fn from_bytes_le(bytes: &[u8]) -> u16 {
        (bytes[1] as u16) * 0x100 + (bytes[0] as u16)
    }

    fn from_bytes_ne(bytes: &[u8]) -> u16 {
        (bytes[1] as u16) * 0x100 + (bytes[0] as u16)
    }
}

impl FromBytes<2> for i16 {
    open spec fn spec_be(bytes: Seq<u8>) -> i16 {
        be_u16_at(bytes, 0) as i16
    }

    open spec fn spec_le(bytes: Seq<u8>) -> i16 {
        le_u16_at(bytes, 0) as i16
    }

    fn from_bytes_be(bytes: &[u8]) -> i16 {
        ((bytes[0] as u16) * 0x100 + (bytes[1] as u16)) as i16
    }

    fn from_bytes_le(bytes: &[u8]) -> i16 {
        ((bytes[1] as u16) * 0x100 + (bytes[0] as u16)) as i16
    }

    fn from_bytes_ne(bytes: &[u8]) -> i16 {
        ((bytes[1] as u16) * 0x100 + (bytes[0] as u16)) as i16
    }
}

impl FromBytes<4> for u32 {
    open spec fn spec_be(bytes: Seq<u8>) -> u32 {
        be_u32_at(bytes, 0)
    }

    open spec fn spec_le(bytes: Seq<u8>) -> u32 {
        le_u32_at(bytes, 0)
    }

    fn from_bytes_be(bytes: &[u8]) -> u32 {
        (bytes[0] as u32) * 0x100_0000 + (bytes[1] as u32) * 0x1_0000 + (bytes[2] as u32) * 0x100
            + (bytes[3] as u32)
    }

    fn from_bytes_le(bytes: &[u8]) -> u32 {
        (bytes[3] as u32) * 0x100_0000 + (bytes[2] as u32) * 0x1_0000 + (bytes[1] as u32) * 0x100
            + (bytes[0] as u32)
    }

    fn from_bytes_ne(bytes: &[u8]) -> u32 {
        (bytes[3] as u32) * 0x100_0000 + (bytes[2] as u32) * 0x1_0000 + (bytes[1] as u32) * 0x100
            + (bytes[0] as u32)
    }
}

impl FromBytes<4> for i32 {
    open spec fn spec_be(bytes: Seq<u8>) -> i32 {
        be_u32_at(bytes, 0) as i32
    }

    open spec fn spec_le(bytes: Seq<u8>) -> i32 {
        le_u32_at(bytes, 0) as i32
    }

    fn from_bytes_be(bytes: &[u8]) -> i32 {
        ((bytes[0] as u32) * 0x100_0000 + (bytes[1] as u32) * 0x1_0000 + (bytes[2] as u32) * 0x100
            + (bytes[3] as u32)) as i32
    }

    fn from_bytes_le(bytes: &[u8]) -> i32 {
        ((bytes[3] as u32) * 0x100_0000 + (bytes[2] as u32) * 0x1_0000 + (bytes[1] as u32) * 0x100
            + (bytes[0] as u32)) as i32
    }

    fn from_bytes_ne(bytes: &[u8]) -> i32 {
        ((bytes[3] as u32) * 0x100_0000 + (bytes[2] as u32) * 0x1_0000 + (bytes[1] as u32) * 0x100
            + (bytes[0] as u32)) as i32
    }
}

/// The big-endian reading of eight bytes.
pub open spec fn be_u64_at(s: Seq<u8>) -> u64 {
    (be_u32_at(s, 0) * 0x1_0000_0000 + be_u32_at(s, 4)) as u64
}

/// The little-endian reading of eight bytes.
pub open spec fn le_u64_at(s: Seq<u8>) -> u64 {
    (le_u32_at(s, 4) * 0x1_0000_0000 + le_u32_at(s, 0)) as u64
}

impl FromBytes<8> for u64 {
    open spec fn spec_be(bytes: Seq<u8>) -> u64 {
        be_u64_at(bytes)
    }

    open spec fn spec_le(bytes: Seq<u8>) -> u64 {
        le_u64_at(bytes)
    }

    fn from_bytes_be(bytes: &[u8]) -> (r: u64)
        ensures
            r == be_u64_at(bytes@),
    {
        let hi = (bytes[0] as u32) * 0x100_0000 + (bytes[1] as u32) * 0x1_0000 + (bytes[2] as u32)
            * 0x100 + (bytes[3] as u32);
        let lo = (bytes[4] as u32) * 0x100_0000 + (bytes[5] as u32) * 0x1_0000 + (bytes[6] as u32)
            * 0x100 + (bytes[7] as u32);
        (hi as u64) * 0x1_0000_0000 + (lo as u64)
    }

    fn from_bytes_le(bytes: &[u8]) -> (r: u64)
        ensures
            r == le_u64_at(bytes@),
    {
        let hi = (bytes[7] as u32) * 0x100_0000 + (bytes[6] as u32) * 0x1_0000 + (bytes[5] as u32)
            * 0x100 + (bytes[4] as u32);
        let lo = (bytes[3] as u32) * 0x100_0000 + (bytes[2] as u32) * 0x1_0000 + (bytes[1] as u32)
            * 0x100 + (bytes[0] as u32);
        (hi as u64) * 0x1_0000_0000 + (lo as u64)
    }

    fn from_bytes_ne(bytes: &[u8]) -> (r: u64)
        ensures
            r == le_u64_at(bytes@),
    {
        Self::from_bytes_le(bytes)
    }
}

impl FromBytes<8> for i64 {
    open spec fn spec_be(bytes: Seq<u8>) -> i64 {
        be_u64_at(bytes) as i64
    }

    open spec fn spec_le(bytes: Seq<u8>) -> i64 {
        le_u64_at(bytes) as i64
    }

    fn from_bytes_be(bytes: &[u8]) -> (r: i64)
        ensures
            r == be_u64_at(bytes@) as i64,
    {
        u64::from_bytes_be(bytes) as i64
    }

    fn from_bytes_le(bytes: &[u8]) -> (r: i64)
        ensures
            r == le_u64_at(bytes@) as i64,
    {
        u64::from_bytes_le(bytes) as i64
    }

    fn from_bytes_ne(bytes: &[u8]) -> (r: i64)
        ensures
            r == le_u64_at(bytes@) as i64,
    {
        u64::from_bytes_le(bytes) as i64
    }
}

impl FromBytes<1> for bool {
    open spec fn spec_be(bytes: Seq<u8>) -> bool {
        bytes[0] != 0
    }

    open spec fn spec_le(bytes: Seq<u8>) -> bool {
        bytes[0] != 0
    }

    fn from_bytes_be(bytes: &[u8]) -> bool {
        bytes[0] != 0
    }

    fn from_bytes_le(bytes: &[u8]) -> bool {
        bytes[0] != 0
    }

    fn from_bytes_ne(bytes: &[u8]) -> bool {
        bytes[0] != 0
    }
}

/// Reads one value from the front of a byte run, in the given byte
/// order; fails when fewer than `N` bytes are there.
pub fn read_type<R: FromBytes<N>, const N: usize>(read_mode: ReadMode, data: &[u8]) -> (r: Option<
    R,
>)
    ensures
        data@.len() >= N ==> (r matches Some(v) && v == (match read_mode {
            ReadMode::BE => R::spec_be(data@.take(N as int)),
            ReadMode::LE => R::spec_le(data@.take(N as int)),
            ReadMode::NE => R::spec_le(data@.take(N as int)),
        })),
        data@.len() < N ==> r is None,
{
    match read_bytes::<N>(data) {
        Some(head) => Some(
            match read_mode {
                ReadMode::BE => R::from_bytes_be(head.as_slice()),
                ReadMode::LE => R::from_bytes_le(head.as_slice()),
                ReadMode::NE => R::from_bytes_ne(head.as_slice()),
            },
        ),
        None => None,
    }
}

/// Copies the first `N` bytes of a byte run; fails when fewer are there.
pub fn read_bytes<const N: usize>(data: &[u8]) -> (r: Option<Vec<u8>>)
    ensures
        data@.len() >= N ==> (r matches Some(v) && v@ == data@.take(N as int)),
        data@.len() < N ==> r is None,
{
    if data.len() < N {
        return None;
    }
    let mut out: Vec<u8> = Vec::new();
    let mut i: usize = 0;
    while i < N
        invariant
            i <= N <= data@.len(),
            out@ == data@.take(i as int),
        decreases N - i,
    {
        out.push(data[i]);
        i = i + 1;
        proof {
            assert(out@ =~= data@.take(i as int));
        }
    }
    Some(out)
}

} // verus!
