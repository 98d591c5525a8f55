use vstd::prelude::*;

verus! {

/// Big-endian 16-bit value taken from `s` at byte offset `i`.
pub open spec fn be_u16_at(s: Seq<u8>, i: int) -> u16 {
    (s[i] * 0x100 + s[i + 1]) as u16
}

/// The same two bytes read as a signed big-endian 16-bit value.
pub open spec fn be_i16_at(s: Seq<u8>, i: int) -> i16 {
    be_u16_at(s, i) as i16
}

/// Big-endian 32-bit value taken from `s` at byte offset `i`.
pub open spec fn be_u32_at(s: Seq<u8>, i: int) -> u32 {
    (s[i] * 0x100_0000 + s[i + 1] * 0x1_0000 + s[i + 2] * 0x100 + s[i + 3]) as u32
}

/// The same four bytes read as a signed big-endian 32-bit value.
pub open spec fn be_i32_at(s: Seq<u8>, i: int) -> i32 {
    be_u32_at(s, i) as i32
}

/// Little-endian 32-bit value taken from `s` at byte offset `i`.
pub open spec fn le_u32_at(s: Seq<u8>, i: int) -> u32 {
    (s[i + 3] * 0x100_0000 + s[i + 2] * 0x1_0000 + s[i + 1] * 0x100 + s[i]) as u32
}

/// Little-endian 16-bit value taken from `s` at byte offset `i`.
pub open spec fn le_u16_at(s: Seq<u8>, i: int) -> u16 {
    (s[i + 1] * 0x100 + s[i]) as u16
}

/// Reads one byte, if it is in bounds.
pub fn read_u8(data: &Vec<u8>, pos: usize) -> (r: Option<u8>)
    ensures
        pos < data@.len() ==> r == Some(data@[pos as int]),
        pos >= data@.len() ==> r is None,
{
    if pos < data.len() {
        Some(data[pos])
    } else {
        None
    }
}

/// Reads a big-endian 16-bit value, if all two bytes are in bounds.
pub fn read_be_u16(data: &Vec<u8>, pos: usize) -> (r: Option<u16>)
    ensures
        pos + 2 <= data@.len() ==> r == Some(be_u16_at(data@, pos as int)),
        pos + 2 > data@.len() ==> r is None,
{
    if pos < data.len() && data.len() - pos >= 2 {
        Some((data[pos] as u16) * 0x100 + (data[pos + 1] as u16))
    } else {
        None
    }
}

/// Reads a signed big-endian 16-bit value, if all two bytes are in bounds.
pub fn read_be_i16(data: &Vec<u8>, pos: usize) -> (r: Option<i16>)
    ensures
        pos + 2 <= data@.len() ==> r == Some(be_i16_at(data@, pos as int)),
        pos + 2 > data@.len() ==> r is None,
{
    match read_be_u16(data, pos) {
        Some(v) => Some(v as i16),
        None => None,
    }
}

/// Reads a big-endian 32-bit value, if all four bytes are in bounds.
pub fn read_be_u32(data: &Vec<u8>, pos: usize) -> (r: Option<u32>)
    ensures
        pos + 4 <= data@.len() ==> r == Some(be_u32_at(data@, pos as int)),
        pos + 4 > data@.len() ==> r is None,
{
    if pos < data.len() && data.len() - pos >= 4 {
        Some(
            (data[pos] as u32) * 0x100_0000 + (data[pos + 1] as u32) * 0x1_0000 + (data[pos + 2]
                as u32) * 0x100 + (data[pos + 3] as u32),
        )
    } else {
        None
    }
}

/// Reads a signed big-endian 32-bit value, if all four bytes are in bounds.
pub fn read_be_i32(data: &Vec<u8>, pos: usize) -> (r: Option<i32>)
    ensures
        pos + 4 <= data@.len() ==> r == Some(be_i32_at(data@, pos as int)),
        pos + 4 > data@.len() ==> r is None,
{
    match read_be_u32(data, pos) {
        Some(v) => Some(v as i32),
        None => None,
    }
}

/// Reads a little-endian 32-bit value, if all four bytes are in bounds.
pub fn read_le_u32(data: &Vec<u8>, pos: usize) -> (r: Option<u32>)
    ensures
        pos + 4 <= data@.len() ==> r == Some(le_u32_at(data@, pos as int)),
        pos + 4 > data@.len() ==> r is None,
{
    if pos < data.len() && data.len() - pos >= 4 {
        Some(
            (data[pos + 3] as u32) * 0x100_0000 + (data[pos + 2] as u32) * 0x1_0000 + (data[pos + 1]
                as u32) * 0x100 + (data[pos] as u32),
        )
    } else {
        None
    }
}

/// Copies the byte range `[pos, pos + len)`, if it is in bounds.
pub fn read_slice(data: &Vec<u8>, pos: usize, len: usize) -> (r: Option<Vec<u8>>)
    ensures
        pos + len <= data@.len() ==> (r matches Some(v) && v@ == data@.subrange(
            pos as int,
            pos + len,
        )),
        pos + len > data@.len() ==> r is None,
{
    if pos <= data.len() && data.len() - pos >= len {
        let mut out: Vec<u8> = Vec::new();
        let mut i: usize = 0;
        while i < len
            invariant
                pos + len <= data@.len(),
                data@.len() <= usize::MAX,
                i <= len,
                out@ == data@.subrange(pos as int, pos + i),
            decreases len - i,
        {
            out.push(data[pos + i]);
            i = i + 1;
            proof {
                assert(out@ =~= data@.subrange(pos as int, pos + i));
            }
        }
        Some(out)
    } else {
        None
    }
}

} // verus!
