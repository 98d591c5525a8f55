use vstd::prelude::*;
use crate::acm::AcmError;
use crate::bit_reader::BitReader;
use crate::vec2d::Vec2d;

verus! {

/// The middle of the amplitude buffer, where the zero amplitude sits.
pub const BUFFER_MIDDLE: usize = 0x8000;

/// The state one block-filling pass works on: the bit stream being
/// decoded, the block being filled column by column, the amplitude
/// lookup buffer, the filler's bit width, and the column to fill.
pub struct FillerArgs {
    pub reader: BitReader,
    pub packed_block: Vec2d<i32>,
    pub amp_buffer: Vec<i32>,
    pub index: usize,
    pub column: usize,
}

impl FillerArgs {
    /// The state a filler can run on: a well-formed block, a column
    /// inside it, a sound reader, an amplitude buffer that covers every
    /// index a filler can form, and a bit width the linear filler can
    /// read in one call.
    pub open spec fn wf(&self) -> bool {
        &&& self.packed_block.wf()
        &&& (self.column as nat) < self.packed_block.spec_width()
        &&& self.reader.wf()
        &&& self.amp_buffer@.len() >= 0x18000
        &&& self.index <= 16
    }

    /// Everything a filler must leave alone: the block's shape, every
    /// cell outside its column, and the buffer and indices it was given.
    pub open spec fn frame_kept(pre: FillerArgs, post: FillerArgs) -> bool {
        &&& post.packed_block.wf()
        &&& post.packed_block.spec_width() == pre.packed_block.spec_width()
        &&& post.packed_block.spec_height() == pre.packed_block.spec_height()
        &&& post.amp_buffer == pre.amp_buffer
        &&& post.index == pre.index
        &&& post.column == pre.column
        &&& post.packed_block.spec_data().len() == pre.packed_block.spec_data().len()
        &&& forall|k: int|
            0 <= k < pre.packed_block.spec_data().len() && k % (
            pre.packed_block.spec_width() as int) != pre.column ==> post.packed_block.spec_data()[k]
                == pre.packed_block.spec_data()[k]
    }

    /// How many rows the filler's column has.
    pub fn block_rows(&self) -> (r: usize)
        ensures
            r == self.packed_block.spec_height(),
    {
        self.packed_block.height()
    }

    /// Writes one value into the filler's column.
    pub fn set_in_column(&mut self, row: usize, value: i32)
        requires
            old(self).wf(),
            row < old(self).packed_block.spec_height(),
        ensures
            final(self).wf(),
            FillerArgs::frame_kept(*old(self), *final(self)),
            final(self).reader == old(self).reader,
            final(self).packed_block.spec_data() == old(self).packed_block.spec_data().update(
                row * old(self).packed_block.spec_width() + old(self).column,
                value,
            ),
    {
        let ghost w = self.packed_block.spec_width() as int;
        let ghost h = self.packed_block.spec_height() as int;
        proof {
            self.packed_block.lemma_wf();
            assert(row * w + self.column < w * h && row * w + self.column <= usize::MAX && (row * w
                + self.column) % w == self.column) by (nonlinear_arith)
                requires
                    0 <= row < h,
                    0 <= (self.column as int) < w,
                    w * h <= usize::MAX,
            ;
            assert(forall|k: int|
                0 <= k < w * h && #[trigger] (k % w) != self.column ==> k != row * w
                    + self.column);
        }
        let res = self.packed_block.insert(self.column, row, value);
        proof {
            assert(res is Some);
        }
    }

    /// Writes the amplitude at a buffer index into the filler's column.
    pub fn set_by_index(&mut self, row: usize, index: usize)
        requires
            old(self).wf(),
            row < old(self).packed_block.spec_height(),
            index < old(self).amp_buffer@.len(),
        ensures
            final(self).wf(),
            FillerArgs::frame_kept(*old(self), *final(self)),
            final(self).reader == old(self).reader,
            final(self).packed_block.spec_data() == old(self).packed_block.spec_data().update(
                row * old(self).packed_block.spec_width() + old(self).column,
                old(self).amp_buffer@[index as int],
            ),
    {
        let amp = self.amp_buffer[index];
        self.set_in_column(row, amp);
    }
}

/// The amplitude index one bit selects: one step below or above the
/// middle.
pub fn get_index_1(bit: u8) -> (r: usize)
    requires
        bit <= 1,
    ensures
        bit == 0 ==> r == BUFFER_MIDDLE - 1,
        bit == 1 ==> r == BUFFER_MIDDLE + 1,
{
    if bit == 0 {
        BUFFER_MIDDLE - 1
    } else {
        BUFFER_MIDDLE + 1
    }
}

/// The amplitude index two bits select among the near neighbours of the
/// middle.
pub fn get_index_2_near(bits: u8) -> (r: usize)
    requires
        bits <= 3,
    ensures
        bits == 0 ==> r == BUFFER_MIDDLE - 2,
        bits == 1 ==> r == BUFFER_MIDDLE - 1,
        bits == 2 ==> r == BUFFER_MIDDLE + 1,
        bits == 3 ==> r == BUFFER_MIDDLE + 2,
{
    if bits == 0 {
        BUFFER_MIDDLE - 2
    } else if bits == 1 {
        BUFFER_MIDDLE - 1
    } else if bits == 2 {
        BUFFER_MIDDLE + 1
    } else {
        BUFFER_MIDDLE + 2
    }
}

/// The amplitude index two bits select among the far neighbours of the
/// middle.
pub fn get_index_2_far(bits: u8) -> (r: usize)
    requires
        bits <= 3,
    ensures
        bits == 0 ==> r == BUFFER_MIDDLE - 3,
        bits == 1 ==> r == BUFFER_MIDDLE - 2,
        bits == 2 ==> r == BUFFER_MIDDLE + 2,
        bits == 3 ==> r == BUFFER_MIDDLE + 3,
{
    if bits == 0 {
        BUFFER_MIDDLE - 3
    } else if bits == 1 {
        BUFFER_MIDDLE - 2
    } else if bits == 2 {
        BUFFER_MIDDLE + 2
    } else {
        BUFFER_MIDDLE + 3
    }
}

/// The amplitude index three bits select within four steps of the
/// middle.
pub fn get_index_3(bits: u8) -> (r: usize)
    requires
        bits <= 7,
    ensures
        BUFFER_MIDDLE - 4 <= r <= BUFFER_MIDDLE + 4,
        r != BUFFER_MIDDLE,
{
    if bits == 0 {
        BUFFER_MIDDLE - 4
    } else if bits == 1 {
        BUFFER_MIDDLE - 3
    } else if bits == 2 {
        BUFFER_MIDDLE - 2
    } else if bits == 3 {
        BUFFER_MIDDLE - 1
    } else if bits == 4 {
        BUFFER_MIDDLE + 1
    } else if bits == 5 {
        BUFFER_MIDDLE + 2
    } else if bits == 6 {
        BUFFER_MIDDLE + 3
    } else {
        BUFFER_MIDDLE + 4
    }
}

/// The digits of `num` in the given base, least significant first; zero
/// has the single digit zero.
pub fn change_base(num: i32, base: i32) -> (r: Vec<i32>)
    requires
        num >= 0,
        base >= 2,
    ensures
        r@.len() >= 1,
        forall|i: int| 0 <= i < r@.len() ==> 0 <= #[trigger] r@[i] < base,
{
    let mut digits: Vec<i32> = Vec::new();
    let mut n = num;
    loop
        invariant
            0 <= n <= num,
            base >= 2,
            forall|i: int| 0 <= i < digits@.len() ==> 0 <= #[trigger] digits@[i] < base,
        ensures
            digits@.len() >= 1,
            forall|i: int| 0 <= i < digits@.len() ==> 0 <= #[trigger] digits@[i] < base,
        decreases n,
    {
        let div = n / base;
        let rem = n % base;
        digits.push(rem);
        proof {
            if n > 0 {
                vstd::arithmetic::div_mod::lemma_div_decreases(n as int, base as int);
            }
        }
        n = div;
        if div == 0 {
            break;
        }
    }
    digits
}

/// One pass of a block filler: which coding it uses.
pub enum Fillers {
    Zero,
    Ret0,
    Linear,
    K13,
    K12,
    T15,
    K24,
    K23,
    T27,
    K35,
    K34,
    K45,
    K44,
    T37,
}

impl Fillers {
    /// The filler a coding index names. Indices past the table are not
    /// codings.
    pub fn from_index(index: u8) -> (r: Fillers)
        requires
            index < 32,
        ensures
            index == 0 ==> r is Zero,
            1 <= index <= 2 ==> r is Ret0,
            3 <= index <= 16 ==> r is Linear,
            index == 17 ==> r is K13,
            index == 18 ==> r is K12,
            index == 19 ==> r is T15,
            index == 20 ==> r is K24,
            index == 21 ==> r is K23,
            index == 22 ==> r is T27,
            index == 23 ==> r is K35,
            index == 24 ==> r is K34,
            index == 25 ==> r is Ret0,
            index == 26 ==> r is K45,
            index == 27 ==> r is K44,
            index == 28 ==> r is Ret0,
            index == 29 ==> r is T37,
            30 <= index <= 31 ==> r is Ret0,
    {
        if index == 0 {
            Fillers::Zero
        } else if index <= 2 {
            Fillers::Ret0
        } else if index <= 16 {
            Fillers::Linear
        } else if index == 17 {
            Fillers::K13
        } else if index == 18 {
            Fillers::K12
        } else if index == 19 {
            Fillers::T15
        } else if index == 20 {
            Fillers::K24
        } else if index == 21 {
            Fillers::K23
        } else if index == 22 {
            Fillers::T27
        } else if index == 23 {
            Fillers::K35
        } else if index == 24 {
            Fillers::K34
        } else if index == 25 {
            Fillers::Ret0
        } else if index == 26 {
            Fillers::K45
        } else if index == 27 {
            Fillers::K44
        } else if index == 28 {
            Fillers::Ret0
        } else if index == 29 {
            Fillers::T37
        } else {
            Fillers::Ret0
        }
    }

    /// Runs the filler over the block's column. Whatever the coding,
    /// only that column changes, the block keeps its shape, and the
    /// buffer and indices are left alone.
    pub fn fill(&self, args: &mut FillerArgs) -> (r: Result<(), AcmError>)
        requires
            old(args).wf(),
        ensures
            final(args).wf(),
            FillerArgs::frame_kept(*old(args), *final(args)),
    {
        match self {
            Fillers::Zero => fill_zero(args),
            Fillers::Ret0 => fill_ret0(args),
            Fillers::Linear => fill_linear(args),
            Fillers::K13 => fill_k13(args),
            Fillers::K12 => fill_k12(args),
            Fillers::T15 => fill_t15(args),
            Fillers::K24 => fill_k24(args),
            Fillers::K23 => fill_k23(args),
            Fillers::T27 => fill_t27(args),
            Fillers::K35 => fill_k35(args),
            Fillers::K34 => fill_k34(args),
            Fillers::K45 => fill_k45(args),
            Fillers::K44 => fill_k44(args),
            Fillers::T37 => fill_t37(args),
        }
    }
}

/// Every cell of the filler's column holds a zero amplitude.
pub open spec fn column_cleared(a: FillerArgs) -> bool {
    forall|row: int|
        0 <= row < a.packed_block.spec_height() ==> #[trigger] a.packed_block.spec_data()[row
            * a.packed_block.spec_width() + a.column] == 0
}

/// Fills the whole column with zero amplitudes.
#[verifier::loop_isolation(false)]
pub fn fill_zero(args: &mut FillerArgs) -> (r: Result<(), AcmError>)
    requires
        old(args).wf(),
    ensures
        final(args).wf(),
        FillerArgs::frame_kept(*old(args), *final(args)),
        r is Ok,
        column_cleared(*final(args)),
    {
    let rows = args.block_rows();
    let mut i: usize = 0;
    while i < rows
        invariant
            i <= rows,
            args.wf(),
            FillerArgs::frame_kept(*old(args), *args),
            rows == args.packed_block.spec_height(),
            forall|row: int|
                0 <= row < i ==> #[trigger] args.packed_block.spec_data()[row
                    * args.packed_block.spec_width() + args.column] == 0,
        decreases rows - i,
    {
        let ghost pre = *args;
        args.set_in_column(i, 0);
        i = i + 1;
        proof {
            let w = args.packed_block.spec_width() as int;
            let h = args.packed_block.spec_height() as int;
            let col = args.column as int;
            args.packed_block.lemma_wf();
            lemma_rows_distinct(w, h, col);
            assert forall|row: int|
                0 <= row < i implies #[trigger] args.packed_block.spec_data()[row * w + col]
                == 0 by {
                if row < i - 1 {
                    assert(row * w + col != (i - 1) * w + col);
                    assert(pre.packed_block.spec_data()[row * w + col] == 0);
                }
            }
        }
    }
    Ok(())
}

/// Distinct rows of one column name distinct cells, and every such cell
/// is in range.
proof fn lemma_rows_distinct(w: int, h: int, col: int)
    requires
        0 <= col < w,
        0 <= h,
    ensures
        forall|r1: int, r2: int|
            0 <= r1 < h && 0 <= r2 < h && r1 != r2 ==> #[trigger] (r1 * w + col) != #[trigger] (r2
                * w + col),
        forall|row: int| 0 <= row < h ==> 0 <= #[trigger] (row * w + col) < w * h,
{
    assert forall|r1: int, r2: int|
        0 <= r1 < h && 0 <= r2 < h && r1 != r2 implies #[trigger] (r1 * w + col) != #[trigger] (r2
        * w + col) by {
        assert(r1 * w != r2 * w) by (nonlinear_arith)
            requires
                r1 != r2,
                w > 0,
        ;
    }
    assert forall|row: int| 0 <= row < h implies 0 <= #[trigger] (row * w + col) < w * h by {
        assert(0 <= row * w + col < w * h) by (nonlinear_arith)
            requires
                0 <= row < h,
                0 <= col < w,
        ;
    }
}

/// Rejects the block: these coding indices mark corrupt data.
pub fn fill_ret0(args: &mut FillerArgs) -> (r: Result<(), AcmError>)
    requires
        old(args).wf(),
    ensures
        final(args).wf(),
        FillerArgs::frame_kept(*old(args), *final(args)),
        r == Err::<(), AcmError>(AcmError::CorruptBlock),
        *final(args) == *old(args),
{
    Err(AcmError::CorruptBlock)
}

/// Fills the column with amplitudes read directly from the stream,
/// `index` bits per row.
#[verifier::loop_isolation(false)]
pub fn fill_linear(args: &mut FillerArgs) -> (r: Result<(), AcmError>)
    requires
        old(args).wf(),
    ensures
        final(args).wf(),
        FillerArgs::frame_kept(*old(args), *final(args)),
{
    let rows = args.block_rows();
    let bits = args.index as u8;
    let mut i: usize = 0;
    while i < rows
        invariant
            i <= rows,
            args.wf(),
            bits == args.index,
            FillerArgs::frame_kept(*old(args), *args),
            rows == args.packed_block.spec_height(),
        decreases rows - i,
    {
        proof {
            if bits <= args.reader.spec_bits().len() {
                crate::bit_reader::lemma_bits_value_bound(
                    args.reader.spec_bits().take(bits as int),
                );
                vstd::arithmetic::power2::lemma2_to64();
                if (bits as nat) < 16 {
                    vstd::arithmetic::power2::lemma_pow2_strictly_increases(bits as nat, 16);
                }
            }
        }
        let val = match args.reader.get_bits_i64(bits) {
            Some(v) => v,
            None => {
                return Err(AcmError::FillError);
            },
        };
        let idx = BUFFER_MIDDLE + (val as usize);
        args.set_by_index(i, idx);
        i = i + 1;
    }
    Ok(())
}

/// Reads one flag bit, or fails the block.
fn next_bit(args: &mut FillerArgs) -> (r: Result<u8, AcmError>)
    requires
        old(args).wf(),
    ensures
        final(args).wf(),
        final(args).packed_block == old(args).packed_block,
        final(args).amp_buffer == old(args).amp_buffer,
        final(args).index == old(args).index,
        final(args).column == old(args).column,
        r matches Ok(b) ==> b <= 1,
{
    match args.reader.get_bit() {
        Some(b) => {
            proof {
                if old(args).reader.spec_bits().len() == 0 {
                    assert(false);
                }
            }
            Ok(b)
        },
        None => Err(AcmError::BitError),
    }
}

/// Fills the column from a prefix code: a zero bit clears two rows, a
/// one-zero pair clears one, and two one bits pick a near neighbour by
/// one more bit.
#[verifier::loop_isolation(false)]
pub fn fill_k13(args: &mut FillerArgs) -> (r: Result<(), AcmError>)
    requires
        old(args).wf(),
    ensures
        final(args).wf(),
        FillerArgs::frame_kept(*old(args), *final(args)),
{
    let rows = args.block_rows();
    let mut i: usize = 0;
    while i < rows
        invariant
            i <= rows || i <= rows + 1,
            args.wf(),
            FillerArgs::frame_kept(*old(args), *args),
            rows == args.packed_block.spec_height(),
        decreases rows - i,
    {
        let b0 = match next_bit(args) {
            Ok(b) => b,
            Err(e) => {
                return Err(e);
            },
        };
        if b0 == 0 {
            args.set_in_column(i, 0);
            if i + 1 < rows {
                args.set_in_column(i + 1, 0);
                i = i + 2;
            } else {
                i = rows;
            }
            continue ;
        }
        let b1 = match next_bit(args) {
            Ok(b) => b,
            Err(e) => {
                return Err(e);
            },
        };
        if b1 == 0 {
            args.set_in_column(i, 0);
        } else {
            let bit = match next_bit(args) {
                Ok(b) => b,
                Err(e) => {
                    return Err(e);
                },
            };
            let index = get_index_1(bit);
            args.set_by_index(i, index);
        }
        i = i + 1;
    }
    Ok(())
}

/// Fills the column from a prefix code: a zero bit clears the row, a one
/// bit picks a near neighbour by one more bit.
#[verifier::loop_isolation(false)]
pub fn fill_k12(args: &mut FillerArgs) -> (r: Result<(), AcmError>)
    requires
        old(args).wf(),
    ensures
        final(args).wf(),
        FillerArgs::frame_kept(*old(args), *final(args)),
{
    let rows = args.block_rows();
    let mut i: usize = 0;
    while i < rows
        invariant
            i <= rows,
            args.wf(),
            FillerArgs::frame_kept(*old(args), *args),
            rows == args.packed_block.spec_height(),
        decreases rows - i,
    {
        let b0 = match next_bit(args) {
            Ok(b) => b,
            Err(e) => {
                return Err(e);
            },
        };
        if b0 == 0 {
            args.set_in_column(i, 0);
        } else {
            let bit = match next_bit(args) {
                Ok(b) => b,
                Err(e) => {
                    return Err(e);
                },
            };
            args.set_by_index(i, get_index_1(bit));
        }
        i = i + 1;
    }
    Ok(())
}

/// Reads a two-bit group, or fails the block.
fn next_bits2(args: &mut FillerArgs) -> (r: Result<u8, AcmError>)
    requires
        old(args).wf(),
    ensures
        final(args).wf(),
        final(args).packed_block == old(args).packed_block,
        final(args).amp_buffer == old(args).amp_buffer,
        final(args).index == old(args).index,
        final(args).column == old(args).column,
        r matches Ok(b) ==> b <= 3,
{
    proof {
        if 2 <= args.reader.spec_bits().len() {
            crate::bit_reader::lemma_bits_value_bound(args.reader.spec_bits().take(2));
            vstd::arithmetic::power2::lemma2_to64();
        }
    }
    match args.reader.get_bits_u8(2) {
        Some(b) => Ok(b),
        None => Err(AcmError::FillError),
    }
}

/// Reads a three-bit group, or fails the block.
fn next_bits3(args: &mut FillerArgs) -> (r: Result<u8, AcmError>)
    requires
        old(args).wf(),
    ensures
        final(args).wf(),
        final(args).packed_block == old(args).packed_block,
        final(args).amp_buffer == old(args).amp_buffer,
        final(args).index == old(args).index,
        final(args).column == old(args).column,
        r matches Ok(b) ==> b <= 7,
{
    proof {
        if 3 <= args.reader.spec_bits().len() {
            crate::bit_reader::lemma_bits_value_bound(args.reader.spec_bits().take(3));
            vstd::arithmetic::power2::lemma2_to64();
        }
    }
    match args.reader.get_bits_u8(3) {
        Some(b) => Ok(b),
        None => Err(AcmError::FillError),
    }
}

/// Fills the column from a prefix code: a zero bit clears two rows, a
/// one-zero pair clears one, and two one bits pick a near neighbour by
/// two more bits.
#[verifier::loop_isolation(false)]
pub fn fill_k24(args: &mut FillerArgs) -> (r: Result<(), AcmError>)
    requires
        old(args).wf(),
    ensures
        final(args).wf(),
        FillerArgs::frame_kept(*old(args), *final(args)),
{
    let rows = args.block_rows();
    let mut i: usize = 0;
    while i < rows
        invariant
            args.wf(),
            FillerArgs::frame_kept(*old(args), *args),
            rows == args.packed_block.spec_height(),
        decreases rows - i,
    {
        let b0 = match next_bit(args) {
            Ok(b) => b,
            Err(e) => {
                return Err(e);
            },
        };
        if b0 == 0 {
            args.set_in_column(i, 0);
            if i + 1 < rows {
                args.set_in_column(i + 1, 0);
                i = i + 2;
            } else {
                i = rows;
            }
            continue ;
        }
        let b1 = match next_bit(args) {
            Ok(b) => b,
            Err(e) => {
                return Err(e);
            },
        };
        if b1 == 0 {
            args.set_in_column(i, 0);
        } else {
            let bits = match next_bits2(args) {
                Ok(b) => b,
                Err(e) => {
                    return Err(e);
                },
            };
            args.set_by_index(i, get_index_2_near(bits));
        }
        i = i + 1;
    }
    Ok(())
}

/// Fills the column from a prefix code: a zero bit clears the row, a one
/// bit picks a near neighbour by two more bits.
#[verifier::loop_isolation(false)]
pub fn fill_k23(args: &mut FillerArgs) -> (r: Result<(), AcmError>)
    requires
        old(args).wf(),
    ensures
        final(args).wf(),
        FillerArgs::frame_kept(*old(args), *final(args)),
{
    let rows = args.block_rows();
    let mut i: usize = 0;
    while i < rows
        invariant
            i <= rows,
            args.wf(),
            FillerArgs::frame_kept(*old(args), *args),
            rows == args.packed_block.spec_height(),
        decreases rows - i,
    {
        let b0 = match next_bit(args) {
            Ok(b) => b,
            Err(e) => {
                return Err(e);
            },
        };
        if b0 == 0 {
            args.set_in_column(i, 0);
        } else {
            let bits = match next_bits2(args) {
                Ok(b) => b,
                Err(e) => {
                    return Err(e);
                },
            };
            args.set_by_index(i, get_index_2_near(bits));
        }
        i = i + 1;
    }
    Ok(())
}

/// Fills the column from a prefix code: zero clears two rows, one-zero
/// clears one, one-one-zero picks a near neighbour by one bit, and three
/// one bits pick a far neighbour by two bits.
#[verifier::loop_isolation(false)]
pub fn fill_k35(args: &mut FillerArgs) -> (r: Result<(), AcmError>)
    requires
        old(args).wf(),
    ensures
        final(args).wf(),
        FillerArgs::frame_kept(*old(args), *final(args)),
{
    let rows = args.block_rows();
    let mut i: usize = 0;
    while i < rows
        invariant
            args.wf(),
            FillerArgs::frame_kept(*old(args), *args),
            rows == args.packed_block.spec_height(),
        decreases rows - i,
    {
        let b0 = match next_bit(args) {
            Ok(b) => b,
            Err(e) => {
                return Err(e);
            },
        };
        if b0 == 0 {
            args.set_in_column(i, 0);
            if i + 1 < rows {
                args.set_in_column(i + 1, 0);
                i = i + 2;
            } else {
                i = rows;
            }
            continue ;
        }
        let b1 = match next_bit(args) {
            Ok(b) => b,
            Err(e) => {
                return Err(e);
            },
        };
        if b1 == 0 {
            args.set_in_column(i, 0);
        } else {
            let b2 = match next_bit(args) {
                Ok(b) => b,
                Err(e) => {
                    return Err(e);
                },
            };
            if b2 == 0 {
                let bit = match next_bit(args) {
                    Ok(b) => b,
                    Err(e) => {
                        return Err(e);
                    },
                };
                args.set_by_index(i, get_index_1(bit));
            } else {
                let bits = match next_bits2(args) {
                    Ok(b) => b,
                    Err(e) => {
                        return Err(e);
                    },
                };
                args.set_by_index(i, get_index_2_far(bits));
            }
        }
        i = i + 1;
    }
    Ok(())
}

/// Fills the column from a prefix code: zero clears the row, one-zero
/// picks a near neighbour by one bit, one-one picks a far neighbour by
/// two bits.
#[verifier::loop_isolation(false)]
pub fn fill_k34(args: &mut FillerArgs) -> (r: Result<(), AcmError>)
    requires
        old(args).wf(),
    ensures
        final(args).wf(),
        FillerArgs::frame_kept(*old(args), *final(args)),
{
    let rows = args.block_rows();
    let mut i: usize = 0;
    while i < rows
        invariant
            i <= rows,
            args.wf(),
            FillerArgs::frame_kept(*old(args), *args),
            rows == args.packed_block.spec_height(),
        decreases rows - i,
    {
        let b0 = match next_bit(args) {
            Ok(b) => b,
            Err(e) => {
                return Err(e);
            },
        };
        if b0 == 0 {
            args.set_in_column(i, 0);
        } else {
            let b1 = match next_bit(args) {
                Ok(b) => b,
                Err(e) => {
                    return Err(e);
                },
            };
            if b1 == 0 {
                let bit = match next_bit(args) {
                    Ok(b) => b,
                    Err(e) => {
                        return Err(e);
                    },
                };
                args.set_by_index(i, get_index_1(bit));
            } else {
                let bits = match next_bits2(args) {
                    Ok(b) => b,
                    Err(e) => {
                        return Err(e);
                    },
                };
                args.set_by_index(i, get_index_2_far(bits));
            }
        }
        i = i + 1;
    }
    Ok(())
}

/// Fills the column from a prefix code: zero clears two rows, one-zero
/// clears one, one-one picks a neighbour by three more bits.
#[verifier::loop_isolation(false)]
pub fn fill_k45(args: &mut FillerArgs) -> (r: Result<(), AcmError>)
    requires
        old(args).wf(),
    ensures
        final(args).wf(),
        FillerArgs::frame_kept(*old(args), *final(args)),
{
    let rows = args.block_rows();
    let mut i: usize = 0;
    while i < rows
        invariant
            args.wf(),
            FillerArgs::frame_kept(*old(args), *args),
            rows == args.packed_block.spec_height(),
        decreases rows - i,
    {
        let b0 = match next_bit(args) {
            Ok(b) => b,
            Err(e) => {
                return Err(e);
            },
        };
        if b0 == 0 {
            args.set_in_column(i, 0);
            if i + 1 < rows {
                args.set_in_column(i + 1, 0);
                i = i + 2;
            } else {
                i = rows;
            }
            continue ;
        }
        let b1 = match next_bit(args) {
            Ok(b) => b,
            Err(e) => {
                return Err(e);
            },
        };
        if b1 == 0 {
            args.set_in_column(i, 0);
        } else {
            let bits = match next_bits3(args) {
                Ok(b) => b,
                Err(e) => {
                    return Err(e);
                },
            };
            args.set_by_index(i, get_index_3(bits));
        }
        i = i + 1;
    }
    Ok(())
}

/// Fills the column from a prefix code: zero clears the row, one picks a
/// neighbour by three more bits.
#[verifier::loop_isolation(false)]
pub fn fill_k44(args: &mut FillerArgs) -> (r: Result<(), AcmError>)
    requires
        old(args).wf(),
    ensures
        final(args).wf(),
        FillerArgs::frame_kept(*old(args), *final(args)),
{
    let rows = args.block_rows();
    let mut i: usize = 0;
    while i < rows
        invariant
            i <= rows,
            args.wf(),
            FillerArgs::frame_kept(*old(args), *args),
            rows == args.packed_block.spec_height(),
        decreases rows - i,
    {
        let b0 = match next_bit(args) {
            Ok(b) => b,
            Err(e) => {
                return Err(e);
            },
        };
        if b0 == 0 {
            args.set_in_column(i, 0);
        } else {
            let bits = match next_bits3(args) {
                Ok(b) => b,
                Err(e) => {
                    return Err(e);
                },
            };
            args.set_by_index(i, get_index_3(bits));
        }
        i = i + 1;
    }
    Ok(())
}

/// Fills several rows at a time from one fixed-width group, whose
/// base-`base` digits each pick an amplitude at or above the middle.
#[verifier::loop_isolation(false)]
fn fill_txx(args: &mut FillerArgs, bits: u8, base: i32, times: usize) -> (r: Result<(), AcmError>)
    requires
        old(args).wf(),
        bits <= 7,
        2 <= base <= 16,
        1 <= times <= 3,
    ensures
        final(args).wf(),
        FillerArgs::frame_kept(*old(args), *final(args)),
{
    let rows = args.block_rows();
    let mut i: usize = 0;
    while i < rows
        invariant
            args.wf(),
            FillerArgs::frame_kept(*old(args), *args),
            rows == args.packed_block.spec_height(),
        decreases rows - i,
    {
        proof {
            if bits <= args.reader.spec_bits().len() {
                crate::bit_reader::lemma_bits_value_bound(
                    args.reader.spec_bits().take(bits as int),
                );
                vstd::arithmetic::power2::lemma2_to64();
                if (bits as nat) < 8 {
                    vstd::arithmetic::power2::lemma_pow2_strictly_increases(bits as nat, 8);
                }
            }
        }
        let group = match args.reader.get_bits_u8(bits) {
            Some(v) => v,
            None => {
                return Err(AcmError::FillError);
            },
        };
        let mut digits = change_base(group as i32, base);
        let digit = match digits.pop() {
            Some(d) => d,
            None => 0,
        };
        args.set_in_column(i, 0);
        args.set_by_index(i, BUFFER_MIDDLE + (digit as usize));
        let mut t: usize = 1;
        while t < times
            invariant
                i < rows,
                args.wf(),
                FillerArgs::frame_kept(*old(args), *args),
                rows == args.packed_block.spec_height(),
                forall|j: int| 0 <= j < digits@.len() ==> 0 <= #[trigger] digits@[j] < base,
                base <= 16,
            decreases times - t,
        {
            let digit = match digits.pop() {
                Some(d) => d,
                None => 0,
            };
            if t < rows - i {
                args.set_by_index(i + t, BUFFER_MIDDLE + (digit as usize));
            }
            t = t + 1;
        }
        if rows - i > times {
            i = i + times;
        } else {
            i = rows;
        }
    }
    Ok(())
}

/// Fills three rows per five-bit group, digits in base three.
pub fn fill_t15(args: &mut FillerArgs) -> (r: Result<(), AcmError>)
    requires
        old(args).wf(),
    ensures
        final(args).wf(),
        FillerArgs::frame_kept(*old(args), *final(args)),
{
    fill_txx(args, 5, 3, 3)
}

/// Fills three rows per seven-bit group, digits in base five.
pub fn fill_t27(args: &mut FillerArgs) -> (r: Result<(), AcmError>)
    requires
        old(args).wf(),
    ensures
        final(args).wf(),
        FillerArgs::frame_kept(*old(args), *final(args)),
{
    fill_txx(args, 7, 5, 3)
}

/// Fills two rows per seven-bit group, digits in base eleven.
pub fn fill_t37(args: &mut FillerArgs) -> (r: Result<(), AcmError>)
    requires
        old(args).wf(),
    ensures
        final(args).wf(),
        FillerArgs::frame_kept(*old(args), *final(args)),
{
    fill_txx(args, 7, 11, 2)
}

} // verus!
