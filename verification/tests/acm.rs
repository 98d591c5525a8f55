use datkit::acm::{Acm, AcmError};
use datkit::bit_reader::BitReader;
use datkit::fillers::{change_base, FillerArgs, Fillers};
use datkit::vec2d::Vec2d;

#[test]
fn wav_output_layout() {
    let acm = Acm { channels: 1, sample_rate: 22050, samples: vec![1, -1] };
    let out = acm.write_to_wav().unwrap();

    assert_eq!(out.len(), 48);
    assert_eq!(&out[0..4], b"RIFF");
    assert_eq!(&out[4..8], &40u32.to_le_bytes());
    assert_eq!(&out[8..12], b"WAVE");
    assert_eq!(&out[12..16], b"fmt ");
    assert_eq!(&out[16..20], &16u32.to_le_bytes());
    assert_eq!(&out[20..22], &1u16.to_le_bytes());
    assert_eq!(&out[22..24], &1u16.to_le_bytes());
    assert_eq!(&out[24..28], &22050u32.to_le_bytes());
    assert_eq!(&out[28..32], &44100u32.to_le_bytes());
    assert_eq!(&out[32..34], &128u16.to_le_bytes());
    assert_eq!(&out[34..36], &16u16.to_le_bytes());
    assert_eq!(&out[36..40], b"data");
    assert_eq!(&out[40..44], &4u32.to_le_bytes());
    assert_eq!(&out[44..48], &[0x01, 0x00, 0xFF, 0xFF]);
}

#[test]
fn change_base_digits() {
    assert_eq!(change_base(7, 3), vec![1, 2]);
    assert_eq!(change_base(0, 5), vec![0]);
    assert_eq!(change_base(124, 5), vec![4, 4, 4]);
}

fn filler_args(bits: Vec<u8>) -> FillerArgs {
    FillerArgs {
        reader: BitReader::new(bits),
        packed_block: Vec2d::new_with(2, 3, 9),
        amp_buffer: vec![5; 0x18000],
        index: 4,
        column: 1,
    }
}

#[test]
fn filler_zero_clears_only_its_column() {
    let mut args = filler_args(Vec::new());
    Fillers::Zero.fill(&mut args).unwrap();
    for row in 0..3 {
        assert_eq!(args.packed_block.get(0, row), Some(&9));
        assert_eq!(args.packed_block.get(1, row), Some(&0));
    }
}

#[test]
fn filler_ret0_rejects_block() {
    let mut args = filler_args(Vec::new());
    assert_eq!(Fillers::Ret0.fill(&mut args), Err(AcmError::CorruptBlock));
}

#[test]
fn filler_linear_reads_amplitudes() {
    // three 4-bit groups; every amplitude in the buffer is five
    let mut args = filler_args(vec![0x21, 0x03]);
    Fillers::Linear.fill(&mut args).unwrap();
    for row in 0..3 {
        assert_eq!(args.packed_block.get(0, row), Some(&9));
        assert_eq!(args.packed_block.get(1, row), Some(&5));
    }
}

#[test]
fn filler_runs_out_of_bits() {
    let mut args = filler_args(Vec::new());
    assert_eq!(Fillers::K12.fill(&mut args), Err(AcmError::BitError));
}

#[test]
fn acm_error_messages() {
    assert_eq!(AcmError::StreamError.message(), "Error reading from stream");
    assert_eq!(AcmError::CorruptBlock.message(), "Acm block may be corrupt");
}
