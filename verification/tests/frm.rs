use datkit::frm::{Frame, FrmError, FrmFile, PixelShift};
use datkit::pal::PalFile;

#[test]
fn pixel_shift_test() {
    let mut frame = Frame {
        width: 400,
        height: 600,
        size: 400 * 600,
        shift: PixelShift { x: 1, y: 1 },
        color_index: Vec::default(),
    };
    assert_eq!(FrmFile::apply_pixel_shift(500, &frame), Some(901));

    frame.shift.y = 0;
    assert_eq!(FrmFile::apply_pixel_shift(1, &frame), Some(2));

    frame.shift = PixelShift { x: -1, y: -1 };
    assert_eq!(FrmFile::apply_pixel_shift(500, &frame), Some(99));

    frame.shift = PixelShift { x: -1000, y: 2 };
    assert_eq!(FrmFile::apply_pixel_shift(500, &frame), None);
}

fn push_be_u16(out: &mut Vec<u8>, v: u16) {
    out.extend_from_slice(&v.to_be_bytes());
}

fn push_be_u32(out: &mut Vec<u8>, v: u32) {
    out.extend_from_slice(&v.to_be_bytes());
}

/// A sprite with one one-by-one frame whose single pixel uses palette
/// index one.
fn frm_fixture(version: u32) -> Vec<u8> {
    let mut d = Vec::new();
    push_be_u32(&mut d, version);
    push_be_u16(&mut d, 10); // fps
    push_be_u16(&mut d, 0); // action frame
    push_be_u16(&mut d, 1); // frames per direction
    for _ in 0..6 {
        push_be_u16(&mut d, 0); // shift x
    }
    for _ in 0..6 {
        push_be_u16(&mut d, 0); // shift y
    }
    for _ in 0..6 {
        push_be_u32(&mut d, 0); // frame offsets
    }
    push_be_u32(&mut d, 13); // frame data size
    push_be_u16(&mut d, 1); // width
    push_be_u16(&mut d, 1); // height
    push_be_u32(&mut d, 1); // size
    push_be_u16(&mut d, 0); // shift x
    push_be_u16(&mut d, 0); // shift y
    d.push(1); // the pixel's palette index
    d
}

fn pal_fixture() -> Vec<u8> {
    let mut d = vec![0u8; 3 * 256 + 32768];
    // color one: all channels at or above 64 stay as they are
    d[3] = 100;
    d[4] = 110;
    d[5] = 120;
    d
}

#[test]
fn frm_open_and_decode() {
    let frm = FrmFile::open(&frm_fixture(4)).unwrap();
    assert_eq!(frm.fps, 10);
    assert_eq!(frm.frames_per_direction, 1);
    assert_eq!(frm.frames.len(), 1);
    assert_eq!(frm.frames[0].width, 1);
    assert_eq!(frm.frames[0].color_index, vec![1]);

    let pal = PalFile::open(&pal_fixture()).unwrap();
    let bitmaps = frm.decode(&pal);
    assert_eq!(bitmaps.len(), 1);
    assert_eq!(bitmaps[0].width, 1);
    assert_eq!(bitmaps[0].pixels.len(), 1);
    let p = bitmaps[0].pixels[0];
    assert_eq!((p.red, p.green, p.blue, p.alpha), (100, 110, 120, 255));
}

#[test]
fn frm_rejects_wrong_version() {
    match FrmFile::open(&frm_fixture(5)) {
        Err(e) => assert_eq!(e, FrmError::InvalidSig),
        Ok(_) => panic!("wrong version must not open"),
    }
}

#[test]
fn frm_rejects_size_mismatch() {
    let mut d = frm_fixture(4);
    // declare a 2x1 frame while the size word still says one
    d[62] = 0;
    d[63] = 2;
    match FrmFile::open(&d) {
        Err(e) => assert_eq!(e, FrmError::SizeMismatch),
        Ok(_) => panic!("a mismatched frame must not open"),
    }
}

#[test]
fn frm_rejects_short_data() {
    match FrmFile::open(&vec![0, 0, 0, 4]) {
        Err(e) => assert_eq!(e, FrmError::ReadError),
        Ok(_) => panic!("short data must not open"),
    }
}

#[test]
fn bitmap_png_encoding() {
    let frm = FrmFile::open(&frm_fixture(4)).unwrap();
    let pal = PalFile::open(&pal_fixture()).unwrap();
    let bitmaps = frm.decode(&pal);
    let png = bitmaps[0].to_png().unwrap();
    // a PNG stream starts with the fixed signature, unlike raw pixels
    assert_eq!(&png[0..8], &[137, 80, 78, 71, 13, 10, 26, 10]);
}
