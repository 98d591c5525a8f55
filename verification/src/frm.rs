use vstd::prelude::*;
use crate::bytes::{be_u16_at, be_u32_at, be_i16_at, read_be_u16, read_be_u32, read_be_i16, read_slice};
use crate::pal::PalFile;

verus! {

/// One RGBA pixel.
#[derive(Debug, Default, Clone, Copy, PartialEq, Eq, Structural)]
pub struct Color {
    pub red: u8,
    pub green: u8,
    pub blue: u8,
    pub alpha: u8,
}

impl Color {
    pub fn new(r: u8, g: u8, b: u8, a: u8) -> (c: Color)
        ensures
            c == (Color { red: r, green: g, blue: b, alpha: a }),
    {
        Color { red: r, green: g, blue: b, alpha: a }
    }
}

/// A decoded image: its dimensions and its pixels, row by row.
#[derive(Debug, Default)]
pub struct Bitmap {
    pub width: u64,
    pub height: u64,
    pub pixels: Vec<Color>,
}

/// What can go wrong while reading a sprite file.
#[derive(Debug, Clone, Copy, PartialEq, Eq, Structural)]
pub enum FrmError {
    InvalidSig,
    ReadError,
    SizeMismatch,
}

impl FrmError {
    /// A human-readable description of the error.
    pub fn message(&self) -> (r: &'static str)
        ensures
            *self is InvalidSig ==> r@ == "Invalid Signature"@,
            *self is ReadError ==> r@ == "Error reading file"@,
            *self is SizeMismatch ==> r@ == "Frame size does not match width x height"@,
    {
        match self {
            FrmError::InvalidSig => "Invalid Signature",
            FrmError::ReadError => "Error reading file",
            FrmError::SizeMismatch => "Frame size does not match width x height",
        }
    }
}

/// How far a frame's pixels are moved when drawn.
#[derive(Debug, Default, Clone, Copy, PartialEq, Eq, Structural)]
pub struct PixelShift {
    pub x: i16,
    pub y: i16,
}

/// One frame of a sprite: its dimensions, pixel shift, and one palette
/// index per pixel.
#[derive(Debug, Default)]
pub struct Frame {
    pub width: u16,
    pub height: u16,
    pub size: u32,
    pub shift: PixelShift,
    pub color_index: Vec<u8>,
}

impl Frame {
    /// The declared size matches the dimensions and the pixel data.
    pub open spec fn wf(&self) -> bool {
        self.size == self.width * self.height && self.color_index@.len() == self.size
    }
}

/// The frame fields the parser reads, in order: width, height, size,
/// shift, and the palette indices.
pub type SpecFrame = (u16, u16, u32, i16, i16, Seq<u8>);

/// Reads frames from `pos` until `frame_end`. Each is rejected unless
/// its declared size is exactly width times height.
pub open spec fn frm_frames(data: Seq<u8>, pos: int, frame_end: int) -> Result<
    Seq<SpecFrame>,
    FrmError,
>
    decreases crate::lzss::gap(pos, frame_end),
{
    if pos >= frame_end {
        Ok(Seq::empty())
    } else if pos + 12 > data.len() {
        Err(FrmError::ReadError)
    } else {
        let width = be_u16_at(data, pos);
        let height = be_u16_at(data, pos + 2);
        let size = be_u32_at(data, pos + 4);
        if width * height != size {
            Err(FrmError::SizeMismatch)
        } else {
            let sx = be_i16_at(data, pos + 8);
            let sy = be_i16_at(data, pos + 10);
            if pos + 12 + size > data.len() {
                Err(FrmError::ReadError)
            } else {
                let bytes = data.subrange(pos + 12, pos + 12 + size);
                match frm_frames(data, pos + 12 + size, frame_end) {
                    Ok(rest) => Ok(seq![(width, height, size, sx, sy, bytes)] + rest),
                    Err(e) => Err(e),
                }
            }
        }
    }
}

/// A sprite file: playback fields, per-direction shifts and offsets,
/// and its frames.
#[derive(Debug, Default)]
pub struct FrmFile {
    pub fps: u16,
    pub action_frame: u16,
    pub frames_per_direction: u16,
    pub shifts: Vec<PixelShift>,
    pub frame_offsets: Vec<u32>,
    pub frames: Vec<Frame>,
}

impl FrmFile {
    /// Reads a sprite file: a version word that must be four, the
    /// playback fields, six direction shifts and offsets, then frames
    /// until the declared data size runs out.
    pub fn open(data: &Vec<u8>) -> (r: Result<FrmFile, FrmError>)
        ensures
            data@.len() >= 62 && be_u32_at(data@, 0) != 4 ==> r == Err::<FrmFile, FrmError>(
                FrmError::InvalidSig,
            ),
            data@.len() < 62 ==> r == Err::<FrmFile, FrmError>(FrmError::ReadError),
            data@.len() >= 62 && be_u32_at(data@, 0) == 4 ==> (match frm_frames(
                data@,
                62,
                62 + be_u32_at(data@, 58),
            ) {
                Ok(fs) => r matches Ok(f) && f.fps == be_u16_at(data@, 4) && f.action_frame
                    == be_u16_at(data@, 6) && f.frames_per_direction == be_u16_at(data@, 8)
                    && f.shifts@.len() == 6 && (forall|i: int|
                    0 <= i < 6 ==> f.shifts@[i] == (PixelShift {
                        x: be_i16_at(data@, 10 + 2 * i),
                        y: be_i16_at(data@, 22 + 2 * i),
                    })) && f.frame_offsets@.len() == 6 && (forall|i: int|
                    0 <= i < 6 ==> f.frame_offsets@[i] == be_u32_at(data@, 34 + 4 * i))
                    && f.frames@.len() == fs.len() && (forall|i: int|
                    0 <= i < fs.len() ==> (#[trigger] f.frames@[i]).width == fs[i].0
                        && f.frames@[i].height == fs[i].1 && f.frames@[i].size == fs[i].2
                        && f.frames@[i].shift == (PixelShift { x: fs[i].3, y: fs[i].4 })
                        && f.frames@[i].color_index@ == fs[i].5 && f.frames@[i].wf()),
                Err(e) => r == Err::<FrmFile, FrmError>(e),
            }),
    {
        if data.len() < 62 {
            return Err(FrmError::ReadError);
        }
        let ver = read_be_u32(data, 0).unwrap();
        if ver != 4 {
            return Err(FrmError::InvalidSig);
        }
        let fps = read_be_u16(data, 4).unwrap();
        let action_frame = read_be_u16(data, 6).unwrap();
        let frames_per_direction = read_be_u16(data, 8).unwrap();
        let mut shifts: Vec<PixelShift> = Vec::new();
        let mut i: usize = 0;
        #[verifier::loop_isolation(false)]
        while i < 6
            invariant
                i <= 6,
                shifts@.len() == i,
                data@.len() >= 62,
                forall|j: int|
                    0 <= j < i ==> shifts@[j] == (PixelShift {
                        x: be_i16_at(data@, 10 + 2 * j),
                        y: be_i16_at(data@, 22 + 2 * j),
                    }),
            decreases 6 - i,
        {
            shifts.push(
                PixelShift {
                    x: read_be_i16(data, 10 + 2 * i).unwrap(),
                    y: read_be_i16(data, 22 + 2 * i).unwrap(),
                },
            );
            i = i + 1;
        }
        let mut frame_offsets: Vec<u32> = Vec::new();
        let mut i: usize = 0;
        #[verifier::loop_isolation(false)]
        while i < 6
            invariant
                i <= 6,
                frame_offsets@.len() == i,
                data@.len() >= 62,
                forall|j: int| 0 <= j < i ==> frame_offsets@[j] == be_u32_at(data@, 34 + 4 * j),
            decreases 6 - i,
        {
            frame_offsets.push(read_be_u32(data, 34 + 4 * i).unwrap());
            i = i + 1;
        }
        let data_size = read_be_u32(data, 58).unwrap();
        let mut frames: Vec<Frame> = Vec::new();
        let mut pos: usize = 62;
        let ghost frame_end = 62 + be_u32_at(data@, 58) as int;
        let ghost goal = frm_frames(data@, 62, frame_end);
        #[verifier::loop_isolation(false)]
        while (pos as u64) < 62 + (data_size as u64)
            invariant
                62 <= pos <= data@.len(),
                (match frm_frames(data@, pos as int, frame_end) {
                    Ok(rest) => goal matches Ok(all) && all.len() == frames@.len() + rest.len() && (
                    forall|j: int|
                        0 <= j < frames@.len() ==> all[j] == ((#[trigger] frames@[j]).width,
                        frames@[j].height, frames@[j].size, frames@[j].shift.x, frames@[j].shift.y,
                        frames@[j].color_index@)) && (forall|j: int|
                        frames@.len() <= j < all.len() ==> all[j] == rest[j - frames@.len()]),
                    Err(e) => goal == Err::<Seq<SpecFrame>, FrmError>(e),
                }),
                forall|j: int| 0 <= j < frames@.len() ==> (#[trigger] frames@[j]).wf(),
            decreases crate::lzss::gap(pos as int, frame_end),
        {
            let ghost pre = frm_frames(data@, pos as int, frame_end);
            if data.len() - pos < 12 {
                return Err(FrmError::ReadError);
            }
            let width = read_be_u16(data, pos).unwrap();
            let height = read_be_u16(data, pos + 2).unwrap();
            let size = read_be_u32(data, pos + 4).unwrap();
            proof {
                vstd::arithmetic::mul::lemma_mul_upper_bound(
                    width as int,
                    0xFFFF,
                    height as int,
                    0xFFFF,
                );
            }
            if (width as u64) * (height as u64) != size as u64 {
                return Err(FrmError::SizeMismatch);
            }
            let sx = read_be_i16(data, pos + 8).unwrap();
            let sy = read_be_i16(data, pos + 10).unwrap();
            if size as usize > data.len() - (pos + 12) {
                return Err(FrmError::ReadError);
            }
            let bytes = read_slice(data, pos + 12, size as usize).unwrap();
            frames.push(
                Frame {
                    width,
                    height,
                    size,
                    shift: PixelShift { x: sx, y: sy },
                    color_index: bytes,
                },
            );
            pos = pos + 12 + size as usize;
            proof {
                let post = frm_frames(data@, pos as int, frame_end);
                let f = frames@.last();
                let tup = (f.width, f.height, f.size, f.shift.x, f.shift.y, f.color_index@);
                match post {
                    Ok(rest2) => {
                        assert(pre == Ok::<Seq<SpecFrame>, FrmError>(seq![tup] + rest2));
                    },
                    Err(_) => {},
                }
            }
        }
        Ok(FrmFile { fps, action_frame, frames_per_direction, shifts, frame_offsets, frames })
    }
}


/// Where a pixel lands after a frame's shift: out-of-frame pixels are
/// dropped.
pub open spec fn spec_pixel_shift(index: int, w: int, h: int, sx: int, sy: int) -> Option<int> {
    if sx == 0 && sy == 0 {
        Some(index)
    } else {
        let x = index % w;
        let y = index / w;
        let nx = x + sx;
        let ny = y + sy;
        if 0 <= nx < w && 0 <= ny < h && 0 <= nx + ny * w < w * h {
            Some(nx + ny * w)
        } else {
            None
        }
    }
}

/// A shift moves every surviving pixel by the same flat distance.
proof fn lemma_shift_linear(index: int, w: int, h: int, sx: int, sy: int)
    requires
        w > 0,
        0 <= index,
    ensures
        spec_pixel_shift(index, w, h, sx, sy) matches Some(q) ==> q == index + sx + sy * w,
{
    if !(sx == 0 && sy == 0) {
        vstd::arithmetic::div_mod::lemma_fundamental_div_mod(index, w);
        assert((index % w + sx) + (index / w + sy) * w == index + sx + sy * w) by (nonlinear_arith)
            requires
                index == w * (index / w) + (index % w),
        ;
    }
}

/// The transparent pixel every bitmap starts from.
pub open spec fn clear_pixel() -> Color {
    Color { red: 0, green: 0, blue: 0, alpha: 0 }
}

/// The opaque color a palette index paints.
pub open spec fn painted_pixel(colors: Seq<crate::pal::Color>, index: u8) -> Color {
    Color {
        red: colors[index as int].red,
        green: colors[index as int].green,
        blue: colors[index as int].blue,
        alpha: 255,
    }
}

/// What decoding one frame against a palette yields: every pixel that
/// the shift keeps in frame paints its palette color at its shifted
/// place (index zero stays transparent), and every other pixel is
/// transparent black.
pub open spec fn decoded_bitmap(f: Frame, colors: Seq<crate::pal::Color>, img: Bitmap) -> bool {
    &&& img.width == f.width
    &&& img.height == f.height
    &&& img.pixels@.len() == f.size
    &&& (forall|p: int|
        0 <= p < f.size && spec_pixel_shift(
            p,
            f.width as int,
            f.height as int,
            f.shift.x as int,
            f.shift.y as int,
        ) is Some && #[trigger] f.color_index@[p] > 0 ==> img.pixels@[spec_pixel_shift(
            p,
            f.width as int,
            f.height as int,
            f.shift.x as int,
            f.shift.y as int,
        )->Some_0] == painted_pixel(colors, f.color_index@[p]))
    &&& (forall|q: int|
        0 <= q < f.size ==> #[trigger] img.pixels@[q] == clear_pixel() || (exists|p: int|
            0 <= p < f.size && #[trigger] spec_pixel_shift(
                p,
                f.width as int,
                f.height as int,
                f.shift.x as int,
                f.shift.y as int,
            ) == Some(q) && f.color_index@[p] > 0))
}

impl FrmFile {
    /// Where a pixel of the given frame lands after the frame's shift,
    /// if it stays inside the frame.
    pub fn apply_pixel_shift(index: usize, frame: &Frame) -> (r: Option<usize>)
        requires
            frame.width > 0,
            index < frame.width * frame.height,
        ensures
            (match spec_pixel_shift(
                index as int,
                frame.width as int,
                frame.height as int,
                frame.shift.x as int,
                frame.shift.y as int,
            ) {
                Some(q) => r matches Some(v) && v == q,
                None => r is None,
            }),
    {
        let sx = frame.shift.x;
        let sy = frame.shift.y;
        if sx == 0 && sy == 0 {
            return Some(index);
        }
        let w = frame.width as i64;
        let h = frame.height as i64;
        proof {
            vstd::arithmetic::mul::lemma_mul_upper_bound(
                frame.width as int,
                0xFFFF,
                frame.height as int,
                0xFFFF,
            );
        }
        let x = (index as i64) % w;
        let y = (index as i64) / w;
        let nx = x + (sx as i64);
        let ny = y + (sy as i64);
        if 0 <= nx && nx < w && 0 <= ny && ny < h {
            proof {
                vstd::arithmetic::mul::lemma_mul_upper_bound(ny as int, 0xFFFF, w as int, 0xFFFF);
                assert(ny * w >= 0) by (nonlinear_arith)
                    requires
                        ny >= 0,
                        w > 0,
                ;
            }
            let ni = nx + ny * w;
            proof {
                assert(nx + ny * w < w * (h as int)) by (nonlinear_arith)
                    requires
                        0 <= nx < w,
                        0 <= ny < h,
                        w > 0,
                ;
                vstd::arithmetic::mul::lemma_mul_upper_bound(w as int, 0xFFFF, h as int, 0xFFFF);
            }
            if 0 <= ni && (ni as u64) < (frame.width as u64) * (frame.height as u64) {
                Some(ni as usize)
            } else {
                None
            }
        } else {
            None
        }
    }

    /// Decodes every frame against a palette: each surviving pixel takes
    /// its palette color fully opaque, all other pixels stay transparent
    /// black. Index zero is transparent.
    #[verifier::loop_isolation(false)]
    pub fn decode(&self, palette: &PalFile) -> (r: Vec<Bitmap>)
        requires
            palette.wf(),
            forall|i: int| 0 <= i < self.frames@.len() ==> (#[trigger] self.frames@[i]).wf(),
        ensures
            r@.len() == self.frames@.len(),
            forall|i: int|
                0 <= i < r@.len() ==> decoded_bitmap(self.frames@[i], palette.colors@, #[trigger] r@[i]),
    {
        let mut images: Vec<Bitmap> = Vec::new();
        let n = self.frames.len();
        let mut i: usize = 0;
        while i < n
            invariant
                i <= n,
                images@.len() == i,
                forall|k: int|
                    0 <= k < i ==> decoded_bitmap(
                        self.frames@[k],
                        palette.colors@,
                        #[trigger] images@[k],
                    ),
            decreases n - i,
        {
            let f = &self.frames[i];
            let ghost fw = f.width as int;
            let ghost fh = f.height as int;
            let ghost fsx = f.shift.x as int;
            let ghost fsy = f.shift.y as int;
            let size = f.size as usize;
            let mut pixels: Vec<Color> = Vec::new();
            let mut p: usize = 0;
            while p < size
                invariant
                    p <= size,
                    pixels@.len() == p,
                    forall|q: int| 0 <= q < p ==> #[trigger] pixels@[q] == clear_pixel(),
                decreases size - p,
            {
                pixels.push(Color { red: 0, green: 0, blue: 0, alpha: 0 });
                p = p + 1;
            }
            if f.width > 0 {
                let mut p: usize = 0;
                while p < size
                    invariant
                        p <= size,
                        f == self.frames@[i as int],
                        f.wf(),
                        f.width > 0,
                        size == f.size,
                        palette.wf(),
                        pixels@.len() == f.size,
                        forall|s: int|
                            0 <= s < p && spec_pixel_shift(s, fw, fh, fsx, fsy) is Some
                                && #[trigger] f.color_index@[s] > 0 ==> pixels@[spec_pixel_shift(
                                s,
                                fw,
                                fh,
                                fsx,
                                fsy,
                            )->Some_0] == painted_pixel(palette.colors@, f.color_index@[s]),
                        forall|q: int|
                            0 <= q < f.size ==> #[trigger] pixels@[q] == clear_pixel() || (exists|
                                s: int,
                            |
                                0 <= s < p && #[trigger] spec_pixel_shift(s, fw, fh, fsx, fsy)
                                    == Some(q) && f.color_index@[s] > 0),
                    decreases size - p,
                {
                    let palette_index = f.color_index[p];
                    match FrmFile::apply_pixel_shift(p, f) {
                        Some(idx) => {
                            proof {
                                lemma_shift_linear(p as int, fw, fh, fsx, fsy);
                            }
                            if palette_index > 0 {
                                let rgb = palette.colors[palette_index as usize];
                                let c = Color {
                                    red: rgb.red,
                                    green: rgb.green,
                                    blue: rgb.blue,
                                    alpha: 255,
                                };
                                let ghost pixels0 = pixels@;
                                pixels.set(idx, c);
                                proof {
                                    assert forall|s: int|
                                        0 <= s < p + 1 && spec_pixel_shift(s, fw, fh, fsx, fsy)
                                            is Some && #[trigger] f.color_index@[s] > 0 implies pixels@[spec_pixel_shift(
                                        s,
                                        fw,
                                        fh,
                                        fsx,
                                        fsy,
                                    )->Some_0] == painted_pixel(
                                        palette.colors@,
                                        f.color_index@[s],
                                    ) by {
                                        lemma_shift_linear(s, fw, fh, fsx, fsy);
                                        lemma_shift_linear(p as int, fw, fh, fsx, fsy);
                                    }
                                }
                            }
                        },
                        None => {},
                    }
                    p = p + 1;
                }
            }
            images.push(Bitmap { width: f.width as u64, height: f.height as u64, pixels });
            i = i + 1;
            proof {
                assert(decoded_bitmap(self.frames@[i - 1], palette.colors@, images@[i - 1]));
            }
        }
        images
    }
}

/// The flat RGBA bytes of a pixel run, four bytes per pixel.
pub open spec fn rgba_bytes(pixels: Seq<Color>) -> Seq<u8> {
    rgba_suffix(pixels, 0)
}

/// The PNG encoding of a 32-bit RGBA image, when the encoder accepts
/// the dimensions.
pub uninterp spec fn png32(pixels: Seq<u8>, w: nat, h: nat) -> Option<Seq<u8>>;

/// Relies on lodepng's `encode32`: encodes raw RGBA bytes (four per
/// pixel) as a PNG image in memory; whether it succeeds and what it
/// yields depend on the pixels and dimensions alone. The byte count
/// must match the dimensions: on a mismatch the encoder asserts in
/// debug builds instead of returning its error.
#[verifier::external_body]
fn encode_png32(pixels: &Vec<u8>, w: usize, h: usize) -> (r: Option<Vec<u8>>)
    requires
        pixels@.len() == w * h * 4,
    ensures
        r is Some <==> png32(pixels@, w as nat, h as nat) is Some,
        r matches Some(v) ==> Some(v@) == png32(pixels@, w as nat, h as nat),
{
    lodepng::encode32(pixels.as_slice(), w, h).ok()
}

impl Bitmap {
    /// Encodes the bitmap as a PNG image; fails exactly when the
    /// dimensions do not fit the machine or the encoder rejects them.
    #[verifier::loop_isolation(false)]
    pub fn to_png(&self) -> (r: Option<Vec<u8>>)
        requires
            self.pixels@.len() == self.width * self.height,
            self.pixels@.len() * 4 <= usize::MAX,
        ensures
            self.width <= usize::MAX && self.height <= usize::MAX ==> (r is Some <==> png32(
                rgba_bytes(self.pixels@),
                self.width as nat,
                self.height as nat,
            ) is Some),
            r matches Some(v) ==> Some(v@) == png32(
                rgba_bytes(self.pixels@),
                self.width as nat,
                self.height as nat,
            ),
            self.width > usize::MAX || self.height > usize::MAX ==> r is None,
    {
        if self.width > usize::MAX as u64 || self.height > usize::MAX as u64 {
            return None;
        }
        let mut bytes: Vec<u8> = Vec::new();
        let n = self.pixels.len();
        let mut i: usize = 0;
        while i < n
            invariant
                i <= n == self.pixels@.len(),
                bytes@.len() == 4 * i,
                bytes@ + rgba_suffix(self.pixels@, i as int) == rgba_bytes(self.pixels@),
            decreases n - i,
        {
            let c = self.pixels[i];
            let ghost b0 = bytes@;
            bytes.push(c.red);
            bytes.push(c.green);
            bytes.push(c.blue);
            bytes.push(c.alpha);
            i = i + 1;
            proof {
                assert(rgba_suffix(self.pixels@, i - 1) == seq![c.red, c.green, c.blue, c.alpha]
                    + rgba_suffix(self.pixels@, i as int));
                assert(bytes@ + rgba_suffix(self.pixels@, i as int) =~= b0 + rgba_suffix(
                    self.pixels@,
                    i - 1,
                ));
            }
        }
        proof {
            assert(rgba_suffix(self.pixels@, n as int) =~= Seq::<u8>::empty());
            assert(bytes@ + Seq::<u8>::empty() =~= bytes@);
            assert(bytes@.len() == (self.width as usize) * (self.height as usize) * 4);
        }
        encode_png32(&bytes, self.width as usize, self.height as usize)
    }
}

/// The RGBA bytes of the pixels from `i` on.
pub open spec fn rgba_suffix(pixels: Seq<Color>, i: int) -> Seq<u8>
    decreases pixels.len() - i,
{
    if i < 0 || i >= pixels.len() {
        Seq::empty()
    } else {
        seq![pixels[i].red, pixels[i].green, pixels[i].blue, pixels[i].alpha] + rgba_suffix(
            pixels,
            i + 1,
        )
    }
}

} // verus!
