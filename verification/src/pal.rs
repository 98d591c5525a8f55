use vstd::prelude::*;

verus! {

/// Number of palette colors.
pub const COLOR_COUNT: usize = 256;

/// Number of entries in the color conversion table.
pub const CONVERSION_TABLE_COUNT: usize = 32768;

/// One palette color.
#[derive(Debug, Default, Clone, Copy, PartialEq, Eq, Structural)]
pub struct Color {
    pub red: u8,
    pub green: u8,
    pub blue: u8,
}

impl Color {
    pub fn new(r: u8, g: u8, b: u8) -> (c: Color)
        ensures
            c == (Color { red: r, green: g, blue: b }),
    {
        Color { red: r, green: g, blue: b }
    }
}

/// One channel of one palette color: channels of every color but the
/// first are scaled up by four when below 64.
pub open spec fn pal_channel(data: Seq<u8>, k: int, ch: int) -> u8 {
    let b = data[3 * k + ch];
    if b < 64 && k > 0 {
        (b * 4) as u8
    } else {
        b
    }
}

/// A color palette: 256 colors followed by a 32768-entry conversion
/// table.
#[derive(Debug)]
pub struct PalFile {
    pub colors: Vec<Color>,
    pub conversion_table: Vec<u8>,
}

impl PalFile {
    /// The palette has its full complement of colors and table entries.
    pub open spec fn wf(&self) -> bool {
        self.colors@.len() == COLOR_COUNT && self.conversion_table@.len()
            == CONVERSION_TABLE_COUNT
    }

    /// Reads a palette: 256 three-byte colors, then the conversion
    /// table. Shorter data is rejected.
    pub fn open(data: &Vec<u8>) -> (r: Option<PalFile>)
        ensures
            data@.len() >= 3 * COLOR_COUNT + CONVERSION_TABLE_COUNT ==> (r matches Some(p) && p.wf()
                && (forall|k: int|
                0 <= k < COLOR_COUNT ==> p.colors@[k] == (Color {
                    red: pal_channel(data@, k, 0),
                    green: pal_channel(data@, k, 1),
                    blue: pal_channel(data@, k, 2),
                })) && p.conversion_table@ == data@.subrange(
                3 * COLOR_COUNT as int,
                3 * COLOR_COUNT + CONVERSION_TABLE_COUNT,
            )),
            data@.len() < 3 * COLOR_COUNT + CONVERSION_TABLE_COUNT ==> r is None,
    {
        if data.len() < 3 * COLOR_COUNT + CONVERSION_TABLE_COUNT {
            return None;
        }
        let mut colors: Vec<Color> = Vec::new();
        let mut k: usize = 0;
        #[verifier::loop_isolation(false)]
        while k < COLOR_COUNT
            invariant
                k <= COLOR_COUNT,
                colors@.len() == k,
                forall|j: int|
                    0 <= j < k ==> colors@[j] == (Color {
                        red: pal_channel(data@, j, 0),
                        green: pal_channel(data@, j, 1),
                        blue: pal_channel(data@, j, 2),
                    }),
            decreases COLOR_COUNT - k,
        {
            let r = data[3 * k];
            let g = data[3 * k + 1];
            let b = data[3 * k + 2];
            let c = if k > 0 {
                Color {
                    red: if r < 64 {
                        r * 4
                    } else {
                        r
                    },
                    green: if g < 64 {
                        g * 4
                    } else {
                        g
                    },
                    blue: if b < 64 {
                        b * 4
                    } else {
                        b
                    },
                }
            } else {
                Color { red: r, green: g, blue: b }
            };
            colors.push(c);
            k = k + 1;
        }
        let mut conversion_table: Vec<u8> = Vec::new();
        let mut i: usize = 3 * COLOR_COUNT;
        #[verifier::loop_isolation(false)]
        while i < 3 * COLOR_COUNT + CONVERSION_TABLE_COUNT
            invariant
                3 * COLOR_COUNT <= i <= 3 * COLOR_COUNT + CONVERSION_TABLE_COUNT,
                conversion_table@ == data@.subrange(3 * COLOR_COUNT as int, i as int),
            decreases 3 * COLOR_COUNT + CONVERSION_TABLE_COUNT - i,
        {
            conversion_table.push(data[i]);
            i = i + 1;
            proof {
                assert(conversion_table@ =~= data@.subrange(3 * COLOR_COUNT as int, i as int));
            }
        }
        Some(PalFile { colors, conversion_table })
    }
}

} // verus!
