//! Colours: 15 bits of red, green and blue, and one bit for transparency.

use vstd::prelude::*;
use vstd::std_specs::cmp::PartialEqSpecImpl;
use crate::data_view::{le_u16, word_of};
use crate::error::Error;

verus! {

/// A colour as red, green, blue and alpha. Two colours are equal where the
/// words that hold them are.
#[derive(Debug, Default, Clone, Copy, Eq)]
pub struct Color(pub u8, pub u8, pub u8, pub u8);

/// The word that holds a colour: bit 15 is set where alpha is zero, bits 10
/// to 14 hold red, bits 5 to 9 green and bits 0 to 4 blue.
pub open spec fn color_word(color: Color) -> u16 {
    (if color.3 == 0 {
        0x8000u16
    } else {
        0u16
    }) | ((color.0 as u16) << 7) | ((color.1 as u16) << 2) | ((color.2 as u16) >> 3)
}

/// The colour that a word holds, each channel moved up to eight bits.
pub open spec fn word_color(word: u16) -> Color {
    Color(
        ((word & 0x7c00) >> 7) as u8,
        ((word & 0x03e0) >> 2) as u8,
        ((word & 0x001f) << 3) as u8,
        if (word >> 15) > 0 {
            0u8
        } else {
            255u8
        },
    )
}

/// The colour of a pixel of an image: transparent black where the pixel is
/// not opaque, else the pixel with each channel cut to five bits.
pub open spec fn rgba_color(rgba: Seq<u8>) -> Color {
    if rgba[3] < 255 {
        Color(0, 0, 0, 0)
    } else {
        Color(
            ((((rgba[0] as u16) << 7) & 0x7c00) >> 7) as u8,
            ((((rgba[1] as u16) << 2) & 0x03e0) >> 2) as u8,
            ((((rgba[2] as u16) >> 3) & 0x001f) << 3) as u8,
            255,
        )
    }
}

impl Color {
    /// The colour of the four channels given.
    pub fn new(r: u8, g: u8, b: u8, a: u8) -> (color: Color)
        ensures
            color == Color(r, g, b, a),
    {
        Color(r, g, b, a)
    }

    /// The four channels of the colour.
    pub fn as_vec(&self) -> (channels: Vec<u8>)
        ensures
            channels@ == seq![self.0, self.1, self.2, self.3],
    {
        let mut channels: Vec<u8> = Vec::new();
        channels.push(self.0);
        channels.push(self.1);
        channels.push(self.2);
        channels.push(self.3);
        assert(channels@ =~= seq![self.0, self.1, self.2, self.3]);
        channels
    }

    /// The colour as a pixel of an image.
    pub fn as_rgba(&self) -> (rgba: [u8; 4])
        ensures
            rgba@ == seq![self.0, self.1, self.2, self.3],
    {
        let rgba = [self.0, self.1, self.2, self.3];
        assert(rgba@ =~= seq![self.0, self.1, self.2, self.3]);
        rgba
    }

    /// The colour of a pixel of an image.
    pub fn from_rgba(rgba: &[u8; 4]) -> (color: Color)
        ensures
            color == rgba_color(rgba@),
    {
        let alpha = rgba[3];
        if alpha < 255 {
            Color(0, 0, 0, 0)
        } else {
            let r = rgba[0] as u16;
            let g = rgba[1] as u16;
            let b = rgba[2] as u16;
            assert((((r << 7) & 0x7c00) >> 7) < 256 && (((g << 2) & 0x03e0) >> 2) < 256 && (((b
                >> 3) & 0x001f) << 3) < 256) by (bit_vector);
            Color(
                (((r << 7) & 0x7c00) >> 7) as u8,
                (((g << 2) & 0x03e0) >> 2) as u8,
                (((b >> 3) & 0x001f) << 3) as u8,
                255,
            )
        }
    }

    /// The word of the colour.
    pub fn as_word(&self) -> (word: u16)
        ensures
            word == color_word(*self),
    {
        let a: u16 = if self.3 == 0 {
            0x8000
        } else {
            0
        };
        let r = (self.0 as u16) << 7;
        let g = (self.1 as u16) << 2;
        let b = (self.2 as u16) >> 3;
        a | r | g | b
    }

    /// The colour of a word.
    pub fn from_word(word: u16) -> (color: Color)
        ensures
            color == word_color(word),
    {
        assert(((word & 0x7c00) >> 7) < 256 && ((word & 0x03e0) >> 2) < 256 && ((word & 0x001f)
            << 3) < 256) by (bit_vector);
        let r = ((word & 0x7c00) >> 7) as u8;
        let g = ((word & 0x03e0) >> 2) as u8;
        let b = ((word & 0x001f) << 3) as u8;
        let a: u8 = if (word >> 15) > 0 {
            0
        } else {
            255
        };
        Color(r, g, b, a)
    }

    /// The colour of the two bytes of a word.
    pub fn from_bytes(data: [u8; 2]) -> (color: Color)
        ensures
            color == word_color(word_of(data@[0], data@[1])),
    {
        let word = data[0] as u16 + 256 * (data[1] as u16);
        Color::from_word(word)
    }

    /// The two bytes of the word of the colour.
    pub fn as_bytes(&self) -> (bytes: [u8; 2])
        ensures
            bytes@ == seq![(color_word(*self) % 256) as u8, (color_word(*self) / 256) as u8],
    {
        let word = self.as_word();
        let bytes = [(word % 256) as u8, (word / 256) as u8];
        assert(bytes@ =~= seq![(word % 256) as u8, (word / 256) as u8]);
        bytes
    }
}

impl PartialEq for Color {
    fn eq(&self, other: &Self) -> (equal: bool) {
        self.as_word() == other.as_word()
    }
}

impl PartialEqSpecImpl for Color {
    open spec fn obeys_eq_spec() -> bool {
        true
    }

    open spec fn eq_spec(&self, other: &Self) -> bool {
        color_word(*self) == color_word(*other)
    }
}

/// Every word holds a colour, and the word of that colour is the word itself.
pub proof fn lemma_color_word_round_trip(word: u16)
    ensures
        color_word(word_color(word)) == word,
{
    assert(((word & 0x7c00) >> 7) < 256 && ((word & 0x03e0) >> 2) < 256 && ((word & 0x001f) << 3)
        < 256) by (bit_vector);
    assert(((if (word >> 15) > 0 {
        0x8000u16
    } else {
        0u16
    }) | (((((word & 0x7c00) >> 7) as u8) as u16) << 7) | (((((word & 0x03e0) >> 2) as u8) as u16)
        << 2) | (((((word & 0x001f) << 3) as u8) as u16) >> 3)) == word) by (bit_vector);
}

/// The colours of a table of palettes, one for each word.
pub open spec fn colors_of(data: Seq<u8>) -> Seq<Color> {
    Seq::new(data.len() / 2, |i: int| word_color(le_u16(data, 2 * i)))
}

/// The words of colours.
pub open spec fn color_words(colors: Seq<Color>) -> Seq<u16> {
    Seq::new(colors.len(), |i: int| color_word(colors[i]))
}

/// The colours of a table of palettes. This never fails.
pub fn get_palettes(data: &[u8]) -> (result: Result<Vec<Color>, Error>)
    ensures
        result matches Ok(colors) && colors@ == colors_of(data@),
{
    let mut colors: Vec<Color> = Vec::new();
    let count = data.len() / 2;
    let mut i: usize = 0;
    while i < count
        invariant
            i <= count,
            count == data.len() / 2,
            colors@.len() == i,
            forall|k: int| 0 <= k < i ==> #[trigger] colors@[k] == word_color(le_u16(data@, 2 * k)),
        decreases count - i,
    {
        let pair = [data[i * 2], data[i * 2 + 1]];
        let color = Color::from_bytes(pair);
        colors.push(color);
        i += 1;
    }
    assert(colors@ =~= colors_of(data@));
    Ok(colors)
}

/// The table of the colours given, a word each. This never fails.
pub fn save_palettes(colors: &[Color]) -> (result: Result<Vec<u8>, Error>)
    ensures
        result matches Ok(data) && data@ == crate::data_view::bytes_of_words(color_words(colors@)),
{
    let mut words: Vec<u16> = Vec::new();
    let n = colors.len();
    let mut i: usize = 0;
    while i < n
        invariant
            i <= n,
            n == colors@.len(),
            words@.len() == i,
            forall|k: int| 0 <= k < i ==> #[trigger] words@[k] == color_word(colors@[k]),
        decreases n - i,
    {
        words.push(colors[i].as_word());
        i += 1;
    }
    assert(words@ =~= color_words(colors@));
    Ok(crate::data_view::words_to_bytes(words.as_slice()))
}

} // verus!
