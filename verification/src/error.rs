//! The errors of the codecs, each with the place that it speaks of.

use vstd::prelude::*;

verus! {

/// The three classes of failure.
#[derive(Clone, Copy, Debug, PartialEq, Eq, Structural)]
pub enum ErrorKind {
    /// The bytes read are malformed: nothing is returned.
    StructuralError,
    /// One operation cannot be done on its input; what was loaded is untouched.
    SemanticError,
    /// What was written does not fit the place it is meant for.
    ConsistencyError,
}

/// What can go wrong in reading or writing an image.
#[derive(Clone, Copy, Debug, PartialEq, Eq, Structural)]
pub enum Error {
    /// The data pack is shorter than the 80 bytes of its directory.
    DirectoryTooShort,
    /// Table `table` ends before it starts, or the last starts after the end.
    InvalidTableOffset { table: usize },
    /// Block `block` of an offset-indexed table ends before it starts, or
    /// starts after the end.
    InvalidBlockOffset { block: usize },
    /// Record `record` is cut off by the end of its table.
    RecordTruncated { record: usize },
    /// Table `table` of a data pack cannot be read: its record or block
    /// `record` is cut off, out of order, or names what does not exist.
    TableInvalid { table: usize, record: usize },
    /// Frame `frame` names layers that do not exist.
    LayersNotFound { frame: usize },
    /// The sprite pack is shorter than its header of 16 bytes.
    SpritePackTooShort,
    /// Section `section` of the sprite pack ends before it starts, or lies
    /// outside the pack.
    InvalidSectionOffset { section: usize },
    /// The pixels of sprite `sprite` lie outside the pixel data.
    PixelDataNotFound { sprite: usize },
    /// Image `image` names a sprite that does not exist, or has no sprites.
    SpriteNotFound { image: usize },
    /// Image `image` names colours outside the palettes.
    PaletteNotFound { image: usize },
    /// The card is shorter than its header.
    CardTooShort,
    /// The card holds fewer than two packs.
    TooFewPacks,
    /// Pack `pack` is missing, or lies outside the card.
    PackNotFound { pack: usize },
    /// The firmware image is shorter than the places it is read at.
    FirmwareTooShort,
    /// The marker of the menu strings does not occur.
    MenuStringsNotFound,
    /// The menu strings are cut off.
    MenuStringsTruncated,
    /// Image `image` uses `count` colours, more than 256.
    TooManyColors { image: usize, count: usize },
    /// An image of `width` by `height` pixels was given where one of
    /// `expected_width` by `expected_height` is needed.
    DimensionMismatch { expected_width: usize, expected_height: usize, width: usize, height: usize },
    /// Pixel `pixel` has a colour that the palette lacks.
    ColorNotFound { pixel: usize },
    /// Sprite `sprite` has a size or depth that cannot be written.
    InvalidSprite { sprite: usize },
    /// Image `image` is not a whole number of tiles, or lacks pixels.
    InvalidImage { image: usize },
    /// A count or offset of `size` does not fit the field that holds it, whose
    /// largest value is `limit`.
    SizeExceeded { size: usize, limit: usize },
    /// The card's `size` bytes do not fit its `limit`.
    DataTooLarge { size: usize, limit: usize },
    /// The card type cannot be written.
    InvalidCardType,
    /// A vendor or product id is not 16 characters of one byte each.
    InvalidCardId,
    /// The size chosen is not one of a card.
    InvalidCardSize,
    /// `size` bytes were written where exactly `expected` are needed.
    SizeMismatch { expected: usize, size: usize },
    /// The bytes of an image are not exactly those of its pixels.
    InvalidRaster,
    /// An image is to be cut into no parts.
    NoSubimages,
}

impl Error {
    /// The class that each error belongs to.
    pub open spec fn spec_kind(self) -> ErrorKind {
        match self {
            Error::TooManyColors { .. }
            | Error::DimensionMismatch { .. }
            | Error::ColorNotFound { .. }
            | Error::InvalidSprite { .. }
            | Error::InvalidImage { .. }
            | Error::SizeExceeded { .. }
            | Error::DataTooLarge { .. }
            | Error::InvalidCardType
            | Error::InvalidCardId
            | Error::InvalidCardSize
            | Error::InvalidRaster
            | Error::NoSubimages => ErrorKind::SemanticError,
            Error::SizeMismatch { .. } => ErrorKind::ConsistencyError,
            _ => ErrorKind::StructuralError,
        }
    }

    /// The class that the error belongs to.
    #[verifier::when_used_as_spec(spec_kind)]
    pub fn kind(self) -> (kind: ErrorKind)
        ensures
            kind == self.spec_kind(),
    {
        match self {
            Error::TooManyColors { .. }
            | Error::DimensionMismatch { .. }
            | Error::ColorNotFound { .. }
            | Error::InvalidSprite { .. }
            | Error::InvalidImage { .. }
            | Error::SizeExceeded { .. }
            | Error::DataTooLarge { .. }
            | Error::InvalidCardType
            | Error::InvalidCardId
            | Error::InvalidCardSize
            | Error::InvalidRaster
            | Error::NoSubimages => ErrorKind::SemanticError,
            Error::SizeMismatch { .. } => ErrorKind::ConsistencyError,
            _ => ErrorKind::StructuralError,
        }
    }
}

} // verus!
