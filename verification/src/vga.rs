//! The interfaces between the kernel and its display: a pixel display, and a
//! text console drawn on it.

use vstd::prelude::*;

verus! {

/// The colour of one pixel.
#[derive(Clone, Copy, PartialEq, Eq, Structural, Debug)]
pub struct Pixel {
    /// Intensity of red.
    pub red: u8,
    /// Intensity of green.
    pub green: u8,
    /// Intensity of blue.
    pub blue: u8,
}

/// A display that is drawn on pixel by pixel.
pub trait VGADriver {
    /// The number of pixels in a row.
    fn width(&self) -> usize;

    /// The number of rows.
    fn height(&self) -> usize;

    /// Moves the picture up by `pixels` rows.
    fn shift_vertical(&self, pixels: usize);

    /// Gives the pixel in column `x` of row `y` the colour `value`.
    fn set_pixel(&self, x: usize, y: usize, value: Pixel);
}

/// A console that understands ANSI colour sequences in the text it is given.
pub trait AnsiConsoleDriver {
    /// Writes `string` to the console, in the colours that its escape
    /// sequences select.
    fn write_str(&mut self, string: &str);
}

} // verus!
