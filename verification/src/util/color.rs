//! Colors with 8-bit channels.

use vstd::prelude::*;

verus! {

/// The four channels of a color, each from 0 (none) to 255 (full).
pub struct Rgba {
    pub red: u8,
    pub green: u8,
    pub blue: u8,
    pub alpha: u8,
}

/// A color with a red, a green, a blue and an alpha channel.
#[derive(Clone, Copy, PartialEq, Eq, Structural)]
pub struct Color {
    red: u8,
    green: u8,
    blue: u8,
    alpha: u8,
}

impl View for Color {
    type V = Rgba;

    closed spec fn view(&self) -> Rgba {
        Rgba { red: self.red, green: self.green, blue: self.blue, alpha: self.alpha }
    }
}

/// Colors are equal exactly when their channels are.
pub proof fn lemma_equal_iff_same_channels(a: Color, b: Color)
    ensures
        a == b <==> a@ == b@,
{
}

impl Color {
    /// Opaque black.
    pub fn black() -> (color: Color)
        ensures
            color@ == (Rgba { red: 0, green: 0, blue: 0, alpha: 255 }),
    {
        Color::from_rgb(0, 0, 0)
    }

    /// Opaque white.
    pub fn white() -> (color: Color)
        ensures
            color@ == (Rgba { red: 255, green: 255, blue: 255, alpha: 255 }),
    {
        Color::from_rgb(255, 255, 255)
    }

    /// Opaque pure red.
    pub fn red() -> (color: Color)
        ensures
            color@ == (Rgba { red: 255, green: 0, blue: 0, alpha: 255 }),
    {
        Color::from_rgb(255, 0, 0)
    }

    /// Opaque pure green.
    pub fn green() -> (color: Color)
        ensures
            color@ == (Rgba { red: 0, green: 255, blue: 0, alpha: 255 }),
    {
        Color::from_rgb(0, 255, 0)
    }

    /// Opaque pure blue.
    pub fn blue() -> (color: Color)
        ensures
            color@ == (Rgba { red: 0, green: 0, blue: 255, alpha: 255 }),
    {
        Color::from_rgb(0, 0, 255)
    }

    /// The color that shows nothing: every channel is 0.
    pub fn transparent() -> (color: Color)
        ensures
            color@ == (Rgba { red: 0, green: 0, blue: 0, alpha: 0 }),
    {
        Color::from_rgba(0, 0, 0, 0)
    }

    /// The fully opaque color with the given channels.
    pub fn from_rgb(red: u8, green: u8, blue: u8) -> (color: Color)
        ensures
            color@ == (Rgba { red, green, blue, alpha: 255 }),
    {
        Color { red, green, blue, alpha: 255 }
    }

    /// The color with the given channels.
    pub fn from_rgba(red: u8, green: u8, blue: u8, alpha: u8) -> (color: Color)
        ensures
            color@ == (Rgba { red, green, blue, alpha }),
    {
        Color { red, green, blue, alpha }
    }

    pub fn get_red(&self) -> (red: u8)
        ensures
            red == self@.red,
    {
        self.red
    }

    pub fn get_green(&self) -> (green: u8)
        ensures
            green == self@.green,
    {
        self.green
    }

    pub fn get_blue(&self) -> (blue: u8)
        ensures
            blue == self@.blue,
    {
        self.blue
    }

    pub fn get_alpha(&self) -> (alpha: u8)
        ensures
            alpha == self@.alpha,
    {
        self.alpha
    }
}

/// The colors that a piece of text is drawn with.
#[derive(Clone, Copy)]
pub struct TextColors {
    pub fill_color: Color,
    pub stroke_color: Color,
    pub background_color: Color,
}

impl TextColors {
    pub fn new(fill_color: Color, stroke_color: Color, background_color: Color) -> (colors:
        TextColors)
        ensures
            colors == (TextColors { fill_color, stroke_color, background_color }),
    {
        TextColors { fill_color, stroke_color, background_color }
    }

    /// Text on a transparent background.
    pub fn create_label(fill_color: Color, stroke_color: Color) -> (colors: TextColors)
        ensures
            colors.fill_color == fill_color,
            colors.stroke_color == stroke_color,
            colors.background_color@ == (Rgba { red: 0, green: 0, blue: 0, alpha: 0 }),
    {
        TextColors { fill_color, stroke_color, background_color: Color::transparent() }
    }

    /// Text of a single color on a transparent background.
    pub fn create_simple_label(color: Color) -> (colors: TextColors)
        ensures
            colors.fill_color == color,
            colors.stroke_color == color,
            colors.background_color@ == (Rgba { red: 0, green: 0, blue: 0, alpha: 0 }),
    {
        Self::create_label(color, color)
    }

    /// Black text on a transparent background.
    pub fn black_label() -> (colors: TextColors)
        ensures
            colors.fill_color@ == (Rgba { red: 0, green: 0, blue: 0, alpha: 255 }),
            colors.stroke_color@ == (Rgba { red: 0, green: 0, blue: 0, alpha: 255 }),
            colors.background_color@ == (Rgba { red: 0, green: 0, blue: 0, alpha: 0 }),
    {
        Self::create_simple_label(Color::black())
    }

    /// Black text on a background of the given color.
    pub fn create_simple_button(background_color: Color) -> (colors: TextColors)
        ensures
            colors.fill_color@ == (Rgba { red: 0, green: 0, blue: 0, alpha: 255 }),
            colors.stroke_color@ == (Rgba { red: 0, green: 0, blue: 0, alpha: 255 }),
            colors.background_color == background_color,
    {
        TextColors { fill_color: Color::black(), stroke_color: Color::black(), background_color }
    }
}

} // verus!
