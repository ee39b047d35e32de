//! The plain-text PPM ("P3") image format: a header line `P3`, a line with the
//! width and height, a line with the largest channel value `255`, then one line
//! `R G B` per pixel in emission order, each number in decimal.
use vstd::prelude::*;

use crate::image::{ImageSize, Rgb};

verus! {

/// ASCII code of the digit `0`; the other digits follow it.
pub const ASCII_ZERO: u8 = 48;

pub const ASCII_SPACE: u8 = 32;

pub const ASCII_NEWLINE: u8 = 10;

/// The two characters of the format's magic number, `P3`.
pub const MAGIC_P: u8 = 80;

pub const MAGIC_3: u8 = 51;

/// The largest channel value, written in the header.
pub const MAX_CHANNEL: u32 = 255;

/// ASCII decimal digits of `n`, most significant first, with no leading zero.
pub open spec fn decimal(n: nat) -> Seq<u8>
    decreases n,
{
    if n < 10 {
        seq![(ASCII_ZERO + n) as u8]
    } else {
        decimal(n / 10).push((ASCII_ZERO + n % 10) as u8)
    }
}

/// The text of one pixel: `R G B`, without the line end.
pub open spec fn color_text(c: Rgb) -> Seq<u8> {
    decimal(c.r as nat) + seq![ASCII_SPACE] + decimal(c.g as nat) + seq![ASCII_SPACE] + decimal(c.b as nat)
}

/// The three header lines of an image of the given size.
pub open spec fn header_text(size: ImageSize) -> Seq<u8> {
    seq![MAGIC_P, MAGIC_3, ASCII_NEWLINE] + decimal(size.width as nat) + seq![ASCII_SPACE]
        + decimal(size.height as nat) + seq![ASCII_NEWLINE] + decimal(MAX_CHANNEL as nat) + seq![
        ASCII_NEWLINE,
    ]
}

/// One line per pixel, in the order given.
pub open spec fn body_text(pixels: Seq<Rgb>) -> Seq<u8>
    decreases pixels.len(),
{
    if pixels.len() == 0 {
        Seq::empty()
    } else {
        body_text(pixels.drop_last()) + color_text(pixels.last()) + seq![ASCII_NEWLINE]
    }
}

/// Why pixels cannot be written as an image.
#[derive(Clone, Copy, Debug, PartialEq, Eq, Structural)]
pub enum PpmError {
    /// The number of pixels is not width times height.
    PixelCountMismatch,
}

/// Appends the decimal digits of `n`.
fn push_decimal(out: &mut Vec<u8>, n: u32)
    ensures
        final(out)@ == old(out)@ + decimal(n as nat),
    decreases n,
{
    if n >= 10 {
        push_decimal(out, n / 10);
    }
    out.push(ASCII_ZERO + (n % 10) as u8);
}

/// Appends the text of one pixel, without the line end.
fn push_color(out: &mut Vec<u8>, c: Rgb)
    ensures
        final(out)@ == old(out)@ + color_text(c),
{
    push_decimal(out, c.r as u32);
    out.push(ASCII_SPACE);
    push_decimal(out, c.g as u32);
    out.push(ASCII_SPACE);
    push_decimal(out, c.b as u32);
    assert(out@ =~= old(out)@ + color_text(c));
}

/// The text of one pixel: `R G B`.
pub fn write_color(c: Rgb) -> (text: Vec<u8>)
    ensures
        text@ == color_text(c),
{
    let mut text: Vec<u8> = Vec::new();
    push_color(&mut text, c);
    assert(text@ =~= color_text(c));
    text
}

/// The three header lines of an image of the given size.
pub fn write_header(size: ImageSize) -> (text: Vec<u8>)
    ensures
        text@ == header_text(size),
{
    let mut text: Vec<u8> = Vec::new();
    text.push(MAGIC_P);
    text.push(MAGIC_3);
    text.push(ASCII_NEWLINE);
    push_decimal(&mut text, size.width);
    text.push(ASCII_SPACE);
    push_decimal(&mut text, size.height);
    text.push(ASCII_NEWLINE);
    push_decimal(&mut text, MAX_CHANNEL);
    text.push(ASCII_NEWLINE);
    assert(text@ =~= header_text(size));
    text
}

/// The whole image file: the header, then one line per pixel in the order
/// given. Fails when there are not width times height pixels.
pub fn encode_ppm(size: ImageSize, pixels: &Vec<Rgb>) -> (r: Result<Vec<u8>, PpmError>)
    ensures
        r is Ok <==> pixels@.len() == size.pixel_count_spec(),
        r matches Ok(bytes) ==> bytes@ == header_text(size) + body_text(pixels@),
{
    assert(size.width as u64 * size.height as u64 <= u64::MAX) by (nonlinear_arith)
        requires
            size.width <= u32::MAX,
            size.height <= u32::MAX,
    ;
    if pixels.len() as u64 != size.width as u64 * size.height as u64 {
        return Err(PpmError::PixelCountMismatch);
    }
    let mut out = write_header(size);
    let n = pixels.len();
    let mut i: usize = 0;
    while i < n
        invariant
            n == pixels@.len(),
            i <= n,
            out@ == header_text(size) + body_text(pixels@.take(i as int)),
        decreases n - i,
    {
        push_color(&mut out, pixels[i]);
        out.push(ASCII_NEWLINE);
        proof {
            let t = pixels@.take(i + 1);
            assert(t.drop_last() =~= pixels@.take(i as int));
            assert(out@ =~= header_text(size) + body_text(t));
        }
        i = i + 1;
    }
    assert(pixels@.take(n as int) =~= pixels@);
    Ok(out)
}

} // verus!
