//! Where a pixel lies in the framebuffer and which bytes make it up.
use vstd::prelude::*;
use vstd::string::StringExecFns;

use crate::graphics::{Color, FrameBufferMetadata, BPP};

verus! {

/// Why nothing was drawn.
#[derive(Clone, Copy, Debug, PartialEq, Eq, Structural)]
pub enum VideoError {
    /// There is no pixel with these coordinates in the framebuffer.
    CoordinatesOutOfBounds(usize, usize),
}

/// The character for the digit `digit`.
pub open spec fn digit_char(digit: nat) -> char {
    if digit == 0 {
        '0'
    } else if digit == 1 {
        '1'
    } else if digit == 2 {
        '2'
    } else if digit == 3 {
        '3'
    } else if digit == 4 {
        '4'
    } else if digit == 5 {
        '5'
    } else if digit == 6 {
        '6'
    } else if digit == 7 {
        '7'
    } else if digit == 8 {
        '8'
    } else {
        '9'
    }
}

/// The decimal digits of `n`, the highest first, without leading zeros.
pub open spec fn decimal(n: nat) -> Seq<char>
    decreases n,
{
    if n < 10 {
        seq![digit_char(n)]
    } else {
        decimal(n / 10).push(digit_char(n % 10))
    }
}

fn digit_text(digit: usize) -> (text: &'static str)
    requires
        digit < 10,
    ensures
        text@ == seq![digit_char(digit as nat)],
{
    proof {
        reveal_strlit("0");
        reveal_strlit("1");
        reveal_strlit("2");
        reveal_strlit("3");
        reveal_strlit("4");
        reveal_strlit("5");
        reveal_strlit("6");
        reveal_strlit("7");
        reveal_strlit("8");
        reveal_strlit("9");
    }
    let text = if digit == 0 {
        "0"
    } else if digit == 1 {
        "1"
    } else if digit == 2 {
        "2"
    } else if digit == 3 {
        "3"
    } else if digit == 4 {
        "4"
    } else if digit == 5 {
        "5"
    } else if digit == 6 {
        "6"
    } else if digit == 7 {
        "7"
    } else if digit == 8 {
        "8"
    } else {
        "9"
    };
    assert(text@ =~= seq![digit_char(digit as nat)]);
    text
}

/// Appends the decimal digits of `n` to `text`.
fn append_decimal(text: &mut String, n: usize)
    ensures
        final(text)@ == old(text)@ + decimal(n as nat),
    decreases n,
{
    if n >= 10 {
        append_decimal(text, n / 10);
    }
    text.append(digit_text(n % 10));
    assert(text@ =~= old(text)@ + decimal(n as nat));
}

impl VideoError {
    /// The text of the error, as a sequence of characters.
    pub open spec fn text(self) -> Seq<char> {
        match self {
            VideoError::CoordinatesOutOfBounds(x, y) => {
                "Video Error: Coordinates out of bounds: x: "@ + decimal(x as nat) + ", y: "@
                    + decimal(y as nat) + "."@
            },
        }
    }

    /// The text of the error.
    pub fn message(&self) -> (message: String)
        ensures
            message@ == self.text(),
    {
        match self {
            VideoError::CoordinatesOutOfBounds(x, y) => {
                let mut message = String::from_str("Video Error: Coordinates out of bounds: x: ");
                append_decimal(&mut message, *x);
                message.append(", y: ");
                append_decimal(&mut message, *y);
                message.append(".");
                message
            },
        }
    }
}

/// Three bytes to be written into the framebuffer, `offset` bytes behind
/// its base.
#[derive(Clone, Copy, Debug, PartialEq, Eq, Structural)]
pub struct PixelWrite {
    pub offset: u64,
    pub first: u8,
    pub second: u8,
    pub third: u8,
}

/// The framebuffer as a grid of pixels.
#[derive(Clone, Copy, Debug)]
pub struct RawFrameBuffer {
    pub meta_data: FrameBufferMetadata,
}

impl RawFrameBuffer {
    /// Whether there is a pixel at column `x` of row `y`.
    pub open spec fn spec_in_bounds(&self, x: usize, y: usize) -> bool {
        x < self.meta_data.width && y < self.meta_data.height
    }

    /// Whether there is a pixel at column `x` of row `y`.
    #[verifier::when_used_as_spec(spec_in_bounds)]
    pub fn in_bounds(&self, x: usize, y: usize) -> (inside: bool)
        ensures
            inside == self.spec_in_bounds(x, y),
    {
        (x as u64) < self.meta_data.width && (y as u64) < self.meta_data.height
    }

    /// Number of bytes from the base of the framebuffer to the pixel at
    /// column `x` of row `y`.
    pub open spec fn pixel_offset(&self, x: usize, y: usize) -> int {
        self.meta_data.stride * BPP * y + BPP * x
    }

    /// The write that draws `color` at column `x` of row `y`: the three
    /// parts of the colour in the order of the pixel format, at the offset
    /// of the pixel.
    ///
    /// Fails exactly if there is no such pixel or its three bytes do not lie
    /// within the framebuffer.
    pub fn draw_pixel(&self, x: usize, y: usize, color: Color) -> (write: Result<
        PixelWrite,
        VideoError,
    >)
        ensures
            write is Ok <==> self.in_bounds(x, y) && self.pixel_offset(x, y) + 3
                <= self.meta_data.size,
            match write {
                Ok(write) => {
                    &&& write.offset == self.pixel_offset(x, y)
                    &&& write.second == color.green
                    &&& write.first == if self.meta_data.is_rgb {
                        color.red
                    } else {
                        color.blue
                    }
                    &&& write.third == if self.meta_data.is_rgb {
                        color.blue
                    } else {
                        color.red
                    }
                },
                Err(error) => error == VideoError::CoordinatesOutOfBounds(x, y),
            },
    {
        if !self.in_bounds(x, y) {
            return Err(VideoError::CoordinatesOutOfBounds(x, y));
        }
        let stride: u128 = self.meta_data.stride as u128;
        assert(stride * y <= 0xFFFF_FFFF_FFFF_FFFF * 0xFFFF_FFFF_FFFF_FFFF) by (nonlinear_arith)
            requires
                0 <= stride <= 0xFFFF_FFFF_FFFF_FFFF,
                0 <= y <= 0xFFFF_FFFF_FFFF_FFFF,
        ;
        let rows: u128 = stride * y as u128;
        assert(self.meta_data.stride * BPP * y == rows * 4) by (nonlinear_arith)
            requires
                rows == self.meta_data.stride * y,
                BPP == 4,
        ;
        if rows > u64::MAX as u128 {
            return Err(VideoError::CoordinatesOutOfBounds(x, y));
        }
        let end: u128 = rows * 4 + 4 * x as u128 + 3;
        if end > self.meta_data.size as u128 {
            return Err(VideoError::CoordinatesOutOfBounds(x, y));
        }
        let offset: u64 = (end - 3) as u64;
        if self.meta_data.is_rgb {
            Ok(PixelWrite { offset, first: color.red, second: color.green, third: color.blue })
        } else {
            Ok(PixelWrite { offset, first: color.blue, second: color.green, third: color.red })
        }
    }
}

impl From<FrameBufferMetadata> for RawFrameBuffer {
    fn from(value: FrameBufferMetadata) -> (buffer: RawFrameBuffer) {
        RawFrameBuffer { meta_data: value }
    }
}

impl vstd::std_specs::convert::FromSpecImpl<FrameBufferMetadata> for RawFrameBuffer {
    open spec fn obeys_from_spec() -> bool {
        true
    }

    open spec fn from_spec(value: FrameBufferMetadata) -> RawFrameBuffer {
        RawFrameBuffer { meta_data: value }
    }
}

} // verus!
