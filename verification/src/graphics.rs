//! The framebuffer as firmware describes it and as the kernel gets it.
use vstd::prelude::*;

verus! {

/// Number of bytes that a pixel takes in the framebuffer.
pub const BPP: u64 = 4;

/// A colour by its three parts.
#[derive(Clone, Copy, Debug, PartialEq, Eq, Structural)]
pub struct Color {
    pub red: u8,
    pub green: u8,
    pub blue: u8,
}

impl Color {
    /// The colour with the given parts.
    pub fn new(red: u8, green: u8, blue: u8) -> (color: Color)
        ensures
            color == (Color { red, green, blue }),
    {
        Color { red, green, blue }
    }

    /// Pure green.
    pub fn green() -> (color: Color)
        ensures
            color == (Color { red: 0, green: 255, blue: 0 }),
    {
        Color { red: 0, green: 255, blue: 0 }
    }
}

/// The order of the colour parts in a pixel, as firmware names it.
#[derive(Clone, Copy, Debug, PartialEq, Eq, Structural)]
pub enum PixelFormat {
    /// Red, green, blue.
    Rgb,
    /// Blue, green, red.
    Bgr,
    /// The parts are given by bit masks.
    Bitmask,
    /// The framebuffer cannot be written to directly.
    BltOnly,
}

/// What firmware reports about the graphics mode that is set.
#[derive(Clone, Copy, Debug, PartialEq, Eq, Structural)]
pub struct GraphicsMode {
    pub base: u64,
    pub size: u64,
    pub width: u64,
    pub height: u64,
    pub stride: u64,
    pub pixel_format: PixelFormat,
}

/// The linear framebuffer: where it lies, how large it is in bytes, its
/// width and height in pixels, the number of pixels from one row to the next
/// and whether a pixel starts with its red or with its blue part.
#[derive(Clone, Copy, Debug, PartialEq, Eq, Structural)]
pub struct FrameBufferMetadata {
    pub base: u64,
    pub size: u64,
    pub width: u64,
    pub height: u64,
    pub stride: u64,
    pub is_rgb: bool,
}

/// Why the framebuffer cannot be used.
#[derive(Clone, Copy, Debug, PartialEq, Eq, Structural)]
pub enum GraphicsError {
    /// The pixels are neither red-green-blue nor blue-green-red.
    UnsupportedGraphicsMode,
}

/// The description of the framebuffer for the kernel, from what firmware
/// reports about the graphics mode. Fails exactly if the pixel format is
/// neither `Rgb` nor `Bgr`.
pub fn initialize_framebuffer(mode: &GraphicsMode) -> (metadata: Result<
    FrameBufferMetadata,
    GraphicsError,
>)
    ensures
        metadata == match mode.pixel_format {
            PixelFormat::Rgb => Ok::<FrameBufferMetadata, GraphicsError>(
                FrameBufferMetadata {
                    base: mode.base,
                    size: mode.size,
                    width: mode.width,
                    height: mode.height,
                    stride: mode.stride,
                    is_rgb: true,
                },
            ),
            PixelFormat::Bgr => Ok::<FrameBufferMetadata, GraphicsError>(
                FrameBufferMetadata {
                    base: mode.base,
                    size: mode.size,
                    width: mode.width,
                    height: mode.height,
                    stride: mode.stride,
                    is_rgb: false,
                },
            ),
            _ => Err::<FrameBufferMetadata, GraphicsError>(GraphicsError::UnsupportedGraphicsMode),
        },
{
    let is_rgb = match mode.pixel_format {
        PixelFormat::Rgb => true,
        PixelFormat::Bgr => false,
        PixelFormat::Bitmask => {
            return Err(GraphicsError::UnsupportedGraphicsMode);
        },
        PixelFormat::BltOnly => {
            return Err(GraphicsError::UnsupportedGraphicsMode);
        },
    };
    Ok(
        FrameBufferMetadata {
            base: mode.base,
            size: mode.size,
            width: mode.width,
            height: mode.height,
            stride: mode.stride,
            is_rgb,
        },
    )
}

} // verus!
