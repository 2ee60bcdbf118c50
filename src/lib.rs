use vstd::prelude::*;

/// The seven palette colours and their indices.
pub mod color;
/// Packing eight colours into three bytes, and back.
pub mod pixel;
/// Chunks of 160 colours and where they land on the canvas.
pub mod chunk;
/// The 63-byte frames: commands to the display, responses from it.
pub mod frame;
/// The display side: drawing incoming chunks into the canvas.
pub mod receiver;
/// The host side: the order of frames, acknowledgements and retries.
pub mod sender;
/// Turning a palettized image into the frames that send it.
pub mod image;
/// The device's serial number, written in Aegean numerals.
pub mod serial;
/// Dithering to the palette with a blue-noise texture.
pub mod noise;

verus! {

/// Width of the canvas, in pixels.
pub const WIDTH: u32 = 800;

/// Height of the canvas, in pixels.
pub const HEIGHT: u32 = 480;

} // verus!
