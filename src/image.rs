use vstd::prelude::*;

use crate::chunk::{lemma_chunk_colors, Chunk, CHUNK_COUNT, CHUNK_PIXELS};
use crate::color::Color;
use crate::frame::Command;
use crate::receiver::{apply_chunks, blank, cell_counter, cell_offset, CANVAS_CELLS};

verus! {

/// An image as rows of red, green and blue bytes, row after row.
#[derive(Debug)]
pub struct RgbImage {
    pub width: u32,
    pub height: u32,
    pub pixels: Vec<[u8; 3]>,
}

/// Why an image cannot be sent.
#[derive(Clone, Copy, Debug, PartialEq, Eq, Structural)]
pub enum ImageError {
    /// The image is not 800 by 480 pixels.
    Dimensions,
    /// A pixel is not one of the palette's colours.
    NotPalettized,
}

impl Color {
    /// The red, green and blue bytes of a colour.
    pub open spec fn rgb_spec(self) -> [u8; 3] {
        match self {
            Color::White => [255, 255, 255],
            Color::Black => [0, 0, 0],
            Color::Green => [0, 255, 0],
            Color::Blue => [0, 0, 255],
            Color::Red => [255, 0, 0],
            Color::Yellow => [255, 255, 0],
            Color::Orange => [255, 128, 0],
        }
    }

    /// The palette colour with these red, green and blue bytes, if any.
    pub open spec fn from_rgb_spec(p: [u8; 3]) -> Option<Color> {
        if p[0] == 255 && p[1] == 255 && p[2] == 255 {
            Some(Color::White)
        } else if p[0] == 0 && p[1] == 0 && p[2] == 0 {
            Some(Color::Black)
        } else if p[0] == 0 && p[1] == 255 && p[2] == 0 {
            Some(Color::Green)
        } else if p[0] == 0 && p[1] == 0 && p[2] == 255 {
            Some(Color::Blue)
        } else if p[0] == 255 && p[1] == 0 && p[2] == 0 {
            Some(Color::Red)
        } else if p[0] == 255 && p[1] == 255 && p[2] == 0 {
            Some(Color::Yellow)
        } else if p[0] == 255 && p[1] == 128 && p[2] == 0 {
            Some(Color::Orange)
        } else {
            None
        }
    }

    /// The red, green and blue bytes of this colour.
    pub fn rgb(self) -> (r: [u8; 3])
        ensures
            r == self.rgb_spec(),
    {
        match self {
            Color::White => [255, 255, 255],
            Color::Black => [0, 0, 0],
            Color::Green => [0, 255, 0],
            Color::Blue => [0, 0, 255],
            Color::Red => [255, 0, 0],
            Color::Yellow => [255, 255, 0],
            Color::Orange => [255, 128, 0],
        }
    }

    /// The palette colour with exactly these red, green and blue bytes.
    pub fn from_rgb(p: [u8; 3]) -> (r: Option<Color>)
        ensures
            r == Color::from_rgb_spec(p),
    {
        let (a, b, c) = (p[0], p[1], p[2]);
        let r = if a == 255 && b == 255 && c == 255 {
            Some(Color::White)
        } else if a == 0 && b == 0 && c == 0 {
            Some(Color::Black)
        } else if a == 0 && b == 255 && c == 0 {
            Some(Color::Green)
        } else if a == 0 && b == 0 && c == 255 {
            Some(Color::Blue)
        } else if a == 255 && b == 0 && c == 0 {
            Some(Color::Red)
        } else if a == 255 && b == 255 && c == 0 {
            Some(Color::Yellow)
        } else if a == 255 && b == 128 && c == 0 {
            Some(Color::Orange)
        } else {
            None
        };
        r
    }
}

/// Whether every pixel is a palette colour.
pub open spec fn palettized(pixels: Seq<[u8; 3]>) -> bool {
    forall|k: int| 0 <= k < pixels.len() ==> (#[trigger] Color::from_rgb_spec(pixels[k])) is Some
}

/// The palette colours of the pixels.
pub open spec fn colors_of(pixels: Seq<[u8; 3]>) -> Seq<Color> {
    Seq::new(pixels.len(), |k: int| Color::from_rgb_spec(pixels[k])->Some_0)
}

/// Whether the image has the canvas's size.
pub open spec fn canvas_sized(image: &RgbImage) -> bool {
    image.width == 800 && image.height == 480 && image.pixels@.len() == 384000
}

/// Whether `cmds` is the transfer of the 384000 colours `colors`: Start, then chunk `c` with
/// the colours `160 * c` to `160 * c + 159` for each counter `c` below 2400, then End.
pub open spec fn transfer_of(colors: Seq<Color>, cmds: Seq<Command>) -> bool {
    &&& cmds.len() == 2402
    &&& cmds[0] matches Command::Start
    &&& cmds[2401] matches Command::End
    &&& forall|c: int|
        0 <= c < 2400 ==> ((#[trigger] cmds[c + 1]) matches Command::Chunk(ch) && ch.holds(
            c as u16,
            colors.subrange(160 * c, 160 * c + 160),
        ))
}

/// The chunks of a transfer, in the order they are sent.
pub open spec fn chunks_of(cmds: Seq<Command>) -> Seq<Chunk> {
    Seq::new(2400, |c: int| cmds[c + 1]->Chunk_0)
}

impl Command {
    /// The frames that send an image: Start, one chunk of 160 colours for each counter from 0
    /// to 2399, in order, then End. Fails when the image is not 800 by 480 pixels, or when a
    /// pixel is not a palette colour.
    pub fn from_image(image: &RgbImage) -> (r: Result<Vec<Command>, ImageError>)
        ensures
            match r {
                Ok(cmds) => canvas_sized(image) && palettized(image.pixels@) && transfer_of(
                    colors_of(image.pixels@),
                    cmds@,
                ),
                Err(ImageError::Dimensions) => !canvas_sized(image),
                Err(ImageError::NotPalettized) => canvas_sized(image) && !palettized(
                    image.pixels@,
                ),
            },
    {
        if image.width != 800 || image.height != 480 || image.pixels.len() != CANVAS_CELLS {
            return Err(ImageError::Dimensions);
        }
        let mut colors: Vec<Color> = Vec::new();
        let mut k: usize = 0;
        while k < CANVAS_CELLS
            invariant
                canvas_sized(image),
                0 <= k <= 384000,
                colors@.len() == k,
                forall|i: int|
                    0 <= i < k ==> Color::from_rgb_spec(#[trigger] image.pixels@[i]) == Some(
                        colors@[i],
                    ),
            decreases 384000 - k,
        {
            match Color::from_rgb(image.pixels[k]) {
                Some(c) => colors.push(c),
                None => {
                    assert(Color::from_rgb_spec(image.pixels@[k as int]) is None);
                    return Err(ImageError::NotPalettized);
                },
            }
            k = k + 1;
        }
        let ghost all = colors_of(image.pixels@);
        assert(colors@ =~= all);
        let mut cmds: Vec<Command> = Vec::new();
        cmds.push(Command::Start);
        let mut c: u16 = 0;
        while c < CHUNK_COUNT
            invariant
                colors@ == all,
                all.len() == 384000,
                0 <= c <= 2400,
                cmds@.len() == c + 1,
                cmds@[0] matches Command::Start,
                forall|d: int|
                    0 <= d < c ==> ((#[trigger] cmds@[d + 1]) matches Command::Chunk(ch)
                        && ch.holds(d as u16, all.subrange(160 * d, 160 * d + 160))),
            decreases 2400 - c,
        {
            let base: usize = CHUNK_PIXELS * (c as usize);
            let mut run: [Color; 160] = [Color::White; 160];
            let mut i: usize = 0;
            while i < CHUNK_PIXELS
                invariant
                    colors@ == all,
                    all.len() == 384000,
                    0 <= c < 2400,
                    base == 160 * c,
                    0 <= i <= 160,
                    forall|j: int| 0 <= j < i ==> run@[j] == all[base + j],
                decreases 160 - i,
            {
                run[i] = colors[base + i];
                i = i + 1;
            }
            assert(run@ =~= all.subrange(160 * c as int, 160 * c as int + 160));
            let ch = Chunk::new(c, run);
            cmds.push(Command::Chunk(ch));
            c = c + 1;
        }
        cmds.push(Command::End);
        assert(palettized(image.pixels@));
        Ok(cmds)
    }
}

proof fn lemma_transfer_chunk(colors: Seq<Color>, cmds: Seq<Command>, c: int)
    requires
        transfer_of(colors, cmds),
        0 <= c < 2400,
    ensures
        chunks_of(cmds)[c].holds(c as u16, colors.subrange(160 * c, 160 * c + 160)),
{
    assert(cmds[c + 1] matches Command::Chunk(ch) && ch.holds(
        c as u16,
        colors.subrange(160 * c, 160 * c + 160),
    ));
}

proof fn lemma_cell_index(k: int, c: int, o: int)
    requires
        k == (c / 5) * 800 + (c % 5) * 160 + o,
    ensures
        160 * c + o == k,
{
    assert(c == 5 * (c / 5) + c % 5);
    assert(160 * c + o == k) by (nonlinear_arith)
        requires
            k == (c / 5) * 800 + (c % 5) * 160 + o,
            c == 5 * (c / 5) + c % 5,
    ;
}

proof fn lemma_replay_cell(colors: Seq<Color>, chunks: Seq<Chunk>, k: int)
    requires
        colors.len() == 384000,
        chunks.len() == 2400,
        crate::receiver::distinct_counters(chunks),
        0 <= k < 384000,
        0 <= cell_counter(k) < 2400,
        chunks[cell_counter(k)].holds(
            cell_counter(k) as u16,
            colors.subrange(160 * cell_counter(k), 160 * cell_counter(k) + 160),
        ),
    ensures
        apply_chunks(blank(Color::White), chunks)[k] == colors[k],
{
    let c = cell_counter(k);
    let o = cell_offset(k);
    let run = colors.subrange(160 * c, 160 * c + 160);
    lemma_chunk_colors(chunks[c], c as u16, run);
    crate::receiver::lemma_cell_decompose(k);
    lemma_cell_index(k, c, o);
    crate::receiver::lemma_apply_chunks_at(blank(Color::White), chunks, k);
    assert(chunks[c].counter as int == c);
}

/// Replaying a transfer into a receiver gives back the image: after Start clears the canvas to
/// white, drawing the 2400 chunks in order leaves every cell with the image's colour.
pub proof fn lemma_replay_transfer(colors: Seq<Color>, cmds: Seq<Command>)
    requires
        colors.len() == 384000,
        transfer_of(colors, cmds),
    ensures
        apply_chunks(blank(Color::White), chunks_of(cmds)) == colors,
{
    let chunks = chunks_of(cmds);
    let buf = blank(Color::White);
    assert forall|i: int, j: int|
        0 <= i < chunks.len() && 0 <= j < chunks.len() && i != j implies chunks[i].counter
        != chunks[j].counter by {
        lemma_transfer_chunk(colors, cmds, i);
        lemma_transfer_chunk(colors, cmds, j);
    }
    let out = apply_chunks(buf, chunks);
    crate::receiver::lemma_apply_chunks_len(buf, chunks);
    assert forall|k: int| 0 <= k < 384000 implies out[k] == colors[k] by {
        crate::receiver::lemma_cell_decompose(k);
        lemma_transfer_chunk(colors, cmds, cell_counter(k));
        lemma_replay_cell(colors, chunks, k);
    }
    assert(out =~= colors);
}

} // verus!
