use vstd::prelude::*;

use crate::color::{CodecError, Color};
use crate::pixel::{lemma_unpack_pack, pack_spec, unpack_spec, SubChunk};

verus! {

/// Colours carried by one chunk.
pub const CHUNK_PIXELS: usize = 160;

/// Packed groups of eight colours in one chunk.
pub const SUBCHUNKS: usize = 20;

/// Chunks that make up one row of the canvas.
pub const CHUNKS_PER_ROW: u16 = 5;

/// Chunks that make up the whole canvas.
pub const CHUNK_COUNT: u16 = 2400;

/// A run of 160 colours on one row, with the counter that places it on the canvas.
#[derive(Clone, Copy, Debug)]
pub struct Chunk {
    pub counter: u16,
    pub subchunks: [SubChunk; 20],
}

/// Where the `i`-th colour of the chunk with counter `counter` lands: column, then row.
pub open spec fn pixel_position(counter: int, i: int) -> (int, int) {
    ((counter % 5) * 160 + i, counter / 5)
}

/// Whether a position lies on the 800 by 480 canvas.
pub open spec fn on_canvas(p: (int, int)) -> bool {
    0 <= p.0 < 800 && 0 <= p.1 < 480
}

/// The counter of the chunk that covers a position of the canvas.
pub open spec fn covering_counter(x: int, y: int) -> int {
    y * 5 + x / 160
}

impl Chunk {
    /// Whether this chunk carries `pixels` under counter `counter`: each group of eight
    /// colours, in order, packed into the matching sub-chunk.
    pub open spec fn holds(self, counter: u16, pixels: Seq<Color>) -> bool {
        &&& pixels.len() == 160
        &&& self.counter == counter
        &&& forall|j: int|
            0 <= j < 20 ==> (#[trigger] self.subchunks@[j]).data@ == pack_spec(
                pixels.subrange(8 * j, 8 * j + 8),
            )
    }

    /// The 160 colours this chunk carries, or the error of its first malformed sub-chunk.
    pub open spec fn colors_spec(self) -> Result<Seq<Color>, CodecError> {
        if forall|j: int| 0 <= j < 20 ==> (#[trigger] unpack_spec(self.subchunks@[j].data@)) is Ok {
            Ok(
                Seq::new(
                    160,
                    |i: int| unpack_spec(self.subchunks@[i / 8].data@)->Ok_0[i % 8],
                ),
            )
        } else {
            Err(CodecError::InvalidPaletteIndex)
        }
    }

    /// Splits 160 colours into 20 groups of eight, in order, and packs each.
    pub fn new(counter: u16, pixels: [Color; 160]) -> (r: Chunk)
        ensures
            r.holds(counter, pixels@),
    {
        let mut subchunks: [SubChunk; 20] = [SubChunk { data: [0u8; 3] }; 20];
        let mut j: usize = 0;
        while j < SUBCHUNKS
            invariant
                0 <= j <= 20,
                forall|k: int|
                    0 <= k < j ==> (#[trigger] subchunks@[k]).data@ == pack_spec(
                        pixels@.subrange(8 * k, 8 * k + 8),
                    ),
            decreases 20 - j,
        {
            let mut group: [Color; 8] = [Color::White; 8];
            let mut k: usize = 0;
            while k < 8
                invariant
                    0 <= j < 20,
                    0 <= k <= 8,
                    forall|m: int| 0 <= m < k ==> group@[m] == pixels@[8 * j + m],
                decreases 8 - k,
            {
                group[k] = pixels[8 * j + k];
                k = k + 1;
            }
            assert(group@ =~= pixels@.subrange(8 * j as int, 8 * j as int + 8));
            subchunks[j] = SubChunk::from(group);
            j = j + 1;
        }
        Chunk { counter, subchunks }
    }

    /// The colours of this chunk with their positions on the canvas: the `i`-th colour lands
    /// at column `(counter % 5) * 160 + i` of row `counter / 5`. Fails when a sub-chunk holds
    /// the unused palette index.
    pub fn pixels(self) -> (r: Result<Vec<((u16, u16), Color)>, CodecError>)
        ensures
            match r {
                Ok(v) => {
                    &&& self.colors_spec() is Ok
                    &&& v@.len() == 160
                    &&& forall|i: int|
                        0 <= i < 160 ==> {
                            let p = pixel_position(self.counter as int, i);
                            &&& (#[trigger] v@[i]).0.0 as int == p.0
                            &&& v@[i].0.1 as int == p.1
                            &&& v@[i].1 == self.colors_spec()->Ok_0[i]
                        }
                },
                Err(e) => self.colors_spec() == Err::<Seq<Color>, CodecError>(e),
            },
    {
        let x0: u16 = (self.counter % CHUNKS_PER_ROW) * 160;
        let y: u16 = self.counter / CHUNKS_PER_ROW;
        let mut out: Vec<((u16, u16), Color)> = Vec::new();
        let mut j: usize = 0;
        while j < SUBCHUNKS
            invariant
                0 <= j <= 20,
                x0 as int == (self.counter as int % 5) * 160,
                y as int == self.counter as int / 5,
                out@.len() == 8 * j,
                forall|k: int| 0 <= k < j ==> (#[trigger] unpack_spec(self.subchunks@[k].data@)) is Ok,
                forall|i: int|
                    0 <= i < 8 * j ==> {
                        &&& (#[trigger] out@[i]).0.0 as int == x0 + i
                        &&& out@[i].0.1 == y
                        &&& out@[i].1 == unpack_spec(self.subchunks@[i / 8].data@)->Ok_0[i % 8]
                    },
            decreases 20 - j,
        {
            let colors = match self.subchunks[j].colors() {
                Ok(c) => c,
                Err(e) => {
                    assert(!(unpack_spec(self.subchunks@[j as int].data@) is Ok));
                    return Err(e);
                },
            };
            let mut k: usize = 0;
            while k < 8
                invariant
                    0 <= j < 20,
                    0 <= k <= 8,
                    x0 as int == (self.counter as int % 5) * 160,
                    y as int == self.counter as int / 5,
                    out@.len() == 8 * j + k,
                    unpack_spec(self.subchunks@[j as int].data@) == Ok::<Seq<Color>, CodecError>(
                        colors@,
                    ),
                    forall|i: int|
                        0 <= i < 8 * j + k ==> {
                            &&& (#[trigger] out@[i]).0.0 as int == x0 + i
                            &&& out@[i].0.1 == y
                            &&& out@[i].1 == unpack_spec(self.subchunks@[i / 8].data@)->Ok_0[i
                                % 8]
                        },
                decreases 8 - k,
            {
                let x: u16 = x0 + (8 * j + k) as u16;
                out.push(((x, y), colors[k]));
                proof {
                    let i = 8 * j + k;
                    assert(i / 8 == j as int && i % 8 == k as int);
                }
                k = k + 1;
            }
            j = j + 1;
        }
        proof {
            assert forall|i: int| 0 <= i < 160 implies (#[trigger] out@[i]).1
                == self.colors_spec()->Ok_0[i] by {}
        }
        Ok(out)
    }
}

/// A chunk made from 160 colours gives back exactly those colours.
pub proof fn lemma_chunk_colors(ch: Chunk, counter: u16, pixels: Seq<Color>)
    requires
        ch.holds(counter, pixels),
    ensures
        ch.colors_spec() == Ok::<Seq<Color>, CodecError>(pixels),
{
    assert forall|j: int| 0 <= j < 20 implies unpack_spec((#[trigger] ch.subchunks@[j]).data@)
        == Ok::<Seq<Color>, CodecError>(pixels.subrange(8 * j, 8 * j + 8)) by {
        lemma_unpack_pack(pixels.subrange(8 * j, 8 * j + 8));
    }
    assert forall|i: int| 0 <= i < 160 implies unpack_spec(ch.subchunks@[i / 8].data@)->Ok_0[i % 8]
        == pixels[i] by {
        let j = i / 8;
        assert(unpack_spec(ch.subchunks@[j].data@) == Ok::<Seq<Color>, CodecError>(
            pixels.subrange(8 * j, 8 * j + 8),
        ));
    }
    assert(ch.colors_spec()->Ok_0 =~= pixels);
}

proof fn lemma_position_on_canvas(c: int, i: int)
    requires
        0 <= c < 2400,
        0 <= i < 160,
    ensures
        on_canvas(pixel_position(c, i)),
{
    assert(0 <= c % 5 < 5);
    assert((c % 5) * 160 <= 640) by (nonlinear_arith)
        requires
            0 <= c % 5 < 5,
    ;
    assert(c / 5 < 480);
}

proof fn lemma_covering(x: int, y: int)
    requires
        on_canvas((x, y)),
    ensures
        0 <= covering_counter(x, y) < 2400,
        0 <= x % 160 < 160,
        pixel_position(covering_counter(x, y), x % 160) == (x, y),
{
    let q = x / 160;
    let c = covering_counter(x, y);
    assert(0 <= q < 5);
    assert(x == q * 160 + x % 160);
    assert(c == y * 5 + q);
    assert(c % 5 == q && c / 5 == y) by (nonlinear_arith)
        requires
            c == y * 5 + q,
            0 <= q < 5,
            0 <= y,
    {
        vstd::arithmetic::div_mod::lemma_fundamental_div_mod_converse(c, 5, y, q);
    }
}

proof fn lemma_position_injective(c1: int, i1: int, c2: int, i2: int)
    requires
        0 <= c1 < 2400,
        0 <= c2 < 2400,
        0 <= i1 < 160,
        0 <= i2 < 160,
        pixel_position(c1, i1) == pixel_position(c2, i2),
    ensures
        c1 == c2,
        i1 == i2,
{
    let r1 = c1 % 5;
    let r2 = c2 % 5;
    assert(r1 == r2) by (nonlinear_arith)
        requires
            r1 * 160 + i1 == r2 * 160 + i2,
            0 <= i1 < 160,
            0 <= i2 < 160,
            0 <= r1 < 5,
            0 <= r2 < 5,
    ;
    assert(c1 == 5 * (c1 / 5) + r1);
    assert(c2 == 5 * (c2 / 5) + r2);
}

/// The chunks with counters `0..2400` tile the 800 by 480 canvas: every colour of every such
/// chunk lands on the canvas, every position of the canvas is covered by one of them, and no
/// two colours of them land on the same position.
pub proof fn lemma_chunks_tile_canvas()
    ensures
        forall|c: int, i: int|
            0 <= c < 2400 && 0 <= i < 160 ==> on_canvas(#[trigger] pixel_position(c, i)),
        forall|x: int, y: int|
            on_canvas((x, y)) ==> {
                let c = #[trigger] covering_counter(x, y);
                &&& 0 <= c < 2400
                &&& 0 <= x % 160 < 160
                &&& pixel_position(c, x % 160) == (x, y)
            },
        forall|c1: int, i1: int, c2: int, i2: int|
            0 <= c1 < 2400 && 0 <= i1 < 160 && 0 <= c2 < 2400 && 0 <= i2 < 160 && #[trigger]
            pixel_position(c1, i1) == #[trigger] pixel_position(c2, i2) ==> c1 == c2 && i1 == i2,
{
    assert forall|c: int, i: int|
        0 <= c < 2400 && 0 <= i < 160 implies on_canvas(#[trigger] pixel_position(c, i)) by {
        lemma_position_on_canvas(c, i);
    }
    assert forall|x: int, y: int| on_canvas((x, y)) implies {
        let c = #[trigger] covering_counter(x, y);
        &&& 0 <= c < 2400
        &&& 0 <= x % 160 < 160
        &&& pixel_position(c, x % 160) == (x, y)
    } by {
        lemma_covering(x, y);
    }
    assert forall|c1: int, i1: int, c2: int, i2: int|
        0 <= c1 < 2400 && 0 <= i1 < 160 && 0 <= c2 < 2400 && 0 <= i2 < 160 && #[trigger]
        pixel_position(c1, i1) == #[trigger] pixel_position(c2, i2) implies c1 == c2 && i1
        == i2 by {
        lemma_position_injective(c1, i1, c2, i2);
    }
}

} // verus!
