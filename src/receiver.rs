use vstd::prelude::*;

use crate::chunk::Chunk;
use crate::color::{CodecError, Color};
use crate::frame::{Command, FrameError};

verus! {

/// Cells of the 800 by 480 canvas.
pub const CANVAS_CELLS: usize = 384000;

/// The counter of the chunk that covers cell `k` of the canvas, cells counted row by row.
pub open spec fn cell_counter(k: int) -> int {
    (k / 800) * 5 + (k % 800) / 160
}

/// Which colour of its covering chunk lands on cell `k`.
pub open spec fn cell_offset(k: int) -> int {
    (k % 800) % 160
}

/// The canvas after drawing a chunk: each cell it covers takes the chunk's colour, the others
/// keep theirs. A chunk with a malformed sub-chunk changes nothing.
pub open spec fn chunk_write(buf: Seq<Color>, ch: Chunk) -> Seq<Color> {
    match ch.colors_spec() {
        Ok(cs) => Seq::new(
            buf.len(),
            |k: int|
                if cell_counter(k) == ch.counter as int {
                    cs[cell_offset(k)]
                } else {
                    buf[k]
                },
        ),
        Err(_) => buf,
    }
}

/// The canvas after drawing chunks one after the other.
pub open spec fn apply_chunks(buf: Seq<Color>, chunks: Seq<Chunk>) -> Seq<Color>
    decreases chunks.len(),
{
    if chunks.len() == 0 {
        buf
    } else {
        chunk_write(apply_chunks(buf, chunks.drop_last()), chunks.last())
    }
}

/// Whether no two of the chunks share a counter.
pub open spec fn distinct_counters(chunks: Seq<Chunk>) -> bool {
    forall|i: int, j: int|
        0 <= i < chunks.len() && 0 <= j < chunks.len() && i != j ==> chunks[i].counter
            != chunks[j].counter
}

/// A canvas of a single colour.
pub open spec fn blank(c: Color) -> Seq<Color> {
    Seq::new(384000, |k: int| c)
}

/// Where the receiver stands in its cycle of Start, Chunks, End.
#[derive(Clone, Copy, Debug, PartialEq, Eq, Structural)]
pub enum ReceiverState {
    /// Nothing drawn since the last flush.
    Empty,
    /// Chunks are being drawn.
    Accumulating,
    /// An End came: the canvas waits to be shown.
    Ready,
}

/// What the receiver did with a frame, for the caller to act on or log.
#[derive(Clone, Copy, Debug, PartialEq, Eq, Structural)]
pub enum ReceiverEvent {
    /// The canvas was cleared for a new image.
    Cleared,
    /// The chunk was drawn.
    Drawn,
    /// The chunk had a malformed sub-chunk and was left out.
    ChunkDropped(CodecError),
    /// The frame could not be read and was left out.
    FrameDropped(FrameError),
    /// The canvas must now be shown; report back with `flushed`.
    Flush,
    /// An End came with nothing drawn since the last flush.
    NothingToShow,
}

/// The display side of the protocol: it draws incoming chunks into its canvas and asks for the
/// canvas to be shown when an End comes.
pub struct Receiver {
    state: ReceiverState,
    buffer: Vec<Color>,
    chunks: u32,
}

pub(crate) proof fn lemma_cell_decompose(k: int)
    requires
        0 <= k < 384000,
    ensures
        0 <= cell_counter(k) < 2400,
        0 <= cell_offset(k) < 160,
        k == (cell_counter(k) / 5) * 800 + (cell_counter(k) % 5) * 160 + cell_offset(k),
{
    let r = k / 800;
    let s = k % 800;
    let q = s / 160;
    let o = s % 160;
    assert(k == r * 800 + s);
    assert(s == q * 160 + o);
    assert(0 <= r < 480);
    assert(0 <= q < 5);
    let c = r * 5 + q;
    assert(c / 5 == r && c % 5 == q) by {
        vstd::arithmetic::div_mod::lemma_fundamental_div_mod_converse(c, 5, r, q);
    }
}

proof fn lemma_cell_of_position(c: int, i: int)
    requires
        0 <= c < 2400,
        0 <= i < 160,
    ensures
        ({
            let k = (c / 5) * 800 + (c % 5) * 160 + i;
            &&& 0 <= k < 384000
            &&& cell_counter(k) == c
            &&& cell_offset(k) == i
        }),
{
    let r = c / 5;
    let q = c % 5;
    let k = r * 800 + q * 160 + i;
    assert(0 <= q < 5);
    assert(0 <= r < 480);
    assert(0 <= q * 160 + i < 800);
    assert(k / 800 == r && k % 800 == q * 160 + i) by {
        vstd::arithmetic::div_mod::lemma_fundamental_div_mod_converse(k, 800, r, q * 160 + i);
    }
    assert((q * 160 + i) / 160 == q && (q * 160 + i) % 160 == i) by {
        vstd::arithmetic::div_mod::lemma_fundamental_div_mod_converse(q * 160 + i, 160, q, i);
    }
    assert(c == r * 5 + q);
}

impl Receiver {
    /// Where the receiver stands.
    pub closed spec fn state_spec(&self) -> ReceiverState {
        self.state
    }

    /// The canvas, cell `y * 800 + x` for column `x` of row `y`.
    pub closed spec fn cells(&self) -> Seq<Color> {
        self.buffer@
    }

    /// Chunks received since the last Start.
    pub closed spec fn chunks_spec(&self) -> nat {
        self.chunks as nat
    }

    /// The canvas covers every cell.
    pub closed spec fn wf(&self) -> bool {
        self.buffer@.len() == 384000
    }

    /// A receiver with a white canvas, waiting for a Start.
    pub fn new() -> (r: Receiver)
        ensures
            r.wf(),
            r.state_spec() == ReceiverState::Empty,
            r.cells() == blank(Color::White),
            r.chunks_spec() == 0,
    {
        let mut buffer: Vec<Color> = Vec::new();
        let mut k: usize = 0;
        while k < CANVAS_CELLS
            invariant
                0 <= k <= 384000,
                buffer@ == Seq::new(k as nat, |i: int| Color::White),
            decreases 384000 - k,
        {
            buffer.push(Color::White);
            k = k + 1;
        }
        assert(buffer@ =~= blank(Color::White));
        Receiver { state: ReceiverState::Empty, buffer, chunks: 0 }
    }

    /// Where the receiver stands in its cycle.
    pub fn state(&self) -> (r: ReceiverState)
        ensures
            r == self.state_spec(),
    {
        self.state
    }

    /// The canvas, row by row.
    pub fn frame(&self) -> (r: &[Color])
        requires
            self.wf(),
        ensures
            r@ == self.cells(),
    {
        self.buffer.as_slice()
    }

    /// Chunks received since the last Start, counting up to `u32::MAX`.
    pub fn chunks_received(&self) -> (r: u32)
        ensures
            r as nat == self.chunks_spec(),
    {
        self.chunks
    }

    /// Paints every cell white.
    fn clear(&mut self)
        requires
            old(self).wf(),
        ensures
            final(self).wf(),
            final(self).cells() == blank(Color::White),
            final(self).state == old(self).state,
            final(self).chunks == old(self).chunks,
    {
        let mut k: usize = 0;
        while k < CANVAS_CELLS
            invariant
                0 <= k <= 384000,
                self.buffer@.len() == 384000,
                forall|i: int| 0 <= i < k ==> self.buffer@[i] == Color::White,
                self.state == old(self).state,
                self.chunks == old(self).chunks,
            decreases 384000 - k,
        {
            self.buffer.set(k, Color::White);
            k = k + 1;
        }
        assert(self.buffer@ =~= blank(Color::White));
    }

    /// Draws a chunk into the canvas; leaves the canvas as it was when a sub-chunk is malformed.
    fn draw(&mut self, ch: Chunk) -> (r: Result<(), CodecError>)
        requires
            old(self).wf(),
        ensures
            final(self).wf(),
            final(self).cells() == chunk_write(old(self).cells(), ch),
            final(self).state == old(self).state,
            final(self).chunks == old(self).chunks,
            match r {
                Ok(_) => ch.colors_spec() is Ok,
                Err(e) => ch.colors_spec() == Err::<Seq<Color>, CodecError>(e),
            },
    {
        let pixels = match ch.pixels() {
            Ok(v) => v,
            Err(e) => {
                return Err(e);
            },
        };
        let ghost cs = ch.colors_spec()->Ok_0;
        let ghost start = self.buffer@;
        let mut i: usize = 0;
        while i < pixels.len()
            invariant
                pixels@.len() == 160,
                0 <= i <= 160,
                start.len() == 384000,
                self.buffer@.len() == 384000,
                self.state == old(self).state,
                self.chunks == old(self).chunks,
                forall|j: int|
                    0 <= j < 160 ==> {
                        let p = crate::chunk::pixel_position(ch.counter as int, j);
                        &&& (#[trigger] pixels@[j]).0.0 as int == p.0
                        &&& pixels@[j].0.1 as int == p.1
                        &&& pixels@[j].1 == cs[j]
                    },
                forall|k: int|
                    0 <= k < 384000 ==> #[trigger] self.buffer@[k] == if cell_counter(k)
                        == ch.counter as int && cell_offset(k) < i {
                        cs[cell_offset(k)]
                    } else {
                        start[k]
                    },
            decreases 160 - i,
        {
            let ((x, y), c) = pixels[i];
            if y < 480 && x < 800 {
                let k0: usize = (y as usize) * 800 + (x as usize);
                proof {
                    let cn = ch.counter as int;
                    assert(cn / 5 < 480);
                    assert(cn < 2400);
                    lemma_cell_of_position(cn, i as int);
                    assert forall|k: int|
                        0 <= k < 384000 && k != k0 && cell_counter(k) == cn implies cell_offset(k)
                        != i by {
                        lemma_cell_decompose(k);
                    }
                }
                self.buffer.set(k0, c);
            } else {
                proof {
                    let cn = ch.counter as int;
                    assert(cn / 5 >= 480);
                    assert forall|k: int| 0 <= k < 384000 implies cell_counter(k) != cn by {
                        lemma_cell_decompose(k);
                    }
                }
            }
            i = i + 1;
        }
        assert(self.buffer@ =~= chunk_write(start, ch));
        Ok(())
    }

    /// Handles one frame as it was read. Start clears the canvas; a Chunk is drawn, or left out
    /// when malformed; End asks for the canvas to be shown when anything was received since the
    /// last flush. A frame that could not be read changes nothing.
    pub fn handle(&mut self, frame: Result<Command, FrameError>) -> (r: ReceiverEvent)
        requires
            old(self).wf(),
            old(self).state_spec() != ReceiverState::Ready,
        ensures
            final(self).wf(),
            match frame {
                Err(e) => {
                    &&& r == ReceiverEvent::FrameDropped(e)
                    &&& *final(self) == *old(self)
                },
                Ok(Command::Start) => {
                    &&& r == ReceiverEvent::Cleared
                    &&& final(self).state_spec() == ReceiverState::Accumulating
                    &&& final(self).cells() == blank(Color::White)
                    &&& final(self).chunks_spec() == 0
                },
                Ok(Command::Chunk(ch)) => {
                    &&& final(self).state_spec() == ReceiverState::Accumulating
                    &&& final(self).cells() == chunk_write(old(self).cells(), ch)
                    &&& final(self).chunks_spec() == if old(self).chunks_spec() < u32::MAX {
                        old(self).chunks_spec() + 1
                    } else {
                        old(self).chunks_spec()
                    }
                    &&& r == match ch.colors_spec() {
                        Ok(_) => ReceiverEvent::Drawn,
                        Err(e) => ReceiverEvent::ChunkDropped(e),
                    }
                },
                Ok(Command::End) => {
                    &&& final(self).cells() == old(self).cells()
                    &&& final(self).chunks_spec() == old(self).chunks_spec()
                    &&& if old(self).state_spec() == ReceiverState::Accumulating {
                        &&& r == ReceiverEvent::Flush
                        &&& final(self).state_spec() == ReceiverState::Ready
                    } else {
                        &&& r == ReceiverEvent::NothingToShow
                        &&& final(self).state_spec() == old(self).state_spec()
                    }
                },
            },
    {
        match frame {
            Err(e) => ReceiverEvent::FrameDropped(e),
            Ok(Command::Start) => {
                self.clear();
                self.state = ReceiverState::Accumulating;
                self.chunks = 0;
                ReceiverEvent::Cleared
            },
            Ok(Command::Chunk(ch)) => {
                let drawn = self.draw(ch);
                self.state = ReceiverState::Accumulating;
                if self.chunks < u32::MAX {
                    self.chunks = self.chunks + 1;
                }
                match drawn {
                    Ok(_) => ReceiverEvent::Drawn,
                    Err(e) => ReceiverEvent::ChunkDropped(e),
                }
            },
            Ok(Command::End) => {
                if self.state == ReceiverState::Accumulating {
                    self.state = ReceiverState::Ready;
                    ReceiverEvent::Flush
                } else {
                    ReceiverEvent::NothingToShow
                }
            },
        }
    }

    /// Reports that the canvas has been shown: the receiver waits for the next Start.
    pub fn flushed(&mut self)
        requires
            old(self).state_spec() == ReceiverState::Ready,
        ensures
            final(self).state_spec() == ReceiverState::Empty,
            final(self).cells() == old(self).cells(),
            final(self).chunks_spec() == old(self).chunks_spec(),
            final(self).wf() == old(self).wf(),
    {
        self.state = ReceiverState::Empty;
    }
}

pub(crate) proof fn lemma_apply_chunks_len(buf: Seq<Color>, chunks: Seq<Chunk>)
    ensures
        apply_chunks(buf, chunks).len() == buf.len(),
    decreases chunks.len(),
{
    if chunks.len() > 0 {
        lemma_apply_chunks_len(buf, chunks.drop_last());
    }
}

/// With distinct counters, a cell ends up with the colour of the one chunk that covers it and
/// is well formed, or keeps its colour when there is none.
pub(crate) proof fn lemma_apply_chunks_at(buf: Seq<Color>, chunks: Seq<Chunk>, k: int)
    requires
        distinct_counters(chunks),
        0 <= k < buf.len(),
    ensures
        apply_chunks(buf, chunks).len() == buf.len(),
        (forall|j: int|
            0 <= j < chunks.len() ==> !(#[trigger] chunks[j].counter as int == cell_counter(k)
                && chunks[j].colors_spec() is Ok)) ==> apply_chunks(buf, chunks)[k] == buf[k],
        forall|j: int|
            0 <= j < chunks.len() && #[trigger] chunks[j].counter as int == cell_counter(k)
                && chunks[j].colors_spec() is Ok ==> apply_chunks(buf, chunks)[k]
                == chunks[j].colors_spec()->Ok_0[cell_offset(k)],
    decreases chunks.len(),
{
    if chunks.len() > 0 {
        let rest = chunks.drop_last();
        let n = chunks.len() - 1;
        assert(distinct_counters(rest)) by {
            assert forall|i: int, j: int|
                0 <= i < rest.len() && 0 <= j < rest.len() && i != j implies rest[i].counter
                != rest[j].counter by {
                assert(rest[i] == chunks[i] && rest[j] == chunks[j]);
            }
        }
        lemma_apply_chunks_at(buf, rest, k);
        let prev = apply_chunks(buf, rest);
        assert forall|j: int|
            0 <= j < chunks.len() && #[trigger] chunks[j].counter as int == cell_counter(k)
                && chunks[j].colors_spec() is Ok implies apply_chunks(buf, chunks)[k]
            == chunks[j].colors_spec()->Ok_0[cell_offset(k)] by {
            if j < n {
                assert(rest[j] == chunks[j]);
                assert(chunks[j].counter != chunks[n].counter);
            }
        }
        if forall|j: int|
            0 <= j < chunks.len() ==> !(#[trigger] chunks[j].counter as int == cell_counter(k)
                && chunks[j].colors_spec() is Ok) {
            assert forall|j: int|
                0 <= j < rest.len() implies !(#[trigger] rest[j].counter as int == cell_counter(k)
                && rest[j].colors_spec() is Ok) by {
                assert(rest[j] == chunks[j]);
            }
            assert(!(chunks[n].counter as int == cell_counter(k) && chunks[n].colors_spec() is Ok));
        }
    }
}

/// Drawing a chunk touches only the cells it covers, and drawing it a second time changes
/// nothing more.
pub proof fn lemma_chunk_write_local(buf: Seq<Color>, ch: Chunk)
    ensures
        chunk_write(buf, ch).len() == buf.len(),
        forall|k: int|
            0 <= k < buf.len() && cell_counter(k) != ch.counter as int ==> #[trigger] chunk_write(
                buf,
                ch,
            )[k] == buf[k],
        chunk_write(chunk_write(buf, ch), ch) == chunk_write(buf, ch),
{
    assert(chunk_write(chunk_write(buf, ch), ch) =~= chunk_write(buf, ch));
}

/// Chunks with distinct counters can be drawn in any order: drawing them in reverse gives the
/// same canvas as drawing them forward.
pub proof fn lemma_reverse_order(buf: Seq<Color>, chunks: Seq<Chunk>)
    requires
        distinct_counters(chunks),
    ensures
        apply_chunks(buf, chunks.reverse()) == apply_chunks(buf, chunks),
{
    let rev = chunks.reverse();
    let n = chunks.len() as int;
    assert forall|i: int| 0 <= i < n implies rev[n - 1 - i] == #[trigger] chunks[i] by {}
    assert(distinct_counters(rev)) by {
        assert forall|i: int, j: int|
            0 <= i < rev.len() && 0 <= j < rev.len() && i != j implies rev[i].counter
            != rev[j].counter by {
            assert(rev[i] == chunks[n - 1 - i] && rev[j] == chunks[n - 1 - j]);
        }
    }
    let a = apply_chunks(buf, rev);
    let b = apply_chunks(buf, chunks);
    lemma_apply_chunks_len(buf, rev);
    lemma_apply_chunks_len(buf, chunks);
    assert forall|k: int| 0 <= k < buf.len() implies a[k] == b[k] by {
        lemma_apply_chunks_at(buf, rev, k);
        lemma_apply_chunks_at(buf, chunks, k);
        if exists|j: int|
            0 <= j < n && #[trigger] chunks[j].counter as int == cell_counter(k)
                && chunks[j].colors_spec() is Ok {
            let j = choose|j: int|
                0 <= j < n && #[trigger] chunks[j].counter as int == cell_counter(k)
                    && chunks[j].colors_spec() is Ok;
            assert(rev[n - 1 - j] == chunks[j]);
        } else {
            assert forall|j: int| 0 <= j < n implies !(#[trigger] rev[j].counter as int
                == cell_counter(k) && rev[j].colors_spec() is Ok) by {
                assert(rev[j] == chunks[n - 1 - j]);
            }
        }
    }
    assert(a =~= b);
}

} // verus!
