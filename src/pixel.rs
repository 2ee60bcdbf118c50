use vstd::prelude::*;

use crate::color::{CodecError, Color};

verus! {

broadcast use {Color::lemma_index_round_trip, Color::lemma_of_index};

/// The 24-bit value holding eight palette indices, most significant first, three bits each.
pub open spec fn packed_word(c: Seq<Color>) -> u32
    recommends
        c.len() == 8,
{
    ((c[0].index() as u32) << 21u32) | ((c[1].index() as u32) << 18u32) | ((c[2].index() as u32)
        << 15u32) | ((c[3].index() as u32) << 12u32) | ((c[4].index() as u32) << 9u32) | ((
    c[5].index() as u32) << 6u32) | ((c[6].index() as u32) << 3u32) | (c[7].index() as u32)
}

/// The three bytes of a 24-bit value, most significant first.
pub open spec fn word_bytes(w: u32) -> Seq<u8> {
    seq![(w >> 16u32) as u8, (w >> 8u32) as u8, w as u8]
}

/// The 24-bit value that three bytes hold, the first one most significant.
pub open spec fn bytes_word(b: Seq<u8>) -> u32
    recommends
        b.len() == 3,
{
    ((b[0] as u32) << 16u32) | ((b[1] as u32) << 8u32) | (b[2] as u32)
}

/// The `i`-th 3-bit group of a 24-bit value, counted from the most significant end.
pub open spec fn group(w: u32, i: int) -> u8
    recommends
        0 <= i < 8,
{
    ((w >> ((21 - 3 * i) as u32)) & 7u32) as u8
}

/// What packing eight colours yields.
pub open spec fn pack_spec(c: Seq<Color>) -> Seq<u8>
    recommends
        c.len() == 8,
{
    word_bytes(packed_word(c))
}

/// What unpacking three bytes yields: the eight colours named by their 3-bit groups, or an
/// error when one of the groups is no palette index.
pub open spec fn unpack_spec(b: Seq<u8>) -> Result<Seq<Color>, CodecError>
    recommends
        b.len() == 3,
{
    if forall|i: int| 0 <= i < 8 ==> Color::of_index(#[trigger] group(bytes_word(b), i)) is Some {
        Ok(Seq::new(8, |i: int| Color::of_index(group(bytes_word(b), i))->Some_0))
    } else {
        Err(CodecError::InvalidPaletteIndex)
    }
}

/// Eight colours packed into three bytes.
#[derive(Clone, Copy, Debug)]
pub struct SubChunk {
    pub data: [u8; 3],
}

proof fn lemma_pack_bytes(a: u8, b: u8, c: u8, d: u8, e: u8, f: u8, g: u8, h: u8)
    by (bit_vector)
    requires
        a < 8 && b < 8 && c < 8 && d < 8 && e < 8 && f < 8 && g < 8 && h < 8,
    ensures
        ({
            let w = ((a as u32) << 21u32) | ((b as u32) << 18u32) | ((c as u32) << 15u32) | ((
            d as u32) << 12u32) | ((e as u32) << 9u32) | ((f as u32) << 6u32) | ((g as u32)
                << 3u32) | (h as u32);
            &&& (a << 5u8) | (b << 2u8) | (c >> 1u8) == (w >> 16u32) as u8
            &&& (c << 7u8) | (d << 4u8) | (e << 1u8) | (f >> 2u8) == (w >> 8u32) as u8
            &&& (f << 6u8) | (g << 3u8) | h == w as u8
        }),
{
}

proof fn lemma_unpack_groups(x: u8, y: u8, z: u8)
    by (bit_vector)
    ensures
        ({
            let w = ((x as u32) << 16u32) | ((y as u32) << 8u32) | (z as u32);
            &&& (x >> 5u8) & 7u8 == ((w >> 21u32) & 7u32) as u8
            &&& (x >> 2u8) & 7u8 == ((w >> 18u32) & 7u32) as u8
            &&& (x << 1u8) & 6u8 | (y >> 7u8) & 1u8 == ((w >> 15u32) & 7u32) as u8
            &&& (y >> 4u8) & 7u8 == ((w >> 12u32) & 7u32) as u8
            &&& (y >> 1u8) & 7u8 == ((w >> 9u32) & 7u32) as u8
            &&& (y << 2u8) & 4u8 | (z >> 6u8) & 3u8 == ((w >> 6u32) & 7u32) as u8
            &&& (z >> 3u8) & 7u8 == ((w >> 3u32) & 7u32) as u8
            &&& z & 7u8 == (w & 7u32) as u8
        }),
{
}

proof fn lemma_word_groups(a: u32, b: u32, c: u32, d: u32, e: u32, f: u32, g: u32, h: u32)
    by (bit_vector)
    requires
        a < 8 && b < 8 && c < 8 && d < 8 && e < 8 && f < 8 && g < 8 && h < 8,
    ensures
        ({
            let w = (a << 21u32) | (b << 18u32) | (c << 15u32) | (d << 12u32) | (e << 9u32) | (f
                << 6u32) | (g << 3u32) | h;
            let v = (((w >> 16u32) as u8 as u32) << 16u32) | (((w >> 8u32) as u8 as u32) << 8u32)
                | (w as u8 as u32);
            &&& (v >> 21u32) & 7u32 == a
            &&& (v >> 18u32) & 7u32 == b
            &&& (v >> 15u32) & 7u32 == c
            &&& (v >> 12u32) & 7u32 == d
            &&& (v >> 9u32) & 7u32 == e
            &&& (v >> 6u32) & 7u32 == f
            &&& (v >> 3u32) & 7u32 == g
            &&& (v >> 0u32) & 7u32 == h
        }),
{
}

/// Unpacking what packing produced gives back the same eight colours.
pub proof fn lemma_unpack_pack(c: Seq<Color>)
    requires
        c.len() == 8,
    ensures
        pack_spec(c).len() == 3,
        unpack_spec(pack_spec(c)) == Ok::<Seq<Color>, CodecError>(c),
{
    let b = pack_spec(c);
    lemma_word_groups(
        c[0].index() as u32,
        c[1].index() as u32,
        c[2].index() as u32,
        c[3].index() as u32,
        c[4].index() as u32,
        c[5].index() as u32,
        c[6].index() as u32,
        c[7].index() as u32,
    );
    let w = bytes_word(b);
    assert forall|i: int| 0 <= i < 8 implies group(w, i) == c[i].index() by {
        if i == 0 {
        } else if i == 1 {
        } else if i == 2 {
        } else if i == 3 {
        } else if i == 4 {
        } else if i == 5 {
        } else if i == 6 {
        } else {
        }
    }
    assert(unpack_spec(b) is Ok);
    assert(unpack_spec(b)->Ok_0 =~= c);
}

/// Three bytes in which some 3-bit group holds the unused index 7 do not unpack.
pub proof fn lemma_unpack_rejects_seven(b: Seq<u8>, i: int)
    requires
        b.len() == 3,
        0 <= i < 8,
        group(bytes_word(b), i) == 7,
    ensures
        unpack_spec(b) == Err::<Seq<Color>, CodecError>(CodecError::InvalidPaletteIndex),
{
    assert(Color::of_index(group(bytes_word(b), i)) is None);
}

/// Packs eight colours into three bytes: their palette indices, three bits each, most
/// significant first.
pub fn pack(colors: [Color; 8]) -> (r: [u8; 3])
    ensures
        r@ == pack_spec(colors@),
{
    let a = u8::from(colors[0]);
    let b = u8::from(colors[1]);
    let c = u8::from(colors[2]);
    let d = u8::from(colors[3]);
    let e = u8::from(colors[4]);
    let f = u8::from(colors[5]);
    let g = u8::from(colors[6]);
    let h = u8::from(colors[7]);
    let r = [
        (a << 5) | (b << 2) | (c >> 1),
        (c << 7) | (d << 4) | (e << 1) | (f >> 2),
        (f << 6) | (g << 3) | h,
    ];
    proof {
        lemma_pack_bytes(a, b, c, d, e, f, g, h);
        assert(r@ =~= pack_spec(colors@));
    }
    r
}

/// Unpacks three bytes into eight colours; fails when a 3-bit group is not a palette index.
pub fn unpack(bytes: [u8; 3]) -> (r: Result<[Color; 8], CodecError>)
    ensures
        match r {
            Ok(c) => unpack_spec(bytes@) == Ok::<Seq<Color>, CodecError>(c@),
            Err(e) => unpack_spec(bytes@) == Err::<Seq<Color>, CodecError>(e),
        },
{
    let x = bytes[0];
    let y = bytes[1];
    let z = bytes[2];
    let groups: [u8; 8] = [
        (x >> 5) & 0b111,
        (x >> 2) & 0b111,
        (x << 1) & 0b110 | (y >> 7) & 0b001,
        (y >> 4) & 0b111,
        (y >> 1) & 0b111,
        (y << 2) & 0b100 | (z >> 6) & 0b011,
        (z >> 3) & 0b111,
        z & 0b111,
    ];
    let ghost w = bytes_word(bytes@);
    proof {
        lemma_unpack_groups(x, y, z);
        assert forall|k: int| 0 <= k < 8 implies group(w, k) <= 7 by {
            let s = (21 - 3 * k) as u32;
            assert((w >> s) & 7u32 <= 7u32) by (bit_vector);
        }
        assert forall|i: int| 0 <= i < 8 implies groups@[i] == group(w, i) by {
            if i == 0 {
            } else if i == 1 {
            } else if i == 2 {
            } else if i == 3 {
            } else if i == 4 {
            } else if i == 5 {
            } else if i == 6 {
            } else {
                assert(w >> 0u32 == w) by (bit_vector);
            }
        }
    }
    let mut out: [Color; 8] = [Color::White; 8];
    let mut i: usize = 0;
    while i < 8
        invariant
            0 <= i <= 8,
            w == bytes_word(bytes@),
            forall|k: int| 0 <= k < 8 ==> #[trigger] groups@[k] == group(w, k) && group(w, k) <= 7,
            forall|k: int|
                0 <= k < i ==> Color::of_index(group(w, k)) == Some(#[trigger] out@[k]),
        decreases 8 - i,
    {
        match Color::try_from(groups[i]) {
            Ok(c) => {
                out[i] = c;
            },
            Err(e) => {
                proof {
                    Color::lemma_of_index(groups@[i as int]);
                    lemma_unpack_rejects_seven(bytes@, i as int);
                }
                return Err(e);
            },
        }
        i = i + 1;
    }
    proof {
        assert(forall|k: int|
            0 <= k < 8 ==> Color::of_index(#[trigger] group(w, k)) == Some(out@[k]));
        assert(unpack_spec(bytes@)->Ok_0 =~= out@);
    }
    Ok(out)
}

impl From<[Color; 8]> for SubChunk {
    fn from(pixels: [Color; 8]) -> (r: SubChunk)
        ensures
            r.data@ == pack_spec(pixels@),
    {
        SubChunk { data: pack(pixels) }
    }
}

impl vstd::std_specs::convert::FromSpecImpl<[Color; 8]> for SubChunk {
    open spec fn obeys_from_spec() -> bool {
        false
    }

    open spec fn from_spec(v: [Color; 8]) -> SubChunk {
        choose|s: SubChunk| s.data@ == pack_spec(v@)
    }
}

impl SubChunk {
    /// The eight colours this group holds.
    pub fn colors(&self) -> (r: Result<[Color; 8], CodecError>)
        ensures
            match r {
                Ok(c) => unpack_spec(self.data@) == Ok::<Seq<Color>, CodecError>(c@),
                Err(e) => unpack_spec(self.data@) == Err::<Seq<Color>, CodecError>(e),
            },
    {
        unpack(self.data)
    }
}

} // verus!
