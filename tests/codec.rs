use ennead_protocol::chunk::Chunk;
use ennead_protocol::color::{CodecError, Color};
use ennead_protocol::frame::{Command, FrameError, Response, SmolStr};
use ennead_protocol::pixel::{pack, unpack, SubChunk};

const ALL: [Color; 7] = [
    Color::White,
    Color::Black,
    Color::Green,
    Color::Blue,
    Color::Red,
    Color::Yellow,
    Color::Orange,
];

#[test]
fn color_indices_round_trip() {
    for (i, c) in ALL.iter().enumerate() {
        assert_eq!(u8::from(*c), i as u8);
        assert_eq!(Color::try_from(i as u8), Ok(*c));
    }
    assert_eq!(Color::try_from(7u8), Err(CodecError::InvalidPaletteIndex));
    assert_eq!(Color::try_from(200u8), Err(CodecError::InvalidPaletteIndex));
}

#[test]
fn pack_layout_matches_bit_formula() {
    let colors = [
        Color::White,
        Color::Black,
        Color::Green,
        Color::Blue,
        Color::Red,
        Color::Yellow,
        Color::Orange,
        Color::White,
    ];
    assert_eq!(pack(colors), [0x05, 0x39, 0x70]);
    assert_eq!(pack([Color::Orange; 8]), [0xDB, 0x6D, 0xB6]);
    assert_eq!(pack([Color::White; 8]), [0, 0, 0]);
    assert_eq!(SubChunk::from([Color::Orange; 8]).data, [0xDB, 0x6D, 0xB6]);
}

#[test]
fn unpack_inverts_pack() {
    let mut seed: u32 = 12345;
    for _ in 0..500 {
        let mut colors = [Color::White; 8];
        for c in colors.iter_mut() {
            seed = seed.wrapping_mul(1103515245).wrapping_add(12345);
            *c = ALL[((seed >> 16) % 7) as usize];
        }
        let bytes = pack(colors);
        assert_eq!(bytes.len(), 3);
        assert_eq!(unpack(bytes), Ok(colors));
    }
}

#[test]
fn unpack_rejects_index_seven() {
    assert_eq!(unpack([0xFF, 0xFF, 0xFF]), Err(CodecError::InvalidPaletteIndex));
    assert_eq!(unpack([0xE0, 0x00, 0x00]), Err(CodecError::InvalidPaletteIndex));
    assert_eq!(unpack([0x00, 0x00, 0x07]), Err(CodecError::InvalidPaletteIndex));
    assert_eq!(unpack([0x03, 0x80, 0x00]), Err(CodecError::InvalidPaletteIndex));
    assert_eq!(
        SubChunk { data: [0x00, 0x00, 0x38] }.colors(),
        Err(CodecError::InvalidPaletteIndex)
    );
}

fn sample_pixels(seed: usize) -> [Color; 160] {
    let mut px = [Color::White; 160];
    for (i, p) in px.iter_mut().enumerate() {
        *p = ALL[(i * 3 + seed) % 7];
    }
    px
}

#[test]
fn chunk_positions_follow_counter() {
    let px = sample_pixels(1);
    let chunk = Chunk::new(7, px);
    assert_eq!(chunk.counter, 7);
    let pixels = chunk.pixels().unwrap();
    assert_eq!(pixels.len(), 160);
    for (i, ((x, y), c)) in pixels.iter().enumerate() {
        assert_eq!(*x, 320 + i as u16);
        assert_eq!(*y, 1);
        assert_eq!(*c, px[i]);
    }
    let last = Chunk::new(2399, px).pixels().unwrap();
    assert_eq!(last[0].0, (640, 479));
    assert_eq!(last[159].0, (799, 479));
}

#[test]
fn chunk_with_bad_subchunk_fails() {
    let mut chunk = Chunk::new(0, sample_pixels(0));
    chunk.subchunks[13] = SubChunk { data: [0xFF, 0xFF, 0xFF] };
    assert_eq!(chunk.pixels().unwrap_err(), CodecError::InvalidPaletteIndex);
}

#[test]
fn chunks_tile_the_canvas() {
    let mut seen = vec![0u8; 800 * 480];
    for counter in 0..2400u16 {
        let pixels = Chunk::new(counter, [Color::Black; 160]).pixels().unwrap();
        for ((x, y), _) in pixels {
            assert!(x < 800 && y < 480);
            seen[y as usize * 800 + x as usize] += 1;
        }
    }
    assert!(seen.iter().all(|&n| n == 1));
}

#[test]
fn frames_are_63_bytes() {
    let chunk = Chunk::new(5, sample_pixels(2));
    assert_eq!(Command::Start.encode().len(), 63);
    assert_eq!(Command::Chunk(chunk).encode().len(), 63);
    assert_eq!(Command::End.encode().len(), 63);
    assert_eq!(Response::Ack.encode().len(), 63);
    let msg = SmolStr::<62>::new("bad").unwrap();
    assert_eq!(Response::Error { msg }.encode().len(), 63);
}

#[test]
fn command_bytes_layout() {
    let start = Command::Start.encode();
    assert_eq!(start[0], 0);
    assert!(start[1..].iter().all(|&b| b == 0));
    let end = Command::End.encode();
    assert_eq!(end[0], 2);
    assert!(end[1..].iter().all(|&b| b == 0));
    let chunk = Chunk::new(0x0102, [Color::Orange; 160]);
    let bytes = Command::Chunk(chunk).encode();
    assert_eq!(bytes[0], 1);
    assert_eq!(bytes[1], 0x02);
    assert_eq!(bytes[2], 0x01);
    for g in 0..20 {
        assert_eq!(&bytes[3 + 3 * g..6 + 3 * g], &[0xDB, 0x6D, 0xB6]);
    }
}

#[test]
fn command_round_trip() {
    let px = sample_pixels(4);
    let chunk = Chunk::new(1234, px);
    match Command::decode(&Command::Chunk(chunk).encode()) {
        Ok(Command::Chunk(back)) => {
            assert_eq!(back.counter, 1234);
            let colors: Vec<Color> = back.pixels().unwrap().into_iter().map(|p| p.1).collect();
            assert_eq!(colors, px.to_vec());
        }
        other => panic!("unexpected {:?}", other),
    }
    assert!(matches!(Command::decode(&Command::Start.encode()), Ok(Command::Start)));
    assert!(matches!(Command::decode(&Command::End.encode()), Ok(Command::End)));
}

#[test]
fn decode_unknown_tag() {
    let mut frame = [0u8; 63];
    frame[0] = 3;
    assert_eq!(Command::decode(&frame).unwrap_err(), FrameError::UnknownTag);
    assert_eq!(Response::decode(&frame).unwrap_err(), FrameError::UnknownTag);
    frame[0] = 1;
    assert_eq!(Response::decode(&frame).unwrap_err(), FrameError::UnknownTag);
}

#[test]
fn decode_truncated() {
    assert_eq!(Command::decode(&[]).unwrap_err(), FrameError::Truncated);
    assert_eq!(Command::decode(&[1u8; 10]).unwrap_err(), FrameError::Truncated);
    assert_eq!(Command::decode(&[0u8; 62]).unwrap_err(), FrameError::Truncated);
    assert_eq!(Response::decode(&[0u8; 40]).unwrap_err(), FrameError::Truncated);
    assert_eq!(Response::decode(&[]).unwrap_err(), FrameError::Truncated);
}

#[test]
fn decode_invalid_text() {
    let mut frame = [0u8; 63];
    frame[0] = 2;
    frame[1] = b'o';
    frame[2] = 0xFF;
    frame[3] = b'k';
    assert_eq!(Response::decode(&frame).unwrap_err(), FrameError::InvalidText);
    frame[2] = 0;
    match Response::decode(&frame) {
        Ok(Response::Error { msg }) => assert_eq!(msg.to_str(), Ok("o")),
        other => panic!("unexpected {:?}", other),
    }
}

#[test]
fn smol_str_rejects_zero_and_long() {
    assert!(SmolStr::<62>::new("a\0b").is_err());
    assert!(SmolStr::<62>::new(&"x".repeat(63)).is_err());
    assert!(SmolStr::<62>::new(&"x".repeat(62)).is_ok());
    assert!(SmolStr::<4>::new("ἐν").is_err());
    assert_eq!(SmolStr::<62>::new("").unwrap().to_str(), Ok(""));
}

#[test]
fn error_message_round_trip() {
    for text in ["hello", "chunk out of order", "ἐννεάς", &"y".repeat(62)] {
        let msg = SmolStr::<62>::new(text).unwrap();
        assert_eq!(msg.to_str(), Ok(text));
        let bytes = Response::Error { msg }.encode();
        assert_eq!(bytes[0], 2);
        match Response::decode(&bytes) {
            Ok(Response::Error { msg: back }) => assert_eq!(back.to_str(), Ok(text)),
            other => panic!("unexpected {:?}", other),
        }
    }
    assert!(matches!(Response::decode(&Response::Ack.encode()), Ok(Response::Ack)));
}
