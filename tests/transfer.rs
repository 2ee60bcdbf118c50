use ennead_protocol::chunk::Chunk;
use ennead_protocol::color::{CodecError, Color};
use ennead_protocol::frame::{Command, FrameError, Response, SmolStr};
use ennead_protocol::image::{ImageError, RgbImage};
use ennead_protocol::pixel::SubChunk;
use ennead_protocol::receiver::{Receiver, ReceiverEvent, ReceiverState};
use ennead_protocol::sender::{
    Outgoing, Policy, SendEvent, Sender, SenderAction, SenderState, TransferError,
};

const ALL: [Color; 7] = [
    Color::White,
    Color::Black,
    Color::Green,
    Color::Blue,
    Color::Red,
    Color::Yellow,
    Color::Orange,
];

fn image_of(f: impl Fn(usize, usize) -> Color) -> RgbImage {
    let mut pixels = Vec::with_capacity(800 * 480);
    for y in 0..480 {
        for x in 0..800 {
            pixels.push(f(x, y).rgb());
        }
    }
    RgbImage { width: 800, height: 480, pixels }
}

fn replay<'a>(rx: &mut Receiver, cmds: impl Iterator<Item = &'a Command>) -> Vec<ReceiverEvent> {
    cmds.map(|c| rx.handle(Ok(*c))).collect()
}

#[test]
fn rgb_palette_round_trip() {
    for c in ALL {
        assert_eq!(Color::from_rgb(c.rgb()), Some(c));
    }
    assert_eq!(Color::Orange.rgb(), [255, 128, 0]);
    assert_eq!(Color::White.rgb(), [255, 255, 255]);
    assert_eq!(Color::from_rgb([1, 2, 3]), None);
    assert_eq!(Color::from_rgb([255, 127, 0]), None);
}

#[test]
fn all_red_image_end_to_end() {
    let image = image_of(|_, _| Color::Red);
    let cmds = Command::from_image(&image).unwrap();
    assert_eq!(cmds.len(), 2402);
    assert!(matches!(cmds[0], Command::Start));
    assert!(matches!(cmds[2401], Command::End));
    for (i, c) in cmds[1..2401].iter().enumerate() {
        match c {
            Command::Chunk(ch) => assert_eq!(ch.counter as usize, i),
            other => panic!("unexpected {:?}", other),
        }
    }
    let mut rx = Receiver::new();
    let events = replay(&mut rx, cmds.iter());
    assert_eq!(events[0], ReceiverEvent::Cleared);
    assert!(events[1..2401].iter().all(|e| *e == ReceiverEvent::Drawn));
    assert_eq!(events[2401], ReceiverEvent::Flush);
    assert_eq!(rx.state(), ReceiverState::Ready);
    assert_eq!(rx.chunks_received(), 2400);
    assert_eq!(rx.frame().len(), 384000);
    assert!(rx.frame().iter().all(|c| *c == Color::Red));
    rx.flushed();
    assert_eq!(rx.state(), ReceiverState::Empty);
}

#[test]
fn replay_gives_back_image() {
    let f = |x: usize, y: usize| ALL[(x * 7 + y * 3 + x / 13) % 7];
    let cmds = Command::from_image(&image_of(f)).unwrap();
    let mut rx = Receiver::new();
    replay(&mut rx, cmds.iter());
    for y in 0..480 {
        for x in 0..800 {
            assert_eq!(rx.frame()[y * 800 + x], f(x, y));
        }
    }
}

#[test]
fn reverse_chunk_order_same_frame() {
    let f = |x: usize, y: usize| ALL[(x / 3 + y * 5) % 7];
    let cmds = Command::from_image(&image_of(f)).unwrap();
    let mut forward = Receiver::new();
    replay(&mut forward, cmds.iter());
    let mut backward = Receiver::new();
    backward.handle(Ok(Command::Start));
    replay(&mut backward, cmds[1..2401].iter().rev());
    assert_eq!(backward.handle(Ok(Command::End)), ReceiverEvent::Flush);
    assert_eq!(forward.frame(), backward.frame());
}

#[test]
fn duplicate_chunk_is_idempotent() {
    let cmds = Command::from_image(&image_of(|x, _| ALL[x % 7])).unwrap();
    let mut once = Receiver::new();
    replay(&mut once, cmds.iter());
    let mut twice = Receiver::new();
    replay(&mut twice, cmds[..2401].iter());
    replay(&mut twice, cmds[500..600].iter());
    replay(&mut twice, cmds[2401..].iter());
    assert_eq!(once.frame(), twice.frame());
}

#[test]
fn from_image_rejects_wrong_size() {
    let small = RgbImage { width: 10, height: 10, pixels: vec![[0, 0, 0]; 100] };
    assert_eq!(Command::from_image(&small).unwrap_err(), ImageError::Dimensions);
    let lying = RgbImage { width: 800, height: 480, pixels: vec![[0, 0, 0]; 100] };
    assert_eq!(Command::from_image(&lying).unwrap_err(), ImageError::Dimensions);
}

#[test]
fn from_image_rejects_off_palette_pixel() {
    let mut image = image_of(|_, _| Color::Blue);
    image.pixels[123456] = [10, 20, 30];
    assert_eq!(Command::from_image(&image).unwrap_err(), ImageError::NotPalettized);
}

#[test]
fn receiver_drops_bad_chunk_and_frames() {
    let mut rx = Receiver::new();
    assert_eq!(rx.handle(Ok(Command::Start)), ReceiverEvent::Cleared);
    let mut chunk = Chunk::new(3, [Color::Green; 160]);
    chunk.subchunks[0] = SubChunk { data: [0xFF, 0xFF, 0xFF] };
    assert_eq!(
        rx.handle(Ok(Command::Chunk(chunk))),
        ReceiverEvent::ChunkDropped(CodecError::InvalidPaletteIndex)
    );
    assert!(rx.frame().iter().all(|c| *c == Color::White));
    assert_eq!(
        rx.handle(Err(FrameError::UnknownTag)),
        ReceiverEvent::FrameDropped(FrameError::UnknownTag)
    );
    assert_eq!(rx.state(), ReceiverState::Accumulating);
    let mut frame = [0u8; 63];
    frame[0] = 9;
    assert_eq!(
        rx.handle(Command::decode(&frame)),
        ReceiverEvent::FrameDropped(FrameError::UnknownTag)
    );
    assert_eq!(rx.chunks_received(), 1);
}

#[test]
fn receiver_end_without_start() {
    let mut rx = Receiver::new();
    assert_eq!(rx.handle(Ok(Command::End)), ReceiverEvent::NothingToShow);
    assert_eq!(rx.state(), ReceiverState::Empty);
    assert_eq!(rx.handle(Ok(Command::Start)), ReceiverEvent::Cleared);
    assert_eq!(rx.handle(Ok(Command::End)), ReceiverEvent::Flush);
}

#[test]
fn receiver_start_clears() {
    let mut rx = Receiver::new();
    rx.handle(Ok(Command::Start));
    rx.handle(Ok(Command::Chunk(Chunk::new(0, [Color::Black; 160]))));
    assert_eq!(rx.frame()[0], Color::Black);
    assert_eq!(rx.frame()[160], Color::White);
    rx.handle(Ok(Command::Start));
    assert_eq!(rx.frame()[0], Color::White);
    assert_eq!(rx.chunks_received(), 0);
}

/// Runs a whole transfer; `respond` decides what the transport reports for each send.
fn drive(
    total: u16,
    policy: Policy,
    mut respond: impl FnMut(Outgoing) -> SendEvent,
) -> (Vec<Outgoing>, SenderAction) {
    let mut sender = Sender::new(total, policy);
    let mut sent = Vec::new();
    let mut action = sender.begin();
    loop {
        match action {
            SenderAction::Send(f) => {
                sent.push(f);
                action = sender.step(respond(f));
            }
            done => return (sent, done),
        }
    }
}

#[test]
fn sender_emits_start_chunks_end() {
    let (sent, done) = drive(4, Policy::FireAndForget, |_| SendEvent::Delivered);
    assert_eq!(
        sent,
        vec![
            Outgoing::Start,
            Outgoing::Chunk(0),
            Outgoing::Chunk(1),
            Outgoing::Chunk(2),
            Outgoing::Chunk(3),
            Outgoing::End
        ]
    );
    assert_eq!(done, SenderAction::Finished);
    let (sent, _) = drive(2400, Policy::FireAndForget, |_| SendEvent::Delivered);
    assert_eq!(sent.len(), 2402);
    let (sent, _) = drive(0, Policy::FireAndForget, |_| SendEvent::Delivered);
    assert_eq!(sent, vec![Outgoing::Start, Outgoing::End]);
}

#[test]
fn sender_retries_until_acknowledged() {
    for k in 0..6usize {
        let mut rejections = 0;
        let policy = Policy::Acknowledged { max_sends: None };
        let (sent, done) = drive(3, policy, |f| {
            if f == Outgoing::Chunk(1) && rejections < k {
                rejections += 1;
                SendEvent::Rejected
            } else {
                SendEvent::Delivered
            }
        });
        assert_eq!(done, SenderAction::Finished);
        assert_eq!(sent.iter().filter(|f| **f == Outgoing::Chunk(1)).count(), k + 1);
        assert_eq!(sent.len(), 5 + k);
        assert_eq!(sent.last(), Some(&Outgoing::End));
    }
}

#[test]
fn sender_retry_bound() {
    let policy = Policy::Acknowledged { max_sends: Some(3) };
    let (sent, done) = drive(2, policy, |f| {
        if f == Outgoing::Chunk(0) {
            SendEvent::Rejected
        } else {
            SendEvent::Delivered
        }
    });
    assert_eq!(done, SenderAction::Failed(TransferError::Rejected));
    assert_eq!(sent, vec![Outgoing::Start, Outgoing::Chunk(0), Outgoing::Chunk(0), Outgoing::Chunk(0)]);
}

#[test]
fn sender_transport_failure_is_fatal() {
    let (sent, done) = drive(5, Policy::FireAndForget, |f| {
        if f == Outgoing::Chunk(2) {
            SendEvent::TransportFailed
        } else {
            SendEvent::Delivered
        }
    });
    assert_eq!(done, SenderAction::Failed(TransferError::Transport));
    assert_eq!(sent.last(), Some(&Outgoing::Chunk(2)));
    let (_, done) = drive(5, Policy::FireAndForget, |_| SendEvent::Rejected);
    assert_eq!(done, SenderAction::Failed(TransferError::Rejected));
}

#[test]
fn sender_states_and_positions() {
    let mut s = Sender::new(2, Policy::FireAndForget);
    assert_eq!(s.next(), Some(Outgoing::Start));
    s.begin();
    s.step(SendEvent::Delivered);
    assert_eq!(s.state, SenderState::Started);
    s.step(SendEvent::Delivered);
    assert_eq!(s.state, SenderState::Streaming(1));
    s.step(SendEvent::Delivered);
    s.step(SendEvent::Delivered);
    assert_eq!(s.state, SenderState::Ended);
    assert_eq!(s.next(), None);
    assert_eq!(Outgoing::Start.position(2400), 0);
    assert_eq!(Outgoing::Chunk(7).position(2400), 8);
    assert_eq!(Outgoing::End.position(2400), 2401);
}

#[test]
fn response_events() {
    assert_eq!(SendEvent::from_response(&Ok(Response::Ack)), SendEvent::Delivered);
    let msg = SmolStr::<62>::new("busy").unwrap();
    assert_eq!(SendEvent::from_response(&Ok(Response::Error { msg })), SendEvent::Rejected);
    assert_eq!(SendEvent::from_response(&Err(FrameError::Truncated)), SendEvent::Rejected);
}
