use vstd::prelude::*;
use vstd::string::StringSliceAdditionalSpecFns;
use vstd::utf8::{decode_utf8, encode_utf8, valid_utf8};

use crate::chunk::Chunk;
use crate::pixel::SubChunk;

verus! {

/// Every frame on the wire is this many bytes long.
pub const FRAME_LEN: usize = 63;

/// Bytes after the tag.
pub const PAYLOAD_LEN: usize = 62;

pub const TAG_START: u8 = 0;

pub const TAG_CHUNK: u8 = 1;

pub const TAG_END: u8 = 2;

pub const TAG_OK: u8 = 0;

pub const TAG_ERR: u8 = 2;

/// Why bytes could not be read as a frame.
#[derive(Clone, Copy, Debug, PartialEq, Eq, Structural)]
pub enum FrameError {
    /// The first byte names no variant.
    UnknownTag,
    /// The bytes are not one whole frame of 63 bytes.
    Truncated,
    /// The message of an error response is not valid UTF-8.
    InvalidText,
}

/// A frame from the host to the display.
#[derive(Clone, Copy, Debug)]
pub enum Command {
    Start,
    Chunk(Chunk),
    End,
}

/// A short message of at most `CAP` bytes, ended by a zero byte when shorter.
#[derive(Clone, Copy, Debug)]
pub struct SmolStr<const CAP: usize>([u8; CAP]);

/// A frame from the display to the host.
#[derive(Clone, Copy, Debug)]
pub enum Response {
    Ack,
    Error { msg: SmolStr<62> },
}

impl<const CAP: usize> View for SmolStr<CAP> {
    type V = Seq<u8>;

    closed spec fn view(&self) -> Seq<u8> {
        self.0@
    }
}

/// `n` zero bytes.
pub open spec fn zeros(n: nat) -> Seq<u8> {
    Seq::new(n, |i: int| 0u8)
}

/// `b` followed by zero bytes up to length `cap`.
pub open spec fn padded(b: Seq<u8>, cap: nat) -> Seq<u8> {
    b + zeros((cap - b.len()) as nat)
}

/// Whether `n` is where the text of `b` ends: at its first zero byte, or at its end.
pub open spec fn is_text_end(b: Seq<u8>, n: int) -> bool {
    &&& 0 <= n <= b.len()
    &&& n < b.len() ==> b[n] == 0
    &&& forall|k: int| 0 <= k < n ==> b[k] != 0
}

/// Where the text of `b` ends.
pub open spec fn text_end(b: Seq<u8>) -> int {
    choose|n: int| is_text_end(b, n)
}

/// The text held by `b`: the bytes before its first zero byte, read as UTF-8.
pub open spec fn text_of(b: Seq<u8>) -> Option<Seq<char>> {
    let p = b.subrange(0, text_end(b));
    if valid_utf8(p) {
        Some(decode_utf8(p))
    } else {
        None
    }
}

/// The 62 payload bytes of a chunk: its counter, little-endian, then its 20 packed groups.
pub open spec fn chunk_bytes(ch: Chunk) -> Seq<u8> {
    Seq::new(
        62,
        |i: int|
            if i == 0 {
                (ch.counter % 256) as u8
            } else if i == 1 {
                (ch.counter / 256) as u8
            } else {
                ch.subchunks@[(i - 2) / 3].data@[(i - 2) % 3]
            },
    )
}

/// The encoding of a command.
pub open spec fn command_bytes(c: Command) -> Seq<u8> {
    match c {
        Command::Start => seq![TAG_START] + zeros(62),
        Command::Chunk(ch) => seq![TAG_CHUNK] + chunk_bytes(ch),
        Command::End => seq![TAG_END] + zeros(62),
    }
}

/// The encoding of a response.
pub open spec fn response_bytes(r: Response) -> Seq<u8> {
    match r {
        Response::Ack => seq![TAG_OK] + zeros(62),
        Response::Error { msg } => seq![TAG_ERR] + msg@,
    }
}

/// The error that decoding `b` as a command meets, if any.
pub open spec fn command_error(b: Seq<u8>) -> Option<FrameError> {
    if b.len() == 0 {
        Some(FrameError::Truncated)
    } else if b[0] != TAG_START && b[0] != TAG_CHUNK && b[0] != TAG_END {
        Some(FrameError::UnknownTag)
    } else if b.len() != 63 {
        Some(FrameError::Truncated)
    } else {
        None
    }
}

/// Whether the frame `b` carries the command `c`. The padding of `Start` and `End` is reserved
/// and not read.
pub open spec fn command_in(b: Seq<u8>, c: Command) -> bool {
    &&& b.len() == 63
    &&& match c {
        Command::Start => b[0] == TAG_START,
        Command::Chunk(ch) => b[0] == TAG_CHUNK && chunk_bytes(ch) == b.subrange(1, 63),
        Command::End => b[0] == TAG_END,
    }
}

/// The error that decoding `b` as a response meets, if any.
pub open spec fn response_error(b: Seq<u8>) -> Option<FrameError> {
    if b.len() == 0 {
        Some(FrameError::Truncated)
    } else if b[0] != TAG_OK && b[0] != TAG_ERR {
        Some(FrameError::UnknownTag)
    } else if b.len() != 63 {
        Some(FrameError::Truncated)
    } else if b[0] == TAG_ERR && text_of(b.subrange(1, 63)) is None {
        Some(FrameError::InvalidText)
    } else {
        None
    }
}

/// Whether the frame `b` carries the response `r`. The padding of `Ack` is reserved and not read.
pub open spec fn response_in(b: Seq<u8>, r: Response) -> bool {
    &&& b.len() == 63
    &&& match r {
        Response::Ack => b[0] == TAG_OK,
        Response::Error { msg } => b[0] == TAG_ERR && msg@ == b.subrange(1, 63),
    }
}

proof fn lemma_text_end_unique(b: Seq<u8>, n: int)
    requires
        is_text_end(b, n),
    ensures
        text_end(b) == n,
{
    let m = text_end(b);
    assert(is_text_end(b, m));
    if m < n {
        assert(b[m] != 0);
    } else if n < m {
        assert(b[n] != 0);
    }
}

/// The error `core::str::from_utf8` reports on bytes that are not UTF-8.
#[verifier::external_type_specification]
#[verifier::external_body]
pub struct ExUtf8Error(core::str::Utf8Error);

/// Relies on `core::str::from_utf8`: it succeeds exactly on valid UTF-8, and the text it hands
/// back is made of those same bytes.
#[verifier::external_body]
fn str_from_utf8(b: &[u8]) -> (r: Result<&str, core::str::Utf8Error>)
    ensures
        r is Ok <==> valid_utf8(b@),
        r is Ok ==> r->Ok_0.spec_bytes() == b@,
{
    core::str::from_utf8(b)
}

/// The position of the first zero byte of `b`, or its length.
fn find_text_end(b: &[u8]) -> (n: usize)
    ensures
        is_text_end(b@, n as int),
        text_end(b@) == n as int,
{
    let mut n: usize = 0;
    while n < b.len() && b[n] != 0
        invariant
            0 <= n <= b@.len(),
            forall|k: int| 0 <= k < n ==> b@[k] != 0,
        decreases b@.len() - n,
    {
        n = n + 1;
    }
    proof {
        lemma_text_end_unique(b@, n as int);
    }
    n
}

/// Reads the text held by `b`.
fn read_text(b: &[u8]) -> (r: Result<&str, ()>)
    ensures
        match r {
            Ok(t) => text_of(b@) == Some(t@),
            Err(_) => text_of(b@) is None,
        },
{
    let end = find_text_end(b);
    let (prefix, _) = b.split_at(end);
    assert(prefix@ == b@.subrange(0, text_end(b@)));
    match str_from_utf8(prefix) {
        Ok(t) => {
            proof {
                vstd::utf8::encode_utf8_decode_utf8(t@);
            }
            Ok(t)
        },
        Err(_) => Err(()),
    }
}

impl<const CAP: usize> SmolStr<CAP> {
    /// Holds `s`, padded with zero bytes. Fails when `s` has a zero byte or is longer than
    /// `CAP` bytes.
    pub fn new(s: &str) -> (r: Result<Self, ()>)
        ensures
            r is Ok <==> (!s.spec_bytes().contains(0u8) && s.spec_bytes().len() <= CAP),
            r is Ok ==> r->Ok_0@ == padded(s.spec_bytes(), CAP as nat),
    {
        let bytes = s.as_bytes();
        let mut i: usize = 0;
        while i < bytes.len()
            invariant
                bytes@ == s.spec_bytes(),
                0 <= i <= bytes@.len(),
                forall|k: int| 0 <= k < i ==> bytes@[k] != 0,
            decreases bytes@.len() - i,
        {
            if bytes[i] == 0 {
                return Err(());
            }
            i = i + 1;
        }
        if bytes.len() > CAP {
            return Err(());
        }
        let mut data: [u8; CAP] = [0u8; CAP];
        let mut j: usize = 0;
        while j < bytes.len()
            invariant
                bytes@ == s.spec_bytes(),
                bytes@.len() <= CAP,
                data@.len() == CAP,
                0 <= j <= bytes@.len(),
                forall|k: int| 0 <= k < j ==> data@[k] == bytes@[k],
                forall|k: int| j <= k < CAP ==> data@[k] == 0,
            decreases bytes@.len() - j,
        {
            data[j] = bytes[j];
            j = j + 1;
        }
        assert(data@ =~= padded(s.spec_bytes(), CAP as nat));
        Ok(SmolStr(data))
    }

    /// The text before the first zero byte; fails when it is not valid UTF-8.
    pub fn to_str(&self) -> (r: Result<&str, ()>)
        ensures
            match r {
                Ok(t) => text_of(self@) == Some(t@),
                Err(_) => text_of(self@) is None,
            },
    {
        read_text(self.0.as_slice())
    }
}

/// The text of a message made by `SmolStr::new` is the message itself.
pub proof fn lemma_padded_text(text: Seq<char>, cap: nat)
    requires
        !encode_utf8(text).contains(0u8),
        encode_utf8(text).len() <= cap,
    ensures
        text_of(padded(encode_utf8(text), cap)) == Some(text),
{
    let b = encode_utf8(text);
    let p = padded(b, cap);
    assert forall|k: int| 0 <= k < b.len() implies p[k] != 0 by {
        assert(p[k] == b[k]);
    }
    lemma_text_end_unique(p, b.len() as int);
    assert(p.subrange(0, b.len() as int) =~= b);
    vstd::utf8::encode_utf8_valid_utf8(text);
    vstd::utf8::encode_utf8_decode_utf8(text);
}

/// Copies the 62 bytes after the tag.
fn payload(b: &[u8]) -> (r: [u8; 62])
    requires
        b@.len() == 63,
    ensures
        r@ == b@.subrange(1, 63),
{
    let mut out: [u8; 62] = [0u8; 62];
    let mut i: usize = 0;
    while i < PAYLOAD_LEN
        invariant
            b@.len() == 63,
            0 <= i <= 62,
            forall|k: int| 0 <= k < i ==> out@[k] == b@[k + 1],
        decreases 62 - i,
    {
        out[i] = b[i + 1];
        i = i + 1;
    }
    assert(out@ =~= b@.subrange(1, 63));
    out
}

/// A frame of the given tag with zero padding.
fn tag_frame(tag: u8) -> (r: [u8; 63])
    ensures
        r@ == seq![tag] + zeros(62),
{
    let mut out: [u8; 63] = [0u8; 63];
    out[0] = tag;
    assert(out@ =~= seq![tag] + zeros(62));
    out
}

impl Command {
    /// The 63-byte frame of this command: its tag, then the chunk's counter and packed groups,
    /// or zero padding.
    pub fn encode(&self) -> (r: [u8; 63])
        ensures
            r@ == command_bytes(*self),
    {
        match self {
            Command::Start => tag_frame(TAG_START),
            Command::End => tag_frame(TAG_END),
            Command::Chunk(ch) => {
                let mut out: [u8; 63] = [0u8; 63];
                out[0] = TAG_CHUNK;
                out[1] = (ch.counter % 256) as u8;
                out[2] = (ch.counter / 256) as u8;
                let mut j: usize = 0;
                while j < 20
                    invariant
                        0 <= j <= 20,
                        out@.len() == 63,
                        out@[0] == TAG_CHUNK,
                        out@[1] == (ch.counter % 256) as u8,
                        out@[2] == (ch.counter / 256) as u8,
                        forall|k: int|
                            3 <= k < 3 + 3 * j ==> out@[k] == ch.subchunks@[(k - 3) / 3].data@[(
                            k - 3) % 3],
                    decreases 20 - j,
                {
                    let data = ch.subchunks[j].data;
                    out[3 + 3 * j] = data[0];
                    out[4 + 3 * j] = data[1];
                    out[5 + 3 * j] = data[2];
                    j = j + 1;
                }
                assert(out@ =~= command_bytes(*self));
                out
            },
        }
    }

    /// Reads a command from one 63-byte frame.
    pub fn decode(bytes: &[u8]) -> (r: Result<Command, FrameError>)
        ensures
            match r {
                Ok(c) => command_error(bytes@) is None && command_in(bytes@, c),
                Err(e) => command_error(bytes@) == Some(e),
            },
    {
        if bytes.len() == 0 {
            return Err(FrameError::Truncated);
        }
        let tag = bytes[0];
        if tag != TAG_START && tag != TAG_CHUNK && tag != TAG_END {
            return Err(FrameError::UnknownTag);
        }
        if bytes.len() != FRAME_LEN {
            return Err(FrameError::Truncated);
        }
        if tag == TAG_START {
            Ok(Command::Start)
        } else if tag == TAG_END {
            Ok(Command::End)
        } else {
            let counter: u16 = bytes[1] as u16 + 256 * (bytes[2] as u16);
            let mut subchunks: [SubChunk; 20] = [SubChunk { data: [0u8; 3] }; 20];
            let mut j: usize = 0;
            while j < 20
                invariant
                    bytes@.len() == 63,
                    0 <= j <= 20,
                    forall|k: int|
                        3 <= k < 3 + 3 * j ==> bytes@[k] == subchunks@[(k - 3) / 3].data@[(k - 3)
                            % 3],
                decreases 20 - j,
            {
                subchunks[j] = SubChunk { data: [bytes[3 + 3 * j], bytes[4 + 3 * j], bytes[5 + 3 * j]] };
                j = j + 1;
            }
            let ch = Chunk { counter, subchunks };
            assert(chunk_bytes(ch) =~= bytes@.subrange(1, 63));
            Ok(Command::Chunk(ch))
        }
    }
}

impl Response {
    /// The 63-byte frame of this response: its tag, then the message bytes or zero padding.
    pub fn encode(&self) -> (r: [u8; 63])
        ensures
            r@ == response_bytes(*self),
    {
        match self {
            Response::Ack => tag_frame(TAG_OK),
            Response::Error { msg } => {
                let mut out: [u8; 63] = [0u8; 63];
                out[0] = TAG_ERR;
                let mut i: usize = 0;
                while i < PAYLOAD_LEN
                    invariant
                        0 <= i <= 62,
                        out@.len() == 63,
                        out@[0] == TAG_ERR,
                        msg@.len() == 62,
                        forall|k: int| 1 <= k < 1 + i ==> out@[k] == msg@[k - 1],
                    decreases 62 - i,
                {
                    out[i + 1] = msg.0[i];
                    i = i + 1;
                }
                assert(out@ =~= response_bytes(*self));
                out
            },
        }
    }

    /// Reads a response from one 63-byte frame.
    pub fn decode(bytes: &[u8]) -> (r: Result<Response, FrameError>)
        ensures
            match r {
                Ok(x) => response_error(bytes@) is None && response_in(bytes@, x),
                Err(e) => response_error(bytes@) == Some(e),
            },
    {
        if bytes.len() == 0 {
            return Err(FrameError::Truncated);
        }
        let tag = bytes[0];
        if tag != TAG_OK && tag != TAG_ERR {
            return Err(FrameError::UnknownTag);
        }
        if bytes.len() != FRAME_LEN {
            return Err(FrameError::Truncated);
        }
        if tag == TAG_OK {
            return Ok(Response::Ack);
        }
        let data = payload(bytes);
        match read_text(data.as_slice()) {
            Ok(_) => Ok(Response::Error { msg: SmolStr(data) }),
            Err(_) => Err(FrameError::InvalidText),
        }
    }
}

/// A command survives encoding and decoding: its frame decodes without error and carries it.
pub proof fn lemma_command_round_trip(c: Command)
    ensures
        command_bytes(c).len() == 63,
        command_error(command_bytes(c)) is None,
        command_in(command_bytes(c), c),
{
    let b = command_bytes(c);
    match c {
        Command::Chunk(ch) => {
            assert(b.subrange(1, 63) =~= chunk_bytes(ch));
        },
        _ => {},
    }
}

/// Every command and every response is encoded in exactly 63 bytes.
pub proof fn lemma_frame_length(c: Command, r: Response)
    ensures
        command_bytes(c).len() == 63,
        response_bytes(r).len() == 63,
{
    match r {
        Response::Error { msg } => {
            assert(msg@.len() == 62);
        },
        _ => {},
    }
}

/// An error response made from a message of at most 62 bytes with no zero byte decodes, after
/// encoding, into an error response whose text is that message.
pub proof fn lemma_error_message_round_trip(text: Seq<char>, msg: SmolStr<62>)
    requires
        !encode_utf8(text).contains(0u8),
        encode_utf8(text).len() <= 62,
        msg@ == padded(encode_utf8(text), 62),
    ensures
        response_error(response_bytes(Response::Error { msg })) is None,
        forall|back: Response|
            response_in(response_bytes(Response::Error { msg }), back) ==> (back matches Response::Error {
                msg: m,
            } && text_of(m@) == Some(text)),
{
    let b = response_bytes(Response::Error { msg });
    lemma_padded_text(text, 62);
    assert(b.subrange(1, 63) =~= msg@);
    assert forall|back: Response| response_in(b, back) implies (back matches Response::Error {
        msg: m,
    } && text_of(m@) == Some(text)) by {
        match back {
            Response::Ack => {
                assert(b[0] == TAG_ERR);
            },
            Response::Error { msg: m } => {
                assert(m@ =~= msg@);
            },
        }
    }
}

/// A frame carries at most one command, so what `Command::decode` returns is determined by
/// the bytes.
pub proof fn lemma_command_in_unique(b: Seq<u8>, c1: Command, c2: Command)
    requires
        command_in(b, c1),
        command_in(b, c2),
    ensures
        c1 == c2,
{
    match (c1, c2) {
        (Command::Chunk(x), Command::Chunk(y)) => {
            let bx = chunk_bytes(x);
            let by = chunk_bytes(y);
            assert(bx[0] == by[0] && bx[1] == by[1]);
            assert(x.counter == y.counter);
            assert forall|j: int| 0 <= j < 20 implies x.subchunks@[j] == y.subchunks@[j] by {
                assert(bx[2 + 3 * j] == by[2 + 3 * j]);
                assert(bx[3 + 3 * j] == by[3 + 3 * j]);
                assert(bx[4 + 3 * j] == by[4 + 3 * j]);
                assert(x.subchunks@[j].data =~= y.subchunks@[j].data);
            }
            assert(x.subchunks =~= y.subchunks);
        },
        _ => {},
    }
}

/// A frame carries at most one response, so what `Response::decode` returns is determined by
/// the bytes.
pub proof fn lemma_response_in_unique(b: Seq<u8>, r1: Response, r2: Response)
    requires
        response_in(b, r1),
        response_in(b, r2),
    ensures
        r1 == r2,
{
    match (r1, r2) {
        (Response::Error { msg: x }, Response::Error { msg: y }) => {
            assert(x.0 =~= y.0);
        },
        _ => {},
    }
}

} // verus!
