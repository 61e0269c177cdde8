//! The wire protocol between client and server: a one-line JSON handshake each
//! way, then binary frames `[1-byte channel][4-byte big-endian length][payload]`.
use vstd::prelude::*;
use vstd::string::StringSliceAdditionalSpecFns;

use crate::text::line_bytes;

verus! {

/// Largest handshake line accepted, in bytes (1 MiB). Both peers send one JSON
/// line before any framing, from an unauthenticated connection — without a
/// cap, a client that never sends a newline grows the read buffer until the
/// server dies.
pub const MAX_HANDSHAKE_BYTES: usize = 1048576;

/// Largest frame payload accepted, in bytes (1 MiB). The 4-byte length header
/// is chosen by the peer, so it must be bounded before it sizes an allocation.
pub const MAX_FRAME_PAYLOAD: usize = 1048576;

/// Client to server: a chunk of stdin.
pub const CH_STDIN: u8 = 0x01;

/// Client to server: end of stdin.
pub const CH_STDIN_EOF: u8 = 0x02;

/// Server to client: a chunk of stdout.
pub const CH_STDOUT: u8 = 0x11;

/// Server to client: a chunk of stderr.
pub const CH_STDERR: u8 = 0x12;

/// Server to client: the exit code, a big-endian `i32`. Terminal.
pub const CH_EXIT: u8 = 0x13;

/// Server to client: a server-side error message. Terminal.
pub const CH_ERROR: u8 = 0x14;

/// The client's handshake: the command to relay and its arguments.
#[derive(Debug)]
pub struct ClientRequest {
    pub cmd: String,
    pub args: Vec<String>,
}

/// The server's handshake reply.
#[derive(Debug)]
pub struct ServerAck {
    pub ok: bool,
    pub error: Option<String>,
}

/// Why bytes could not be read as a frame.
#[derive(Debug, PartialEq, Eq)]
pub enum FrameError {
    /// The input ended inside the header or the payload.
    Truncated,
    /// The header announces a payload of more than `MAX_FRAME_PAYLOAD` bytes.
    PayloadTooLarge(u32),
}

/// Why bytes could not be read as a handshake line.
#[derive(Debug, PartialEq, Eq)]
pub enum LineError {
    /// More than `MAX_HANDSHAKE_BYTES` bytes came without a newline.
    TooLong,
    /// The input ended before a newline.
    Unterminated,
}

/// The four big-endian bytes of `n`.
pub open spec fn be_bytes(n: u32) -> Seq<u8> {
    seq![
        (n / 0x1000000) as u8,
        ((n / 0x10000) % 0x100) as u8,
        ((n / 0x100) % 0x100) as u8,
        (n % 0x100) as u8,
    ]
}

/// The number that four big-endian bytes encode.
pub open spec fn be_value(b: Seq<u8>) -> int {
    b[0] * 0x1000000 + b[1] * 0x10000 + b[2] * 0x100 + b[3]
}

/// The frame that carries `payload` on `channel`; the length field holds the
/// payload length modulo 2^32.
pub open spec fn frame(channel: u8, payload: Seq<u8>) -> Seq<u8> {
    seq![channel] + be_bytes(payload.len() as u32) + payload
}

/// What a frame read from the start of `input` yields.
pub open spec fn parse_frame(input: Seq<u8>) -> Result<(u8, Seq<u8>), FrameError> {
    if input.len() < 5 {
        Err(FrameError::Truncated)
    } else {
        let len = be_value(input.subrange(1, 5));
        if len > MAX_FRAME_PAYLOAD {
            Err(FrameError::PayloadTooLarge(len as u32))
        } else if input.len() < 5 + len {
            Err(FrameError::Truncated)
        } else {
            Ok((input[0], input.subrange(5, 5 + len)))
        }
    }
}

/// The big-endian bytes of `n`.
pub fn be_bytes_of(n: u32) -> (b: [u8; 4])
    ensures
        b@ == be_bytes(n),
{
    let b = [
        (n / 0x1000000) as u8,
        ((n / 0x10000) % 0x100) as u8,
        ((n / 0x100) % 0x100) as u8,
        (n % 0x100) as u8,
    ];
    proof {
        assert(b@ =~= be_bytes(n));
    }
    b
}

/// Decoding the bytes of `n` gives back `n`.
pub proof fn lemma_be_roundtrip(n: u32)
    ensures
        be_value(be_bytes(n)) == n,
{
    let b = be_bytes(n);
    assert(b[0] == n / 0x1000000);
    assert(b[1] == (n / 0x10000) % 0x100);
    assert(b[2] == (n / 0x100) % 0x100);
    assert(b[3] == n % 0x100);
    assert(n / 0x1000000 * 0x1000000 + (n / 0x10000) % 0x100 * 0x10000 + (n / 0x100) % 0x100
        * 0x100 + n % 0x100 == n) by (nonlinear_arith);
}

/// Encodes one frame: channel, big-endian payload length, payload.
pub fn write_frame(channel: u8, payload: &[u8]) -> (bytes: Vec<u8>)
    ensures
        bytes@ == frame(channel, payload@),
{
    let len = payload.len() as u32;
    let header = be_bytes_of(len);
    let mut bytes: Vec<u8> = Vec::new();
    bytes.push(channel);
    bytes.push(header[0]);
    bytes.push(header[1]);
    bytes.push(header[2]);
    bytes.push(header[3]);
    let ghost head = bytes@;
    let mut i: usize = 0;
    while i < payload.len()
        invariant
            i <= payload@.len(),
            bytes@ == head + payload@.take(i as int),
        decreases payload@.len() - i,
    {
        bytes.push(payload[i]);
        i = i + 1;
        proof {
            assert(payload@.take(i as int) =~= payload@.take(i - 1).push(payload@[i - 1]));
        }
    }
    proof {
        assert(payload@.take(payload@.len() as int) =~= payload@);
        assert(head =~= seq![channel] + be_bytes(payload@.len() as u32));
        assert(bytes@ =~= frame(channel, payload@));
    }
    bytes
}

/// Decodes a frame header: the channel and the announced payload length,
/// refused when the length exceeds `MAX_FRAME_PAYLOAD`.
pub fn decode_frame_header(header: [u8; 5]) -> (res: Result<(u8, usize), FrameError>)
    ensures
        match res {
            Ok((c, len)) => c == header@[0] && len == be_value(header@.subrange(1, 5)) && len
                <= MAX_FRAME_PAYLOAD,
            Err(e) => be_value(header@.subrange(1, 5)) > MAX_FRAME_PAYLOAD && e
                == FrameError::PayloadTooLarge(be_value(header@.subrange(1, 5)) as u32),
        },
{
    let len: u32 = (header[1] as u32) * 0x1000000 + (header[2] as u32) * 0x10000 + (header[3] as u32)
        * 0x100 + (header[4] as u32);
    proof {
        let h = header@.subrange(1, 5);
        assert(h[0] == header@[1] && h[1] == header@[2] && h[2] == header@[3] && h[3]
            == header@[4]);
    }
    // The peer controls this length, so bound it before it sizes an allocation.
    if len as usize > MAX_FRAME_PAYLOAD {
        return Err(FrameError::PayloadTooLarge(len));
    }
    Ok((header[0], len as usize))
}

/// Reads one frame from the start of `input`, as a reader of exactly these
/// bytes would: the header, then the payload it announces.
pub fn read_frame(input: &[u8]) -> (res: Result<(u8, Vec<u8>), FrameError>)
    ensures
        match res {
            Ok((c, p)) => parse_frame(input@) == Ok::<(u8, Seq<u8>), FrameError>((c, p@)),
            Err(e) => parse_frame(input@) == Err::<(u8, Seq<u8>), FrameError>(e),
        },
{
    if input.len() < 5 {
        return Err(FrameError::Truncated);
    }
    let header: [u8; 5] = [input[0], input[1], input[2], input[3], input[4]];
    proof {
        assert(header@.subrange(1, 5) =~= input@.subrange(1, 5));
    }
    let (channel, len) = match decode_frame_header(header) {
        Ok(h) => h,
        Err(e) => {
            return Err(e);
        },
    };
    if input.len() - 5 < len {
        return Err(FrameError::Truncated);
    }
    let mut payload: Vec<u8> = Vec::new();
    let mut i: usize = 0;
    while i < len
        invariant
            i <= len,
            5 + len <= input@.len(),
            input@.len() == input.len(),
            payload@ == input@.subrange(5, 5 + i),
        decreases len - i,
    {
        payload.push(input[5 + i]);
        i = i + 1;
        proof {
            assert(payload@ =~= input@.subrange(5, 5 + i));
        }
    }
    Ok((channel, payload))
}

/// Reading back a written frame gives its channel and payload.
pub proof fn lemma_frame_roundtrip(channel: u8, payload: Seq<u8>)
    requires
        payload.len() <= MAX_FRAME_PAYLOAD,
    ensures
        parse_frame(frame(channel, payload)) == Ok::<(u8, Seq<u8>), FrameError>((channel, payload)),
{
    let f = frame(channel, payload);
    let n = payload.len() as u32;
    lemma_be_roundtrip(n);
    assert(f.subrange(1, 5) =~= be_bytes(n));
    assert(f.subrange(5, 5 + payload.len() as int) =~= payload);
}

/// A header that announces more than `MAX_FRAME_PAYLOAD` bytes is refused,
/// whatever follows it.
pub proof fn lemma_oversized_refused(input: Seq<u8>)
    requires
        input.len() >= 5,
        be_value(input.subrange(1, 5)) > MAX_FRAME_PAYLOAD,
    ensures
        parse_frame(input) is Err,
        parse_frame(input) != Err::<(u8, Seq<u8>), FrameError>(FrameError::Truncated),
{
}

/// The payload of an exit frame: the code as a big-endian two's-complement `i32`.
pub open spec fn exit_payload(code: i32) -> Seq<u8> {
    be_bytes(code as u32)
}

/// The exit code that an exit frame's payload carries; a payload shorter than
/// four bytes means 0.
pub open spec fn exit_code_in(payload: Seq<u8>) -> i32 {
    if payload.len() >= 4 {
        (be_value(payload) as u32) as i32
    } else {
        0
    }
}

/// The frame that reports the exit code `code`.
pub fn exit_frame(code: i32) -> (bytes: Vec<u8>)
    ensures
        bytes@ == frame(CH_EXIT, exit_payload(code)),
{
    let b = be_bytes_of(code as u32);
    write_frame(CH_EXIT, &b)
}

/// The exit code carried by an exit frame's payload.
pub fn exit_code_of(payload: &[u8]) -> (code: i32)
    ensures
        code == exit_code_in(payload@),
{
    if payload.len() >= 4 {
        let v: u32 = (payload[0] as u32) * 0x1000000 + (payload[1] as u32) * 0x10000 + (
        payload[2] as u32) * 0x100 + (payload[3] as u32);
        v as i32
    } else {
        0
    }
}

/// Reading back an exit code gives the code that was written.
pub proof fn lemma_exit_code_roundtrip(code: i32)
    ensures
        exit_code_in(exit_payload(code)) == code,
{
    lemma_be_roundtrip(code as u32);
    assert(((code as u32) as i32) == code) by (bit_vector);
}

/// What one incoming byte does to a handshake line holding `buffered` bytes.
#[derive(Debug, PartialEq, Eq)]
pub enum LineStep {
    /// The byte is the newline: the line is complete.
    Complete,
    /// The line is already full, so the byte overflows it.
    Overflow,
    /// The byte joins the line.
    Append,
}

/// The decision taken for each byte of a handshake line: a newline ends it,
/// and a line already holding `MAX_HANDSHAKE_BYTES` bytes takes no more.
pub fn line_step(buffered: usize, byte: u8) -> (step: LineStep)
    ensures
        byte == 10 ==> step == LineStep::Complete,
        byte != 10 && buffered >= MAX_HANDSHAKE_BYTES ==> step == LineStep::Overflow,
        byte != 10 && buffered < MAX_HANDSHAKE_BYTES ==> step == LineStep::Append,
{
    if byte == 10 {
        LineStep::Complete
    } else if buffered >= MAX_HANDSHAKE_BYTES {
        LineStep::Overflow
    } else {
        LineStep::Append
    }
}

/// Whether `s` holds no newline.
pub open spec fn no_newline(s: Seq<u8>) -> bool {
    forall|k: int| 0 <= k < s.len() ==> s[k] != 10
}

/// Index of the first newline in `s` at or after `i`, or `s.len()` if none.
pub open spec fn newline_from(s: Seq<u8>, i: int) -> int
    decreases s.len() - i,
{
    if i >= s.len() {
        s.len() as int
    } else if s[i] == 10 {
        i
    } else {
        newline_from(s, i + 1)
    }
}

/// What reading a handshake line from `s` gives: the bytes before the first
/// newline and the count of bytes used (newline included); `TooLong` when more
/// than `MAX_HANDSHAKE_BYTES` bytes come before any newline, `Unterminated`
/// when the input ends first.
pub open spec fn parse_line(s: Seq<u8>) -> Result<(Seq<u8>, nat), LineError> {
    let n = newline_from(s, 0);
    if n > MAX_HANDSHAKE_BYTES {
        Err(LineError::TooLong)
    } else if n == s.len() {
        Err(LineError::Unterminated)
    } else {
        Ok((s.take(n), (n + 1) as nat))
    }
}

/// `newline_from(s, i)` is the first newline at or after `i`.
pub proof fn lemma_newline_from(s: Seq<u8>, i: int)
    requires
        0 <= i <= s.len(),
    ensures
        i <= newline_from(s, i) <= s.len(),
        forall|k: int| i <= k < newline_from(s, i) ==> s[k] != 10,
        newline_from(s, i) < s.len() ==> s[newline_from(s, i)] == 10,
    decreases s.len() - i,
{
    if i < s.len() && s[i] != 10 {
        lemma_newline_from(s, i + 1);
    }
}

/// A line ending at `n` (no newline before it, a newline at it or the input
/// ending there) is what `newline_from` finds.
proof fn lemma_newline_at(s: Seq<u8>, n: int)
    requires
        0 <= n <= s.len(),
        forall|k: int| 0 <= k < n ==> s[k] != 10,
        n < s.len() ==> s[n] == 10,
    ensures
        newline_from(s, 0) == n,
{
    lemma_newline_from(s, 0);
    let r = newline_from(s, 0);
    if r < n {
        assert(s[r] != 10);
    }
    if n < r {
        assert(s[n] != 10);
    }
}

/// Writing a newline-free text as a handshake line and reading the line back
/// gives the text again and uses exactly its bytes and the newline, whatever
/// follows on the connection.
pub proof fn lemma_json_line_roundtrip(text: Seq<u8>, rest: Seq<u8>)
    requires
        no_newline(text),
        text.len() <= MAX_HANDSHAKE_BYTES,
    ensures
        parse_line(text.push(10) + rest) == Ok::<(Seq<u8>, nat), LineError>(
            (text, (text.len() + 1) as nat),
        ),
{
    let s = text.push(10) + rest;
    assert forall|k: int| 0 <= k < text.len() implies s[k] != 10 by {
        assert(s[k] == text[k]);
    }
    assert(s[text.len() as int] == 10);
    lemma_newline_at(s, text.len() as int);
    assert(s.take(text.len() as int) =~= text);
}

/// Reads the handshake line (one JSON text) from the start of `input`, without
/// its newline, and says how many bytes it used; decoding the JSON is left to
/// the caller. The line is bounded: the newline may never arrive.
pub fn read_json_line(input: &[u8]) -> (res: Result<(Vec<u8>, usize), LineError>)
    ensures
        match res {
            Ok((line, used)) => {
                &&& line@.len() <= MAX_HANDSHAKE_BYTES
                &&& used == line@.len() + 1
                &&& used <= input@.len()
                &&& input@[line@.len() as int] == 10
                &&& line@ == input@.take(line@.len() as int)
                &&& no_newline(line@)
            },
            Err(LineError::TooLong) => input@.len() > MAX_HANDSHAKE_BYTES && no_newline(
                input@.take(MAX_HANDSHAKE_BYTES as int + 1),
            ),
            Err(LineError::Unterminated) => input@.len() <= MAX_HANDSHAKE_BYTES && no_newline(
                input@,
            ),
        },
        match res {
            Ok((line, used)) => parse_line(input@) == Ok::<(Seq<u8>, nat), LineError>(
                (line@, used as nat),
            ),
            Err(e) => parse_line(input@) == Err::<(Seq<u8>, nat), LineError>(e),
        },
{
    let mut buf: Vec<u8> = Vec::new();
    let mut i: usize = 0;
    loop
        invariant
            i <= input@.len(),
            i <= MAX_HANDSHAKE_BYTES,
            buf@ == input@.take(i as int),
            no_newline(buf@),
        decreases input@.len() - i,
    {
        if i == input.len() {
            proof {
                assert(input@.take(i as int) =~= input@);
                lemma_newline_at(input@, i as int);
            }
            return Err(LineError::Unterminated);
        }
        let b = input[i];
        match line_step(buf.len(), b) {
            LineStep::Complete => {
                proof {
                    assert forall|k: int| 0 <= k < i implies input@[k] != 10 by {
                        assert(buf@[k] == input@[k]);
                    }
                    lemma_newline_at(input@, i as int);
                }
                return Ok((buf, i + 1));
            },
            LineStep::Overflow => {
                proof {
                    let window = input@.take(MAX_HANDSHAKE_BYTES as int + 1);
                    assert forall|k: int| 0 <= k < window.len() implies #[trigger] window[k]
                        != 10 by {
                        if k < i {
                            assert(buf@[k] == input@[k]);
                        }
                    }
                    lemma_newline_from(input@, 0);
                    let r = newline_from(input@, 0);
                    if r <= MAX_HANDSHAKE_BYTES {
                        assert(window[r] == input@[r]);
                    }
                }
                return Err(LineError::TooLong);
            },
            LineStep::Append => {
                buf.push(b);
                i = i + 1;
                proof {
                    assert(buf@ =~= input@.take(i as int));
                }
            },
        }
    }
}

/// The bytes of a handshake line: the JSON text of the message and a newline.
pub fn write_json_line(json: &str) -> (bytes: Vec<u8>)
    ensures
        bytes@ == json.spec_bytes().push(10),
{
    line_bytes(json)
}

} // verus!
