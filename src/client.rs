//! One connection: the frames it reads, the replies it writes, and when it closes.
//!
//! The stream itself belongs to the caller. A `Client` says how many bytes to
//! read next, takes them, and answers with the next thing to do.
use vstd::prelude::*;
use vstd::slice::slice_subrange;
use crate::dispatch::{dispatch_spec, on_message_received};
use crate::message::{decode_message, encode_message, message_bytes, parse_message, Message};
use crate::wire::{
    be_bytes, be_value, decode_u32_from_be, encode_header, frame_bytes, header_bytes,
    lemma_be_bytes_of_value, lemma_be_round_trip, EXPECTED_MAGIC_NUMBER,
};

verus! {

/// The most payload bytes read at once.
pub const CHUNK_LEN: usize = 512;

/// The longest payload that a connection accepts unless it is given another limit.
pub const MAX_PAYLOAD_LEN: u32 = 0x100_0000;

/// `all` holds a whole frame: a header and exactly as many bytes as it declares.
pub open spec fn frame_complete(all: Seq<u8>) -> bool {
    all.len() >= 8 && all.len() == 8 + be_value(all.subrange(4, 8))
}

/// How many bytes to read after the bytes `c` of an unfinished frame: four for
/// each header field, then the rest of the payload, at most a chunk at a time.
pub open spec fn wanted(c: Seq<u8>) -> int {
    if c.len() < 8 {
        4
    } else {
        vstd::math::min(CHUNK_LEN as int, 8 + be_value(c.subrange(4, 8)) - c.len())
    }
}

/// The outcome of reading one frame.
pub enum FrameRead {
    /// A whole frame: its payload, and the input after it.
    Frame(Seq<u8>, Seq<u8>),
    /// The first four bytes are not the magic number.
    BadMagic,
    /// The declared length is over the limit.
    TooLong,
    /// The input ends before the frame does.
    Closed,
}

/// Reads the rest of a frame of which `c` has been read, from `input`, in the
/// pieces that `wanted` gives. A declared length over `max_len` ends the read.
pub open spec fn read_frame(max_len: u32, c: Seq<u8>, input: Seq<u8>) -> FrameRead
    decreases input.len(),
{
    let n = wanted(c);
    if n <= 0 || input.len() < n {
        FrameRead::Closed
    } else {
        let all = c + input.take(n);
        if all.len() == 4 && be_value(all) != EXPECTED_MAGIC_NUMBER {
            FrameRead::BadMagic
        } else if all.len() == 8 && be_value(all.subrange(4, 8)) > max_len {
            FrameRead::TooLong
        } else if frame_complete(all) {
            FrameRead::Frame(all.skip(8), input.skip(n))
        } else {
            read_frame(max_len, all, input.skip(n))
        }
    }
}

/// The bytes written back for the payload `p`: the framed reply if `p` decodes
/// to a message that has one, else nothing.
pub open spec fn reply_bytes(p: Seq<u8>) -> Seq<u8> {
    match parse_message(p) {
        Some(m) => match dispatch_spec(m) {
            Some(r) => frame_bytes(EXPECTED_MAGIC_NUMBER, message_bytes(r)),
            None => seq![],
        },
        None => seq![],
    }
}

/// All the bytes written back on a connection with payload limit `max_len`
/// whose client sends `input` and then closes.
pub open spec fn serve(max_len: u32, input: Seq<u8>) -> Seq<u8>
    decreases input.len(),
{
    match read_frame(max_len, seq![], input) {
        FrameRead::Frame(p, rest) => if rest.len() < input.len() {
            reply_bytes(p) + serve(max_len, rest)
        } else {
            seq![]
        },
        _ => seq![],
    }
}

/// The bytes written back from a state that has read `c` of a frame.
pub open spec fn serve_from(max_len: u32, c: Seq<u8>, input: Seq<u8>) -> Seq<u8> {
    match read_frame(max_len, c, input) {
        FrameRead::Frame(p, rest) => reply_bytes(p) + serve(max_len, rest),
        _ => seq![],
    }
}

/// A frame that is read leaves less input than there was.
pub proof fn lemma_read_frame_consumes(max_len: u32, c: Seq<u8>, input: Seq<u8>)
    ensures
        read_frame(max_len, c, input) matches FrameRead::Frame(_, rest) ==> rest.len() < input.len(),
    decreases input.len(),
{
    let n = wanted(c);
    if n > 0 && input.len() >= n {
        let all = c + input.take(n);
        lemma_read_frame_consumes(max_len, all, input.skip(n));
    }
}

/// A fresh connection serves what a connection between frames serves.
pub proof fn lemma_serve_fresh(max_len: u32, input: Seq<u8>)
    ensures
        serve(max_len, input) == serve_from(max_len, seq![], input),
{
    lemma_read_frame_consumes(max_len, seq![], input);
}

/// Frames the encoding of a message: the magic number, the length, the bytes.
pub fn encode_frame(message: &Message) -> (r: Vec<u8>)
    ensures
        r@ == frame_bytes(EXPECTED_MAGIC_NUMBER, message_bytes(*message)),
{
    let mut body = encode_message(message);
    let mut out = encode_header(EXPECTED_MAGIC_NUMBER, body.len() as u32);
    out.append(&mut body);
    out
}

/// Decodes a payload, dispatches it, and frames the reply if there is one. A
/// payload that does not decode is dropped.
pub fn respond(payload: &[u8]) -> (r: Option<Vec<u8>>)
    ensures
        match r {
            Some(v) => v@ == reply_bytes(payload@) && v@.len() > 0,
            None => reply_bytes(payload@).len() == 0,
        },
{
    match decode_message(payload) {
        Ok(m) => match on_message_received(&m) {
            Some(reply) => Some(encode_frame(&reply)),
            None => None,
        },
        Err(_) => None,
    }
}

/// What the caller does next on the stream.
pub enum Action {
    /// Read exactly this many bytes and hand them to `receive`.
    Read(usize),
    /// Write these bytes, flush, then read `wanted()` bytes.
    Reply(Vec<u8>),
    /// Close the connection.
    Close,
}

/// Which field of the frame comes next.
enum Phase {
    Magic,
    Length,
    Payload,
}

/// The state of one connection between two reads: how far into the current
/// frame it is, and the payload gathered so far.
pub struct Client {
    phase: Phase,
    length: u32,
    payload: Vec<u8>,
    max_len: u32,
}

impl View for Client {
    /// The bytes of the current frame that have been read.
    type V = Seq<u8>;

    closed spec fn view(&self) -> Seq<u8> {
        match self.phase {
            Phase::Magic => seq![],
            Phase::Length => be_bytes(EXPECTED_MAGIC_NUMBER),
            Phase::Payload => header_bytes(EXPECTED_MAGIC_NUMBER, self.length) + self.payload@,
        }
    }
}

impl Client {
    /// The gathered payload is shorter than the declared length.
    pub closed spec fn wf(&self) -> bool {
        self.phase is Payload ==> self.payload@.len() < self.length
    }

    /// The longest payload that this connection accepts.
    pub closed spec fn limit(&self) -> u32 {
        self.max_len
    }

    /// A connection that waits for the first frame, with the default payload limit.
    pub fn new() -> (r: Client)
        ensures
            r.wf(),
            r@ == Seq::<u8>::empty(),
            r.limit() == MAX_PAYLOAD_LEN,
    {
        Client::with_limit(MAX_PAYLOAD_LEN)
    }

    /// A connection that waits for the first frame and accepts payloads of at
    /// most `max_len` bytes.
    pub fn with_limit(max_len: u32) -> (r: Client)
        ensures
            r.wf(),
            r@ == Seq::<u8>::empty(),
            r.limit() == max_len,
    {
        Client { phase: Phase::Magic, length: 0, payload: Vec::new(), max_len: max_len }
    }

    /// How many bytes to read next.
    pub fn wanted(&self) -> (n: usize)
        requires
            self.wf(),
        ensures
            n == wanted(self@),
            1 <= n <= CHUNK_LEN,
    {
        match self.phase {
            Phase::Magic => 4,
            Phase::Length => 4,
            Phase::Payload => {
                proof {
                    lemma_be_round_trip(self.length);
                    assert(self@.subrange(4, 8) =~= be_bytes(self.length));
                }
                let left = self.length as usize - self.payload.len();
                if left < CHUNK_LEN {
                    left
                } else {
                    CHUNK_LEN
                }
            },
        }
    }

    /// Takes the `wanted()` bytes just read. A wrong magic number, or a
    /// declared length over the limit, closes the connection; a whole frame is decoded and dispatched, and its reply, if
    /// any, is handed back framed; a payload that does not decode is dropped
    /// and the connection goes on.
    pub fn receive(&mut self, chunk: &[u8]) -> (r: Action)
        requires
            old(self).wf(),
            chunk@.len() == wanted(old(self)@),
        ensures
            final(self).wf(),
            final(self).limit() == old(self).limit(),
            ({
                let all = old(self)@ + chunk@;
                if all.len() == 4 && be_value(all) != EXPECTED_MAGIC_NUMBER {
                    r is Close
                } else if all.len() == 8 && be_value(all.subrange(4, 8)) > old(self).limit() {
                    r is Close
                } else if frame_complete(all) {
                    &&& final(self)@ == Seq::<u8>::empty()
                    &&& match r {
                        Action::Reply(v) => v@ == reply_bytes(all.skip(8)) && v@.len() > 0,
                        Action::Read(n) => n == 4 && reply_bytes(all.skip(8)).len() == 0,
                        Action::Close => false,
                    }
                } else {
                    &&& final(self)@ == all
                    &&& r == Action::Read(wanted(all) as usize)
                }
            }),
    {
        let ghost all = self@ + chunk@;
        match self.phase {
            Phase::Magic => {
                assert(all =~= chunk@);
                let magic = match decode_u32_from_be(chunk) {
                    Ok(v) => v,
                    Err(_) => return Action::Close,
                };
                if magic != EXPECTED_MAGIC_NUMBER {
                    return Action::Close;
                }
                proof {
                    lemma_be_bytes_of_value(chunk@);
                }
                self.phase = Phase::Length;
                Action::Read(4)
            },
            Phase::Length => {
                let length = match decode_u32_from_be(chunk) {
                    Ok(v) => v,
                    Err(_) => return Action::Close,
                };
                proof {
                    lemma_be_bytes_of_value(chunk@);
                    assert(all.subrange(4, 8) =~= chunk@);
                    assert(all =~= header_bytes(EXPECTED_MAGIC_NUMBER, length));
                }
                if length > self.max_len {
                    return Action::Close;
                }
                if length == 0 {
                    self.phase = Phase::Magic;
                    assert(all.skip(8) =~= Seq::<u8>::empty());
                    let empty: Vec<u8> = Vec::new();
                    return self.finish(empty.as_slice());
                }
                self.phase = Phase::Payload;
                self.length = length;
                self.payload = Vec::with_capacity(length as usize);
                proof {
                    assert(self@ =~= all);
                    lemma_be_round_trip(length);
                }
                Action::Read(self.wanted())
            },
            Phase::Payload => {
                proof {
                    lemma_be_round_trip(self.length);
                    assert(self@.subrange(4, 8) =~= be_bytes(self.length));
                    assert(all.subrange(4, 8) =~= be_bytes(self.length));
                }
                self.payload.extend_from_slice(chunk);
                assert(all =~= header_bytes(EXPECTED_MAGIC_NUMBER, self.length) + self.payload@);
                if self.payload.len() == self.length as usize {
                    self.phase = Phase::Magic;
                    let mut payload: Vec<u8> = Vec::new();
                    std::mem::swap(&mut payload, &mut self.payload);
                    assert(all.skip(8) =~= payload@);
                    self.finish(payload.as_slice())
                } else {
                    Action::Read(self.wanted())
                }
            },
        }
    }

    /// Serves a client that sends `input` and then closes: returns every byte
    /// written back, in order, until the input runs out or a frame's magic
    /// number is wrong.
    pub fn exec(&mut self, input: &[u8]) -> (r: Vec<u8>)
        requires
            old(self).wf(),
        ensures
            final(self).wf(),
            final(self).limit() == old(self).limit(),
            r@ == serve_from(old(self).limit(), old(self)@, input@),
    {
        let mut out: Vec<u8> = Vec::new();
        let mut pos: usize = 0;
        assert(input@.skip(0) =~= input@);
        loop
            invariant
                self.wf(),
                pos <= input@.len(),
                self.limit() == old(self).limit(),
                serve_from(self.limit(), old(self)@, input@) == out@ + serve_from(
                    self.limit(),
                    self@,
                    input@.skip(pos as int),
                ),
            decreases input@.len() - pos,
        {
            let ghost c = self@;
            let ghost s = input@.skip(pos as int);
            let n = self.wanted();
            if input.len() - pos < n {
                assert(out@ + seq![] =~= out@);
                return out;
            }
            let chunk = slice_subrange(input, pos, pos + n);
            assert(chunk@ =~= s.take(n as int));
            assert(s.skip(n as int) =~= input@.skip(pos + n));
            let ghost all = c + chunk@;
            match self.receive(chunk) {
                Action::Close => {
                    assert(out@ + seq![] =~= out@);
                    return out;
                },
                Action::Read(_) => {
                    proof {
                        if frame_complete(all) {
                            lemma_serve_fresh(self.limit(), s.skip(n as int));
                            assert(reply_bytes(all.skip(8)) =~= seq![]);
                            assert(seq![] + serve(self.limit(), s.skip(n as int)) =~= serve(
                                self.limit(),
                                s.skip(n as int),
                            ));
                        }
                    }
                },
                Action::Reply(v) => {
                    let mut v = v;
                    proof {
                        lemma_serve_fresh(self.limit(), s.skip(n as int));
                    }
                    let ghost before = out@;
                    out.append(&mut v);
                    assert(out@ + serve(self.limit(), s.skip(n as int)) =~= before + (reply_bytes(
                        all.skip(8),
                    ) + serve(self.limit(), s.skip(n as int))));
                },
            }
            pos = pos + n;
        }
    }

    /// Answers a whole payload and waits for the next frame.
    fn finish(&mut self, payload: &[u8]) -> (r: Action)
        requires
            old(self).phase is Magic,
        ensures
            final(self).wf(),
            final(self)@ == Seq::<u8>::empty(),
            final(self).limit() == old(self).limit(),
            match r {
                Action::Reply(v) => v@ == reply_bytes(payload@) && v@.len() > 0,
                Action::Read(n) => n == 4 && reply_bytes(payload@).len() == 0,
                Action::Close => false,
            },
    {
        match respond(payload) {
            Some(v) => Action::Reply(v),
            None => Action::Read(4),
        }
    }
}

} // verus!
