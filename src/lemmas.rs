//! What holds of every connection: frames are reassembled exactly, a wrong
//! magic number, an over-long declared length or a short payload ends the connection, and a payload that
//! does not decode leaves the rest of the session untouched.
use vstd::prelude::*;
use crate::client::{read_frame, reply_bytes, serve, wanted, FrameRead};
use crate::message::parse_message;
use crate::wire::{
    be_bytes, be_value, frame_bytes, header_bytes, lemma_be_round_trip, EXPECTED_MAGIC_NUMBER,
};

verus! {

/// Once the header of a frame of `len` bytes and the payload bytes `x` have
/// been read, the rest of the payload comes from `input` if it is long enough.
proof fn lemma_payload_phase(max_len: u32, len: u32, x: Seq<u8>, input: Seq<u8>)
    requires
        x.len() < len,
    ensures
        read_frame(max_len, header_bytes(EXPECTED_MAGIC_NUMBER, len) + x, input) == (if x.len() + input.len()
            >= len {
            FrameRead::Frame(x + input.take(len - x.len()), input.skip(len - x.len()))
        } else {
            FrameRead::Closed
        }),
    decreases input.len(),
{
    let c = header_bytes(EXPECTED_MAGIC_NUMBER, len) + x;
    lemma_be_round_trip(EXPECTED_MAGIC_NUMBER);
    lemma_be_round_trip(len);
    assert(c.subrange(4, 8) =~= be_bytes(len));
    let n = wanted(c);
    if input.len() >= n {
        let all = c + input.take(n);
        assert(all.subrange(4, 8) =~= be_bytes(len));
        assert(all =~= header_bytes(EXPECTED_MAGIC_NUMBER, len) + (x + input.take(n)));
        if x.len() + n == len {
            assert(all.skip(8) =~= x + input.take(n));
        } else {
            let x2 = x + input.take(n);
            lemma_payload_phase(max_len, len, x2, input.skip(n));
            if x.len() + input.len() >= len {
                assert(x2 + input.skip(n).take(len - x2.len()) =~= x + input.take(len - x.len()));
                assert(input.skip(n).skip(len - x2.len()) =~= input.skip(len - x.len()));
            }
        }
    }
}

/// After a header whose magic number is right and whose length is `len`,
/// the frame ends at once for a length over the limit or a zero length, and
/// goes on as `lemma_payload_phase` says otherwise.
proof fn lemma_after_header(max_len: u32, len: u32, input: Seq<u8>)
    ensures
        read_frame(max_len, seq![], header_bytes(EXPECTED_MAGIC_NUMBER, len) + input) == (if len
            > max_len {
            FrameRead::TooLong
        } else if len == 0 {
            FrameRead::Frame(seq![], input)
        } else {
            read_frame(max_len, header_bytes(EXPECTED_MAGIC_NUMBER, len), input)
        }),
{
    let s = header_bytes(EXPECTED_MAGIC_NUMBER, len) + input;
    lemma_be_round_trip(EXPECTED_MAGIC_NUMBER);
    lemma_be_round_trip(len);
    let e = Seq::<u8>::empty();
    let all1 = e + s.take(4);
    assert(all1 =~= be_bytes(EXPECTED_MAGIC_NUMBER));
    let s1 = s.skip(4);
    let all2 = all1 + s1.take(4);
    assert(all2 =~= header_bytes(EXPECTED_MAGIC_NUMBER, len));
    assert(all2.subrange(4, 8) =~= be_bytes(len));
    assert(s1.skip(4) =~= input);
    assert(s.take(4) =~= all1);
    assert(read_frame(max_len, e, s) == read_frame(max_len, all1, s1));
    assert(s1.take(4) =~= be_bytes(len));
    if len > max_len {
    } else if len == 0 {
        assert(all2.skip(8) =~= Seq::<u8>::empty());
    } else {
        assert(read_frame(max_len, all1, s1) == read_frame(max_len, all2, s1.skip(4)));
    }
}

/// A frame with the right magic number is read back whole, with its payload
/// `p` exact and the input after it untouched, however the payload is cut
/// into reads.
pub proof fn lemma_frame_round_trip(max_len: u32, p: Seq<u8>, rest: Seq<u8>)
    requires
        p.len() <= max_len,
    ensures
        read_frame(max_len, seq![], frame_bytes(EXPECTED_MAGIC_NUMBER, p) + rest) == FrameRead::Frame(
            p,
            rest,
        ),
{
    let len = p.len() as u32;
    let input = p + rest;
    assert(frame_bytes(EXPECTED_MAGIC_NUMBER, p) + rest =~= header_bytes(EXPECTED_MAGIC_NUMBER, len)
        + input);
    lemma_after_header(max_len, len, input);
    if len == 0 {
        assert(input =~= rest);
        assert(p =~= Seq::<u8>::empty());
    } else {
        lemma_payload_phase(max_len, len, seq![], input);
        assert(header_bytes(EXPECTED_MAGIC_NUMBER, len) + Seq::<u8>::empty() =~= header_bytes(
            EXPECTED_MAGIC_NUMBER,
            len,
        ));
        assert(Seq::<u8>::empty() + input.take(len as int) =~= p);
        assert(input.skip(len as int) =~= rest);
    }
}

/// Input whose first four bytes are not the magic number ends the connection
/// at once: nothing after them is read, and nothing is written back.
pub proof fn lemma_magic_enforced(max_len: u32, input: Seq<u8>)
    requires
        input.len() >= 4,
        be_value(input.take(4)) != EXPECTED_MAGIC_NUMBER,
    ensures
        read_frame(max_len, seq![], input) == FrameRead::BadMagic,
        serve(max_len, input) == Seq::<u8>::empty(),
{
    assert(Seq::<u8>::empty() + input.take(4) =~= input.take(4));
}

/// A frame whose payload ends before its declared length is never handed
/// on: the read ends as a closed stream, and nothing is written back.
pub proof fn lemma_short_payload(max_len: u32, len: u32, q: Seq<u8>)
    requires
        q.len() < len <= max_len,
    ensures
        read_frame(max_len, seq![], header_bytes(EXPECTED_MAGIC_NUMBER, len) + q) == FrameRead::Closed,
        serve(max_len, header_bytes(EXPECTED_MAGIC_NUMBER, len) + q) == Seq::<u8>::empty(),
{
    lemma_after_header(max_len, len, q);
    lemma_payload_phase(max_len, len, seq![], q);
    assert(header_bytes(EXPECTED_MAGIC_NUMBER, len) + Seq::<u8>::empty() =~= header_bytes(
        EXPECTED_MAGIC_NUMBER,
        len,
    ));
}

/// Each whole frame at the head of the input gets its reply, and the session
/// goes on with the input after it.
pub proof fn lemma_serve_frame(max_len: u32, p: Seq<u8>, rest: Seq<u8>)
    requires
        p.len() <= max_len,
    ensures
        serve(max_len, frame_bytes(EXPECTED_MAGIC_NUMBER, p) + rest) == reply_bytes(p) + serve(
            max_len,
            rest,
        ),
{
    lemma_frame_round_trip(max_len, p, rest);
    lemma_be_round_trip(EXPECTED_MAGIC_NUMBER);
    assert((frame_bytes(EXPECTED_MAGIC_NUMBER, p) + rest).len() == 8 + p.len() + rest.len());
}

/// A well-framed payload that does not decode is dropped: the connection
/// serves what follows it as if it had not been sent.
pub proof fn lemma_decode_failure_isolated(max_len: u32, bad: Seq<u8>, rest: Seq<u8>)
    requires
        bad.len() <= max_len,
        parse_message(bad) is None,
    ensures
        serve(max_len, frame_bytes(EXPECTED_MAGIC_NUMBER, bad) + rest) == serve(max_len, rest),
{
    lemma_serve_frame(max_len, bad, rest);
    assert(Seq::<u8>::empty() + serve(max_len, rest) =~= serve(max_len, rest));
}

/// Two frames in a row get their replies in the same order.
pub proof fn lemma_replies_in_order(max_len: u32, a: Seq<u8>, b: Seq<u8>, rest: Seq<u8>)
    requires
        a.len() <= max_len,
        b.len() <= max_len,
    ensures
        serve(
            max_len,
            frame_bytes(EXPECTED_MAGIC_NUMBER, a) + frame_bytes(EXPECTED_MAGIC_NUMBER, b) + rest,
        ) == reply_bytes(a) + reply_bytes(b) + serve(max_len, rest),
{
    let fa = frame_bytes(EXPECTED_MAGIC_NUMBER, a);
    let fb = frame_bytes(EXPECTED_MAGIC_NUMBER, b);
    assert(fa + fb + rest =~= fa + (fb + rest));
    lemma_serve_frame(max_len, a, fb + rest);
    lemma_serve_frame(max_len, b, rest);
    assert(reply_bytes(a) + (reply_bytes(b) + serve(max_len, rest)) =~= reply_bytes(a)
        + reply_bytes(b) + serve(max_len, rest));
}

/// A header that declares more than the limit ends the connection before any
/// payload byte is read, and nothing is written back.
pub proof fn lemma_length_limit(max_len: u32, len: u32, rest: Seq<u8>)
    requires
        len > max_len,
    ensures
        read_frame(max_len, seq![], header_bytes(EXPECTED_MAGIC_NUMBER, len) + rest)
            == FrameRead::TooLong,
        serve(max_len, header_bytes(EXPECTED_MAGIC_NUMBER, len) + rest) == Seq::<u8>::empty(),
{
    lemma_after_header(max_len, len, rest);
}

} // verus!
