//! The application message: a type discriminant and one sub-payload, and its
//! encoding as protobuf fields (1: type, varint; 2: get-events request,
//! length-delimited; 3: get-events reply, length-delimited). Decoding reads
//! the protobuf wire format as protobuf's generated parsers do: fields of
//! other numbers are skipped by their wire type, so a payload from a newer
//! schema still decodes.
use vstd::prelude::*;
use vstd::slice::slice_subrange;
use crate::varint::{
    append_varint32, decode_varint32, decode_varint64, lemma_varint32_round_trip, raw_varint, varint32,
    varint64, varint_bytes,
};
use crate::wire::Error;

verus! {

/// The discriminant of a request for events.
pub const GET_EVENTS_REQUEST: u32 = 0;

/// The discriminant of the reply to a request for events.
pub const GET_EVENTS_REPLY: u32 = 1;

/// Tag of field 1 (the discriminant), wire type varint.
pub const KIND_TAG: u32 = 8;

/// Tag of field 2 (the get-events request), wire type length-delimited.
pub const REQUEST_TAG: u32 = 18;

/// Tag of field 3 (the get-events reply), wire type length-delimited.
pub const REPLY_TAG: u32 = 26;

/// The sub-payload that a message carries. Both defined ones have no fields.
#[derive(Debug, Clone, Copy, PartialEq, Eq, Structural)]
pub enum Body {
    Empty,
    GetEventsRequest,
    GetEventsReply,
}

/// A decoded message: its type discriminant and its sub-payload.
#[derive(Debug, Clone, Copy, PartialEq, Eq, Structural)]
pub struct Message {
    pub kind: u32,
    pub body: Body,
}

/// The message that an empty payload decodes to.
pub open spec fn default_message() -> Message {
    Message { kind: GET_EVENTS_REQUEST, body: Body::Empty }
}

/// The bytes of the discriminant field; a zero discriminant is left out.
pub open spec fn kind_bytes(kind: u32) -> Seq<u8> {
    if kind == 0 {
        seq![]
    } else {
        seq![KIND_TAG as u8] + varint_bytes(kind as nat)
    }
}

/// The bytes of the sub-payload field: an empty nested message under its tag.
pub open spec fn body_bytes(body: Body) -> Seq<u8> {
    match body {
        Body::Empty => seq![],
        Body::GetEventsRequest => seq![REQUEST_TAG as u8, 0u8],
        Body::GetEventsReply => seq![REPLY_TAG as u8, 0u8],
    }
}

/// The encoding of a message.
pub open spec fn message_bytes(m: Message) -> Seq<u8> {
    kind_bytes(m.kind) + body_bytes(m.body)
}

/// The tag that opens `s`, as protobuf's `read_tag` accepts it: a 32-bit
/// varint whose low three bits are a wire type from 0 to 5 and whose field
/// number is not 0. Gives the field number, the wire type and the length.
pub open spec fn tag_at(s: Seq<u8>) -> Option<(u32, u32, nat)> {
    match varint32(s) {
        Some((t, n)) => if t % 8 <= 5 && t / 8 != 0 {
            Some(((t / 8) as u32, (t % 8) as u32, n))
        } else {
            None
        },
        None => None,
    }
}

/// How many bytes the value of a field of wire type `w` takes at the start of
/// `s`, for every wire type but the two group markers: a varint, eight bytes,
/// a 32-bit length and that many bytes, or four bytes.
pub open spec fn value_len(s: Seq<u8>, w: u32) -> Option<nat> {
    if w == 0 {
        match raw_varint(s) {
            Some((_, n)) => Some(n),
            None => None,
        }
    } else if w == 1 {
        if s.len() >= 8 {
            Some(8)
        } else {
            None
        }
    } else if w == 2 {
        match varint32(s) {
            Some((l, n)) => if n + l <= s.len() {
                Some(n + l as nat)
            } else {
                None
            },
            None => None,
        }
    } else if w == 5 {
        if s.len() >= 4 {
            Some(4)
        } else {
            None
        }
    } else {
        None
    }
}

/// How many bytes the rest of a group takes at the start of `s`, through its
/// end tag: fields that are not groups, up to the first end-group tag.
pub open spec fn group_len(s: Seq<u8>) -> Option<nat>
    decreases s.len(),
{
    match tag_at(s) {
        None => None,
        Some((_, w, n)) => if !(1 <= n <= s.len()) {
            None
        } else if w == 4 {
            Some(n)
        } else {
            match value_len(s.skip(n as int), w) {
                None => None,
                Some(k) => if n + k > s.len() {
                    None
                } else {
                    match group_len(s.skip((n + k) as int)) {
                        Some(g) => Some(n + k + g),
                        None => None,
                    }
                },
            }
        },
    }
}

/// How many bytes the value of an unknown field of wire type `w` takes: a
/// group is skipped whole, an end-group marker alone is a failure.
pub open spec fn unknown_len(s: Seq<u8>, w: u32) -> Option<nat> {
    if w == 3 {
        group_len(s)
    } else {
        value_len(s, w)
    }
}

/// `s` is a whole message none of whose fields is known, as the nested
/// get-events request and reply are.
pub open spec fn unknown_fields_ok(s: Seq<u8>) -> bool
    decreases s.len(),
{
    if s.len() == 0 {
        true
    } else {
        match tag_at(s) {
            None => false,
            Some((_, w, n)) => if !(1 <= n <= s.len()) {
                false
            } else {
                match unknown_len(s.skip(n as int), w) {
                    None => false,
                    Some(k) => if n + k > s.len() {
                        false
                    } else {
                        unknown_fields_ok(s.skip((n + k) as int))
                    },
                }
            },
        }
    }
}

/// Reads the fields in `s` over the message `m`. Field 1 must be a varint and
/// sets the discriminant to its low 32 bits; fields 2 and 3 must be
/// length-delimited nested messages, whose length is a 64-bit varint, and set
/// the sub-payload; any other field is skipped as an unknown one. A later
/// field replaces what an earlier one set.
pub open spec fn parse_fields(s: Seq<u8>, m: Message) -> Option<Message>
    decreases s.len(),
{
    if s.len() == 0 {
        Some(m)
    } else {
        match tag_at(s) {
            None => None,
            Some((f, w, n)) => if !(1 <= n <= s.len()) {
                None
            } else {
                let rest = s.skip(n as int);
                if f == 1 {
                    if w != 0 {
                        None
                    } else {
                        match varint32(rest) {
                            Some((v, k)) => if k <= rest.len() {
                                parse_fields(rest.skip(k as int), Message { kind: v, body: m.body })
                            } else {
                                None
                            },
                            None => None,
                        }
                    }
                } else if f == 2 || f == 3 {
                    if w != 2 {
                        None
                    } else {
                        match varint64(rest) {
                            Some((l, k)) => if k + l <= rest.len() && unknown_fields_ok(
                                rest.subrange(k as int, (k + l) as int),
                            ) {
                                let body = if f == 2 {
                                    Body::GetEventsRequest
                                } else {
                                    Body::GetEventsReply
                                };
                                parse_fields(rest.skip((k + l) as int), Message { kind: m.kind, body: body })
                            } else {
                                None
                            },
                            None => None,
                        }
                    }
                } else {
                    match unknown_len(rest, w) {
                        Some(k) => if k <= rest.len() {
                            parse_fields(rest.skip(k as int), m)
                        } else {
                            None
                        },
                        None => None,
                    }
                }
            },
        }
    }
}

/// The message that the payload `s` decodes to, if any.
pub open spec fn parse_message(s: Seq<u8>) -> Option<Message> {
    parse_fields(s, default_message())
}

/// Encodes a message.
pub fn encode_message(m: &Message) -> (r: Vec<u8>)
    ensures
        r@ == message_bytes(*m),
        r@.len() <= 8,
{
    let mut out: Vec<u8> = Vec::new();
    proof {
        assert(varint_bytes(KIND_TAG as nat) =~= seq![KIND_TAG as u8]);
        assert(varint_bytes(REQUEST_TAG as nat) =~= seq![REQUEST_TAG as u8]);
        assert(varint_bytes(REPLY_TAG as nat) =~= seq![REPLY_TAG as u8]);
        assert(varint_bytes(0) =~= seq![0u8]);
    }
    if m.kind != 0 {
        append_varint32(&mut out, KIND_TAG);
        append_varint32(&mut out, m.kind);
        proof {
            lemma_varint32_round_trip(m.kind, seq![]);
        }
    }
    match m.body {
        Body::Empty => {},
        Body::GetEventsRequest => {
            append_varint32(&mut out, REQUEST_TAG);
            append_varint32(&mut out, 0);
        },
        Body::GetEventsReply => {
            append_varint32(&mut out, REPLY_TAG);
            append_varint32(&mut out, 0);
        },
    }
    assert(out@ =~= message_bytes(*m));
    out
}

/// The optional sum `o + d`.
pub open spec fn shifted(o: Option<nat>, d: int) -> Option<nat> {
    match o {
        Some(g) => Some((g + d) as nat),
        None => None,
    }
}

/// Reads the tag at `pos`: field number, wire type and length.
fn read_tag(s: &[u8], pos: usize) -> (r: Option<(u32, u32, usize)>)
    requires
        pos <= s@.len(),
    ensures
        match r {
            Some((f, w, n)) => tag_at(s@.skip(pos as int)) == Some((f, w, n as nat)) && 1 <= n
                <= s@.len() - pos,
            None => tag_at(s@.skip(pos as int)) is None,
        },
{
    match decode_varint32(s, pos) {
        Some((t, n)) => if t % 8 <= 5 && t / 8 != 0 {
            Some((t / 8, t % 8, n))
        } else {
            None
        },
        None => None,
    }
}

/// How many bytes the value at `pos` of a field of wire type `w` takes; the
/// group markers are left to the caller.
fn skip_value(s: &[u8], pos: usize, w: u32) -> (r: Option<usize>)
    requires
        pos <= s@.len(),
    ensures
        match r {
            Some(k) => value_len(s@.skip(pos as int), w) == Some(k as nat) && k <= s@.len() - pos,
            None => value_len(s@.skip(pos as int), w) is None,
        },
{
    if w == 0 {
        match decode_varint64(s, pos) {
            Some((_, n)) => Some(n),
            None => None,
        }
    } else if w == 1 {
        if s.len() - pos >= 8 {
            Some(8)
        } else {
            None
        }
    } else if w == 2 {
        match decode_varint32(s, pos) {
            Some((l, n)) => if l as usize <= s.len() - pos - n {
                Some(n + l as usize)
            } else {
                None
            },
            None => None,
        }
    } else if w == 5 {
        if s.len() - pos >= 4 {
            Some(4)
        } else {
            None
        }
    } else {
        None
    }
}

/// How many bytes the rest of the group that starts at `start` takes.
fn skip_group(s: &[u8], start: usize) -> (r: Option<usize>)
    requires
        start <= s@.len(),
    ensures
        match r {
            Some(k) => group_len(s@.skip(start as int)) == Some(k as nat) && k <= s@.len() - start,
            None => group_len(s@.skip(start as int)) is None,
        },
{
    let total = s.len();
    let mut pos = start;
    loop
        invariant
            total == s@.len(),
            start <= pos <= s@.len(),
            group_len(s@.skip(start as int)) == shifted(group_len(s@.skip(pos as int)), pos - start),
        decreases s@.len() - pos,
    {
        let (_, w, n) = match read_tag(s, pos) {
            Some(t) => t,
            None => return None,
        };
        assert(n <= s@.len() - pos);
        if w == 4 {
            return Some(pos + n - start);
        }
        assert(s@.skip(pos as int).skip(n as int) =~= s@.skip(pos + n));
        let k = match skip_value(s, pos + n, w) {
            Some(k) => k,
            None => return None,
        };
        assert(s@.skip(pos as int).skip(n + k) =~= s@.skip(pos + n + k));
        pos = pos + n + k;
    }
}

/// How many bytes the value at `pos` of an unknown field of wire type `w` takes.
fn skip_unknown(s: &[u8], pos: usize, w: u32) -> (r: Option<usize>)
    requires
        pos <= s@.len(),
    ensures
        match r {
            Some(k) => unknown_len(s@.skip(pos as int), w) == Some(k as nat) && k <= s@.len() - pos,
            None => unknown_len(s@.skip(pos as int), w) is None,
        },
{
    if w == 3 {
        skip_group(s, pos)
    } else {
        skip_value(s, pos, w)
    }
}

/// Whether `s` is a whole message none of whose fields is known.
pub fn only_unknown_fields(s: &[u8]) -> (r: bool)
    ensures
        r == unknown_fields_ok(s@),
{
    let mut pos: usize = 0;
    assert(s@.skip(0) =~= s@);
    while pos < s.len()
        invariant
            pos <= s@.len(),
            unknown_fields_ok(s@) == unknown_fields_ok(s@.skip(pos as int)),
        decreases s@.len() - pos,
    {
        let (_, w, n) = match read_tag(s, pos) {
            Some(t) => t,
            None => return false,
        };
        assert(s@.skip(pos as int).skip(n as int) =~= s@.skip(pos + n));
        let k = match skip_unknown(s, pos + n, w) {
            Some(k) => k,
            None => return false,
        };
        assert(s@.skip(pos as int).skip(n + k) =~= s@.skip(pos + n + k));
        pos = pos + n + k;
    }
    assert(s@.skip(pos as int).len() == 0);
    true
}

/// Decodes a payload into a message.
pub fn decode_message(bytes: &[u8]) -> (r: Result<Message, Error>)
    ensures
        match parse_message(bytes@) {
            Some(m) => r == Ok::<Message, Error>(m),
            None => r == Err::<Message, Error>(Error::DecodeError),
        },
{
    let mut m = Message { kind: GET_EVENTS_REQUEST, body: Body::Empty };
    let mut pos: usize = 0;
    assert(bytes@.skip(0) =~= bytes@);
    while pos < bytes.len()
        invariant
            pos <= bytes@.len(),
            parse_message(bytes@) == parse_fields(bytes@.skip(pos as int), m),
        decreases bytes@.len() - pos,
    {
        let ghost s = bytes@.skip(pos as int);
        let (f, w, n) = match read_tag(bytes, pos) {
            Some(t) => t,
            None => return Err(Error::DecodeError),
        };
        let start = pos + n;
        assert(s.skip(n as int) =~= bytes@.skip(start as int));
        if f == 1 {
            if w != 0 {
                return Err(Error::DecodeError);
            }
            let (v, k) = match decode_varint32(bytes, start) {
                Some(x) => x,
                None => return Err(Error::DecodeError),
            };
            assert(s.skip(n as int).skip(k as int) =~= bytes@.skip(start + k));
            m = Message { kind: v, body: m.body };
            pos = start + k;
        } else if f == 2 || f == 3 {
            if w != 2 {
                return Err(Error::DecodeError);
            }
            let (l, k) = match decode_varint64(bytes, start) {
                Some(x) => x,
                None => return Err(Error::DecodeError),
            };
            if l > (bytes.len() - start - k) as u64 {
                return Err(Error::DecodeError);
            }
            let end = start + k + l as usize;
            let nested = slice_subrange(bytes, start + k, end);
            assert(nested@ =~= s.skip(n as int).subrange(k as int, k + l));
            if !only_unknown_fields(nested) {
                return Err(Error::DecodeError);
            }
            let body = if f == 2 {
                Body::GetEventsRequest
            } else {
                Body::GetEventsReply
            };
            assert(s.skip(n as int).skip(k + l) =~= bytes@.skip(end as int));
            m = Message { kind: m.kind, body: body };
            pos = end;
        } else {
            let k = match skip_unknown(bytes, start, w) {
                Some(k) => k,
                None => return Err(Error::DecodeError),
            };
            assert(s.skip(n as int).skip(k as int) =~= bytes@.skip(start + k));
            pos = start + k;
        }
    }
    assert(bytes@.skip(pos as int).len() == 0);
    Ok(m)
}

/// Decoding the encoding of any message gives the message back.
pub proof fn lemma_message_round_trip(m: Message)
    ensures
        parse_message(message_bytes(m)) == Some(m),
{
    let b = body_bytes(m.body);
    let after_kind = Message { kind: m.kind, body: Body::Empty };
    lemma_body_fields(m.body, after_kind);
    if m.kind != 0 {
        let s = message_bytes(m);
        lemma_varint32_round_trip(KIND_TAG, s.skip(1));
        assert(seq![KIND_TAG as u8] =~= varint_bytes(KIND_TAG as nat));
        assert(s =~= varint_bytes(KIND_TAG as nat) + s.skip(1));
        lemma_varint32_round_trip(m.kind, b);
        let vb = varint_bytes(m.kind as nat);
        assert(s.skip(1) =~= vb + b);
        assert(s.skip(1).skip(vb.len() as int) =~= b);
    } else {
        assert(message_bytes(m) =~= b);
    }
}

proof fn lemma_body_fields(body: Body, m: Message)
    requires
        m.body == Body::Empty,
    ensures
        parse_fields(body_bytes(body), m) == Some(Message { kind: m.kind, body: body }),
{
    let s = body_bytes(body);
    if body != Body::Empty {
        let tag: u32 = if body == Body::GetEventsRequest {
            REQUEST_TAG
        } else {
            REPLY_TAG
        };
        lemma_varint32_round_trip(tag, seq![0u8]);
        assert(seq![tag as u8] =~= varint_bytes(tag as nat));
        assert(s =~= varint_bytes(tag as nat) + seq![0u8]);
        assert(tag_at(s) == Some(((tag / 8) as u32, 2u32, 1nat)));
        let rest = s.skip(1);
        assert(rest =~= seq![0u8]);
        assert(raw_varint(rest) == Some((0nat, 1nat)));
        assert(varint64(rest) == Some((0u64, 1nat)));
        assert(unknown_fields_ok(rest.subrange(1, 1)));
        let e = rest.skip(1);
        assert(e.len() == 0);
        assert(parse_fields(e, Message { kind: m.kind, body: body }) == Some(
            Message { kind: m.kind, body: body },
        ));
    }
}

} // verus!
