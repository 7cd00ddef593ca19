//! ALiS, the binary protocol that stream events are sent in.
//!
//! A stream opens with a header of ten bytes. Each message then starts with a byte that tells
//! its kind. Numbers are little-endian; a text is preceded by its length in bytes.

use crate::stream::Seconds;
use crate::stream::StreamEvent;
use crate::stream::StreamEventView;
use vstd::prelude::*;
use vstd::utf8;

verus! {

/// Kind of the message that opens a stream.
pub const RESET_KIND: u8 = 0x01;

/// Kind of the message that carries output, the letter `o`.
pub const STDOUT_KIND: u8 = 0x6f;

/// Kind of the message that ends a stream.
pub const OFFLINE_KIND: u8 = 0x04;

/// The low two bytes of a number, the lowest first.
pub open spec fn le16(x: nat) -> Seq<u8> {
    seq![(x % 0x100) as u8, (x / 0x100 % 0x100) as u8]
}

/// The low four bytes of a number, the lowest first.
pub open spec fn le32(x: nat) -> Seq<u8> {
    seq![
        (x % 0x100) as u8,
        (x / 0x100 % 0x100) as u8,
        (x / 0x1_0000 % 0x100) as u8,
        (x / 0x100_0000 % 0x100) as u8,
    ]
}

/// A text: its length in bytes, then its bytes.
pub open spec fn text_bytes(text: Seq<char>) -> Seq<u8> {
    le32(utf8::encode_utf8(text).len()) + utf8::encode_utf8(text)
}

/// The text that a reset carries, empty where it has none.
pub open spec fn init_text(init: Option<Seq<char>>) -> Seq<char> {
    match init {
        Some(text) => text,
        None => Seq::empty(),
    }
}

/// The message of an event.
pub open spec fn message(event: StreamEventView) -> Seq<u8> {
    match event {
        StreamEventView::Reset((cols, rows), time, init) => seq![RESET_KIND] + le16(cols as nat)
            + le16(rows as nat) + le32(time.bits as nat) + text_bytes(init_text(init)),
        StreamEventView::Stdout(time, text) => seq![STDOUT_KIND] + le32(time.bits as nat)
            + text_bytes(text),
        StreamEventView::Offline => seq![OFFLINE_KIND],
    }
}

/// The bytes that open a stream: the name and the version, then five zero bytes.
pub open spec fn header_bytes() -> Seq<u8> {
    seq![0x41u8, 0x4c, 0x69, 0x53, 0x01, 0x00, 0x00, 0x00, 0x00, 0x00]
}

fn push_le16(bytes: &mut Vec<u8>, x: usize)
    ensures
        final(bytes)@ == old(bytes)@ + le16(x as nat),
{
    bytes.push((x % 0x100) as u8);
    bytes.push((x / 0x100 % 0x100) as u8);
    assert(bytes@ =~= old(bytes)@ + le16(x as nat));
}

fn push_le32(bytes: &mut Vec<u8>, x: u64)
    ensures
        final(bytes)@ == old(bytes)@ + le32(x as nat),
{
    bytes.push((x % 0x100) as u8);
    bytes.push((x / 0x100 % 0x100) as u8);
    bytes.push((x / 0x1_0000 % 0x100) as u8);
    bytes.push((x / 0x100_0000 % 0x100) as u8);
    assert(bytes@ =~= old(bytes)@ + le32(x as nat));
}

fn push_text(bytes: &mut Vec<u8>, text: &str)
    ensures
        final(bytes)@ == old(bytes)@ + text_bytes(text@),
{
    let encoded = text.as_bytes();
    push_le32(bytes, encoded.len() as u64);
    bytes.extend_from_slice(encoded);
    assert(bytes@ =~= old(bytes)@ + text_bytes(text@));
}

/// Encoder of a stream.
pub struct Encoder {}

impl Default for Encoder {
    fn default() -> (encoder: Self)
        ensures
            encoder == (Encoder {  }),
    {
        Encoder::new()
    }
}

impl Encoder {
    /// A new encoder.
    pub fn new() -> (encoder: Self)
        ensures
            encoder == (Encoder {  }),
    {
        Encoder {  }
    }

    /// The bytes that open a stream.
    pub fn header(&self) -> (bytes: Vec<u8>)
        ensures
            bytes@ == header_bytes(),
    {
        let bytes: Vec<u8> = vec![0x41, 0x4c, 0x69, 0x53, 0x01, 0x00, 0x00, 0x00, 0x00, 0x00];
        assert(bytes@ =~= header_bytes());
        bytes
    }

    /// The message of an event. A size keeps its low sixteen bits, the length of a text its
    /// low thirty-two.
    pub fn encode(&mut self, event: StreamEvent) -> (bytes: Vec<u8>)
        ensures
            bytes@ == message(event@),
            *final(self) == *old(self),
    {
        match event {
            StreamEvent::Reset((cols, rows), time, init) => {
                let init: String = match init {
                    Some(text) => text,
                    None => String::new(),
                };
                let mut bytes: Vec<u8> = vec![RESET_KIND];
                push_le16(&mut bytes, cols);
                push_le16(&mut bytes, rows);
                push_le32(&mut bytes, time.bits as u64);
                push_text(&mut bytes, init.as_str());
                assert(bytes@ =~= message(event@));
                bytes
            },
            StreamEvent::Stdout(time, text) => {
                let mut bytes: Vec<u8> = vec![STDOUT_KIND];
                push_le32(&mut bytes, time.bits as u64);
                push_text(&mut bytes, text.as_str());
                assert(bytes@ =~= message(event@));
                bytes
            },
            StreamEvent::Offline => {
                let bytes: Vec<u8> = vec![OFFLINE_KIND];
                assert(bytes@ =~= message(event@));
                bytes
            },
        }
    }
}

/// The number in the first two bytes.
pub open spec fn from_le16(bytes: Seq<u8>) -> nat {
    (bytes[0] + 0x100 * bytes[1]) as nat
}

/// The number in the first four bytes.
pub open spec fn from_le32(bytes: Seq<u8>) -> nat {
    (bytes[0] + 0x100 * bytes[1] + 0x1_0000 * bytes[2] + 0x100_0000 * bytes[3]) as nat
}

/// The text at the front of `bytes` and what follows it.
pub open spec fn read_text(bytes: Seq<u8>) -> Option<(Seq<char>, Seq<u8>)> {
    let end = 4 + from_le32(bytes);
    if bytes.len() < 4 || bytes.len() < end {
        None
    } else {
        let encoded = bytes.subrange(4, end as int);
        if utf8::valid_utf8(encoded) {
            Some((utf8::decode_utf8(encoded), bytes.skip(end as int)))
        } else {
            None
        }
    }
}

/// The event of the message at the front of `bytes` and what follows it.
pub open spec fn read_message(bytes: Seq<u8>) -> Option<(StreamEventView, Seq<u8>)> {
    if bytes.len() >= 9 && bytes[0] == RESET_KIND {
        let size = (from_le16(bytes.skip(1)) as usize, from_le16(bytes.skip(3)) as usize);
        let time = Seconds { bits: from_le32(bytes.skip(5)) as u32 };
        match read_text(bytes.skip(9)) {
            Some((init, rest)) => Some((StreamEventView::Reset(size, time, Some(init)), rest)),
            None => None,
        }
    } else if bytes.len() >= 5 && bytes[0] == STDOUT_KIND {
        let time = Seconds { bits: from_le32(bytes.skip(1)) as u32 };
        match read_text(bytes.skip(5)) {
            Some((text, rest)) => Some((StreamEventView::Stdout(time, text), rest)),
            None => None,
        }
    } else if bytes.len() >= 1 && bytes[0] == OFFLINE_KIND {
        Some((StreamEventView::Offline, bytes.skip(1)))
    } else {
        None
    }
}

/// The numbers of the event fit their fields.
pub open spec fn fits(event: StreamEventView) -> bool {
    match event {
        StreamEventView::Reset((cols, rows), _, init) => {
            &&& cols < 0x1_0000
            &&& rows < 0x1_0000
            &&& utf8::encode_utf8(init_text(init)).len() < 0x1_0000_0000
        },
        StreamEventView::Stdout(_, text) => utf8::encode_utf8(text).len() < 0x1_0000_0000,
        StreamEventView::Offline => true,
    }
}

/// The event as its message tells it: a reset without a text is one with an empty text.
pub open spec fn told(event: StreamEventView) -> StreamEventView {
    match event {
        StreamEventView::Reset(size, time, init) => StreamEventView::Reset(
            size,
            time,
            Some(init_text(init)),
        ),
        other => other,
    }
}

proof fn lemma_read_text(text: Seq<char>, rest: Seq<u8>)
    requires
        utf8::encode_utf8(text).len() < 0x1_0000_0000,
    ensures
        read_text(text_bytes(text) + rest) == Some((text, rest)),
{
    let encoded = utf8::encode_utf8(text);
    let bytes = text_bytes(text) + rest;
    let end = 4 + encoded.len() as int;
    assert(from_le32(bytes) == encoded.len());
    assert(bytes.subrange(4, end) =~= encoded);
    assert(bytes.skip(end) =~= rest);
    utf8::encode_utf8_valid_utf8(text);
    utf8::encode_utf8_decode_utf8(text);
}

proof fn lemma_from_le16(x: nat, rest: Seq<u8>)
    requires
        x < 0x1_0000,
    ensures
        from_le16(le16(x) + rest) == x,
{
}

proof fn lemma_from_le32(x: nat, rest: Seq<u8>)
    requires
        x < 0x1_0000_0000,
    ensures
        from_le32(le32(x) + rest) == x,
{
}

proof fn lemma_read_reset(cols: usize, rows: usize, time: Seconds, text: Seq<char>, rest: Seq<u8>)
    requires
        cols < 0x1_0000,
        rows < 0x1_0000,
        utf8::encode_utf8(text).len() < 0x1_0000_0000,
    ensures
        read_message(
            message(StreamEventView::Reset((cols, rows), time, Some(text))) + rest,
        ) == Some((StreamEventView::Reset((cols, rows), time, Some(text)), rest)),
{
    let bytes = message(StreamEventView::Reset((cols, rows), time, Some(text))) + rest;
    let tail = text_bytes(text) + rest;
    assert(bytes.skip(1) =~= le16(cols as nat) + bytes.skip(3));
    assert(bytes.skip(3) =~= le16(rows as nat) + bytes.skip(5));
    assert(bytes.skip(5) =~= le32(time.bits as nat) + tail);
    assert(bytes.skip(9) =~= tail);
    lemma_from_le16(cols as nat, bytes.skip(3));
    lemma_from_le16(rows as nat, bytes.skip(5));
    lemma_from_le32(time.bits as nat, tail);
    lemma_read_text(text, rest);
}

proof fn lemma_read_stdout(time: Seconds, text: Seq<char>, rest: Seq<u8>)
    requires
        utf8::encode_utf8(text).len() < 0x1_0000_0000,
    ensures
        read_message(message(StreamEventView::Stdout(time, text)) + rest) == Some(
            (StreamEventView::Stdout(time, text), rest),
        ),
{
    let bytes = message(StreamEventView::Stdout(time, text)) + rest;
    let tail = text_bytes(text) + rest;
    assert(bytes.skip(1) =~= le32(time.bits as nat) + tail);
    assert(bytes.skip(5) =~= tail);
    lemma_from_le32(time.bits as nat, tail);
    lemma_read_text(text, rest);
}

/// A message reads back as its event, whatever follows it: messages tell where they end.
pub proof fn law_message_read_back(event: StreamEventView, rest: Seq<u8>)
    requires
        fits(event),
    ensures
        read_message(message(event) + rest) == Some((told(event), rest)),
{
    match event {
        StreamEventView::Reset((cols, rows), time, init) => {
            lemma_read_reset(cols, rows, time, init_text(init), rest);
        },
        StreamEventView::Stdout(time, text) => {
            lemma_read_stdout(time, text, rest);
        },
        StreamEventView::Offline => {
            assert((message(event) + rest).skip(1) =~= rest);
        },
    }
}

/// The messages of a stream, one after the other.
pub open spec fn messages(events: Seq<StreamEventView>) -> Seq<u8>
    decreases events.len(),
{
    if events.len() == 0 {
        Seq::empty()
    } else {
        message(events[0]) + messages(events.drop_first())
    }
}

/// The events of the messages that `bytes` is made of.
pub open spec fn read_messages(bytes: Seq<u8>) -> Option<Seq<StreamEventView>>
    decreases bytes.len(),
{
    if bytes.len() == 0 {
        Some(Seq::empty())
    } else {
        match read_message(bytes) {
            Some((event, rest)) => if rest.len() < bytes.len() {
                match read_messages(rest) {
                    Some(events) => Some(seq![event] + events),
                    None => None,
                }
            } else {
                None
            },
            None => None,
        }
    }
}

/// A whole stream of messages reads back as its events.
pub proof fn law_stream_read_back(events: Seq<StreamEventView>)
    requires
        forall|i: int| 0 <= i < events.len() ==> fits(#[trigger] events[i]),
    ensures
        read_messages(messages(events)) == Some(events.map_values(|event| told(event))),
    decreases events.len(),
{
    let read = events.map_values(|event| told(event));
    if events.len() == 0 {
        assert(read =~= Seq::empty());
    } else {
        let later = events.drop_first();
        law_message_read_back(events[0], messages(later));
        law_stream_read_back(later);
        assert(seq![told(events[0])] + later.map_values(|event| told(event)) =~= read);
    }
}

/// A stream opens with the letters `ALiS`, the version 1 and five zero bytes.
pub proof fn law_header(i: int)
    ensures
        header_bytes().len() == 10,
        header_bytes().take(5) == seq!['A' as u8, 'L' as u8, 'i' as u8, 'S' as u8, 1u8],
        5 <= i < 10 ==> header_bytes()[i] == 0,
{
    assert(header_bytes().take(5) =~= seq!['A' as u8, 'L' as u8, 'i' as u8, 'S' as u8, 1u8]);
}

/// Byte by byte, the message of a reset: the kind 1, the columns and the rows in two bytes
/// each, the time in four, the length of the text in four, low bytes first, then the text in
/// UTF-8 and nothing more.
pub proof fn law_reset_bytes(cols: usize, rows: usize, time: Seconds, init: Option<Seq<char>>)
    ensures
        ({
            let bytes = message(StreamEventView::Reset((cols, rows), time, init));
            let text = utf8::encode_utf8(
                match init {
                    Some(text) => text,
                    None => Seq::empty(),
                },
            );
            &&& bytes.len() == 13 + text.len()
            &&& bytes[0] == 1
            &&& bytes[1] + 256 * bytes[2] == cols as nat % 65536
            &&& bytes[3] + 256 * bytes[4] == rows as nat % 65536
            &&& bytes[5] + 256 * bytes[6] + 65536 * bytes[7] + 16777216 * bytes[8] == time.bits
            &&& bytes[9] + 256 * bytes[10] + 65536 * bytes[11] + 16777216 * bytes[12] == text.len()
                % 4294967296
            &&& bytes.skip(13) == text
        }),
{
    let bytes = message(StreamEventView::Reset((cols, rows), time, init));
    let text = utf8::encode_utf8(init_text(init));
    assert(bytes.skip(13) =~= text);
    lemma_le16(cols as nat);
    lemma_le16(rows as nat);
    lemma_le32(time.bits as nat);
    lemma_le32(text.len());
    assert(bytes[1] == le16(cols as nat)[0] && bytes[2] == le16(cols as nat)[1]);
    assert(bytes[3] == le16(rows as nat)[0] && bytes[4] == le16(rows as nat)[1]);
    assert(bytes.subrange(5, 9) =~= le32(time.bits as nat));
    assert(bytes.subrange(9, 13) =~= le32(text.len()));
    assert(bytes[5] == bytes.subrange(5, 9)[0] && bytes[6] == bytes.subrange(5, 9)[1] && bytes[7]
        == bytes.subrange(5, 9)[2] && bytes[8] == bytes.subrange(5, 9)[3]);
    assert(bytes[9] == bytes.subrange(9, 13)[0] && bytes[10] == bytes.subrange(9, 13)[1] && bytes[11]
        == bytes.subrange(9, 13)[2] && bytes[12] == bytes.subrange(9, 13)[3]);
}

/// Byte by byte, the message of output: the letter `o`, the time in four bytes, the length of
/// the text in four, low bytes first, then the text in UTF-8 and nothing more. The message of
/// the end of a stream is the one byte 4.
pub proof fn law_stdout_bytes(time: Seconds, text: Seq<char>)
    ensures
        ({
            let bytes = message(StreamEventView::Stdout(time, text));
            let encoded = utf8::encode_utf8(text);
            &&& bytes.len() == 9 + encoded.len()
            &&& bytes[0] == 'o' as u8
            &&& bytes[1] + 256 * bytes[2] + 65536 * bytes[3] + 16777216 * bytes[4] == time.bits
            &&& bytes[5] + 256 * bytes[6] + 65536 * bytes[7] + 16777216 * bytes[8] == encoded.len()
                % 4294967296
            &&& bytes.skip(9) == encoded
        }),
        message(StreamEventView::Offline) == seq![4u8],
{
    let bytes = message(StreamEventView::Stdout(time, text));
    let encoded = utf8::encode_utf8(text);
    assert(bytes.skip(9) =~= encoded);
    lemma_le32(time.bits as nat);
    lemma_le32(encoded.len());
    assert(bytes.subrange(1, 5) =~= le32(time.bits as nat));
    assert(bytes.subrange(5, 9) =~= le32(encoded.len()));
    assert(bytes[1] == bytes.subrange(1, 5)[0] && bytes[2] == bytes.subrange(1, 5)[1] && bytes[3]
        == bytes.subrange(1, 5)[2] && bytes[4] == bytes.subrange(1, 5)[3]);
    assert(bytes[5] == bytes.subrange(5, 9)[0] && bytes[6] == bytes.subrange(5, 9)[1] && bytes[7]
        == bytes.subrange(5, 9)[2] && bytes[8] == bytes.subrange(5, 9)[3]);
}

proof fn lemma_le16(x: nat)
    ensures
        le16(x)[0] + 256 * le16(x)[1] == x % 65536,
{
}

proof fn lemma_le32(x: nat)
    ensures
        le32(x)[0] + 256 * le32(x)[1] + 65536 * le32(x)[2] + 16777216 * le32(x)[3] == x % 4294967296,
{
    let bytes = le32(x);
    let q1 = x / 256;
    let q2 = q1 / 256;
    let q3 = q2 / 256;
    let q4 = q3 / 256;
    assert(x / 65536 == q2);
    assert(x / 16777216 == q3);
    assert(bytes[0] == x - 256 * q1);
    assert(bytes[1] == q1 - 256 * q2);
    assert(bytes[2] == q2 - 256 * q3);
    assert(bytes[3] == q3 - 256 * q4);
    assert(bytes[0] + 256 * bytes[1] + 65536 * bytes[2] + 16777216 * bytes[3] == x - 4294967296
        * q4);
}

} // verus!
