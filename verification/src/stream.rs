//! Events of a live stream as its viewers receive them.

use crate::client;
use vstd::prelude::*;

verus! {

/// A time in seconds, held as the bit pattern of an IEEE 754 single.
#[derive(Clone, Copy, Debug, PartialEq, Eq, Structural)]
pub struct Seconds {
    pub bits: u32,
}

impl Seconds {
    /// The start of a stream.
    pub fn zero() -> (time: Seconds)
        ensures
            time.bits == 0,
    {
        Seconds { bits: 0 }
    }
}

/// What a viewer is told.
#[derive(Debug, PartialEq, Eq)]
pub enum StreamEvent {
    /// A stream starts or is joined: the terminal size (columns, rows), the stream time, and
    /// the text that paints the screen as it is.
    Reset((usize, usize), Seconds, Option<String>),
    /// Output at a time.
    Stdout(Seconds, String),
    /// The stream is over.
    Offline,
}

/// A stream event with its text as characters.
pub enum StreamEventView {
    Reset((usize, usize), Seconds, Option<Seq<char>>),
    Stdout(Seconds, Seq<char>),
    Offline,
}

/// The characters of an optional text.
pub open spec fn text_of(text: Option<String>) -> Option<Seq<char>> {
    match text {
        Some(text) => Some(text@),
        None => None,
    }
}

impl View for StreamEvent {
    type V = StreamEventView;

    open spec fn view(&self) -> StreamEventView {
        match *self {
            StreamEvent::Reset(size, time, init) => StreamEventView::Reset(
                size,
                time,
                text_of(init),
            ),
            StreamEvent::Stdout(time, text) => StreamEventView::Stdout(time, text@),
            StreamEvent::Offline => StreamEventView::Offline,
        }
    }
}

/// A copy of an optional text.
pub fn clone_text(text: &Option<String>) -> (copy: Option<String>)
    ensures
        text_of(copy) == text_of(*text),
{
    match text {
        Some(text) => Some(text.clone()),
        None => None,
    }
}

impl Clone for StreamEvent {
    fn clone(&self) -> (copy: Self)
        ensures
            copy@ == self@,
    {
        match self {
            StreamEvent::Reset((cols, rows), time, init) => StreamEvent::Reset(
                (*cols, *rows),
                *time,
                clone_text(init),
            ),
            StreamEvent::Stdout(time, text) => StreamEvent::Stdout(*time, text.clone()),
            StreamEvent::Offline => StreamEvent::Offline,
        }
    }
}

/// The form of a client's event in the stream. A mere change of size has none.
pub open spec fn stream_event(event: client::EventView) -> Option<StreamEventView> {
    match event {
        client::EventView::Reset(size, time, init) => Some(
            StreamEventView::Reset(size, time, init),
        ),
        client::EventView::Stdout(time, text) => Some(StreamEventView::Stdout(time, text)),
        client::EventView::Resize(_, _, _) => None,
        client::EventView::Offline => Some(StreamEventView::Offline),
    }
}

impl StreamEvent {
    /// The form of a client's event in the stream. A mere change of size has none.
    pub fn of(event: client::Event) -> (streamed: Option<StreamEvent>)
        ensures
            match streamed {
                Some(streamed) => stream_event(event@) == Some(streamed@),
                None => stream_event(event@) is None,
            },
    {
        match event {
            client::Event::Reset((cols, rows), time, init) => Some(
                StreamEvent::Reset((cols, rows), time, init),
            ),
            client::Event::Stdout(time, text) => Some(StreamEvent::Stdout(time, text)),
            client::Event::Resize(_, _, _) => None,
            client::Event::Offline => Some(StreamEvent::Offline),
        }
    }
}

/// An event and its view tell the same.
pub proof fn law_view_tells_event(size: (usize, usize), time: Seconds, init: String, text: String)
    ensures
        StreamEvent::Reset(size, time, Some(init))@ == StreamEventView::Reset(
            size,
            time,
            Some(init@),
        ),
        StreamEvent::Reset(size, time, None)@ == StreamEventView::Reset(size, time, None),
        StreamEvent::Stdout(time, text)@ == StreamEventView::Stdout(time, text@),
        StreamEvent::Offline@ == StreamEventView::Offline,
{
}

/// Nothing of a reset, of output or of the end is lost on the way into the stream: the size,
/// the time and the text are the same, a text that paints the screen included.
pub proof fn law_stream_keeps_event(
    size: (usize, usize),
    time: Seconds,
    init: Option<Seq<char>>,
    text: Seq<char>,
)
    ensures
        stream_event(client::EventView::Reset(size, time, init)) == Some(
            StreamEventView::Reset(size, time, init),
        ),
        stream_event(client::EventView::Stdout(time, text)) == Some(
            StreamEventView::Stdout(time, text),
        ),
        stream_event(client::EventView::Offline) == Some(StreamEventView::Offline),
{
}

/// Exactly the changes of size have no form in the stream, and no two events that have one
/// share it.
pub proof fn law_stream_tells_event(left: client::EventView, right: client::EventView)
    ensures
        stream_event(left) is None <==> left is Resize,
        stream_event(left) is Some && stream_event(left) == stream_event(right) ==> left == right,
{
}

} // verus!
