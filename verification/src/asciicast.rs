//! The lines of an asciicast recording.

use crate::input::Event;
use crate::input::EventView;
use crate::input::Header;
use crate::stream::Seconds;
use vstd::prelude::*;
use vstd::string::StrSliceExecFns;

verus! {

/// What a line has to be read as.
#[derive(Clone, Copy, Debug, PartialEq, Eq, Structural)]
pub enum LineKind {
    /// A JSON object: the header of a session.
    Header,
    /// A JSON array: the time, type and text of an event.
    Event,
    /// Neither.
    Invalid,
}

/// The kind of a line, told by its first character. An input has to start with a header.
pub open spec fn line_kind(line: Seq<char>, first: bool) -> LineKind {
    if line.len() > 0 && line[0] == '{' {
        LineKind::Header
    } else if line.len() > 0 && line[0] == '[' && !first {
        LineKind::Event
    } else {
        LineKind::Invalid
    }
}

/// No line of an input is invalid.
pub open spec fn all_valid(lines: Seq<Seq<char>>) -> bool {
    forall|i: int|
        0 <= i < lines.len() ==> line_kind(#[trigger] lines[i], i == 0) != LineKind::Invalid
}

/// A line starts with a character.
pub open spec fn starts_with(line: Seq<char>, first: char) -> bool {
    line.len() > 0 && line[0] == first
}

/// The inputs without invalid lines are those whose first line opens an object and whose other
/// lines open an object or an array each.
pub proof fn law_header_first(lines: Seq<Seq<char>>)
    ensures
        all_valid(lines) <==> {
            &&& lines.len() > 0 ==> starts_with(lines[0], '{')
            &&& forall|i: int|
                0 <= i < lines.len() ==> starts_with(#[trigger] lines[i], '{') || starts_with(
                    lines[i],
                    '[',
                )
        },
{
    if all_valid(lines) {
        if lines.len() > 0 {
            assert(line_kind(lines[0], true) != LineKind::Invalid);
        }
        assert forall|i: int| 0 <= i < lines.len() implies starts_with(#[trigger] lines[i], '{')
            || starts_with(lines[i], '[') by {
            assert(line_kind(lines[i], i == 0) != LineKind::Invalid);
        }
    }
}

/// The kind of every line: what opens an object is a header, what opens an array is an event
/// unless it stands first, and nothing else is valid.
pub proof fn law_line_kind(line: Seq<char>, first: bool)
    ensures
        line_kind(line, first) == LineKind::Header <==> line.len() > 0 && line[0] == '{',
        line_kind(line, first) == LineKind::Event <==> line.len() > 0 && line[0] == '[' && !first,
{
}

/// What is passed on of an event of a recording.
pub open spec fn passed_on(time: Seconds, event_type: Seq<char>, text: Seq<char>) -> Option<
    EventView,
> {
    if event_type == "o"@ {
        Some(EventView::Stdout(time, text))
    } else {
        None
    }
}

/// Output is passed on with its own time and its whole text; events of any other type are not.
pub proof fn law_passed_on(time: Seconds, event_type: Seq<char>, text: Seq<char>)
    ensures
        passed_on(time, "o"@, text) == Some(EventView::Stdout(time, text)),
        passed_on(time, event_type, text) is Some <==> event_type == "o"@,
{
}

/// The event that the header of a recording stands for.
pub open spec fn header_event(header: Header) -> EventView {
    EventView::Reset(Some((header.width, header.height)))
}

/// A header starts a session of its width, in columns, and its height, in rows.
pub proof fn law_header_tells_size(width: usize, height: usize)
    ensures
        header_event(Header { width, height }) == EventView::Reset(Some((width, height))),
{
}

/// Whether two texts are the same.
fn same_text(left: &str, right: &str) -> (same: bool)
    ensures
        same == (left@ == right@),
{
    left.to_owned() == right.to_owned()
}

/// The reading of a recording, line by line.
pub struct LineReader {
    first_read: bool,
}

impl LineReader {
    /// Whether no line has been read.
    pub closed spec fn first_read(&self) -> bool {
        self.first_read
    }

    /// A reader before the first line.
    pub fn new() -> (reader: Self)
        ensures
            reader.first_read(),
    {
        LineReader { first_read: true }
    }

    /// What the next line has to be read as.
    pub fn kind(&self, line: &str) -> (kind: LineKind)
        ensures
            kind == line_kind(line@, self.first_read()),
    {
        if line.is_empty() {
            return LineKind::Invalid;
        }
        let first: char = line.get_char(0);
        if first == '{' {
            LineKind::Header
        } else if first == '[' && !self.first_read {
            LineKind::Event
        } else {
            LineKind::Invalid
        }
    }

    /// A header has been read.
    pub fn header(&mut self, header: Header) -> (event: Event)
        ensures
            !final(self).first_read(),
            event@ == EventView::Reset(Some((header.width, header.height))),
            event@ == header_event(header),
    {
        self.first_read = false;
        Event::Reset(Some((header.width, header.height)))
    }

    /// An event has been read. Only output is passed on.
    pub fn event(&mut self, time: Seconds, event_type: &str, text: String) -> (event: Option<Event>)
        ensures
            !final(self).first_read(),
            match event {
                Some(event) => event_type@ == "o"@ && event@ == EventView::Stdout(time, text@),
                None => event_type@ != "o"@,
            },
            passed_on(time, event_type@, text@) == match event {
                Some(event) => Some(event@),
                None => None,
            },
    {
        self.first_read = false;
        if same_text(event_type, "o") {
            Some(Event::Stdout(time, text))
        } else {
            None
        }
    }
}

} // verus!
