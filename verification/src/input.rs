//! Reading of a recorded terminal session.

use crate::stream::Seconds;
use vstd::prelude::*;

verus! {

/// An event of the input.
#[derive(Debug, PartialEq, Eq)]
pub enum Event {
    /// A session starts, of a terminal size (columns, rows) if that is known.
    Reset(Option<(usize, usize)>),
    /// Output at a time.
    Stdout(Seconds, String),
    /// The input has ended.
    Closed,
}

/// An event with its text as characters.
pub enum EventView {
    Reset(Option<(usize, usize)>),
    Stdout(Seconds, Seq<char>),
    Closed,
}

impl View for Event {
    type V = EventView;

    open spec fn view(&self) -> EventView {
        match *self {
            Event::Reset(size) => EventView::Reset(size),
            Event::Stdout(time, text) => EventView::Stdout(time, text@),
            Event::Closed => EventView::Closed,
        }
    }
}

impl Clone for Event {
    fn clone(&self) -> (copy: Self)
        ensures
            copy@ == self@,
    {
        match self {
            Event::Reset(Some((cols, rows))) => Event::Reset(Some((*cols, *rows))),
            Event::Reset(None) => Event::Reset(None),
            Event::Stdout(time, text) => Event::Stdout(*time, text.clone()),
            Event::Closed => Event::Closed,
        }
    }
}

/// Format of the input.
#[derive(Clone, Copy, Debug, PartialEq, Eq, Structural)]
pub enum Format {
    Asciicast,
    Raw,
}

/// Header of an asciicast recording.
#[derive(Debug)]
pub struct Header {
    pub width: usize,
    pub height: usize,
}

/// What is to be done next to read the input.
#[derive(Clone, Copy, Debug, PartialEq, Eq, Structural)]
pub enum ReadStep {
    /// Open the file, or take the standard input.
    Open,
    /// Read it to its end in a format.
    Read(Format),
    /// Tell that it has ended.
    Close,
    /// Nothing more.
    Stop,
}

/// The step that follows a step. A file is opened again after its end, the standard input is
/// not.
pub open spec fn following(step: ReadStep, from_file: bool, format: Format) -> ReadStep {
    match step {
        ReadStep::Open => ReadStep::Read(format),
        ReadStep::Read(_) => ReadStep::Close,
        ReadStep::Close => if from_file {
            ReadStep::Open
        } else {
            ReadStep::Stop
        },
        ReadStep::Stop => ReadStep::Stop,
    }
}

/// The step after a number of steps that went well.
pub open spec fn step_after(n: nat, from_file: bool, format: Format) -> ReadStep
    decreases n,
{
    if n == 0 {
        ReadStep::Open
    } else {
        following(step_after((n - 1) as nat, from_file, format), from_file, format)
    }
}

/// A file is read over and over; the standard input is read once.
pub proof fn law_read_over(n: nat, format: Format)
    ensures
        step_after(n, true, format) == if n % 3 == 0 {
            ReadStep::Open
        } else if n % 3 == 1 {
            ReadStep::Read(format)
        } else {
            ReadStep::Close
        },
        step_after(n, false, format) == if n == 0 {
            ReadStep::Open
        } else if n == 1 {
            ReadStep::Read(format)
        } else if n == 2 {
            ReadStep::Close
        } else {
            ReadStep::Stop
        },
    decreases n,
{
    if n > 0 {
        law_read_over((n - 1) as nat, format);
    }
}

/// The reading of one input, step by step.
pub struct Reading {
    from_file: bool,
    format: Format,
    step: ReadStep,
}

impl Reading {
    pub closed spec fn from_file(&self) -> bool {
        self.from_file
    }

    pub closed spec fn format(&self) -> Format {
        self.format
    }

    pub closed spec fn current(&self) -> ReadStep {
        self.step
    }

    /// The reading of a file, or of the standard input where there is no file name.
    pub fn new(filename: &Option<String>, format: Format) -> (reading: Self)
        ensures
            reading.from_file() == (filename is Some),
            reading.format() == format,
            reading.current() == ReadStep::Open,
    {
        Reading { from_file: filename.is_some(), format, step: ReadStep::Open }
    }

    /// What is to be done.
    pub fn step(&self) -> (step: ReadStep)
        ensures
            step == self.current(),
    {
        self.step
    }

    /// The step has been done.
    pub fn done(&mut self)
        ensures
            final(self).from_file() == old(self).from_file(),
            final(self).format() == old(self).format(),
            final(self).current() == following(
                old(self).current(),
                old(self).from_file(),
                old(self).format(),
            ),
    {
        self.step = match self.step {
            ReadStep::Open => ReadStep::Read(self.format),
            ReadStep::Read(_) => ReadStep::Close,
            ReadStep::Close => if self.from_file {
                ReadStep::Open
            } else {
                ReadStep::Stop
            },
            ReadStep::Stop => ReadStep::Stop,
        };
    }
}

/// An event and its view tell the same.
pub proof fn law_view_tells_event(size: Option<(usize, usize)>, time: Seconds, text: String)
    ensures
        Event::Reset(size)@ == EventView::Reset(size),
        Event::Stdout(time, text)@ == EventView::Stdout(time, text@),
        Event::Closed@ == EventView::Closed,
{
}

} // verus!
