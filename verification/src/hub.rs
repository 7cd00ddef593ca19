//! The middle of the program: the state of the running stream, kept from the events of the
//! input, told to the clients that join.

use crate::client;
use crate::client::ClientInitResponse;
use crate::input;
use crate::stream::stream_event;
use crate::stream::Seconds;
use crate::stream::StreamEventView;
use crate::terminal::dump_text;
use crate::terminal::fed;
use crate::terminal::made_with;
use crate::terminal::terminal_fits;
use vstd::prelude::*;

verus! {

/// The state of a stream.
#[verifier::ext_equal]
pub struct HubView {
    /// Terminal size for a stream that does not tell its own.
    pub default_size: (usize, usize),
    /// Terminal size (columns, rows).
    pub size: (usize, usize),
    /// The output on the screen.
    pub fed: Seq<Seq<char>>,
    /// Time of the last output.
    pub last_stream_time: Seconds,
    /// Whether a stream is running.
    pub online: bool,
}

impl HubView {
    /// State before any stream.
    pub open spec fn initial(cols: usize, rows: usize) -> Self {
        HubView {
            default_size: (cols, rows),
            size: (cols, rows),
            fed: Seq::empty(),
            last_stream_time: Seconds { bits: 0 },
            online: false,
        }
    }

    /// The size of a stream that tells its size or does not.
    pub open spec fn size_or_default(self, size: Option<(usize, usize)>) -> (usize, usize) {
        match size {
            Some(size) => size,
            None => self.default_size,
        }
    }

    /// The state after an event of the input.
    pub open spec fn next(self, event: input::EventView) -> Self {
        match event {
            input::EventView::Reset(size) => HubView {
                size: self.size_or_default(size),
                fed: Seq::empty(),
                last_stream_time: Seconds { bits: 0 },
                online: true,
                ..self
            },
            input::EventView::Stdout(time, text) => HubView {
                fed: self.fed.push(text),
                last_stream_time: time,
                ..self
            },
            input::EventView::Closed => HubView { online: false, ..self },
        }
    }

    /// What the clients are told of an event of the input.
    pub open spec fn broadcast(self, event: input::EventView) -> client::EventView {
        match event {
            input::EventView::Reset(size) => client::EventView::Reset(
                self.size_or_default(size),
                Seconds { bits: 0 },
                None,
            ),
            input::EventView::Stdout(time, text) => client::EventView::Stdout(time, text),
            input::EventView::Closed => client::EventView::Offline,
        }
    }

    /// What a client that joins is told first.
    pub open spec fn welcome(self, stream_time: Seconds) -> client::EventView {
        if self.online {
            client::EventView::Reset(
                self.size,
                stream_time,
                Some(dump_text(self.size.0, self.size.1, self.fed)),
            )
        } else {
            client::EventView::Offline
        }
    }

    /// The state after some events of the input.
    pub open spec fn after(self, events: Seq<input::EventView>) -> Self
        decreases events.len(),
    {
        if events.len() == 0 {
            self
        } else {
            self.after(events.drop_last()).next(events.last())
        }
    }
}

/// Whether the time since the last output starts to count anew with an event of the input.
pub open spec fn restarts_clock(event: input::EventView) -> bool {
    !(event is Closed)
}

/// What follows from an event of the input.
pub struct Update {
    /// What the clients are told.
    pub broadcast: client::Event,
    /// Whether the time since the last output starts to count anew.
    pub restarts_clock: bool,
}

/// The running stream.
pub struct Hub {
    default_cols: usize,
    default_rows: usize,
    vt: avt::Vt,
    last_stream_time: Seconds,
    online: bool,
}

impl View for Hub {
    type V = HubView;

    closed spec fn view(&self) -> HubView {
        HubView {
            default_size: (self.default_cols, self.default_rows),
            size: made_with(self.vt)->0,
            fed: fed(self.vt),
            last_stream_time: self.last_stream_time,
            online: self.online,
        }
    }
}

impl Hub {
    /// What holds of every hub.
    pub closed spec fn wf(&self) -> bool {
        &&& made_with(self.vt) is Some
        &&& terminal_fits(self.default_cols, self.default_rows)
    }

    /// A hub without a stream.
    pub fn new(default_cols: usize, default_rows: usize) -> (hub: Self)
        requires
            terminal_fits(default_cols, default_rows),
        ensures
            hub.wf(),
            hub@ == HubView::initial(default_cols, default_rows),
    {
        Hub {
            default_cols,
            default_rows,
            vt: avt::Vt::new(default_cols, default_rows),
            last_stream_time: Seconds::zero(),
            online: false,
        }
    }

    /// Takes an event of the input.
    pub fn handle_input(&mut self, event: &input::Event) -> (update: Update)
        requires
            old(self).wf(),
            event matches input::Event::Reset(Some((cols, rows))) ==> terminal_fits(*cols, *rows),
        ensures
            final(self).wf(),
            final(self)@ == old(self)@.next(event@),
            update.broadcast@ == old(self)@.broadcast(event@),
            update.restarts_clock == !(event is Closed),
            update.restarts_clock == restarts_clock(event@),
    {
        match event {
            input::Event::Reset(size) => {
                let (cols, rows) = match size {
                    Some((cols, rows)) => (*cols, *rows),
                    None => (self.default_cols, self.default_rows),
                };
                self.vt = avt::Vt::new(cols, rows);
                self.last_stream_time = Seconds::zero();
                self.online = true;
                Update {
                    broadcast: client::Event::Reset((cols, rows), Seconds::zero(), None),
                    restarts_clock: true,
                }
            },
            input::Event::Stdout(time, text) => {
                let _ = self.vt.feed_str(text.as_str());
                self.last_stream_time = *time;
                Update {
                    broadcast: client::Event::Stdout(*time, text.clone()),
                    restarts_clock: true,
                }
            },
            input::Event::Closed => {
                self.online = false;
                Update { broadcast: client::Event::Offline, restarts_clock: false }
            },
        }
    }

    /// Time of the last output. The stream time of a client that joins is this and the time
    /// that has gone by since.
    pub fn last_stream_time(&self) -> (time: Seconds)
        ensures
            time == self@.last_stream_time,
    {
        self.last_stream_time
    }

    /// The stream for a client that joins at `stream_time`.
    pub fn client_init(&self, stream_time: Seconds) -> (response: ClientInitResponse)
        requires
            self.wf(),
        ensures
            response.online == self@.online,
            response.stream_time == stream_time,
            (response.cols, response.rows) == self@.size,
            response.init@ == dump_text(self@.size.0, self@.size.1, self@.fed),
            response.first_event() == self@.welcome(stream_time),
    {
        ClientInitResponse::new(self.online, stream_time, &self.vt)
    }
}

/// The texts of the output among some events.
pub open spec fn output_of(events: Seq<input::EventView>) -> Seq<Seq<char>>
    decreases events.len(),
{
    if events.len() == 0 {
        Seq::empty()
    } else {
        let earlier = output_of(events.drop_last());
        match events.last() {
            input::EventView::Stdout(_, text) => earlier.push(text),
            _ => earlier,
        }
    }
}

/// The event at `i` is the last reset.
pub open spec fn last_reset(events: Seq<input::EventView>, i: int) -> bool {
    &&& 0 <= i < events.len()
    &&& events[i] is Reset
    &&& forall|j: int| i < j < events.len() ==> !(#[trigger] events[j] is Reset)
}

/// The screen holds what came since the last reset, at the size that reset told.
pub proof fn law_screen_since_reset(hub: HubView, events: Seq<input::EventView>, i: int)
    requires
        last_reset(events, i),
    ensures
        hub.after(events).fed == output_of(events.skip(i + 1)),
        hub.after(events).size == hub.size_or_default(events[i]->Reset_0),
        hub.after(events).default_size == hub.default_size,
    decreases events.len(),
{
    let earlier = events.drop_last();
    law_default_size_kept(hub, earlier);
    if i == events.len() - 1 {
        assert(events.skip(i + 1) =~= Seq::empty());
    } else {
        assert forall|j: int| i < j < earlier.len() implies !(#[trigger] earlier[j] is Reset) by {
            assert(!(events[j] is Reset));
        }
        law_screen_since_reset(hub, earlier, i);
        assert(events.skip(i + 1).drop_last() =~= earlier.skip(i + 1));
        assert(events.skip(i + 1).last() == events.last());
        assert(!(events[events.len() - 1] is Reset));
    }
}

/// The size for streams that do not tell their own never changes.
pub proof fn law_default_size_kept(hub: HubView, events: Seq<input::EventView>)
    ensures
        hub.after(events).default_size == hub.default_size,
    decreases events.len(),
{
    if events.len() > 0 {
        law_default_size_kept(hub, events.drop_last());
    }
}

/// A stream is running exactly when some reset has not been followed by a close.
pub proof fn law_online(cols: usize, rows: usize, events: Seq<input::EventView>)
    ensures
        HubView::initial(cols, rows).after(events).online <==> exists|i: int|
            0 <= i < events.len() && #[trigger] events[i] is Reset && forall|j: int|
                i < j < events.len() ==> !(#[trigger] events[j] is Closed),
    decreases events.len(),
{
    if events.len() > 0 {
        let earlier = events.drop_last();
        let last = events.len() - 1;
        law_online(cols, rows, earlier);
        if events[last] is Stdout {
            if HubView::initial(cols, rows).after(earlier).online {
                let i = choose|i: int|
                    0 <= i < earlier.len() && #[trigger] earlier[i] is Reset && forall|j: int|
                        i < j < earlier.len() ==> !(#[trigger] earlier[j] is Closed);
                assert(events[i] is Reset);
                assert forall|j: int| i < j < events.len() implies !(#[trigger] events[j] is Closed) by {
                    if j < last {
                        assert(!(earlier[j] is Closed));
                    }
                }
            }
            if exists|i: int|
                0 <= i < events.len() && #[trigger] events[i] is Reset && forall|j: int|
                    i < j < events.len() ==> !(#[trigger] events[j] is Closed) {
                let i = choose|i: int|
                    0 <= i < events.len() && #[trigger] events[i] is Reset && forall|j: int|
                        i < j < events.len() ==> !(#[trigger] events[j] is Closed);
                assert(earlier[i] is Reset);
                assert forall|j: int| i < j < earlier.len() implies !(#[trigger] earlier[j] is Closed) by {
                    assert(!(events[j] is Closed));
                }
            }
        }
    }
}

/// The time of the last output is that of the output since the last reset, and zero before it.
pub proof fn law_last_stream_time(hub: HubView, events: Seq<input::EventView>, i: int)
    requires
        0 <= i < events.len(),
        !(events[i] is Closed),
        forall|j: int| i < j < events.len() ==> #[trigger] events[j] is Closed,
    ensures
        hub.after(events).last_stream_time == match events[i] {
            input::EventView::Stdout(time, _) => time,
            _ => Seconds { bits: 0 },
        },
    decreases events.len(),
{
    if i < events.len() - 1 {
        let earlier = events.drop_last();
        assert forall|j: int| i < j < earlier.len() implies #[trigger] earlier[j] is Closed by {
            assert(events[j] is Closed);
        }
        law_last_stream_time(hub, earlier, i);
        assert(events[events.len() - 1] is Closed);
    }
}

/// A client that joins while a stream runs is told its size and is painted exactly the output
/// since the stream's reset.
pub proof fn law_late_client(
    cols: usize,
    rows: usize,
    events: Seq<input::EventView>,
    i: int,
    stream_time: Seconds,
)
    requires
        last_reset(events, i),
        forall|j: int| i < j < events.len() ==> !(#[trigger] events[j] is Closed),
    ensures
        ({
            let hub = HubView::initial(cols, rows);
            let size = hub.size_or_default(events[i]->Reset_0);
            hub.after(events).welcome(stream_time) == client::EventView::Reset(
                size,
                stream_time,
                Some(dump_text(size.0, size.1, output_of(events.skip(i + 1)))),
            )
        }),
{
    let hub = HubView::initial(cols, rows);
    law_screen_since_reset(hub, events, i);
    law_online(cols, rows, events);
    assert(events[i] is Reset);
}

/// Whatever the clients are told has a form in the stream.
pub proof fn law_told_in_stream(hub: HubView, event: input::EventView, stream_time: Seconds)
    ensures
        stream_event(hub.broadcast(event)) is Some,
        stream_event(hub.welcome(stream_time)) is Some,
{
}

/// Before any stream there is a blank screen of the default size, at time zero, offline.
pub proof fn law_initial(cols: usize, rows: usize)
    ensures
        HubView::initial(cols, rows).default_size == (cols, rows),
        HubView::initial(cols, rows).size == (cols, rows),
        HubView::initial(cols, rows).fed.len() == 0,
        HubView::initial(cols, rows).last_stream_time.bits == 0,
        !HubView::initial(cols, rows).online,
{
}

/// A stream that tells its size has that size, whatever the default is, and the clients are
/// told the same. It starts with a blank screen at time zero.
pub proof fn law_told_size(hub: HubView, cols: usize, rows: usize)
    ensures
        hub.next(input::EventView::Reset(Some((cols, rows)))).size == (cols, rows),
        hub.next(input::EventView::Reset(Some((cols, rows)))).fed.len() == 0,
        hub.next(input::EventView::Reset(Some((cols, rows)))).last_stream_time.bits == 0,
        hub.next(input::EventView::Reset(Some((cols, rows)))).online,
        hub.next(input::EventView::Reset(Some((cols, rows)))).default_size == hub.default_size,
        hub.broadcast(input::EventView::Reset(Some((cols, rows)))) == client::EventView::Reset(
            (cols, rows),
            Seconds { bits: 0 },
            None,
        ),
{
}

/// A stream that does not tell its size has the default size, and the clients are told that.
/// It starts with a blank screen at time zero.
pub proof fn law_untold_size(hub: HubView)
    ensures
        hub.next(input::EventView::Reset(None)).size == hub.default_size,
        hub.next(input::EventView::Reset(None)).fed.len() == 0,
        hub.next(input::EventView::Reset(None)).last_stream_time.bits == 0,
        hub.next(input::EventView::Reset(None)).online,
        hub.next(input::EventView::Reset(None)).default_size == hub.default_size,
        hub.broadcast(input::EventView::Reset(None)) == client::EventView::Reset(
            hub.default_size,
            Seconds { bits: 0 },
            None,
        ),
{
}

/// Output goes to the screen behind what is there and to the clients as it is, at its own
/// time; the end goes to the clients and takes the stream offline. Neither changes anything
/// else.
pub proof fn law_output_and_end(hub: HubView, time: Seconds, text: Seq<char>)
    ensures
        ({
            let shown = hub.next(input::EventView::Stdout(time, text));
            &&& shown.fed.len() == hub.fed.len() + 1
            &&& shown.fed.last() == text
            &&& shown.fed.drop_last() == hub.fed
            &&& shown.last_stream_time == time
            &&& shown.size == hub.size
            &&& shown.default_size == hub.default_size
            &&& shown.online == hub.online
        }),
        hub.broadcast(input::EventView::Stdout(time, text)) == client::EventView::Stdout(
            time,
            text,
        ),
        ({
            let over = hub.next(input::EventView::Closed);
            &&& !over.online
            &&& over.fed == hub.fed
            &&& over.last_stream_time == hub.last_stream_time
            &&& over.size == hub.size
            &&& over.default_size == hub.default_size
        }),
        hub.broadcast(input::EventView::Closed) == client::EventView::Offline,
{
    assert(hub.fed.push(text).drop_last() =~= hub.fed);
}

/// The time since the last output counts anew from a reset and from output, not from an end.
pub proof fn law_clock(size: Option<(usize, usize)>, time: Seconds, text: Seq<char>)
    ensures
        restarts_clock(input::EventView::Reset(size)),
        restarts_clock(input::EventView::Stdout(time, text)),
        !restarts_clock(input::EventView::Closed),
{
}

/// Events are taken one by one, in order.
pub proof fn law_one_by_one(hub: HubView, events: Seq<input::EventView>, event: input::EventView)
    ensures
        hub.after(Seq::empty()) == hub,
        hub.after(events.push(event)) == hub.after(events).next(event),
{
    assert(events.push(event).drop_last() =~= events);
}

/// What a client that joins is told reaches its viewer whole: of a running stream the size, the
/// time and the text that paints what the screen has been fed, else that there is none.
pub proof fn law_welcome_in_stream(hub: HubView, stream_time: Seconds)
    ensures
        hub.online ==> stream_event(hub.welcome(stream_time)) == Some(
            StreamEventView::Reset(
                hub.size,
                stream_time,
                Some(dump_text(hub.size.0, hub.size.1, hub.fed)),
            ),
        ),
        !hub.online ==> stream_event(hub.welcome(stream_time)) == Some(StreamEventView::Offline),
{
}

/// What the clients are told of the input reaches their viewers whole.
pub proof fn law_broadcast_in_stream(
    hub: HubView,
    cols: usize,
    rows: usize,
    time: Seconds,
    text: Seq<char>,
)
    ensures
        stream_event(hub.broadcast(input::EventView::Reset(Some((cols, rows))))) == Some(
            StreamEventView::Reset((cols, rows), Seconds { bits: 0 }, None),
        ),
        stream_event(hub.broadcast(input::EventView::Reset(None))) == Some(
            StreamEventView::Reset(hub.default_size, Seconds { bits: 0 }, None),
        ),
        stream_event(hub.broadcast(input::EventView::Stdout(time, text))) == Some(
            StreamEventView::Stdout(time, text),
        ),
        stream_event(hub.broadcast(input::EventView::Closed)) == Some(StreamEventView::Offline),
{
}

/// The output among events is what their output events carry, in order.
pub proof fn law_output_of(events: Seq<input::EventView>, time: Seconds, text: Seq<char>)
    ensures
        output_of(Seq::empty()).len() == 0,
        output_of(events.push(input::EventView::Stdout(time, text))) == output_of(events).push(
            text,
        ),
        output_of(events.push(input::EventView::Closed)) == output_of(events),
        forall|size: Option<(usize, usize)>|
            output_of(#[trigger] events.push(input::EventView::Reset(size))) == output_of(events),
{
    assert(events.push(input::EventView::Stdout(time, text)).drop_last() =~= events);
    assert(events.push(input::EventView::Closed).drop_last() =~= events);
    assert forall|size: Option<(usize, usize)>| output_of(
        #[trigger] events.push(input::EventView::Reset(size)),
    ) == output_of(events) by {
        assert(events.push(input::EventView::Reset(size)).drop_last() =~= events);
    }
}

} // verus!
