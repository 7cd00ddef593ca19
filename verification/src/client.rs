//! What a client of the stream is sent.

use crate::stream::clone_text;
use crate::stream::text_of;
use crate::stream::Seconds;
use crate::terminal::dump_text;
use crate::terminal::fed;
use crate::terminal::made_with;
use vstd::prelude::*;

verus! {

/// An event for the clients.
#[derive(Debug, PartialEq, Eq)]
pub enum Event {
    /// A stream starts or is joined: the terminal size (columns, rows), the stream time, and
    /// the text that paints the screen as it is.
    Reset((usize, usize), Seconds, Option<String>),
    /// Output at a time.
    Stdout(Seconds, String),
    /// A new terminal size at a time.
    Resize(Seconds, usize, usize),
    /// The stream is over.
    Offline,
}

/// An event with its text as characters.
pub enum EventView {
    Reset((usize, usize), Seconds, Option<Seq<char>>),
    Stdout(Seconds, Seq<char>),
    Resize(Seconds, usize, usize),
    Offline,
}

impl View for Event {
    type V = EventView;

    open spec fn view(&self) -> EventView {
        match *self {
            Event::Reset(size, time, init) => EventView::Reset(size, time, text_of(init)),
            Event::Stdout(time, text) => EventView::Stdout(time, text@),
            Event::Resize(time, cols, rows) => EventView::Resize(time, cols, rows),
            Event::Offline => EventView::Offline,
        }
    }
}

impl Clone for Event {
    fn clone(&self) -> (copy: Self)
        ensures
            copy@ == self@,
    {
        match self {
            Event::Reset((cols, rows), time, init) => Event::Reset(
                (*cols, *rows),
                *time,
                clone_text(init),
            ),
            Event::Stdout(time, text) => Event::Stdout(*time, text.clone()),
            Event::Resize(time, cols, rows) => Event::Resize(*time, *cols, *rows),
            Event::Offline => Event::Offline,
        }
    }
}

/// The stream as a client finds it.
#[derive(Debug)]
pub struct ClientInitResponse {
    pub online: bool,
    pub stream_time: Seconds,
    pub cols: usize,
    pub rows: usize,
    pub init: String,
}

impl ClientInitResponse {
    /// The stream with the screen that `vt` shows.
    pub fn new(online: bool, stream_time: Seconds, vt: &avt::Vt) -> (response: Self)
        requires
            made_with(*vt) is Some,
        ensures
            response.online == online,
            response.stream_time == stream_time,
            made_with(*vt) == Some((response.cols, response.rows)),
            response.init@ == dump_text(response.cols, response.rows, fed(*vt)),
    {
        let (cols, rows) = vt.size();
        ClientInitResponse { online, stream_time, cols, rows, init: vt.dump() }
    }

    /// The first event of the client.
    pub open spec fn first_event(&self) -> EventView {
        if self.online {
            EventView::Reset((self.cols, self.rows), self.stream_time, Some(self.init@))
        } else {
            EventView::Offline
        }
    }
}

/// The first event of a client: the stream as it is, or that there is none.
pub fn init_event(response: ClientInitResponse) -> (event: Event)
    ensures
        event@ == response.first_event(),
{
    if response.online {
        Event::Reset(
            (response.cols, response.rows),
            response.stream_time,
            Some(response.init),
        )
    } else {
        Event::Offline
    }
}

/// What is passed on of what is received: everything before the first failure.
pub open spec fn relayed(received: Seq<Option<EventView>>) -> Seq<EventView>
    decreases received.len(),
{
    if received.len() == 0 || received[0] is None {
        Seq::empty()
    } else {
        seq![received[0]->0] + relayed(received.drop_first())
    }
}

/// The view of what was received or is passed on.
pub open spec fn view_of(event: Option<Event>) -> Option<EventView> {
    match event {
        Some(event) => Some(event@),
        None => None,
    }
}

/// What is passed on of one thing received.
pub open spec fn passes(ended: bool, received: Option<EventView>) -> Option<EventView> {
    if ended {
        None
    } else {
        received
    }
}

/// The events of one client after the first: those received until one is missed.
pub struct Subscription {
    ended: bool,
}

impl Subscription {
    /// Whether an event has been missed.
    pub closed spec fn ended(&self) -> bool {
        self.ended
    }

    /// A new subscription.
    pub fn new() -> (subscription: Self)
        ensures
            !subscription.ended(),
    {
        Subscription { ended: false }
    }

    /// Takes what was received, `None` where events were missed, and gives what is passed on.
    pub fn relay(&mut self, received: Option<Event>) -> (passed: Option<Event>)
        ensures
            final(self).ended() == (old(self).ended() || received is None),
            passed == if old(self).ended() {
                None
            } else {
                received
            },
            view_of(passed) == passes(old(self).ended(), view_of(received)),
    {
        if received.is_none() {
            self.ended = true;
        }
        if self.ended {
            None
        } else {
            received
        }
    }
}

/// Events that are passed on one by one, from a subscription that has `ended` or has not.
pub open spec fn relayed_from(ended: bool, received: Seq<Option<EventView>>) -> Seq<EventView>
    decreases received.len(),
{
    if received.len() == 0 {
        Seq::empty()
    } else {
        let later = relayed_from(ended || received[0] is None, received.drop_first());
        match passes(ended, received[0]) {
            None => later,
            Some(event) => seq![event] + later,
        }
    }
}

/// A new subscription passes on exactly what comes before the first failure, and one that has
/// ended passes on nothing more.
pub proof fn law_relay(received: Seq<Option<EventView>>)
    ensures
        relayed_from(false, received) == relayed(received),
        relayed_from(true, received) == Seq::<EventView>::empty(),
    decreases received.len(),
{
    if received.len() > 0 {
        law_relay(received.drop_first());
    }
}

/// An event and its view tell the same.
pub proof fn law_view_tells_event(
    size: (usize, usize),
    time: Seconds,
    init: String,
    text: String,
    cols: usize,
    rows: usize,
)
    ensures
        Event::Reset(size, time, Some(init))@ == EventView::Reset(size, time, Some(init@)),
        Event::Reset(size, time, None)@ == EventView::Reset(size, time, None),
        Event::Stdout(time, text)@ == EventView::Stdout(time, text@),
        Event::Resize(time, cols, rows)@ == EventView::Resize(time, cols, rows),
        Event::Offline@ == EventView::Offline,
        view_of(None) is None,
        forall|event: Event| #[trigger] view_of(Some(event)) == Some(event@),
{
}

/// The first event of a client carries the stream as it was found: its size, its time and its
/// whole text if it runs, and nothing but its end if it does not.
pub proof fn law_first_event(response: ClientInitResponse)
    ensures
        response.online ==> response.first_event() == EventView::Reset(
            (response.cols, response.rows),
            response.stream_time,
            Some(response.init@),
        ),
        !response.online ==> response.first_event() == EventView::Offline,
{
}

/// Where the first `n` things received are events and the next is a miss or there is none, a
/// new subscription passes on those `n` events, unchanged and in order, and nothing else.
pub proof fn law_relay_up_to_miss(received: Seq<Option<EventView>>, n: int)
    requires
        0 <= n <= received.len(),
        forall|i: int| 0 <= i < n ==> #[trigger] received[i] is Some,
        n < received.len() ==> received[n] is None,
    ensures
        relayed_from(false, received).len() == n,
        forall|i: int| 0 <= i < n ==> received[i] == Some(#[trigger] relayed_from(false, received)[i]),
    decreases received.len(),
{
    law_relay(received);
    if n > 0 {
        let later = received.drop_first();
        assert forall|i: int| 0 <= i < n - 1 implies #[trigger] later[i] is Some by {
            assert(received[i + 1] is Some);
        }
        assert(received[0] is Some);
        law_relay_up_to_miss(later, n - 1);
        assert forall|i: int| 0 <= i < n implies received[i] == Some(
            #[trigger] relayed_from(false, received)[i],
        ) by {
            if i > 0 {
                assert(relayed_from(false, received)[i] == relayed_from(false, later)[i - 1]);
                assert(received[i] == later[i - 1]);
            }
        }
    } else if received.len() > 0 {
        law_relay(received.drop_first());
    }
}

} // verus!
