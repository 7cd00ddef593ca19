//! Stream events as the JSON values that are sent by server-sent events.

use crate::stream::Seconds;
use crate::stream::StreamEvent;
use crate::stream::StreamEventView;
use vstd::prelude::*;

verus! {

/// A JSON value without parts.
#[derive(Debug)]
pub enum Scalar {
    Null,
    Count(usize),
    Time(Seconds),
    Text(String),
}

/// A JSON value with its text as characters.
pub enum ScalarView {
    Null,
    Count(usize),
    Time(Seconds),
    Text(Seq<char>),
}

impl View for Scalar {
    type V = ScalarView;

    open spec fn view(&self) -> ScalarView {
        match *self {
            Scalar::Null => ScalarView::Null,
            Scalar::Count(count) => ScalarView::Count(count),
            Scalar::Time(time) => ScalarView::Time(time),
            Scalar::Text(text) => ScalarView::Text(text@),
        }
    }
}

/// The JSON value of an event.
#[derive(Debug)]
pub enum Payload {
    /// An object, by its keys and their values.
    Object(Vec<(&'static str, Scalar)>),
    /// An array.
    Array(Vec<Scalar>),
}

/// A JSON value with its text as characters.
#[verifier::ext_equal]
pub enum PayloadView {
    Object(Seq<(Seq<char>, ScalarView)>),
    Array(Seq<ScalarView>),
}

impl View for Payload {
    type V = PayloadView;

    open spec fn view(&self) -> PayloadView {
        match *self {
            Payload::Object(fields) => PayloadView::Object(
                fields@.map_values(|field: (&'static str, Scalar)| (field.0@, field.1@)),
            ),
            Payload::Array(items) => PayloadView::Array(items@.map_values(|item: Scalar| item@)),
        }
    }
}

/// The JSON value of an event: of a reset the size, the time and the text, of output an array
/// as in a recording, of the end of a stream its status.
pub open spec fn payload_of(event: StreamEventView) -> PayloadView {
    match event {
        StreamEventView::Reset((cols, rows), time, init) => PayloadView::Object(
            seq![
                ("cols"@, ScalarView::Count(cols)),
                ("rows"@, ScalarView::Count(rows)),
                ("time"@, ScalarView::Time(time)),
                (
                    "init"@,
                    match init {
                        Some(text) => ScalarView::Text(text),
                        None => ScalarView::Null,
                    },
                ),
            ],
        ),
        StreamEventView::Stdout(time, text) => PayloadView::Array(
            seq![ScalarView::Time(time), ScalarView::Text("o"@), ScalarView::Text(text)],
        ),
        StreamEventView::Offline => PayloadView::Object(
            seq![("status"@, ScalarView::Text("offline"@))],
        ),
    }
}

/// The JSON value of an event.
pub fn payload(event: StreamEvent) -> (json: Payload)
    ensures
        json@ == payload_of(event@),
{
    match event {
        StreamEvent::Reset((cols, rows), time, init) => {
            let init: Scalar = match init {
                Some(text) => Scalar::Text(text),
                None => Scalar::Null,
            };
            let json: Payload = Payload::Object(
                vec![
                    ("cols", Scalar::Count(cols)),
                    ("rows", Scalar::Count(rows)),
                    ("time", Scalar::Time(time)),
                    ("init", init),
                ],
            );
            assert(json@ =~= payload_of(event@));
            json
        },
        StreamEvent::Stdout(time, text) => {
            let json: Payload = Payload::Array(
                vec![Scalar::Time(time), Scalar::Text("o".to_owned()), Scalar::Text(text)],
            );
            assert(json@ =~= payload_of(event@));
            json
        },
        StreamEvent::Offline => {
            let json: Payload = Payload::Object(
                vec![("status", Scalar::Text("offline".to_owned()))],
            );
            assert(json@ =~= payload_of(event@));
            json
        },
    }
}

/// The JSON value tells the event: no two events have the same.
pub proof fn law_payload_tells_event(left: StreamEventView, right: StreamEventView)
    requires
        payload_of(left) == payload_of(right),
    ensures
        left == right,
{
    match (left, right) {
        (StreamEventView::Reset(_, _, _), StreamEventView::Reset(_, _, _)) => {
            let l = payload_of(left)->Object_0;
            let r = payload_of(right)->Object_0;
            assert(l[0] == r[0] && l[1] == r[1] && l[2] == r[2] && l[3] == r[3]);
        },
        (StreamEventView::Stdout(_, _), StreamEventView::Stdout(_, _)) => {
            let l = payload_of(left)->Array_0;
            let r = payload_of(right)->Array_0;
            assert(l[0] == r[0] && l[2] == r[2]);
        },
        (StreamEventView::Reset(_, _, _), StreamEventView::Offline) => {
            assert(payload_of(left)->Object_0.len() != payload_of(right)->Object_0.len());
        },
        (StreamEventView::Offline, StreamEventView::Reset(_, _, _)) => {
            assert(payload_of(left)->Object_0.len() != payload_of(right)->Object_0.len());
        },
        _ => {},
    }
}

/// A value and its view tell the same.
pub proof fn law_view_tells_value(
    count: usize,
    time: Seconds,
    text: String,
    fields: Vec<(&'static str, Scalar)>,
    items: Vec<Scalar>,
)
    ensures
        Scalar::Null@ == ScalarView::Null,
        Scalar::Count(count)@ == ScalarView::Count(count),
        Scalar::Time(time)@ == ScalarView::Time(time),
        Scalar::Text(text)@ == ScalarView::Text(text@),
        Payload::Object(fields)@ matches PayloadView::Object(viewed) && viewed.len() == fields@.len()
            && forall|i: int|
            0 <= i < viewed.len() ==> #[trigger] viewed[i] == (fields@[i].0@, fields@[i].1@),
        Payload::Array(items)@ matches PayloadView::Array(viewed) && viewed.len() == items@.len()
            && forall|i: int| 0 <= i < viewed.len() ==> #[trigger] viewed[i] == items@[i]@,
{
}

/// Who looks up the four keys of a reset gets its columns, its rows, its time and its text, or
/// null where it has none. Each key stands once and there are no others.
pub proof fn law_reset_by_keys(
    cols: usize,
    rows: usize,
    time: Seconds,
    init: Option<Seq<char>>,
    i: int,
)
    ensures
        payload_of(StreamEventView::Reset((cols, rows), time, init)) is Object,
        ({
            let fields = payload_of(StreamEventView::Reset((cols, rows), time, init))->Object_0;
            &&& fields.len() == 4
            &&& fields.contains(("cols"@, ScalarView::Count(cols)))
            &&& fields.contains(("rows"@, ScalarView::Count(rows)))
            &&& fields.contains(("time"@, ScalarView::Time(time)))
            &&& init matches Some(text) ==> fields.contains(("init"@, ScalarView::Text(text)))
            &&& init is None ==> fields.contains(("init"@, ScalarView::Null))
            &&& 0 <= i < 4 ==> {
                &&& fields[i].0 == "cols"@ ==> fields[i].1 == ScalarView::Count(cols)
                &&& fields[i].0 == "rows"@ ==> fields[i].1 == ScalarView::Count(rows)
                &&& fields[i].0 == "time"@ ==> fields[i].1 == ScalarView::Time(time)
                &&& fields[i].0 == "init"@ ==> fields[i].1 == match init {
                    Some(text) => ScalarView::Text(text),
                    None => ScalarView::Null,
                }
            }
        }),
{
    reveal_strlit("cols");
    reveal_strlit("rows");
    reveal_strlit("time");
    reveal_strlit("init");
    let fields = payload_of(StreamEventView::Reset((cols, rows), time, init))->Object_0;
    assert("cols"@[0] == 'c' && "rows"@[0] == 'r' && "time"@[0] == 't' && "init"@[0] == 'i');
    assert(fields[0] == ("cols"@, ScalarView::Count(cols)));
    assert(fields[1] == ("rows"@, ScalarView::Count(rows)));
    assert(fields[2] == ("time"@, ScalarView::Time(time)));
    assert(fields[3].0 == "init"@);
    assert(fields.contains(fields[0]) && fields.contains(fields[1]) && fields.contains(fields[2])
        && fields.contains(fields[3]));
}

/// Output is an array of its time, the letter `o` and its text; the end of a stream is an
/// object whose one key tells that it is offline.
pub proof fn law_output_and_end(time: Seconds, text: Seq<char>)
    ensures
        payload_of(StreamEventView::Stdout(time, text)) matches PayloadView::Array(items)
            && items.len() == 3 && items[0] == ScalarView::Time(time) && items[1]
            == ScalarView::Text("o"@) && items[2] == ScalarView::Text(text),
        payload_of(StreamEventView::Offline) matches PayloadView::Object(fields) && fields.len() == 1
            && fields[0] == ("status"@, ScalarView::Text("offline"@)),
{
}

} // verus!
