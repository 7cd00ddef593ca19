use tst::alis::Encoder;
use tst::client;
use tst::client::init_event;
use tst::client::ClientInitResponse;
use tst::client::Subscription;
use tst::sse;
use tst::sse::Payload;
use tst::sse::Scalar;
use tst::Seconds;
use tst::StreamEvent;

fn seconds(time: f32) -> Seconds {
    Seconds { bits: time.to_bits() }
}

#[test]
fn header_opens_stream() {
    assert_eq!(Encoder::new().header(), b"ALiS\x01\x00\x00\x00\x00\x00".to_vec());
    assert_eq!(Encoder::default().header().len(), 10);
}

#[test]
fn reset_message() {
    let mut encoder = Encoder::new();
    let event = StreamEvent::Reset((80, 24), seconds(1.5), Some("h\u{e9}".to_owned()));
    let mut expected = vec![0x01, 80, 0, 24, 0];
    expected.extend_from_slice(&1.5f32.to_le_bytes());
    expected.extend_from_slice(&[3, 0, 0, 0, b'h', 0xc3, 0xa9]);
    assert_eq!(encoder.encode(event), expected);
}

#[test]
fn reset_without_text_is_reset_with_empty_text() {
    let mut encoder = Encoder::new();
    let without = encoder.encode(StreamEvent::Reset((300, 2), seconds(0.0), None));
    let empty = encoder.encode(StreamEvent::Reset((300, 2), seconds(0.0), Some(String::new())));
    assert_eq!(without, vec![0x01, 0x2c, 0x01, 2, 0, 0, 0, 0, 0, 0, 0, 0, 0]);
    assert_eq!(without, empty);
}

#[test]
fn reset_size_keeps_sixteen_bits() {
    let mut encoder = Encoder::new();
    let message = encoder.encode(StreamEvent::Reset((0x12345, 0x10000), seconds(0.0), None));
    assert_eq!(message[1..5], [0x45, 0x23, 0, 0]);
}

#[test]
fn stdout_message() {
    let mut encoder = Encoder::new();
    let mut expected = vec![b'o'];
    expected.extend_from_slice(&0.1f32.to_le_bytes());
    expected.extend_from_slice(&[2, 0, 0, 0, b'h', b'i']);
    assert_eq!(encoder.encode(StreamEvent::Stdout(seconds(0.1), "hi".to_owned())), expected);
}

#[test]
fn offline_message() {
    assert_eq!(Encoder::new().encode(StreamEvent::Offline), vec![0x04]);
}

#[test]
fn long_text_has_its_length_in_four_bytes() {
    let text = "x".repeat(0x1_0203);
    let message = Encoder::new().encode(StreamEvent::Stdout(seconds(2.0), text));
    assert_eq!(message[5..9], [0x03, 0x02, 0x01, 0x00]);
    assert_eq!(message.len(), 9 + 0x1_0203);
}

/// The message at the front and what follows it.
fn read_message(bytes: &[u8]) -> (StreamEvent, &[u8]) {
    fn text(bytes: &[u8]) -> (String, &[u8]) {
        let len = u32::from_le_bytes([bytes[0], bytes[1], bytes[2], bytes[3]]) as usize;
        (String::from_utf8(bytes[4..4 + len].to_vec()).unwrap(), &bytes[4 + len..])
    }
    fn time(bytes: &[u8]) -> Seconds {
        Seconds { bits: u32::from_le_bytes([bytes[0], bytes[1], bytes[2], bytes[3]]) }
    }
    match bytes[0] {
        0x01 => {
            let cols = u16::from_le_bytes([bytes[1], bytes[2]]) as usize;
            let rows = u16::from_le_bytes([bytes[3], bytes[4]]) as usize;
            let (init, rest) = text(&bytes[9..]);
            (StreamEvent::Reset((cols, rows), time(&bytes[5..]), Some(init)), rest)
        }
        b'o' => {
            let (data, rest) = text(&bytes[5..]);
            (StreamEvent::Stdout(time(&bytes[1..]), data), rest)
        }
        0x04 => (StreamEvent::Offline, &bytes[1..]),
        _ => panic!("no message"),
    }
}

#[test]
fn stream_of_messages_reads_back() {
    let events = vec![
        StreamEvent::Reset((80, 24), seconds(0.0), Some("\u{1b}[m".to_owned())),
        StreamEvent::Stdout(seconds(0.25), "\u{1f600}".to_owned()),
        StreamEvent::Stdout(seconds(3.75), String::new()),
        StreamEvent::Offline,
    ];
    let mut encoder = Encoder::new();
    let mut bytes = Vec::new();
    for event in &events {
        bytes.extend(encoder.encode(event.clone()));
    }
    let mut rest = &bytes[..];
    for event in events {
        let (read, later) = read_message(rest);
        assert_eq!(read, event);
        rest = later;
    }
    assert!(rest.is_empty());
}

#[test]
fn resize_has_no_form_in_stream() {
    assert_eq!(StreamEvent::of(client::Event::Resize(seconds(1.0), 80, 24)), None);
    assert_eq!(StreamEvent::of(client::Event::Offline), Some(StreamEvent::Offline));
    assert_eq!(
        StreamEvent::of(client::Event::Stdout(seconds(1.0), "a".to_owned())),
        Some(StreamEvent::Stdout(seconds(1.0), "a".to_owned()))
    );
    assert_eq!(
        StreamEvent::of(client::Event::Reset((8, 2), seconds(1.0), None)),
        Some(StreamEvent::Reset((8, 2), seconds(1.0), None))
    );
}

#[test]
fn first_event_tells_stream_or_none() {
    let mut vt = avt::Vt::new(10, 2);
    vt.feed_str("hello");
    let response = ClientInitResponse::new(true, seconds(4.5), &vt);
    assert_eq!((response.cols, response.rows), (10, 2));
    let init = response.init.clone();
    assert!(init.contains("hello"));
    assert_eq!(init_event(response), client::Event::Reset((10, 2), seconds(4.5), Some(init)));

    let response = ClientInitResponse::new(false, seconds(4.5), &vt);
    assert_eq!(init_event(response), client::Event::Offline);
}

#[test]
fn subscription_ends_at_first_miss() {
    let mut subscription = Subscription::new();
    let received = vec![
        Some(client::Event::Stdout(seconds(1.0), "a".to_owned())),
        Some(client::Event::Resize(seconds(2.0), 5, 6)),
        None,
        Some(client::Event::Offline),
    ];
    let mut passed = Vec::new();
    for event in received {
        passed.push(subscription.relay(event));
    }
    assert_eq!(
        passed,
        vec![
            Some(client::Event::Stdout(seconds(1.0), "a".to_owned())),
            Some(client::Event::Resize(seconds(2.0), 5, 6)),
            None,
            None,
        ]
    );
}

#[test]
fn clones_are_equal() {
    let event = client::Event::Reset((1, 2), seconds(3.0), Some("x".to_owned()));
    assert_eq!(event.clone(), event);
    let event = client::Event::Resize(seconds(3.0), 4, 5);
    assert_eq!(event.clone(), event);
    let event = StreamEvent::Reset((1, 2), seconds(3.0), None);
    assert_eq!(event.clone(), event);
    assert_eq!(Seconds::zero(), seconds(0.0));
}

#[test]
fn payload_of_reset() {
    match sse::payload(StreamEvent::Reset((80, 24), seconds(1.5), Some("x".to_owned()))) {
        Payload::Object(fields) => {
            assert_eq!(fields.len(), 4);
            assert!(matches!(fields[0], ("cols", Scalar::Count(80))));
            assert!(matches!(fields[1], ("rows", Scalar::Count(24))));
            assert!(matches!(fields[2], ("time", Scalar::Time(time)) if time == seconds(1.5)));
            assert!(matches!(&fields[3], ("init", Scalar::Text(text)) if text == "x"));
        }
        Payload::Array(_) => panic!("not an object"),
    }
    match sse::payload(StreamEvent::Reset((1, 1), seconds(0.0), None)) {
        Payload::Object(fields) => assert!(matches!(fields[3], ("init", Scalar::Null))),
        Payload::Array(_) => panic!("not an object"),
    }
}

#[test]
fn payload_of_output_and_end() {
    match sse::payload(StreamEvent::Stdout(seconds(0.5), "y".to_owned())) {
        Payload::Array(items) => {
            assert_eq!(items.len(), 3);
            assert!(matches!(items[0], Scalar::Time(time) if time == seconds(0.5)));
            assert!(matches!(&items[1], Scalar::Text(text) if text == "o"));
            assert!(matches!(&items[2], Scalar::Text(text) if text == "y"));
        }
        Payload::Object(_) => panic!("not an array"),
    }
    match sse::payload(StreamEvent::Offline) {
        Payload::Object(fields) => {
            assert_eq!(fields.len(), 1);
            assert!(matches!(&fields[0], ("status", Scalar::Text(text)) if text == "offline"));
        }
        Payload::Array(_) => panic!("not an object"),
    }
}
