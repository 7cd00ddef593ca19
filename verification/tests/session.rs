use tst::asciicast::LineKind;
use tst::asciicast::LineReader;
use tst::cli;
use tst::client;
use tst::client::init_event;
use tst::hub::Hub;
use tst::input;
use tst::input::Format;
use tst::input::Header;
use tst::input::ReadStep;
use tst::input::Reading;
use tst::raw;
use tst::raw::NotANumber;
use tst::raw::RawReader;
use tst::raw::RawStep;
use tst::terminal::can_make_terminal;
use tst::Seconds;
use tst::StreamEvent;

fn seconds(time: f32) -> Seconds {
    Seconds { bits: time.to_bits() }
}

fn output(time: f32, text: &str) -> input::Event {
    input::Event::Stdout(seconds(time), text.to_owned())
}

#[test]
fn hub_tells_clients_of_input() {
    let mut hub = Hub::new(80, 24);

    let update = hub.handle_input(&input::Event::Reset(Some((10, 3))));
    assert_eq!(update.broadcast, client::Event::Reset((10, 3), seconds(0.0), None));
    assert!(update.restarts_clock);

    let update = hub.handle_input(&output(1.5, "abc"));
    assert_eq!(update.broadcast, client::Event::Stdout(seconds(1.5), "abc".to_owned()));
    assert!(update.restarts_clock);
    assert_eq!(hub.last_stream_time(), seconds(1.5));

    let update = hub.handle_input(&input::Event::Closed);
    assert_eq!(update.broadcast, client::Event::Offline);
    assert!(!update.restarts_clock);
    assert_eq!(hub.last_stream_time(), seconds(1.5));

    let update = hub.handle_input(&input::Event::Reset(None));
    assert_eq!(update.broadcast, client::Event::Reset((80, 24), seconds(0.0), None));
    assert_eq!(hub.last_stream_time(), seconds(0.0));
}

#[test]
fn input_events_can_be_cloned() {
    for event in [
        input::Event::Reset(Some((3, 4))),
        input::Event::Reset(None),
        output(1.25, "x"),
        input::Event::Closed,
    ] {
        assert_eq!(event.clone(), event);
    }
}

#[test]
fn hub_is_online_from_reset_to_close() {
    let mut hub = Hub::new(80, 24);
    assert!(!hub.client_init(seconds(0.0)).online);
    hub.handle_input(&output(0.5, "x"));
    assert!(!hub.client_init(seconds(0.0)).online);
    hub.handle_input(&input::Event::Reset(None));
    assert!(hub.client_init(seconds(0.0)).online);
    hub.handle_input(&output(0.5, "x"));
    assert!(hub.client_init(seconds(0.0)).online);
    hub.handle_input(&input::Event::Closed);
    assert!(!hub.client_init(seconds(0.0)).online);
    assert_eq!(init_event(hub.client_init(seconds(0.0))), client::Event::Offline);
}

#[test]
fn late_client_is_painted_output_since_reset() {
    let mut hub = Hub::new(80, 24);
    hub.handle_input(&input::Event::Reset(Some((20, 4))));
    hub.handle_input(&output(0.5, "gone"));
    hub.handle_input(&input::Event::Reset(Some((12, 2))));
    hub.handle_input(&output(0.5, "he"));
    hub.handle_input(&output(0.7, "llo"));

    let mut screen = avt::Vt::new(12, 2);
    screen.feed_str("he");
    screen.feed_str("llo");

    let event = init_event(hub.client_init(seconds(2.0)));
    assert_eq!(event, client::Event::Reset((12, 2), seconds(2.0), Some(screen.dump())));
    assert!(StreamEvent::of(event).is_some());
}

#[test]
fn dump_paints_the_same_screen() {
    let mut hub = Hub::new(12, 2);
    hub.handle_input(&input::Event::Reset(None));
    hub.handle_input(&output(0.5, "\u{1b}[1mbold\r\nplain"));
    let init = hub.client_init(seconds(1.0)).init;
    let mut screen = avt::Vt::new(12, 2);
    screen.feed_str(&init);
    assert_eq!(screen.text(), vec!["bold", "plain"]);
}

#[test]
fn terminal_needs_cells() {
    assert!(can_make_terminal(1, 1));
    assert!(can_make_terminal(80, 24));
    assert!(!can_make_terminal(0, 24));
    assert!(!can_make_terminal(80, 0));
    assert!(!can_make_terminal(usize::MAX, 24));
    assert!(!can_make_terminal(80, usize::MAX));
}

#[test]
fn file_is_read_over() {
    let mut reading = Reading::new(&Some("live.pipe".to_owned()), Format::Raw);
    for _ in 0..2 {
        assert_eq!(reading.step(), ReadStep::Open);
        reading.done();
        assert_eq!(reading.step(), ReadStep::Read(Format::Raw));
        reading.done();
        assert_eq!(reading.step(), ReadStep::Close);
        reading.done();
    }
    assert_eq!(reading.step(), ReadStep::Open);
}

#[test]
fn standard_input_is_read_once() {
    let mut reading = Reading::new(&None, Format::Asciicast);
    let mut steps = Vec::new();
    for _ in 0..5 {
        steps.push(reading.step());
        reading.done();
    }
    assert_eq!(
        steps,
        vec![
            ReadStep::Open,
            ReadStep::Read(Format::Asciicast),
            ReadStep::Close,
            ReadStep::Stop,
            ReadStep::Stop,
        ]
    );
}

#[test]
fn recording_starts_with_header() {
    let mut reader = LineReader::new();
    assert_eq!(reader.kind("[0.5, \"o\", \"x\"]"), LineKind::Invalid);
    assert_eq!(reader.kind(""), LineKind::Invalid);
    assert_eq!(reader.kind(" {}"), LineKind::Invalid);
    assert_eq!(reader.kind("{\"version\": 2}"), LineKind::Header);
    assert_eq!(
        reader.header(Header { width: 80, height: 24 }),
        input::Event::Reset(Some((80, 24)))
    );
    assert_eq!(reader.kind("[0.5, \"o\", \"x\"]"), LineKind::Event);
    assert_eq!(reader.kind("{\"version\": 2}"), LineKind::Header);
    assert_eq!(reader.kind(""), LineKind::Invalid);
    assert_eq!(reader.kind("\u{e9}"), LineKind::Invalid);
}

#[test]
fn only_output_is_passed_on() {
    let mut reader = LineReader::new();
    reader.header(Header { width: 80, height: 24 });
    assert_eq!(reader.event(seconds(0.5), "o", "x".to_owned()), Some(output(0.5, "x")));
    assert_eq!(reader.event(seconds(0.5), "i", "x".to_owned()), None);
    assert_eq!(reader.event(seconds(0.5), "", "x".to_owned()), None);
    assert_eq!(reader.event(seconds(0.5), "oo", "x".to_owned()), None);
}

#[test]
fn size_of_script_header() {
    let text = "Script started on 2023-01-01 [TERM=\"xterm\" TTY=\"/dev/pts/0\" COLUMNS=\"132\" LINES=\"43\"]\n$ ";
    assert_eq!(raw::detect_size(text), Ok(Some((132, 43))));
}

#[test]
fn size_of_resize_sequence() {
    assert_eq!(raw::detect_size("\u{1b}[8;43;132tabc"), Ok(Some((132, 43))));
    assert_eq!(raw::detect_size("abc\u{1b}[8;1;2t\u{1b}[8;3;4t"), Ok(Some((2, 1))));
}

#[test]
fn script_header_goes_before_resize_sequence() {
    let text = "\u{1b}[8;1;2t [COLUMNS=\"80\" LINES=\"24\"]";
    assert_eq!(raw::detect_size(text), Ok(Some((80, 24))));
}

#[test]
fn size_may_be_unknown() {
    assert_eq!(raw::detect_size(""), Ok(None));
    assert_eq!(raw::detect_size("$ ls"), Ok(None));
    assert_eq!(raw::detect_size("\u{1b}[8;1000;80t"), Ok(None));
    assert_eq!(raw::detect_size("[COLUMNS=\"80\" LINES=\"\"]"), Ok(None));
}

#[test]
fn size_in_other_digits_is_not_a_number() {
    assert_eq!(raw::detect_size("\u{1b}[8;\u{663};\u{664}t"), Err(NotANumber {}));
}

#[test]
fn captured_groups_give_size() {
    let pair = |a: &str, b: &str| Some((a.to_owned(), b.to_owned()));
    assert_eq!(raw::captured_size(pair("100", "30"), pair("1", "2")), Ok(Some((100, 30))));
    assert_eq!(raw::captured_size(None, pair("30", "100")), Ok(Some((100, 30))));
    assert_eq!(raw::captured_size(None, None), Ok(None));
    assert_eq!(raw::captured_size(pair("x", "30"), None), Err(NotANumber {}));
    assert_eq!(raw::captured_size(None, pair("30", "")), Err(NotANumber {}));
}

#[test]
fn parse_number_is_std_parse() {
    for text in [
        "0",
        "7",
        "042",
        "999",
        "+5",
        "+",
        "",
        "-1",
        "1a",
        " 1",
        "1 ",
        "++1",
        "\u{663}",
        "18446744073709551615",
        "18446744073709551616",
        "00000000000000000000000000001",
        "99999999999999999999999x",
    ] {
        assert_eq!(raw::parse_number(text), text.parse::<usize>().ok(), "{text}");
    }
}

#[test]
fn raw_session_starts_with_first_read() {
    let mut reader = RawReader::new();
    match reader.take(Some(&b"\x1b[8;5;9thi"[..])) {
        Ok(RawStep::Start(size, text)) => {
            assert_eq!(size, Some((9, 5)));
            assert_eq!(text, "\u{1b}[8;5;9thi");
        }
        _ => panic!("no start"),
    }
    match reader.take(Some(&[b'a', 0xff, b'b'][..])) {
        Ok(RawStep::Output(text)) => assert_eq!(text, "a\u{fffd}b"),
        _ => panic!("no output"),
    }
    match reader.take(Some(&"\u{e9}\u{1b}[8;1;1t".as_bytes()[..])) {
        Ok(RawStep::Output(text)) => assert_eq!(text, "\u{e9}\u{1b}[8;1;1t"),
        _ => panic!("no output"),
    }
    assert!(matches!(reader.take(Some(&[][..])), Ok(RawStep::End)));
}

#[test]
fn raw_session_of_nothing_starts_all_the_same() {
    let mut reader = RawReader::new();
    match reader.take(Some(&[][..])) {
        Ok(RawStep::Start(size, text)) => {
            assert_eq!(size, None);
            assert_eq!(text, "");
        }
        _ => panic!("no start"),
    }
    assert!(matches!(reader.take(None), Ok(RawStep::End)));
}

#[test]
fn raw_session_outlives_failure_of_first_read() {
    let mut reader = RawReader::new();
    assert!(matches!(reader.take(None), Ok(RawStep::Again)));
    match reader.take(Some(&b"x"[..])) {
        Ok(RawStep::Output(text)) => assert_eq!(text, "x"),
        _ => panic!("no output"),
    }
}

#[test]
fn raw_session_with_other_digits_is_refused() {
    let mut reader = RawReader::new();
    let text = "\u{1b}[8;\u{663};\u{664}t";
    assert!(matches!(reader.take(Some(text.as_bytes())), Err(NotANumber {})));
}

#[test]
fn forward_url_is_websocket_url() {
    assert_eq!(cli::validate_forward_url("ws://localhost:8080/ws"), Ok(()));
    assert_eq!(cli::validate_forward_url("wss://asciinema.org/ws/S/x"), Ok(()));
    assert_eq!(cli::validate_forward_url("WSS://asciinema.org"), Ok(()));
    assert_eq!(
        cli::validate_forward_url("https://asciinema.org"),
        Err("must be WebSocket URL (ws:// or wss://)".to_owned())
    );
    assert_eq!(
        cli::validate_forward_url("asciinema.org"),
        Err("relative URL without a base".to_owned())
    );
    assert_eq!(cli::validate_forward_url("ws://"), Err("empty host".to_owned()));
}

#[test]
fn judged_forward_url() {
    assert_eq!(cli::judge_forward_url(Ok("ws".to_owned())), Ok(()));
    assert_eq!(cli::judge_forward_url(Ok("wss".to_owned())), Ok(()));
    assert_eq!(
        cli::judge_forward_url(Ok("w".to_owned())),
        Err("must be WebSocket URL (ws:// or wss://)".to_owned())
    );
    assert_eq!(cli::judge_forward_url(Err("x".to_owned())), Err("x".to_owned()));
}

#[test]
fn log_levels() {
    for verbose in [false, true] {
        assert_eq!(cli::log_level(false, false, true, verbose), "off");
    }
    for (file, stdin, stderr) in [
        (true, false, true),
        (false, true, true),
        (false, false, false),
        (true, true, false),
    ] {
        assert_eq!(cli::log_level(file, stdin, stderr, false), "info");
        assert_eq!(cli::log_level(file, stdin, stderr, true), "debug");
    }
}

#[test]
fn default_sizes() {
    assert_eq!(cli::default_size(None, None, None), (80, 24));
    assert_eq!(cli::default_size(None, None, Some((100, 40))), (100, 40));
    assert_eq!(cli::default_size(Some(7), None, Some((100, 40))), (7, 40));
    assert_eq!(cli::default_size(None, Some(9), None), (80, 9));
}
