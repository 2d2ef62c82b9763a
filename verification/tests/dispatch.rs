use confd_client::confd::send;
use confd_client::dispatch::{run, step, Action, LoopState};
use confd_client::json::decode;
use confd_client::{Error, IoFailure, JsonFailure};

fn stream_of(texts: &[&str]) -> Vec<u8> {
    let mut wire = Vec::new();
    for text in texts {
        send(&mut wire, text.to_string()).unwrap();
    }
    wire
}

fn parsed(text: &str) -> serde_json::Value {
    serde_json::from_str(text).unwrap()
}

fn delivered_values(stream: &[u8]) -> (Vec<serde_json::Value>, Error) {
    let outcome = run(stream);
    let values = outcome.delivered.into_iter().map(|message| message.into_value()).collect();
    (values, outcome.error)
}

#[test]
fn step_invokes_the_handler_for_an_object() {
    let (state, action) = step(LoopState::Reading, decode(b"{\"a\":1}"));
    assert_eq!(state, LoopState::Reading);
    match action {
        Action::Invoke(message) => assert_eq!(message.into_value(), parsed("{\"a\":1}")),
        other => panic!("unexpected action {:?}", other),
    }
}

#[test]
fn step_discards_what_is_not_an_object() {
    for text in ["42", "[1,2]", "null", "true", "\"text\"", "[{\"a\":1}]"] {
        let (state, action) = step(LoopState::Reading, decode(text.as_bytes()));
        assert_eq!(state, LoopState::Reading);
        assert_eq!(action, Action::Discard);
    }
}

#[test]
fn step_stops_on_any_error() {
    let errors = [
        Error::IOError(IoFailure::UnexpectedEof),
        Error::IOError(IoFailure::ConnectionReset),
        Error::IOError(IoFailure::Other),
        Error::JsonError(JsonFailure { line: 1, column: 2 }),
        Error::IntegerConversionError,
    ];
    for error in errors {
        let (state, action) = step(LoopState::Reading, Err(error));
        assert_eq!(state, LoopState::Terminated);
        assert_eq!(action, Action::Stop(error));
    }
}

#[test]
fn step_stays_terminated() {
    let (state, action) = step(LoopState::Terminated, decode(b"{\"a\":1}"));
    assert_eq!(state, LoopState::Terminated);
    assert_eq!(action, Action::Idle);
    let (state, action) = step(LoopState::Terminated, Err(Error::IOError(IoFailure::BrokenPipe)));
    assert_eq!(state, LoopState::Terminated);
    assert_eq!(action, Action::Idle);
}

#[test]
fn run_delivers_only_the_object() {
    let stream = stream_of(&["42", "[1,2]", "{\"a\":1}"]);
    let (delivered, error) = delivered_values(&stream);
    assert_eq!(delivered, vec![parsed("{\"a\":1}")]);
    assert_eq!(error, Error::IOError(IoFailure::UnexpectedEof));
}

#[test]
fn run_delivers_objects_in_order() {
    let stream = stream_of(&["{\"n\":1}", "7", "{\"n\":2}", "{}", "null", "{\"n\":3}"]);
    let (delivered, error) = delivered_values(&stream);
    assert_eq!(
        delivered,
        vec![parsed("{\"n\":1}"), parsed("{\"n\":2}"), parsed("{}"), parsed("{\"n\":3}")]
    );
    assert_eq!(error, Error::IOError(IoFailure::UnexpectedEof));
}

#[test]
fn run_on_a_connection_closed_at_once() {
    let (delivered, error) = delivered_values(&[]);
    assert!(delivered.is_empty());
    assert_eq!(error, Error::IOError(IoFailure::UnexpectedEof));
}

#[test]
fn run_ends_at_the_first_bad_payload() {
    let stream = stream_of(&["{\"n\":1}", "{oops", "{\"n\":2}"]);
    let (delivered, error) = delivered_values(&stream);
    assert_eq!(delivered, vec![parsed("{\"n\":1}")]);
    assert_eq!(error, Error::JsonError(JsonFailure { line: 1, column: 2 }));
}

#[test]
fn run_ends_inside_a_frame_cut_short() {
    let mut stream = stream_of(&["{\"n\":1}", "{\"n\":2}"]);
    stream.truncate(stream.len() - 1);
    let (delivered, error) = delivered_values(&stream);
    assert_eq!(delivered, vec![parsed("{\"n\":1}")]);
    assert_eq!(error, Error::IOError(IoFailure::UnexpectedEof));

    let mut stream = stream_of(&["{\"n\":1}"]);
    stream.extend_from_slice(&[0, 0]);
    let (delivered, error) = delivered_values(&stream);
    assert_eq!(delivered, vec![parsed("{\"n\":1}")]);
    assert_eq!(error, Error::IOError(IoFailure::UnexpectedEof));
}

#[test]
fn run_agrees_with_stepping_by_hand() {
    let texts = ["1", "{\"a\":[1,2]}", "\"s\"", "{\"b\":{}}"];
    let mut by_hand = Vec::new();
    let mut state = LoopState::Reading;
    for text in texts {
        let (next, action) = step(state, decode(text.as_bytes()));
        state = next;
        if let Action::Invoke(message) = action {
            by_hand.push(message.into_value());
        }
    }
    let (next, action) = step(state, Err(Error::IOError(IoFailure::UnexpectedEof)));
    assert_eq!(next, LoopState::Terminated);
    assert_eq!(action, Action::Stop(Error::IOError(IoFailure::UnexpectedEof)));
    let (delivered, error) = delivered_values(&stream_of(&texts));
    assert_eq!(delivered, by_hand);
    assert_eq!(error, Error::IOError(IoFailure::UnexpectedEof));
}
