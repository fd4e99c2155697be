use easycom::command::{Command, Response};
use easycom::error::Error;
use easycom::session::Session;
use easycom::transport::MockTransport;

#[test]
fn session_query_position() {
    let mut mock = MockTransport::new();
    mock.enqueue_response(b"AZ=180 EL=090\r".to_vec());

    let mut session = Session::new(mock);
    let resp = session.send(Command::QueryPosition).unwrap();
    assert_eq!(resp, Response::Position { az: 180, el: 90 });
}

#[test]
fn session_send_written_bytes() {
    let mut mock = MockTransport::new();
    mock.enqueue_response(b"+\r".to_vec());

    let mut session = Session::new(mock);
    session.send(Command::Azimuth(90)).unwrap();

    let transport = session.into_transport();
    assert_eq!(&transport.written, b"A090\r");
}

#[test]
fn session_device_error_response() {
    let mut mock = MockTransport::new();
    mock.enqueue_response(b"?\r".to_vec());

    let mut session = Session::new(mock);
    let resp = session.send(Command::Stop).unwrap();
    assert_eq!(resp, Response::Error);
}

#[test]
fn session_echo_suppression() {
    let mut mock = MockTransport::new();
    // Device echoes "C\r" before the real response.
    mock.enqueue_response(b"C\rAZ=045 EL=010\r".to_vec());

    let mut session = Session::new(mock);
    let resp = session.send(Command::QueryPosition).unwrap();
    assert_eq!(resp, Response::Position { az: 45, el: 10 });
}

#[test]
fn session_keep_alive() {
    let mut mock = MockTransport::new();
    mock.enqueue_response(b"+\r".to_vec());

    let mut session = Session::new(mock);
    let resp = session.send(Command::KeepAlive).unwrap();
    assert_eq!(resp, Response::Ack);

    let t = session.into_transport();
    assert_eq!(&t.written, b"?\r");
}

#[test]
fn session_timeout_on_empty_read() {
    let mock = MockTransport::new(); // no responses queued
    let mut session = Session::new(mock);
    let err = session.send(Command::QueryPosition).unwrap_err();
    assert!(matches!(err, Error::Timeout));
}
