use easycom::transport::{MockTransport, Transport};

#[test]
fn mock_write_and_read() {
    let mut t = MockTransport::new();
    t.enqueue_response(b"AZ=090 EL=045\r".to_vec());

    t.write(b"C\r").unwrap();
    assert_eq!(&t.written, b"C\r");

    let mut buf = [0u8; 32];
    let n = t.read(&mut buf).unwrap();
    assert_eq!(&buf[..n], b"AZ=090 EL=045\r");
}

#[test]
fn mock_empty_read() {
    let mut t = MockTransport::new();
    let mut buf = [0u8; 8];
    let n = t.read(&mut buf).unwrap();
    assert_eq!(n, 0);
}
