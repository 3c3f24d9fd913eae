use ssh_agent_notify::frame::{encode_record, read_record};
use ssh_agent_notify::Error;

#[test]
fn frames_request_identities() {
    assert_eq!(encode_record(&[0x0b]), vec![0, 0, 0, 1, 0x0b]);
}

#[test]
fn frames_empty_payload() {
    assert_eq!(encode_record(&[]), vec![0, 0, 0, 0]);
}

#[test]
fn write_then_read_yields_the_record() {
    let payload = [0x0d, 1, 2, 3];
    let mut stream = encode_record(&payload);
    let framed = stream.clone();
    stream.extend_from_slice(&[9, 9, 9]);
    let (rec, used) = read_record(&stream).unwrap();
    assert_eq!(rec, framed);
    assert_eq!(used, framed.len());
    let (rec2, used2) = read_record(&rec).unwrap();
    assert_eq!(rec2, framed);
    assert_eq!(used2, framed.len());
}

#[test]
fn short_header_is_an_error() {
    assert_eq!(read_record(&[0, 0, 0]).unwrap_err(), Error::InsufficientData);
}

#[test]
fn short_payload_is_an_error() {
    assert_eq!(
        read_record(&[0, 0, 0, 5, 1, 2]).unwrap_err(),
        Error::InsufficientData
    );
}
