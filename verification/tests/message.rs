use ssh_agent_notify::{Error, KeyBlob, Message, Mpint};

/// A wire `string`: a four-byte big-endian length, then the bytes.
fn string(content: &[u8]) -> Vec<u8> {
    let mut v = (content.len() as u32).to_be_bytes().to_vec();
    v.extend_from_slice(content);
    v
}

/// A framed agent record around a payload.
fn record(payload: &[u8]) -> Vec<u8> {
    string(payload)
}

fn ed25519_blob(key: &[u8]) -> Vec<u8> {
    let mut blob = string(b"ssh-ed25519");
    blob.extend_from_slice(&string(key));
    blob
}

fn rsa_blob(e: &[u8], n: &[u8]) -> Vec<u8> {
    let mut blob = string(b"ssh-rsa");
    blob.extend_from_slice(&string(e));
    blob.extend_from_slice(&string(n));
    blob
}

fn sign_request(blob: &[u8], data: &[u8], flags: u32) -> Vec<u8> {
    let mut payload = vec![13u8];
    payload.extend_from_slice(&string(blob));
    payload.extend_from_slice(&string(data));
    payload.extend_from_slice(&flags.to_be_bytes());
    record(&payload)
}

#[test]
fn request_identities_record() {
    // the whole record on the wire is 00 00 00 01 0b
    let rec = record(&[11]);
    assert_eq!(rec, vec![0, 0, 0, 1, 0x0b]);
    assert!(matches!(
        Message::decode(&rec).unwrap(),
        Message::RequestIdentities
    ));
}

#[test]
fn sign_request_ed25519() {
    let rec = sign_request(&ed25519_blob(&[0u8; 32]), b"", 0);
    // payload length: 1 + (4 + 51) + 4 + 4 = 64; key blob sits at bytes 9..60
    match Message::decode(&rec).unwrap() {
        Message::SignRequest { key, data, flags } => {
            assert_eq!(key, KeyBlob::Ed25519 { key: vec![0u8; 32] });
            assert_eq!(data, Vec::<u8>::new());
            assert_eq!(flags, 0);
        }
        other => panic!("wrong message: {:?}", other),
    }
}

#[test]
fn sign_request_rsa() {
    let rec = sign_request(&rsa_blob(&[0x01, 0x00, 0x01], &[0x09, 0xa3]), b"data", 2);
    match Message::decode(&rec).unwrap() {
        Message::SignRequest { key, data, flags } => {
            assert_eq!(
                key,
                KeyBlob::Rsa {
                    e: Mpint::from_i64(0x10001),
                    n: Mpint::from_i64(0x9a3),
                }
            );
            assert_eq!(data, b"data".to_vec());
            assert_eq!(flags, 2);
        }
        other => panic!("wrong message: {:?}", other),
    }
}

#[test]
fn identities_answer() {
    let mut payload = vec![12u8, 0, 0, 0, 2];
    payload.extend_from_slice(&string(&ed25519_blob(&[7u8; 32])));
    payload.extend_from_slice(&string(b"alice@host"));
    payload.extend_from_slice(&string(&rsa_blob(&[0x01, 0x00, 0x01], &[0x09, 0xa3])));
    payload.extend_from_slice(&string(b"bob@host"));
    match Message::decode(&record(&payload)).unwrap() {
        Message::IdentitiesAnswer(ids) => {
            assert_eq!(ids.len(), 2);
            assert_eq!(ids[0].key, KeyBlob::Ed25519 { key: vec![7u8; 32] });
            assert_eq!(ids[0].comment, "alice@host");
            assert_eq!(ids[1].comment, "bob@host");
        }
        other => panic!("wrong message: {:?}", other),
    }
}

#[test]
fn sign_response() {
    let mut payload = vec![14u8];
    payload.extend_from_slice(&string(b"signature-bytes"));
    match Message::decode(&record(&payload)).unwrap() {
        Message::SignResponse(sig) => assert_eq!(sig, b"signature-bytes".to_vec()),
        other => panic!("wrong message: {:?}", other),
    }
}

#[test]
fn unknown_tag_is_kept_verbatim() {
    // an unknown tag never fails; the payload bytes stay untouched
    let rec = record(&[0x63, 1, 2, 3, 0xff]);
    match Message::decode(&rec).unwrap() {
        Message::Unknown { tag, payload } => {
            assert_eq!(tag, 0x63);
            assert_eq!(payload, vec![1, 2, 3, 0xff]);
        }
        other => panic!("wrong message: {:?}", other),
    }
}

#[test]
fn unknown_key_algorithm_is_kept_verbatim() {
    let mut blob = string(b"ssh-dss");
    blob.extend_from_slice(&[9, 9, 9]);
    let rec = sign_request(&blob, b"", 0);
    match Message::decode(&rec).unwrap() {
        Message::SignRequest { key, .. } => {
            assert_eq!(
                key,
                KeyBlob::Unknown {
                    algo: b"ssh-dss".to_vec(),
                    data: vec![9, 9, 9],
                }
            );
        }
        other => panic!("wrong message: {:?}", other),
    }
}

#[test]
fn trailing_data_is_an_error_for_known_tags() {
    assert_eq!(
        Message::decode(&record(&[11, 0])).unwrap_err(),
        Error::TrailingData
    );
    let mut payload = vec![14u8];
    payload.extend_from_slice(&string(b"sig"));
    payload.push(0);
    assert_eq!(
        Message::decode(&record(&payload)).unwrap_err(),
        Error::TrailingData
    );
}

#[test]
fn short_record_is_an_error() {
    assert_eq!(
        Message::decode(&[0, 0, 0, 9, 11]).unwrap_err(),
        Error::InsufficientData
    );
    assert_eq!(Message::decode(&[0, 0]).unwrap_err(), Error::InsufficientData);
}

#[test]
fn bad_ed25519_length_is_an_error() {
    let rec = sign_request(&ed25519_blob(&[0u8; 31]), b"", 0);
    assert_eq!(Message::decode(&rec).unwrap_err(), Error::InvalidKeyLength);
}

#[test]
fn bad_comment_utf8_is_an_error() {
    let mut payload = vec![12u8, 0, 0, 0, 1];
    payload.extend_from_slice(&string(&ed25519_blob(&[7u8; 32])));
    payload.extend_from_slice(&string(&[0xff, 0xfe]));
    assert_eq!(
        Message::decode(&record(&payload)).unwrap_err(),
        Error::InvalidUtf8
    );
}

#[test]
fn strict_mode_refuses_unknown_tags() {
    let unknown = Message::decode(&record(&[0x63, 1])).unwrap();
    assert_eq!(unknown.strict().unwrap_err(), Error::UnknownVariant);
    let known = Message::decode(&record(&[11])).unwrap();
    assert!(matches!(known.strict().unwrap(), Message::RequestIdentities));
}

#[test]
fn keys_compare_by_value_not_bytes() {
    // the same RSA key, once canonical and once with padded mpints
    let a = sign_request(&rsa_blob(&[0x01, 0x00, 0x01], &[0x09, 0xa3]), b"", 0);
    let b = sign_request(
        &rsa_blob(&[0x00, 0x01, 0x00, 0x01], &[0x00, 0x00, 0x09, 0xa3]),
        b"",
        0,
    );
    let ka = match Message::decode(&a).unwrap() {
        Message::SignRequest { key, .. } => key,
        _ => unreachable!(),
    };
    let kb = match Message::decode(&b).unwrap() {
        Message::SignRequest { key, .. } => key,
        _ => unreachable!(),
    };
    assert_eq!(ka, kb);
}
