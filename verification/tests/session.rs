use ssh_agent_notify::{Session, SessionEvent, SessionState};

/// A wire `string`: a four-byte big-endian length, then the bytes.
fn string(content: &[u8]) -> Vec<u8> {
    let mut v = (content.len() as u32).to_be_bytes().to_vec();
    v.extend_from_slice(content);
    v
}

fn record(payload: &[u8]) -> Vec<u8> {
    string(payload)
}

fn rsa_blob(e: &[u8], n: &[u8]) -> Vec<u8> {
    let mut blob = string(b"ssh-rsa");
    blob.extend_from_slice(&string(e));
    blob.extend_from_slice(&string(n));
    blob
}

fn identities_answer(entries: &[(Vec<u8>, &str)]) -> Vec<u8> {
    let mut payload = vec![12u8];
    payload.extend_from_slice(&(entries.len() as u32).to_be_bytes());
    for (blob, comment) in entries {
        payload.extend_from_slice(&string(blob));
        payload.extend_from_slice(&string(comment.as_bytes()));
    }
    record(&payload)
}

fn sign_request(blob: &[u8]) -> Vec<u8> {
    let mut payload = vec![13u8];
    payload.extend_from_slice(&string(blob));
    payload.extend_from_slice(&string(b""));
    payload.extend_from_slice(&0u32.to_be_bytes());
    record(&payload)
}

#[test]
fn comment_survives_different_mpint_padding() {
    let mut session = Session::new();
    let canonical = rsa_blob(
        &[0x01, 0x00, 0x01],
        &[0x09, 0xa3, 0x78, 0xf9, 0xb2, 0xe3, 0x32, 0xa7],
    );
    session.observe_agent(&identities_answer(&[(canonical, "work laptop")]));

    // the client later names the same key, padded differently on the wire
    let padded = rsa_blob(
        &[0x00, 0x01, 0x00, 0x01],
        &[0x00, 0x09, 0xa3, 0x78, 0xf9, 0xb2, 0xe3, 0x32, 0xa7],
    );
    let info = session.observe_client(&sign_request(&padded)).unwrap();
    assert_eq!(info.comment, "work laptop");
    assert_eq!(info.algo, "RSA");
    assert_eq!(info.bits, 60);
    assert_eq!(info.fingerprint, "st/tpBA97Kb3UNlFpmLgJm78+LTXSkyYI6LnozC1m7g");
    assert_eq!(info.digest.len(), 32);
}

#[test]
fn notification_strings() {
    let mut session = Session::new();
    let blob = rsa_blob(
        &[0x01, 0x00, 0x01],
        &[0x09, 0xa3, 0x78, 0xf9, 0xb2, 0xe3, 0x32, 0xa7],
    );
    session.observe_agent(&identities_answer(&[(blob.clone(), "work laptop")]));
    let info = session.observe_client(&sign_request(&blob)).unwrap();
    assert_eq!(info.title(), "ssh-agent work laptop");
    assert_eq!(
        info.body(),
        "RSA 60 bits\nSHA256:st/tpBA97Kb3UNlFpmLgJm78+LTXSkyYI6LnozC1m7g"
    );
}

#[test]
fn unseen_key_has_empty_comment() {
    let session = Session::new();
    let blob = rsa_blob(&[0x01, 0x00, 0x01], &[0x09, 0xa3]);
    let info = session.observe_client(&sign_request(&blob)).unwrap();
    assert_eq!(info.comment, "");
    assert_eq!(info.title(), "ssh-agent ");
}

#[test]
fn later_answer_overwrites_comment() {
    let mut session = Session::new();
    let blob = rsa_blob(&[0x03], &[0x05]);
    session.observe_agent(&identities_answer(&[(blob.clone(), "old name")]));
    session.observe_agent(&identities_answer(&[(blob.clone(), "new name")]));
    let info = session.observe_client(&sign_request(&blob)).unwrap();
    assert_eq!(info.comment, "new name");
}

#[test]
fn other_records_change_nothing() {
    let mut session = Session::new();
    let blob = rsa_blob(&[0x03], &[0x05]);
    session.observe_agent(&identities_answer(&[(blob.clone(), "name")]));
    // an unknown record, a sign response, and garbage all leave the table
    session.observe_agent(&record(&[0x63, 1, 2, 3]));
    let mut resp = vec![14u8];
    resp.extend_from_slice(&string(b"sig"));
    session.observe_agent(&record(&resp));
    session.observe_agent(&[0, 0]);
    let info = session.observe_client(&sign_request(&blob)).unwrap();
    assert_eq!(info.comment, "name");
}

#[test]
fn non_sign_requests_yield_nothing() {
    let session = Session::new();
    assert!(session.observe_client(&record(&[11])).is_none());
    assert!(session.observe_client(&record(&[0x63, 1])).is_none());
    assert!(session.observe_client(&[0, 0]).is_none());
}

#[test]
fn session_states_alternate() {
    let s = SessionState::Idle;
    let s = s.step(SessionEvent::ClientForwarded);
    assert_eq!(s, SessionState::AwaitingAgentResponse);
    // a second client forward cannot advance a waiting session
    assert_eq!(s.step(SessionEvent::ClientForwarded), s);
    let s = s.step(SessionEvent::AgentForwarded);
    assert_eq!(s, SessionState::Idle);
    let s = s.step(SessionEvent::Disconnected);
    assert_eq!(s, SessionState::Closed);
    // closed is final
    assert_eq!(s.step(SessionEvent::ClientForwarded), SessionState::Closed);
    assert_eq!(s.step(SessionEvent::AgentForwarded), SessionState::Closed);
}

#[test]
fn unknown_algorithm_notification() {
    let session = Session::new();
    let mut blob = (7u32).to_be_bytes().to_vec();
    blob.extend_from_slice(b"ssh-dss");
    blob.extend_from_slice(&[9, 9, 9]);
    let info = session.observe_client(&sign_request(&blob)).unwrap();
    assert_eq!(info.algo, "ssh-dss");
    assert_eq!(info.bits, 0);
    assert_eq!(
        info.body(),
        "ssh-dss 0 bits\nSHA256:0C8YAl1NgJEE6m3VlCambAlQIalfSjVJymlmh97eCmE"
    );
}
