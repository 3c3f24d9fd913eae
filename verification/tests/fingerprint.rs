use ssh_agent_notify::{KeyBlob, Mpint, Unpack, Unpacker};

fn hex(bytes: &[u8]) -> String {
    bytes.iter().map(|b| format!("{:02x}", b)).collect()
}

fn ed25519_zero_key() -> KeyBlob {
    KeyBlob::Ed25519 { key: vec![0u8; 32] }
}

fn rsa_key() -> KeyBlob {
    KeyBlob::Rsa {
        e: Mpint::from_i64(0x10001),
        n: Mpint::from_i64(0x9a3_78f9_b2e3_32a7_i64),
    }
}

#[test]
fn ed25519_digest() {
    let d = ed25519_zero_key().digest();
    assert_eq!(
        hex(&d),
        "92661cbdd8b61a43de5b107a5cb8eb641f091eccb61e6f25b87305a7d18cbea9"
    );
}

#[test]
fn ed25519_fingerprint() {
    assert_eq!(
        ed25519_zero_key().fingerprint(),
        "kmYcvdi2GkPeWxB6XLjrZB8JHsy2Hm8luHMFp9GMvqk"
    );
}

#[test]
fn rsa_digest() {
    let d = rsa_key().digest();
    assert_eq!(
        hex(&d),
        "b2dfeda4103deca6f750d945a662e0266efcf8b4d74a4c9823a2e7a330b59bb8"
    );
    assert_eq!(
        rsa_key().fingerprint(),
        "st/tpBA97Kb3UNlFpmLgJm78+LTXSkyYI6LnozC1m7g"
    );
}

#[test]
fn bits() {
    assert_eq!(ed25519_zero_key().bits(), 256);
    assert_eq!(rsa_key().bits(), 60);
    assert_eq!(
        KeyBlob::Rsa {
            e: Mpint::from_i64(3),
            n: Mpint::from_i64(0x80),
        }
        .bits(),
        8
    );
    assert_eq!(
        KeyBlob::Unknown {
            algo: b"ssh-dss".to_vec(),
            data: vec![],
        }
        .bits(),
        0
    );
}

#[test]
fn algo_names() {
    assert_eq!(rsa_key().algo_name(), "RSA");
    assert_eq!(ed25519_zero_key().algo_name(), "ED25519");
    assert_eq!(
        KeyBlob::Unknown {
            algo: b"ssh-dss".to_vec(),
            data: vec![],
        }
        .algo_name(),
        "ssh-dss"
    );
    assert_eq!(
        KeyBlob::Unknown {
            algo: vec![0xff],
            data: vec![],
        }
        .algo_name(),
        ""
    );
}

#[test]
fn canonical_reencoding_matches_wire_blob() {
    // the sign-request scenario: the canonical re-encoding of the decoded
    // ed25519 key is byte-identical to the inner key blob on the wire
    let mut blob = (11u32).to_be_bytes().to_vec();
    blob.extend_from_slice(b"ssh-ed25519");
    blob.extend_from_slice(&(32u32).to_be_bytes());
    blob.extend_from_slice(&[0u8; 32]);

    let mut unpacker = Unpacker::new(&blob);
    let key: KeyBlob = Unpack::unpack(&mut unpacker).unwrap();
    let mut packer = ssh_agent_notify::Packer::new();
    ssh_agent_notify::Pack::pack(&key, &mut packer);
    assert_eq!(packer.inner(), blob);
}

#[test]
fn digest_depends_on_value_not_padding() {
    // two different wire encodings of one RSA key: canonical mpints, and
    // mpints padded with redundant leading zero bytes
    fn string(content: &[u8]) -> Vec<u8> {
        let mut v = (content.len() as u32).to_be_bytes().to_vec();
        v.extend_from_slice(content);
        v
    }
    let mut canonical = string(b"ssh-rsa");
    canonical.extend_from_slice(&string(&[0x01, 0x00, 0x01]));
    canonical.extend_from_slice(&string(&[0x09, 0xa3, 0x78, 0xf9, 0xb2, 0xe3, 0x32, 0xa7]));
    let mut padded = string(b"ssh-rsa");
    padded.extend_from_slice(&string(&[0x00, 0x00, 0x01, 0x00, 0x01]));
    padded.extend_from_slice(&string(&[
        0x00, 0x09, 0xa3, 0x78, 0xf9, 0xb2, 0xe3, 0x32, 0xa7,
    ]));
    assert_ne!(canonical, padded);

    let mut ua = Unpacker::new(&canonical);
    let ka: KeyBlob = Unpack::unpack(&mut ua).unwrap();
    let mut ub = Unpacker::new(&padded);
    let kb: KeyBlob = Unpack::unpack(&mut ub).unwrap();
    assert_eq!(ka, kb);
    assert_eq!(ka.digest(), kb.digest());
    assert_eq!(ka.digest(), rsa_key().digest());
}

#[test]
fn unknown_key_digest_keeps_its_bytes() {
    let key = KeyBlob::Unknown {
        algo: b"ssh-dss".to_vec(),
        data: vec![9, 9, 9],
    };
    assert_eq!(
        hex(&key.digest()),
        "d02f18025d4d809104ea6dd59426a66c095021a95f4a3549ca696687dede0a61"
    );
    assert_eq!(
        key.fingerprint(),
        "0C8YAl1NgJEE6m3VlCambAlQIalfSjVJymlmh97eCmE"
    );
}
