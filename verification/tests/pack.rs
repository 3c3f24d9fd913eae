use ssh_agent_notify::{Mpint, Pack, Packer};

fn check<T>(value: T, expected: &[u8])
where
    T: Pack,
{
    let mut packer = Packer::new();
    packer.pack(value);
    assert_eq!(packer.inner(), expected);
}

#[test]
fn tests_test_byte() {
    check(42_u8, &[42]);
}

#[test]
fn tests_test_boolean() {
    check(false, &[0]);
    check(true, &[1]);
}

#[test]
fn tests_test_uint32() {
    check(2019_u32, &[0, 0, 7, 227]);
}

#[test]
fn tests_test_uint64() {
    check(0x0102_0304_0506_0708_u64, &[1, 2, 3, 4, 5, 6, 7, 8]);
}

#[test]
fn tests_test_string() {
    check(b"foo".as_ref(), &[0, 0, 0, 3, b'f', b'o', b'o']);
    check("foo", &[0, 0, 0, 3, b'f', b'o', b'o']);
}

#[test]
fn tests_test_mpint() {
    check(&Mpint::from_i64(0x0), &[0, 0, 0, 0]);
    check(
        &Mpint::from_i64(0x9a3_78f9_b2e3_32a7_i64),
        &[0, 0, 0, 8, 0x09, 0xa3, 0x78, 0xf9, 0xb2, 0xe3, 0x32, 0xa7],
    );
    check(&Mpint::from_i64(0x80), &[0, 0, 0, 2, 0x00, 0x80]);
    check(&Mpint::from_i64(-0x1234), &[0, 0, 0, 2, 0xed, 0xcc]);
    check(
        &Mpint::from_i64(-0xdead_beef_i64),
        &[0, 0, 0, 5, 0xff, 0x21, 0x52, 0x41, 0x11],
    )
}

#[test]
fn pack_mpint_sign_boundaries() {
    check(&Mpint::from_i64(-1), &[0, 0, 0, 1, 0xff]);
    check(&Mpint::from_i64(-0x80), &[0, 0, 0, 1, 0x80]);
    check(&Mpint::from_i64(-0x81), &[0, 0, 0, 2, 0xff, 0x7f]);
    check(&Mpint::from_i64(0x7f), &[0, 0, 0, 1, 0x7f]);
    check(&Mpint::from_i64(0xff), &[0, 0, 0, 2, 0x00, 0xff]);
    check(&Mpint::from_i64(0x100), &[0, 0, 0, 2, 0x01, 0x00]);
}

#[test]
fn pack_appends_in_sequence() {
    let mut packer = Packer::new();
    packer.pack(42_u8);
    packer.pack("foo");
    packer.pack(2019_u32);
    assert_eq!(
        packer.inner(),
        &[42, 0, 0, 0, 3, b'f', b'o', b'o', 0, 0, 7, 227]
    );
}

#[test]
fn roundtrip_mpint_canonical_bytes() {
    // decoding a canonical mpint and re-encoding it reproduces the bytes
    for bytes in [
        vec![0, 0, 0, 0],
        vec![0, 0, 0, 1, 0x7f],
        vec![0, 0, 0, 2, 0x00, 0x80],
        vec![0, 0, 0, 2, 0xed, 0xcc],
        vec![0, 0, 0, 5, 0xff, 0x21, 0x52, 0x41, 0x11],
    ] {
        let mut unpacker = ssh_agent_notify::Unpacker::new(&bytes);
        let value: Mpint = ssh_agent_notify::Unpack::unpack(&mut unpacker).unwrap();
        let mut packer = Packer::new();
        packer.pack(&value);
        assert_eq!(packer.inner(), bytes);
    }
}

#[test]
fn pack_mpint_machine_extremes() {
    check(
        &Mpint::from_i64(i64::MIN),
        &[0, 0, 0, 8, 0x80, 0, 0, 0, 0, 0, 0, 0],
    );
    check(
        &Mpint::from_i64(i64::MAX),
        &[0, 0, 0, 8, 0x7f, 0xff, 0xff, 0xff, 0xff, 0xff, 0xff, 0xff],
    );
}
