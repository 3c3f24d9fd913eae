use ssh_agent_notify::{Mpint, Unpack, Unpacker};

fn check<T>(data: &[u8], expected: T)
where
    T: std::fmt::Debug + PartialEq + Unpack,
{
    let mut unpacker = Unpacker::new(data);
    assert_eq!(unpacker.unpack::<T>().unwrap(), expected);
}

#[test]
fn test_byte() {
    check(&[42], 42_u8);
}

#[test]
fn test_boolean() {
    check(&[0], false);
    check(&[1], true);
    check(&[2], true);
}

#[test]
fn test_uint32() {
    check(&[0, 0, 7, 227], 2019_u32);
}

#[test]
fn test_uint64() {
    check(&[1, 2, 3, 4, 5, 6, 7, 8], 0x0102_0304_0506_0708_u64);
}

#[test]
fn test_string() {
    check(&[0, 0, 0, 3, b'f', b'o', b'o'], b"foo".to_vec());
    check(&[0, 0, 0, 3, b'f', b'o', b'o'], "foo".to_string());
}

#[test]
fn test_mpint() {
    check(&[0, 0, 0, 0], Mpint::from_i64(0x0));
    check(
        &[0, 0, 0, 8, 0x09, 0xa3, 0x78, 0xf9, 0xb2, 0xe3, 0x32, 0xa7],
        Mpint::from_i64(0x9a3_78f9_b2e3_32a7_i64),
    );
    check(&[0, 0, 0, 2, 0x00, 0x80], Mpint::from_i64(0x80));
    check(&[0, 0, 0, 2, 0xed, 0xcc], Mpint::from_i64(-0x1234));
    check(
        &[0, 0, 0, 5, 0xff, 0x21, 0x52, 0x41, 0x11],
        Mpint::from_i64(-0xdead_beef_i64),
    );
}

#[test]
fn unpack_mpint_accepts_padded_content() {
    // a redundant leading zero or 0xff byte changes nothing of the value
    check(&[0, 0, 0, 4, 0x00, 0x00, 0x01, 0x02], Mpint::from_i64(0x102));
    check(&[0, 0, 0, 3, 0xff, 0xed, 0xcc], Mpint::from_i64(-0x1234));
    check(&[0, 0, 0, 1, 0x00], Mpint::from_i64(0));
}

#[test]
fn unpack_advances_in_sequence() {
    let data = [42, 0, 0, 0, 3, b'f', b'o', b'o', 0, 0, 7, 227];
    let mut unpacker = Unpacker::new(&data);
    assert_eq!(unpacker.unpack::<u8>().unwrap(), 42);
    assert_eq!(unpacker.unpack::<Vec<u8>>().unwrap(), b"foo".to_vec());
    assert_eq!(unpacker.unpack::<u32>().unwrap(), 2019);
}

#[test]
#[should_panic(expected = "InsufficientData")]
fn test_insufficient_data() {
    check(b"", 0_u8);
}
