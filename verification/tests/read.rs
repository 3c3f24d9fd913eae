use ssh_agent_notify::{Data, Reader};

fn check<T>(data: &[u8], expected: T)
where
    T: std::fmt::Debug + PartialEq + Data,
{
    let mut reader = Reader::new(data);
    assert_eq!(reader.read::<T>().unwrap(), expected);
}

#[test]
fn read_byte() {
    check(&[42], 42_u8);
}

#[test]
fn read_boolean() {
    check(&[0], false);
    check(&[1], true);
    check(&[2], true);
}

#[test]
fn read_uint32() {
    check(&[0, 0, 7, 227], 2019_u32);
}

#[test]
fn read_uint64() {
    check(&[1, 2, 3, 4, 5, 6, 7, 8], 0x0102_0304_0506_0708_u64);
}

#[test]
fn read_string_binary() {
    check(&[0, 0, 0, 3, b'f', b'o', b'o'], b"foo".to_vec());
}

#[test]
fn test_string_text() {
    check(&[0, 0, 0, 3, b'f', b'o', b'o'], "foo".to_string());
}

#[test]
fn read_text_rejects_invalid_utf8() {
    let mut reader = Reader::new(&[0, 0, 0, 1, 0xff]);
    assert_eq!(
        reader.read::<String>().unwrap_err(),
        ssh_agent_notify::Error::InvalidUtf8
    );
}

#[test]
#[should_panic(expected = "InsufficientData")]
fn tests_test_insufficient_data() {
    check(b"", 0_u8);
}
