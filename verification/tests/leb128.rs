use store::Error;
use store::ULeb128;

#[test]
fn unsigned_leb128_wikipedia_ex() {
    let mut buf = Vec::with_capacity(3);
    assert_eq!(ULeb128::from(624485_u64).write_into(&mut buf).unwrap(), 3);
    assert_eq!(buf, vec![0xE5, 0x8E, 0x26]);
    assert_eq!(u64::from(ULeb128::read_from(&*buf).unwrap()), 624485);
}

#[test]
fn uleb128_zero_is_one_byte() {
    let mut buf = Vec::new();
    assert_eq!(ULeb128::from(0_u64).write_into(&mut buf).unwrap(), 1);
    assert_eq!(buf, vec![0x00]);
    assert_eq!(u64::from(ULeb128::read_from(&*buf).unwrap()), 0);
}

#[test]
fn uleb128_max_is_ten_bytes() {
    let mut buf = Vec::new();
    assert_eq!(ULeb128::from(u64::MAX).write_into(&mut buf).unwrap(), 10);
    assert_eq!(buf.len(), 10);
    assert_eq!(u64::from(ULeb128::read_from(&*buf).unwrap()), u64::MAX);
}

#[test]
fn uleb128_round_trips_various() {
    for v in [1u64, 127, 128, 300, 16383, 16384, 624485, u64::MAX - 1] {
        let mut buf = Vec::new();
        ULeb128::from(v).write_into(&mut buf).unwrap();
        assert!(buf.len() <= 10);
        assert_eq!(u64::from(ULeb128::read_from(&*buf).unwrap()), v);
    }
}

#[test]
fn uleb128_from_narrower_integers() {
    assert_eq!(u64::from(ULeb128::from(7_u8)), 7);
    assert_eq!(u64::from(ULeb128::from(300_u16)), 300);
    assert_eq!(u64::from(ULeb128::from(70000_u32)), 70000);
    assert_eq!(u64::from(ULeb128::from(42_usize)), 42);
}

#[test]
fn uleb128_narrowing_conversions() {
    assert_eq!(ULeb128::from(255_u64).try_to_u8().unwrap(), 255);
    assert_eq!(
        ULeb128::from(256_u64).try_to_u8(),
        Err(Error::NarrowingOverflow)
    );
    assert_eq!(ULeb128::from(65535_u64).try_to_u16().unwrap(), 65535);
    assert_eq!(
        ULeb128::from(65536_u64).try_to_u16(),
        Err(Error::NarrowingOverflow)
    );
    assert_eq!(ULeb128::from(70000_u64).try_to_u32().unwrap(), 70000);
    assert_eq!(
        ULeb128::from(1_u64 << 40).try_to_u32(),
        Err(Error::NarrowingOverflow)
    );
    assert_eq!(ULeb128::from(9_u64).try_to_usize().unwrap(), 9);
}

#[test]
fn uleb128_truncated_input_is_unexpected_end() {
    // 624485 encodes to three bytes; any strict prefix must fail
    assert_eq!(
        ULeb128::read_from(&[0xE5, 0x8E]),
        Err(Error::UnexpectedEnd)
    );
    assert_eq!(ULeb128::read_from(&[0xE5]), Err(Error::UnexpectedEnd));
    assert_eq!(ULeb128::read_from(&[]), Err(Error::UnexpectedEnd));
}

#[test]
fn uleb128_excess_bits_are_invalid() {
    // ten continuation-free bytes whose tenth carries more than one bit
    let bad = [0x80, 0x80, 0x80, 0x80, 0x80, 0x80, 0x80, 0x80, 0x80, 0x02];
    assert_eq!(ULeb128::read_from(&bad), Err(Error::InvalidEncoding));
    // the same prefix with a tenth byte of 0x01 is the top bit: accepted
    let ok = [0x80, 0x80, 0x80, 0x80, 0x80, 0x80, 0x80, 0x80, 0x80, 0x01];
    assert_eq!(
        u64::from(ULeb128::read_from(&ok).unwrap()),
        1u64 << 63
    );
}
