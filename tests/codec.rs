use ebml::error::EbmlError;
use ebml::source::ByteSource;
use ebml::vint::Vint;

#[test]
fn vint_new() {
    let data = [0x1A, 0x45, 0xDF, 0xA3];

    let v = Vint::from_data(&data).unwrap();
    assert_eq!(v.size(), 4);
    assert_eq!(v.data(), 0xA45DFA3);
    assert_eq!(v.raw(), 0x1A45DFA3);
}

#[test]
fn width_follows_leading_zeros() {
    for z in 0..8u32 {
        let first: u8 = 0x80 >> z;
        let mut data = vec![first];
        data.extend(std::iter::repeat(0u8).take(z as usize));
        let v = Vint::from_data(&data).unwrap();
        assert_eq!(v.size(), z + 1);
        assert_eq!(v.raw(), (first as u64) << (8 * z));
        assert_eq!(v.data(), 0);
    }
}

#[test]
fn one_byte_vint_values() {
    let v = Vint::from_data(&[0x81]).unwrap();
    assert_eq!(v.size(), 1);
    assert_eq!(v.raw(), 0x81);
    assert_eq!(v.data(), 1);
    let v = Vint::from_data(&[0xFF]).unwrap();
    assert_eq!(v.data(), 0x7F);
}

#[test]
fn eight_byte_vint_value() {
    let data = [0x01, 0x02, 0x03, 0x04, 0x05, 0x06, 0x07, 0x08];
    let v = Vint::from_data(&data).unwrap();
    assert_eq!(v.size(), 8);
    assert_eq!(v.raw(), 0x0102030405060708);
    assert_eq!(v.data(), 0x0002030405060708);
}

#[test]
fn read_matches_span_decoding() {
    let mut src = ByteSource::new(vec![0x1A, 0x45, 0xDF, 0xA3, 0x84]);
    let v = Vint::read(&mut src).unwrap();
    assert_eq!(v.size(), 4);
    assert_eq!(v.raw(), 0x1A45DFA3);
    assert_eq!(v.data(), 0x0A45DFA3);
    assert_eq!(src.position(), 4);
    let w = Vint::read(&mut src).unwrap();
    assert_eq!(w.size(), 1);
    assert_eq!(w.data(), 4);
    assert_eq!(src.position(), 5);
}

#[test]
fn short_eight_byte_vint_is_truncated() {
    let mut src = ByteSource::new(vec![0x01, 0x11, 0x22, 0x33]);
    assert!(matches!(Vint::read(&mut src), Err(EbmlError::Truncated)));
}

#[test]
fn empty_span_gives_empty_vint() {
    let v = Vint::from_data(&[]).unwrap();
    assert_eq!(v.size(), 0);
    assert_eq!(v.raw(), 0);
    assert_eq!(v.data(), 1);
}

#[test]
fn exhausted_source_gives_empty_vint() {
    let mut src = ByteSource::new(vec![0x81]);
    src.seek_to(1);
    let v = Vint::read(&mut src).unwrap();
    assert_eq!(v.size(), 0);
    assert_eq!(v.raw(), 0);
    assert_eq!(src.position(), 1);
    let mut empty = ByteSource::new(Vec::new());
    assert_eq!(Vint::read(&mut empty).unwrap().size(), 0);
}

#[test]
fn zero_first_byte_is_too_big() {
    assert!(matches!(Vint::from_data(&[0x00, 0x01]), Err(EbmlError::IntegerTooBig)));
    let mut src = ByteSource::new(vec![0x00, 0x81]);
    assert!(matches!(Vint::read(&mut src), Err(EbmlError::IntegerTooBig)));
}

#[test]
fn source_reads_and_seeks() {
    let mut src = ByteSource::new(vec![1, 2, 3]);
    assert_eq!(src.read_byte(), Some(1));
    assert_eq!(src.read_exact(2), Ok(vec![2, 3]));
    assert_eq!(src.read_byte(), None);
    assert_eq!(src.read_exact(1), Err(EbmlError::Truncated));
    assert_eq!(src.seek_forward(10), Ok(()));
    assert_eq!(src.position(), 13);
    assert_eq!(src.seek_forward(u64::MAX), Err(EbmlError::Seek));
    assert_eq!(src.position(), 13);
}
