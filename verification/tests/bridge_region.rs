use wasm_types::{
    checked_offset, BoundedString, BoundsError, CodecError, MemoryRegion, Message,
    ReadMessageError, ReadTextError, Sender,
};

#[test]
fn bounds_rejection() {
    let region = MemoryRegion::new(1);
    assert_eq!(region.size(), 65536);
    assert!(region.read_region(0, 65536).is_ok());
    assert_eq!(region.read_region(1, 65536).unwrap_err(), BoundsError::OutOfBounds);
    assert_eq!(region.read_region(65536, 1).unwrap_err(), BoundsError::OutOfBounds);
    // ranges whose end would overflow the offset type never wrap back into
    // bounds
    assert_eq!(region.read_region(u32::MAX, u32::MAX).unwrap_err(), BoundsError::OutOfBounds);
    assert_eq!(region.read_region(u32::MAX, 1).unwrap_err(), BoundsError::OutOfBounds);
}

#[test]
fn write_region_is_all_or_nothing() {
    let mut region = MemoryRegion::new(1);
    region.write_region(10, &[1, 2, 3]).unwrap();
    assert_eq!(region.read_region(10, 3).unwrap(), vec![1, 2, 3]);
    assert_eq!(region.write_region(65535, &[7, 8]).unwrap_err(), BoundsError::OutOfBounds);
    assert_eq!(region.read_region(65535, 1).unwrap(), vec![0]);
}

#[test]
fn message_crosses_the_region() {
    let mut region = MemoryRegion::new(2);
    let message =
        Message { sender: Sender::Host, message: BoundedString::from_str("message from host") };
    let encoded_len = message.encode().len() as u32;
    region.write_message(128, &message).unwrap();
    let back = region.read_message(128, encoded_len).unwrap();
    assert_eq!(back, message);
    assert_eq!(
        region.read_message(128, encoded_len + 1).unwrap_err(),
        ReadMessageError::Codec(CodecError::TrailingData)
    );
    assert_eq!(
        region.read_message(u32::MAX, 2).unwrap_err(),
        ReadMessageError::Bounds(BoundsError::OutOfBounds)
    );
}

#[test]
fn read_text_validates() {
    let mut region = MemoryRegion::new(1);
    region.write_region(0, "hellø".as_bytes()).unwrap();
    assert_eq!(region.read_text(0, 6).unwrap(), "hellø");
    region.write_region(8, &[0xff, 0xfe]).unwrap();
    assert_eq!(region.read_text(8, 2).unwrap_err(), ReadTextError::InvalidUtf8);
    assert_eq!(
        region.read_text(65536, 4).unwrap_err(),
        ReadTextError::Bounds(BoundsError::OutOfBounds)
    );
}

#[test]
fn region_grows_monotonically() {
    let mut region = MemoryRegion::new(2);
    region.write_region(0, &[42]).unwrap();
    assert!(region.grow(1));
    assert_eq!(region.size(), 3 * 65536);
    assert_eq!(region.read_region(0, 1).unwrap(), vec![42]);
    assert!(!region.grow(14));
    assert_eq!(region.size(), 3 * 65536);
    assert!(region.grow(13));
    assert_eq!(region.size(), 16 * 65536);
}

#[test]
fn checked_offset_rejects_wide_addresses() {
    assert_eq!(checked_offset(5).unwrap(), 5);
    assert_eq!(checked_offset(u32::MAX as u64).unwrap(), u32::MAX);
    assert_eq!(checked_offset(u32::MAX as u64 + 1).unwrap_err(), BoundsError::AddressOverflow);
}
