use shredwatch::registry::{ShredEvent, SourceId};
use shredwatch::shred::{parse_shred_key, shred_type, ShredKey, ShredType};

fn header(variant: u8, slot: u64, index: u32) -> Vec<u8> {
    let mut buf = vec![0u8; 83];
    buf[64] = variant;
    buf[65..73].copy_from_slice(&slot.to_le_bytes());
    buf[73..77].copy_from_slice(&index.to_le_bytes());
    buf
}

#[test]
fn variant_bytes_tell_the_type() {
    assert_eq!(shred_type(0xa5), ShredType::Data);
    assert_eq!(shred_type(0x5a), ShredType::Code);
    assert_eq!(shred_type(0x80), ShredType::Data);
    assert_eq!(shred_type(0x7f), ShredType::Code);
    assert_eq!(shred_type(0x96), ShredType::Data);
    assert_eq!(shred_type(0x66), ShredType::Code);
}

#[test]
fn type_labels() {
    assert_eq!(ShredType::Data.label(), "data");
    assert_eq!(ShredType::Code.label(), "code");
}

#[test]
fn key_of_a_header() {
    let key = parse_shred_key(&header(0x96, 0x0102_0304_0506_0708, 77)).unwrap();
    assert_eq!(
        key,
        ShredKey { slot: 0x0102_0304_0506_0708, index: 77, shred_type: ShredType::Data }
    );
}

#[test]
fn key_needs_83_bytes_and_a_slot() {
    let full = header(0x66, 9, u32::MAX);
    assert_eq!(parse_shred_key(&full[..82]), None);
    assert_eq!(parse_shred_key(&header(0x66, 0, 1)), None);
    assert_eq!(parse_shred_key(&full).unwrap().index, u32::MAX);
    assert_eq!(parse_shred_key(&[]), None);
}

#[test]
fn event_of_a_datagram_holds_all_of_it() {
    let datagram = header(0x66, 5, 6);
    let event = ShredEvent::read(SourceId::Instance(3), &datagram, 1_000).unwrap();
    assert_eq!(event.source, SourceId::Instance(3));
    assert_eq!(event.key, ShredKey { slot: 5, index: 6, shred_type: ShredType::Code });
    assert_eq!(event.received_at, 1_000);
    assert_eq!(*event.payload, datagram);
    assert!(ShredEvent::read(SourceId::RawUdp, &datagram[..40], 1).is_none());
}

#[test]
fn source_names_and_numbers() {
    assert_eq!(SourceId::default(), SourceId::RawUdp);
    assert_eq!(SourceId::RawUdp.name(), "Raw UDP");
    assert_eq!(SourceId::JitoShredStream.name(), "Jito ShredStream (UDP)");
    assert_eq!(SourceId::DoubleZero.name(), "DoubleZero");
    assert_eq!(SourceId::Yellowstone.name(), "Yellowstone gRPC");
    assert_eq!(SourceId::JitoEntries.name(), "Jito Entries (gRPC)");
    assert_eq!(SourceId::JitoEntries.number(), 4);
    assert_eq!(SourceId::Instance(12).number(), 12);
    assert_ne!(SourceId::Instance(0).code(), SourceId::RawUdp.code());
}
