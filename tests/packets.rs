use coremidi::{
    DevicesIterator, DynStorage, FixedStorage, LayoutPolicy, PacketBuffer, PacketBufferStorage,
    PacketError, PacketListRef, MAX_PAYLOAD,
};
use coremidi::packets::packet_size;

fn events_of(list: &PacketListRef) -> Vec<(u64, Vec<u8>)> {
    let mut out = Vec::new();
    let mut it = list.iter();
    while let Some(p) = it.next() {
        assert_eq!(p.data_length() as usize, p.data().len());
        out.push((p.timestamp(), p.data().to_vec()));
    }
    out
}

#[test]
fn packet_buffer_new() {
    let packet_buf = PacketBuffer::new();
    assert_eq!(packet_buf.bytes().len(), 4);
    assert_eq!(packet_buf.bytes().to_vec(), vec![0x00, 0x00, 0x00, 0x00]);
}

#[test]
fn packet_buffer_with_data() {
    let packet_buf = PacketBuffer::new().with_data(0x0102030405060708, vec![0x90u8, 0x40, 0x7f]);
    assert_eq!(packet_buf.bytes().len(), 17);
    assert_eq!(
        packet_buf.bytes().to_vec(),
        vec![
            0x01, 0x00, 0x00, 0x00, 0x08, 0x07, 0x06, 0x05, 0x04, 0x03, 0x02, 0x01, 0x03, 0x00,
            0x90, 0x40, 0x7f
        ]
    );
}

#[test]
fn packet_buffer_deref() {
    let packet_buf = PacketBuffer::new();
    let packet_list: PacketListRef = packet_buf.as_ref();
    assert_eq!(packet_list.as_bytes().as_ptr(), packet_buf.bytes().as_ptr());
}

#[test]
fn packet_list_length() {
    let packet_buf = PacketBuffer::new()
        .with_data(0, vec![0x90u8, 0x40, 0x7f])
        .with_data(0, vec![0x91u8, 0x40, 0x7f])
        .with_data(0, vec![0x80u8, 0x40, 0x7f])
        .with_data(0, vec![0x81u8, 0x40, 0x7f]);
    assert_eq!(packet_buf.as_ref().length(), 4);
}

#[test]
fn pushed_events_come_back_in_order() {
    let events: Vec<(u64, Vec<u8>)> = vec![
        (7, vec![0x90, 0x3c, 0x64]),
        (0, vec![]),
        (u64::MAX, vec![0xf0, 0x7e, 0x7f, 0x09, 0x01, 0xf7]),
        (42, vec![0xb0]),
    ];
    for policy in [LayoutPolicy::Packed, LayoutPolicy::Aligned4] {
        let mut buf = PacketBuffer::dynamic_with_layout(policy);
        for (ts, data) in &events {
            assert_eq!(buf.push_packet(*ts, data), Ok(()));
        }
        assert_eq!(events_of(&buf.as_ref()), events);
    }
}

#[test]
fn length_counts_pushes() {
    let mut buf = PacketBuffer::dynamic();
    assert_eq!(buf.as_ref().length(), 0);
    for n in 1..=20u32 {
        assert_eq!(buf.push_packet(n as u64, &[0x80, n as u8, 0]), Ok(()));
        assert_eq!(buf.as_ref().length(), n);
    }
}

#[test]
fn reencoding_decoded_events_is_identical() {
    for policy in [LayoutPolicy::Packed, LayoutPolicy::Aligned4] {
        let mut first = PacketBuffer::dynamic_with_layout(policy);
        first.push_packet(1, &[0x90, 0x40, 0x7f]).unwrap();
        first.push_packet(2, &[0xc0, 0x05]).unwrap();
        first.push_packet(3, &[0xf8]).unwrap();
        first.push_packet(4, &[0xe0, 0x00, 0x40, 0x01, 0x02]).unwrap();
        let mut second = PacketBuffer::dynamic_with_layout(policy);
        let list = first.as_ref();
        let mut it = list.iter();
        while let Some(p) = it.next() {
            second.push_packet(p.timestamp(), p.data()).unwrap();
        }
        assert_eq!(second.bytes(), first.bytes());
    }
}

#[test]
fn fixed_storage_full_leaves_batch_unchanged() {
    let mut region = [0xaau8; 20];
    let mut buf = PacketBuffer::fixed(&mut region);
    assert_eq!(buf.push_packet(5, &[0x90, 0x40, 0x7f]), Ok(()));
    let before = buf.bytes().to_vec();
    assert_eq!(buf.push_packet(6, &[0x80, 0x40, 0x7f]), Err(PacketError::BufferFull));
    assert_eq!(buf.bytes().to_vec(), before);
    assert_eq!(buf.as_ref().length(), 1);
    assert_eq!(events_of(&buf.as_ref()), vec![(5, vec![0x90, 0x40, 0x7f])]);
}

#[test]
fn fixed_storage_can_be_filled_exactly() {
    let mut region = [0u8; 17];
    let mut buf = PacketBuffer::fixed(&mut region);
    assert_eq!(buf.push_packet(9, &[1, 2, 3]), Ok(()));
    assert_eq!(buf.bytes().len(), 17);
    assert_eq!(buf.push_packet(9, &[]), Err(PacketError::BufferFull));
}

#[test]
fn fixed_storage_with_aligned_layout_zeroes_padding() {
    let mut region = [0xffu8; 64];
    let mut buf = PacketBuffer::fixed_with_layout(&mut region, LayoutPolicy::Aligned4);
    assert_eq!(buf.push_packet(1, &[0x90, 0x40, 0x7f]), Ok(()));
    assert_eq!(buf.bytes().len(), 20);
    assert_eq!(&buf.bytes()[17..20], &[0, 0, 0]);
}

#[test]
fn largest_payload_is_accepted() {
    let mut buf = PacketBuffer::dynamic();
    let data = vec![0x55u8; MAX_PAYLOAD];
    assert_eq!(buf.push_packet(3, &data), Ok(()));
    let list = buf.as_ref();
    let mut it = list.iter();
    let p = it.next().unwrap();
    assert_eq!(p.data_length(), 65535);
    assert_eq!(p.data(), &data[..]);
}

#[test]
fn oversized_payload_is_refused() {
    let mut buf = PacketBuffer::dynamic();
    let data = vec![0x55u8; 65536];
    assert_eq!(buf.push_packet(3, &data), Err(PacketError::PayloadTooLarge));
    assert_eq!(buf.as_ref().length(), 0);
    assert_eq!(buf.bytes().to_vec(), vec![0, 0, 0, 0]);
}

#[test]
fn note_on_then_note_off() {
    let mut buf = PacketBuffer::dynamic();
    buf.push_packet(0, &[0x90, 0x40, 0x7f]).unwrap();
    buf.push_packet(0, &[0x80, 0x40, 0x7f]).unwrap();
    let list = buf.as_ref();
    assert_eq!(list.length(), 2);
    let mut it = list.iter();
    let first = it.next().unwrap();
    assert_eq!(first.data_length(), 3);
    assert_eq!(first.data(), &[0x90, 0x40, 0x7f]);
    let second = it.next().unwrap();
    assert_eq!(second.data(), &[0x80, 0x40, 0x7f]);
    assert!(it.next().is_none());
}

#[test]
fn empty_builder_yields_nothing() {
    let buf = PacketBuffer::dynamic();
    let list = buf.as_ref();
    assert_eq!(list.length(), 0);
    let mut it = list.iter();
    assert!(it.next().is_none());
    assert!(it.next().is_none());
}

#[test]
fn aligned_layout_pads_odd_records() {
    let mut buf = PacketBuffer::dynamic_with_layout(LayoutPolicy::Aligned4);
    buf.push_packet(0x11, &[1, 2, 3]).unwrap();
    buf.push_packet(0x22, &[4, 5, 6, 7, 8]).unwrap();
    let bytes = buf.bytes();
    // the first record takes 13 bytes, rounded up to 16, so the second starts at 20
    assert_eq!(bytes.len(), 36);
    assert_eq!(&bytes[20..28], &0x22u64.to_le_bytes());
    assert_eq!(&bytes[28..30], &[5, 0]);
    assert_eq!(&bytes[30..35], &[4, 5, 6, 7, 8]);
    assert_eq!(events_of(&buf.as_ref()), vec![(0x11, vec![1, 2, 3]), (0x22, vec![4, 5, 6, 7, 8])]);
}

#[test]
fn packed_layout_has_no_gap() {
    let mut buf = PacketBuffer::dynamic_with_layout(LayoutPolicy::Packed);
    buf.push_packet(0x11, &[1, 2, 3]).unwrap();
    buf.push_packet(0x22, &[4, 5, 6, 7, 8]).unwrap();
    let bytes = buf.bytes();
    assert_eq!(bytes.len(), 32);
    assert_eq!(&bytes[17..25], &0x22u64.to_le_bytes());
    assert_eq!(&bytes[25..27], &[5, 0]);
    assert_eq!(&bytes[27..32], &[4, 5, 6, 7, 8]);
}

#[test]
fn record_sizes() {
    assert_eq!(packet_size(3, LayoutPolicy::Packed), 13);
    assert_eq!(packet_size(3, LayoutPolicy::Aligned4), 16);
    assert_eq!(packet_size(2, LayoutPolicy::Aligned4), 12);
    assert_eq!(packet_size(6, LayoutPolicy::Aligned4), 16);
    assert_eq!(packet_size(0, LayoutPolicy::Packed), 10);
    assert_eq!(packet_size(65535, LayoutPolicy::Aligned4), 65548);
}

#[test]
fn timestamp_is_read_back_exactly() {
    let buf = PacketBuffer::new().with_data(0x0102030405060708, vec![0x90u8, 0x40, 0x7f]);
    let list = buf.as_ref();
    let p = list.iter().next().unwrap();
    assert_eq!(p.timestamp(), 0x0102030405060708);
}

#[test]
fn foreign_batch_is_read_without_copying() {
    let bytes: Vec<u8> = vec![
        2, 0, 0, 0, 1, 0, 0, 0, 0, 0, 0, 0, 2, 0, 0xc0, 0x05, 9, 0, 0, 0, 0, 0, 0, 0, 1, 0, 0xf8,
    ];
    let list = PacketListRef::from_bytes(&bytes, LayoutPolicy::Packed).unwrap();
    assert_eq!(list.as_bytes().as_ptr(), bytes.as_ptr());
    assert_eq!(list.policy(), LayoutPolicy::Packed);
    assert_eq!(events_of(&list), vec![(1, vec![0xc0, 0x05]), (9, vec![0xf8])]);
}

#[test]
fn foreign_aligned_batch_without_final_padding() {
    let bytes: Vec<u8> = vec![
        2, 0, 0, 0, 1, 0, 0, 0, 0, 0, 0, 0, 1, 0, 0xf8, 0xee, 9, 0, 0, 0, 0, 0, 0, 0, 1, 0, 0xfa,
    ];
    let list = PacketListRef::from_bytes(&bytes, LayoutPolicy::Aligned4).unwrap();
    assert_eq!(events_of(&list), vec![(1, vec![0xf8]), (9, vec![0xfa])]);
}

#[test]
fn malformed_batches_are_refused() {
    assert!(PacketListRef::from_bytes(&[0, 0, 0], LayoutPolicy::Packed).is_none());
    assert!(PacketListRef::from_bytes(&[1, 0, 0, 0], LayoutPolicy::Packed).is_none());
    let short_payload = [1u8, 0, 0, 0, 0, 0, 0, 0, 0, 0, 0, 0, 4, 0, 1, 2, 3];
    assert!(PacketListRef::from_bytes(&short_payload, LayoutPolicy::Packed).is_none());
    let empty = [0u8, 0, 0, 0];
    assert_eq!(PacketListRef::from_bytes(&empty, LayoutPolicy::Aligned4).unwrap().length(), 0);
}

#[test]
fn storage_backends_hand_out_zeroed_spans() {
    let mut dyn_storage = DynStorage::new();
    assert_eq!(dyn_storage.request(3), Some(0));
    assert_eq!(dyn_storage.request(2), Some(3));
    dyn_storage.write(1, &[7, 8]);
    assert_eq!(dyn_storage.bytes(), &[0, 7, 8, 0, 0]);
    let mut region = [9u8; 6];
    let mut fixed = FixedStorage::new(&mut region);
    assert_eq!(fixed.request(4), Some(0));
    assert_eq!(fixed.request(3), None);
    assert_eq!(fixed.request(2), Some(4));
    assert_eq!(fixed.bytes(), &[0, 0, 0, 0, 0, 0]);
}

#[test]
fn device_indices_are_walked_once() {
    let mut it = DevicesIterator::new(3);
    assert_eq!(it.next(), Some(0));
    assert_eq!(it.next(), Some(1));
    assert_eq!(it.next(), Some(2));
    assert_eq!(it.next(), None);
    assert_eq!(it.next(), None);
}

#[test]
fn packet_renders_as_hex() {
    let buf = PacketBuffer::new().with_data(0x0102030405060708, vec![0x90u8, 0x40, 0x7f]);
    let list = buf.as_ref();
    let p = list.iter().next().unwrap();
    assert_eq!(p.to_string(), "0102030405060708: 90 40 7f");
    let empty = PacketBuffer::new().with_data(7, vec![]);
    let list = empty.as_ref();
    assert_eq!(list.iter().next().unwrap().to_string(), "0000000000000007:");
}

#[test]
fn packet_list_renders_count_and_records() {
    let mut buf = PacketBuffer::dynamic();
    buf.push_packet(0, &[0x90, 0x40, 0x7f]).unwrap();
    buf.push_packet(0xabc, &[0x80, 0x40, 0x0a]).unwrap();
    assert_eq!(
        buf.as_ref().to_string(),
        "PacketList(len=2)\n  0000000000000000: 90 40 7f\n  0000000000000abc: 80 40 0a"
    );
    let mut many = PacketBuffer::dynamic();
    for _ in 0..12 {
        many.push_packet(1, &[0xf8]).unwrap();
    }
    assert!(many.as_ref().to_string().starts_with("PacketList(len=12)\n  0000000000000001: f8"));
    assert_eq!(PacketBuffer::dynamic().as_ref().to_string(), "PacketList(len=0)");
}

#[test]
fn status_codes_map_to_results() {
    assert_eq!(coremidi::status_result(0), Ok(()));
    assert_eq!(coremidi::status_result(-10830), Err(-10830));
}

#[test]
fn fixed_region_past_cursor_is_untouched() {
    let mut region = [0xaau8; 32];
    {
        let mut buf = PacketBuffer::fixed(&mut region);
        assert_eq!(buf.push_packet(2, &[0x90, 0x40, 0x7f]), Ok(()));
        assert_eq!(buf.push_packet(3, &[0u8; 20]), Err(PacketError::BufferFull));
    }
    assert_eq!(&region[0..4], &[1, 0, 0, 0]);
    assert!(region[17..].iter().all(|b| *b == 0xaa));
}
