use std::collections::BTreeSet;

use jap::{Ack, FileData, JapError, Packet, PacketValue, MTU};

fn data_packet(seq: u32, bytes: Vec<u8>, window: u32) -> Packet {
    Packet { seq, value: PacketValue::Data { data: FileData(bytes), window } }
}

fn ack_packet(seq: u32, cum: u32, sel: &[u32], adv_win: u32) -> Packet {
    let sel: BTreeSet<u32> = sel.iter().copied().collect();
    Packet { seq, value: PacketValue::Ack(Ack { cum, sel, adv_win }) }
}

#[test]
fn data_packet_bytes_are_exact() {
    let p = data_packet(300, vec![1, 2, 3], 7);
    assert_eq!(p.to_bytes(), vec![0xAC, 0x02, 1, 3, 1, 2, 3, 7]);
}

#[test]
fn ack_packet_bytes_are_exact() {
    let p = ack_packet(5, 9, &[130, 12], 4);
    assert_eq!(p.to_bytes(), vec![5, 2, 9, 2, 12, 0x82, 0x01, 4]);
}

#[test]
fn start_and_fin_bytes_are_exact() {
    let start = Packet { seq: 128, value: PacketValue::Start };
    assert_eq!(start.to_bytes(), vec![0x80, 0x01, 0]);
    let fin = Packet { seq: u32::MAX, value: PacketValue::Fin };
    assert_eq!(fin.to_bytes(), vec![0xFF, 0xFF, 0xFF, 0xFF, 0x0F, 3]);
}

#[test]
fn bytes_match_postcard_of_the_same_fields() {
    let p = data_packet(70000, (0..200u8).collect(), 3);
    let expected = postcard::to_allocvec(&(70000u32, 1u32, (0..200u8).collect::<Vec<u8>>(), 3u32)).unwrap();
    assert_eq!(p.to_bytes(), expected);

    let sel: BTreeSet<u32> = [7u32, 1_000_000, 3].into_iter().collect();
    let p = Packet { seq: 1, value: PacketValue::Ack(Ack { cum: 2, sel: sel.clone(), adv_win: 4 }) };
    let expected = postcard::to_allocvec(&(1u32, 2u32, 2u32, sel, 4u32)).unwrap();
    assert_eq!(p.to_bytes(), expected);
}

#[test]
fn every_variant_reads_back_with_the_rest() {
    let packets = vec![
        Packet { seq: 0, value: PacketValue::Start },
        data_packet(17, b"hello".to_vec(), 1),
        ack_packet(99, 12, &[14, 15, 40000], 8),
        Packet { seq: 4_000_000_000, value: PacketValue::Fin },
    ];
    for p in packets {
        let mut bytes = p.to_bytes();
        bytes.extend_from_slice(&[9, 9, 9]);
        let (q, rest) = Packet::take_from_bytes(&bytes).expect("a packet");
        assert_eq!(q, p);
        assert_eq!(rest, &[9, 9, 9]);
    }
}

#[test]
fn unknown_tag_and_short_input_are_rejected() {
    assert!(Packet::take_from_bytes(&[]).is_none());
    assert!(Packet::take_from_bytes(&[1]).is_none());
    assert!(Packet::take_from_bytes(&[1, 4]).is_none());
    // data that claims five bytes but carries two
    assert!(Packet::take_from_bytes(&[1, 1, 5, 1, 2]).is_none());
    // a varint of six bytes is not a u32
    assert!(Packet::take_from_bytes(&[0x80, 0x80, 0x80, 0x80, 0x80, 0x01, 0]).is_none());
    // a fifth byte above 0x0f overflows a u32
    assert!(Packet::take_from_bytes(&[0xFF, 0xFF, 0xFF, 0xFF, 0x10, 0]).is_none());
}

#[test]
fn duplicate_selective_acks_read_as_a_set() {
    // seq 1, ack, cum 2, three selective acks 5, 5, 3, adv 4
    let (p, rest) = Packet::take_from_bytes(&[1, 2, 2, 3, 5, 5, 3, 4]).unwrap();
    assert!(rest.is_empty());
    assert_eq!(p, ack_packet(1, 2, &[3, 5], 4));
}

#[test]
fn from_bytes_orders_by_seq_and_keeps_the_rest() {
    let a = data_packet(3, vec![3], 1);
    let b = Packet { seq: 1, value: PacketValue::Start };
    let c = data_packet(2, vec![2], 1);
    let d = Packet { seq: 2, value: PacketValue::Fin };
    let mut bytes = Vec::new();
    for p in [&a, &b, &c, &d] {
        bytes.extend(p.to_bytes());
    }
    bytes.extend_from_slice(&[0, 7]);
    let (list, rest) = Packet::from_bytes(&bytes);
    assert_eq!(list, vec![b, c, d, a]);
    assert_eq!(rest, &[0, 7]);
}

#[test]
fn from_bytes_of_nothing_is_nothing() {
    let (list, rest) = Packet::from_bytes(&[]);
    assert!(list.is_empty());
    assert!(rest.is_empty());
}

#[test]
fn datagram_refuses_what_exceeds_the_mtu() {
    let small = data_packet(1, vec![0; 10], 1);
    assert_eq!(small.to_datagram().unwrap(), small.to_bytes());
    assert!(small.fits_mtu());
    let big = data_packet(1, vec![0; MTU], 1);
    assert!(!big.fits_mtu());
    assert_eq!(big.to_datagram(), Err(JapError::ExceedsMtu));
    let sel: Vec<u32> = (1..=MTU as u32 + 1).collect();
    let many_acks = ack_packet(1, 0, &sel, 1);
    assert!(!many_acks.fits_mtu());
    assert_eq!(many_acks.to_datagram(), Err(JapError::ExceedsMtu));
}

#[test]
fn a_packet_of_exactly_the_mtu_fits() {
    // 1 byte of seq, 1 of tag, 2 of length, 1 of window: 1495 bytes of data
    let p = data_packet(1, vec![0; MTU - 5], 1);
    assert_eq!(p.to_bytes().len(), MTU);
    assert!(p.fits_mtu());
    let q = data_packet(1, vec![0; MTU - 4], 1);
    assert_eq!(q.to_bytes().len(), MTU + 1);
    assert!(!q.fits_mtu());
}

#[test]
fn file_data_shows_as_lossy_text() {
    assert_eq!(FileData(b"hi".to_vec()).debug_string(), "FileData(\"hi\")");
    assert_eq!(FileData(vec![b'a', 0xFF, b'"']).debug_string(), "FileData(\"a\u{FFFD}\\\"\")");
    assert_eq!(FileData::debug_frame("\"x\""), "FileData(\"x\")");
}

#[test]
fn equal_numbers_keep_their_arrival_order() {
    let first = data_packet(5, vec![1], 1);
    let second = data_packet(5, vec![2], 1);
    let third = data_packet(4, vec![3], 1);
    let mut bytes = Vec::new();
    for p in [&first, &second, &third] {
        bytes.extend(p.to_bytes());
    }
    let (list, _) = Packet::from_bytes(&bytes);
    assert_eq!(list, vec![third, first, second]);
}
