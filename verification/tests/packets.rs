use jap::{Ack, JapError, Packet, PacketValue, MTU};

fn payload(p: &Packet) -> (&[u8], u32) {
    match &p.value {
        PacketValue::Data { data, window } => (data.as_slice(), *window),
        _ => panic!("not a data packet"),
    }
}

#[test]
fn small_data_is_one_packet_with_window_one() {
    let mut seq = 41;
    let out = Packet::data(&mut seq, b"abc".to_vec(), 9).unwrap();
    assert_eq!(out.len(), 1);
    assert_eq!(out[0].seq, 41);
    assert_eq!(payload(&out[0]), (&b"abc"[..], 1));
    assert_eq!(seq, 41);
}

#[test]
fn empty_data_is_one_empty_packet() {
    let mut seq = 0;
    let out = Packet::data(&mut seq, Vec::new(), 9).unwrap();
    assert_eq!(out.len(), 1);
    assert_eq!(payload(&out[0]).0.len(), 0);
    assert_eq!(seq, 0);
}

#[test]
fn large_data_is_fragmented_in_order() {
    let seg = Packet::max_segment_size();
    assert!(seg > 0);
    assert!(seg <= MTU);
    let data: Vec<u8> = (0..5000u32).map(|i| (i % 251) as u8).collect();
    let mut seq = 10;
    let out = Packet::data(&mut seq, data.clone(), 6).unwrap();
    assert_eq!(out.len(), (data.len() + seg - 1) / seg);
    let mut joined = Vec::new();
    for (i, p) in out.iter().enumerate() {
        assert_eq!(p.seq, 11 + i as u32);
        let (bytes, window) = payload(p);
        assert_eq!(window, 6);
        assert!(!bytes.is_empty() && bytes.len() <= seg);
        joined.extend_from_slice(bytes);
        if seg + 21 <= MTU {
            assert!(p.fits_mtu());
        }
    }
    assert_eq!(joined, data);
    assert_eq!(seq, 10 + out.len() as u32);
}

#[test]
fn fragment_numbers_wrap_around() {
    let seg = Packet::max_segment_size();
    let data = vec![1u8; 2 * seg + 1];
    let mut seq = u32::MAX - 1;
    let out = Packet::data(&mut seq, data, 2).unwrap();
    assert_eq!(out.len(), 3);
    assert_eq!(out[0].seq, u32::MAX);
    assert_eq!(out[1].seq, 0);
    assert_eq!(out[2].seq, 1);
    assert_eq!(seq, 1);
}

#[test]
fn fin_takes_the_next_number() {
    let mut seq = 7;
    let p = Packet::fin(&mut seq);
    assert_eq!(seq, 8);
    assert_eq!(p, Packet { seq: 8, value: PacketValue::Fin });
}

#[test]
fn fin_wraps_around() {
    let mut seq = u32::MAX;
    let p = Packet::fin(&mut seq);
    assert_eq!(seq, 0);
    assert_eq!(p, Packet { seq: 0, value: PacketValue::Fin });
}

#[test]
fn an_oversized_ack_cannot_be_fragmented() {
    let sel = (1..=MTU as u32 + 1).collect();
    let p = Packet { seq: 1, value: PacketValue::Ack(Ack { cum: 0, sel, adv_win: 1 }) };
    assert_eq!(p.fragment(4).err(), Some(JapError::NonDataExceedsMtu));
}

#[test]
fn a_packet_that_fits_is_its_own_fragment() {
    let p = Packet { seq: 12, value: PacketValue::Start };
    let (list, last) = p.fragment(4).unwrap();
    assert_eq!(list, vec![Packet { seq: 12, value: PacketValue::Start }]);
    assert_eq!(last, 12);
}
