use netem_switch::ether::{
    build, decapsulate, destination, encapsulate, ethertype, payload, probe_frame, probe_id, source,
    write_header, HEADER_LEN, RELAY_ETHERTYPE,
};
use netem_switch::frame::Frame;
use netem_switch::mac::MacAddr;

fn mac(b: u8) -> MacAddr {
    MacAddr::new([b, 1, 2, 3, 4, 5])
}

#[test]
fn adjust_head_round_trip_restores_view() {
    let mut f = Frame::new((0u8..40).collect(), 16);
    let before = f.to_vec();
    f.adjust_head(-14);
    assert_eq!(f.len(), before.len() + 14);
    assert_eq!(f.headroom(), 2);
    f.adjust_head(14);
    assert_eq!(f.len(), before.len());
    assert_eq!(f.to_vec(), before);
    assert_eq!(f.data_ref(), &before[..]);
    assert_eq!(f.headroom(), 16);
}

#[test]
fn adjust_head_bounds() {
    let f = Frame::new(vec![0; 20], 4);
    assert!(f.can_adjust_head(-4));
    assert!(!f.can_adjust_head(-5));
    assert!(f.can_adjust_head(16));
    assert!(!f.can_adjust_head(17));
}

#[test]
fn adjust_head_exposes_headroom_bytes() {
    let mut f = Frame::new(vec![7, 8, 9, 10], 2);
    assert_eq!(f.data_ref(), &[9, 10]);
    f.adjust_head(-2);
    assert_eq!(f.data_ref(), &[7, 8, 9, 10]);
    f.adjust_head(3);
    assert_eq!(f.data_ref(), &[10]);
}

#[test]
fn set_byte_changes_one_byte() {
    let mut f = Frame::new(vec![0, 0, 1, 2, 3], 2);
    f.set_byte(1, 9);
    assert_eq!(f.to_vec(), vec![1, 9, 3]);
}

#[test]
fn header_fields_are_read_from_their_places() {
    let data = build(&mac(0xaa), &mac(0xbb), 0x1519, &[5, 6, 7]);
    assert_eq!(data.len(), 17);
    assert_eq!(destination(&data).unwrap().octets(), [0xaa, 1, 2, 3, 4, 5]);
    assert_eq!(source(&data).unwrap().octets(), [0xbb, 1, 2, 3, 4, 5]);
    assert_eq!(ethertype(&data), Some(5401));
    assert_eq!(payload(&data), Some(&[5u8, 6, 7][..]));
}

#[test]
fn header_needs_fourteen_bytes() {
    let short = [0u8; 13];
    assert!(destination(&short).is_none());
    assert!(source(&short).is_none());
    assert!(ethertype(&short).is_none());
    assert!(payload(&short).is_none());
    let exact = [0u8; HEADER_LEN];
    assert_eq!(payload(&exact), Some(&[][..]));
}

#[test]
fn built_header_layout() {
    let data = build(&mac(0xaa), &mac(0xbb), RELAY_ETHERTYPE, &[]);
    assert_eq!(data, vec![0xaa, 1, 2, 3, 4, 5, 0xbb, 1, 2, 3, 4, 5, 0x15, 0x19]);
}

#[test]
fn write_header_keeps_payload() {
    let mut f = Frame::from_bytes(vec![0; 14].into_iter().chain([1, 2]).collect());
    write_header(&mut f, &mac(0xaa), &mac(0xbb), 0x0800);
    assert_eq!(f.to_vec(), build(&mac(0xaa), &mac(0xbb), 0x0800, &[1, 2]));
}

#[test]
fn encapsulate_then_decapsulate_in_place() {
    let mut f = Frame::new(vec![0, 0, 0, 0, 0, 0, 0, 0, 0, 0, 0, 0, 0, 0, 0, 0, 0xde, 0xad], 16);
    let n = encapsulate(&mut f, &mac(0xaa), &mac(0xbb));
    assert_eq!(n, 16);
    assert_eq!(f.to_vec(), build(&mac(0xaa), &mac(0xbb), RELAY_ETHERTYPE, &[0xde, 0xad]));
    assert_eq!(f.headroom(), 2);
    let m = decapsulate(&mut f);
    assert_eq!(m, 2);
    assert_eq!(f.to_vec(), vec![0xde, 0xad]);
    assert_eq!(f.headroom(), 16);
}

#[test]
fn probe_round_trip() {
    let p = probe_frame(&mac(0xaa), &mac(0xbb), 258, 16);
    assert_eq!(p.len(), 30);
    assert_eq!(ethertype(&p), Some(RELAY_ETHERTYPE));
    assert_eq!(probe_id(&p, 16), Some(2));
    assert_eq!(probe_id(&p, 15), None);
    assert_eq!(probe_id(&p[..10], 16), None);
}

#[test]
fn empty_probe_carries_no_id() {
    let p = probe_frame(&mac(0xaa), &mac(0xbb), 3, 0);
    assert_eq!(p.len(), 14);
    assert_eq!(probe_id(&p, 0), None);
}
