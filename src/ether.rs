use vstd::prelude::*;
use crate::frame::Frame;
use crate::mac::MacAddr;

verus! {

broadcast use Frame::lemma_view, Frame::lemma_shifted;

/// Bytes in an Ethernet header: destination, source, EtherType.
pub const HEADER_LEN: usize = 14;

/// The EtherType that marks a frame relayed between link types.
pub const RELAY_ETHERTYPE: u16 = 5401;

/// The two bytes of `t`, most significant first.
pub open spec fn be16(t: u16) -> Seq<u8> {
    seq![(t / 256) as u8, (t % 256) as u8]
}

/// The header that names `dst`, `src` and EtherType `t`.
pub open spec fn header(dst: Seq<u8>, src: Seq<u8>, t: u16) -> Seq<u8> {
    dst + src + be16(t)
}

/// A frame is long enough to hold a header.
pub open spec fn parses(b: Seq<u8>) -> bool {
    b.len() >= HEADER_LEN
}

pub open spec fn destination_of(b: Seq<u8>) -> Seq<u8> {
    b.subrange(0, 6)
}

pub open spec fn source_of(b: Seq<u8>) -> Seq<u8> {
    b.subrange(6, 12)
}

pub open spec fn ethertype_of(b: Seq<u8>) -> int {
    b[12] * 256 + b[13]
}

pub open spec fn payload_of(b: Seq<u8>) -> Seq<u8> {
    b.subrange(HEADER_LEN as int, b.len() as int)
}

fn mac_at(data: &[u8], at: usize) -> (r: MacAddr)
    requires
        at + 6 <= data@.len(),
    ensures
        r@ == data@.subrange(at as int, at + 6),
{
    let r = MacAddr::new(
        [data[at], data[at + 1], data[at + 2], data[at + 3], data[at + 4], data[at + 5]],
    );
    assert(r@ =~= data@.subrange(at as int, at + 6));
    r
}

/// The destination address, or `None` when `data` is shorter than a header.
pub fn destination(data: &[u8]) -> (r: Option<MacAddr>)
    ensures
        r is Some <==> parses(data@),
        r matches Some(m) ==> m@ == destination_of(data@),
{
    if data.len() < HEADER_LEN {
        None
    } else {
        Some(mac_at(data, 0))
    }
}

/// The source address, or `None` when `data` is shorter than a header.
pub fn source(data: &[u8]) -> (r: Option<MacAddr>)
    ensures
        r is Some <==> parses(data@),
        r matches Some(m) ==> m@ == source_of(data@),
{
    if data.len() < HEADER_LEN {
        None
    } else {
        Some(mac_at(data, 6))
    }
}

/// The EtherType, read big-endian, or `None` when `data` is shorter than a header.
pub fn ethertype(data: &[u8]) -> (r: Option<u16>)
    ensures
        r is Some <==> parses(data@),
        r matches Some(t) ==> t == ethertype_of(data@),
{
    if data.len() < HEADER_LEN {
        None
    } else {
        Some((data[12] as u16) * 256 + data[13] as u16)
    }
}

/// The bytes after the header, or `None` when `data` is shorter than a header.
pub fn payload(data: &[u8]) -> (r: Option<&[u8]>)
    ensures
        r is Some <==> parses(data@),
        r matches Some(p) ==> p@ == payload_of(data@),
{
    if data.len() < HEADER_LEN {
        None
    } else {
        Some(&data[HEADER_LEN..data.len()])
    }
}

fn push_mac(out: &mut Vec<u8>, m: &MacAddr)
    ensures
        final(out)@ == old(out)@ + m@,
{
    let o = m.octets();
    let mut i: usize = 0;
    while i < 6
        invariant
            0 <= i <= 6,
            o@ == m@,
            out@ == old(out)@ + m@.subrange(0, i as int),
        decreases 6 - i,
    {
        out.push(o[i]);
        i += 1;
        assert(out@ =~= old(out)@ + m@.subrange(0, i as int));
    }
    assert(m@.subrange(0, 6) =~= m@);
}

/// A new frame: a header for `dst`, `src` and `t`, then `body`.
pub fn build(dst: &MacAddr, src: &MacAddr, t: u16, body: &[u8]) -> (r: Vec<u8>)
    ensures
        r@ == header(dst@, src@, t) + body@,
{
    let mut r: Vec<u8> = Vec::new();
    push_mac(&mut r, dst);
    push_mac(&mut r, src);
    r.push((t / 256) as u8);
    r.push((t % 256) as u8);
    let ghost h = r@;
    assert(h =~= header(dst@, src@, t));
    let mut i: usize = 0;
    while i < body.len()
        invariant
            0 <= i <= body@.len(),
            r@ == h + body@.subrange(0, i as int),
        decreases body@.len() - i,
    {
        r.push(body[i]);
        i += 1;
        assert(r@ =~= h + body@.subrange(0, i as int));
    }
    assert(body@.subrange(0, body@.len() as int) =~= body@);
    r
}

/// Overwrites the first bytes of the frame with a header for `dst`, `src`
/// and `t`; the rest stays as it was.
pub fn write_header(frame: &mut Frame, dst: &MacAddr, src: &MacAddr, t: u16)
    requires
        old(frame).wf(),
        parses(old(frame)@),
    ensures
        final(frame).wf(),
        final(frame).head_spec() == old(frame).head_spec(),
        final(frame).tail_spec() == old(frame).tail_spec(),
        final(frame)@ == header(dst@, src@, t) + payload_of(old(frame)@),
{
    let d = dst.octets();
    let s = src.octets();
    let ghost h = header(dst@, src@, t);
    assert(h.len() == HEADER_LEN);
    let mut i: usize = 0;
    while i < HEADER_LEN
        invariant
            0 <= i <= HEADER_LEN,
            h == header(dst@, src@, t),
            h.len() == HEADER_LEN,
            d@ == dst@,
            s@ == src@,
            frame.wf(),
            frame.head_spec() == old(frame).head_spec(),
            frame.tail_spec() == old(frame).tail_spec(),
            frame@.len() == old(frame)@.len(),
            parses(old(frame)@),
            forall|k: int| 0 <= k < i ==> frame@[k] == h[k],
            forall|k: int| i <= k < frame@.len() ==> frame@[k] == old(frame)@[k],
        decreases HEADER_LEN - i,
    {
        let b = if i < 6 {
            d[i]
        } else if i < 12 {
            s[i - 6]
        } else if i == 12 {
            (t / 256) as u8
        } else {
            (t % 256) as u8
        };
        assert(b == h[i as int]);
        frame.set_byte(i, b);
        i += 1;
    }
    assert(frame@ =~= header(dst@, src@, t) + payload_of(old(frame)@));
}

/// Puts a relay header in front of the frame, in its headroom: no byte of
/// the old contents moves. Returns the new length.
pub fn encapsulate(frame: &mut Frame, dst: &MacAddr, src: &MacAddr) -> (r: usize)
    requires
        old(frame).wf(),
        old(frame).head_spec() >= HEADER_LEN,
    ensures
        final(frame).wf(),
        final(frame).allocation().subrange(
            old(frame).head_spec(),
            old(frame).tail_spec(),
        ) == old(frame)@,
        final(frame)@ == header(dst@, src@, RELAY_ETHERTYPE) + old(frame)@,
        final(frame).head_spec() == old(frame).head_spec() - HEADER_LEN,
        final(frame).tail_spec() == old(frame).tail_spec(),
        r == final(frame)@.len(),
{
    frame.adjust_head(-14);
    proof {
        let f = old(frame).shifted(-14);
        assert(payload_of(f@) =~= old(frame)@);
    }
    write_header(frame, dst, src, RELAY_ETHERTYPE);
    proof {
        assert(frame.allocation().subrange(old(frame).head_spec(), old(frame).tail_spec())
            =~= old(frame)@) by {
            let off = old(frame).head_spec() - frame.head_spec();
            assert forall|k: int| 0 <= k < old(frame)@.len() implies
                frame.allocation().subrange(old(frame).head_spec(), old(frame).tail_spec())[k]
                    == old(frame)@[k] by {
                assert(frame@[off + k] == frame.allocation()[frame.head_spec() + off + k]);
            }
        }
    }
    frame.len()
}

/// Strips the outer header, without copying. Returns the new length.
pub fn decapsulate(frame: &mut Frame) -> (r: usize)
    requires
        old(frame).wf(),
        parses(old(frame)@),
    ensures
        final(frame).wf(),
        final(frame)@ == payload_of(old(frame)@),
        final(frame).allocation() == old(frame).allocation(),
        final(frame).head_spec() == old(frame).head_spec() + HEADER_LEN,
        final(frame).tail_spec() == old(frame).tail_spec(),
        r == final(frame)@.len(),
{
    frame.adjust_head(14);
    assert(frame@ =~= payload_of(old(frame)@));
    frame.len()
}

/// A probe frame for sequence number `seq`: a relay header, then `size`
/// bytes that all hold the low byte of `seq`.
pub fn probe_frame(dst: &MacAddr, src: &MacAddr, seq: u32, size: u8) -> (r: Vec<u8>)
    ensures
        r@ == header(dst@, src@, RELAY_ETHERTYPE) + Seq::new(size as nat, |i: int| (seq % 256) as u8),
{
    let b = (seq % 256) as u8;
    let mut body: Vec<u8> = Vec::new();
    let mut i: u8 = 0;
    while i < size
        invariant
            0 <= i <= size,
            b == (seq % 256) as u8,
            body@ == Seq::new(i as nat, |j: int| (seq % 256) as u8),
        decreases size - i,
    {
        body.push(b);
        i += 1;
        assert(body@ =~= Seq::new(i as nat, |j: int| (seq % 256) as u8));
    }
    build(dst, src, RELAY_ETHERTYPE, body.as_slice())
}

/// The sequence number a received probe carries: the first payload byte,
/// when the frame holds a header and exactly `size` payload bytes, `size`
/// being at least one.
pub fn probe_id(data: &[u8], size: u8) -> (r: Option<u8>)
    ensures
        r is Some <==> parses(data@) && payload_of(data@).len() == size && size > 0,
        r matches Some(id) ==> id == payload_of(data@)[0],
{
    match payload(data) {
        Some(p) => {
            if p.len() == size as usize && size > 0 {
                Some(p[0])
            } else {
                None
            }
        },
        None => None,
    }
}

} // verus!
