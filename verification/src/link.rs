//! Packets as they travel: IPv4 headers and Ethernet frames around echo messages.
use crate::addr::IpAddr;
use crate::bytes;
use crate::echo;
use vstd::prelude::*;

verus! {

/// An IPv4 header without options for an ICMP message that must not be fragmented.
pub open spec fn ip_header(total: nat, id: u16, check: u16, src: u32, dst: u32) -> Seq<u8> {
    seq![0x45u8, 0u8] + bytes::be(total, 2) + bytes::be(id as nat, 2) + bytes::be(0x4000, 2) + seq![
        64u8,
        1u8,
    ] + bytes::be(check as nat, 2) + bytes::be(src as nat, 4) + bytes::be(dst as nat, 4)
}

/// An Ethernet frame with an IPv4 packet around `msg`. The total length keeps its low
/// sixteen bits.
pub open spec fn link_frame(
    dst_mac: Seq<u8>,
    src_mac: Seq<u8>,
    src: u32,
    dst: u32,
    id: u16,
    msg: Seq<u8>,
) -> Seq<u8> {
    let total = (20 + msg.len()) % 0x1_0000;
    let check = echo::internet_checksum(ip_header(total, id, 0, src, dst));
    dst_mac + src_mac + seq![8u8, 0u8] + ip_header(total, id, check, src, dst) + msg
}

fn push_ip_header(out: &mut Vec<u8>, total: u16, id: u16, check: u16, src: u32, dst: u32)
    ensures
        final(out)@ == old(out)@ + ip_header(total as nat, id, check, src, dst),
{
    out.push(0x45);
    out.push(0);
    bytes::push_be(out, total as u128, 2);
    bytes::push_be(out, id as u128, 2);
    bytes::push_be(out, 0x4000, 2);
    out.push(64);
    out.push(1);
    bytes::push_be(out, check as u128, 2);
    bytes::push_be(out, src as u128, 4);
    bytes::push_be(out, dst as u128, 4);
    assert(out@ =~= old(out)@ + ip_header(total as nat, id, check, src, dst));
}

/// Frames an ICMP message to `dst`, which must be an IPv4 address.
pub fn build_frame(
    dst_mac: &[u8; 6],
    src_mac: &[u8; 6],
    src: u32,
    dst: IpAddr,
    id: u16,
    msg: &[u8],
) -> (r: Result<Vec<u8>, String>)
    requires
        dst is V4 ==> msg.len() + 34 <= isize::MAX,
    ensures
        match dst {
            IpAddr::V4(a) => r matches Ok(f) && f@ == link_frame(
                dst_mac@,
                src_mac@,
                src,
                a,
                id,
                msg@,
            ),
            IpAddr::V6(_) => r matches Err(e) && e@
                == "afpacket backend is IPv4-only (use fastping for IPv6)"@,
        },
{
    match dst {
        IpAddr::V6(_) => Err(
            "afpacket backend is IPv4-only (use fastping for IPv6)".to_owned(),
        ),
        IpAddr::V4(a) => {
            let total: u16 = ((20 + msg.len()) % 0x1_0000) as u16;
            let mut blank: Vec<u8> = Vec::new();
            push_ip_header(&mut blank, total, id, 0, src, a);
            assert(blank@ =~= ip_header(total as nat, id, 0, src, a));
            let check: u16 = echo::checksum(blank.as_slice());
            let mut f: Vec<u8> = Vec::new();
            bytes::push_all(&mut f, dst_mac.as_slice());
            bytes::push_all(&mut f, src_mac.as_slice());
            f.push(8);
            f.push(0);
            push_ip_header(&mut f, total, id, check, src, a);
            bytes::push_all(&mut f, msg);
            assert(f@ =~= link_frame(dst_mac@, src_mac@, src, a, id, msg@));
            Ok(f)
        },
    }
}

/// The identification that follows `id` after a message to `dst`: a message that is refused
/// takes none.
pub open spec fn id_after(dst: IpAddr, id: u16) -> u16 {
    match dst {
        IpAddr::V4(_) => ((id + 1) % 0x1_0000) as u16,
        IpAddr::V6(_) => id,
    }
}

/// Frames an ICMP message to `dst` under the next identification, see [`build_frame`]. A message
/// to an IPv6 address is refused and leaves the identification as it is.
pub fn next_frame(
    dst_mac: &[u8; 6],
    src_mac: &[u8; 6],
    src: u32,
    dst: IpAddr,
    id: &mut u16,
    msg: &[u8],
) -> (r: Result<Vec<u8>, String>)
    requires
        dst is V4 ==> msg.len() + 34 <= isize::MAX,
    ensures
        *final(id) == id_after(dst, *old(id)),
        match dst {
            IpAddr::V4(a) => r matches Ok(f) && f@ == link_frame(
                dst_mac@,
                src_mac@,
                src,
                a,
                *old(id),
                msg@,
            ),
            IpAddr::V6(_) => r matches Err(e) && e@
                == "afpacket backend is IPv4-only (use fastping for IPv6)"@ && *final(id) == *old(
                id,
            ),
        },
{
    let r = build_frame(dst_mac, src_mac, src, dst, *id, msg);
    if !dst.is_ipv6() {
        *id = id.wrapping_add(1);
    }
    r
}

/// The length of the header of an IPv4 packet that begins with `first`.
pub open spec fn header_len(first: u8) -> nat {
    (first as nat % 16) * 4
}

/// The message and the source address of a captured frame, if it is an IPv4 packet with an
/// ICMP message.
pub open spec fn frame_message(data: Seq<u8>) -> Option<(Seq<u8>, u32)> {
    let ip = data.skip(14);
    if data.len() >= 34 && data[12] == 8 && data[13] == 0 && ip[0] / 16 == 4 && ip[9] == 1
        && header_len(ip[0]) <= ip.len() {
        Some((ip.skip(header_len(ip[0]) as int), bytes::be_value(ip.subrange(12, 16)) as u32))
    } else {
        None
    }
}

/// Reads a captured frame, see [`frame_message`]: copies as much of the message as fits to
/// the front of `buf`, and says how much that is and where it comes from.
pub fn parse_frame(data: &[u8], buf: &mut [u8]) -> (r: Option<(usize, IpAddr)>)
    ensures
        match frame_message(data@) {
            Some((msg, src)) => {
                let n = if msg.len() < old(buf)@.len() {
                    msg.len()
                } else {
                    old(buf)@.len()
                };
                r == Some((n as usize, IpAddr::V4(src))) && final(buf)@ == msg.take(n as int)
                    + old(buf)@.skip(n as int)
            },
            None => r is None && final(buf)@ == old(buf)@,
        },
{
    if data.len() < 14 || data[12] != 8 || data[13] != 0 {
        return None;
    }
    if data.len() - 14 < 20 || data[14] / 16 != 4 {
        return None;
    }
    let ihl: usize = (data[14] % 16) as usize * 4;
    if data[23] != 1 {
        return None;
    }
    if ihl > data.len() - 14 {
        return None;
    }
    let src: u64 = bytes::read_be(data, 26, 4);
    proof {
        assert(data@.skip(14).subrange(12, 16) =~= data@.subrange(26, 30));
        bytes::lemma_value_bound(data@.subrange(26, 30));
        bytes::lemma_capacities();
    }
    let start: usize = 14 + ihl;
    let ghost msg = data@.skip(14).skip(ihl as int);
    assert(msg =~= data@.skip(start as int));
    let n: usize = if data.len() - start < buf.len() {
        data.len() - start
    } else {
        buf.len()
    };
    let ghost before = buf@;
    assert(msg.take(0) + before.skip(0) =~= before);
    for i in 0..n
        invariant
            n <= before.len(),
            start + n <= data.len(),
            msg == data@.skip(start as int),
            buf@ == msg.take(i as int) + before.skip(i as int),
    {
        buf[i] = data[start + i];
        assert(buf@ =~= msg.take(i + 1) + before.skip(i + 1));
    }
    Some((n, IpAddr::V4(src as u32)))
}

/// The ICMP message in what a raw socket received: an IPv6 socket delivers the message
/// alone, an IPv4 socket delivers the packet.
pub open spec fn socket_message(data: Seq<u8>, v6: bool) -> Option<Seq<u8>> {
    if v6 {
        Some(data)
    } else if data.len() >= 20 && header_len(data[0]) <= data.len() {
        Some(data.skip(header_len(data[0]) as int))
    } else {
        None
    }
}

/// Finds the ICMP message in what a raw socket received.
pub fn strip_ip_header(data: &[u8], v6: bool) -> (r: Option<&[u8]>)
    ensures
        match (r, socket_message(data@, v6)) {
            (Some(a), Some(b)) => a@ == b,
            (None, None) => true,
            _ => false,
        },
{
    if v6 {
        return Some(data);
    }
    if data.len() < 20 {
        return None;
    }
    let ihl: usize = (data[0] % 16) as usize * 4;
    if ihl > data.len() {
        return None;
    }
    let rest = vstd::slice::slice_subrange(data, ihl, data.len());
    assert(rest@ =~= data@.skip(ihl as int));
    Some(rest)
}

proof fn lemma_ip_header_len(total: nat, id: u16, check: u16, src: u32, dst: u32)
    ensures
        ip_header(total, id, check, src, dst).len() == 20,
{
    bytes::lemma_be(total, 2);
    bytes::lemma_be(id as nat, 2);
    bytes::lemma_be(0x4000, 2);
    bytes::lemma_be(check as nat, 2);
    bytes::lemma_be(src as nat, 4);
    bytes::lemma_be(dst as nat, 4);
}

/// A frame gives back its message and its source.
pub proof fn law_frame_gives_back_its_message(
    dst_mac: Seq<u8>,
    src_mac: Seq<u8>,
    src: u32,
    dst: u32,
    id: u16,
    msg: Seq<u8>,
)
    requires
        dst_mac.len() == 6,
        src_mac.len() == 6,
    ensures
        frame_message(link_frame(dst_mac, src_mac, src, dst, id, msg)) == Some((msg, src)),
{
    let total = (20 + msg.len()) % 0x1_0000;
    let check = echo::internet_checksum(ip_header(total, id, 0, src, dst));
    let h = ip_header(total, id, check, src, dst);
    let f = link_frame(dst_mac, src_mac, src, dst, id, msg);
    lemma_ip_header_len(total, id, check, src, dst);
    bytes::lemma_be(total, 2);
    bytes::lemma_be(id as nat, 2);
    bytes::lemma_be(0x4000, 2);
    bytes::lemma_be(check as nat, 2);
    bytes::lemma_be(src as nat, 4);
    bytes::lemma_capacities();
    let ip = f.skip(14);
    assert(ip =~= h + msg);
    assert(ip.skip(20) =~= msg);
    assert(ip.subrange(12, 16) =~= bytes::be(src as nat, 4));
}

/// The IPv4 header of a frame carries a checksum that verifies.
pub proof fn law_frame_header_verifies(
    dst_mac: Seq<u8>,
    src_mac: Seq<u8>,
    src: u32,
    dst: u32,
    id: u16,
    msg: Seq<u8>,
)
    requires
        dst_mac.len() == 6,
        src_mac.len() == 6,
    ensures
        echo::internet_checksum(
            link_frame(dst_mac, src_mac, src, dst, id, msg).subrange(14, 34),
        ) == 0,
{
    let total = (20 + msg.len()) % 0x1_0000;
    let check = echo::internet_checksum(ip_header(total, id, 0, src, dst));
    let f = link_frame(dst_mac, src_mac, src, dst, id, msg);
    lemma_ip_header_len(total, id, check, src, dst);
    assert(f.subrange(14, 34) =~= ip_header(total, id, check, src, dst));
    bytes::lemma_be(total, 2);
    bytes::lemma_be(id as nat, 2);
    bytes::lemma_be(0x4000, 2);
    let head = seq![0x45u8, 0u8] + bytes::be(total, 2) + bytes::be(id as nat, 2) + bytes::be(
        0x4000,
        2,
    ) + seq![64u8, 1u8];
    let tail = bytes::be(src as nat, 4) + bytes::be(dst as nat, 4);
    assert(ip_header(total, id, check, src, dst) =~= head + bytes::be(check as nat, 2) + tail);
    assert(ip_header(total, id, 0, src, dst) =~= head + bytes::be(0, 2) + tail);
    echo::law_checksum_verifies(head, tail);
}

/// The identification after messages to the targets in order.
pub open spec fn id_after_all(dsts: Seq<IpAddr>, id: u16) -> u16
    decreases dsts.len(),
{
    if dsts.len() == 0 {
        id
    } else {
        id_after(dsts.last(), id_after_all(dsts.drop_last(), id))
    }
}

/// How many of the targets are IPv4 addresses.
pub open spec fn ipv4_count(dsts: Seq<IpAddr>) -> nat
    decreases dsts.len(),
{
    if dsts.len() == 0 {
        0
    } else {
        ipv4_count(dsts.drop_last()) + if dsts.last() is V4 {
            1nat
        } else {
            0
        }
    }
}

/// A refused message leaves the identification unchanged: the next frame carries the one that it
/// would have carried without it.
pub proof fn law_refused_message_takes_no_id(
    before: Seq<IpAddr>,
    refused: IpAddr,
    after: Seq<IpAddr>,
    id: u16,
)
    requires
        refused is V6,
    ensures
        id_after_all(before + seq![refused] + after, id) == id_after_all(before + after, id),
    decreases after.len(),
{
    let with = before + seq![refused] + after;
    let without = before + after;
    if after.len() == 0 {
        assert(with.drop_last() =~= before);
        assert(without =~= before);
    } else {
        law_refused_message_takes_no_id(before, refused, after.drop_last(), id);
        assert(with.drop_last() =~= before + seq![refused] + after.drop_last());
        assert(without.drop_last() =~= before + after.drop_last());
    }
}

/// Frames are numbered one after the other, modulo 65536.
pub proof fn law_ids_count_frames(dsts: Seq<IpAddr>, id: u16)
    ensures
        id_after_all(dsts, id) == (id + ipv4_count(dsts)) % 0x1_0000,
    decreases dsts.len(),
{
    if dsts.len() > 0 {
        law_ids_count_frames(dsts.drop_last(), id);
    }
}

/// The fields of a frame stand at their places: the hardware addresses, the type of IPv4, and the
/// header with version, length, identification, the flag against fragments, time to live and
/// protocol; the source and the destination are those asked for, in network order, and the
/// message follows.
pub proof fn law_frame_layout(
    dst_mac: Seq<u8>,
    src_mac: Seq<u8>,
    src: u32,
    dst: u32,
    id: u16,
    msg: Seq<u8>,
)
    requires
        dst_mac.len() == 6,
        src_mac.len() == 6,
    ensures
        ({
            let f = link_frame(dst_mac, src_mac, src, dst, id, msg);
            &&& f.len() == 34 + msg.len()
            &&& f.take(6) == dst_mac
            &&& f.subrange(6, 12) == src_mac
            &&& f[12] == 8 && f[13] == 0
            &&& f[14] == 0x45 && f[15] == 0
            &&& bytes::be_value(f.subrange(16, 18)) == (20 + msg.len()) % 65536
            &&& bytes::be_value(f.subrange(18, 20)) == id
            &&& f[20] == 0x40 && f[21] == 0
            &&& f[22] == 64 && f[23] == 1
            &&& bytes::be_value(f.subrange(26, 30)) == src
            &&& bytes::be_value(f.subrange(30, 34)) == dst
            &&& f.skip(34) == msg
        }),
{
    let total = (20 + msg.len()) % 0x1_0000;
    let check = echo::internet_checksum(ip_header(total, id, 0, src, dst));
    let f = link_frame(dst_mac, src_mac, src, dst, id, msg);
    lemma_ip_header_len(total, id, check, src, dst);
    bytes::lemma_capacities();
    bytes::lemma_be(total, 2);
    bytes::lemma_be(id as nat, 2);
    bytes::lemma_be(0x4000, 2);
    bytes::lemma_be(check as nat, 2);
    bytes::lemma_be(src as nat, 4);
    bytes::lemma_be(dst as nat, 4);
    assert(f.take(6) =~= dst_mac);
    assert(f.subrange(6, 12) =~= src_mac);
    assert(f.subrange(16, 18) =~= bytes::be(total, 2));
    assert(f.subrange(18, 20) =~= bytes::be(id as nat, 2));
    assert(f.subrange(20, 22) =~= bytes::be(0x4000, 2));
    assert(bytes::be(0x4000, 2) =~= seq![0x40u8, 0u8]) by {
        reveal_with_fuel(bytes::be, 3);
    }
    assert(f[20] == f.subrange(20, 22)[0] && f[21] == f.subrange(20, 22)[1]);
    assert(f.subrange(26, 30) =~= bytes::be(src as nat, 4));
    assert(f.subrange(30, 34) =~= bytes::be(dst as nat, 4));
    assert(f.skip(34) =~= msg);
}

/// A captured IPv4 packet gives its message and its source whatever options its header holds: the
/// header has as many words of four bytes as the low half of its first byte says.
pub proof fn law_header_options_are_skipped(link: Seq<u8>, header: Seq<u8>, msg: Seq<u8>, words: u8)
    requires
        link.len() == 14,
        link[12] == 8,
        link[13] == 0,
        5 <= words <= 15,
        header.len() == 4 * words,
        header[0] == 0x40 + words,
        header[9] == 1,
    ensures
        frame_message(link + header + msg) == Some(
            (msg, bytes::be_value(header.subrange(12, 16)) as u32),
        ),
        socket_message(header + msg, false) == Some(msg),
        socket_message(header + msg, true) == Some(header + msg),
{
    let data = link + header + msg;
    let ip = data.skip(14);
    assert(ip =~= header + msg);
    assert(ip[0] == header[0]);
    assert(ip.skip(4 * words as int) =~= msg);
    assert(ip.subrange(12, 16) =~= header.subrange(12, 16));
}

/// What is no IPv4 packet with an ICMP message is passed over, and so is a header that claims more
/// than was captured.
pub proof fn law_other_frames_are_passed_over(data: Seq<u8>)
    requires
        ({
            ||| data.len() < 34
            ||| data[12] != 8 || data[13] != 0
            ||| data[14] < 0x40 || data[14] > 0x4f
            ||| data[23] != 1
            ||| data.len() < 14 + 4 * (data[14] % 16)
        }),
    ensures
        frame_message(data) is None,
{
}

/// A captured frame gives a message exactly if it is long enough for the headers, of the type of
/// IPv4, of version 4 with ICMP inside, and holds the header it claims; the message is all after
/// that header, and the source stands in bytes 26 to 29.
pub proof fn law_what_a_captured_frame_gives(data: Seq<u8>)
    ensures
        frame_message(data) is Some <==> {
            &&& data.len() >= 34
            &&& data[12] == 8 && data[13] == 0
            &&& 0x40 <= data[14] <= 0x4f
            &&& data[23] == 1
            &&& data.len() >= 14 + 4 * (data[14] - 0x40)
        },
        frame_message(data) matches Some((msg, src)) ==> {
            &&& msg == data.skip(14 + 4 * (data[14] - 0x40))
            &&& src == bytes::be_value(data.subrange(26, 30))
        },
{
    if data.len() >= 34 {
        let ip = data.skip(14);
        assert(ip.subrange(12, 16) =~= data.subrange(26, 30));
        bytes::lemma_value_bound(data.subrange(26, 30));
        bytes::lemma_capacities();
        if frame_message(data) is Some {
            assert(ip.skip(4 * (data[14] - 0x40)) =~= data.skip(14 + 4 * (data[14] - 0x40)));
        }
    }
}

/// What an IPv6 socket received is the message; what an IPv4 socket received is a packet of at
/// least 20 bytes that holds the header it claims, and the message is all after that header.
pub proof fn law_what_a_socket_gives(data: Seq<u8>)
    ensures
        socket_message(data, true) == Some(data),
        socket_message(data, false) is Some <==> data.len() >= 20 && data.len() >= 4 * (data[0]
            % 16),
        socket_message(data, false) matches Some(msg) ==> msg == data.skip(4 * (data[0] % 16)),
{
}

} // verus!
