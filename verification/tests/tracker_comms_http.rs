//! Announces over HTTP.

use librtbit_tracker_comms::addr::{
    IpAddr, Ipv4Addr, Ipv6Addr, SocketAddr, SocketAddrV4, SocketAddrV6,
};
use librtbit_tracker_comms::compact_ip::CompactListInBuffer;
use librtbit_tracker_comms::hash_id::Id20;
use librtbit_tracker_comms::tracker_comms_http::{
    ByteBuf, DictPeers, Peers, TrackerRequest, TrackerRequestEvent, TrackerResponse,
    MAX_DICT_PEERS,
};

fn ipv4(octets: [u8; 4]) -> IpAddr {
    IpAddr::V4(Ipv4Addr {
        bits: u32::from_be_bytes(octets),
    })
}

fn ipv6(segments: [u16; 8]) -> IpAddr {
    let mut bits: u128 = 0;
    for segment in segments {
        bits = bits * 0x1_0000 + segment as u128;
    }
    IpAddr::V6(Ipv6Addr { bits })
}

fn v4(octets: [u8; 4], port: u16) -> SocketAddr {
    SocketAddr::new(ipv4(octets), port)
}

fn v6(segments: [u16; 8], port: u16) -> SocketAddr {
    SocketAddr::new(ipv6(segments), port)
}

fn compact4(bytes: &[u8]) -> Peers<'_, SocketAddrV4> {
    Peers::Compact(CompactListInBuffer::new_from_buf(bytes))
}

fn compact6(bytes: &[u8]) -> Peers<'_, SocketAddrV6> {
    Peers::Compact(CompactListInBuffer::new_from_buf(bytes))
}

/// A response that holds nothing but an interval and peers.
fn response<'a>(interval: u64, peers: Peers<'a, SocketAddrV4>) -> TrackerResponse<'a> {
    TrackerResponse {
        warning_message: None,
        complete: 0,
        interval,
        min_interval: None,
        tracker_id: None,
        incomplete: 0,
        peers,
        peers6: Peers::default(),
    }
}

#[test]
fn test_serialize() {
    let info_hash = Id20::new([
        1u8, 2, 3, 4, 5, 6, 7, 8, 9, 10, 11, 12, 13, 14, 15, 16, 17, 18, 19, 20,
    ]);
    let peer_id = info_hash;
    let request = TrackerRequest {
        info_hash: &info_hash,
        peer_id: &peer_id,
        port: 6881,
        uploaded: 0,
        downloaded: 0,
        left: 1024 * 1024,
        compact: true,
        no_peer_id: false,
        event: Some(TrackerRequestEvent::Started),
        ip: Some(ipv4([127, 0, 0, 1])),
        numwant: None,
        key: None,
        trackerid: None,
    };
    assert_eq!(
        request.as_querystring(),
        "info_hash=%01%02%03%04%05%06%07%08%09%0A%0B%0C%0D%0E%0F%10%11%12%13%14\
         &peer_id=%01%02%03%04%05%06%07%08%09%0A%0B%0C%0D%0E%0F%10%11%12%13%14\
         &event=started&port=6881&uploaded=0&downloaded=0&left=1048576\
         &compact=1&no_peer_id=0&ip=127.0.0.1"
    );
}

#[test]
fn test_serialize_announce_request() {
    let info_hash = Id20::new([0xAAu8; 20]);
    let peer_id = Id20::new([0xBBu8; 20]);
    let request = TrackerRequest {
        info_hash: &info_hash,
        peer_id: &peer_id,
        port: 6881,
        uploaded: 1000,
        downloaded: 5000,
        left: 50000,
        compact: true,
        no_peer_id: true,
        event: Some(TrackerRequestEvent::Completed),
        ip: None,
        numwant: Some(50),
        key: Some(12345),
        trackerid: Some("TRACKER001"),
    };

    let qs = request.as_querystring();

    // Verify all required fields are present.
    assert!(qs.contains("info_hash="));
    assert!(qs.contains("peer_id="));
    assert!(qs.contains("&port=6881"));
    assert!(qs.contains("&uploaded=1000"));
    assert!(qs.contains("&downloaded=5000"));
    assert!(qs.contains("&left=50000"));
    assert!(qs.contains("&compact=1"));
    assert!(qs.contains("&no_peer_id=1"));
    assert!(qs.contains("&event=completed"));
    assert!(qs.contains("&numwant=50"));
    assert!(qs.contains("&key=12345"));
    assert!(qs.contains("&trackerid=TRACKER001"));
    // ip should not be present when None.
    assert!(!qs.contains("&ip="));
}

#[test]
fn test_serialize_announce_request_minimal() {
    // Test with no optional fields set.
    let info_hash = Id20::new([0x01u8; 20]);
    let peer_id = Id20::new([0x02u8; 20]);
    let request = TrackerRequest {
        info_hash: &info_hash,
        peer_id: &peer_id,
        port: 12345,
        uploaded: 0,
        downloaded: 0,
        left: 0,
        compact: false,
        no_peer_id: false,
        event: None,
        ip: None,
        numwant: None,
        key: None,
        trackerid: None,
    };

    let qs = request.as_querystring();
    assert!(qs.contains("&port=12345"));
    assert!(qs.contains("&compact=0"));
    assert!(qs.contains("&no_peer_id=0"));
    // Optional fields should be absent.
    assert!(!qs.contains("&event="));
    assert!(!qs.contains("&ip="));
    assert!(!qs.contains("&numwant="));
    assert!(!qs.contains("&key="));
    assert!(!qs.contains("&trackerid="));
}

#[test]
fn test_serialize_announce_request_events() {
    let info_hash = Id20::new([0x00u8; 20]);
    let peer_id = Id20::new([0x00u8; 20]);

    let make_request = |event| TrackerRequest {
        info_hash: &info_hash,
        peer_id: &peer_id,
        port: 1,
        uploaded: 0,
        downloaded: 0,
        left: 0,
        compact: true,
        no_peer_id: false,
        event,
        ip: None,
        numwant: None,
        key: None,
        trackerid: None,
    };

    let qs = make_request(Some(TrackerRequestEvent::Started)).as_querystring();
    assert!(qs.contains("&event=started"));

    let qs = make_request(Some(TrackerRequestEvent::Stopped)).as_querystring();
    assert!(qs.contains("&event=stopped"));

    let qs = make_request(Some(TrackerRequestEvent::Completed)).as_querystring();
    assert!(qs.contains("&event=completed"));

    let qs = make_request(None).as_querystring();
    assert!(!qs.contains("&event="));
}

#[test]
fn test_parse_tracker_response_compact() {
    let mut response = response(1800, compact4(b"iiiipp"));
    response.peers6 = compact6(b"iiiiiiiiiiiiiiiipp");
    assert_eq!(
        response.iter_peers(),
        vec![
            v4([105, 105, 105, 105], 28784),
            v6([0x6969; 8], 28784),
        ]
    );
}

#[test]
fn parse_peers_dict() {
    let mut dict = DictPeers::new();
    assert!(dict.push(ipv4([127, 0, 0, 1]), 100));
    assert!(dict.push(ipv6([0x6969; 8]), 101));
    let peers: Peers<SocketAddrV4> = dict.into_peers();
    assert_eq!(
        peers.iter(),
        vec![v4([127, 0, 0, 1], 100), v6([0x6969; 8], 101)]
    );
}

#[test]
fn test_parse_tracker_response_with_peers() {
    let peer1 = [192u8, 168, 1, 1, 0x1A, 0xE1];
    let peer2 = [10u8, 0, 0, 1, 0xC8, 0xD5];
    let mut peers_bytes = Vec::new();
    peers_bytes.extend_from_slice(&peer1);
    peers_bytes.extend_from_slice(&peer2);

    let mut response = response(900, compact4(&peers_bytes));
    response.complete = 50;
    response.incomplete = 10;
    assert_eq!(response.interval, 900);
    assert_eq!(response.complete, 50);
    assert_eq!(response.incomplete, 10);

    let addrs: Vec<SocketAddr> = response.iter_peers();
    assert_eq!(addrs.len(), 2);
    assert_eq!(addrs[0], v4([192, 168, 1, 1], 6881));
    assert_eq!(addrs[1], v4([10, 0, 0, 1], 51413));
}

#[test]
fn test_parse_tracker_response_warning() {
    let peer_bytes = [127u8, 0, 0, 1, 0, 80];
    let mut response = response(1800, compact4(&peer_bytes));
    response.complete = 5;
    response.incomplete = 3;
    response.warning_message = Some(ByteBuf(b"please note"));
    assert!(response.warning_message.is_some());
    assert_eq!(
        std::str::from_utf8(response.warning_message.unwrap().0).unwrap(),
        "please note"
    );
    assert_eq!(response.interval, 1800);
    let addrs: Vec<SocketAddr> = response.iter_peers();
    assert_eq!(addrs.len(), 1);
    assert_eq!(addrs[0], v4([127, 0, 0, 1], 80));
}

#[test]
fn test_parse_tracker_response_no_peers() {
    let response = response(3600, compact4(b""));
    assert_eq!(response.interval, 3600);
    assert_eq!(response.complete, 0);
    assert_eq!(response.incomplete, 0);
    let addrs: Vec<SocketAddr> = response.iter_peers();
    assert!(addrs.is_empty());
}

#[test]
fn test_parse_compact_peer_list_ipv4() {
    let mut buf = Vec::new();
    buf.extend_from_slice(&[1, 2, 3, 4, 1, 0]);
    buf.extend_from_slice(&[5, 6, 7, 8, 4, 0]);
    buf.extend_from_slice(&[255, 255, 255, 255, 255, 255]);

    let addrs: Vec<SocketAddr> = compact4(&buf).iter();
    assert_eq!(addrs.len(), 3);
    assert_eq!(addrs[0], v4([1, 2, 3, 4], 256));
    assert_eq!(addrs[1], v4([5, 6, 7, 8], 1024));
    assert_eq!(addrs[2], v4([255, 255, 255, 255], 65535));
}

#[test]
fn test_parse_compact_peer_list_ipv6() {
    let mut buf = Vec::new();
    // IPv6 ::1
    buf.extend_from_slice(&[0, 0, 0, 0, 0, 0, 0, 0, 0, 0, 0, 0, 0, 0, 0, 1]);
    // port 6881
    buf.extend_from_slice(&[0x1A, 0xE1]);

    let addrs: Vec<SocketAddr> = compact6(&buf).iter();
    assert_eq!(addrs.len(), 1);
    assert_eq!(addrs[0], v6([0, 0, 0, 0, 0, 0, 0, 1], 6881));
}

#[test]
fn test_parse_tracker_response_with_dict_peers() {
    let mut dict = DictPeers::new();
    dict.push(ipv4([127, 0, 0, 1]), 6881);
    dict.push(ipv4([192, 168, 1, 1]), 51413);
    let response = response(600, dict.into_peers());
    assert_eq!(response.interval, 600);
    let addrs: Vec<SocketAddr> = response.iter_peers();
    assert_eq!(addrs.len(), 2);
    assert_eq!(addrs[0], v4([127, 0, 0, 1], 6881));
    assert_eq!(addrs[1], v4([192, 168, 1, 1], 51413));
}

#[test]
fn test_parse_tracker_response_ipv4_and_ipv6_combined() {
    let ipv4_peer = [10u8, 0, 0, 1, 0, 80];
    let mut ipv6_peer = vec![0u8; 15];
    ipv6_peer.push(1); // ::1
    ipv6_peer.extend_from_slice(&[0x01, 0xBB]); // port 443

    let mut response = response(60, compact4(&ipv4_peer));
    response.peers6 = compact6(&ipv6_peer);
    let addrs: Vec<SocketAddr> = response.iter_peers();
    assert_eq!(addrs.len(), 2);
    assert_eq!(addrs[0], v4([10, 0, 0, 1], 80));
    assert_eq!(addrs[1], v6([0, 0, 0, 0, 0, 0, 0, 1], 443));
}

#[test]
fn peers_are_empty_by_default() {
    assert!(Peers::<SocketAddrV6>::default().iter().is_empty());
}

#[test]
fn piece_of_a_compact_peer_is_left_out() {
    assert!(compact4(&[1, 2, 3, 4, 5]).iter().is_empty());
    assert_eq!(
        compact4(&[1, 2, 3, 4, 0, 5, 6]).iter(),
        vec![v4([1, 2, 3, 4], 5)]
    );
    assert!(compact6(&[0; 17]).iter().is_empty());
}

#[test]
fn first_dict_peers_are_kept() {
    let mut dict = DictPeers::new();
    for i in 0..MAX_DICT_PEERS {
        let more = dict.push(ipv4([10, 0, 0, 1]), i as u16);
        assert_eq!(more, i + 1 < 10_000);
    }
    assert!(!dict.push(ipv4([10, 0, 0, 2]), 1));
    let peers: Peers<SocketAddrV4> = dict.into_peers();
    let addrs = peers.iter();
    assert_eq!(addrs.len(), 10_000);
    assert_eq!(addrs[0], v4([10, 0, 0, 1], 0));
    assert_eq!(addrs[9_999], v4([10, 0, 0, 1], 9_999));
}

#[test]
fn every_byte_is_percent_encoded_or_stands_for_itself() {
    let info_hash = Id20::new(*b"aZ09-._~ %&=+/?#[]@!");
    let peer_id = Id20::new([
        0, 0x0a, 0x7f, 0x80, 0x9f, 0xa0, 0xff, b'A', b'z', b'0', 0x2f, 0x3a, 0x40, 0x5b, 0x60,
        0x7b, b'`', b'*', b'(', b')',
    ]);
    let request = TrackerRequest {
        info_hash: &info_hash,
        peer_id: &peer_id,
        event: None,
        port: 0,
        uploaded: u64::MAX,
        downloaded: 0,
        left: 10,
        compact: false,
        no_peer_id: true,
        ip: Some(ipv6([0x2001, 0xdb8, 0, 0, 0, 0, 0, 1])),
        numwant: Some(0),
        key: Some(u32::MAX),
        trackerid: Some("a&b=c"),
    };
    assert_eq!(
        request.as_querystring(),
        "info_hash=aZ09-._~%20%25%26%3D%2B%2F%3F%23%5B%5D%40%21\
         &peer_id=%00%0A%7F%80%9F%A0%FFAz0%2F%3A%40%5B%60%7B%60%2A%28%29\
         &port=0&uploaded=18446744073709551615&downloaded=0&left=10\
         &compact=0&no_peer_id=1&ip=2001:db8::1&numwant=0&key=4294967295&trackerid=a&b=c"
    );
}

#[test]
fn query_string_falls_into_its_parameters() {
    let id = Id20::new([b'&'; 20]);
    let request = TrackerRequest {
        info_hash: &id,
        peer_id: &id,
        event: Some(TrackerRequestEvent::Stopped),
        port: 1,
        uploaded: 2,
        downloaded: 3,
        left: 4,
        compact: true,
        no_peer_id: false,
        ip: None,
        numwant: Some(5),
        key: None,
        trackerid: Some("id"),
    };
    let text = request.as_querystring();
    let names: Vec<&str> = text
        .split('&')
        .map(|piece| piece.split('=').next().unwrap())
        .collect();
    assert_eq!(
        names,
        vec![
            "info_hash",
            "peer_id",
            "event",
            "port",
            "uploaded",
            "downloaded",
            "left",
            "compact",
            "no_peer_id",
            "numwant",
            "trackerid"
        ]
    );
}

#[test]
fn percent_encoded_id_decodes_to_itself() {
    let mut bytes = [0u8; 20];
    for (i, byte) in bytes.iter_mut().enumerate() {
        *byte = (i * 13) as u8;
    }
    let id = Id20::new(bytes);
    let request = TrackerRequest {
        info_hash: &id,
        peer_id: &id,
        event: None,
        port: 1,
        uploaded: 0,
        downloaded: 0,
        left: 0,
        compact: true,
        no_peer_id: false,
        ip: None,
        numwant: None,
        key: None,
        trackerid: None,
    };
    let text = request.as_querystring();
    let value = text.split('&').next().unwrap().split('=').nth(1).unwrap();
    assert_eq!(urlencoding::decode_binary(value.as_bytes()).as_ref(), &bytes);
}

#[test]
fn every_field_reaches_the_query_string() {
    let info_hash = Id20::new([1; 20]);
    let peer_id = Id20::new([2; 20]);
    let other = Id20::new([3; 20]);
    let base = || TrackerRequest {
        info_hash: &info_hash,
        peer_id: &peer_id,
        event: None,
        port: 1,
        uploaded: 2,
        downloaded: 3,
        left: 4,
        compact: true,
        no_peer_id: false,
        ip: None,
        numwant: None,
        key: None,
        trackerid: None,
    };
    let mut requests = vec![base()];
    requests.push(TrackerRequest {
        info_hash: &other,
        ..base()
    });
    requests.push(TrackerRequest {
        peer_id: &other,
        ..base()
    });
    requests.push(TrackerRequest {
        event: Some(TrackerRequestEvent::Started),
        ..base()
    });
    requests.push(TrackerRequest { port: 9, ..base() });
    requests.push(TrackerRequest {
        uploaded: 9,
        ..base()
    });
    requests.push(TrackerRequest {
        downloaded: 9,
        ..base()
    });
    requests.push(TrackerRequest { left: 9, ..base() });
    requests.push(TrackerRequest {
        compact: false,
        ..base()
    });
    requests.push(TrackerRequest {
        no_peer_id: true,
        ..base()
    });
    requests.push(TrackerRequest {
        ip: Some(ipv4([1, 2, 3, 4])),
        ..base()
    });
    requests.push(TrackerRequest {
        ip: Some(ipv6([0, 0, 0, 0, 0, 0xffff, 0x102, 0x304])),
        ..base()
    });
    requests.push(TrackerRequest {
        numwant: Some(5),
        ..base()
    });
    requests.push(TrackerRequest {
        key: Some(5),
        ..base()
    });
    requests.push(TrackerRequest {
        trackerid: Some("5"),
        ..base()
    });
    requests.push(TrackerRequest {
        trackerid: Some("5&key=5"),
        ..base()
    });
    requests.push(TrackerRequest {
        key: Some(5),
        trackerid: Some("5"),
        ..base()
    });
    for i in 0..requests.len() {
        for j in 0..requests.len() {
            assert_eq!(
                requests[i].as_querystring() == requests[j].as_querystring(),
                i == j
            );
        }
    }
}
