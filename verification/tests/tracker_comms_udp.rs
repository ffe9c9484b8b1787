//! Datagrams of the UDP tracker protocol.

use librtbit_tracker_comms::addr::{Ipv4Addr, Ipv6Addr, SocketAddr, SocketAddrV4, SocketAddrV6};
use librtbit_tracker_comms::hash_id::Id20;
use librtbit_tracker_comms::tracker_comms_udp::{
    new_transaction_id, AnnounceFields, ConnectionId, ParseError, Request, Response,
    SerializeError, TransactionId, ACTION_ANNOUNCE, ACTION_CONNECT, ACTION_ERROR,
    CONNECTION_ID_MAGIC, EVENT_NONE, EVENT_STARTED,
};

fn v4(octets: [u8; 4], port: u16) -> SocketAddr {
    SocketAddr::V4(SocketAddrV4 {
        ip: Ipv4Addr {
            bits: u32::from_be_bytes(octets),
        },
        port,
    })
}

fn v6(segments: [u16; 8], port: u16) -> SocketAddr {
    SocketAddr::V6(SocketAddrV6 {
        ip: Ipv6Addr {
            bits: v6_bits(segments),
        },
        port,
        flowinfo: 0,
        scope_id: 0,
    })
}

fn v6_bits(segments: [u16; 8]) -> u128 {
    let mut bits: u128 = 0;
    for segment in segments {
        bits = bits * 0x1_0000 + segment as u128;
    }
    bits
}

#[test]
fn test_udp_connect_request_serialize() {
    // BEP 15: connect request is 16 bytes:
    //   0-7:  magic connection_id (0x41727101980)
    //   8-11: action (0 = connect)
    //   12-15: transaction_id
    let tid: TransactionId = 0xDEADBEEF;
    let mut buf = [0u8; 64];
    let len = Request::Connect.serialize(tid, &mut buf).unwrap();
    assert_eq!(len, 16);

    // Check magic connection_id.
    let cid = u64::from_be_bytes(buf[0..8].try_into().unwrap());
    assert_eq!(cid, CONNECTION_ID_MAGIC);

    // Check action = 0 (connect).
    let action = u32::from_be_bytes(buf[8..12].try_into().unwrap());
    assert_eq!(action, ACTION_CONNECT);

    // Check transaction_id.
    let parsed_tid = u32::from_be_bytes(buf[12..16].try_into().unwrap());
    assert_eq!(parsed_tid, tid);
}

#[test]
fn test_udp_connect_response_parse() {
    // Build a connect response: action=0, tid, connection_id
    let tid: TransactionId = 42;
    let connection_id: ConnectionId = 0x1234567890ABCDEF;

    let mut buf = Vec::new();
    buf.extend_from_slice(&ACTION_CONNECT.to_be_bytes());
    buf.extend_from_slice(&tid.to_be_bytes());
    buf.extend_from_slice(&connection_id.to_be_bytes());

    let (parsed_tid, response) = Response::parse(&buf, false).unwrap();
    assert_eq!(parsed_tid, tid);
    match response {
        Response::Connect(cid) => assert_eq!(cid, connection_id),
        other => panic!("expected Connect, got {:?}", other),
    }
}

#[test]
fn test_udp_announce_request_serialize() {
    // BEP 15: announce request is 98 bytes:
    //   0-7:   connection_id
    //   8-11:  action (1 = announce)
    //   12-15: transaction_id
    //   16-35: info_hash (20 bytes)
    //   36-55: peer_id (20 bytes)
    //   56-63: downloaded
    //   64-71: left
    //   72-79: uploaded
    //   80-83: event
    //   84-87: IP address (0)
    //   88-91: key
    //   92-95: num_want (-1)
    //   96-97: port
    let connection_id: ConnectionId = 0xABCDEF0123456789;
    let tid: TransactionId = 0x11223344;
    let info_hash = Id20::new([0xAA; 20]);
    let peer_id = Id20::new([0xBB; 20]);

    let fields = AnnounceFields {
        info_hash,
        peer_id,
        downloaded: 1000,
        left: 50000,
        uploaded: 2000,
        event: EVENT_STARTED,
        key: 0x55667788,
        port: 6881,
    };

    let request = Request::Announce(connection_id, fields);
    let mut buf = [0u8; 128];
    let len = request.serialize(tid, &mut buf).unwrap();
    assert_eq!(len, 98);

    // Verify connection_id.
    let cid = u64::from_be_bytes(buf[0..8].try_into().unwrap());
    assert_eq!(cid, connection_id);

    // Verify action = 1 (announce).
    let action = u32::from_be_bytes(buf[8..12].try_into().unwrap());
    assert_eq!(action, ACTION_ANNOUNCE);

    // Verify transaction_id.
    let parsed_tid = u32::from_be_bytes(buf[12..16].try_into().unwrap());
    assert_eq!(parsed_tid, tid);

    // Verify info_hash.
    assert_eq!(&buf[16..36], &[0xAA; 20]);

    // Verify peer_id.
    assert_eq!(&buf[36..56], &[0xBB; 20]);

    // Verify downloaded.
    let downloaded = u64::from_be_bytes(buf[56..64].try_into().unwrap());
    assert_eq!(downloaded, 1000);

    // Verify left.
    let left = u64::from_be_bytes(buf[64..72].try_into().unwrap());
    assert_eq!(left, 50000);

    // Verify uploaded.
    let uploaded = u64::from_be_bytes(buf[72..80].try_into().unwrap());
    assert_eq!(uploaded, 2000);

    // Verify event.
    let event = u32::from_be_bytes(buf[80..84].try_into().unwrap());
    assert_eq!(event, EVENT_STARTED);

    // Verify IP = 0.
    let ip = u32::from_be_bytes(buf[84..88].try_into().unwrap());
    assert_eq!(ip, 0);

    // Verify key.
    let key = u32::from_be_bytes(buf[88..92].try_into().unwrap());
    assert_eq!(key, 0x55667788);

    // Verify num_want = -1.
    let num_want = i32::from_be_bytes(buf[92..96].try_into().unwrap());
    assert_eq!(num_want, -1);

    // Verify port.
    let port = u16::from_be_bytes(buf[96..98].try_into().unwrap());
    assert_eq!(port, 6881);
}

#[test]
fn test_udp_announce_response_parse() {
    // Build an announce response with 2 IPv4 peers.
    let tid: TransactionId = 99;
    let interval: u32 = 1800;
    let leechers: u32 = 10;
    let seeders: u32 = 50;

    let mut buf = Vec::new();
    buf.extend_from_slice(&ACTION_ANNOUNCE.to_be_bytes());
    buf.extend_from_slice(&tid.to_be_bytes());
    buf.extend_from_slice(&interval.to_be_bytes());
    buf.extend_from_slice(&leechers.to_be_bytes());
    buf.extend_from_slice(&seeders.to_be_bytes());

    // Peer 1: 192.168.1.1:6881
    buf.extend_from_slice(&[192, 168, 1, 1]);
    buf.extend_from_slice(&6881u16.to_be_bytes());

    // Peer 2: 10.0.0.5:51413
    buf.extend_from_slice(&[10, 0, 0, 5]);
    buf.extend_from_slice(&51413u16.to_be_bytes());

    let (parsed_tid, response) = Response::parse(&buf, false).unwrap();
    assert_eq!(parsed_tid, tid);
    match response {
        Response::Announce(ann) => {
            assert_eq!(ann.interval, interval);
            assert_eq!(ann.leechers, leechers);
            assert_eq!(ann.seeders, seeders);
            assert_eq!(ann.addrs.len(), 2);
            assert_eq!(ann.addrs[0], v4([192, 168, 1, 1], 6881));
            assert_eq!(ann.addrs[1], v4([10, 0, 0, 5], 51413));
        }
        other => panic!("expected Announce, got {:?}", other),
    }
}

#[test]
fn test_udp_announce_response_parse_ipv6() {
    // Build an announce response with 1 IPv6 peer.
    let tid: TransactionId = 200;
    let interval: u32 = 900;
    let leechers: u32 = 3;
    let seeders: u32 = 7;

    let mut buf = Vec::new();
    buf.extend_from_slice(&ACTION_ANNOUNCE.to_be_bytes());
    buf.extend_from_slice(&tid.to_be_bytes());
    buf.extend_from_slice(&interval.to_be_bytes());
    buf.extend_from_slice(&leechers.to_be_bytes());
    buf.extend_from_slice(&seeders.to_be_bytes());

    // IPv6 peer: 2001:db8::1 port 8080
    let ipv6 = v6_bits([0x2001, 0xdb8, 0, 0, 0, 0, 0, 1]);
    buf.extend_from_slice(&ipv6.to_be_bytes());
    buf.extend_from_slice(&8080u16.to_be_bytes());

    let (parsed_tid, response) = Response::parse(&buf, true).unwrap();
    assert_eq!(parsed_tid, tid);
    match response {
        Response::Announce(ann) => {
            assert_eq!(ann.interval, interval);
            assert_eq!(ann.addrs.len(), 1);
            assert_eq!(ann.addrs[0], v6([0x2001, 0xdb8, 0, 0, 0, 0, 0, 1], 8080));
        }
        other => panic!("expected Announce, got {:?}", other),
    }
}

#[test]
fn test_udp_error_response_parse() {
    // Build an error response: action=3, tid, then error message as UTF-8.
    let tid: TransactionId = 777;
    let error_msg = "Connection ID mismatched";

    let mut buf = Vec::new();
    buf.extend_from_slice(&ACTION_ERROR.to_be_bytes());
    buf.extend_from_slice(&tid.to_be_bytes());
    buf.extend_from_slice(error_msg.as_bytes());

    let (parsed_tid, response) = Response::parse(&buf, false).unwrap();
    assert_eq!(parsed_tid, tid);
    match response {
        Response::Error(msg) => {
            assert_eq!(msg, error_msg);
        }
        other => panic!("expected Error, got {:?}", other),
    }
}

#[test]
fn test_udp_error_response_parse_with_nul() {
    // Error message as a C string (null-terminated).
    let tid: TransactionId = 888;

    let mut buf = Vec::new();
    buf.extend_from_slice(&ACTION_ERROR.to_be_bytes());
    buf.extend_from_slice(&tid.to_be_bytes());
    buf.extend_from_slice(b"tracker error\0");

    let (parsed_tid, response) = Response::parse(&buf, false).unwrap();
    assert_eq!(parsed_tid, tid);
    match response {
        Response::Error(msg) => {
            assert_eq!(msg, "tracker error");
        }
        other => panic!("expected Error, got {:?}", other),
    }
}

#[test]
fn test_udp_announce_response_no_peers() {
    // Announce response with zero peers.
    let tid: TransactionId = 300;

    let mut buf = Vec::new();
    buf.extend_from_slice(&ACTION_ANNOUNCE.to_be_bytes());
    buf.extend_from_slice(&tid.to_be_bytes());
    buf.extend_from_slice(&1800u32.to_be_bytes()); // interval
    buf.extend_from_slice(&0u32.to_be_bytes()); // leechers
    buf.extend_from_slice(&0u32.to_be_bytes()); // seeders

    let (parsed_tid, response) = Response::parse(&buf, false).unwrap();
    assert_eq!(parsed_tid, tid);
    match response {
        Response::Announce(ann) => {
            assert_eq!(ann.interval, 1800);
            assert!(ann.addrs.is_empty());
        }
        other => panic!("expected Announce, got {:?}", other),
    }
}

#[test]
fn test_udp_malformed_response_too_short() {
    // A buffer that is too short to even parse action + tid.
    let buf = [0u8; 3];
    let result = Response::parse(&buf, false);
    assert!(result.is_err());
}

#[test]
fn test_udp_malformed_response_truncated_connect() {
    // A connect response that is too short (missing connection_id).
    let tid: TransactionId = 50;
    let mut buf = Vec::new();
    buf.extend_from_slice(&ACTION_CONNECT.to_be_bytes());
    buf.extend_from_slice(&tid.to_be_bytes());
    // Missing 8 bytes for connection_id.

    let (parsed_tid, response) = Response::parse(&buf, false).unwrap();
    assert_eq!(parsed_tid, tid);
    // Should parse as Unknown since the inner parse_response fails.
    assert!(matches!(response, Response::Unknown));
}

#[test]
fn test_udp_malformed_response_truncated_announce() {
    // Announce response that is too short (only has interval, no leechers/seeders).
    let tid: TransactionId = 51;
    let mut buf = Vec::new();
    buf.extend_from_slice(&ACTION_ANNOUNCE.to_be_bytes());
    buf.extend_from_slice(&tid.to_be_bytes());
    buf.extend_from_slice(&1800u32.to_be_bytes()); // interval only
    // Missing leechers and seeders.

    let (parsed_tid, response) = Response::parse(&buf, false).unwrap();
    assert_eq!(parsed_tid, tid);
    assert!(matches!(response, Response::Unknown));
}

#[test]
fn test_udp_connect_request_buffer_too_small() {
    // Connect request needs 16 bytes; provide less.
    let mut buf = [0u8; 10];
    let result = Request::Connect.serialize(1, &mut buf);
    assert!(result.is_err());
}

#[test]
fn test_udp_announce_request_buffer_too_small() {
    let fields = AnnounceFields {
        info_hash: Id20::new([0; 20]),
        peer_id: Id20::new([0; 20]),
        downloaded: 0,
        left: 0,
        uploaded: 0,
        event: EVENT_NONE,
        key: 0,
        port: 0,
    };
    // Announce request needs 98 bytes; provide less.
    let mut buf = [0u8; 50];
    let result = Request::Announce(1, fields).serialize(1, &mut buf);
    assert!(result.is_err());
}

#[test]
fn test_udp_announce_response_parse_multiple_ipv4_peers() {
    // Build an announce response with 5 IPv4 peers to test iteration.
    let tid: TransactionId = 400;

    let mut buf = Vec::new();
    buf.extend_from_slice(&ACTION_ANNOUNCE.to_be_bytes());
    buf.extend_from_slice(&tid.to_be_bytes());
    buf.extend_from_slice(&600u32.to_be_bytes()); // interval
    buf.extend_from_slice(&100u32.to_be_bytes()); // leechers
    buf.extend_from_slice(&200u32.to_be_bytes()); // seeders

    let expected_peers = vec![
        ([1u8, 1, 1, 1], 80u16),
        ([2, 2, 2, 2], 443),
        ([3, 3, 3, 3], 6881),
        ([4, 4, 4, 4], 51413),
        ([5, 5, 5, 5], 8080),
    ];

    for (octets, port) in &expected_peers {
        buf.extend_from_slice(octets);
        buf.extend_from_slice(&port.to_be_bytes());
    }

    let (parsed_tid, response) = Response::parse(&buf, false).unwrap();
    assert_eq!(parsed_tid, tid);
    match response {
        Response::Announce(ann) => {
            assert_eq!(ann.interval, 600);
            assert_eq!(ann.leechers, 100);
            assert_eq!(ann.seeders, 200);
            assert_eq!(ann.addrs.len(), 5);
            for (i, (ip, port)) in expected_peers.iter().enumerate() {
                assert_eq!(ann.addrs[i], v4(*ip, *port));
            }
        }
        other => panic!("expected Announce, got {:?}", other),
    }
}

#[test]
fn test_udp_announce_response_multiple_ipv6_peers() {
    let tid: TransactionId = 500;

    let mut buf = Vec::new();
    buf.extend_from_slice(&ACTION_ANNOUNCE.to_be_bytes());
    buf.extend_from_slice(&tid.to_be_bytes());
    buf.extend_from_slice(&300u32.to_be_bytes()); // interval
    buf.extend_from_slice(&5u32.to_be_bytes()); // leechers
    buf.extend_from_slice(&15u32.to_be_bytes()); // seeders

    let expected_peers = vec![
        ([0u16, 0, 0, 0, 0, 0, 0, 1], 6881u16),
        ([0xfe80, 0, 0, 0, 0, 0, 0, 1], 8080),
        ([0x2001, 0xdb8, 0, 0, 0, 0, 0, 1], 443),
    ];

    for (segments, port) in &expected_peers {
        buf.extend_from_slice(&v6_bits(*segments).to_be_bytes());
        buf.extend_from_slice(&port.to_be_bytes());
    }

    let (parsed_tid, response) = Response::parse(&buf, true).unwrap();
    assert_eq!(parsed_tid, tid);
    match response {
        Response::Announce(ann) => {
            assert_eq!(ann.addrs.len(), 3);
            for (i, (ip, port)) in expected_peers.iter().enumerate() {
                assert_eq!(ann.addrs[i], v6(*ip, *port));
            }
        }
        other => panic!("expected Announce, got {:?}", other),
    }
}

#[test]
fn test_udp_connect_roundtrip() {
    // Serialize a connect request, then build a matching connect response,
    // and verify the transaction ID is consistent.
    let tid: TransactionId = 0xCAFEBABE;
    let mut write_buf = [0u8; 64];
    let len = Request::Connect.serialize(tid, &mut write_buf).unwrap();
    assert_eq!(len, 16);

    // Simulate a server response.
    let connection_id: ConnectionId = 0x123456789ABCDEF0;
    let mut response_buf = Vec::new();
    response_buf.extend_from_slice(&ACTION_CONNECT.to_be_bytes());
    response_buf.extend_from_slice(&tid.to_be_bytes());
    response_buf.extend_from_slice(&connection_id.to_be_bytes());

    let (parsed_tid, response) = Response::parse(&response_buf, false).unwrap();
    assert_eq!(parsed_tid, tid);
    match response {
        Response::Connect(cid) => assert_eq!(cid, connection_id),
        other => panic!("expected Connect, got {:?}", other),
    }
}

#[test]
fn test_udp_unsupported_action() {
    // An action that is not connect/announce/error should yield Unknown.
    let tid: TransactionId = 999;
    let unsupported_action: u32 = 99;

    let mut buf = Vec::new();
    buf.extend_from_slice(&unsupported_action.to_be_bytes());
    buf.extend_from_slice(&tid.to_be_bytes());

    let (parsed_tid, response) = Response::parse(&buf, false).unwrap();
    assert_eq!(parsed_tid, tid);
    assert!(matches!(response, Response::Unknown));
}

#[test]
fn buffer_that_is_exactly_large_enough() {
    let mut buf = [0xffu8; 16];
    assert_eq!(Request::Connect.serialize(1, &mut buf), Ok(16));
    assert_eq!(
        buf,
        [0, 0, 4, 0x17, 0x27, 0x10, 0x19, 0x80, 0, 0, 0, 0, 0, 0, 0, 1]
    );
}

#[test]
fn bytes_behind_a_request_are_left_alone() {
    let mut buf = [0xffu8; 20];
    assert_eq!(Request::Connect.serialize(0x01020304, &mut buf), Ok(16));
    assert_eq!(&buf[12..20], &[1, 2, 3, 4, 0xff, 0xff, 0xff, 0xff]);
}

#[test]
fn request_that_does_not_fit_leaves_whole_fields_behind() {
    let mut buf = [0xffu8; 14];
    assert_eq!(
        Request::Connect.serialize(1, &mut buf),
        Err(SerializeError::NotEnoughSpace)
    );
    assert_eq!(
        buf,
        [0, 0, 4, 0x17, 0x27, 0x10, 0x19, 0x80, 0, 0, 0, 0, 0xff, 0xff]
    );
}

#[test]
fn request_as_datagram() {
    let datagram = Request::Connect.to_datagram(7);
    assert_eq!(
        datagram,
        vec![0, 0, 4, 0x17, 0x27, 0x10, 0x19, 0x80, 0, 0, 0, 0, 0, 0, 0, 7]
    );
}

#[test]
fn datagram_without_action_or_transaction_id() {
    assert_eq!(Response::parse(&[], false).err(), Some(ParseError::NoAction));
    assert_eq!(
        Response::parse(&[0, 0, 0], false).err(),
        Some(ParseError::NoAction)
    );
    assert_eq!(
        Response::parse(&[0, 0, 0, 0, 1, 2, 3], false).err(),
        Some(ParseError::NoTransactionId)
    );
}

#[test]
fn connect_response_with_trailing_bytes_is_unknown() {
    let mut buf = vec![0u8; 17];
    buf[7] = 9;
    let (tid, response) = Response::parse(&buf, false).unwrap();
    assert_eq!(tid, 9);
    assert!(matches!(response, Response::Unknown));
}

#[test]
fn announce_response_with_a_piece_of_a_peer_is_unknown() {
    for len in 21..26 {
        let mut buf = vec![0u8; len];
        buf[3] = 1;
        let (_, response) = Response::parse(&buf, false).unwrap();
        assert!(matches!(response, Response::Unknown), "{} bytes", len);
    }
    let mut buf = vec![0u8; 26];
    buf[3] = 1;
    assert!(matches!(
        Response::parse(&buf, false).unwrap().1,
        Response::Announce(_)
    ));
    assert!(matches!(
        Response::parse(&buf, true).unwrap().1,
        Response::Unknown
    ));
}

#[test]
fn error_messages() {
    let message = |body: &[u8]| {
        let mut buf = vec![0, 0, 0, 3, 0, 0, 0, 1];
        buf.extend_from_slice(body);
        match Response::parse(&buf, false).unwrap() {
            (1, Response::Error(message)) => message,
            other => panic!("expected Error, got {:?}", other),
        }
    };
    assert_eq!(message(b""), "");
    assert_eq!(message(b"\0"), "");
    assert_eq!(message(b"a\0b"), "a\0b");
    assert_eq!(message(b"a\0b\0"), "a\0b\0");
    assert_eq!(message("h\u{e9}\0".as_bytes()), "h\u{e9}");
    assert_eq!(message(&[0xff, 0xfe]), "<invalid UTF-8>");
    assert_eq!(message(&[0xff, 0]), "<invalid UTF-8>");
}

#[test]
fn transaction_ids_vary() {
    let first = new_transaction_id();
    let mut differs = false;
    for _ in 0..100 {
        if new_transaction_id() != first {
            differs = true;
        }
    }
    assert!(differs);
}

#[test]
fn address_family_matters_to_announces_only() {
    for action in [ACTION_CONNECT, ACTION_ERROR, 2, 99] {
        for len in [0, 7, 8, 9, 30] {
            let mut buf = Vec::new();
            buf.extend_from_slice(&action.to_be_bytes());
            buf.extend_from_slice(&5u32.to_be_bytes());
            buf.extend_from_slice(&vec![b'a'; len]);
            assert_eq!(
                format!("{:?}", Response::parse(&buf, true).unwrap()),
                format!("{:?}", Response::parse(&buf, false).unwrap())
            );
        }
    }
}

#[test]
fn peers_of_joined_announces() {
    let announce = |peers: &[u8]| {
        let mut buf = vec![0, 0, 0, 1, 0, 0, 0, 9, 0, 0, 0, 1, 0, 0, 0, 2, 0, 0, 0, 3];
        buf.extend_from_slice(peers);
        match Response::parse(&buf, false).unwrap() {
            (9, Response::Announce(announce)) => announce,
            other => panic!("expected Announce, got {:?}", other),
        }
    };
    let p = [1, 1, 1, 1, 0, 1, 2, 2, 2, 2, 0, 2];
    let q = [3, 3, 3, 3, 0, 3];
    let mut both = p.to_vec();
    both.extend_from_slice(&q);
    let mut joined = announce(&p).addrs;
    joined.extend_from_slice(&announce(&q).addrs);
    let whole = announce(&both);
    assert_eq!(whole.addrs, joined);
    assert_eq!(
        whole.addrs,
        vec![v4([1; 4], 1), v4([2; 4], 2), v4([3; 4], 3)]
    );
    assert_eq!((whole.interval, whole.leechers, whole.seeders), (1, 2, 3));
}
