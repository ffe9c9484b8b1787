//! Peer addresses in compact form.

use librtbit_tracker_comms::addr::{Ipv4Addr, Ipv6Addr, SocketAddr, SocketAddrV4, SocketAddrV6};
use librtbit_tracker_comms::compact_ip::{CompactListInBuffer, CompactSerialize};

#[test]
fn compact_lengths() {
    assert_eq!(SocketAddrV4::fixed_len(), 6);
    assert_eq!(SocketAddrV6::fixed_len(), 18);
}

#[test]
fn ipv4_from_compact_form() {
    let addr = SocketAddrV4::from_slice(&[1, 2, 3, 4, 0x1a, 0xe1]).unwrap();
    assert_eq!(addr.ip, Ipv4Addr { bits: 0x0102_0304 });
    assert_eq!(addr.port, 6881);
    assert_eq!(addr.into_socket_addr(), SocketAddr::V4(addr));
    assert_eq!(SocketAddrV4::from_slice(&[1, 2, 3, 4, 5]), None);
    assert_eq!(SocketAddrV4::from_slice(&[1, 2, 3, 4, 5, 6, 7]), None);
}

#[test]
fn ipv6_from_compact_form() {
    let mut bytes = [0u8; 18];
    bytes[0] = 0xfe;
    bytes[15] = 1;
    bytes[17] = 80;
    let addr = SocketAddrV6::from_slice(&bytes).unwrap();
    assert_eq!(
        addr,
        SocketAddrV6 {
            ip: Ipv6Addr {
                bits: 0xfe00_0000_0000_0000_0000_0000_0000_0001
            },
            port: 80,
            flowinfo: 0,
            scope_id: 0,
        }
    );
    assert_eq!(addr.into_socket_addr(), SocketAddr::V6(addr));
    assert_eq!(SocketAddrV6::from_slice(&bytes[..17]), None);
}

#[test]
fn list_in_order() {
    let bytes = [1, 1, 1, 1, 0, 1, 2, 2, 2, 2, 0, 2, 3];
    let list: CompactListInBuffer<SocketAddrV4> = CompactListInBuffer::new_from_buf(&bytes);
    let ports: Vec<u16> = list.iter().iter().map(|addr| addr.port).collect();
    assert_eq!(ports, vec![1, 2]);
}
