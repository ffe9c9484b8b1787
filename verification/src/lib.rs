//! BitTorrent tracker communication: announce requests and responses over HTTP and UDP, and the
//! status of each tracker.

pub mod addr;
pub mod compact_ip;
pub mod hash_id;
pub mod text;
pub mod tracker_comms;
pub mod tracker_comms_http;
pub mod tracker_comms_udp;
pub mod tracker_status;
pub mod udp_client;
pub mod wire;

pub use tracker_comms::{TrackerCommsStats, TrackerCommsStatsState};
pub use tracker_comms_udp::{AnnounceFields, AnnounceResponse};
pub use tracker_status::{TrackerAnnounceState, TrackerStatus, TrackerStatusRegistry};
pub use udp_client::UdpTrackerClient;
