# Tracker communication

Announces to BitTorrent trackers, over HTTP and over UDP, and the status of each tracker of a
torrent. The library under `src/` is verified with Verus; `app/` puts it on sockets, behind locks
and through a deserialiser.

- `wire`: big-endian numbers.
- `addr`, `hash_id`: addresses and twenty-byte ids as plain values.
- `compact_ip`: peer addresses in compact form.
- `text`: numbers and addresses as text.
- `tracker_comms`: what a torrent reports of itself.
- `tracker_comms_http`: the query string of an announce, and the peers in a response.
- `tracker_comms_udp`: the datagrams of the UDP tracker protocol.
- `udp_client`: transactions, connection ids and the course of an announce over UDP, without
  sockets or timers.
- `tracker_status`: the registry of tracker statuses.

Properties that hold for all inputs and relate several functions are the proof functions whose
names begin with `law_`.

What is not proved but believed is stated at its place in the source: how `urlencoding` encodes
bytes, what `str::from_utf8` accepts, that `String::push` appends, and that a random number and
the time can be had.
