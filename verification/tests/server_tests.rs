use renet_server::addr::NetAddr;
use renet_server::channel::ChannelConfig;
use renet_server::endpoint::EndpointConfig;
use renet_server::protocol::{AuthenticationProtocol, ClientId, ServerAuthenticationProtocol};
use renet_server::server::{Event, Server, ServerConfig, ServerError};

// A small handshake protocol for exercising the orchestrator: a valid
// first-contact payload is [1, id]; the challenge payload is [7]; the
// peer authenticates by sending [2].
struct MockProtocol {
    id: ClientId,
    authenticated: bool,
}

impl AuthenticationProtocol for MockProtocol {
    type Context = u8;

    fn id(&self) -> ClientId {
        self.id
    }

    fn is_authenticated(&self) -> bool {
        self.authenticated
    }

    fn create_payload(&mut self) -> Option<Vec<u8>> {
        if self.authenticated {
            None
        } else {
            Some(vec![7])
        }
    }

    fn process_payload(&mut self, payload: Vec<u8>) -> bool {
        if payload == vec![2] {
            self.authenticated = true;
            true
        } else {
            false
        }
    }

    fn build_security_interface(&self) -> u8 {
        0
    }
}

impl ServerAuthenticationProtocol for MockProtocol {
    fn from_payload(payload: Vec<u8>) -> Option<Self> {
        if payload.len() == 2 && payload[0] == 1 {
            Some(MockProtocol { id: payload[1] as ClientId, authenticated: false })
        } else {
            None
        }
    }
}

fn addr(n: u16) -> NetAddr {
    NetAddr { ip: 10, port: n }
}

fn new_server(max_clients: usize) -> Server<MockProtocol> {
    let config = ServerConfig { max_clients, max_payload_size: 1200 };
    let channels = vec![(0u8, ChannelConfig {}), (1u8, ChannelConfig {})];
    Server::new(config, EndpointConfig {}, channels, 0)
}

fn connect(server: &mut Server<MockProtocol>, id: u8, a: NetAddr) {
    server.process_payload_from(vec![1, id], &a).unwrap();
    server.process_payload_from(vec![2], &a).unwrap();
    let _ = server.update(0, Vec::new());
}

#[test]
fn connecting_flow_promotes_exactly_once() {
    let mut server = new_server(4);
    assert!(!server.has_clients());

    // first contact from address A creates one pending handshake
    server.process_payload_from(vec![1, 9], &addr(1)).unwrap();
    assert!(!server.has_clients());
    assert_eq!(server.get_event(), None);

    // the handshake update sends the challenge to A
    let sends = server.update(0, Vec::new());
    assert_eq!(sends, vec![(addr(1), vec![7])]);

    // the challenge response authenticates; the next update promotes
    server.process_payload_from(vec![2], &addr(1)).unwrap();
    let sends = server.update(0, Vec::new());
    assert_eq!(sends, Vec::new());
    assert_eq!(server.get_event(), Some(Event::ClientConnected(9)));
    assert_eq!(server.get_event(), None);
    assert_eq!(server.get_clients_id(), vec![9]);
    assert!(server.has_clients());

    // the id never reappears in the handshake set: a later update
    // neither promotes again nor emits another event
    let _ = server.update(1, Vec::new());
    assert_eq!(server.get_event(), None);
    assert_eq!(server.get_clients_id(), vec![9]);
}

#[test]
fn distinct_addresses_distinct_handshakes() {
    let mut server = new_server(4);
    server.process_payload_from(vec![1, 1], &addr(1)).unwrap();
    server.process_payload_from(vec![1, 2], &addr(2)).unwrap();
    server.process_payload_from(vec![1, 3], &addr(3)).unwrap();
    // one challenge per distinct address
    let sends = server.update(0, Vec::new());
    assert_eq!(sends.len(), 3);
    // each handshake completes into its own session
    server.process_payload_from(vec![2], &addr(1)).unwrap();
    server.process_payload_from(vec![2], &addr(2)).unwrap();
    server.process_payload_from(vec![2], &addr(3)).unwrap();
    let _ = server.update(0, Vec::new());
    let mut ids = server.get_clients_id();
    ids.sort();
    assert_eq!(ids, vec![1, 2, 3]);
}

#[test]
fn same_address_single_handshake() {
    let mut server = new_server(4);
    // two first-contact payloads from the same address: the second is
    // routed to the existing handshake, not parsed as a new one
    server.process_payload_from(vec![1, 5], &addr(1)).unwrap();
    server.process_payload_from(vec![1, 6], &addr(1)).unwrap();
    let sends = server.update(0, Vec::new());
    assert_eq!(sends.len(), 1);
    server.process_payload_from(vec![2], &addr(1)).unwrap();
    let _ = server.update(0, Vec::new());
    // only the first handshake's id ever becomes a session
    assert_eq!(server.get_clients_id(), vec![5]);
}

#[test]
fn capacity_full_second_promotion_denied() {
    let mut server = new_server(1);
    // two peers complete their handshakes concurrently
    server.process_payload_from(vec![1, 1], &addr(1)).unwrap();
    server.process_payload_from(vec![1, 2], &addr(2)).unwrap();
    server.process_payload_from(vec![2], &addr(1)).unwrap();
    server.process_payload_from(vec![2], &addr(2)).unwrap();
    let _ = server.update(0, Vec::new());
    // exactly one is promoted; the other handshake is discarded with no
    // session and no event
    assert_eq!(server.get_clients_id().len(), 1);
    assert!(matches!(server.get_event(), Some(Event::ClientConnected(_))));
    assert_eq!(server.get_event(), None);
    let _ = server.update(0, Vec::new());
    assert_eq!(server.get_clients_id().len(), 1);
}

#[test]
fn full_server_discards_first_contact() {
    let mut server = new_server(1);
    connect(&mut server, 1, addr(1));
    assert_eq!(server.get_clients_id(), vec![1]);
    // the server is full: a first contact from a new address is
    // silently discarded
    server.process_payload_from(vec![1, 2], &addr(2)).unwrap();
    let sends = server.update(0, Vec::new());
    assert_eq!(sends, Vec::new());
    server.process_payload_from(vec![2], &addr(2)).unwrap();
    let _ = server.update(0, Vec::new());
    assert_eq!(server.get_clients_id(), vec![1]);
}

#[test]
fn malformed_first_contact_reports_error() {
    let mut server = new_server(4);
    let r = server.process_payload_from(vec![99, 1, 2], &addr(1));
    assert_eq!(r, Err(ServerError::InvalidFirstContactPayload));
    // no handshake was created: no challenge goes out
    let sends = server.update(0, Vec::new());
    assert_eq!(sends, Vec::new());
    assert!(!server.has_clients());
}

#[test]
fn update_routes_datagrams_in_order() {
    let mut server = new_server(4);
    // the whole exchange of one tick handed to update at once
    let sends = server.update(0, vec![(vec![1, 3], addr(1)), (vec![2], addr(1))]);
    assert_eq!(sends, Vec::new());
    assert_eq!(server.get_clients_id(), vec![3]);
    assert_eq!(server.get_event(), Some(Event::ClientConnected(3)));
}

#[test]
fn send_message_to_unknown_client_is_noop() {
    let mut server = new_server(2);
    connect(&mut server, 1, addr(1));
    // unknown id: no panic, no error, no observable change
    server.send_message_to_client(42, 0, vec![1, 2, 3]);
    assert_eq!(server.get_messages_from_client(42, 0), None);
    assert_eq!(server.get_messages_from_client(1, 0), Some(Vec::new()));
}

#[test]
fn channel_isolation() {
    let mut server = new_server(4);
    connect(&mut server, 1, addr(1));
    connect(&mut server, 2, addr(2));
    server.send_message_to_client(1, 0, vec![10, 20]);
    // not observable on another channel of the same client
    assert_eq!(server.get_messages_from_client(1, 1), Some(Vec::new()));
    // not observable on any channel of another client
    assert_eq!(server.get_messages_from_client(2, 0), Some(Vec::new()));
    // observable exactly where it was enqueued
    assert_eq!(server.get_messages_from_client(1, 0), Some(vec![vec![10, 20]]));
    // and the read drained it
    assert_eq!(server.get_messages_from_client(1, 0), Some(Vec::new()));
}

#[test]
fn empty_read_of_known_client_is_empty_batch() {
    let mut server = new_server(2);
    connect(&mut server, 1, addr(1));
    // a known session with nothing buffered yields an empty batch, not
    // an absent result — and does so repeatedly
    assert_eq!(server.get_messages_from_client(1, 0), Some(Vec::new()));
    assert_eq!(server.get_messages_from_client(1, 0), Some(Vec::new()));
    // only an unknown client reads as absent
    assert_eq!(server.get_messages_from_client(7, 0), None);
}

#[test]
fn unknown_channel_reads_empty_and_drops_sends() {
    let mut server = new_server(2);
    connect(&mut server, 1, addr(1));
    server.send_message_to_client(1, 9, vec![1]);
    assert_eq!(server.get_messages_from_client(1, 9), Some(Vec::new()));
}

#[test]
fn broadcast_reaches_every_client() {
    let mut server = new_server(4);
    connect(&mut server, 1, addr(1));
    connect(&mut server, 2, addr(2));
    server.send_message_to_all_clients(1, vec![5]);
    assert_eq!(server.get_messages_from_client(1, 1), Some(vec![vec![5]]));
    assert_eq!(server.get_messages_from_client(2, 1), Some(vec![vec![5]]));
}

#[test]
fn channel_read_across_clients_omits_empty() {
    let mut server = new_server(4);
    connect(&mut server, 1, addr(1));
    connect(&mut server, 2, addr(2));
    connect(&mut server, 3, addr(3));
    server.send_message_to_client(1, 0, vec![1]);
    server.send_message_to_client(3, 0, vec![3, 3]);
    server.send_message_to_client(2, 1, vec![9]);
    let batches = server.get_messages_from_channel(0);
    assert_eq!(batches, vec![(1, vec![vec![1]]), (3, vec![vec![3, 3]])]);
    // the read drained channel 0 everywhere, channel 1 is untouched
    assert_eq!(server.get_messages_from_channel(0), Vec::new());
    assert_eq!(server.get_messages_from_channel(1), vec![(2, vec![vec![9]])]);
}

#[test]
fn send_packets_flushes_oldest_first() {
    let mut server = new_server(2);
    connect(&mut server, 1, addr(1));
    server.send_message_to_client(1, 0, vec![11]);
    server.send_message_to_client(1, 0, vec![22]);
    // one packet per session per flush, oldest message first
    assert_eq!(server.send_packets(), vec![(addr(1), vec![11])]);
    assert_eq!(server.send_packets(), vec![(addr(1), vec![22])]);
    assert_eq!(server.send_packets(), Vec::new());
}

#[test]
fn send_packets_takes_lowest_channel_first() {
    let mut server = new_server(2);
    connect(&mut server, 1, addr(1));
    server.send_message_to_client(1, 1, vec![101]);
    server.send_message_to_client(1, 0, vec![100]);
    // channels are flushed in instantiation order
    assert_eq!(server.send_packets(), vec![(addr(1), vec![100])]);
    assert_eq!(server.send_packets(), vec![(addr(1), vec![101])]);
}

#[test]
fn events_drain_oldest_first() {
    let mut server = new_server(4);
    server.process_payload_from(vec![1, 1], &addr(1)).unwrap();
    server.process_payload_from(vec![2], &addr(1)).unwrap();
    let _ = server.update(0, Vec::new());
    server.process_payload_from(vec![1, 2], &addr(2)).unwrap();
    server.process_payload_from(vec![2], &addr(2)).unwrap();
    let _ = server.update(0, Vec::new());
    assert_eq!(server.get_event(), Some(Event::ClientConnected(1)));
    assert_eq!(server.get_event(), Some(Event::ClientConnected(2)));
    assert_eq!(server.get_event(), None);
}

#[test]
fn network_info_counts_session_traffic() {
    let mut server = new_server(2);
    connect(&mut server, 1, addr(1));
    assert_eq!(server.get_client_network_info(5), None);
    let info = server.get_client_network_info(1).unwrap();
    assert_eq!(info.received_packets, 0);
    assert_eq!(info.received_bytes, 0);
    // a datagram from the session's address is ingested by the session
    server.process_payload_from(vec![1, 2, 3, 4], &addr(1)).unwrap();
    let info = server.get_client_network_info(1).unwrap();
    assert_eq!(info.received_packets, 1);
    assert_eq!(info.received_bytes, 4);
    // flushing a packet counts on the sent side
    server.send_message_to_client(1, 0, vec![8, 8]);
    let _ = server.send_packets();
    let info = server.get_client_network_info(1).unwrap();
    assert_eq!(info.sent_packets, 1);
    assert_eq!(info.sent_bytes, 2);
}

#[test]
fn disconnect_removes_session_and_frees_address() {
    let mut server = new_server(1);
    connect(&mut server, 1, addr(1));
    assert_eq!(server.get_event(), Some(Event::ClientConnected(1)));

    // unknown id: no panic, no event
    server.disconnect_client(9);
    assert_eq!(server.get_event(), None);

    server.disconnect_client(1);
    assert_eq!(server.get_event(), Some(Event::ClientDisconnected(1)));
    assert!(!server.has_clients());
    assert_eq!(server.get_messages_from_client(1, 0), None);

    // the slot and the address are free again: the peer can reconnect
    connect(&mut server, 2, addr(1));
    assert_eq!(server.get_clients_id(), vec![2]);
}

#[test]
fn session_keeps_priority_over_handshake_routing() {
    let mut server = new_server(2);
    connect(&mut server, 1, addr(1));
    // a payload that parses as a first contact, sent from a session's
    // address, goes to the session, not to handshake construction
    server.process_payload_from(vec![1, 7], &addr(1)).unwrap();
    let _ = server.update(0, Vec::new());
    assert_eq!(server.get_clients_id(), vec![1]);
}
