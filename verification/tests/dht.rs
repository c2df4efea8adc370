//! The routing table, the XOR metric, the KRPC codec and the pending
//! query bucket.
use torain::d2h2::D2H2Client;
use torain::find_node::NodeFinder;
use torain::kademlia::{closer_to, xor_distance, Node, RouteTable, DHT};
use torain::krpc::{serialize, DHTError, KRPC, MessageType, Query, ResponseType};
use torain::bencode::BTypes;
use torain::request::{Query as PendingQuery, RequestBucket};
use torain::url::Url;
use torain::utils::{decode_option, get_string_from_dict, get_usize_from_dict};

#[test]
fn get_peers() {
    let torrent_hash = [0u8; 20];
    let nf = NodeFinder::new(None);
    let _peers = nf.get_peers(torrent_hash);
}

#[test]
fn find_peers_dht() {
    let client = D2H2Client::new(None).unwrap();
    let _ = client.find_peers(&[0; 20]);
}

#[test]
fn deserialize_response_transaction_id() {
    let bytes = "d1:rd2:id20:mnopqrstuvwxyz123456e1:t2:aa1:y1:re".as_bytes().to_vec();
    let res = KRPC::deserialize_bytes(bytes).unwrap();
    assert_eq!(res.transaction_id, "aa")
}

#[test]
fn deserialize_response_transaction_id_failed() {
    let bytes = "d1:rd2:id20:mnopqrstuvwxyz123456e1:t2:aa1:y1:re".as_bytes().to_vec();
    let res = KRPC::deserialize_bytes(bytes).unwrap();
    assert!(res.transaction_id != "bb")
}

#[test]
fn deserialize_response_id() {
    let bytes = "d1:rd2:id20:mnopqrstuvwxyz123456e1:t2:aa1:y1:re".as_bytes().to_vec();
    let res = KRPC::deserialize_bytes(bytes).unwrap();
    if let MessageType::Response(r) = res.message_type {
        assert_eq!(r.id, "mnopqrstuvwxyz123456".to_string());
        assert_eq!(r.token, None);
        assert!(r.response.as_ref() == None);
    } else {
        panic!("Error")
    }
}

#[test]
fn deserialize_error_reply() {
    let bytes = "d1:eli203e14:protocol errore1:t2:xy1:y1:ee".as_bytes().to_vec();
    let res = KRPC::deserialize_bytes(bytes).unwrap();
    assert_eq!(res.transaction_id, "xy");
    assert!(matches!(res.message_type, MessageType::Error(DHTError::ProtocError)));
}

#[test]
fn deserialize_values_reply() {
    let mut bytes = "d1:rd2:id20:mnopqrstuvwxyz1234566:valuesl6:".as_bytes().to_vec();
    bytes.extend_from_slice(&[127, 0, 0, 1, 0x1F, 0x90]);
    bytes.extend_from_slice("ee1:t2:aa1:y1:re".as_bytes());
    let res = KRPC::deserialize_bytes(bytes).unwrap();
    if let MessageType::Response(r) = res.message_type {
        if let Some(ResponseType::Values(urls)) = r.response {
            assert_eq!(urls.len(), 1);
            assert_eq!(urls[0].host, "127.0.0.1:8080");
        } else {
            panic!("expected peer values")
        }
    } else {
        panic!("expected a response")
    }
}

#[test]
fn serialize_ping_query() {
    let mut args = Vec::new();
    args.push(("id".to_owned().into_bytes(), BTypes::BSTRING(vec![b'x'; 20])));
    let msg = KRPC {
        transaction_id: "aa".to_string(),
        message_type: MessageType::Query(Query {
            method_name: "ping".to_string(),
            arguments: BTypes::DICT(args),
        }),
    };
    let raw = serialize(msg);
    let mut expected = "d1:ad2:id20:xxxxxxxxxxxxxxxxxxxxe1:q4:ping1:t2:aa1:y1:qe"
        .as_bytes()
        .to_vec();
    assert_eq!(raw, expected.drain(..).collect::<Vec<u8>>());
}

#[test]
fn check_bucket() {
    let transaction_id = "aa";
    let mut bucket = RequestBucket::new();
    bucket.add_request(transaction_id.to_string(), PendingQuery::PING);
    let query = bucket.get_request(transaction_id);
    assert_eq!(query, Some(PendingQuery::PING));
    assert_eq!(bucket.get_request(transaction_id), None);
}

fn node(id: [u8; 20], last_seen: u64) -> Node {
    Node { id, url: Url::from_ip_bytes(&[127, 0, 0, 1], 6881), last_seen }
}

#[test]
fn xor_metric() {
    let a = [0xFFu8; 20];
    let z = [0x00u8; 20];
    assert_eq!(xor_distance(&a, &a), [0u8; 20]);
    assert_eq!(xor_distance(&a, &z), [0xFFu8; 20]);
    let b = [0x5Au8; 20];
    assert_eq!(xor_distance(&a, &b), xor_distance(&b, &a));
}

#[test]
fn routing_capacity() {
    // distinct ids: spread the counter over two bytes
    let mut table = RouteTable::new();
    for i in 0..300u64 {
        let mut id = [0u8; 20];
        id[0] = (i / 256) as u8;
        id[1] = (i % 256) as u8;
        table.add(node(id, i));
    }
    assert_eq!(table.len(), 256);
    // the first insertions carried the smallest last-seen stamps and
    // made way for the overflow
    for i in 0..table.len() {
        assert!(table.node_at(i).last_seen >= 44);
    }
}

#[test]
fn routing_update_in_place() {
    let mut table = RouteTable::new();
    let id = [7u8; 20];
    table.add(node(id, 1));
    table.add(node(id, 9));
    assert_eq!(table.len(), 1);
    assert_eq!(table.node_at(0).last_seen, 9);
    table.remove(&id);
    assert_eq!(table.len(), 0);
}

#[test]
fn closest_order() {
    let mut table = RouteTable::new();
    table.add(node([0xFFu8; 20], 1));
    table.add(node([0x01u8; 20], 2));
    table.add(node([0x10u8; 20], 3));
    let target = [0x00u8; 20];
    let got = table.closest(&target, 2);
    assert_eq!(got.len(), 2);
    assert_eq!(got[0].id, [0x01u8; 20]);
    assert_eq!(got[1].id, [0x10u8; 20]);
    assert!(closer_to(&[0x01u8; 20], &[0x10u8; 20], &target));
}

#[test]
fn seeded_node_id_is_stable() {
    let a = DHT::with_seed(1);
    let b = DHT::with_seed(1);
    let c = DHT::with_seed(2);
    assert_eq!(a.node_id, b.node_id);
    assert_ne!(a.node_id, c.node_id);
}

#[test]
fn lookup_rounds() {
    let a = Url::from_ip_bytes(&[10, 0, 0, 1], 6881);
    let b = Url::from_ip_bytes(&[10, 0, 0, 2], 6881);
    let mut lookup = torain::lookup::LookupState::new([9u8; 20], vec![a.clone(), b.clone()]);
    assert!(lookup.should_continue());

    let round = lookup.begin_round();
    assert_eq!(round.len(), 2);
    lookup.end_round();

    // hosts already asked are not handed out again
    lookup.on_nodes(vec![a.clone(), Url::from_ip_bytes(&[10, 0, 0, 3], 6881)]);
    let round = lookup.begin_round();
    assert_eq!(round.len(), 1);
    assert_eq!(round[0].host, "10.0.0.3:6881");
    lookup.end_round();

    // an empty next round is reseeded only from fresh hosts
    lookup.refill(vec![b, Url::from_ip_bytes(&[10, 0, 0, 4], 6881)]);
    assert_eq!(lookup.working.len(), 1);

    lookup.on_values(vec![Url::from_ip_bytes(&[127, 0, 0, 1], 1)]);
    assert!(!lookup.should_continue());
    assert_eq!(lookup.found.len(), 1);
}

#[test]
fn optional_field_conversion() {
    let v = BTypes::INT(7);
    let got: Option<usize> = decode_option(Some(&v)).unwrap();
    assert_eq!(got, Some(7));
    let missing: Option<usize> = decode_option(None).unwrap();
    assert_eq!(missing, None);
    let wrong: Result<Option<String>, _> = decode_option(Some(&v));
    assert!(wrong.is_err());
}

#[test]
fn dict_field_helpers() {
    let v = torain::bencode::decode("d2:idi42e4:name4:abcde".as_bytes()).unwrap();
    assert_eq!(get_usize_from_dict(&v, "id"), Some(42));
    assert_eq!(get_string_from_dict(&v, "name"), Some("abcd".to_string()));
    assert_eq!(get_string_from_dict(&v, "id"), None);
    assert_eq!(get_usize_from_dict(&v, "missing"), None);
}
