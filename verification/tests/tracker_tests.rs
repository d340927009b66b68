use bittorrent::bencode::Bencode;
use bittorrent::tracker::{BitTracker, Endpoint, Event, InfoPeer, Peer, Request, Response, Stats};

fn request_with(peer_id: &str, event: &str, left: &str, time: i64) -> Request {
    let mut request = Request::new();
    request.info_hash_url = "%a9%b3%27cNr%21~%e0%1a%de%8emw%16%10%7f%ff%c4g".to_string();
    request.peer_id = peer_id.to_string();
    request.ip = "127.0.0.1".to_string();
    request.port = "12345".to_string();
    request.compact = "0".to_string();
    request.event = event.to_string();
    request.uploaded = "0".to_string();
    request.downloaded = "0".to_string();
    request.left = left.to_string();
    request.time = time;
    request
}

#[test]
fn initialize_peer() {
    let time = 1650000000;
    let request = request_with("PEER-KBRON", "started", "0", time);

    let peer = Peer::new(&request).unwrap();
    assert_eq!(peer.id, "PEER-KBRON".to_string());
    assert_eq!(peer.ip, "127.0.0.1".to_string());
    assert_eq!(peer.port, "12345".to_string());
    assert_eq!(peer.uploaded, "0".to_string());
    assert_eq!(peer.downloaded, "0".to_string());
    assert_eq!(peer.left, "0".to_string());
    assert_eq!(peer.event, Event::Started);
    assert_eq!(peer.time_last_request, time);
}

#[test]
fn actualize_peer() {
    let time = 1650000000;
    let request = request_with("PEER-KBRON", "started", "100", time);
    let mut peer = Peer::new(&request).unwrap();

    let time = 1650000100;
    let mut new_request = request_with("PEER-KBRON", "completed", "0", time);
    new_request.uploaded = "10".to_string();
    new_request.downloaded = "100".to_string();

    peer.actualize_request(&new_request).unwrap();
    assert_eq!(peer.id, "PEER-KBRON".to_string());
    assert_eq!(peer.ip, "127.0.0.1".to_string());
    assert_eq!(peer.port, "12345".to_string());
    assert_eq!(peer.uploaded, "10".to_string());
    assert_eq!(peer.downloaded, "100".to_string());
    assert_eq!(peer.left, "0".to_string());
    assert_eq!(peer.event, Event::Completed);
    assert_eq!(peer.time_last_request, time);
}

#[test]
fn cant_actualize_peer_with_different_id() {
    let request = request_with("PEER-KBRON", "started", "100", 1650000000);
    let mut peer = Peer::new(&request).unwrap();

    let new_request = request_with("PEER-No-Tan-KBRON", "completed", "0", 1650000100);
    assert!(peer.actualize_request(&new_request).is_err());
}

#[test]
fn match_event() {
    assert_eq!(Event::Started, Peer::match_event("started").unwrap());
    assert_eq!(Event::Stopped, Peer::match_event("stopped").unwrap());
    assert_eq!(Event::Completed, Peer::match_event("completed").unwrap());
    assert!(Peer::match_event("basado").is_err());
}

#[test]
fn unknown_event_is_invalid_peer_state() {
    let err = Peer::match_event("paused").unwrap_err();
    assert_eq!(err.message(), "El estado de la request del peer es invalido");
}

#[test]
fn save_split_parameters() {
    let mut request = Request::new();

    let expected = "GET /announce?info_hash=%2a%ael5%c9O%cf%b4%15%db%e9_%40%8b%9c%e9%1e%e8F%ed&peer_id=-4R01010-D23T24S25F26&port=6881&uploaded=0&downloaded=0&left=0&compact=1&event=started&ip=186.189.238.5 HTTP/1.0\r\nHost: torrent.ubuntu.com\r\n\r\n";

    request.parse_request(expected.to_string()).unwrap();

    assert_eq!(request.peer_id, "-4R01010-D23T24S25F26");
    assert_eq!(request.port, "6881");
    assert_eq!(request.uploaded, "0");
    assert_eq!(request.downloaded, "0");
    assert_eq!(request.left, "0");
    assert_eq!(request.compact, "1");
    assert_eq!(request.event, "started");
    assert_eq!(request.ip, "186.189.238.5");
    assert_eq!(
        request.info_hash_url,
        "%2a%ael5%c9O%cf%b4%15%db%e9_%40%8b%9c%e9%1e%e8F%ed"
    );
}

#[test]
fn initilize() {
    let id = ("id".to_string(), Bencode::String("PEER-BACAN".to_string()));
    let ip = ("ip".to_string(), Bencode::String("127.0.0.1".to_string()));
    let port = ("port".to_string(), Bencode::String("420".to_string()));
    let dict1 = Bencode::Dictionary([id, ip, port].to_vec());

    let id = ("id".to_string(), Bencode::String("PEER-PANA".to_string()));
    let ip = ("ip".to_string(), Bencode::String("127.0.0.2".to_string()));
    let port = ("port".to_string(), Bencode::String("440".to_string()));
    let dict2 = Bencode::Dictionary([id, ip, port].to_vec());

    let list = [dict1, dict2].to_vec();
    let tracker_id = "TRACKER-BACAN".to_string();
    let response = Response::new(tracker_id.clone(), 0, 2, list.clone());

    assert_eq!(response.tracker_id, tracker_id);
    assert_eq!(response.complete, 0);
    assert_eq!(response.incomplete, 2);
    assert_eq!(response.bencode_peers, list);
}

#[test]
fn generate_message() {
    let id = ("id".to_string(), Bencode::String("PEER-BACAN".to_string()));
    let ip = ("ip".to_string(), Bencode::String("127.0.0.1".to_string()));
    let port = ("port".to_string(), Bencode::String("420".to_string()));
    let dict1 = Bencode::Dictionary([id, ip, port].to_vec());

    let id = ("id".to_string(), Bencode::String("PEER-PANA".to_string()));
    let ip = ("ip".to_string(), Bencode::String("127.0.0.2".to_string()));
    let port = ("port".to_string(), Bencode::String("440".to_string()));
    let dict2 = Bencode::Dictionary([id, ip, port].to_vec());

    let list = [dict1, dict2].to_vec();
    let tracker_id = "TRACKER-BACAN".to_string();
    let response = Response::new(tracker_id.clone(), 0, 2, list.clone());

    let message = response.make_message();
    let split: Vec<&str> = message.split("\n").collect();

    let parser = bittorrent::bencode::DecodingParser;
    let decoded = parser.decode_from_string(split[5].to_string()).unwrap();
    match decoded {
        Bencode::Dictionary(entries) => {
            assert_eq!(entries[0].0, "complete");
            assert_eq!(entries[0].1, Bencode::Int(0));
            assert_eq!(entries[1].0, "incomplete");
            assert_eq!(entries[1].1, Bencode::Int(2));
            assert_eq!(entries[2].0, "interval");
            assert_eq!(entries[2].1, Bencode::Int(10));
            assert_eq!(entries[3].0, "peers");
        }
        other => panic!("expected a dictionary, got {:?}", other),
    }
}

#[test]
fn initialize_peer_info() {
    let info = InfoPeer::new(
        String::from("PANA-PEER"),
        String::from("Ayer"),
        false,
        String::from("sample.torrent"),
    );
    assert_eq!(info.id, String::from("PANA-PEER"));
    assert_eq!(info.time_last_request, String::from("Ayer"));
    assert_eq!(info.completed, false);
}

#[test]
fn initialize_stats() {
    let info = InfoPeer::new(
        String::from("PANA-PEER"),
        String::from("Ayer"),
        false,
        String::from("sample.torrent"),
    );
    let mut vec = vec![];
    vec.push(info);
    let stats = Stats::new(0, 0, 0, vec.clone());
    assert_eq!(stats.cant_peers, 0);
    assert_eq!(stats.cant_seeders, 0);
    assert_eq!(stats.cant_torrents, 0);
    assert_eq!(stats.info, vec);
}

fn tracker_with_one_torrent() -> (BitTracker, String) {
    let pieces: Vec<u8> = vec![
        92, 197, 230, 82, 190, 13, 230, 242, 120, 5, 179, 4, 100, 255, 155, 0, 244, 137, 240, 201,
    ];
    let mut data = Vec::new();
    data.extend_from_slice(b"d8:announce35:udp://tracker.openbittorrent.com:80");
    data.extend_from_slice(b"4:infod6:lengthi20e4:name10:sample.txt12:piece lengthi65536e");
    data.extend_from_slice(b"6:pieces20:");
    data.extend_from_slice(&pieces);
    data.extend_from_slice(b"ee");
    let meta = bittorrent::metainfo::MetaInfo::new(data).unwrap();
    let torrent = bittorrent::tracker::Torrent::new(meta).unwrap();
    let url = torrent.info_hash_url.clone();
    let tracker = BitTracker::new(vec![torrent], "TRACKER-ID-0123456789".to_string());
    (tracker, url)
}

#[test]
fn duplicate_announce_updates_in_place() {
    let (mut tracker, url) = tracker_with_one_torrent();

    let mut first = request_with("PEER-KBRON", "started", "20", 1650000000);
    first.info_hash_url = url.clone();
    assert_eq!(tracker.receive_request(&first).unwrap(), true);
    assert_eq!(tracker.torrents[0].peers.len(), 1);

    let mut second = request_with("PEER-KBRON", "completed", "0", 1650000555);
    second.info_hash_url = url.clone();
    second.uploaded = "7".to_string();
    assert_eq!(tracker.receive_request(&second).unwrap(), true);

    // still a single record, now reflecting the second announce
    assert_eq!(tracker.torrents[0].peers.len(), 1);
    let peer = &tracker.torrents[0].peers[0];
    assert_eq!(peer.id, "PEER-KBRON");
    assert_eq!(peer.event, Event::Completed);
    assert_eq!(peer.uploaded, "7");
    assert_eq!(peer.left, "0");
    assert_eq!(peer.time_last_request, 1650000555);
}

#[test]
fn unknown_torrent_is_not_registered() {
    let (mut tracker, _url) = tracker_with_one_torrent();
    let request = request_with("PEER-KBRON", "started", "20", 1650000000);
    assert_eq!(tracker.receive_request(&request).unwrap(), false);
    assert_eq!(tracker.torrents[0].peers.len(), 0);
}

#[test]
fn response_excludes_the_requester() {
    let (mut tracker, url) = tracker_with_one_torrent();

    let mut first = request_with("PEER-ONE", "completed", "0", 1);
    first.info_hash_url = url.clone();
    tracker.receive_request(&first).unwrap();
    let mut second = request_with("PEER-TWO", "started", "20", 2);
    second.info_hash_url = url.clone();
    tracker.receive_request(&second).unwrap();

    let response = tracker.make_response(&second).unwrap();
    assert_eq!(response.complete, 1);
    assert_eq!(response.incomplete, 0);
    assert_eq!(response.bencode_peers.len(), 1);
    assert_eq!(response.interval, 10);
    // the non-compact request gets the id included
    match &response.bencode_peers[0] {
        Bencode::Dictionary(entries) => {
            assert_eq!(entries[0].0, "ip");
            assert_eq!(entries[0].1, Bencode::String("127.0.0.1".to_string()));
            assert_eq!(entries[1].0, "port");
            assert_eq!(entries[2].0, "id");
            assert_eq!(entries[2].1, Bencode::String("PEER-ONE".to_string()));
        }
        other => panic!("expected a dictionary, got {:?}", other),
    }
}

#[test]
fn stats_count_peers_seeders_and_torrents() {
    let (mut tracker, url) = tracker_with_one_torrent();

    let mut first = request_with("PEER-ONE", "completed", "0", 5);
    first.info_hash_url = url.clone();
    tracker.receive_request(&first).unwrap();
    let mut second = request_with("PEER-TWO", "started", "20", 6);
    second.info_hash_url = url.clone();
    tracker.receive_request(&second).unwrap();

    let stats = tracker.get_stats().unwrap();
    assert_eq!(stats.cant_peers, 2);
    assert_eq!(stats.cant_seeders, 1);
    assert_eq!(stats.cant_torrents, 1);
    assert_eq!(stats.info.len(), 2);
    assert_eq!(stats.info[0].id, "PEER-ONE");
    assert_eq!(stats.info[0].completed, true);
    assert_eq!(stats.info[0].time_last_request, "5");
    assert_eq!(stats.info[0].torrent, "sample.txt");
    assert_eq!(stats.info[1].completed, false);
}

#[test]
fn endpoints_are_routed_by_name() {
    let announce = "GET /announce?info_hash=x HTTP/1.0".to_string();
    assert_eq!(
        BitTracker::match_endpoint(announce).unwrap(),
        Endpoint::Announce
    );
    assert_eq!(
        BitTracker::match_endpoint("GET /STATS".to_string()).unwrap(),
        Endpoint::Stats
    );
    assert_eq!(
        BitTracker::match_endpoint("GET /END".to_string()).unwrap(),
        Endpoint::End
    );
    assert_eq!(
        BitTracker::match_endpoint("GET /BASADO".to_string()).unwrap(),
        Endpoint::BadRequest
    );
}

#[test]
fn attend_announce_replies_for_known_torrent() {
    let (mut tracker, url) = tracker_with_one_torrent();
    let mut request = request_with("PEER-ONE", "started", "20", 9);
    request.info_hash_url = url;
    let reply = tracker.attend_announce(&request).unwrap();
    assert!(reply.is_some());

    let unknown = request_with("PEER-ONE", "started", "20", 9);
    let reply = tracker.attend_announce(&unknown).unwrap();
    assert!(reply.is_none());
}
