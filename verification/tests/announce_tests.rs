use bittorrent::bencode::Bencode;
use bittorrent::metainfo::MetaInfo;
use bittorrent::tracker_request::{TrackerRequest, TrackerResponse};

#[test]
fn initialize() {
    let peer_id = String::from("-4R01010-D23T24S25F26");
    let hashed_info = MetaInfo::hashing(b"hello world");

    let tracker_request = TrackerRequest::new(
        hashed_info.to_vec(),
        peer_id.clone(),
        String::from("6881"),
        String::from("http://torrent.ubuntu.com:6969/announce"),
    );

    assert_eq!(tracker_request.info_hash, hashed_info);
    assert_eq!(tracker_request.peer_id, peer_id);
    assert_eq!(tracker_request.port_to_peers, String::from("6881"));
    assert_eq!(tracker_request.protocol, String::from("http"));
    assert_eq!(tracker_request.host, String::from("torrent.ubuntu.com"));
}

#[test]
fn generate_request() {
    let peer_id = String::from("-4R01010-D23T24S25F26");
    let hashed_info = MetaInfo::hashing(b"hello world");

    let tracker_request = TrackerRequest::new(
        hashed_info,
        peer_id.clone(),
        String::from("6881"),
        String::from("http://torrent.ubuntu.com:6969/announce"),
    );
    let request = tracker_request.generate_tracker_request().unwrap();
    let request = String::from_utf8(request).unwrap();

    let expected = "GET /announce?info_hash=%2a%ael5%c9O%cf%b4%15%db%e9_%40%8b%9c%e9%1e%e8F%ed&peer_id=".to_owned() + &peer_id + "&ip=186.189.238.5&port=6881&uploaded=0&downloaded=0&left=0&event=started HTTP/1.0\r\nHost: torrent.ubuntu.com\r\n\r\n";
    assert_eq!(request, expected);
}

#[test]
fn index_points_past_the_headers() {
    let reply = b"HTTP/1.0 200 OK\r\nContent-Type: text/plain\r\n\r\nd8:intervali10ee".to_vec();
    let idx = TrackerRequest::index(reply.clone());
    assert_eq!(&reply[idx + 1..], b"d8:intervali10ee");
}

#[test]
fn response_reads_counts_and_peers() {
    let body = b"d8:completei1e10:incompletei2e8:intervali10e5:peersld2:ip12:91.189.95.217:peer id20:T03I--00TiFSaYzPDIpT4:porti6891eeee".to_vec();
    let mut blank = TrackerResponse::new();
    let response = blank.from(body).unwrap();
    assert_eq!(response.complete, "1");
    assert_eq!(response.incomplete, "2");
    assert_eq!(response.interval, "10");
    assert_eq!(response.peers.len(), 1);
    assert_eq!(response.peers[0].ip, "91.189.95.21");
    assert_eq!(response.peers[0].id, "T03I--00TiFSaYzPDIpT");
    assert_eq!(response.peers[0].port, "6891");
}

#[test]
fn get_peers_info() {
    let mut list: Vec<Bencode> = vec![];
    let mut dict: Vec<(String, Bencode)> = vec![];
    dict.push((
        String::from("ip"),
        Bencode::String(String::from("91.189.95.21")),
    ));
    dict.push((
        String::from("peer id"),
        Bencode::String(String::from("T03I--00TiFSaYzPDIpT")),
    ));
    dict.push((String::from("port"), Bencode::Int(6891)));
    list.push(Bencode::Dictionary(dict));

    let response = TrackerResponse::read_peers(list);
    assert_eq!(response[0].id, "T03I--00TiFSaYzPDIpT");
    assert_eq!(response[0].ip, "91.189.95.21");
    assert_eq!(response[0].port, "6891");
}
