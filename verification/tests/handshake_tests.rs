use bittorrent::handshake::Handshake;

#[test]
fn handshake_initialize() {
    let info: Vec<u8> = vec![];
    let peer_id = String::from("-4R0001-D23T25F26S27");
    let _handshake = Handshake::new(info.clone(), peer_id);
    assert_eq!(_handshake.len, 19);
    assert_eq!(_handshake.pstr, "BitTorrent protocol".to_string());
    assert_eq!(_handshake.reserved, [0; 8].to_vec());
    assert_eq!(_handshake.info_hash, info);
    assert_eq!(_handshake.peer_id, String::from("-4R0001-D23T25F26S27"));
}

#[test]
fn into_bytes() {
    let info: Vec<u8> = [
        69, 179, 214, 147, 207, 242, 133, 151, 95, 98, 42, 202, 235, 117, 197, 98, 106, 202,
        255, 111,
    ]
    .to_vec();
    let peer_id = String::from("-4R0001-D23T25F26S27");
    let handshake = Handshake::new(info, peer_id);
    let result = handshake.as_bytes();
    let expected: Vec<u8> = [
        19, 66, 105, 116, 84, 111, 114, 114, 101, 110, 116, 32, 112, 114, 111, 116, 111, 99,
        111, 108, 0, 0, 0, 0, 0, 0, 0, 0, 69, 179, 214, 147, 207, 242, 133, 151, 95, 98, 42,
        202, 235, 117, 197, 98, 106, 202, 255, 111, 45, 52, 82, 48, 48, 48, 49, 45, 68, 50, 51,
        84, 50, 53, 70, 50, 54, 83, 50, 55,
    ]
    .to_vec();
    assert_eq!(result, expected);
}

#[test]
fn from_bytes() {
    let message: Vec<u8> = [
        19, 66, 105, 116, 84, 111, 114, 114, 101, 110, 116, 32, 112, 114, 111, 116, 111, 99,
        111, 108, 0, 0, 0, 0, 0, 0, 0, 0, 69, 179, 214, 147, 207, 242, 133, 151, 95, 98, 42,
        202, 235, 117, 197, 98, 106, 202, 255, 111, 45, 52, 82, 48, 48, 48, 49, 45, 68, 50, 51,
        84, 50, 53, 70, 50, 54, 83, 50, 55,
    ]
    .to_vec();
    let info: Vec<u8> = [
        69, 179, 214, 147, 207, 242, 133, 151, 95, 98, 42, 202, 235, 117, 197, 98, 106, 202,
        255, 111,
    ]
    .to_vec();
    let peer_id = String::from("-4R0001-D23T25F26S27");
    let new_handshake: Handshake = Handshake::from_bytes(message).unwrap();

    assert_eq!(new_handshake.len, 19);
    assert_eq!(new_handshake.pstr, "BitTorrent protocol".to_string());
    assert_eq!(new_handshake.info_hash, info);
    assert_eq!(new_handshake.peer_id, peer_id);
}

#[test]
fn mismatched_info_hash_is_detected() {
    let info: Vec<u8> = vec![
        69, 179, 214, 147, 207, 242, 133, 151, 95, 98, 42, 202, 235, 117, 197, 98, 106, 202,
        255, 111,
    ];
    let handshake = Handshake::new(info.clone(), String::from("-4R0001-D23T25F26S27"));
    let mut wire = handshake.as_bytes();
    // flip one byte inside the info-hash field (bytes 28..48)
    wire[30] ^= 0xff;
    let parsed = Handshake::from_bytes(wire).unwrap();
    assert_ne!(parsed.info_hash, info);
    assert!(!bittorrent::session::handshake_matches(&info, &parsed));
}

#[test]
fn matching_info_hash_is_accepted() {
    let info: Vec<u8> = vec![
        69, 179, 214, 147, 207, 242, 133, 151, 95, 98, 42, 202, 235, 117, 197, 98, 106, 202,
        255, 111,
    ];
    let handshake = Handshake::new(info.clone(), String::from("-4R0001-D23T25F26S27"));
    let wire = handshake.as_bytes();
    assert_eq!(wire.len(), 68);
    assert_eq!(wire[0], 19);
    let parsed = Handshake::from_bytes(wire).unwrap();
    assert!(bittorrent::session::handshake_matches(&info, &parsed));
}
