use bittorrent::client::BitClient;
use bittorrent::handshake::Handshake;
use bittorrent::messages::{Message, MessageId};
use bittorrent::metainfo::MetaInfo;
use bittorrent::peer::Peer;
use bittorrent::piece::{Piece, StoreOutcome};
use bittorrent::session::{
    handshake_matches, leech_reaction, seed_reaction, LeechAction, SeedAction,
};

/// A metafile for a 7-byte file in two pieces: `[1,2,3,4]` and `[5,6,7]`.
fn seven_byte_metainfo() -> MetaInfo {
    let hash1 = MetaInfo::hashing(&[1, 2, 3, 4]);
    let hash2 = MetaInfo::hashing(&[5, 6, 7]);
    let mut data: Vec<u8> = Vec::new();
    data.extend_from_slice(b"d8:announce20:http://tracker.local");
    // 20 bytes: "http://tracker.local"
    data.extend_from_slice(b"4:infod6:lengthi7e4:name8:seed.bin12:piece lengthi4e6:pieces40:");
    data.extend_from_slice(&hash1);
    data.extend_from_slice(&hash2);
    data.extend_from_slice(b"ee");
    MetaInfo::new(data).unwrap()
}

#[test]
fn client_builds_pieces_from_the_metafile() {
    let meta = seven_byte_metainfo();
    assert_eq!(meta.info.num_pieces, 2);
    let client = BitClient::new(
        meta,
        "-4R0001-D23T25F26S27".to_string(),
        "6881".to_string(),
        "log".to_string(),
    );
    assert_eq!(client.pieces.len(), 2);
    assert_eq!(client.pieces[0].length, 4);
    assert_eq!(client.pieces[1].length, 3);
    assert_eq!(client.peer.bitfield, vec![false, false]);
}

#[test]
fn assignment_never_hands_out_the_same_block_twice() {
    let meta = seven_byte_metainfo();
    let mut client = BitClient::new(
        meta,
        "-4R0001-D23T25F26S27".to_string(),
        "6881".to_string(),
        "log".to_string(),
    );
    let remote = vec![true, true];
    let mut seen: Vec<(u32, u32)> = Vec::new();
    loop {
        match client.assign_next_block(&remote) {
            Some((piece, block, _len)) => {
                assert!(!seen.contains(&(piece, block)));
                seen.push((piece, block));
            }
            None => break,
        }
    }
    // with a 2-byte block size the pieces split into 2 + 2 blocks
    // at the default block size each piece is a single block
    assert_eq!(seen, vec![(0, 0), (1, 0)]);
}

#[test]
fn seed_and_leech_exchange_produces_the_file() {
    // the seeder owns the whole 7-byte file, in pieces of 4 with blocks of 2
    let meta = seven_byte_metainfo();
    let file: Vec<u8> = vec![1, 2, 3, 4, 5, 6, 7];
    let block_size: u32 = 2;
    let piece_length = meta.info.piece_length;

    // leecher state: its own piece store, blocks of 2 bytes
    let mut p0 = Piece::new(4, 0, piece_length, meta.info.pieces[0].clone(), block_size);
    let mut p1 = Piece::new(3, 1, piece_length, meta.info.pieces[1].clone(), block_size);

    // handshake both ways; the leech checks the echoed info-hash
    let hs = Handshake::new(meta.info_hash.clone(), "-4R0001-D23T25F26S27".to_string());
    let wire = hs.as_bytes();
    let echoed = Handshake::from_bytes(wire).unwrap();
    assert!(handshake_matches(&meta.info_hash, &echoed));

    // the seeder advertises everything; the leech installs the bitfield
    let seed_bits = Peer::bytes_from_bitmap(vec![true, true]);
    let bitfield_msg = Message::new((seed_bits.len() + 1) as u32, {
        let mut payload = vec![5u8];
        payload.extend_from_slice(&seed_bits);
        payload
    })
    .unwrap();
    let mut remote = Peer::new("seed".to_string(), "".to_string(), "".to_string());
    match leech_reaction(false, bitfield_msg, block_size) {
        LeechAction::InstallBitfield(bytes) => remote.store_bitmap(bytes, 2),
        other => panic!("expected a bitfield install, got {:?}", other),
    }
    assert_eq!(remote.bitfield, vec![true, true]);

    // the leech drains requests piece by piece; the seeder answers from the file
    let mut output: Vec<u8> = vec![0; 7];
    for piece in [&mut p0, &mut p1] {
        loop {
            let (block_index, block_length) = match piece.next_block_to_request() {
                Some(b) => (b.index, b.length),
                None => break,
            };
            piece.mark_as_requested(block_index);
            let begin = block_index * block_size;
            let request_frame =
                Message::send_request(piece.index, begin, block_length);
            let len = u32::from_be_bytes([
                request_frame[0],
                request_frame[1],
                request_frame[2],
                request_frame[3],
            ]);
            let request = Message::new(len, request_frame[4..].to_vec()).unwrap();

            // seeder side: a request becomes an upload of the asked range
            let (index, begin, length) = match seed_reaction(request) {
                SeedAction::Upload(i, b, l) => (i, b, l),
                other => panic!("expected an upload, got {:?}", other),
            };
            let offset = bittorrent::session::upload_offset(index, piece_length, begin) as usize;
            let mut block = file[offset..offset + length as usize].to_vec();
            let piece_frame = Message::send_piece(index, begin, &mut block).unwrap();
            let plen = u32::from_be_bytes([
                piece_frame[0],
                piece_frame[1],
                piece_frame[2],
                piece_frame[3],
            ]);
            let piece_msg = Message::new(plen, piece_frame[4..].to_vec()).unwrap();

            // leech side: the piece message becomes a store
            match leech_reaction(true, piece_msg, block_size) {
                LeechAction::StoreBlock(pi, bi, data) => {
                    assert_eq!(pi, piece.index);
                    match piece.store(bi, data).unwrap() {
                        StoreOutcome::Completed(data, offset) => {
                            let offset = offset as usize;
                            output[offset..offset + data.len()].copy_from_slice(&data);
                        }
                        StoreOutcome::Pending => {}
                        StoreOutcome::Corrupt => panic!("verified piece reported corrupt"),
                    }
                }
                other => panic!("expected a stored block, got {:?}", other),
            }
        }
        assert!(piece.is_complete);
    }
    assert_eq!(output, vec![1, 2, 3, 4, 5, 6, 7]);
}

#[test]
fn choke_ends_the_leech_session() {
    let choke = Message::new(1, vec![0]).unwrap();
    assert_eq!(leech_reaction(true, choke, 16384), LeechAction::ChokedStop);
    let unknown = Message::new(1, vec![9]);
    assert!(unknown.is_err());
}

#[test]
fn seed_answers_interest_with_unchoke_and_choke_on_exit() {
    let interested = Message::new(1, vec![2]).unwrap();
    assert_eq!(seed_reaction(interested), SeedAction::SendUnchoke);
    let not_interested = Message::new(1, vec![3]).unwrap();
    assert_eq!(seed_reaction(not_interested), SeedAction::ChokeAndStop);
    let keep_alive = Message::new(0, vec![]).unwrap();
    assert_eq!(seed_reaction(keep_alive), SeedAction::Idle);
}

#[test]
fn store_bitmap() {
    let mut peer = Peer::new("id".to_string(), "ip".to_string(), "port".to_string());
    peer.store_bitmap(vec![17], 8);
    assert_eq!(
        peer.bitfield,
        vec![false, false, false, true, false, false, false, true]
    );
}

#[test]
fn return_bytes_from_bitmap() {
    let bytes = Peer::bytes_from_bitmap(vec![true; 16]);
    assert_eq!(bytes, vec![255, 255]);
}

#[test]
fn initialize_connection() {
    let peer = Peer::new("id".to_string(), "ip".to_string(), "port".to_string());
    assert_eq!(peer.id, "id".to_string());
    assert_eq!(peer.ip, "ip".to_string());
    assert_eq!(peer.port, "port".to_string());
    assert_eq!(peer.bitfield, Vec::<bool>::new());
    assert_eq!(peer.choked, false);
    assert_eq!(peer.interested, false);
}

#[test]
fn packed_bitmap_round_trips_through_store() {
    let owned = vec![true, false, true, true, false, false, true, false, true, true];
    let bytes = Peer::bytes_from_bitmap(owned.clone());
    let mut peer = Peer::new("id".to_string(), "ip".to_string(), "port".to_string());
    peer.store_bitmap(bytes, owned.len());
    assert_eq!(peer.bitfield, owned);
}

#[test]
fn data_size_check_guards_the_file_bounds() {
    assert!(bittorrent::errors::data_fits(3, 2, 10));
    assert!(!bittorrent::errors::data_fits(2, 12, 8));
    assert!(!bittorrent::errors::data_fits(6, 3, 8));
    assert_eq!(
        bittorrent::errors::DownloaderError::DataSizeError.message(),
        "El tama\u{f1}o de los datos es invalido"
    );
}
