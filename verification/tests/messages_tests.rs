use bittorrent::messages::{Message, MessageId};

#[test]
fn generate_keep_alive() {
    let keep_alive = Message::generate_keep_alive();
    assert_eq!(keep_alive.len, 0);
    assert_eq!(keep_alive.id, MessageId::KeepAlive);

    let expected = Message::new(0, vec![]).unwrap();
    assert_eq!(keep_alive.equals(expected), true);
}

#[test]
fn generate_choke() {
    let choke = Message::generate_choke();
    assert_eq!(choke.len, 1);
    assert_eq!(choke.id, MessageId::Choke);

    let expected = Message::new(1, vec![0]).unwrap();
    assert_eq!(choke.equals(expected), true);
}

#[test]
fn generate_unchoke() {
    let unchoke = Message::generate_unchoke();
    assert_eq!(unchoke.len, 1);
    assert_eq!(unchoke.id, MessageId::Unchoke);

    let expected = Message::new(1, vec![1]).unwrap();
    assert_eq!(unchoke.equals(expected), true);
}

#[test]
fn generate_interested() {
    let interested = Message::generate_interested();
    assert_eq!(interested.len, 1);
    assert_eq!(interested.id, MessageId::Interested);
    let expected = Message::new(1, vec![2]).unwrap();
    assert_eq!(interested.equals(expected), true);
}

#[test]
fn generate_not_interested() {
    let not_interested = Message::generate_not_interested();
    assert_eq!(not_interested.len, 1);
    assert_eq!(not_interested.id, MessageId::NotInterested);
    let expected = Message::new(1, vec![3]).unwrap();
    assert_eq!(not_interested.equals(expected), true);
}

#[test]
fn fail_if_wrong_format() {
    assert_eq!(
        Message::new(1, [10].to_vec()).unwrap_err().message(),
        "El formato del mensaje no es valido"
    );
}

#[test]
fn generate_have() {
    let message = Message::generate_have(vec![4, 0, 0, 1, 0]);
    assert_eq!(message.len, 5);
    assert_eq!(message.id, MessageId::Have(256));

    let expected = Message::new(5, vec![4, 0, 0, 1, 0]).unwrap();
    assert_eq!(message.equals(expected), true);
}

#[test]
fn messages_generate_request() {
    let message = Message::generate_request(vec![6, 0, 0, 1, 0, 1, 2, 3, 5, 0, 0, 0, 255]);
    assert_eq!(message.len, 13);
    assert_eq!(message.id, MessageId::Request(256, 16909061, 255));

    let expected = Message::new(13, vec![6, 0, 0, 1, 0, 1, 2, 3, 5, 0, 0, 0, 255]).unwrap();
    assert_eq!(message.equals(expected), true);
}

#[test]
fn generate_cancel() {
    let message = Message::generate_cancel(vec![8, 0, 1, 0, 0, 1, 2, 3, 5, 6, 7, 8, 9]);
    assert_eq!(message.len, 13);
    assert_eq!(message.id, MessageId::Cancel(65536, 16909061, 101124105));

    let expected = Message::new(13, vec![8, 0, 1, 0, 0, 1, 2, 3, 5, 6, 7, 8, 9]).unwrap();
    assert_eq!(message.equals(expected), true);
}

#[test]
fn generate_bitfield() {
    let message = Message::generate_bitfield(8, vec![5, 0, 0, 1, 0, 1, 2, 7]).unwrap();
    assert_eq!(message.len, 8);
    assert_eq!(message.id, MessageId::Bitfield(vec![0, 0, 1, 0, 1, 2, 7]));

    let expected = Message::new(8, vec![5, 0, 0, 1, 0, 1, 2, 7]).unwrap();
    assert_eq!(message.equals(expected), true);
}

#[test]
fn generate_piece() {
    let message = Message::generate_piece(11, vec![7, 0, 0, 1, 0, 1, 2, 7, 4, 5, 6]).unwrap();
    assert_eq!(message.len, 11);
    assert_eq!(message.id, MessageId::Piece(256, 16910084, vec![5, 6]));

    let expected = Message::new(11, vec![7, 0, 0, 1, 0, 1, 2, 7, 4, 5, 6]).unwrap();
    assert_eq!(message.equals(expected), true);
}

#[test]
fn send_fixed_len_messages() {
    assert_eq!(Message::send_keep_alive(), vec![0, 0, 0, 0]);
    assert_eq!(Message::send_choke(), vec![0, 0, 0, 1, 0]);
    assert_eq!(Message::send_unchoke(), vec![0, 0, 0, 1, 1]);
    assert_eq!(Message::send_interested(), vec![0, 0, 0, 1, 2]);
    assert_eq!(Message::send_not_interested(), vec![0, 0, 0, 1, 3]);
}

#[test]
fn send_have() {
    let result = Message::send_have(5325234);
    let expected: Vec<u8> = vec![0, 0, 0, 5, 4, 0, 81, 65, 178];
    assert_eq!(result, expected);
}

#[test]
fn send_request() {
    let result = Message::send_request(256, 512, 1024);
    let expected: Vec<u8> = vec![0, 0, 0, 13, 6, 0, 0, 1, 0, 0, 0, 2, 0, 0, 0, 4, 0];
    assert_eq!(result, expected);
}

#[test]
fn send_cancel() {
    let result = Message::send_cancel(1, 2, 3);
    let expected: Vec<u8> = vec![0, 0, 0, 13, 8, 0, 0, 0, 1, 0, 0, 0, 2, 0, 0, 0, 3];
    assert_eq!(result, expected);
}

#[test]
fn messages_send_bitfield() {
    let mut vec = vec![0, 1, 2, 3, 4, 5, 6, 7, 8, 9, 10, 11, 12, 13, 14];
    let result = Message::send_bitfield(&mut vec).unwrap();
    let expected: Vec<u8> = vec![
        0, 0, 0, 16, 5, 0, 1, 2, 3, 4, 5, 6, 7, 8, 9, 10, 11, 12, 13, 14,
    ];
    assert_eq!(result, expected);
}

#[test]
fn send_piece() {
    let mut vec = vec![3, 2, 3, 4, 5, 6];
    let result = Message::send_piece(1, 2, &mut vec).unwrap();
    let expected: Vec<u8> = vec![0, 0, 0, 15, 7, 0, 0, 0, 1, 0, 0, 0, 2, 3, 2, 3, 4, 5, 6];
    assert_eq!(result, expected);
}

#[test]
fn request_frame_decodes_back_to_request() {
    let frame = Message::send_request(256, 512, 1024);
    let len = u32::from_be_bytes([frame[0], frame[1], frame[2], frame[3]]);
    let payload = frame[4..].to_vec();
    assert_eq!(len as usize, payload.len());
    let message = Message::new(len, payload).unwrap();
    assert_eq!(message.id, MessageId::Request(256, 512, 1024));
}

#[test]
fn piece_frame_decodes_back_to_piece() {
    let mut block = vec![9, 8, 7];
    let frame = Message::send_piece(3, 16384, &mut block).unwrap();
    let len = u32::from_be_bytes([frame[0], frame[1], frame[2], frame[3]]);
    let payload = frame[4..].to_vec();
    let message = Message::new(len, payload).unwrap();
    assert_eq!(message.id, MessageId::Piece(3, 16384, vec![9, 8, 7]));
}

#[test]
fn have_frame_decodes_back_to_have() {
    let frame = Message::send_have(77);
    let len = u32::from_be_bytes([frame[0], frame[1], frame[2], frame[3]]);
    let message = Message::new(len, frame[4..].to_vec()).unwrap();
    assert_eq!(message.id, MessageId::Have(77));
}

#[test]
fn bitfield_frame_decodes_back_to_bitfield() {
    let mut bits = vec![255, 128];
    let frame = Message::send_bitfield(&mut bits).unwrap();
    let len = u32::from_be_bytes([frame[0], frame[1], frame[2], frame[3]]);
    let message = Message::new(len, frame[4..].to_vec()).unwrap();
    assert_eq!(message.id, MessageId::Bitfield(vec![255, 128]));
}
