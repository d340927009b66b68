use bittorrent::bitfield::Bitfield;

#[test]
fn initialize_from_len() {
    let len: usize = 10;
    let bitfield = Bitfield::new(len);

    assert_eq!(bitfield.len, 10);
    assert_eq!(bitfield.bitmap, [0; 2]);
    assert_eq!(bitfield.last_byte, 2);
}

#[test]
fn initialize_from_bitmap() {
    let bitmap = vec![255; 1];
    let bitfield = Bitfield::from(bitmap, 0);
    assert_eq!(bitfield.len, 8);
    assert_eq!(bitfield.bitmap, [255; 1]);
    assert_eq!(bitfield.last_byte, 0);
}

#[test]
fn have_some_piece() {
    let len: usize = 64;
    let mut bitfield = Bitfield::new(len);
    bitfield.add_piece(15).unwrap();
    assert_eq!(bitfield.have_piece(15).unwrap(), true);
    assert_eq!(bitfield.have_piece(16).unwrap(), false);
}

#[test]
fn add_piece_out_of_index() {
    let len: usize = 32;
    let mut bitfield = Bitfield::new(len);
    assert_eq!(
        bitfield.add_piece(33).unwrap_err().message(),
        "Se intento acceder a una posicion invalida"
    );
}

#[test]
fn add_piece_with_offset() {
    let len: usize = 32;
    let mut bitfield = Bitfield::new(len);
    assert_eq!(bitfield.add_piece(19).unwrap(), true);
    assert_eq!(bitfield.bitmap, vec![0, 0, 16, 0]);
}

#[test]
fn add_piece_with_zero_offset() {
    let len: usize = 16;
    let mut bitfield = Bitfield::new(len);
    assert_eq!(bitfield.add_piece(13).unwrap(), true);
    assert_eq!(bitfield.bitmap, vec![0, 4]);
}

#[test]
fn add_piece_twice() {
    let len: usize = 16;
    let mut bitfield = Bitfield::new(len);
    assert_eq!(bitfield.add_piece(10).unwrap(), true);
    assert_eq!(bitfield.add_piece(10).unwrap(), false);
    assert_eq!(bitfield.bitmap, vec![0, 32]);
}

#[test]
fn have_piece() {
    let len: usize = 64;
    let mut bitfield = Bitfield::new(len);
    bitfield.add_piece(40).unwrap();
    assert_eq!(bitfield.have_piece(40).unwrap(), true);
}

#[test]
fn have_piece_is_false() {
    let len: usize = 64;
    let mut bitfield = Bitfield::new(len);
    bitfield.add_piece(40).unwrap();
    assert_eq!(bitfield.have_piece(35).unwrap(), false);
}

#[test]
fn have_piece_out_of_index() {
    let len: usize = 8;
    let bitfield = Bitfield::new(len);
    assert_eq!(
        bitfield.have_piece(9).unwrap_err().message(),
        "Se intento acceder a una posicion invalida"
    );
}

#[test]
fn remove_piece() {
    let len: usize = 32;
    let mut bitfield = Bitfield::new(len);
    bitfield.add_piece(30).unwrap();
    bitfield.add_piece(31).unwrap();
    assert_eq!(bitfield.remove_piece(30).unwrap(), true);
    assert_eq!(bitfield.bitmap, vec![0, 0, 0, 1]);
    assert_eq!(bitfield.remove_piece(31).unwrap(), true);
    assert_eq!(bitfield.bitmap, vec![0, 0, 0, 0]);
}

#[test]
fn remove_piece_out_of_index() {
    let len: usize = 32;
    let mut bitfield = Bitfield::new(len);
    assert_eq!(
        bitfield.remove_piece(33).unwrap_err().message(),
        "Se intento acceder a una posicion invalida"
    );
}

#[test]
fn remove_non_existent_piece() {
    let len: usize = 64;
    let mut bitfield = Bitfield::new(len);
    bitfield.add_piece(40).unwrap();
    assert_eq!(bitfield.remove_piece(23).unwrap(), false);
}

#[test]
fn add_then_remove_leaves_piece_absent() {
    let mut bitfield = Bitfield::new(64);
    assert_eq!(bitfield.add_piece(40).unwrap(), true);
    assert_eq!(bitfield.have_piece(40).unwrap(), true);
    assert_eq!(bitfield.remove_piece(40).unwrap(), true);
    assert_eq!(bitfield.have_piece(40).unwrap(), false);
}
