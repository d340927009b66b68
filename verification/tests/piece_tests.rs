use bittorrent::client::BLOCK_SIZE;
use bittorrent::metainfo::MetaInfo;
use bittorrent::piece::{Block, Piece, StoreOutcome};

#[test]
fn block_initialize() {
    let block: Block = Block::new(0, 16);
    assert_eq!(
        block,
        Block {
            index: 0,
            length: 16,
            data: vec![],
            requested: false,
        }
    );
}

#[test]
fn piece_initialize() {
    let p = Piece::new(256, 4, 4, vec![1, 2, 3], BLOCK_SIZE);
    assert_eq!(
        p,
        Piece {
            length: 256,
            piece_length: 4,
            index: 4,
            blocks: vec![Block::new(0, 256)],
            hash: vec![1, 2, 3],
            is_complete: false,
        }
    );
}

#[test]
fn initialize_not_have_all_blocks() {
    let p = Piece::new(256, 4, 4, vec![1, 2, 3], BLOCK_SIZE);
    assert_eq!(p.have_all_blocks(), false);
}

#[test]
fn find_next_block() {
    let mut p = Piece::new(256, 4, 4, vec![1, 2, 3], BLOCK_SIZE);
    assert_eq!(
        p.next_block_to_request(),
        Some(&Block {
            index: 0,
            length: 256,
            data: vec![],
            requested: false
        })
    );

    p.is_complete = true;
    assert_eq!(p.next_block_to_request(), None);
}

#[test]
fn have_all_blocks() {
    let p = Piece {
        length: 256,
        piece_length: 4,
        index: 4,
        blocks: vec![Block {
            index: 12,
            length: 12,
            data: vec![1, 3, 4],
            requested: false,
        }],
        hash: vec![1, 2, 3],
        is_complete: true,
    };
    assert_eq!(p.have_all_blocks(), true);
}

#[test]
fn not_have_all_blocks() {
    let p = Piece {
        length: 256,
        piece_length: 4,
        index: 4,
        blocks: vec![Block {
            index: 12,
            length: 12,
            data: vec![],
            requested: false,
        }],
        hash: vec![1, 2, 3],
        is_complete: false,
    };
    assert_eq!(p.have_all_blocks(), false);
}

#[test]
fn clear_block_data() {
    let mut p = Piece {
        length: 256,
        piece_length: 4,
        index: 4,
        blocks: vec![Block {
            index: 12,
            length: 12,
            data: vec![1, 2],
            requested: false,
        }],
        hash: vec![1, 2, 3],
        is_complete: false,
    };

    p.clear_block_data();
    assert_eq!(
        p.blocks,
        vec![Block {
            index: 12,
            length: 12,
            data: vec![],
            requested: false
        }]
    );
}

#[test]
fn storing_correct_blocks_completes_the_piece() {
    let content: Vec<u8> = vec![1, 2, 3, 4];
    let hash = MetaInfo::hashing(&content);
    let mut p = Piece::new(4, 1, 4, hash, 2);
    assert_eq!(p.blocks.len(), 2);

    let first = p.store(0, vec![1, 2]).unwrap();
    assert_eq!(first, StoreOutcome::Pending);
    assert_eq!(p.is_complete, false);

    let second = p.store(1, vec![3, 4]).unwrap();
    match second {
        StoreOutcome::Completed(data, offset) => {
            assert_eq!(data, vec![1, 2, 3, 4]);
            assert_eq!(offset, 4);
        }
        other => panic!("expected a completed piece, got {:?}", other),
    }
    assert_eq!(p.is_complete, true);
    assert!(p.blocks.iter().all(|b| b.data.is_empty()));
}

#[test]
fn storing_corrupt_blocks_clears_the_piece() {
    let content: Vec<u8> = vec![1, 2, 3, 4];
    let hash = MetaInfo::hashing(&content);
    let mut p = Piece::new(4, 0, 4, hash, 2);
    p.mark_as_requested(0);
    p.mark_as_requested(1);

    let first = p.store(0, vec![5, 6]).unwrap();
    assert_eq!(first, StoreOutcome::Pending);
    let second = p.store(1, vec![7, 8]).unwrap();
    assert_eq!(second, StoreOutcome::Corrupt);

    assert_eq!(p.is_complete, false);
    assert!(p.blocks.iter().all(|b| b.data.is_empty()));
    assert!(p.blocks.iter().all(|b| !b.requested));
    assert_eq!(p.next_block_to_request().unwrap().index, 0);
}
