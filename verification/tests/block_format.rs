use rowstore::block::Block;
use rowstore::block::Serialize;
use rowstore::DBError;
use rowstore::Row;

#[test]
fn build_block() {
    let mut file: Vec<u8> = vec![0u8; Block::get_block_size()];
    {
        let block = Block::new(&mut file, 0);
        assert_eq!(block.len(), 0);
    }
    let block = Block::load_from_disk(&file, 0).ok().unwrap();
    assert_eq!(block.len(), 0);
}

#[test]
fn remove() {
    let mut file: Vec<u8> = vec![0u8; Block::get_block_size()];
    let mut block = Block::new(&mut file, 0);
    block.insert(&mut file, 0, Row { test_data: 1 });
    assert_eq!(block.get(0).test_data, 1);
    block.remove(&mut file, 0);
    assert_eq!(block.len(), 0);
}

#[test]
fn block_sizes() {
    assert_eq!(Block::get_bitmap_size(), 512);
    assert_eq!(Block::get_block_size(), 512 + 4096 * 4);
    assert_eq!(Row::size_of(), 4);
}

#[test]
fn second_block_region_offset() {
    let mut file: Vec<u8> = vec![0u8; 2 * Block::get_block_size()];
    let block = Block::new(&mut file, 4096);
    assert_eq!(block.get_file_start(), Block::get_block_size());
}

#[test]
fn row_round_trip() {
    let row = Row { test_data: 0x0102_0304 };
    let bytes = row.to_bytes();
    // little-endian, four bytes
    assert_eq!(bytes, vec![0x04u8, 0x03, 0x02, 0x01]);
    let back = Row::from_bytes(bytes);
    assert_eq!(back, row);
}

#[test]
fn insert_writes_bitmap_and_slot() {
    let mut file: Vec<u8> = vec![0u8; Block::get_block_size()];
    let mut block = Block::new(&mut file, 0);
    block.insert(&mut file, 10, Row { test_data: 0xDEAD_BEEF });
    // bit 2 of bitmap byte 1 records identifier 10
    assert_eq!(file[1], 0b100);
    // slot 10 holds the row's little-endian encoding
    let lo = 512 + 4 * 10;
    assert_eq!(&file[lo..lo + 4], &[0xEF, 0xBE, 0xAD, 0xDE]);
    assert!(block.contains(10));
    assert_eq!(block.len(), 1);
}

#[test]
fn reload_after_insert_and_remove() {
    let mut file: Vec<u8> = vec![0u8; Block::get_block_size()];
    let mut block = Block::new(&mut file, 0);
    block.insert(&mut file, 3, Row { test_data: 31 });
    block.insert(&mut file, 9, Row { test_data: 91 });
    let loaded = Block::load_from_disk(&file, 0).ok().unwrap();
    assert_eq!(loaded.len(), 2);
    assert!(loaded.contains(3) && loaded.contains(9));
    assert_eq!(loaded.get(3).test_data, 31);
    assert_eq!(loaded.get(9).test_data, 91);
    block.remove(&mut file, 3);
    let reloaded = Block::load_from_disk(&file, 0).ok().unwrap();
    assert_eq!(reloaded.len(), 1);
    assert!(!reloaded.contains(3));
    assert!(reloaded.contains(9));
}

#[test]
fn short_image_is_corruption() {
    let file: Vec<u8> = vec![0u8; Block::get_block_size() - 1];
    assert!(matches!(
        Block::load_from_disk(&file, 0),
        Err(DBError::Corruption)
    ));
}
