use pagestore::store::block::KEY_LEN;
use pagestore::store::header::HEADER_LEN;
use pagestore::store::meta::{CHAIN_END, META_LEN};
use pagestore::store::record::{CATEGORY_BLOCK, PROPERTY_BLOCK};
use pagestore::store::{
    Block, Category, CategoryBlock, Cursor, Error, Header, Meta, Property, PropertyBlock, Record,
    Store,
};
use std::collections::HashMap;

const PAGE: usize = 4096;

fn image(pages: usize) -> Vec<u8> {
    vec![0u8; pages * PAGE]
}

fn put_u32(image: &mut [u8], at: usize, value: u32) {
    image[at..at + 4].copy_from_slice(&value.to_le_bytes());
}

fn put_header(image: &mut [u8], properties: u32, categories: u32, item_kinds: u32) {
    put_u32(image, 0, properties);
    put_u32(image, 4, categories);
    put_u32(image, 8, item_kinds);
}

/// Writes a block and returns the offset behind its last record.
fn put_block(image: &mut [u8], index: usize, tag: u32, next: u32, records: &[(u32, &[u8])]) -> usize {
    let mut at = index * PAGE;
    put_u32(image, at, tag);
    put_u32(image, at + 4, next);
    put_u32(image, at + 8, records.len() as u32);
    at += 12;
    for (key, value) in records {
        put_u32(image, at, *key);
        at += 4;
        image[at..at + value.len()].copy_from_slice(value);
        at += value.len();
    }
    at
}

#[test]
fn the_layout_constants() {
    assert_eq!(HEADER_LEN, 12);
    assert_eq!(META_LEN, 12);
    assert_eq!(KEY_LEN, 4);
    assert_eq!(CHAIN_END, 0);
    assert_eq!(<Property as Record>::block_type(), PROPERTY_BLOCK);
    assert_eq!(<Category as Record>::block_type(), CATEGORY_BLOCK);
    assert_ne!(PROPERTY_BLOCK, CATEGORY_BLOCK);
}

#[test]
fn a_header_is_three_indices() {
    let mut data = vec![0u8; 16];
    put_header(&mut data, 0x01020304, 7, 0xffff_ffff);
    let mut cursor = Cursor::new(&data);
    let header = Header::read_from(&mut cursor).unwrap();
    assert_eq!(
        header,
        Header { property_index: 0x01020304, category_index: 7, item_kind_index: 0xffff_ffff }
    );
    assert_eq!(cursor.position(), 12);
}

#[test]
fn a_short_header_fails_and_consumes_what_is_left() {
    let data = vec![0u8; 11];
    let mut cursor = Cursor::new(&data);
    assert!(Header::read_from(&mut cursor).is_err());
    assert_eq!(cursor.position(), 11);
}

#[test]
fn metadata_are_tag_link_and_count() {
    let mut data = vec![0u8; 32];
    put_u32(&mut data, 4, 0x11);
    put_u32(&mut data, 8, 0x0a0b0c0d);
    put_u32(&mut data, 12, 3);
    let mut cursor = Cursor::new(&data);
    cursor.set_position(4);
    let meta = Meta::read_from(&mut cursor).unwrap();
    assert_eq!(meta, Meta { block_type: 0x11, next_block_index: 0x0a0b0c0d, record_count: 3 });
    assert_eq!(cursor.position(), 16);
}

#[test]
fn short_metadata_fail_and_consume_what_is_left() {
    let data = vec![0u8; 20];
    let mut cursor = Cursor::new(&data);
    cursor.set_position(9);
    assert!(Meta::read_from(&mut cursor).is_err());
    assert_eq!(cursor.position(), 20);
}

#[test]
fn a_sound_chain_is_planned_in_link_order() {
    // Blocks 1 -> 3 -> 2, with records that planning never looks at.
    let mut data = image(4);
    put_block(&mut data, 1, 0x11, 3, &[]);
    put_block(&mut data, 3, 0x11, 2, &[]);
    put_block(&mut data, 2, 0x11, CHAIN_END, &[]);
    put_u32(&mut data, PAGE + 8, 1000);
    put_u32(&mut data, 3 * PAGE + 8, 2000);
    put_u32(&mut data, 2 * PAGE + 8, 3000);

    let mut cursor = Cursor::new(&data);
    cursor.set_position(5);
    let plan = Meta::read_chain(&mut cursor, 0x11, 1).unwrap();
    assert_eq!(
        plan,
        vec![
            Meta { block_type: 0x11, next_block_index: 3, record_count: 1000 },
            Meta { block_type: 0x11, next_block_index: 2, record_count: 2000 },
            Meta { block_type: 0x11, next_block_index: CHAIN_END, record_count: 3000 },
        ]
    );
    // The cursor stands behind the metadata that were read last.
    assert_eq!(cursor.position(), (2 * PAGE + 12) as u64);
}

#[test]
fn a_chain_of_one_block_is_planned() {
    let mut data = image(1);
    put_block(&mut data, 0, 0x21, CHAIN_END, &[]);
    let mut cursor = Cursor::new(&data);
    let plan = Meta::read_chain(&mut cursor, 0x21, 0).unwrap();
    assert_eq!(plan, vec![Meta { block_type: 0x21, next_block_index: 0, record_count: 0 }]);
    assert_eq!(cursor.position(), 12);
}

#[test]
fn a_long_chain_is_planned_whole() {
    let blocks = 40usize;
    let mut data = image(blocks + 1);
    for index in 1..=blocks {
        let next = if index == blocks { CHAIN_END } else { index as u32 + 1 };
        put_block(&mut data, index, 0x11, next, &[]);
    }
    let mut cursor = Cursor::new(&data);
    let plan = Meta::read_chain(&mut cursor, 0x11, 1).unwrap();
    assert_eq!(plan.len(), blocks);
    for (k, meta) in plan.iter().enumerate() {
        let next = if k + 1 == blocks { CHAIN_END } else { k as u32 + 2 };
        assert_eq!(meta.next_block_index, next);
    }
}

#[test]
fn a_mismatched_first_block_fails_the_plan() {
    let mut data = image(2);
    put_block(&mut data, 1, 0x21, CHAIN_END, &[]);
    let mut cursor = Cursor::new(&data);
    cursor.set_position(3);
    assert!(matches!(Meta::read_chain(&mut cursor, 0x11, 1), Err(Error::FormatMismatch)));
    assert_eq!(cursor.position(), 3);
}

#[test]
fn a_mismatched_later_block_fails_the_plan() {
    let mut data = image(4);
    put_block(&mut data, 1, 0x11, 2, &[]);
    put_block(&mut data, 2, 0x11, 3, &[]);
    put_block(&mut data, 3, 0x21, CHAIN_END, &[]);
    let mut cursor = Cursor::new(&data);
    assert!(matches!(Meta::read_chain(&mut cursor, 0x11, 1), Err(Error::FormatMismatch)));
    assert_eq!(cursor.position(), 0);
}

#[test]
fn a_mismatched_block_leaves_no_part_of_the_chain() {
    // The first two blocks hold sound records; the third has the wrong tag.
    let mut data = image(4);
    put_block(&mut data, 1, 0x11, 2, &[(1, &[0x01, 0x02])]);
    put_block(&mut data, 2, 0x11, 3, &[(2, &[0x03, 0x04])]);
    put_block(&mut data, 3, 0x21, CHAIN_END, &[(3, &[0x05])]);
    let mut cursor = Cursor::new(&data);
    let blocks = Store::parse_blocks::<Property>(&mut cursor, 1);
    assert!(matches!(blocks, Err(Error::FormatMismatch)));
    assert_eq!(cursor.position(), 0);
}

#[test]
fn a_link_back_to_the_start_is_a_corrupt_chain() {
    let mut data = image(3);
    put_block(&mut data, 1, 0x11, 2, &[]);
    put_block(&mut data, 2, 0x11, 1, &[]);
    let mut cursor = Cursor::new(&data);
    cursor.set_position(77);
    assert!(matches!(Meta::read_chain(&mut cursor, 0x11, 1), Err(Error::CorruptChain)));
    assert_eq!(cursor.position(), 77);
}

#[test]
fn a_block_that_links_to_itself_is_a_corrupt_chain() {
    let mut data = image(2);
    put_block(&mut data, 1, 0x11, 1, &[]);
    let mut cursor = Cursor::new(&data);
    assert!(matches!(Meta::read_chain(&mut cursor, 0x11, 1), Err(Error::CorruptChain)));
}

#[test]
fn a_link_back_into_the_middle_is_a_corrupt_chain() {
    let mut data = image(5);
    put_block(&mut data, 1, 0x11, 2, &[]);
    put_block(&mut data, 2, 0x11, 3, &[]);
    put_block(&mut data, 3, 0x11, 4, &[]);
    put_block(&mut data, 4, 0x11, 2, &[]);
    let mut cursor = Cursor::new(&data);
    assert!(matches!(Meta::read_chain(&mut cursor, 0x11, 1), Err(Error::CorruptChain)));
    assert!(matches!(
        Store::parse_blocks::<Property>(&mut cursor, 1),
        Err(Error::CorruptChain)
    ));
}

#[test]
fn a_link_past_the_data_is_a_truncated_block() {
    let mut data = image(2);
    put_block(&mut data, 1, 0x11, 9, &[]);
    let mut cursor = Cursor::new(&data);
    assert!(matches!(Meta::read_chain(&mut cursor, 0x11, 1), Err(Error::TruncatedBlock)));
    assert_eq!(cursor.position(), 0);
}

#[test]
fn metadata_cut_off_by_the_end_are_a_truncated_block() {
    let mut data = image(2);
    put_block(&mut data, 1, 0x11, CHAIN_END, &[]);
    data.truncate(PAGE + 11);
    let mut cursor = Cursor::new(&data);
    assert!(matches!(Meta::read_chain(&mut cursor, 0x11, 1), Err(Error::TruncatedBlock)));
    data.push(0);
    let mut cursor = Cursor::new(&data);
    assert!(Meta::read_chain(&mut cursor, 0x11, 1).is_ok());
}

#[test]
fn a_block_of_properties_is_decoded() {
    let mut data = image(2);
    let end = put_block(
        &mut data,
        1,
        0x11,
        CHAIN_END,
        &[(10, &[0x05, 0x80, 0xa1]), (0xdead_beef, &[0xc1, 0x00, 0x01, 0x7f])],
    );
    let mut cursor = Cursor::new(&data);
    cursor.seek_page(1);
    let meta = Meta { block_type: 0x11, next_block_index: CHAIN_END, record_count: 2 };
    let block: PropertyBlock = Block::from_meta(&mut cursor, meta).unwrap();
    let mut expected = HashMap::new();
    expected.insert(10, Property { value_type: 5, flags: 161 });
    expected.insert(0xdead_beef, Property { value_type: 65537, flags: 127 });
    assert_eq!(block.data, expected);
    assert_eq!(cursor.position(), end as u64);
    assert_eq!(end, PAGE + 12 + 4 + 3 + 4 + 4);
}

#[test]
fn a_block_of_categories_is_decoded() {
    let mut data = image(1);
    let end = put_block(&mut data, 0, 0x21, CHAIN_END, &[(1, &[0x00]), (2, &[0x81, 0x02])]);
    let mut cursor = Cursor::new(&data);
    let meta = Meta { block_type: 0x21, next_block_index: CHAIN_END, record_count: 2 };
    let block: CategoryBlock = Block::from_meta(&mut cursor, meta).unwrap();
    let mut expected = HashMap::new();
    expected.insert(1, Category { parent: 0 });
    expected.insert(2, Category { parent: 258 });
    assert_eq!(block.data, expected);
    assert_eq!(cursor.position(), end as u64);
}

#[test]
fn a_block_without_records_is_empty() {
    let mut data = image(1);
    put_block(&mut data, 0, 0x21, CHAIN_END, &[]);
    let mut cursor = Cursor::new(&data);
    let meta = Meta { block_type: 0x21, next_block_index: CHAIN_END, record_count: 0 };
    let block: CategoryBlock = Block::from_meta(&mut cursor, meta).unwrap();
    assert!(block.data.is_empty());
    assert_eq!(cursor.position(), 12);
}

#[test]
fn only_the_records_that_the_metadata_count_are_read() {
    let mut data = image(1);
    put_block(&mut data, 0, 0x21, CHAIN_END, &[(1, &[0x01]), (2, &[0x02]), (3, &[0x03])]);
    let mut cursor = Cursor::new(&data);
    let meta = Meta { block_type: 0x21, next_block_index: CHAIN_END, record_count: 2 };
    let block: CategoryBlock = Block::from_meta(&mut cursor, meta).unwrap();
    assert_eq!(block.data.len(), 2);
    assert!(!block.data.contains_key(&3));
    assert_eq!(cursor.position(), 12 + 5 + 5);
}

#[test]
fn of_two_records_with_one_key_the_later_stays() {
    let mut data = image(1);
    put_block(&mut data, 0, 0x21, CHAIN_END, &[(7, &[0x01]), (8, &[0x02]), (7, &[0x03])]);
    let mut cursor = Cursor::new(&data);
    let meta = Meta { block_type: 0x21, next_block_index: CHAIN_END, record_count: 3 };
    let block: CategoryBlock = Block::from_meta(&mut cursor, meta).unwrap();
    assert_eq!(block.data.len(), 2);
    assert_eq!(block.data[&7], Category { parent: 3 });
    assert_eq!(block.data[&8], Category { parent: 2 });
}

#[test]
fn a_block_shorter_than_its_metadata_is_truncated() {
    let data = vec![0u8; 11];
    let mut cursor = Cursor::new(&data);
    let meta = Meta { block_type: 0x21, next_block_index: CHAIN_END, record_count: 0 };
    let block: Result<CategoryBlock, Error> = Block::from_meta(&mut cursor, meta);
    assert!(matches!(block, Err(Error::TruncatedBlock)));
    assert_eq!(cursor.position(), 0);
}

#[test]
fn a_key_cut_off_by_the_end_is_a_truncated_block() {
    let mut data = image(1);
    let end = put_block(&mut data, 0, 0x21, CHAIN_END, &[(1, &[0x01]), (2, &[0x02])]);
    data.truncate(end - 2);
    let mut cursor = Cursor::new(&data);
    let meta = Meta { block_type: 0x21, next_block_index: CHAIN_END, record_count: 2 };
    let block: Result<CategoryBlock, Error> = Block::from_meta(&mut cursor, meta);
    assert!(matches!(block, Err(Error::TruncatedBlock)));
    assert_eq!(cursor.position(), 0);
}

#[test]
fn more_records_than_the_data_hold_are_a_truncated_block() {
    let mut data = image(1);
    let end = put_block(&mut data, 0, 0x21, CHAIN_END, &[(1, &[0x01])]);
    data.truncate(end);
    let mut cursor = Cursor::new(&data);
    let meta = Meta { block_type: 0x21, next_block_index: CHAIN_END, record_count: 2 };
    let block: Result<CategoryBlock, Error> = Block::from_meta(&mut cursor, meta);
    assert!(matches!(block, Err(Error::TruncatedBlock)));
}

#[test]
fn a_value_cut_off_by_the_end_is_an_invalid_record() {
    let mut data = image(1);
    let end = put_block(&mut data, 0, 0x11, CHAIN_END, &[(1, &[0x01, 0xc1, 0x00, 0x01])]);
    data.truncate(end - 1);
    let mut cursor = Cursor::new(&data);
    cursor.set_position(0);
    let meta = Meta { block_type: 0x11, next_block_index: CHAIN_END, record_count: 1 };
    let block: Result<PropertyBlock, Error> = Block::from_meta(&mut cursor, meta);
    assert!(matches!(block, Err(Error::InvalidRecord)));
    assert_eq!(cursor.position(), 0);
}

#[test]
fn a_missing_value_is_an_invalid_record() {
    let mut data = image(1);
    let end = put_block(&mut data, 0, 0x21, CHAIN_END, &[(1, &[])]);
    data.truncate(end);
    let mut cursor = Cursor::new(&data);
    let meta = Meta { block_type: 0x21, next_block_index: CHAIN_END, record_count: 1 };
    let block: Result<CategoryBlock, Error> = Block::from_meta(&mut cursor, meta);
    assert!(matches!(block, Err(Error::InvalidRecord)));
}

#[test]
fn no_record_is_read_past_the_end_of_the_page() {
    // 816 records of five bytes fill the page up to four bytes before its end.
    let mut data = image(2);
    let records: Vec<(u32, &[u8])> = (0..816).map(|key| (key, &[0x01u8][..])).collect();
    let end = put_block(&mut data, 0, 0x21, CHAIN_END, &records);
    assert_eq!(end, PAGE - 4);
    let mut cursor = Cursor::new(&data);
    let meta = Meta { block_type: 0x21, next_block_index: CHAIN_END, record_count: 816 };
    let block: CategoryBlock = Block::from_meta(&mut cursor, meta).unwrap();
    assert_eq!(block.data.len(), 816);
    assert_eq!(cursor.position(), (PAGE - 4) as u64);

    // One record more has its key in this page and its value in the next.
    put_u32(&mut data, PAGE - 4, 999);
    data[PAGE] = 0x01;
    let mut cursor = Cursor::new(&data);
    let meta = Meta { block_type: 0x21, next_block_index: CHAIN_END, record_count: 817 };
    let block: Result<CategoryBlock, Error> = Block::from_meta(&mut cursor, meta);
    assert!(matches!(block, Err(Error::InvalidRecord)));

    // A record whose key would cross the boundary is cut off.
    let mut data = image(2);
    let records: Vec<(u32, &[u8])> = (0..815).map(|key| (key, &[0x01u8][..])).collect();
    let end = put_block(&mut data, 0, 0x21, CHAIN_END, &records);
    let end = {
        put_u32(&mut data, end, 815);
        data[end + 4] = 0x80;
        data[end + 5] = 0x01;
        end + 6
    };
    assert_eq!(end, PAGE - 3);
    let mut cursor = Cursor::new(&data);
    let meta = Meta { block_type: 0x21, next_block_index: CHAIN_END, record_count: 817 };
    let block: Result<CategoryBlock, Error> = Block::from_meta(&mut cursor, meta);
    assert!(matches!(block, Err(Error::TruncatedBlock)));
}

#[test]
fn the_blocks_of_a_chain_are_decoded_in_link_order() {
    let mut data = image(4);
    put_block(&mut data, 3, 0x21, 1, &[(1, &[0x0a])]);
    put_block(&mut data, 1, 0x21, 2, &[(2, &[0x0b])]);
    put_block(&mut data, 2, 0x21, CHAIN_END, &[(3, &[0x0c])]);
    let mut cursor = Cursor::new(&data);
    cursor.set_position(123);
    let blocks = Store::parse_blocks::<Category>(&mut cursor, 3).unwrap();
    assert_eq!(blocks.len(), 3);
    assert_eq!(blocks[0].data[&1], Category { parent: 10 });
    assert_eq!(blocks[1].data[&2], Category { parent: 11 });
    assert_eq!(blocks[2].data[&3], Category { parent: 12 });
    assert_eq!(cursor.position(), 0);
}

#[test]
fn a_fault_in_a_later_block_fails_the_chain() {
    let mut data = image(3);
    put_block(&mut data, 1, 0x21, 2, &[(1, &[0x0a])]);
    put_block(&mut data, 2, 0x21, CHAIN_END, &[(2, &[0x0b])]);
    data.truncate(2 * PAGE + 12 + 4);
    let mut cursor = Cursor::new(&data);
    cursor.set_position(9);
    let blocks = Store::parse_blocks::<Category>(&mut cursor, 1);
    assert!(matches!(blocks, Err(Error::InvalidRecord)));
    assert_eq!(cursor.position(), 9);

    data.truncate(2 * PAGE + 12 + 3);
    let mut cursor = Cursor::new(&data);
    let blocks = Store::parse_blocks::<Category>(&mut cursor, 1);
    assert!(matches!(blocks, Err(Error::TruncatedBlock)));
}

#[test]
fn a_fault_of_the_plan_comes_before_a_fault_of_a_record() {
    // The first block holds a record that is cut off; the second has the wrong tag.
    let mut data = image(3);
    put_block(&mut data, 1, 0x21, 2, &[]);
    put_u32(&mut data, PAGE + 8, 2000);
    put_block(&mut data, 2, 0x11, CHAIN_END, &[]);
    let mut cursor = Cursor::new(&data);
    let blocks = Store::parse_blocks::<Category>(&mut cursor, 1);
    assert!(matches!(blocks, Err(Error::FormatMismatch)));
}

#[test]
fn the_later_block_decides_the_value_of_a_key() {
    let mut data = image(4);
    put_block(&mut data, 2, 0x21, 1, &[(7, &[0x01]), (5, &[0x0f])]);
    put_block(&mut data, 1, 0x21, 3, &[(7, &[0x02]), (6, &[0x10])]);
    put_block(&mut data, 3, 0x21, CHAIN_END, &[(8, &[0x03])]);
    let mut cursor = Cursor::new(&data);
    let blocks = Store::parse_blocks::<Category>(&mut cursor, 2).unwrap();
    let merged = Block::merge(&blocks);
    // Block 1 comes later in the chain than block 2, though earlier in the data.
    assert_eq!(merged.data[&7], Category { parent: 2 });
    assert_eq!(merged.data[&5], Category { parent: 15 });
    assert_eq!(merged.data[&6], Category { parent: 16 });
    assert_eq!(merged.data[&8], Category { parent: 3 });
    assert_eq!(merged.data.len(), 4);
}

#[test]
fn no_blocks_fold_into_an_empty_map() {
    let blocks: Vec<PropertyBlock> = Vec::new();
    assert!(Block::merge(&blocks).data.is_empty());
}

#[test]
fn blocks_fold_in_their_order() {
    let mut first = HashMap::new();
    first.insert(7, Property { value_type: 1, flags: 1 });
    first.insert(1, Property { value_type: 9, flags: 9 });
    let mut second = HashMap::new();
    second.insert(7, Property { value_type: 2, flags: 2 });
    let mut third = HashMap::new();
    third.insert(3, Property { value_type: 3, flags: 3 });
    let blocks = vec![Block { data: first }, Block { data: second }, Block { data: third }];
    let merged = Block::merge(&blocks);
    assert_eq!(merged.data[&7], Property { value_type: 2, flags: 2 });
    assert_eq!(merged.data[&1], Property { value_type: 9, flags: 9 });
    assert_eq!(merged.data[&3], Property { value_type: 3, flags: 3 });
    assert_eq!(merged.data.len(), 3);
    // The blocks themselves are as they were.
    assert_eq!(blocks[0].data[&7], Property { value_type: 1, flags: 1 });
}

fn sample_store() -> Vec<u8> {
    let mut data = image(7);
    put_header(&mut data, 1, 4, 6);
    put_block(&mut data, 1, 0x11, 3, &[(7, &[0x01, 0x02]), (1, &[0x80, 0xa1, 0x00])]);
    put_block(&mut data, 3, 0x11, CHAIN_END, &[(7, &[0x03, 0x04])]);
    put_block(&mut data, 4, 0x21, 5, &[(7, &[0x09])]);
    put_block(&mut data, 5, 0x21, CHAIN_END, &[(7, &[0x0a]), (2, &[0x0b])]);
    put_block(&mut data, 6, 0x21, CHAIN_END, &[(99, &[0x63])]);
    data
}

#[test]
fn a_store_is_read_whole() {
    let data = sample_store();
    let mut cursor = Cursor::new(&data);
    let store = Store::read_from(&mut cursor).unwrap();
    assert_eq!(store.header, Header { property_index: 1, category_index: 4, item_kind_index: 6 });

    let mut properties = HashMap::new();
    properties.insert(7, Property { value_type: 3, flags: 4 });
    properties.insert(1, Property { value_type: 161, flags: 0 });
    assert_eq!(store.properties, properties);

    let mut categories = HashMap::new();
    categories.insert(7, Category { parent: 10 });
    categories.insert(2, Category { parent: 11 });
    assert_eq!(store.categories, categories);

    // The chain of item kinds leaves nothing in the store.
    assert!(!store.categories.contains_key(&99));
    assert_eq!(cursor.position(), 0);
}

#[test]
fn a_store_can_be_cloned() {
    let data = sample_store();
    let store = Store::read_from(&mut Cursor::new(&data)).unwrap();
    let copy = store.clone();
    assert_eq!(copy.header, store.header);
    assert_eq!(copy.properties, store.properties);
    assert_eq!(copy.categories, store.categories);
}

#[test]
fn a_store_without_header_is_an_io_error() {
    let data = vec![0u8; 11];
    let mut cursor = Cursor::new(&data);
    cursor.set_position(2);
    match Store::read_from(&mut cursor) {
        Err(Error::Io(e)) => assert_eq!(e.kind(), std::io::ErrorKind::UnexpectedEof),
        other => panic!("{:?}", other.map(|_| ())),
    }
    assert_eq!(cursor.position(), 2);
}

#[test]
fn a_fault_in_the_properties_fails_the_store() {
    let mut data = sample_store();
    put_u32(&mut data, 3 * PAGE, 0x21);
    let mut cursor = Cursor::new(&data);
    assert!(matches!(Store::read_from(&mut cursor), Err(Error::FormatMismatch)));
    assert_eq!(cursor.position(), 0);
}

#[test]
fn a_fault_in_the_categories_fails_the_store() {
    let mut data = sample_store();
    put_u32(&mut data, 5 * PAGE + 4, 4);
    let mut cursor = Cursor::new(&data);
    assert!(matches!(Store::read_from(&mut cursor), Err(Error::CorruptChain)));
    assert_eq!(cursor.position(), 0);
}

#[test]
fn a_fault_in_the_item_kinds_fails_the_store() {
    // The chain of item kinds is read as a chain of categories.
    let mut data = sample_store();
    put_u32(&mut data, 6 * PAGE, 0x11);
    assert!(matches!(Store::read_from(&mut Cursor::new(&data)), Err(Error::FormatMismatch)));

    let mut data = sample_store();
    put_u32(&mut data, 6 * PAGE + 4, 6);
    assert!(matches!(Store::read_from(&mut Cursor::new(&data)), Err(Error::CorruptChain)));

    let mut data = sample_store();
    data.truncate(6 * PAGE + 12 + 4);
    assert!(matches!(Store::read_from(&mut Cursor::new(&data)), Err(Error::InvalidRecord)));

    let mut data = sample_store();
    data.truncate(6 * PAGE + 12 + 1);
    assert!(matches!(Store::read_from(&mut Cursor::new(&data)), Err(Error::TruncatedBlock)));

    let mut data = sample_store();
    data.truncate(6 * PAGE + 5);
    assert!(matches!(Store::read_from(&mut Cursor::new(&data)), Err(Error::TruncatedBlock)));
}

#[test]
fn a_fault_in_the_properties_comes_first() {
    let mut data = sample_store();
    put_u32(&mut data, PAGE, 0x21);
    put_u32(&mut data, 5 * PAGE + 4, 4);
    assert!(matches!(Store::read_from(&mut Cursor::new(&data)), Err(Error::FormatMismatch)));
}

#[test]
fn a_store_is_read_from_where_the_cursor_stands() {
    let mut data = vec![0xeeu8; 20];
    data.extend(sample_store());
    // The header stands at byte 20; the blocks are counted from the start of the data.
    let mut shifted = image(8);
    shifted[20..32].copy_from_slice(&data[20..32]);
    put_block(&mut shifted, 1, 0x11, CHAIN_END, &[(1, &[0x01, 0x02])]);
    put_block(&mut shifted, 4, 0x21, CHAIN_END, &[(2, &[0x03])]);
    put_block(&mut shifted, 6, 0x21, CHAIN_END, &[]);
    let mut cursor = Cursor::new(&shifted);
    cursor.set_position(20);
    let store = Store::read_from(&mut cursor).unwrap();
    assert_eq!(store.properties[&1], Property { value_type: 1, flags: 2 });
    assert_eq!(store.categories[&2], Category { parent: 3 });
}

#[test]
fn a_property_is_two_integers() {
    let mut cursor = Cursor::new(&[0x80, 0xa1, 0xc1, 0x00, 0x01, 0x33]);
    let property = Property::read_from(&mut cursor).unwrap();
    assert_eq!(property, Property { value_type: 161, flags: 65537 });
    assert_eq!(cursor.position(), 5);
}

#[test]
fn a_property_cut_off_is_an_invalid_record() {
    let mut cursor = Cursor::new(&[0x80, 0xa1, 0xc1, 0x00]);
    assert!(matches!(Property::read_from(&mut cursor), Err(Error::InvalidRecord)));
    assert_eq!(cursor.position(), 4);
    let mut cursor = Cursor::new(&[0x80]);
    assert!(matches!(Property::read_from(&mut cursor), Err(Error::InvalidRecord)));
    assert_eq!(cursor.position(), 1);
}

#[test]
fn a_category_is_one_integer() {
    let mut cursor = Cursor::new(&[0xf1, 0x00, 0x00, 0x00, 0x03, 0x33]);
    let category = Category::read_from(&mut cursor).unwrap();
    assert_eq!(category, Category { parent: 4294967299 });
    assert_eq!(cursor.position(), 5);
}

#[test]
fn a_category_cut_off_is_an_invalid_record() {
    let mut cursor = Cursor::new(&[0xf1, 0x00, 0x00]);
    assert!(matches!(Category::read_from(&mut cursor), Err(Error::InvalidRecord)));
    assert_eq!(cursor.position(), 3);
}
