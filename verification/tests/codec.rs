use bplus::config::Config;
use bplus::error::BPlusError;
use bplus::node::{Node, EXTRA_DATA, LEAF, MIDDLE_NODE, ROOT, VALID};
use bplus::overflow::{join_extra, make_extra_page, ExtraData};
use bplus::{DecodableU8, EncodableU8, Size, ValueTest};

fn leaf_value(v: u64) -> Vec<u8> {
    let mut buf: Vec<u8> = Vec::new();
    v.encode(&mut buf).unwrap();
    buf
}

#[test]
fn u64_codec_round_trip() {
    let v: u64 = 0x0102030405060708;
    let mut buf: Vec<u8> = Vec::new();
    let n = v.encode(&mut buf).unwrap();
    assert_eq!(n, 8);
    assert_eq!(buf, vec![1, 2, 3, 4, 5, 6, 7, 8]);
    let (back, used) = u64::decode(&buf).unwrap();
    assert_eq!(back, v);
    assert_eq!(used, 8);
    assert_eq!(u64::size(), 8);
}

#[test]
fn u64_decode_short_is_corrupt() {
    let r = u64::decode(&[1, 2, 3]);
    assert!(matches!(r, Err(BPlusError::Corrupt)));
}

#[test]
fn value_test_round_trip() {
    let value = ValueTest {
        id: 16,
        data: String::from("asadfoqnljasdfjoij"),
    };
    let mut buf: Vec<u8> = Vec::new();
    value.encode(&mut buf).unwrap();
    assert_eq!(buf.len(), 4 + 18);
    assert_eq!(&buf[0..4], &[0, 0, 0, 16]);
    let (back, used) = ValueTest::decode(&buf).unwrap();
    assert_eq!(back.id, 16);
    assert_eq!(back.data, "asadfoqnljasdfjoij");
    assert_eq!(used, 22);
}

#[test]
fn value_test_short_is_corrupt() {
    assert!(matches!(
        ValueTest::decode(&[0, 1]),
        Err(BPlusError::Corrupt)
    ));
}

/// A leaf page encodes and decodes back to the same keys and values.
#[test]
fn data_decode() {
    let cfg = Config::default();
    let mut node = Node::empty();
    node.flag = LEAF | VALID;
    node.is_change = true;
    node.key = vec![1, 2, 3, 4];
    node.value = vec![leaf_value(1), leaf_value(2), leaf_value(3), leaf_value(4)];
    node.extra_data = vec![None, None, None, None];
    let page = node.stop(&cfg).unwrap();
    assert_eq!(page.len(), cfg.page_size);
    let back = Node::new_node_from_byte(0, &page, &cfg).unwrap();
    assert_eq!(back.flag, LEAF | VALID);
    assert_eq!(back.key, vec![1, 2, 3, 4]);
    assert_eq!(
        back.value,
        vec![leaf_value(1), leaf_value(2), leaf_value(3), leaf_value(4)]
    );
    assert_eq!(back.extra_data, vec![None, None, None, None]);
}

/// A decoded leaf reports the header fields the encoder wrote.
#[test]
fn data_encode() {
    let cfg = Config::default();
    let mut node = Node::empty();
    node.flag = LEAF | VALID;
    node.key = vec![9];
    node.value = vec![leaf_value(90)];
    node.extra_data = vec![None];
    node.prev = 16384;
    node.next = 32768;
    let page = node.stop(&cfg).unwrap();
    let back = Node::new_node_from_byte(16384, &page, &cfg).unwrap();
    assert_eq!(back.prev, 16384);
    assert_eq!(back.next, 32768);
    assert_eq!(back.seek_start, 16384);
    // one entry of 8 + 8 + 8 key bytes + 8 value bytes behind the header
    assert_eq!(
        back.residual_storage_size,
        (cfg.page_size - 41 - 32) as u64
    );
}

/// An internal page encodes and decodes back to the same keys and child
/// pointers.
#[test]
fn node_key() {
    let cfg = Config::default();
    let mut node = Node::empty();
    node.flag = MIDDLE_NODE | VALID;
    node.is_change = true;
    node.key = vec![3, 4];
    node.key_seek = vec![16384, 32768, 49152];
    let page = node.stop(&cfg).unwrap();
    assert_eq!(page.len(), cfg.page_size);
    let back = Node::new_node_from_byte(0, &page, &cfg).unwrap();
    assert_eq!(back.flag, MIDDLE_NODE | VALID);
    assert_eq!(back.key, vec![3, 4]);
    assert_eq!(back.key_seek, vec![16384, 32768, 49152]);
}

/// The key block layout is exact: child pointer, key, alternating, with
/// the trailing child pointer last.
#[test]
fn key_encode() {
    let cfg = Config::default();
    let mut node = Node::empty();
    node.flag = MIDDLE_NODE | VALID;
    node.key = vec![3];
    node.key_seek = vec![16384, 32768];
    let page = node.stop(&cfg).unwrap();
    // header: flag, key_count=1, data_count=0, free, prev, next
    assert_eq!(page[0], MIDDLE_NODE | VALID);
    assert_eq!(&page[1..9], &[0, 0, 0, 0, 0, 0, 0, 1]);
    // child pointer 16384, key 3, child pointer 32768
    assert_eq!(&page[41..49], &[0, 0, 0, 0, 0, 0, 0x40, 0]);
    assert_eq!(&page[49..57], &[0, 0, 0, 0, 0, 0, 0, 3]);
    assert_eq!(&page[57..65], &[0, 0, 0, 0, 0, 0, 0x80, 0]);
}

#[test]
fn free_page_decodes_empty() {
    let cfg = Config::default();
    let page = vec![0u8; cfg.page_size];
    let node = Node::new_node_from_byte(0, &page, &cfg).unwrap();
    assert_eq!(node.flag, 0);
    assert!(node.key.is_empty());
    assert!(node.value.is_empty());
}

#[test]
fn short_page_is_corrupt() {
    let cfg = Config::default();
    let page = vec![VALID | LEAF; 10];
    assert!(matches!(
        Node::new_node_from_byte(0, &page, &cfg),
        Err(BPlusError::Corrupt)
    ));
}

#[test]
fn truncated_leaf_is_corrupt() {
    let cfg = Config::default();
    let mut page = vec![0u8; cfg.page_size];
    page[0] = VALID | LEAF;
    // claim far more entries than the page can hold
    page[9] = 0x01; // data_count enormous
    assert!(matches!(
        Node::new_node_from_byte(0, &page, &cfg),
        Err(BPlusError::Corrupt)
    ));
}

#[test]
fn oversized_value_without_chain_is_refused() {
    let cfg = Config::default();
    let mut node = Node::empty();
    node.flag = LEAF | VALID;
    node.key = vec![1];
    node.value = vec![vec![7u8; 5000]];
    node.extra_data = vec![None];
    assert!(matches!(node.stop(&cfg), Err(BPlusError::MissingExtraData)));
}

#[test]
fn overfull_leaf_is_refused() {
    let cfg = Config::default();
    let budget = cfg.data_length - 8 - 16;
    let count = cfg.page_size / cfg.data_length + 2;
    let mut node = Node::empty();
    node.flag = LEAF | VALID;
    for i in 0..count {
        node.key.push(i as u64);
        node.value.push(vec![1u8; budget]);
        node.extra_data.push(None);
    }
    assert!(matches!(node.stop(&cfg), Err(BPlusError::PageMax)));
}

#[test]
fn internal_without_keys_is_refused() {
    let cfg = Config::default();
    let mut node = Node::empty();
    node.flag = MIDDLE_NODE | VALID;
    node.key_seek = vec![16384];
    assert!(matches!(node.stop(&cfg), Err(BPlusError::NodeError(_))));
}

#[test]
fn extra_page_codec_round_trip() {
    let cfg = Config::default();
    let payload: Vec<u8> = (0u32..100).map(|x| x as u8).collect();
    // a mid-chain page: more remains, so a successor offset follows
    let page = make_extra_page(&payload, 10, 60, 500, 98304, &cfg);
    assert_eq!(page.len(), cfg.page_size);
    assert_eq!(page[0], VALID | EXTRA_DATA);
    let (piece, next) = ExtraData::data_extra_decode(&page, 16384).unwrap();
    assert_eq!(piece.seek, 16384);
    assert_eq!(piece.data.as_deref().unwrap(), &payload[10..60]);
    assert_eq!(next, 98304);
    // a terminal page: nothing remains, successor is 0
    let last = make_extra_page(&payload, 60, 100, 40, 0, &cfg);
    let (piece2, next2) = ExtraData::data_extra_decode(&last, 32768).unwrap();
    assert_eq!(piece2.data.as_deref().unwrap(), &payload[60..100]);
    assert_eq!(next2, 0);
}

#[test]
fn join_extra_concatenates_in_order() {
    let chain = ExtraData {
        seek: 16384,
        data: Some(vec![1, 2, 3]),
        next: Some(vec![
            ExtraData {
                seek: 32768,
                data: Some(vec![4, 5]),
                next: None,
            },
            ExtraData {
                seek: 49152,
                data: Some(vec![6]),
                next: None,
            },
        ]),
    };
    assert_eq!(join_extra(&chain), vec![1, 2, 3, 4, 5, 6]);
    let lone = ExtraData {
        seek: 16384,
        data: None,
        next: None,
    };
    assert_eq!(join_extra(&lone), Vec::<u8>::new());
}

#[test]
fn root_leaf_flags_are_independent() {
    // a page may be simultaneously root and leaf
    let cfg = Config::default();
    let mut node = Node::empty();
    node.flag = VALID | ROOT | LEAF;
    node.key = vec![5];
    node.value = vec![leaf_value(50)];
    node.extra_data = vec![None];
    let page = node.stop(&cfg).unwrap();
    let back = Node::new_node_from_byte(0, &page, &cfg).unwrap();
    assert_eq!(back.flag & ROOT, ROOT);
    assert_eq!(back.flag & LEAF, LEAF);
    assert_eq!(back.key, vec![5]);
}

#[test]
fn value_test_decode_replaces_invalid_utf8() {
    // 0xff cannot start a UTF-8 sequence: the decoder substitutes the
    // replacement character and keeps the valid tail
    let buf = [0u8, 0, 0, 1, 0xff, b'a'];
    let (back, _) = ValueTest::decode(&buf).unwrap();
    assert_eq!(back.id, 1);
    assert_eq!(back.data, "\u{FFFD}a");
}
