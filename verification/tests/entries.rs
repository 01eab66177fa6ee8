use changes_trie::codec::{DigestIndex, ExtrinsicIndex};
use changes_trie::order::sort_strings;
use changes_trie::queue::BlockQueue;

#[test]
fn entry_keys_hold_kind_block_and_key() {
    let index = ExtrinsicIndex { block: 0x0102030405060708, key: vec![42, 43] };
    assert_eq!(index.encode(), vec![1, 8, 7, 6, 5, 4, 3, 2, 1, 8, 42, 43]);
    let index = DigestIndex { block: 5, key: vec![] };
    assert_eq!(index.encode(), vec![2, 5, 0, 0, 0, 0, 0, 0, 0, 0]);
}

#[test]
fn long_keys_have_longer_lengths() {
    let bytes = DigestIndex { block: 0, key: vec![7; 63] }.encode();
    assert_eq!(bytes[9..11], [252, 7]);
    assert_eq!(bytes.len(), 9 + 1 + 63);
    let bytes = DigestIndex { block: 0, key: vec![7; 64] }.encode();
    assert_eq!(bytes[9..12], [1, 1, 7]);
    assert_eq!(bytes.len(), 9 + 2 + 64);
    let bytes = ExtrinsicIndex { block: 0, key: vec![7; 0x4000] }.encode();
    assert_eq!(bytes[9..14], [2, 0, 1, 0, 7]);
    assert_eq!(bytes.len(), 9 + 4 + 0x4000);
}

#[test]
fn byte_strings_are_sorted_and_kept() {
    let strings = vec![vec![2], vec![1, 255], vec![], vec![1], vec![2], vec![1, 0, 9]];
    let expected = vec![vec![], vec![1], vec![1, 0, 9], vec![1, 255], vec![2], vec![2]];
    assert_eq!(sort_strings(strings), expected);
}

#[test]
fn the_queue_hands_out_the_last_block_first_and_each_once() {
    let mut queue = BlockQueue::new();
    assert_eq!(queue.last(), None);
    assert_eq!(queue.pop(), None);
    queue.raise(5, 1);
    queue.raise(9, 0);
    queue.raise(2, 3);
    queue.raise(5, 0);
    queue.raise(9, 2);
    queue.raise(7, 4);
    assert_eq!(queue.last(), Some(9));
    assert_eq!(queue.pop(), Some((9, 2)));
    assert_eq!(queue.pop(), Some((7, 4)));
    assert_eq!(queue.pop(), Some((5, 1)));
    assert_eq!(queue.last(), Some(2));
    assert_eq!(queue.pop(), Some((2, 3)));
    assert_eq!(queue.pop(), None);
}
