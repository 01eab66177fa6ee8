use changes_trie::changes::{key_changes, key_changes_proof, key_changes_proof_check};
use changes_trie::codec::{DigestIndex, ExtrinsicIndex};
use changes_trie::drilldown::DrilldownIteratorEssence;
use changes_trie::storage::{InMemoryStorage, RootsStorage, Storage};
use changes_trie::surface::surface_iterator;
use changes_trie::trie::{PlainReader, RecordingReader, TrieReader};
use changes_trie::types::{AnchorBlockId, Configuration, H256};
use keccak_hasher::KeccakHasher;
use memory_db::{HashKey, MemoryDB};
use parity_codec::Encode;
use reference_trie::RefTrieDBMut;
use trie_db::TrieMut;

/// An entry of a changes trie.
enum InputPair {
    ExtrinsicIndex(ExtrinsicIndex, Vec<u32>),
    DigestIndex(DigestIndex, Vec<u64>),
    Raw(Vec<u8>, Vec<u8>),
}

/// The root and the nodes of the trie with given entries.
fn build_trie(pairs: &[InputPair]) -> (H256, Vec<Vec<u8>>) {
    let mut db: MemoryDB<KeccakHasher, HashKey<KeccakHasher>, Vec<u8>> = MemoryDB::default();
    let mut root: H256 = [0; 32];
    {
        let mut trie = RefTrieDBMut::new(&mut db, &mut root);
        for pair in pairs {
            let (key, value) = match pair {
                InputPair::ExtrinsicIndex(index, extrinsics) => {
                    (index.encode(), extrinsics.encode())
                }
                InputPair::DigestIndex(index, blocks) => (index.encode(), blocks.encode()),
                InputPair::Raw(key, value) => (key.clone(), value.clone()),
            };
            trie.insert(&key, &value).unwrap();
        }
    }
    let nodes = db
        .drain()
        .into_iter()
        .filter(|(_, (_, count))| *count > 0)
        .map(|(_, (node, _))| node)
        .collect();
    (root, nodes)
}

fn with_inputs(inputs: Vec<(u64, Vec<InputPair>)>) -> InMemoryStorage {
    let mut nodes: Vec<Vec<u8>> = Vec::new();
    let mut roots: Vec<(u64, H256)> = Vec::new();
    for (block, pairs) in inputs {
        let (root, block_nodes) = build_trie(&pairs);
        nodes.extend(block_nodes);
        roots.push((block, root));
    }
    InMemoryStorage::new(&nodes, &roots)
}

fn changed(block: u64, extrinsics: Vec<u32>) -> InputPair {
    InputPair::ExtrinsicIndex(ExtrinsicIndex { block, key: vec![42] }, extrinsics)
}

fn digest(block: u64, blocks: Vec<u64>) -> InputPair {
    InputPair::DigestIndex(DigestIndex { block, key: vec![42] }, blocks)
}

fn anchor(number: u64) -> AnchorBlockId {
    AnchorBlockId { hash: [0; 32], number }
}

fn prepare_for_drilldown() -> (Configuration, InMemoryStorage) {
    let config = Configuration { digest_interval: 4, digest_levels: 2 };
    let backend = with_inputs(vec![
        // digest: 1..4 => [(3, 0)]
        (1, vec![]),
        (2, vec![]),
        (3, vec![
            InputPair::ExtrinsicIndex(ExtrinsicIndex { block: 3, key: vec![42] }, vec![0]),
        ]),
        (4, vec![
            InputPair::DigestIndex(DigestIndex { block: 4, key: vec![42] }, vec![3]),
        ]),
        // digest: 5..8 => [(6, 3), (8, 1+2)]
        (5, vec![]),
        (6, vec![
            InputPair::ExtrinsicIndex(ExtrinsicIndex { block: 6, key: vec![42] }, vec![3]),
        ]),
        (7, vec![]),
        (8, vec![
            InputPair::ExtrinsicIndex(ExtrinsicIndex { block: 8, key: vec![42] }, vec![1, 2]),
            InputPair::DigestIndex(DigestIndex { block: 8, key: vec![42] }, vec![6]),
        ]),
        // digest: 9..12 => []
        (9, vec![]),
        (10, vec![]),
        (11, vec![]),
        (12, vec![]),
        // digest: 0..16 => [4, 8]
        (13, vec![]),
        (14, vec![]),
        (15, vec![]),
        (16, vec![
            InputPair::DigestIndex(DigestIndex { block: 16, key: vec![42] }, vec![4, 8]),
        ]),
    ]);

    (config, backend)
}

/// Changes in blocks 2, 4, 6, 8, 12 and 14, digests included.
fn prepare_dense() -> (Configuration, InMemoryStorage) {
    let config = Configuration { digest_interval: 4, digest_levels: 2 };
    let backend = with_inputs(vec![
        (0, vec![]),
        (1, vec![]),
        (2, vec![changed(2, vec![5])]),
        (3, vec![]),
        (4, vec![changed(4, vec![0, 7]), digest(4, vec![2])]),
        (5, vec![]),
        (6, vec![changed(6, vec![1])]),
        (7, vec![]),
        (8, vec![changed(8, vec![3]), digest(8, vec![6])]),
        (9, vec![]),
        (10, vec![]),
        (11, vec![]),
        (12, vec![changed(12, vec![9])]),
        (13, vec![]),
        (14, vec![changed(14, vec![2])]),
        (15, vec![]),
        (16, vec![digest(16, vec![4, 8, 12, 14])]),
    ]);
    (config, backend)
}

fn collect(
    config: &Configuration,
    storage: &InMemoryStorage,
    begin: u64,
    end: u64,
    max: u64,
) -> Result<Vec<(u64, u32)>, String> {
    key_changes(config, storage, begin, &anchor(end), max, &[42]).and_then(|iter| iter.collect())
}

#[test]
fn drilldown_iterator_works() {
    let (config, storage) = prepare_for_drilldown();
    let drilldown_result = key_changes(
        &config, &storage, 0, &AnchorBlockId { hash: Default::default(), number: 16 }, 16, &[42])
        .and_then(|iter| iter.collect());
    assert_eq!(drilldown_result, Ok(vec![(8, 2), (8, 1), (6, 3), (3, 0)]));

    let drilldown_result = key_changes(
        &config, &storage, 0, &AnchorBlockId { hash: Default::default(), number: 2 }, 4, &[42])
        .and_then(|iter| iter.collect());
    assert_eq!(drilldown_result, Ok(vec![]));

    let drilldown_result = key_changes(
        &config, &storage, 0, &AnchorBlockId { hash: Default::default(), number: 3 }, 4, &[42])
        .and_then(|iter| iter.collect());
    assert_eq!(drilldown_result, Ok(vec![(3, 0)]));

    let drilldown_result = key_changes(
        &config, &storage, 7, &AnchorBlockId { hash: Default::default(), number: 8 }, 8, &[42])
        .and_then(|iter| iter.collect());
    assert_eq!(drilldown_result, Ok(vec![(8, 2), (8, 1)]));

    let drilldown_result = key_changes(
        &config, &storage, 5, &AnchorBlockId { hash: Default::default(), number: 7 }, 8, &[42])
        .and_then(|iter| iter.collect());
    assert_eq!(drilldown_result, Ok(vec![(6, 3)]));
}

#[test]
fn drilldown_iterator_fails_when_storage_fails() {
    let (config, mut storage) = prepare_for_drilldown();
    storage.clear_storage();

    assert!(key_changes(
        &config, &storage, 0, &AnchorBlockId { hash: Default::default(), number: 100 }, 1000, &[42])
        .and_then(|i| i.collect()).is_err());
}

#[test]
fn drilldown_iterator_fails_when_range_is_invalid() {
    let (config, storage) = prepare_for_drilldown();
    assert!(key_changes(
        &config, &storage, 0, &AnchorBlockId { hash: Default::default(), number: 100 }, 50, &[42]).is_err());
    assert!(key_changes(
        &config, &storage, 20, &AnchorBlockId { hash: Default::default(), number: 10 }, 100, &[42]).is_err());
}

#[test]
fn proving_drilldown_iterator_works() {
    // happens on remote full node:

    // create drilldown iterator that records all trie nodes during drilldown
    let (remote_config, remote_storage) = prepare_for_drilldown();
    let remote_proof = key_changes_proof(
        &remote_config, &remote_storage,
        0, &AnchorBlockId { hash: Default::default(), number: 16 }, 16, &[42]).unwrap();

    // happens on local light node:

    // create drilldown iterator that works the same, but only depends on trie
    let (local_config, mut local_storage) = prepare_for_drilldown();
    local_storage.clear_storage();
    let local_result = key_changes_proof_check(
        &local_config, &local_storage, remote_proof,
        0, &AnchorBlockId { hash: Default::default(), number: 16 }, 16, &[42]);

    // check that drilldown result is the same as if it was happening at the full node
    assert_eq!(local_result, Ok(vec![(8, 2), (8, 1), (6, 3), (3, 0)]));
}

#[test]
fn all_changes_come_once_and_in_descending_order() {
    let (config, storage) = prepare_dense();
    assert_eq!(
        collect(&config, &storage, 0, 16, 16),
        Ok(vec![(14, 2), (12, 9), (8, 3), (6, 1), (4, 7), (4, 0), (2, 5)])
    );
    assert_eq!(
        collect(&config, &storage, 1, 15, 1000),
        Ok(vec![(14, 2), (12, 9), (8, 3), (6, 1), (4, 7), (4, 0), (2, 5)])
    );
}

#[test]
fn changes_stay_in_range() {
    let (config, storage) = prepare_dense();
    // the digest in block 16 lists block 4, which is below the range
    assert_eq!(collect(&config, &storage, 5, 16, 16), Ok(vec![(14, 2), (12, 9), (8, 3), (6, 1)]));
    assert_eq!(collect(&config, &storage, 6, 13, 16), Ok(vec![(12, 9), (8, 3), (6, 1)]));
    assert_eq!(collect(&config, &storage, 6, 6, 16), Ok(vec![(6, 1)]));
    assert_eq!(collect(&config, &storage, 9, 11, 16), Ok(vec![]));
}

#[test]
fn the_first_block_comes_once_if_the_digest_above_it_on_the_surface_lists_it() {
    let (config, storage) = prepare_dense();
    assert_eq!(collect(&config, &storage, 12, 16, 16), Ok(vec![(14, 2), (12, 9)]));

    let mut inputs: Vec<(u64, Vec<InputPair>)> = (1..12).map(|block| (block, vec![])).collect();
    inputs.push((12, vec![changed(12, vec![7])]));
    inputs.extend((13..16).map(|block| (block, vec![])));
    inputs.push((16, vec![digest(16, vec![12])]));
    let storage = with_inputs(inputs);
    assert_eq!(collect(&config, &storage, 12, 16, 16), Ok(vec![(12, 7)]));
    // with one level of digests block 16 is entered at its own level
    let flat = Configuration { digest_interval: 4, digest_levels: 1 };
    assert_eq!(collect(&flat, &storage, 12, 16, 16), Ok(vec![(12, 7)]));
}

#[test]
fn each_change_comes_once_in_every_range() {
    let (config, storage) = prepare_dense();
    let all = [(14, 2), (12, 9), (8, 3), (6, 1), (4, 7), (4, 0), (2, 5)];
    for begin in 0..17 {
        for end in begin..17 {
            let expected: Vec<(u64, u32)> =
                all.iter().filter(|(block, _)| begin <= *block && *block <= end).cloned().collect();
            assert_eq!(collect(&config, &storage, begin, end, 16), Ok(expected));
        }
    }
}

#[test]
fn changes_descend_in_whatever_order_digests_list_blocks() {
    let config = Configuration { digest_interval: 4, digest_levels: 1 };
    let storage = with_inputs(vec![
        (1, vec![changed(1, vec![4])]),
        (2, vec![changed(2, vec![5, 6])]),
        (3, vec![changed(3, vec![7])]),
        (4, vec![digest(4, vec![2, 3, 1, 2])]),
    ]);
    let expected = vec![(3, 7), (2, 6), (2, 5), (1, 4)];
    assert_eq!(collect(&config, &storage, 1, 4, 4), Ok(expected.clone()));
    let proof = key_changes_proof(&config, &storage, 1, &anchor(4), 4, &[42]).unwrap();
    assert_eq!(
        key_changes_proof_check(&config, &storage, proof, 1, &anchor(4), 4, &[42]),
        Ok(expected)
    );

    let storage = with_inputs(vec![
        (1, vec![changed(1, vec![0])]),
        (2, vec![changed(2, vec![0])]),
        (3, vec![]),
        (4, vec![digest(4, vec![2, 1])]),
    ]);
    let proof = key_changes_proof(&config, &storage, 1, &anchor(4), 4, &[42]).unwrap();
    assert_eq!(
        key_changes_proof_check(&config, &storage, proof, 1, &anchor(4), 4, &[42]),
        Ok(vec![(2, 0), (1, 0)])
    );
}

#[test]
fn every_block_in_range_that_a_digest_lists_is_looked_at() {
    let config = Configuration { digest_interval: 4, digest_levels: 1 };
    // the digest in block 4 does not list block 3, but the one in block 8 does
    let mut inputs: Vec<(u64, Vec<InputPair>)> =
        (1..9).filter(|block| *block != 3 && *block != 8).map(|block| (block, vec![])).collect();
    inputs.push((3, vec![changed(3, vec![0])]));
    inputs.push((8, vec![digest(8, vec![3])]));
    let storage = with_inputs(inputs);
    assert_eq!(collect(&config, &storage, 1, 8, 8), Ok(vec![(3, 0)]));
    assert_eq!(collect(&config, &storage, 4, 8, 8), Ok(vec![]));
}

#[test]
fn a_block_that_is_listed_twice_is_looked_at_once() {
    let config = Configuration { digest_interval: 4, digest_levels: 2 };
    let mut inputs: Vec<(u64, Vec<InputPair>)> = (1..16)
        .filter(|block| block % 4 != 0)
        .map(|block| (block, vec![changed(block, vec![0])]))
        .collect();
    inputs.push((4, vec![digest(4, vec![1, 2, 3])]));
    // the digest itself and later blocks do not belong here
    inputs.push((8, vec![digest(8, vec![3, 7, 7, 8, 9, 200])]));
    inputs.push((12, vec![]));
    let storage = with_inputs(inputs);
    assert_eq!(collect(&config, &storage, 1, 8, 8), Ok(vec![(7, 0), (3, 0), (2, 0), (1, 0)]));
}

#[test]
fn the_genesis_block_is_looked_at_only_on_its_own() {
    let config = Configuration { digest_interval: 4, digest_levels: 2 };
    let storage = with_inputs(vec![(0, vec![changed(0, vec![1])]), (1, vec![])]);
    assert_eq!(collect(&config, &storage, 0, 0, 16), Ok(vec![(0, 1)]));
    assert_eq!(collect(&config, &storage, 0, 1, 16), Ok(vec![]));
}

#[test]
fn without_digests_every_block_is_looked_at() {
    let config = Configuration { digest_interval: 0, digest_levels: 0 };
    let (_, storage) = prepare_dense();
    assert_eq!(
        collect(&config, &storage, 3, 12, 16),
        Ok(vec![(12, 9), (8, 3), (6, 1), (4, 7), (4, 0)])
    );
    // a digest that is taken for a single block leads nowhere
    let storage = with_inputs(vec![
        (1, vec![changed(1, vec![1])]),
        (2, vec![changed(2, vec![2]), digest(2, vec![1])]),
    ]);
    assert_eq!(collect(&config, &storage, 1, 2, 2), Ok(vec![(2, 2), (1, 1)]));
}

#[test]
fn other_keys_have_no_changes() {
    let (config, storage) = prepare_dense();
    let end = anchor(16);
    let result = key_changes(&config, &storage, 0, &end, 16, &[43]);
    assert_eq!(result.and_then(|iter| iter.collect()), Ok(vec![]));
    let result = key_changes(&config, &storage, 0, &end, 16, &[]);
    assert_eq!(result.and_then(|iter| iter.collect()), Ok(vec![]));
}

#[test]
fn an_entry_that_cannot_be_decoded_lists_nothing() {
    let config = Configuration { digest_interval: 4, digest_levels: 1 };
    let broken_extrinsics = ExtrinsicIndex { block: 3, key: vec![42] }.encode();
    let broken_digest = DigestIndex { block: 4, key: vec![42] }.encode();
    // one number is announced, and only three bytes follow
    let bytes = vec![4, 1, 0, 0];
    let storage = with_inputs(vec![
        (1, vec![changed(1, vec![8])]),
        (2, vec![]),
        (3, vec![InputPair::Raw(broken_extrinsics, bytes.clone())]),
        (4, vec![changed(4, vec![6]), InputPair::Raw(broken_digest, bytes)]),
    ]);
    assert_eq!(collect(&config, &storage, 1, 4, 4), Ok(vec![(4, 6)]));
    assert_eq!(collect(&config, &storage, 1, 3, 3), Ok(vec![(1, 8)]));
}

#[test]
fn long_lists_are_read() {
    let config = Configuration { digest_interval: 4, digest_levels: 1 };
    let extrinsics: Vec<u32> = (0..20000).collect();
    let storage = with_inputs(vec![(1, vec![changed(1, extrinsics)])]);
    let changes = collect(&config, &storage, 1, 1, 1).unwrap();
    assert_eq!(changes.len(), 20000);
    assert_eq!(changes[0], (1, 19999));
    assert_eq!(changes[19999], (1, 0));
}

#[test]
fn invalid_ranges_are_named_as_such() {
    let (config, storage) = prepare_for_drilldown();
    let message = "invalid changes range".to_string();
    assert_eq!(collect(&config, &storage, 0, 100, 50), Err(message.clone()));
    assert_eq!(collect(&config, &storage, 20, 10, 100), Err(message.clone()));
    assert_eq!(
        key_changes_proof(&config, &storage, 20, &anchor(10), 100, &[42]),
        Err(message.clone())
    );
    assert_eq!(
        key_changes_proof_check(&config, &storage, vec![], 0, &anchor(100), 50, &[42]),
        Err(message)
    );
}

#[test]
fn a_missing_root_is_named_and_iterating_goes_on() {
    let config = Configuration { digest_interval: 4, digest_levels: 1 };
    let storage = with_inputs(vec![
        (9, vec![changed(9, vec![4])]),
        (11, vec![changed(11, vec![5])]),
    ]);
    let end = anchor(11);
    let mut iter = key_changes(&config, &storage, 9, &end, 11, &[42]).unwrap();
    assert_eq!(iter.next(), Some(Ok((11, 5))));
    assert_eq!(
        iter.next(),
        Some(Err("Changes trie root for block 10 is not found".to_string()))
    );
    assert_eq!(iter.next(), Some(Ok((9, 4))));
    assert_eq!(iter.next(), None);
    assert_eq!(iter.next(), None);
    assert_eq!(iter.collect(), Ok(vec![]));
    assert_eq!(
        collect(&config, &storage, 9, 11, 11),
        Err("Changes trie root for block 10 is not found".to_string())
    );
    assert_eq!(
        key_changes_proof(&config, &storage, 9, &end, 11, &[42]),
        Err("Changes trie root for block 10 is not found".to_string())
    );
}

#[test]
fn block_numbers_are_written_in_decimal() {
    let config = Configuration { digest_interval: 4, digest_levels: 1 };
    let storage = with_inputs(vec![]);
    for (block, digits) in [
        (0, "0"),
        (7, "7"),
        (10, "10"),
        (1002003, "1002003"),
        (9876543210, "9876543210"),
        (u64::MAX, "18446744073709551615"),
    ] {
        assert_eq!(
            collect(&config, &storage, block, block, u64::MAX),
            Err(format!("Changes trie root for block {} is not found", digits))
        );
    }
}

#[test]
fn the_best_block_does_not_matter_beyond_the_anchor() {
    let (config, storage) = prepare_for_drilldown();
    for max in 7..20 {
        assert_eq!(collect(&config, &storage, 1, 7, max), Ok(vec![(6, 3), (3, 0)]));
    }
}

#[test]
fn proofs_give_the_changes_of_every_range() {
    let (config, storage) = prepare_dense();
    let (_, mut roots) = prepare_dense();
    roots.clear_storage();
    for begin in 0..17 {
        for end in begin..17 {
            let proof = key_changes_proof(&config, &storage, begin, &anchor(end), 16, &[42]).unwrap();
            let expected = collect(&config, &storage, begin, end, 16);
            assert!(expected.is_ok());
            assert_eq!(
                key_changes_proof_check(&config, &roots, proof, begin, &anchor(end), 16, &[42]),
                expected
            );
        }
    }
}

#[test]
fn proofs_are_sorted_nodes_of_the_storage() {
    let (config, storage) = prepare_for_drilldown();
    let proof = key_changes_proof(&config, &storage, 0, &anchor(16), 16, &[42]).unwrap();
    assert!(proof.len() > 4);
    for pair in proof.windows(2) {
        assert!(pair[0] <= pair[1]);
    }
    for node in &proof {
        let hash = <KeccakHasher as hash_db::Hasher>::hash(node);
        assert_eq!(storage.get(&hash), Ok(Some(node.clone())));
    }
}

#[test]
fn a_proof_without_one_of_its_nodes_is_refused() {
    let (config, storage) = prepare_for_drilldown();
    let (_, mut roots) = prepare_for_drilldown();
    roots.clear_storage();
    let proof = key_changes_proof(&config, &storage, 0, &anchor(16), 16, &[42]).unwrap();
    let mut distinct = proof.clone();
    distinct.dedup();
    for left_out in &distinct {
        let fewer: Vec<Vec<u8>> = proof.iter().filter(|node| *node != left_out).cloned().collect();
        let result =
            key_changes_proof_check(&config, &roots, fewer, 0, &anchor(16), 16, &[42]);
        assert!(result.is_err());
    }
}

#[test]
fn nodes_that_do_not_belong_to_a_proof_change_nothing() {
    let (config, storage) = prepare_dense();
    let (_, other_storage) = prepare_for_drilldown();
    let mut proof = key_changes_proof(&config, &storage, 0, &anchor(16), 16, &[42]).unwrap();
    let foreign = key_changes_proof(&config, &other_storage, 0, &anchor(16), 16, &[42]).unwrap();
    // a proof of other tries alone does not pass
    assert!(
        key_changes_proof_check(&config, &storage, foreign.clone(), 0, &anchor(16), 16, &[42])
            .is_err()
    );
    proof.extend(foreign);
    proof.push(vec![]);
    proof.push(vec![0]);
    proof.push(vec![200; 50]);
    // nodes may come more than once
    proof.push(proof[0].clone());
    assert_eq!(
        key_changes_proof_check(&config, &storage, proof, 0, &anchor(16), 16, &[42]),
        collect(&config, &storage, 0, 16, 16)
    );
}

#[test]
fn proofs_do_not_depend_on_the_order_of_their_nodes() {
    let (config, storage) = prepare_dense();
    let mut proof = key_changes_proof(&config, &storage, 3, &anchor(16), 16, &[42]).unwrap();
    proof.reverse();
    assert_eq!(
        key_changes_proof_check(&config, &storage, proof, 3, &anchor(16), 16, &[42]),
        collect(&config, &storage, 3, 16, 16)
    );
}

#[test]
fn a_proof_cannot_be_made_from_an_empty_storage() {
    let (config, mut storage) = prepare_for_drilldown();
    storage.clear_storage();
    assert!(key_changes_proof(&config, &storage, 0, &anchor(16), 16, &[42]).is_err());
}

#[test]
fn the_essence_works_with_either_reader() {
    let (config, storage) = prepare_dense();
    let end = anchor(8);
    let surface = surface_iterator(&config, 8, 5, 8).unwrap();
    let mut essence = DrilldownIteratorEssence::new(&[42], &storage, &storage, 5, &end, surface);
    let mut reader = RecordingReader::new();
    assert_eq!(essence.next(&mut reader), Some(Ok((8, 3))));
    assert_eq!(essence.next(&mut reader), Some(Ok((6, 1))));
    assert_eq!(essence.next(&mut reader), None);
    assert!(!reader.into_nodes().is_empty());

    let surface = surface_iterator(&config, 8, 5, 8).unwrap();
    let mut essence = DrilldownIteratorEssence::new(&[42], &storage, &storage, 5, &end, surface);
    let mut reader = PlainReader;
    assert_eq!(essence.next(&mut reader), Some(Ok((8, 3))));
    assert_eq!(essence.next(&mut reader), Some(Ok((6, 1))));
    assert_eq!(essence.next(&mut reader), None);
}

#[test]
fn an_error_drops_the_block_and_keeps_what_was_read() {
    let config = Configuration { digest_interval: 4, digest_levels: 1 };
    let (root, nodes) = build_trie(&[changed(5, vec![3]), digest(5, vec![])]);
    // the trie of block 6 is not known
    let storage = InMemoryStorage::new(&nodes, &vec![(5, root), (6, [9; 32])]);
    let end = anchor(6);
    let surface = surface_iterator(&config, 6, 5, 6).unwrap();
    let mut essence = DrilldownIteratorEssence::new(&[42], &storage, &storage, 5, &end, surface);
    let mut reader = RecordingReader::new();
    assert!(matches!(essence.next(&mut reader), Some(Err(_))));
    assert_eq!(essence.next(&mut reader), Some(Ok((5, 3))));
    assert_eq!(essence.next(&mut reader), None);
    assert_eq!(essence.next(&mut reader), None);
    let read = reader.into_nodes();
    assert!(!read.is_empty());
    assert!(read.iter().all(|node| nodes.contains(node)));
}

#[test]
fn readers_agree_and_one_of_them_records() {
    let (_, storage) = prepare_for_drilldown();
    let root = storage.root(&anchor(16), 8).unwrap().unwrap();
    let key = ExtrinsicIndex { block: 8, key: vec![42] }.encode();
    let other = ExtrinsicIndex { block: 9, key: vec![42] }.encode();
    let mut plain = PlainReader;
    let mut recording = RecordingReader::new();
    let value = vec![1u32, 2].encode();
    assert_eq!(plain.read(&storage, &root, &key), Ok(Some(value.clone())));
    assert_eq!(recording.read(&storage, &root, &key), Ok(Some(value)));
    assert_eq!(plain.read(&storage, &root, &other), Ok(None));
    assert_eq!(recording.read(&storage, &root, &other), Ok(None));
    let unknown = [7; 32];
    let plain_error = plain.read(&storage, &unknown, &key);
    assert!(plain_error.is_err());
    assert_eq!(recording.read(&storage, &unknown, &key), plain_error);
    let nodes = recording.into_nodes();
    assert!(nodes.len() >= 2);
    assert_eq!(<KeccakHasher as hash_db::Hasher>::hash(&nodes[0]), root);
}

#[test]
fn storage_answers_what_it_was_given() {
    let (root, nodes) = build_trie(&[changed(3, vec![1])]);
    let mut storage = InMemoryStorage::new(&nodes, &vec![(3, [1; 32]), (3, root)]);
    assert_eq!(storage.root(&anchor(9), 3), Ok(Some(root)));
    assert_eq!(storage.root(&anchor(9), 4), Ok(None));
    assert!(storage.get(&root).unwrap().is_some());
    assert_eq!(storage.get(&[1; 32]), Ok(None));
    storage.clear_storage();
    assert_eq!(storage.root(&anchor(9), 3), Ok(Some(root)));
    assert_eq!(storage.get(&root), Ok(None));
    // the node of an empty trie is always known
    let (empty_root, _) = build_trie(&[]);
    assert_eq!(storage.get(&empty_root), Ok(Some(vec![0])));
}
