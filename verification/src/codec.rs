//! The encoding of the entries of a changes trie.

use parity_codec::{Decode, Encode};
use vstd::prelude::*;

verus! {

/// The low `width` bytes of `n`, the least significant first.
pub open spec fn le_bytes(n: nat, width: nat) -> Seq<u8>
    decreases width,
{
    if width == 0 {
        Seq::empty()
    } else {
        seq![(n % 256) as u8] + le_bytes(n / 256, (width - 1) as nat)
    }
}

/// The number whose bytes are `bytes`, the least significant first.
pub open spec fn le_value(bytes: Seq<u8>) -> nat
    decreases bytes.len(),
{
    if bytes.len() == 0 {
        0
    } else {
        bytes[0] as nat + 256 * le_value(bytes.drop_first())
    }
}

/// A length in the compact form: its two lowest bits say how many bytes it takes.
pub open spec fn compact_bytes(n: nat) -> Seq<u8> {
    if n < 0x40 {
        le_bytes(4 * n, 1)
    } else if n < 0x4000 {
        le_bytes(4 * n + 1, 2)
    } else if n < 0x4000_0000 {
        le_bytes(4 * n + 2, 4)
    } else {
        seq![3u8] + le_bytes(n, 4)
    }
}

/// The length in the compact form that `bytes` begin with, and the number of bytes it takes.
pub open spec fn compact_value(bytes: Seq<u8>) -> Option<(nat, nat)> {
    if bytes.len() == 0 {
        None
    } else if bytes[0] % 4 == 0 {
        Some((bytes[0] as nat / 4, 1))
    } else if bytes[0] % 4 == 1 && bytes.len() >= 2 {
        Some((le_value(bytes.take(2)) / 4, 2))
    } else if bytes[0] % 4 == 2 && bytes.len() >= 4 {
        Some((le_value(bytes.take(4)) / 4, 4))
    } else if bytes[0] == 3 && bytes.len() >= 5 {
        Some((le_value(bytes.subrange(1, 5)), 5))
    } else {
        None
    }
}

/// The list of numbers of `width` bytes each that `bytes` begin with: its length in the compact
/// form and then its items. Bytes that follow the list do not matter.
pub open spec fn list_value(bytes: Seq<u8>, width: nat) -> Option<Seq<nat>> {
    match compact_value(bytes) {
        Some((len, used)) => if used + len * width <= bytes.len() {
            Some(
                Seq::new(
                    len,
                    |i: int|
                        le_value(bytes.subrange(used + i * width, used + i * width + width)),
                ),
            )
        } else {
            None
        },
        None => None,
    }
}

/// The extrinsic indices that an entry holds.
pub open spec fn extrinsics_value(bytes: Seq<u8>) -> Option<Seq<u32>> {
    match list_value(bytes, 4) {
        Some(list) => Some(list.map_values(|n: nat| n as u32)),
        None => None,
    }
}

/// The blocks that an entry holds.
pub open spec fn blocks_value(bytes: Seq<u8>) -> Option<Seq<u64>> {
    match list_value(bytes, 8) {
        Some(list) => Some(list.map_values(|n: nat| n as u64)),
        None => None,
    }
}

pub open spec fn u32_list(decoded: Option<Vec<u32>>) -> Option<Seq<u32>> {
    match decoded {
        Some(list) => Some(list@),
        None => None,
    }
}

pub open spec fn u64_list(decoded: Option<Vec<u64>>) -> Option<Seq<u64>> {
    match decoded {
        Some(list) => Some(list@),
        None => None,
    }
}

/// Calls `parity_codec::Encode::encode` of a `u64`, which writes its eight bytes, the least
/// significant first.
#[verifier::external_body]
fn encode_number(n: u64) -> (bytes: Vec<u8>)
    ensures
        bytes@ == le_bytes(n as nat, 8),
{
    n.encode()
}

/// Calls `parity_codec::Encode::encode` of a byte slice, which writes the length in the compact
/// form and then the bytes. It panics on a slice of more than `u32::MAX` bytes.
#[verifier::external_body]
fn encode_bytes(slice: &[u8]) -> (bytes: Vec<u8>)
    requires
        slice@.len() <= u32::MAX,
    ensures
        bytes@ == compact_bytes(slice@.len()) + slice@,
{
    slice.encode()
}

/// Calls `parity_codec::Decode::decode` of a `Vec<u32>`, which reads the length in the compact
/// form and then that many numbers of four bytes, and gives `None` if the bytes run out or do not
/// begin with a length.
#[verifier::external_body]
pub(crate) fn decode_extrinsics(bytes: &Vec<u8>) -> (list: Option<Vec<u32>>)
    ensures
        u32_list(list) == extrinsics_value(bytes@),
{
    Decode::decode(&mut &bytes[..])
}

/// Calls `parity_codec::Decode::decode` of a `Vec<u64>`, which reads the length in the compact
/// form and then that many numbers of eight bytes, and gives `None` if the bytes run out or do
/// not begin with a length.
#[verifier::external_body]
pub(crate) fn decode_blocks(bytes: &Vec<u8>) -> (list: Option<Vec<u64>>)
    ensures
        u64_list(list) == blocks_value(bytes@),
{
    Decode::decode(&mut &bytes[..])
}

/// The trie key of an entry: its kind, the block whose trie it stands in, and the storage key.
pub open spec fn entry_key(kind: u8, block: u64, key: Seq<u8>) -> Seq<u8> {
    seq![kind] + le_bytes(block as nat, 8) + compact_bytes(key.len()) + key
}

/// The trie key under which a block holds the extrinsics that changed `key`.
pub open spec fn extrinsic_key(block: u64, key: Seq<u8>) -> Seq<u8> {
    entry_key(1, block, key)
}

/// The trie key under which a digest block holds the blocks that changed `key`.
pub open spec fn digest_key(block: u64, key: Seq<u8>) -> Seq<u8> {
    entry_key(2, block, key)
}

fn encode_entry(kind: u8, block: u64, key: &[u8]) -> (bytes: Vec<u8>)
    requires
        key@.len() <= u32::MAX,
    ensures
        bytes@ == entry_key(kind, block, key@),
        is_trie_key(bytes@, kind, block, key@),
{
    proof {
        lemma_entry_key(kind, block, key@);
    }
    let mut bytes: Vec<u8> = Vec::new();
    bytes.push(kind);
    let mut number = encode_number(block);
    bytes.append(&mut number);
    let mut rest = encode_bytes(key);
    bytes.append(&mut rest);
    assert(bytes@ =~= entry_key(kind, block, key@));
    bytes
}

/// Key of { changed key => set of extrinsic indices } mapping.
#[derive(Debug)]
pub struct ExtrinsicIndex {
    /// Block at which this key has been inserted in the trie.
    pub block: u64,
    /// Storage key this node is responsible for.
    pub key: Vec<u8>,
}

/// Key of { changed key => block numbers } mapping.
#[derive(Debug)]
pub struct DigestIndex {
    /// Block at which this key has been inserted in the trie.
    pub block: u64,
    /// Storage key this node is responsible for.
    pub key: Vec<u8>,
}

impl ExtrinsicIndex {
    /// The key under which the entry stands in the trie.
    pub fn encode(&self) -> (bytes: Vec<u8>)
        requires
            self.key@.len() <= u32::MAX,
        ensures
            bytes@ == extrinsic_key(self.block, self.key@),
            is_trie_key(bytes@, 1, self.block, self.key@),
    {
        encode_entry(1, self.block, self.key.as_slice())
    }
}

impl DigestIndex {
    /// The key under which the entry stands in the trie.
    pub fn encode(&self) -> (bytes: Vec<u8>)
        requires
            self.key@.len() <= u32::MAX,
        ensures
            bytes@ == digest_key(self.block, self.key@),
            is_trie_key(bytes@, 2, self.block, self.key@),
    {
        encode_entry(2, self.block, self.key.as_slice())
    }
}

/// The four bytes of `bytes` from `at` on are those of `n`, the least significant first.
pub open spec fn four_bytes_at(bytes: Seq<u8>, at: int, n: int) -> bool {
    n == bytes[at] + 0x100 * bytes[at + 1] + 0x1_0000 * bytes[at + 2] + 0x100_0000 * bytes[at + 3]
}

/// The eight bytes of `bytes` from `at` on are those of `n`, the least significant first.
pub open spec fn eight_bytes_at(bytes: Seq<u8>, at: int, n: int) -> bool {
    n == bytes[at] + 0x100 * bytes[at + 1] + 0x1_0000 * bytes[at + 2] + 0x100_0000 * bytes[at + 3]
        + 0x1_0000_0000 * bytes[at + 4] + 0x100_0000_0000 * bytes[at + 5] + 0x1_0000_0000_0000
        * bytes[at + 6] + 0x100_0000_0000_0000 * bytes[at + 7]
}

/// `bytes` hold, from `at` on, the number `n` in the `used` bytes of its compact form: up to 63 in
/// one byte, up to 2^14 - 1 in two and up to 2^30 - 1 in four, whose two lowest bits are 0, 1 and
/// 2, and above that in four bytes behind a 3.
pub open spec fn compact_at(bytes: Seq<u8>, at: int, n: int, used: int) -> bool {
    ||| used == 1 && bytes[at] == 4 * n
    ||| used == 2 && bytes[at] + 0x100 * bytes[at + 1] == 4 * n + 1
    ||| used == 4 && four_bytes_at(bytes, at, 4 * n + 2)
    ||| used == 5 && bytes[at] == 3 && four_bytes_at(bytes, at + 1, n)
}

/// The number of bytes that the compact form of `n` takes.
pub open spec fn compact_width(n: int) -> int {
    if n < 64 {
        1
    } else if n < 16384 {
        2
    } else if n < 1073741824 {
        4
    } else {
        5
    }
}

/// `bytes` are the trie key of an entry: one byte for the kind, eight for the block, the length of
/// the storage key in its compact form, and at the end the storage key itself.
pub open spec fn is_trie_key(bytes: Seq<u8>, kind: u8, block: u64, key: Seq<u8>) -> bool {
    let head = 9 + compact_width(key.len() as int);
    &&& bytes.len() == head + key.len()
    &&& bytes[0] == kind
    &&& eight_bytes_at(bytes, 1, block as int)
    &&& compact_at(bytes, 9, key.len() as int, compact_width(key.len() as int))
    &&& forall|i: int| 0 <= i < key.len() ==> bytes[head + i] == #[trigger] key[i]
}

proof fn lemma_le_bytes_len(n: nat, width: nat)
    ensures
        le_bytes(n, width).len() == width,
    decreases width,
{
    if width > 0 {
        lemma_le_bytes_len(n / 256, (width - 1) as nat);
    }
}

proof fn lemma_le_bytes_at(n: nat, width: nat, i: int)
    requires
        0 <= i < width,
    ensures
        le_bytes(n, width).len() == width,
        i == 0 ==> le_bytes(n, width)[i] == n % 256,
        i > 0 ==> le_bytes(n, width)[i] == le_bytes(n / 256, (width - 1) as nat)[i - 1],
{
    lemma_le_bytes_len(n, width);
    lemma_le_bytes_len(n / 256, (width - 1) as nat);
}

proof fn lemma_four_bytes(n: nat)
    requires
        n < 0x1_0000_0000,
    ensures
        le_bytes(n, 4).len() == 4,
        four_bytes_at(le_bytes(n, 4), 0, n as int),
{
    let a = n / 256;
    let b = a / 256;
    let c = b / 256;
    lemma_le_bytes_at(n, 4, 0);
    lemma_le_bytes_at(n, 4, 1);
    lemma_le_bytes_at(n, 4, 2);
    lemma_le_bytes_at(n, 4, 3);
    lemma_le_bytes_at(a, 3, 0);
    lemma_le_bytes_at(a, 3, 1);
    lemma_le_bytes_at(a, 3, 2);
    lemma_le_bytes_at(b, 2, 0);
    lemma_le_bytes_at(b, 2, 1);
    lemma_le_bytes_at(c, 1, 0);
}

proof fn lemma_eight_bytes(n: nat)
    requires
        n <= u64::MAX,
    ensures
        le_bytes(n, 8).len() == 8,
        eight_bytes_at(le_bytes(n, 8), 0, n as int),
{
    let a = n / 256;
    let b = a / 256;
    let c = b / 256;
    let d = c / 256;
    lemma_le_bytes_at(n, 8, 0);
    lemma_le_bytes_at(n, 8, 1);
    lemma_le_bytes_at(n, 8, 2);
    lemma_le_bytes_at(n, 8, 3);
    lemma_le_bytes_at(a, 7, 0);
    lemma_le_bytes_at(a, 7, 1);
    lemma_le_bytes_at(a, 7, 2);
    lemma_le_bytes_at(b, 6, 0);
    lemma_le_bytes_at(b, 6, 1);
    lemma_le_bytes_at(c, 5, 0);
    lemma_four_bytes(d);
    let rest = le_bytes(d, 4);
    assert forall|i: int| 0 <= i < 4 implies #[trigger] rest[i] == le_bytes(n, 8)[i + 4] by {
        lemma_le_bytes_at(n, 8, i + 4);
        lemma_le_bytes_at(a, 7, i + 3);
        lemma_le_bytes_at(b, 6, i + 2);
        lemma_le_bytes_at(c, 5, i + 1);
    }
    assert(rest[0] == le_bytes(n, 8)[4]);
    assert(rest[1] == le_bytes(n, 8)[5]);
    assert(rest[2] == le_bytes(n, 8)[6]);
    assert(rest[3] == le_bytes(n, 8)[7]);
}

proof fn lemma_compact_bytes(n: nat)
    requires
        n <= u32::MAX,
    ensures
        compact_bytes(n).len() == compact_width(n as int),
        compact_at(compact_bytes(n), 0, n as int, compact_width(n as int)),
{
    if n < 0x40 {
        lemma_le_bytes_at(4 * n, 1, 0);
    } else if n < 0x4000 {
        lemma_le_bytes_at(4 * n + 1, 2, 0);
        lemma_le_bytes_at(4 * n + 1, 2, 1);
        lemma_le_bytes_at((4 * n + 1) / 256, 1, 0);
    } else if n < 0x4000_0000 {
        lemma_four_bytes(4 * n + 2);
    } else {
        lemma_four_bytes(n);
        let bytes = compact_bytes(n);
        assert(forall|i: int| 0 <= i < 4 ==> bytes[1 + i] == #[trigger] le_bytes(n, 4)[i]);
        assert(le_bytes(n, 4)[0] == bytes[1]);
        assert(le_bytes(n, 4)[1] == bytes[2]);
        assert(le_bytes(n, 4)[2] == bytes[3]);
        assert(le_bytes(n, 4)[3] == bytes[4]);
    }
}

/// The trie key of an entry is the kind, the block and the length of the storage key, each in
/// bytes of its own, and then the storage key, byte by byte.
pub proof fn law_trie_key_spells_out_the_entry(block: u64, key: Seq<u8>)
    requires
        key.len() <= u32::MAX,
    ensures
        is_trie_key(extrinsic_key(block, key), 1, block, key),
        is_trie_key(digest_key(block, key), 2, block, key),
        extrinsic_key(block, key).skip(extrinsic_key(block, key).len() - key.len()) == key,
        digest_key(block, key).skip(digest_key(block, key).len() - key.len()) == key,
{
    lemma_entry_key(1, block, key);
    lemma_entry_key(2, block, key);
    assert(extrinsic_key(block, key).skip(extrinsic_key(block, key).len() - key.len()) =~= key);
    assert(digest_key(block, key).skip(digest_key(block, key).len() - key.len()) =~= key);
}

proof fn lemma_entry_key(kind: u8, block: u64, key: Seq<u8>)
    requires
        key.len() <= u32::MAX,
    ensures
        is_trie_key(entry_key(kind, block, key), kind, block, key),
{
    let bytes = entry_key(kind, block, key);
    let number = le_bytes(block as nat, 8);
    let length = compact_bytes(key.len());
    lemma_eight_bytes(block as nat);
    lemma_compact_bytes(key.len());
    assert(bytes[0] == kind);
    assert(forall|i: int| 0 <= i < 8 ==> bytes[1 + i] == #[trigger] number[i]);
    assert(number[0] == bytes[1]);
    assert(number[1] == bytes[2]);
    assert(number[2] == bytes[3]);
    assert(number[3] == bytes[4]);
    assert(number[4] == bytes[5]);
    assert(number[5] == bytes[6]);
    assert(number[6] == bytes[7]);
    assert(number[7] == bytes[8]);
    assert(forall|i: int| 0 <= i < length.len() ==> bytes[9 + i] == #[trigger] length[i]);
    assert(length[0] == bytes[9]);
    if length.len() >= 2 {
        assert(length[1] == bytes[10]);
    }
    if length.len() >= 4 {
        assert(length[2] == bytes[11]);
        assert(length[3] == bytes[12]);
    }
    if length.len() >= 5 {
        assert(length[4] == bytes[13]);
    }
}

/// The lowest byte of a number and the rest of it are determined by the number.
proof fn lemma_lowest_byte(x: u8, rest: int, y: u8, other: int)
    requires
        x + 0x100 * rest == y + 0x100 * other,
    ensures
        x == y,
        rest == other,
{
}

/// Bytes that spell out a number are determined by it.
proof fn lemma_four_bytes_unique(a: Seq<u8>, b: Seq<u8>, at: int, n: int)
    requires
        four_bytes_at(a, at, n),
        four_bytes_at(b, at, n),
    ensures
        a[at] == b[at],
        a[at + 1] == b[at + 1],
        a[at + 2] == b[at + 2],
        a[at + 3] == b[at + 3],
{
    let a2 = a[at + 2] + 0x100 * a[at + 3];
    let a1 = a[at + 1] + 0x100 * a2;
    let b2 = b[at + 2] + 0x100 * b[at + 3];
    let b1 = b[at + 1] + 0x100 * b2;
    lemma_lowest_byte(a[at], a1, b[at], b1);
    lemma_lowest_byte(a[at + 1], a2, b[at + 1], b2);
    lemma_lowest_byte(a[at + 2], a[at + 3] as int, b[at + 2], b[at + 3] as int);
}

proof fn lemma_eight_bytes_unique(a: Seq<u8>, b: Seq<u8>, at: int, n: int)
    requires
        eight_bytes_at(a, at, n),
        eight_bytes_at(b, at, n),
    ensures
        forall|i: int| at <= i < at + 8 ==> a[i] == b[i],
{
    let a4 = a[at + 4] + 0x100 * a[at + 5] + 0x1_0000 * a[at + 6] + 0x100_0000 * a[at + 7];
    let a3 = a[at + 3] + 0x100 * a4;
    let a2 = a[at + 2] + 0x100 * a3;
    let a1 = a[at + 1] + 0x100 * a2;
    let b4 = b[at + 4] + 0x100 * b[at + 5] + 0x1_0000 * b[at + 6] + 0x100_0000 * b[at + 7];
    let b3 = b[at + 3] + 0x100 * b4;
    let b2 = b[at + 2] + 0x100 * b3;
    let b1 = b[at + 1] + 0x100 * b2;
    lemma_lowest_byte(a[at], a1, b[at], b1);
    lemma_lowest_byte(a[at + 1], a2, b[at + 1], b2);
    lemma_lowest_byte(a[at + 2], a3, b[at + 2], b3);
    lemma_lowest_byte(a[at + 3], a4, b[at + 3], b4);
    lemma_four_bytes_unique(a, b, at + 4, a4);
}

/// There is one trie key for an entry.
pub proof fn lemma_trie_key_unique(bytes: Seq<u8>, kind: u8, block: u64, key: Seq<u8>)
    requires
        key.len() <= u32::MAX,
        is_trie_key(bytes, kind, block, key),
    ensures
        bytes == entry_key(kind, block, key),
{
    let other = entry_key(kind, block, key);
    let width = compact_width(key.len() as int);
    lemma_entry_key(kind, block, key);
    lemma_eight_bytes_unique(bytes, other, 1, block as int);
    if width == 4 {
        lemma_four_bytes_unique(bytes, other, 9, (4 * key.len() + 2) as int);
    } else if width == 5 {
        lemma_four_bytes_unique(bytes, other, 10, key.len() as int);
    }
    assert forall|i: int| 0 <= i < bytes.len() implies bytes[i] == other[i] by {
        if i >= 9 + width {
            assert(bytes[i] == key[i - 9 - width]);
            assert(other[i] == key[i - 9 - width]);
        }
    }
    assert(bytes =~= other);
}

/// Entries of different kinds, blocks or storage keys have different trie keys: the bytes of a
/// trie key tell which entry it is of.
pub proof fn law_trie_keys_differ(
    bytes: Seq<u8>,
    kind: u8,
    block: u64,
    key: Seq<u8>,
    other_kind: u8,
    other_block: u64,
    other_key: Seq<u8>,
)
    requires
        key.len() <= u32::MAX,
        other_key.len() <= u32::MAX,
        is_trie_key(bytes, kind, block, key),
        is_trie_key(bytes, other_kind, other_block, other_key),
    ensures
        kind == other_kind,
        block == other_block,
        key == other_key,
{
    let n = key.len() as int;
    let m = other_key.len() as int;
    assert(n == m) by {
        let first = bytes[9];
        if compact_width(n) == 1 {
            assert(first % 4 == 0);
        }
    }
    assert forall|i: int| 0 <= i < n implies key[i] == other_key[i] by {
        assert(bytes[9 + compact_width(n) + i] == key[i]);
        assert(bytes[9 + compact_width(m) + i] == other_key[i]);
    }
    assert(key =~= other_key);
}

/// Two entries of one block have the same trie key only if they are of the same kind and storage
/// key, and entries of different blocks never do.
pub proof fn law_entries_do_not_share_a_trie_key(
    block: u64,
    key: Seq<u8>,
    other_block: u64,
    other_key: Seq<u8>,
)
    requires
        key.len() <= u32::MAX,
        other_key.len() <= u32::MAX,
    ensures
        extrinsic_key(block, key) == extrinsic_key(other_block, other_key) ==> block == other_block
            && key == other_key,
        digest_key(block, key) == digest_key(other_block, other_key) ==> block == other_block && key
            == other_key,
        extrinsic_key(block, key) != digest_key(other_block, other_key),
{
    law_trie_key_spells_out_the_entry(block, key);
    law_trie_key_spells_out_the_entry(other_block, other_key);
    if extrinsic_key(block, key) == extrinsic_key(other_block, other_key) {
        law_trie_keys_differ(
            extrinsic_key(block, key),
            1,
            block,
            key,
            1,
            other_block,
            other_key,
        );
    }
    if digest_key(block, key) == digest_key(other_block, other_key) {
        law_trie_keys_differ(digest_key(block, key), 2, block, key, 2, other_block, other_key);
    }
    assert(extrinsic_key(block, key)[0] == 1);
    assert(digest_key(other_block, other_key)[0] == 2);
}

proof fn lemma_le_value_four(bytes: Seq<u8>)
    requires
        bytes.len() == 4,
    ensures
        four_bytes_at(bytes, 0, le_value(bytes) as int),
{
    let a = bytes.drop_first();
    let b = a.drop_first();
    let c = b.drop_first();
    assert(c.drop_first() =~= Seq::empty());
    assert(le_value(c.drop_first()) == 0);
    assert(le_value(c) == bytes[3]);
    assert(le_value(b) == bytes[2] + 256 * le_value(c));
    assert(le_value(a) == bytes[1] + 256 * le_value(b));
}

proof fn lemma_le_value_eight(bytes: Seq<u8>)
    requires
        bytes.len() == 8,
    ensures
        eight_bytes_at(bytes, 0, le_value(bytes) as int),
{
    let a = bytes.drop_first();
    let b = a.drop_first();
    let c = b.drop_first();
    let d = c.drop_first();
    lemma_le_value_four(d);
    assert(le_value(c) == bytes[3] + 256 * le_value(d));
    assert(le_value(b) == bytes[2] + 256 * le_value(c));
    assert(le_value(a) == bytes[1] + 256 * le_value(b));
}

proof fn lemma_compact_value(bytes: Seq<u8>, len: nat, used: nat)
    requires
        used <= bytes.len(),
        compact_at(bytes, 0, len as int, used as int),
    ensures
        compact_value(bytes) == Some((len, used)),
{
    if used == 2 {
        let two = bytes.take(2);
        assert(two.drop_first().drop_first() =~= Seq::empty());
        assert(le_value(two.drop_first().drop_first()) == 0);
        assert(le_value(two.drop_first()) == bytes[1]);
        assert(le_value(two) == bytes[0] + 256 * bytes[1]);
    } else if used == 4 {
        lemma_le_value_four(bytes.take(4));
    } else if used == 5 {
        lemma_le_value_four(bytes.subrange(1, 5));
    }
}

/// An entry that begins with the number of its extrinsics in the compact form, and goes on with
/// each of them in four bytes, is read as just these extrinsics, however many they are and
/// whatever follows. If it is too short for them, it cannot be read.
pub proof fn law_extrinsics_are_read(bytes: Seq<u8>, used: nat, len: nat, extrinsics: Seq<u32>)
    requires
        used <= bytes.len(),
        compact_at(bytes, 0, len as int, used as int),
        extrinsics.len() == len,
        used + 4 * len <= bytes.len() ==> forall|i: int|
            0 <= i < len ==> four_bytes_at(bytes, used + 4 * i, #[trigger] extrinsics[i] as int),
    ensures
        used + 4 * len <= bytes.len() ==> extrinsics_value(bytes) == Some(extrinsics),
        used + 4 * len > bytes.len() ==> extrinsics_value(bytes) is None,
{
    lemma_compact_value(bytes, len, used);
    assert(len * 4 == 4 * len);
    if used + 4 * len <= bytes.len() {
        let read = extrinsics_value(bytes)->0;
        assert forall|i: int| 0 <= i < len implies read[i] == extrinsics[i] by {
            assert(i * 4 == 4 * i);
            let part = bytes.subrange(used + i * 4, used + i * 4 + 4);
            lemma_le_value_four(part);
            assert(four_bytes_at(bytes, used + 4 * i, extrinsics[i] as int));
            assert(le_value(part) == extrinsics[i]);
        }
        assert(read =~= extrinsics);
    }
}

/// The same of an entry that lists blocks, each of them in eight bytes.
pub proof fn law_blocks_are_read(bytes: Seq<u8>, used: nat, len: nat, blocks: Seq<u64>)
    requires
        used <= bytes.len(),
        compact_at(bytes, 0, len as int, used as int),
        blocks.len() == len,
        used + 8 * len <= bytes.len() ==> forall|i: int|
            0 <= i < len ==> eight_bytes_at(bytes, used + 8 * i, #[trigger] blocks[i] as int),
    ensures
        used + 8 * len <= bytes.len() ==> blocks_value(bytes) == Some(blocks),
        used + 8 * len > bytes.len() ==> blocks_value(bytes) is None,
{
    lemma_compact_value(bytes, len, used);
    assert(len * 8 == 8 * len);
    if used + 8 * len <= bytes.len() {
        let read = blocks_value(bytes)->0;
        assert forall|i: int| 0 <= i < len implies read[i] == blocks[i] by {
            assert(i * 8 == 8 * i);
            let part = bytes.subrange(used + i * 8, used + i * 8 + 8);
            lemma_le_value_eight(part);
            assert(eight_bytes_at(bytes, used + 8 * i, blocks[i] as int));
            assert(le_value(part) == blocks[i]);
        }
        assert(read =~= blocks);
    }
}

/// An entry that does not begin with a number in the compact form cannot be read.
pub proof fn law_unreadable_lists(bytes: Seq<u8>)
    requires
        forall|len: nat, used: nat|
            used <= bytes.len() ==> !#[trigger] compact_at(bytes, 0, len as int, used as int),
    ensures
        extrinsics_value(bytes) is None,
        blocks_value(bytes) is None,
{
    if let Some((len, used)) = compact_value(bytes) {
        if used == 1 {
        } else if used == 2 {
            let two = bytes.take(2);
            assert(two.drop_first().drop_first() =~= Seq::empty());
            assert(le_value(two.drop_first().drop_first()) == 0);
            assert(le_value(two.drop_first()) == bytes[1]);
            assert(le_value(two) == bytes[0] + 256 * bytes[1]);
        } else if used == 4 {
            lemma_le_value_four(bytes.take(4));
        } else {
            lemma_le_value_four(bytes.subrange(1, 5));
        }
        assert(compact_at(bytes, 0, len as int, used as int));
    }
}

} // verus!
