# changes_trie

Answers queries for the changes of a storage key in a range of blocks, from the changes tries of
these blocks, and makes and checks proofs of the answers. Every function of the library states what
it does in a contract that Verus proves.

A configuration says that every `digest_interval`-th block is a digest of level one, and every
`digest_interval`-th digest of a level one of the next level, up to `digest_levels`. The trie of a
digest lists the blocks of the level below in whose span a key has been changed. A query walks over
the digests that span its range, the surface, and from each of them down to single blocks, always
taking the last block first. So changes come in descending order, whatever the tries hold, and no
block is looked at twice. Where the tries are truthful, every change comes, and once.

| module      | what it holds                                                                |
|-------------|------------------------------------------------------------------------------|
| `changes`   | `key_changes`, `key_changes_proof`, `key_changes_proof_check`                |
| `surface`   | the digests that span a range                                                |
| `drilldown` | the way from a digest to the extrinsics                                      |
| `queue`     | the blocks that are to be looked at, the last one first                      |
| `storage`   | where roots and nodes come from                                              |
| `nodes`     | trie nodes by their hash, in a `memory_db::MemoryDB`                         |
| `trie`      | lookups in a `trie_db::TrieDB`, with and without recording                   |
| `codec`     | keys and values of trie entries, encoded by `parity_codec`                   |
| `order`     | sorting of byte strings                                                      |
| `model`     | what a query yields and reads, as a function of what the storage holds       |
| `digests`   | which digest lists which block                                               |
| `faithful`  | storages whose tries are truthful                                            |
| `descent`   | from which blocks changes come, and in which order                           |
| `laws`      | what holds of queries as a whole                                             |
| `arith`     | multiples and rounding                                                       |

Trie nodes are addressed by Keccak-256 hashes and have the format of `reference_trie`. The
functions that call into these crates carry contracts that are not proved; a comment above each one
names the outside function and what is taken for granted of it.
