//! Content hashes: a file's identity by length and two digests.
use vstd::prelude::*;
use crate::order::{bytes_lt, compare_bytes, lemma_bytes_order, Key, Rank};

verus! {

/// The identity of a file's content: its length in bytes and two digests of it.
#[derive(Debug, Clone, Copy, PartialEq, Eq, PartialOrd, Ord, Hash)]
pub struct FileHash {
    pub file_len: u64,
    pub digest_256: [u8; 32],
    pub digest_512: [u8; 64],
}

impl View for FileHash {
    type V = FileHash;

    open spec fn view(&self) -> FileHash {
        *self
    }
}

/// Content hashes in order: by length, then by the shorter digest, then by the
/// longer one.
pub open spec fn hash_lt(a: FileHash, b: FileHash) -> bool {
    ||| a.file_len < b.file_len
    ||| a.file_len == b.file_len && bytes_lt(a.digest_256@, b.digest_256@)
    ||| a.file_len == b.file_len && a.digest_256@ == b.digest_256@ && bytes_lt(
        a.digest_512@,
        b.digest_512@,
    )
}

/// Two content hashes are equal exactly when they agree on the length and on
/// every byte of both digests.
pub proof fn lemma_hash_equality(a: FileHash, b: FileHash)
    ensures
        a == b <==> a.file_len == b.file_len && a.digest_256@ == b.digest_256@ && a.digest_512@
            == b.digest_512@,
{
    if a.digest_256@ == b.digest_256@ && a.digest_512@ == b.digest_512@ {
        assert(a.digest_256 =~= b.digest_256);
        assert(a.digest_512 =~= b.digest_512);
    }
}

/// The order of content hashes is a strict total order: no hash comes before
/// itself, the order is transitive, and of two different hashes one comes first.
pub proof fn lemma_hash_order(a: FileHash, b: FileHash, c: FileHash)
    ensures
        !hash_lt(a, a),
        hash_lt(a, b) && hash_lt(b, c) ==> hash_lt(a, c),
        hash_lt(a, b) || a == b || hash_lt(b, a),
{
    lemma_bytes_order(a.digest_256@, b.digest_256@, c.digest_256@);
    lemma_bytes_order(a.digest_512@, b.digest_512@, c.digest_512@);
    lemma_bytes_order(b.digest_256@, c.digest_256@, c.digest_256@);
    lemma_bytes_order(b.digest_512@, c.digest_512@, c.digest_512@);
    lemma_hash_equality(a, b);
}

impl Key for FileHash {
    open spec fn key_lt(a: FileHash, b: FileHash) -> bool {
        hash_lt(a, b)
    }

    proof fn lemma_key_order(a: FileHash, b: FileHash, c: FileHash) {
        lemma_hash_order(a, b, c);
    }

    fn compare(&self, other: &FileHash) -> (rank: Rank) {
        if self.file_len < other.file_len {
            return Rank::Before;
        }
        if other.file_len < self.file_len {
            return Rank::After;
        }
        match compare_bytes(self.digest_256.as_slice(), other.digest_256.as_slice()) {
            Rank::Before => Rank::Before,
            Rank::After => Rank::After,
            Rank::Same => {
                let rank = compare_bytes(self.digest_512.as_slice(), other.digest_512.as_slice());
                proof {
                    lemma_hash_equality(*self, *other);
                }
                rank
            },
        }
    }

    fn duplicate(&self) -> (copy: FileHash) {
        *self
    }
}

} // verus!
