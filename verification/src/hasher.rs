//! The content hasher: a file's bytes, chunk by chunk, through two digests.
use vstd::prelude::*;
use sha2::{Digest, Sha256, Sha512};
use crate::hash::{lemma_hash_equality, FileHash};

verus! {

/// A SHA-256 computation in progress.
#[verifier::external_body]
pub struct Sha256Stream {
    inner: Sha256,
}

/// A SHA-512 computation in progress.
#[verifier::external_body]
pub struct Sha512Stream {
    inner: Sha512,
}

/// The bytes that a SHA-256 computation has taken in so far.
pub uninterp spec fn sha256_absorbed(stream: Sha256Stream) -> Seq<u8>;

/// The bytes that a SHA-512 computation has taken in so far.
pub uninterp spec fn sha512_absorbed(stream: Sha512Stream) -> Seq<u8>;

/// The SHA-256 digest of a message.
pub uninterp spec fn sha256_digest(message: Seq<u8>) -> Seq<u8>;

/// The SHA-512 digest of a message.
pub uninterp spec fn sha512_digest(message: Seq<u8>) -> Seq<u8>;

/// The longest content that is hashed: SHA-256 counts the bits of its message
/// in 64 bits.
pub const MAX_CONTENT_LEN: u64 = 0x1FFF_FFFF_FFFF_FFFF;

/// `sha2::Sha256::new` (`digest::Digest::new`): a computation that has taken
/// in nothing yet.
#[verifier::external_body]
fn sha256_new() -> (stream: Sha256Stream)
    ensures
        sha256_absorbed(stream) == Seq::<u8>::empty(),
{
    Sha256Stream { inner: Sha256::new() }
}

/// `digest::Digest::update` on `sha2::Sha256`: the computation takes in
/// `data` after what it had.
#[verifier::external_body]
fn sha256_update(stream: &mut Sha256Stream, data: &[u8])
    ensures
        sha256_absorbed(*final(stream)) == sha256_absorbed(*old(stream)) + data@,
{
    stream.inner.update(data)
}

/// `digest::Digest::finalize` on `sha2::Sha256`: the digest of all that the
/// computation took in. The length in bits must fit in 64 bits.
#[verifier::external_body]
fn sha256_finalize(stream: Sha256Stream) -> (digest: [u8; 32])
    requires
        sha256_absorbed(stream).len() <= MAX_CONTENT_LEN,
    ensures
        digest@ == sha256_digest(sha256_absorbed(stream)),
{
    stream.inner.finalize().into()
}

/// `sha2::Sha512::new` (`digest::Digest::new`): a computation that has taken
/// in nothing yet.
#[verifier::external_body]
fn sha512_new() -> (stream: Sha512Stream)
    ensures
        sha512_absorbed(stream) == Seq::<u8>::empty(),
{
    Sha512Stream { inner: Sha512::new() }
}

/// `digest::Digest::update` on `sha2::Sha512`: the computation takes in
/// `data` after what it had.
#[verifier::external_body]
fn sha512_update(stream: &mut Sha512Stream, data: &[u8])
    ensures
        sha512_absorbed(*final(stream)) == sha512_absorbed(*old(stream)) + data@,
{
    stream.inner.update(data)
}

/// `digest::Digest::finalize` on `sha2::Sha512`: the digest of all that the
/// computation took in.
#[verifier::external_body]
fn sha512_finalize(stream: Sha512Stream) -> (digest: [u8; 64])
    ensures
        digest@ == sha512_digest(sha512_absorbed(stream)),
{
    stream.inner.finalize().into()
}

/// `hash` is the content hash of `content`: its length and its two digests.
pub open spec fn hash_of(hash: FileHash, content: Seq<u8>) -> bool {
    &&& hash.file_len == content.len()
    &&& hash.digest_256@ == sha256_digest(content)
    &&& hash.digest_512@ == sha512_digest(content)
}

/// The same bytes have the same content hash, wherever they were read.
pub proof fn lemma_same_content_same_hash(a: FileHash, b: FileHash, content: Seq<u8>)
    requires
        hash_of(a, content),
        hash_of(b, content),
    ensures
        a == b,
{
    lemma_hash_equality(a, b);
}

/// Why a content could not be hashed.
#[derive(Debug, Clone, Copy, PartialEq, Eq, Structural)]
pub enum HashError {
    /// A read of the file failed.
    ReadFailed,
    /// The content is longer than `MAX_CONTENT_LEN`.
    TooLong,
    /// The reads ended before the end of the file.
    Incomplete,
}

/// What one read of a file gave.
#[derive(Debug, Clone, Copy)]
pub enum ReadEvent<'a> {
    /// The bytes read; none at the end of the file.
    Data(&'a [u8]),
    /// The read was interrupted before it gave anything.
    Interrupted,
    /// The read failed.
    Failed,
}

/// What the hasher does after a read.
pub enum HashStep {
    /// Read on, with the hasher as it now is.
    ReadOn(ContentHasher),
    /// The file has ended; this is its hash.
    Done(FileHash),
    /// Give up.
    Aborted(HashError),
}

/// The hasher of one content: both digests in progress, and the bytes counted.
pub struct ContentHasher {
    sha256: Sha256Stream,
    sha512: Sha512Stream,
    total: u64,
}

impl ContentHasher {
    /// Both digests have taken in the same bytes, and `total` counts them.
    #[verifier::type_invariant]
    spec fn in_step(self) -> bool {
        &&& sha512_absorbed(self.sha512) == sha256_absorbed(self.sha256)
        &&& self.total == sha256_absorbed(self.sha256).len()
        &&& self.total <= MAX_CONTENT_LEN
    }

    /// The bytes taken in so far.
    pub closed spec fn absorbed(&self) -> Seq<u8> {
        sha256_absorbed(self.sha256)
    }

    /// A hasher that has taken in nothing.
    pub fn new() -> (hasher: ContentHasher)
        ensures
            hasher.absorbed() == Seq::<u8>::empty(),
    {
        ContentHasher { sha256: sha256_new(), sha512: sha512_new(), total: 0 }
    }

    /// The number of bytes taken in so far.
    pub fn total(&self) -> (n: u64)
        ensures
            n == self.absorbed().len(),
            n <= MAX_CONTENT_LEN,
    {
        proof {
            use_type_invariant(self);
        }
        self.total
    }

    /// Takes in `chunk`, unless the content would become too long.
    pub fn absorb(self, chunk: &[u8]) -> (next: Result<ContentHasher, HashError>)
        ensures
            match next {
                Ok(hasher) => {
                    &&& self.absorbed().len() + chunk@.len() <= MAX_CONTENT_LEN
                    &&& hasher.absorbed() == self.absorbed() + chunk@
                },
                Err(error) => {
                    &&& self.absorbed().len() + chunk@.len() > MAX_CONTENT_LEN
                    &&& error == HashError::TooLong
                },
            },
    {
        proof {
            use_type_invariant(&self);
        }
        let ContentHasher { sha256, sha512, total } = self;
        let mut sha256 = sha256;
        let mut sha512 = sha512;
        if chunk.len() as u64 > MAX_CONTENT_LEN - total {
            return Err(HashError::TooLong);
        }
        sha256_update(&mut sha256, chunk);
        sha512_update(&mut sha512, chunk);
        Ok(ContentHasher { sha256, sha512, total: total + chunk.len() as u64 })
    }

    /// The content hash of what was taken in.
    pub fn finish(self) -> (hash: FileHash)
        ensures
            hash_of(hash, self.absorbed()),
    {
        proof {
            use_type_invariant(&self);
        }
        let ContentHasher { sha256, sha512, total } = self;
        FileHash {
            file_len: total,
            digest_256: sha256_finalize(sha256),
            digest_512: sha512_finalize(sha512),
        }
    }

    /// What follows a read: more bytes are taken in, the end of the file gives
    /// the hash, an interrupted read is tried again, and a failed one gives up.
    pub fn on_read(self, event: ReadEvent) -> (step: HashStep)
        ensures
            step_follows(self.absorbed(), event, step),
    {
        match event {
            ReadEvent::Data(chunk) => {
                if chunk.len() == 0 {
                    HashStep::Done(self.finish())
                } else {
                    match self.absorb(chunk) {
                        Ok(hasher) => HashStep::ReadOn(hasher),
                        Err(error) => HashStep::Aborted(error),
                    }
                }
            },
            ReadEvent::Interrupted => HashStep::ReadOn(self),
            ReadEvent::Failed => HashStep::Aborted(HashError::ReadFailed),
        }
    }
}

/// `step` is what follows the read `event` for a hasher that has taken in
/// `absorbed`.
pub open spec fn step_follows(absorbed: Seq<u8>, event: ReadEvent, step: HashStep) -> bool {
    match event {
        ReadEvent::Data(chunk) => if chunk@.len() == 0 {
            step matches HashStep::Done(hash) && hash_of(hash, absorbed)
        } else if absorbed.len() + chunk@.len() <= MAX_CONTENT_LEN {
            step matches HashStep::ReadOn(hasher) && hasher.absorbed() == absorbed + chunk@
        } else {
            step matches HashStep::Aborted(error) && error == HashError::TooLong
        },
        ReadEvent::Interrupted => step matches HashStep::ReadOn(hasher) && hasher.absorbed()
            == absorbed,
        ReadEvent::Failed => step matches HashStep::Aborted(error) && error
            == HashError::ReadFailed,
    }
}

/// What a sequence of reads gives, for a hasher that has taken in `absorbed`:
/// the content, once the end of the file is read, or the reason to give up.
pub open spec fn content_read(
    absorbed: Seq<u8>,
    reads: Seq<ReadEvent>,
) -> Result<Seq<u8>, HashError>
    decreases reads.len(),
{
    if reads.len() == 0 {
        Err(HashError::Incomplete)
    } else {
        match reads[0] {
            ReadEvent::Data(chunk) => if chunk@.len() == 0 {
                Ok(absorbed)
            } else if absorbed.len() + chunk@.len() <= MAX_CONTENT_LEN {
                content_read(absorbed + chunk@, reads.skip(1))
            } else {
                Err(HashError::TooLong)
            },
            ReadEvent::Interrupted => content_read(absorbed, reads.skip(1)),
            ReadEvent::Failed => Err(HashError::ReadFailed),
        }
    }
}

impl FileHash {
    /// The content hash of a file, from the reads of it in order: the bytes
    /// read before the first empty read are the content.
    pub fn from_file(reads: &Vec<ReadEvent>) -> (hashed: Result<FileHash, HashError>)
        ensures
            match hashed {
                Ok(hash) => content_read(Seq::empty(), reads@) matches Ok(content) && hash_of(
                    hash,
                    content,
                ),
                Err(error) => content_read(Seq::empty(), reads@) == Err::<Seq<u8>, HashError>(
                    error,
                ),
            },
    {
        let mut hasher = ContentHasher::new();
        let mut i: usize = 0;
        assert(reads@.skip(0) =~= reads@);
        while i < reads.len()
            invariant
                i <= reads.len(),
                content_read(Seq::empty(), reads@) == content_read(
                    hasher.absorbed(),
                    reads@.skip(i as int),
                ),
            decreases reads.len() - i,
        {
            proof {
                assert(reads@.skip(i as int)[0] == reads@[i as int]);
                assert(reads@.skip(i as int).skip(1) =~= reads@.skip(i + 1));
            }
            match hasher.on_read(reads[i]) {
                HashStep::ReadOn(next) => {
                    hasher = next;
                },
                HashStep::Done(hash) => {
                    return Ok(hash);
                },
                HashStep::Aborted(error) => {
                    return Err(error);
                },
            }
            i += 1;
        }
        Err(HashError::Incomplete)
    }
}

} // verus!
