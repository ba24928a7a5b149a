//! The digest by which a response is told from the expected content.

use vstd::prelude::*;

verus! {

/// The BLAKE3 digest of `data`, 32 bytes long.
pub uninterp spec fn blake3_digest(data: Seq<u8>) -> Seq<u8>;

/// `blake3::hash`: the 32 bytes of the default BLAKE3 digest of `data`, which
/// depend on `data` alone.
#[verifier::external_body]
fn digest(data: &[u8]) -> (out: [u8; 32])
    ensures
        out@ == blake3_digest(data@),
{
    *blake3::hash(data).as_bytes()
}

/// Whether two digests are the same, byte for byte.
pub fn same_digest(a: &[u8; 32], b: &[u8; 32]) -> (same: bool)
    ensures
        same == (a@ == b@),
{
    let mut i: usize = 0;
    while i < 32
        invariant
            i <= 32,
            forall|j: int| 0 <= j < i ==> a@[j] == b@[j],
        decreases 32 - i,
    {
        if a[i] != b[i] {
            return false;
        }
        i += 1;
    }
    assert(a@ =~= b@);
    true
}

/// Where a run has the reference document from.
#[derive(Clone, Copy, Debug, PartialEq, Eq, Structural)]
pub enum ReferenceSource {
    /// The file is there: it is read as it is.
    Cached,
    /// No file is there: the target URL is fetched once, and what comes
    /// back is written to the file as it came, and then read.
    Fetch,
    /// A directory stands where the file should: the run ends without
    /// scanning.
    Refuse,
}

/// Where the reference document comes from, by what stands at the
/// configured place: something or nothing, a directory or not.
pub open spec fn source_for(exists: bool, is_dir: bool) -> ReferenceSource {
    if !exists {
        ReferenceSource::Fetch
    } else if is_dir {
        ReferenceSource::Refuse
    } else {
        ReferenceSource::Cached
    }
}

/// Decides where the reference document comes from.
pub fn reference_source(exists: bool, is_dir: bool) -> (source: ReferenceSource)
    ensures
        source == source_for(exists, is_dir),
{
    if !exists {
        ReferenceSource::Fetch
    } else if is_dir {
        ReferenceSource::Refuse
    } else {
        ReferenceSource::Cached
    }
}

/// The digest of the reference document, fixed for a run.
#[derive(Clone, Copy, Debug)]
pub struct ReferenceHash {
    bytes: [u8; 32],
}

impl View for ReferenceHash {
    type V = Seq<u8>;

    closed spec fn view(&self) -> Seq<u8> {
        self.bytes@
    }
}

impl ReferenceHash {
    /// The digest of the reference document `document`.
    pub fn of_document(document: &[u8]) -> (hash: ReferenceHash)
        ensures
            hash@ == blake3_digest(document@),
    {
        ReferenceHash { bytes: digest(document) }
    }

    /// The reference digest whose bytes are `bytes`.
    pub fn from_bytes(bytes: [u8; 32]) -> (hash: ReferenceHash)
        ensures
            hash@ == bytes@,
    {
        ReferenceHash { bytes }
    }

    /// The bytes of the digest.
    pub fn as_bytes(&self) -> (bytes: &[u8; 32])
        ensures
            bytes@ == self@,
    {
        &self.bytes
    }

    /// Whether `body` is the reference document, as far as the digest tells.
    pub fn matches(&self, body: &[u8]) -> (same: bool)
        ensures
            same == (blake3_digest(body@) == self@),
    {
        let found = digest(body);
        same_digest(&found, &self.bytes)
    }
}

} // verus!
