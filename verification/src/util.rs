//! Hashing and identity helpers: the hash abstraction the store keys
//! its content-addressed ids with, and nonce generation.

use vstd::prelude::*;

verus! {

/// A random, single-use 32-byte value, used to salt fresh store ids.
pub type Nonce = [u8; 32];

/// Relies on `rand`'s `OsRng::fill_bytes`: fills the nonce from the
/// operating system's entropy source. Nothing can be promised of the
/// bytes that come back.
#[verifier::external_body]
pub fn generate_nonce() -> (r: Nonce)
    ensures
        r@.len() == 32,
{
    let mut nonce = [0; 32];
    rand::RngCore::fill_bytes(&mut rand::rngs::OsRng, &mut nonce);
    nonce
}

/// The digest sha2 computes for a byte string; it depends on the bytes
/// alone.
pub uninterp spec fn sha256_of(data: Seq<u8>) -> Seq<u8>;

/// A running sha2 hasher. `sha2::Sha256` is an alias into generic
/// wrapper types the verifier cannot declare, so the hasher lives in a
/// private field of an opaque struct instead.
#[verifier::external_body]
pub struct HashState256 {
    inner: sha2::Sha256,
}

/// The bytes fed so far into a running hasher.
pub uninterp spec fn sha_fed(st: HashState256) -> Seq<u8>;

/// Relies on `sha2::Sha256::new` (`Digest::new`): a fresh hasher has
/// been fed nothing.
#[verifier::external_body]
pub fn sha256_new() -> (st: HashState256)
    ensures
        sha_fed(st) == Seq::<u8>::empty(),
{
    HashState256 { inner: sha2::Digest::new() }
}

/// Relies on `sha2::Sha256::update` (`Digest::update`): feeding bytes
/// appends them to what the hasher has seen.
#[verifier::external_body]
pub fn sha256_update(st: &mut HashState256, data: &[u8])
    ensures
        sha_fed(*final(st)) == sha_fed(*old(st)) + data@,
{
    sha2::Digest::update(&mut st.inner, data)
}

/// Relies on `sha2::Sha256::finalize` (`Digest::finalize`): the digest
/// is 32 bytes and a function of the fed bytes alone.
#[verifier::external_body]
pub fn sha256_finalize(st: HashState256) -> (r: Sha256Hash)
    ensures
        r@ == sha256_of(sha_fed(st)),
        r@.len() == 32,
{
    Sha256Hash(sha2::Digest::finalize(st.inner).into())
}

/// A 32-byte sha2 digest.
#[derive(Clone, Copy, Debug)]
pub struct Sha256Hash(pub [u8; 32]);

impl View for Sha256Hash {
    type V = Seq<u8>;

    open spec fn view(&self) -> Seq<u8> {
        self.0@
    }
}

impl Sha256Hash {
    /// The digest's bytes.
    pub fn as_bytes(&self) -> (r: &[u8; 32])
        ensures
            r@ == self@,
    {
        &self.0
    }

    /// Whether two digests hold the same bytes.
    pub fn same(&self, other: &Sha256Hash) -> (r: bool)
        ensures
            r == (self@ =~= other@),
    {
        let mut k: usize = 0;
        while k < 32
            invariant
                0 <= k <= 32,
                self@.len() == 32,
                other@.len() == 32,
                forall|t: int| 0 <= t < k ==> self@[t] == other@[t],
            decreases 32 - k,
        {
            if self.0[k] != other.0[k] {
                return false;
            }
            k += 1;
        }
        proof {
            assert(self@ =~= other@);
        }
        true
    }
}

/// The hash abstraction a store is keyed with: a streaming state that
/// bytes are fed into, and a finalize step that yields a digest of
/// exactly the bytes fed.
pub trait Hash: Sized {
    type HashState;

    /// The bytes fed so far into a hashing state.
    spec fn fed(st: Self::HashState) -> Seq<u8>;

    /// Whether this digest is the hash of `data`.
    spec fn digest_matches(&self, data: Seq<u8>) -> bool;

    fn new() -> (st: Self::HashState)
        ensures
            Self::fed(st) == Seq::<u8>::empty(),
    ;

    fn update(state: &mut Self::HashState, data: &[u8])
        ensures
            Self::fed(*final(state)) == Self::fed(*old(state)) + data@,
    ;

    fn finalize(state: Self::HashState) -> (r: Self)
        ensures
            r.digest_matches(Self::fed(state)),
    ;
}

impl Hash for Sha256Hash {
    type HashState = HashState256;

    open spec fn fed(st: HashState256) -> Seq<u8> {
        sha_fed(st)
    }

    open spec fn digest_matches(&self, data: Seq<u8>) -> bool {
        self@ == sha256_of(data)
    }

    fn new() -> HashState256 {
        sha256_new()
    }

    fn update(state: &mut HashState256, data: &[u8]) {
        sha256_update(state, data)
    }

    fn finalize(state: HashState256) -> Sha256Hash {
        sha256_finalize(state)
    }
}

/// Hashes a byte string in one sweep.
pub fn sha256_digest(data: &[u8]) -> (r: Sha256Hash)
    ensures
        r@ == sha256_of(data@),
        r@.len() == 32,
{
    let mut st = sha256_new();
    sha256_update(&mut st, data);
    proof {
        assert(sha_fed(st) =~= data@);
    }
    sha256_finalize(st)
}

} // verus!
