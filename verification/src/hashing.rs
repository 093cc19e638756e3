//! The streaming 128-bit content hash.
//!
//! Contents are digested with the xxh3 algorithm of the `xxhash_rust`
//! crate. The digest is named, not described: the library only relies on
//! it being a function of the bytes fed in.

use vstd::prelude::*;

verus! {

#[verifier::external_type_specification]
#[verifier::external_body]
pub struct ExXxh3(xxhash_rust::xxh3::Xxh3);

/// The 128-bit xxh3 digest of a byte stream (with the default seed and
/// secret), named here and never spelled out.
pub uninterp spec fn xxh3_128_of(fed: Seq<u8>) -> u128;

/// A hasher together with the stream it has consumed so far.
pub struct CompositeHasher {
    inner: xxhash_rust::xxh3::Xxh3,
    fed: Ghost<Seq<u8>>,
}

/// Relies on `xxhash_rust::xxh3::Xxh3::new`: a fresh hasher with the
/// default seed and secret.
#[verifier::external_body]
fn xxh3_new() -> xxhash_rust::xxh3::Xxh3 {
    xxhash_rust::xxh3::Xxh3::new()
}

/// Relies on `xxhash_rust::xxh3::Xxh3::update`: hashes the chunk into
/// the hasher's state.
#[verifier::external_body]
fn xxh3_update(h: &mut xxhash_rust::xxh3::Xxh3, bytes: &[u8]) {
    h.update(bytes);
}

impl CompositeHasher {
    /// The bytes this hasher has consumed.
    pub closed spec fn fed_bytes(&self) -> Seq<u8> {
        self.fed@
    }

    /// A fresh hasher that has consumed nothing.
    pub fn new() -> (r: Self)
        ensures
            r.fed_bytes() == Seq::<u8>::empty(),
    {
        CompositeHasher { inner: xxh3_new(), fed: Ghost(Seq::empty()) }
    }

    /// Feeds a chunk of bytes.
    pub fn write(&mut self, bytes: &[u8])
        ensures
            final(self).fed_bytes() == old(self).fed_bytes() + bytes@,
    {
        xxh3_update(&mut self.inner, bytes);
        proof {
            self.fed@ = self.fed@ + bytes@;
        }
    }

    /// Relies on `xxhash_rust::xxh3::Xxh3::digest128`: the digest
    /// depends on the consumed bytes alone, so it equals the named
    /// digest of the stream this hasher was fed.
    #[verifier::external_body]
    pub fn digest128(&self) -> (r: u128)
        ensures
            r == xxh3_128_of(self.fed_bytes()),
    {
        self.inner.digest128()
    }

    /// Feeds a 32-bit value, least significant byte first.
    pub fn write_u32(&mut self, v: u32)
        ensures
            final(self).fed_bytes() == old(self).fed_bytes() + u32_le_bytes(v),
    {
        let mut bytes: Vec<u8> = Vec::new();
        bytes.push((v & 0xff) as u8);
        bytes.push(((v >> 8) & 0xff) as u8);
        bytes.push(((v >> 16) & 0xff) as u8);
        bytes.push(((v >> 24) & 0xff) as u8);
        proof {
            assert(bytes@ =~= u32_le_bytes(v));
        }
        self.write(bytes.as_slice());
    }
}

/// The four bytes of `v`, least significant first.
pub open spec fn u32_le_bytes(v: u32) -> Seq<u8> {
    seq![
        (v & 0xff) as u8,
        ((v >> 8) & 0xff) as u8,
        ((v >> 16) & 0xff) as u8,
        ((v >> 24) & 0xff) as u8,
    ]
}

/// Feeds a whole content stream to the hasher in bounded chunks, as the
/// workers do while reading.
pub fn hash_source(hasher: &mut CompositeHasher, content: &Vec<u8>)
    ensures
        final(hasher).fed_bytes() == old(hasher).fed_bytes() + content@,
{
    let n = content.len();
    let mut i: usize = 0;
    proof {
        assert(old(hasher).fed_bytes() + content@.take(0) =~= old(hasher).fed_bytes());
    }
    while i < n
        invariant
            i <= n,
            n == content@.len(),
            hasher.fed_bytes() == old(hasher).fed_bytes() + content@.take(i as int),
        decreases n - i,
    {
        let step = if n - i < 512 {
            n - i
        } else {
            512
        };
        let chunk: &[u8] = &content.as_slice()[i..i + step];
        hasher.write(chunk);
        proof {
            assert(old(hasher).fed_bytes() + content@.take(i as int) + content@.subrange(
                i as int,
                i as int + step as int,
            ) =~= old(hasher).fed_bytes() + content@.take(i as int + step as int));
        }
        i = i + step;
    }
    proof {
        assert(content@.take(n as int) =~= content@);
    }
}

/// Why a file could not be hashed.
#[derive(Debug)]
pub enum HashFileError {
    /// Reading the file or its metadata failed; the caller holds the
    /// diagnostic.
    IO,
    /// The file's modification time changed while it was being hashed.
    FileChanged,
}

/// Hashes a file's content, admitting it only when the modification
/// times captured before and after reading agree: a file that changed
/// while it was read is never admitted.
pub fn hash_file_content(
    content: &Vec<u8>,
    t_before: Option<u64>,
    t_after: Option<u64>,
) -> (r: Result<(CompositeHasher, Option<u64>), HashFileError>)
    ensures
        t_before == t_after <==> r is Ok,
        match r {
            Ok((h, t)) => h.fed_bytes() == content@ && t == t_before,
            Err(e) => e is FileChanged,
        },
{
    let same = match (&t_before, &t_after) {
        (None, None) => true,
        (Some(a), Some(b)) => *a == *b,
        _ => false,
    };
    if !same {
        return Err(HashFileError::FileChanged);
    }
    let mut hasher = CompositeHasher::new();
    hash_source(&mut hasher, content);
    proof {
        assert(Seq::<u8>::empty() + content@ =~= content@);
    }
    Ok((hasher, t_before))
}

} // verus!
