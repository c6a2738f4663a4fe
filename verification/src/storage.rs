//! Object storage naming: the keys episode audio and images are stored
//! under, their public URLs, and the key of a stored URL.
use vstd::prelude::*;
use sha2::{Digest, Sha256};
use crate::synth::hex_digits;
use crate::text::{push_str, str_strip_prefix, strip_prefix};

verus! {

/// The SHA-256 digest of `b`, as the `sha2` crate computes it.
pub uninterp spec fn sha256_of(b: Seq<u8>) -> Seq<u8>;

/// `Sha256::digest(bytes)`, converted to a vector; the digest is 32 bytes.
#[verifier::external_body]
pub(crate) fn sha256(bytes: &[u8]) -> (r: Vec<u8>)
    ensures
        r@ == sha256_of(bytes@),
        r@.len() == 32,
{
    Sha256::digest(bytes).to_vec()
}

/// Lowercase hexadecimal of bytes: two digits per byte.
pub open spec fn hex_of(b: Seq<u8>) -> Seq<char>
    decreases b.len(),
{
    if b.len() == 0 {
        seq![]
    } else {
        hex_of(b.drop_last()) + hex_digits(b.last() as nat, 2)
    }
}

/// Each byte as two lowercase hexadecimal digits, high nibble first (what
/// `hex::encode` gives).
pub fn hex_encode(bytes: &[u8]) -> (r: String)
    ensures
        r@ == hex_of(bytes@),
{
    let mut r = String::new();
    let mut i: usize = 0;
    while i < bytes.len()
        invariant
            i <= bytes@.len(),
            r@ == hex_of(bytes@.take(i as int)),
        decreases bytes@.len() - i,
    {
        proof {
            assert(bytes@.take(i + 1).drop_last() =~= bytes@.take(i as int));
        }
        crate::synth::push_hex(&mut r, bytes[i] as u64, 2);
        i += 1;
    }
    proof {
        assert(bytes@.take(bytes@.len() as int) =~= bytes@);
    }
    r
}

/// The storage key of an episode's audio: named by the first 8 bytes of
/// the audio's SHA-256, in hexadecimal.
pub open spec fn audio_key_spec(episode_id: Seq<char>, audio: Seq<u8>) -> Seq<char> {
    "episodes/"@ + episode_id + seq!['/'] + hex_of(sha256_of(audio).take(8)) + ".mp3"@
}

/// The first `n` bytes of `v`.
fn first_bytes(v: &Vec<u8>, n: usize) -> (r: Vec<u8>)
    requires
        n <= v@.len(),
    ensures
        r@ == v@.take(n as int),
{
    let mut r: Vec<u8> = Vec::new();
    let mut i: usize = 0;
    while i < n
        invariant
            i <= n <= v@.len(),
            r@ == v@.take(i as int),
        decreases n - i,
    {
        proof {
            assert(v@.take(i + 1) =~= v@.take(i as int).push(v@[i as int]));
        }
        r.push(v[i]);
        i += 1;
    }
    r
}

/// The key an episode's audio is stored under.
pub fn audio_key(episode_id: &str, audio: &[u8]) -> (r: String)
    ensures
        r@ == audio_key_spec(episode_id@, audio@),
{
    let digest = sha256(audio);
    let prefix = first_bytes(&digest, 8);
    let hash = hex_encode(prefix.as_slice());
    let mut key = String::new();
    push_str(&mut key, "episodes/");
    push_str(&mut key, episode_id);
    crate::text::push_char(&mut key, '/');
    push_str(&mut key, hash.as_str());
    push_str(&mut key, ".mp3");
    proof {
        assert(key@ =~= audio_key_spec(episode_id@, audio@));
    }
    key
}

/// The key an episode's cover image is stored under.
pub fn image_key(episode_id: &str) -> (r: String)
    ensures
        r@ == "episodes/"@ + episode_id@ + "/cover.jpg"@,
{
    let mut key = String::new();
    push_str(&mut key, "episodes/");
    push_str(&mut key, episode_id);
    push_str(&mut key, "/cover.jpg");
    proof {
        assert(key@ =~= "episodes/"@ + episode_id@ + "/cover.jpg"@);
    }
    key
}

/// The public URL of a stored object.
pub open spec fn public_url_spec(bucket: Seq<char>, key: Seq<char>) -> Seq<char> {
    "https://"@ + bucket + ".t3.tigrisfiles.io/"@ + key
}

/// The public URL of an object in the bucket.
pub fn public_url(bucket: &str, key: &str) -> (r: String)
    ensures
        r@ == public_url_spec(bucket@, key@),
{
    let mut u = String::new();
    push_str(&mut u, "https://");
    push_str(&mut u, bucket);
    push_str(&mut u, ".t3.tigrisfiles.io/");
    push_str(&mut u, key);
    proof {
        assert(u@ =~= public_url_spec(bucket@, key@));
    }
    u
}

/// The URL prefixes under which the bucket's objects are served.
pub open spec fn bucket_prefixes(bucket: Seq<char>) -> Seq<Seq<char>> {
    seq![
        "https://"@ + bucket + ".t3.tigrisfiles.io/"@,
        "https://"@ + bucket + ".t3.storage.dev/"@,
        "https://"@ + bucket + ".fly.storage.tigris.dev/"@,
    ]
}

/// The key of a stored object's URL: the URL without the first of the
/// bucket's prefixes it starts with; the URL itself when none.
pub open spec fn object_key_spec(bucket: Seq<char>, url: Seq<char>) -> Seq<char> {
    let ps = bucket_prefixes(bucket);
    match strip_prefix(url, ps[0]) {
        Some(k) => k,
        None => match strip_prefix(url, ps[1]) {
            Some(k) => k,
            None => match strip_prefix(url, ps[2]) {
                Some(k) => k,
                None => url,
            },
        },
    }
}

/// `"https://" + bucket + host`.
fn bucket_url(bucket: &str, host: &str) -> (r: String)
    ensures
        r@ == "https://"@ + bucket@ + host@,
{
    let mut u = String::new();
    push_str(&mut u, "https://");
    push_str(&mut u, bucket);
    push_str(&mut u, host);
    proof {
        assert(u@ =~= "https://"@ + bucket@ + host@);
    }
    u
}

/// The storage key of an object given its public URL.
pub fn object_key(bucket: &str, url: &str) -> (r: String)
    ensures
        r@ == object_key_spec(bucket@, url@),
{
    let p0 = bucket_url(bucket, ".t3.tigrisfiles.io/");
    if let Some(k) = str_strip_prefix(url, p0.as_str()) {
        return k;
    }
    let p1 = bucket_url(bucket, ".t3.storage.dev/");
    if let Some(k) = str_strip_prefix(url, p1.as_str()) {
        return k;
    }
    let p2 = bucket_url(bucket, ".fly.storage.tigris.dev/");
    if let Some(k) = str_strip_prefix(url, p2.as_str()) {
        return k;
    }
    crate::text::owned(url)
}

/// The key of an object's public URL is the object's key: deleting by the
/// URL an upload returned deletes that object.
pub proof fn lemma_object_key_of_public_url(bucket: Seq<char>, key: Seq<char>)
    ensures
        object_key_spec(bucket, public_url_spec(bucket, key)) == key,
{
    let u = public_url_spec(bucket, key);
    let p0 = bucket_prefixes(bucket)[0];
    assert(u =~= p0 + key);
    assert(u.take(p0.len() as int) =~= p0);
    assert(u.skip(p0.len() as int) =~= key);
}

} // verus!
