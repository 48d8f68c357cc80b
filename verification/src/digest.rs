//! Hashes of file contents: xxHash3, 64 bits, as sixteen hexadecimal digits.

use vstd::prelude::*;
use vstd::string::*;
use vstd::utf8::is_ascii_chars;
use xxhash_rust::xxh3::Xxh3;
use crate::text::{ascii_upper, hex16, hex_text, is_hash_text, to_uppercase, uppercase};

verus! {

/// The streaming xxHash3 hasher of the `xxhash-rust` crate.
#[verifier::external_type_specification]
#[verifier::external_body]
pub struct ExXxh3(xxhash_rust::xxh3::Xxh3);

/// What a hasher holds: the bytes that it has been fed, in their order.
pub uninterp spec fn fed(h: Xxh3) -> Seq<u8>;

/// The number that xxHash3 gives for `data`.
pub uninterp spec fn xxh3(data: Seq<u8>) -> u64;

/// Calls `Xxh3::new`. Believed of it: the new hasher has been fed nothing.
#[verifier::external_body]
fn hasher_new() -> (h: Xxh3)
    ensures
        fed(h) == Seq::<u8>::empty(),
{
    Xxh3::new()
}

/// Calls `Xxh3::update`. Believed of it: the hasher takes the chunk after what
/// it has been fed before.
#[verifier::external_body]
fn hasher_update(h: &mut Xxh3, chunk: &[u8])
    ensures
        fed(*final(h)) == fed(*old(h)) + chunk@,
{
    h.update(chunk)
}

/// Calls `Xxh3::digest`. Believed of it: the number depends only on the bytes
/// that the hasher has been fed, not on how they were cut into chunks. Different
/// bytes may have the same number.
#[verifier::external_body]
fn hasher_digest(h: &Xxh3) -> (r: u64)
    ensures
        r == xxh3(fed(*h)),
{
    h.digest()
}

/// The hash of some content, as it stands in manifests and file names.
pub open spec fn content_hash(data: Seq<u8>) -> Seq<char> {
    hex_text(xxh3(data))
}

/// Hashes content that comes in chunks.
pub struct ContentHasher {
    state: Xxh3,
}

impl View for ContentHasher {
    type V = Seq<u8>;

    closed spec fn view(&self) -> Seq<u8> {
        fed(self.state)
    }
}

impl ContentHasher {
    pub fn new() -> (r: ContentHasher)
        ensures
            r@ == Seq::<u8>::empty(),
    {
        ContentHasher { state: hasher_new() }
    }

    /// Takes the next chunk.
    pub fn update(&mut self, chunk: &[u8])
        ensures
            final(self)@ == old(self)@ + chunk@,
    {
        hasher_update(&mut self.state, chunk);
    }

    /// The hash of all chunks so far.
    pub fn finish(&self) -> (r: String)
        ensures
            r@ == content_hash(self@),
    {
        hex16(hasher_digest(&self.state))
    }
}

/// The chunks one after the other.
pub open spec fn concatenated(chunks: Seq<Vec<u8>>) -> Seq<u8>
    decreases chunks.len(),
{
    if chunks.len() == 0 {
        Seq::empty()
    } else {
        concatenated(chunks.drop_last()) + chunks.last()@
    }
}

/// The hash of a file that was read in chunks.
pub fn hash_file_chunks(chunks: &Vec<Vec<u8>>) -> (r: String)
    ensures
        r@ == content_hash(concatenated(chunks@)),
{
    let mut hasher = ContentHasher::new();
    let mut i: usize = 0;
    assert(chunks@.take(0) =~= Seq::<Vec<u8>>::empty());
    while i < chunks.len()
        invariant
            i <= chunks@.len(),
            hasher@ == concatenated(chunks@.take(i as int)),
        decreases chunks@.len() - i,
    {
        hasher.update(chunks[i].as_slice());
        i += 1;
        assert(chunks@.take(i as int).drop_last() =~= chunks@.take(i - 1));
    }
    assert(chunks@.take(i as int) =~= chunks@);
    hasher.finish()
}

/// The hash of a file, from its content.
pub fn hash_file(content: &[u8]) -> (r: String)
    ensures
        r@ == content_hash(content@),
{
    let mut hasher = ContentHasher::new();
    hasher.update(content);
    assert(Seq::<u8>::empty() + content@ =~= content@);
    hasher.finish()
}

/// What is said of a file whose content does not have the hash that it should.
pub open spec fn mismatch_text(expected: Seq<char>, got: Seq<char>) -> Seq<char> {
    "hash mismatch (manifest "@ + expected + " vs actual "@ + got + ")"@
}

/// Holds the hash of a file against the expected one, whose letters may be in
/// either case.
pub fn verify_hash(got: &str, expected: &str) -> (r: Result<(), String>)
    ensures
        match r {
            Ok(_) => got@ == uppercase(expected@),
            Err(e) => got@ != uppercase(expected@) && e@ == mismatch_text(expected@, got@),
        },
        is_hash_text(expected@) ==> (r is Ok <==> got@ == expected@),
{
    proof {
        if is_hash_text(expected@) {
            assert(is_ascii_chars(expected@));
            assert(ascii_upper(expected@) =~= expected@);
        }
    }
    if got.to_string() == to_uppercase(expected) {
        Ok(())
    } else {
        let mut e = "hash mismatch (manifest ".to_string();
        e.append(expected);
        e.append(" vs actual ");
        e.append(got);
        e.append(")");
        Err(e)
    }
}

/// The hash of any content is sixteen upper-case hexadecimal digits.
pub proof fn law_content_hash_form(data: Seq<u8>)
    ensures
        is_hash_text(content_hash(data)),
{
    crate::text::law_hex_text_is_hash_text(xxh3(data));
}

} // verus!
