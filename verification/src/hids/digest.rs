//! Content hashes.

use sha2::Digest;
use sha2::Sha256;
use vstd::prelude::*;
use crate::text::{digit_char, digit_value, string_of, to_digit};

verus! {

/// `sha2::Sha256`, a hash of the bytes that it has been fed so far.
#[verifier::external_type_specification]
#[verifier::external_body]
pub struct ExSha256(sha2::Sha256);

/// The bytes that a hasher has been fed.
pub uninterp spec fn fed(hasher: Sha256) -> Seq<u8>;

/// The SHA-256 of some bytes.
pub uninterp spec fn sha256_of(bytes: Seq<u8>) -> Seq<u8>;

/// How many bytes a hasher takes: their number in bits fits in 64 bits.
pub const MAX_HASHED: u64 = 0x1fff_ffff_ffff_ffff;

/// `Sha256::new`: a hasher that has been fed nothing.
#[verifier::external_body]
fn new_hasher() -> (hasher: Sha256)
    ensures
        fed(hasher) == Seq::<u8>::empty(),
{
    Sha256::new()
}

/// `Sha256::update`: feeds more bytes, behind those there are.
#[verifier::external_body]
fn feed(hasher: &mut Sha256, bytes: &[u8])
    requires
        fed(*old(hasher)).len() + bytes@.len() <= MAX_HASHED,
    ensures
        fed(*final(hasher)) == fed(*old(hasher)) + bytes@,
{
    hasher.update(bytes);
}

/// `Sha256::finalize`: the 32 bytes of the hash of what was fed. Which bytes they
/// are is left to the name.
#[verifier::external_body]
fn finish_hasher(hasher: Sha256) -> (hash: Vec<u8>)
    requires
        fed(hasher).len() <= MAX_HASHED,
    ensures
        hash@ == sha256_of(fed(hasher)),
        hash@.len() == 32,
{
    hasher.finalize().to_vec()
}

/// Bytes in lower-case hex, two digits each.
pub open spec fn hex_of(bytes: Seq<u8>) -> Seq<char>
    decreases bytes.len(),
{
    if bytes.len() == 0 {
        seq![]
    } else {
        hex_of(bytes.drop_last()).push(digit_char(bytes.last() as int / 16)).push(
            digit_char(bytes.last() as int % 16),
        )
    }
}

/// Write bytes in lower-case hex.
pub fn to_hex(bytes: &[u8]) -> (text: String)
    ensures
        text@ == hex_of(bytes@),
{
    let mut digits: Vec<char> = Vec::new();
    let mut i: usize = 0;
    assert(bytes@.take(0) =~= seq![]);
    while i < bytes.len()
        invariant
            i <= bytes@.len(),
            digits@ == hex_of(bytes@.take(i as int)),
        decreases bytes@.len() - i,
    {
        assert(bytes@.take(i + 1).drop_last() =~= bytes@.take(i as int));
        digits.push(to_digit(bytes[i] / 16));
        digits.push(to_digit(bytes[i] % 16));
        i = i + 1;
    }
    assert(bytes@.take(i as int) =~= bytes@);
    string_of(digits.as_slice())
}

/// A hash that is computed in chunks, so that no file has to be held whole.
pub struct FileHasher {
    hasher: Sha256,
}

impl View for FileHasher {
    type V = Seq<u8>;

    closed spec fn view(&self) -> Seq<u8> {
        fed(self.hasher)
    }
}

impl FileHasher {
    /// A hasher that has been fed nothing.
    pub fn new() -> (hasher: Self)
        ensures
            hasher@ == Seq::<u8>::empty(),
    {
        FileHasher { hasher: new_hasher() }
    }

    /// Feed more bytes.
    pub fn update(&mut self, bytes: &[u8])
        requires
            old(self)@.len() + bytes@.len() <= MAX_HASHED,
        ensures
            final(self)@ == old(self)@ + bytes@,
    {
        feed(&mut self.hasher, bytes);
    }

    /// The hash of what was fed, in lower-case hex.
    pub fn finish(self) -> (text: String)
        requires
            self@.len() <= MAX_HASHED,
        ensures
            text@ == hex_of(sha256_of(self@)),
            text@.len() == 64,
    {
        let hash = finish_hasher(self.hasher);
        proof {
            lemma_hex_len(hash@);
        }
        to_hex(hash.as_slice())
    }
}

proof fn lemma_hex_len(bytes: Seq<u8>)
    ensures
        hex_of(bytes).len() == 2 * bytes.len(),
    decreases bytes.len(),
{
    if bytes.len() > 0 {
        lemma_hex_len(bytes.drop_last());
    }
}

/// How a file is cut into chunks does not change its hash: feeding one chunk and
/// then another feeds both in a row.
pub proof fn law_chunks_do_not_matter(start: Seq<u8>, a: Seq<u8>, b: Seq<u8>)
    ensures
        hex_of(sha256_of(start + a + b)) == hex_of(sha256_of(start + (a + b))),
{
    assert(start + a + b =~= start + (a + b));
}

/// Hex is two digits for each byte, the higher first and in lower case, and that of bytes
/// in a row is that of the first and then that of the others.
pub proof fn law_hex_is_two_digits_a_byte(byte: u8, a: Seq<u8>, b: Seq<u8>)
    ensures
        hex_of(seq![byte]).len() == 2,
        digit_value(hex_of(seq![byte])[0], 16) == Some(byte as int / 16),
        digit_value(hex_of(seq![byte])[1], 16) == Some(byte as int % 16),
        forall|i: int| 0 <= i < 2 ==> !('A' <= #[trigger] hex_of(seq![byte])[i] <= 'F'),
        hex_of(a + b) == hex_of(a) + hex_of(b),
        hex_of(Seq::<u8>::empty()).len() == 0,
    decreases b.len(),
{
    assert(seq![byte].drop_last() =~= seq![]);
    reveal_with_fuel(hex_of, 2);
    if b.len() == 0 {
        assert(a + b =~= a);
        assert(hex_of(a) + hex_of(b) =~= hex_of(a));
    } else {
        law_hex_is_two_digits_a_byte(byte, a, b.drop_last());
        assert((a + b).drop_last() =~= a + b.drop_last());
        assert((a + b).last() == b.last());
        assert(hex_of(a + b) =~= hex_of(a) + hex_of(b));
    }
}

} // verus!
