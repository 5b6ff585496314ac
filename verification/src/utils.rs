//! Digests and the percent encoding of binary data.

use sha1::{Digest, Sha1};
use vstd::prelude::*;
use vstd::string::*;

use crate::text::{hex_char, hex_digit, lemma_hex_char};

verus! {

/// The SHA-1 digest of a message.
pub uninterp spec fn sha1_digest(message: Seq<u8>) -> Seq<u8>;

/// The percent encoding of bytes: each byte becomes a percent sign and two upper-case
/// hexadecimal digits.
pub open spec fn percent_encoding(bytes: Seq<u8>) -> Seq<char> {
    Seq::new(
        3 * bytes.len(),
        |i: int|
            if i % 3 == 0 {
                '%'
            } else if i % 3 == 1 {
                hex_char((bytes[i / 3] / 16) as nat)
            } else {
                hex_char((bytes[i / 3] % 16) as nat)
            },
    )
}

/// The percent encoding of `bytes`.
pub fn bytes_to_hex_encoding(bytes: &[u8]) -> (encoded: String)
    ensures
        encoded@ == percent_encoding(bytes@),
{
    let mut encoded = String::new();
    let mut i: usize = 0;
    assert(encoded@ =~= percent_encoding(bytes@.take(0)));
    while i < bytes.len()
        invariant
            i <= bytes@.len(),
            encoded@ == percent_encoding(bytes@.take(i as int)),
        decreases bytes@.len() - i,
    {
        let b: u8 = bytes[i];
        encoded.push('%');
        encoded.push(hex_digit(b / 16));
        encoded.push(hex_digit(b % 16));
        i = i + 1;
        assert(encoded@ =~= percent_encoding(bytes@.take(i as int)));
    }
    assert(bytes@.take(i as int) =~= bytes@);
    encoded
}

/// Different byte strings have different encodings.
pub proof fn percent_encoding_is_injective(a: Seq<u8>, b: Seq<u8>)
    requires
        percent_encoding(a) == percent_encoding(b),
    ensures
        a == b,
{
    assert(percent_encoding(a).len() == 3 * a.len());
    assert(percent_encoding(b).len() == 3 * b.len());
    assert forall|i: int| 0 <= i < a.len() implies a[i] == b[i] by {
        let high = 3 * i + 1;
        let low = 3 * i + 2;
        assert(high / 3 == i && high % 3 == 1 && low / 3 == i && low % 3 == 2);
        assert(percent_encoding(a)[high] == hex_char((a[i] / 16) as nat));
        assert(percent_encoding(b)[high] == hex_char((b[i] / 16) as nat));
        assert(percent_encoding(a)[low] == hex_char((a[i] % 16) as nat));
        assert(percent_encoding(b)[low] == hex_char((b[i] % 16) as nat));
        lemma_hex_char((a[i] / 16) as nat, (b[i] / 16) as nat);
        lemma_hex_char((a[i] % 16) as nat, (b[i] % 16) as nat);
    }
    assert(a =~= b);
}

/// The SHA-1 digest of `bytes`.
///
/// `sha1::Sha1`, fed with the bytes by `Digest::update` and read by `Digest::finalize`: the
/// digest is a function of the bytes alone.
#[verifier::external_body]
pub fn sha1_hash(bytes: &[u8]) -> (digest: [u8; 20])
    ensures
        digest@ == sha1_digest(bytes@),
{
    let mut hasher = Sha1::new();
    hasher.update(bytes);
    hasher.finalize().into()
}

} // verus!
