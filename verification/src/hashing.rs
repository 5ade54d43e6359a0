use vstd::prelude::*;

verus! {

/// The SHA-1 digest of `data`.
pub uninterp spec fn sha1_of(data: Seq<u8>) -> Seq<u8>;

/// Computes the SHA-1 digest of `data` with sha1's `Sha1::digest` (from
/// the `Digest` trait). The contract names the digest `sha1_of` and states
/// its length, 20 bytes, which is the output size `U20` that the crate
/// declares for SHA-1.
#[verifier::external_body]
pub(crate) fn sha1_digest(data: &[u8]) -> (r: Vec<u8>)
    ensures
        r@ == sha1_of(data@),
        r@.len() == 20,
{
    <sha1::Sha1 as sha1::Digest>::digest(data).to_vec()
}

/// The lowercase hexadecimal digit for `n` (below 16).
pub open spec fn hex_digit(n: nat) -> char {
    if n < 10 {
        (48 + n) as char
    } else {
        (87 + n) as char
    }
}

/// Bytes written in lowercase hexadecimal, two digits per byte, the high
/// digit first.
pub open spec fn hex_lower(data: Seq<u8>) -> Seq<char>
    decreases data.len(),
{
    if data.len() == 0 {
        Seq::empty()
    } else {
        hex_lower(data.drop_last()) + seq![hex_digit((data.last() / 16) as nat), hex_digit((data.last() % 16) as nat)]
    }
}

/// Encodes `data` with hex's `encode`, which its documentation describes
/// as lowercase hexadecimal, two digits per byte; the contract states that
/// encoding with `hex_lower`.
#[verifier::external_body]
pub(crate) fn hex_encode(data: &[u8]) -> (r: String)
    ensures
        r@ == hex_lower(data@),
{
    hex::encode(data)
}


/// Hexadecimal takes two digits per byte.
pub proof fn lemma_hex_lower_len(data: Seq<u8>)
    ensures
        hex_lower(data).len() == 2 * data.len(),
    decreases data.len(),
{
    if data.len() > 0 {
        lemma_hex_lower_len(data.drop_last());
    }
}

/// Different digit values are written with different digits.
pub proof fn lemma_hex_digit_injective(x: nat, y: nat)
    requires
        x < 16,
        y < 16,
        hex_digit(x) == hex_digit(y),
    ensures
        x == y,
{
    if x < 10 && y < 10 {
        assert((48 + x) as char as int == 48 + x);
        assert((48 + y) as char as int == 48 + y);
    } else if x >= 10 && y >= 10 {
        assert((87 + x) as char as int == 87 + x);
        assert((87 + y) as char as int == 87 + y);
    } else if x < 10 {
        assert((48 + x) as char as int == 48 + x);
        assert((87 + y) as char as int == 87 + y);
    } else {
        assert((87 + x) as char as int == 87 + x);
        assert((48 + y) as char as int == 48 + y);
    }
}

/// Law: different byte strings have different hexadecimal forms, so
/// comparing two hexadecimal forms compares the bytes they write.
pub proof fn lemma_hex_lower_injective(a: Seq<u8>, b: Seq<u8>)
    requires
        hex_lower(a) == hex_lower(b),
    ensures
        a == b,
    decreases a.len(),
{
    lemma_hex_lower_len(a);
    lemma_hex_lower_len(b);
    if a.len() == 0 {
        assert(a =~= b);
    } else {
        let n = 2 * (a.len() - 1);
        lemma_hex_lower_len(a.drop_last());
        lemma_hex_lower_len(b.drop_last());
        assert(hex_lower(a).subrange(0, n) =~= hex_lower(a.drop_last()));
        assert(hex_lower(b).subrange(0, n) =~= hex_lower(b.drop_last()));
        lemma_hex_lower_injective(a.drop_last(), b.drop_last());
        let (x, y) = (a.last(), b.last());
        assert(hex_lower(a)[n] == hex_digit((x / 16) as nat));
        assert(hex_lower(b)[n] == hex_digit((y / 16) as nat));
        assert(hex_lower(a)[n + 1] == hex_digit((x % 16) as nat));
        assert(hex_lower(b)[n + 1] == hex_digit((y % 16) as nat));
        lemma_hex_digit_injective((x / 16) as nat, (y / 16) as nat);
        lemma_hex_digit_injective((x % 16) as nat, (y % 16) as nat);
        assert(x == y);
        assert(a =~= b.drop_last().push(y));
        assert(b =~= b.drop_last().push(y));
    }
}

} // verus!
