//! Content addressing: SHA-256 digests rendered as lowercase hex.
use vstd::prelude::*;
use sha2::{Digest, Sha256};

verus! {

/// The SHA-256 digest of the UTF-8 bytes of a text.
pub uninterp spec fn sha256_of(text: Seq<char>) -> Seq<u8>;

/// Calls `sha2::Sha256::digest` on the UTF-8 bytes of `text`. Trusted to
/// return the digest named by `sha256_of`, which is 32 bytes long
/// (`Sha256`'s output size).
#[verifier::external_body]
fn sha256_digest(text: &str) -> (d: Vec<u8>)
    ensures
        d@ == sha256_of(text@),
        d@.len() == 32,
{
    Sha256::digest(text.as_bytes()).to_vec()
}

/// The lowercase hexadecimal digit for `n < 16`.
pub open spec fn hex_digit(n: int) -> char {
    if n == 0 {
        '0'
    } else if n == 1 {
        '1'
    } else if n == 2 {
        '2'
    } else if n == 3 {
        '3'
    } else if n == 4 {
        '4'
    } else if n == 5 {
        '5'
    } else if n == 6 {
        '6'
    } else if n == 7 {
        '7'
    } else if n == 8 {
        '8'
    } else if n == 9 {
        '9'
    } else if n == 10 {
        'a'
    } else if n == 11 {
        'b'
    } else if n == 12 {
        'c'
    } else if n == 13 {
        'd'
    } else if n == 14 {
        'e'
    } else {
        'f'
    }
}

/// Two lowercase hex digits per byte, most significant first.
pub open spec fn hex_of(bytes: Seq<u8>) -> Seq<char>
    decreases bytes.len(),
{
    if bytes.len() == 0 {
        Seq::empty()
    } else {
        hex_of(bytes.drop_last()) + seq![
            hex_digit(bytes.last() as int / 16),
            hex_digit(bytes.last() as int % 16),
        ]
    }
}

fn hex_digit_char(n: u8) -> (c: char)
    requires
        n < 16,
    ensures
        c == hex_digit(n as int),
{
    if n == 0 {
        '0'
    } else if n == 1 {
        '1'
    } else if n == 2 {
        '2'
    } else if n == 3 {
        '3'
    } else if n == 4 {
        '4'
    } else if n == 5 {
        '5'
    } else if n == 6 {
        '6'
    } else if n == 7 {
        '7'
    } else if n == 8 {
        '8'
    } else if n == 9 {
        '9'
    } else if n == 10 {
        'a'
    } else if n == 11 {
        'b'
    } else if n == 12 {
        'c'
    } else if n == 13 {
        'd'
    } else if n == 14 {
        'e'
    } else {
        'f'
    }
}

/// A lowercase hexadecimal digit.
pub open spec fn is_lower_hex(c: char) -> bool {
    ('0' <= c && c <= '9') || ('a' <= c && c <= 'f')
}

/// Two lowercase hex digits per byte.
pub proof fn lemma_hex_len(bytes: Seq<u8>)
    ensures
        hex_of(bytes).len() == 2 * bytes.len(),
        forall|i: int| 0 <= i < hex_of(bytes).len() ==> is_lower_hex(#[trigger] hex_of(bytes)[i]),
    decreases bytes.len(),
{
    if bytes.len() > 0 {
        let t = bytes.drop_last();
        lemma_hex_len(t);
        let h = hex_of(bytes);
        let ht = hex_of(t);
        assert forall|i: int| 0 <= i < h.len() implies is_lower_hex(#[trigger] h[i]) by {
            if i < ht.len() {
                assert(h[i] == ht[i]);
            }
        }
    }
}

/// Lowercase hex rendering of `bytes`.
pub fn hex_string(bytes: &Vec<u8>) -> (s: String)
    ensures
        s@ == hex_of(bytes@),
{
    let mut s = String::new();
    let mut i: usize = 0;
    while i < bytes.len()
        invariant
            i <= bytes.len(),
            s@ == hex_of(bytes@.take(i as int)),
        decreases bytes.len() - i,
    {
        let b = bytes[i];
        assert(bytes@.take(i + 1).drop_last() =~= bytes@.take(i as int));
        assert(bytes@.take(i + 1).last() == b);
        s.push(hex_digit_char(b / 16));
        s.push(hex_digit_char(b % 16));
        assert(s@ =~= hex_of(bytes@.take(i + 1)));
        i += 1;
    }
    assert(bytes@.take(bytes.len() as int) =~= bytes@);
    s
}

/// The content address of a text: the lowercase hex SHA-256 of its UTF-8
/// bytes (64 characters).
pub open spec fn sha256_hex_of(text: Seq<char>) -> Seq<char> {
    hex_of(sha256_of(text))
}

/// Lowercase hex SHA-256 of `text`.
pub fn sha256_hex(text: &str) -> (h: String)
    ensures
        h@ == sha256_hex_of(text@),
        h@.len() == 64,
        forall|i: int| 0 <= i < 64 ==> is_lower_hex(#[trigger] h@[i]),
{
    let d = sha256_digest(text);
    proof {
        lemma_hex_len(d@);
    }
    hex_string(&d)
}

} // verus!
