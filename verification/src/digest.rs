//! Content digests: SHA-256 of a file's bytes, written as lower-case hex.

use sha2::{Digest, Sha256};
use vstd::prelude::*;
use vstd::string::*;

verus! {

/// The SHA-256 digest of `data`, as the sha2 crate computes it. The algorithm
/// is not restated here: all that the library knows of it is that equal input
/// gives equal output, and that the output has 32 bytes.
pub uninterp spec fn sha256(data: Seq<u8>) -> Seq<u8>;

/// Calls `Sha256::digest` of the sha2 crate and copies the digest out. Trusted:
/// the result is the SHA-256 digest of `data`, 32 bytes long.
#[verifier::external_body]
fn sha256_digest(data: &[u8]) -> (out: Vec<u8>)
    ensures
        out@ == sha256(data@),
        out@.len() == 32,
{
    Sha256::digest(data).to_vec()
}

/// The lower-case hex digit for a value below 16.
pub open spec fn hex_digit(n: int) -> char {
    if n == 0 {
        '0'
    } else if n == 1 {
        '1'
    } else if n == 2 {
        '2'
    } else if n == 3 {
        '3'
    } else if n == 4 {
        '4'
    } else if n == 5 {
        '5'
    } else if n == 6 {
        '6'
    } else if n == 7 {
        '7'
    } else if n == 8 {
        '8'
    } else if n == 9 {
        '9'
    } else if n == 10 {
        'a'
    } else if n == 11 {
        'b'
    } else if n == 12 {
        'c'
    } else if n == 13 {
        'd'
    } else if n == 14 {
        'e'
    } else {
        'f'
    }
}

/// The lower-case hex form of `bytes`: two digits for each byte, the high half
/// first.
pub open spec fn hex_lower(bytes: Seq<u8>) -> Seq<char> {
    Seq::new(
        2 * bytes.len(),
        |i: int|
            if i % 2 == 0 {
                hex_digit(bytes[i / 2] as int / 16)
            } else {
                hex_digit(bytes[i / 2] as int % 16)
            },
    )
}

/// The one-character string that holds the hex digit of `n`.
fn hex_digit_str(n: u8) -> (s: &'static str)
    requires
        n < 16,
    ensures
        s@ == seq![hex_digit(n as int)],
{
    proof {
        reveal_strlit("0");
        reveal_strlit("1");
        reveal_strlit("2");
        reveal_strlit("3");
        reveal_strlit("4");
        reveal_strlit("5");
        reveal_strlit("6");
        reveal_strlit("7");
        reveal_strlit("8");
        reveal_strlit("9");
        reveal_strlit("a");
        reveal_strlit("b");
        reveal_strlit("c");
        reveal_strlit("d");
        reveal_strlit("e");
        reveal_strlit("f");
    }
    let s = if n == 0 {
        "0"
    } else if n == 1 {
        "1"
    } else if n == 2 {
        "2"
    } else if n == 3 {
        "3"
    } else if n == 4 {
        "4"
    } else if n == 5 {
        "5"
    } else if n == 6 {
        "6"
    } else if n == 7 {
        "7"
    } else if n == 8 {
        "8"
    } else if n == 9 {
        "9"
    } else if n == 10 {
        "a"
    } else if n == 11 {
        "b"
    } else if n == 12 {
        "c"
    } else if n == 13 {
        "d"
    } else if n == 14 {
        "e"
    } else {
        "f"
    };
    assert(s@ =~= seq![hex_digit(n as int)]);
    s
}

/// Writes `bytes` in lower-case hex.
pub fn to_hex(bytes: &[u8]) -> (hex: String)
    ensures
        hex@ == hex_lower(bytes@),
{
    let mut hex = String::new();
    let mut i: usize = 0;
    while i < bytes.len()
        invariant
            i <= bytes.len(),
            hex@ == hex_lower(bytes@.take(i as int)),
        decreases bytes.len() - i,
    {
        let b: u8 = bytes[i];
        let ghost before = hex@;
        hex.append(hex_digit_str(b / 16));
        hex.append(hex_digit_str(b % 16));
        assert(hex@ =~= hex_lower(bytes@.take(i + 1))) by {
            let next = bytes@.take(i + 1);
            assert(hex@ =~= before + seq![hex_digit(b as int / 16)] + seq![hex_digit(b as int % 16)]);
            assert forall|k: int| 0 <= k < 2 * (i + 1) implies hex@[k] == hex_lower(next)[k] by {
                if k < 2 * i {
                    assert(bytes@.take(i as int)[k / 2] == next[k / 2]);
                } else {
                    assert(next[k / 2] == b);
                }
            }
        }
        i = i + 1;
    }
    assert(bytes@.take(bytes.len() as int) =~= bytes@);
    hex
}

/// The digest by which two files are held to have the same content: the
/// SHA-256 digest of the content, in lower-case hex, 64 characters long.
pub fn file_hash(content: &[u8]) -> (digest: String)
    ensures
        digest@ == hex_lower(sha256(content@)),
        digest@.len() == 64,
{
    let raw = sha256_digest(content);
    to_hex(raw.as_slice())
}

} // verus!
