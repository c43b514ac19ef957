//! SHA-256 digests and their lowercase hexadecimal text.

use sha2::Digest;
use sha2::Sha256;
use vstd::prelude::*;
use vstd::string::*;

verus! {

/// Number of hexadecimal characters in the text of a digest.
pub const DIGEST_HEX_LEN: usize = 64;

/// The SHA-256 digest of a byte string, as the `sha2` crate computes it.
pub uninterp spec fn sha256(data: Seq<u8>) -> Seq<u8>;

/// Calls `sha2::Sha256::digest` (the `digest::Digest` one-shot method) and
/// copies the output array into a vector. Trusted: the result is the SHA-256
/// digest of `data`, a function of `data` alone, and is 32 bytes long.
#[verifier::external_body]
pub(crate) fn sha256_bytes(data: &[u8]) -> (out: Vec<u8>)
    ensures
        out@ == sha256(data@),
        out@.len() == 32,
{
    Sha256::digest(data).to_vec()
}

/// The sixteen lowercase hexadecimal digits, in order of value.
pub open spec fn hex_alphabet() -> Seq<char> {
    seq!['0', '1', '2', '3', '4', '5', '6', '7', '8', '9', 'a', 'b', 'c', 'd', 'e', 'f']
}

/// Lowercase hexadecimal text of a byte string: two digits per byte, the high
/// nibble first.
pub open spec fn hex_text(bytes: Seq<u8>) -> Seq<char>
    decreases bytes.len(),
{
    if bytes.len() == 0 {
        Seq::<char>::empty()
    } else {
        hex_text(bytes.drop_last()).push(hex_alphabet()[(bytes.last() / 16) as int]).push(
            hex_alphabet()[(bytes.last() % 16) as int],
        )
    }
}

/// The text of a digest is made of the first `difficulty` characters `'0'`.
pub open spec fn has_zero_prefix(text: Seq<char>, difficulty: nat) -> bool {
    difficulty <= text.len() && forall|i: int| 0 <= i < difficulty ==> text[i] == '0'
}

/// Hexadecimal text is twice as long as the bytes.
pub proof fn lemma_hex_text_len(bytes: Seq<u8>)
    ensures
        hex_text(bytes).len() == 2 * bytes.len(),
    decreases bytes.len(),
{
    if bytes.len() > 0 {
        lemma_hex_text_len(bytes.drop_last());
    }
}

/// The value of a lowercase hexadecimal digit, and 0 for any other character.
pub open spec fn hex_value(c: char) -> int {
    if c == '1' {
        1
    } else if c == '2' {
        2
    } else if c == '3' {
        3
    } else if c == '4' {
        4
    } else if c == '5' {
        5
    } else if c == '6' {
        6
    } else if c == '7' {
        7
    } else if c == '8' {
        8
    } else if c == '9' {
        9
    } else if c == 'a' {
        10
    } else if c == 'b' {
        11
    } else if c == 'c' {
        12
    } else if c == 'd' {
        13
    } else if c == 'e' {
        14
    } else if c == 'f' {
        15
    } else {
        0
    }
}

/// Each hexadecimal digit has its place in the alphabet as its value.
pub proof fn lemma_hex_value(n: int)
    requires
        0 <= n < 16,
    ensures
        hex_value(hex_alphabet()[n]) == n,
{
    if n < 4 {
        assert(hex_alphabet()[0] == '0' && hex_alphabet()[1] == '1' && hex_alphabet()[2] == '2'
            && hex_alphabet()[3] == '3');
    } else if n < 8 {
        assert(hex_alphabet()[4] == '4' && hex_alphabet()[5] == '5' && hex_alphabet()[6] == '6'
            && hex_alphabet()[7] == '7');
    } else if n < 12 {
        assert(hex_alphabet()[8] == '8' && hex_alphabet()[9] == '9' && hex_alphabet()[10] == 'a'
            && hex_alphabet()[11] == 'b');
    } else {
        assert(hex_alphabet()[12] == 'c' && hex_alphabet()[13] == 'd' && hex_alphabet()[14]
            == 'e' && hex_alphabet()[15] == 'f');
    }
}

/// Byte strings with the same hexadecimal text are equal.
pub proof fn lemma_hex_text_injective(a: Seq<u8>, b: Seq<u8>)
    requires
        hex_text(a) == hex_text(b),
    ensures
        a == b,
    decreases a.len(),
{
    lemma_hex_text_len(a);
    lemma_hex_text_len(b);
    if a.len() > 0 {
        let ta = hex_text(a);
        let tb = hex_text(b);
        let n = ta.len();
        assert(ta.drop_last().drop_last() =~= hex_text(a.drop_last()));
        assert(tb.drop_last().drop_last() =~= hex_text(b.drop_last()));
        lemma_hex_text_injective(a.drop_last(), b.drop_last());
        assert(ta[n - 1] == hex_alphabet()[(a.last() % 16) as int]);
        assert(ta[n - 2] == hex_alphabet()[(a.last() / 16) as int]);
        assert(tb[n - 1] == hex_alphabet()[(b.last() % 16) as int]);
        assert(tb[n - 2] == hex_alphabet()[(b.last() / 16) as int]);
        lemma_hex_value((a.last() % 16) as int);
        lemma_hex_value((a.last() / 16) as int);
        lemma_hex_value((b.last() % 16) as int);
        lemma_hex_value((b.last() / 16) as int);
        assert(a.last() == b.last());
        assert(a =~= a.drop_last().push(a.last()));
        assert(b =~= b.drop_last().push(b.last()));
    } else {
        assert(a =~= b);
    }
}

fn hex_digit_text(n: u8) -> (s: &'static str)
    requires
        n < 16,
    ensures
        s@ == seq![hex_alphabet()[n as int]],
{
    let digits = "0123456789abcdef";
    proof {
        reveal_strlit("0123456789abcdef");
        assert(digits@ =~= hex_alphabet());
    }
    let s = digits.substring_ascii(n as usize, n as usize + 1);
    assert(s@ =~= seq![hex_alphabet()[n as int]]);
    s
}

/// Renders bytes as lowercase hexadecimal text.
pub fn to_hex(bytes: &[u8]) -> (text: String)
    ensures
        text@ == hex_text(bytes@),
{
    let mut text = String::new();
    let mut i: usize = 0;
    while i < bytes.len()
        invariant
            i <= bytes@.len(),
            text@ == hex_text(bytes@.take(i as int)),
        decreases bytes@.len() - i,
    {
        let b: u8 = bytes[i];
        proof {
            let next = bytes@.take(i + 1);
            assert(next.drop_last() =~= bytes@.take(i as int));
            assert(next.last() == b);
        }
        text.append(hex_digit_text(b / 16));
        text.append(hex_digit_text(b % 16));
        assert(text@ =~= hex_text(bytes@.take(i + 1)));
        i += 1;
    }
    assert(bytes@.take(i as int) =~= bytes@);
    text
}

/// Tells whether the first `difficulty` characters of `text` exist and are
/// all `'0'`.
pub fn starts_with_zeros(text: &str, difficulty: usize) -> (ok: bool)
    ensures
        ok == has_zero_prefix(text@, difficulty as nat),
{
    let n: usize = text.unicode_len();
    if difficulty > n {
        return false;
    }
    let mut i: usize = 0;
    while i < difficulty
        invariant
            i <= difficulty <= n,
            n == text@.len(),
            forall|k: int| 0 <= k < i ==> text@[k] == '0',
        decreases difficulty - i,
    {
        if text.get_char(i) != '0' {
            return false;
        }
        i += 1;
    }
    true
}

/// SHA-256 digest of `data` as 64 characters of lowercase hexadecimal.
pub fn sha256_hex(data: &[u8]) -> (text: String)
    ensures
        text@ == hex_text(sha256(data@)),
        text@.len() == DIGEST_HEX_LEN,
{
    let raw = sha256_bytes(data);
    proof {
        lemma_hex_text_len(raw@);
    }
    to_hex(raw.as_slice())
}

} // verus!
