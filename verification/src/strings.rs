//! Byte-level facts about UTF-8 encoded text.
//!
//! Entity offsets in this crate are byte offsets into the UTF-8 encoding of
//! the flattened document text, never codepoint counts.  This module states
//! that measure ([`byte_len`]) and the lemmas the rest of the crate needs to
//! track it across concatenation, together with a verified string equality
//! test that works byte by byte.

use vstd::prelude::*;
use vstd::utf8::decode_utf8;
use vstd::utf8::encode_utf8;
use vstd::utf8::encode_utf8_decode_utf8;

verus! {

/// Number of bytes in the UTF-8 encoding of a character sequence.
pub open spec fn byte_len(s: Seq<char>) -> nat {
    encode_utf8(s).len()
}

/// UTF-8 encoding distributes over concatenation of character sequences.
pub proof fn lemma_encode_utf8_concat(a: Seq<char>, b: Seq<char>)
    ensures
        encode_utf8(a + b) == encode_utf8(a) + encode_utf8(b),
    decreases a.len(),
{
    if a.len() == 0 {
        assert(a + b =~= b);
        assert(encode_utf8(a) + encode_utf8(b) =~= encode_utf8(b));
    } else {
        assert((a + b)[0] == a[0]);
        assert((a + b).drop_first() =~= a.drop_first() + b);
        lemma_encode_utf8_concat(a.drop_first(), b);
        assert(encode_utf8(a + b) =~= encode_utf8(a) + encode_utf8(b));
    }
}

/// Byte length distributes over concatenation.
pub proof fn lemma_byte_len_concat(a: Seq<char>, b: Seq<char>)
    ensures
        byte_len(a + b) == byte_len(a) + byte_len(b),
{
    lemma_encode_utf8_concat(a, b);
}

/// A single character in the ASCII range encodes to exactly one byte.
pub proof fn lemma_ascii_singleton_byte_len(c: char)
    requires
        c as u32 <= 0x7f,
    ensures
        byte_len(seq![c]) == 1,
{
    let s = seq![c];
    assert(s.len() == 1);
    assert(s[0] == c);
    assert(s.drop_first() =~= Seq::<char>::empty());
    assert(encode_utf8(s.drop_first()).len() == 0);
    assert(vstd::utf8::encode_scalar(c as u32).len() == 1);
}

/// Two character sequences with equal UTF-8 encodings are equal.
pub proof fn lemma_encode_utf8_injective(a: Seq<char>, b: Seq<char>)
    requires
        encode_utf8(a) == encode_utf8(b),
    ensures
        a == b,
{
    encode_utf8_decode_utf8(a);
    encode_utf8_decode_utf8(b);
    assert(a == decode_utf8(encode_utf8(a)));
}

/// Byte length of a string slice, tied exactly to the mathematical measure.
pub fn str_byte_len(s: &str) -> (l: usize)
    ensures
        l == byte_len(s@),
{
    s.as_bytes().len()
}

/// Verified string equality: compares the UTF-8 bytes of both strings.
pub fn str_eq(a: &str, b: &str) -> (r: bool)
    ensures
        r == (a@ == b@),
{
    let ab = a.as_bytes();
    let bb = b.as_bytes();
    if ab.len() != bb.len() {
        proof {
            if a@ == b@ {
                assert(encode_utf8(a@) == encode_utf8(b@));
            }
        }
        return false;
    }
    let n = ab.len();
    let mut i: usize = 0;
    while i < n
        invariant
            i <= n,
            n == ab@.len(),
            n == bb@.len(),
            ab@ == encode_utf8(a@),
            bb@ == encode_utf8(b@),
            forall|k: int| 0 <= k < i ==> ab@[k] == bb@[k],
        decreases n - i,
    {
        if ab[i] != bb[i] {
            proof {
                if a@ == b@ {
                    assert(encode_utf8(a@) == encode_utf8(b@));
                    assert(ab@[i as int] == bb@[i as int]);
                }
            }
            return false;
        }
        i += 1;
    }
    proof {
        assert(ab@ =~= bb@);
        lemma_encode_utf8_injective(a@, b@);
    }
    true
}

} // verus!
