//! Encoding of raw text into the canonical 38-symbol numeric alphabet,
//! and small queries over encoded streams.
//!
//! The alphabet maps `A`-`Z` to `0`-`25`, `#` to `26` and `0`-`9` to
//! `27`-`36`. Letters are matched case-insensitively, the slashed-zero
//! glyph (`U+00D8` / `U+00F8`) is folded to the digit `0`, and every
//! other character is dropped.

use vstd::prelude::*;

verus! {

/// Alphabet index of one character, after case folding, or `None` for a
/// character outside the alphabet.
pub open spec fn sym_index(c: char) -> Option<usize> {
    let n = c as u32;
    if 65 <= n && n <= 90 {
        // 'A'..='Z'
        Some((n - 65) as usize)
    } else if 97 <= n && n <= 122 {
        // 'a'..='z'
        Some((n - 97) as usize)
    } else if n == 35 {
        // '#'
        Some(26usize)
    } else if 48 <= n && n <= 57 {
        // '0'..='9'
        Some((27 + (n - 48)) as usize)
    } else if n == 0xD8 || n == 0xF8 {
        // slashed zero, folded to '0'
        Some(27usize)
    } else {
        None
    }
}

/// The encoded stream of a character sequence: alphabet indices in input
/// order, with unrecognized characters dropped.
pub open spec fn encode_seq(s: Seq<char>) -> Seq<usize>
    decreases s.len(),
{
    if s.len() == 0 {
        Seq::empty()
    } else {
        match sym_index(s.last()) {
            Some(v) => encode_seq(s.drop_last()).push(v),
            None => encode_seq(s.drop_last()),
        }
    }
}

/// Every element of a well-formed encoded stream is an alphabet index.
pub open spec fn stream_ok(data: Seq<usize>) -> bool {
    forall|i: int| 0 <= i < data.len() ==> data[i] < 38
}

/// The encoded stream is never longer than the text, and all of its
/// elements lie below the alphabet size.
pub proof fn lemma_encode_seq_ok(s: Seq<char>)
    ensures
        encode_seq(s).len() <= s.len(),
        stream_ok(encode_seq(s)),
    decreases s.len(),
{
    if s.len() > 0 {
        lemma_encode_seq_ok(s.drop_last());
    }
}

/// Converts text to the vector of alphabet indices of its recognized
/// characters, in order: `A`-`Z` map to `0`-`25` (case-insensitively),
/// `#` maps to `26`, `0`-`9` map to `27`-`36`, the slashed-zero glyph is
/// folded to `0`, and every other character is dropped.
pub fn convert_string(text: &str) -> (r: Vec<usize>)
    ensures
        r@ == encode_seq(text@),
        stream_ok(r@),
        r@.len() <= text@.len(),
{
    let n = text.unicode_len();
    let mut out: Vec<usize> = Vec::new();
    let mut i: usize = 0;
    while i < n
        invariant
            i <= n,
            n == text@.len(),
            out@ == encode_seq(text@.take(i as int)),
            stream_ok(out@),
            out@.len() <= i,
        decreases n - i,
    {
        let c = text.get_char(i);
        let code = c as u32;
        proof {
            assert(text@.take(i + 1).drop_last() =~= text@.take(i as int));
            assert(text@.take(i + 1).last() == text@[i as int]);
        }
        if 65 <= code && code <= 90 {
            out.push((code - 65) as usize);
        } else if 97 <= code && code <= 122 {
            out.push((code - 97) as usize);
        } else if code == 35 {
            out.push(26);
        } else if 48 <= code && code <= 57 {
            out.push((27 + (code - 48)) as usize);
        } else if code == 0xD8 || code == 0xF8 {
            out.push(27);
        }
        i = i + 1;
    }
    proof {
        assert(text@.take(n as int) =~= text@);
    }
    out
}

/// Compares two string slices character by character.
pub fn str_eq(a: &str, b: &str) -> (r: bool)
    ensures
        r == (a@ == b@),
{
    let na = a.unicode_len();
    let nb = b.unicode_len();
    if na != nb {
        proof {
            assert(a@ != b@);
        }
        return false;
    }
    let mut i: usize = 0;
    while i < na
        invariant
            i <= na,
            na == a@.len(),
            na == b@.len(),
            forall|j: int| 0 <= j < i ==> a@[j] == b@[j],
        decreases na - i,
    {
        if a.get_char(i) != b.get_char(i) {
            return false;
        }
        i = i + 1;
    }
    proof {
        assert(a@ =~= b@);
    }
    true
}

/// Reports whether an encoded stream contains a digit symbol, that is an
/// index above `26`: the answer is `"Y"` exactly when one occurs, `"N"`
/// otherwise.
pub fn has_digits(data: &[usize]) -> (r: String)
    ensures
        r@ == "Y"@ <==> exists|i: int| 0 <= i < data@.len() && data@[i] > 26,
        r@ == "Y"@ || r@ == "N"@,
{
    proof {
        reveal_strlit("Y");
        reveal_strlit("N");
        assert("Y"@.len() == 1);
        assert("Y"@[0] == 'Y');
        assert("N"@[0] == 'N');
        assert("Y"@ != "N"@);
    }
    let n = data.len();
    let mut i: usize = 0;
    while i < n
        invariant
            i <= n,
            n == data@.len(),
            forall|j: int| 0 <= j < i ==> !(data@[j] > 26),
        decreases n - i,
    {
        if data[i] > 26 {
            return "Y".to_owned();
        }
        i = i + 1;
    }
    "N".to_owned()
}

/// Reports whether an encoded stream contains the hash symbol, index
/// `26`: the answer is `"Y"` exactly when one occurs, `"N"` otherwise.
pub fn has_hash(data: &[usize]) -> (r: String)
    ensures
        r@ == "Y"@ <==> exists|i: int| 0 <= i < data@.len() && data@[i] == 26,
        r@ == "Y"@ || r@ == "N"@,
{
    proof {
        reveal_strlit("Y");
        reveal_strlit("N");
        assert("Y"@.len() == 1);
        assert("Y"@[0] == 'Y');
        assert("N"@[0] == 'N');
        assert("Y"@ != "N"@);
    }
    let n = data.len();
    let mut i: usize = 0;
    while i < n
        invariant
            i <= n,
            n == data@.len(),
            forall|j: int| 0 <= j < i ==> data@[j] != 26,
        decreases n - i,
    {
        if data[i] == 26 {
            return "Y".to_owned();
        }
        i = i + 1;
    }
    "N".to_owned()
}

} // verus!
