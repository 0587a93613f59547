//! Text-level analysis helpers around the statistics suite.

use vstd::prelude::*;

verus! {

/// The analyzer: the entry point that computes basic statistics of a
/// ciphertext and identifies its likely cipher families.
pub struct CipherAnalyzer;

impl CipherAnalyzer {
    /// Creates a new analyzer.
    pub fn new() -> (r: Self) {
        CipherAnalyzer
    }

    /// The uppercase letters that do not occur in the text, in
    /// alphabetical order. Characters are compared as they are: a
    /// lowercase letter does not stand in for its uppercase form.
    pub fn find_missing_letters(&self, text: &str) -> (r: String)
        ensures
            r@ == "ABCDEFGHIJKLMNOPQRSTUVWXYZ"@.filter(
                |c: char| !text@.contains(c),
            ),
    {
        let alphabet = "ABCDEFGHIJKLMNOPQRSTUVWXYZ";
        proof {
            reveal_strlit("ABCDEFGHIJKLMNOPQRSTUVWXYZ");
            assert(alphabet@.len() == 26);
            assert(vstd::utf8::is_ascii_chars(alphabet@)) by {
                assert forall|i: int| 0 <= i < alphabet@.len() implies '\0' <= #[trigger] alphabet@[i]
                    <= '\u{7f}' by {
                    assert(alphabet@[i] == alphabet@.index(i));
                }
            }
        }
        let mut out = String::new();
        let mut l: usize = 0;
        while l < 26
            invariant
                l <= 26,
                alphabet@ == "ABCDEFGHIJKLMNOPQRSTUVWXYZ"@,
                alphabet@.len() == 26,
                vstd::utf8::is_ascii_chars(alphabet@),
                out@ == alphabet@.take(l as int).filter(|c: char| !text@.contains(c)),
            decreases 26 - l,
        {
            let c = alphabet.get_char(l);
            let present = contains_char(text, c);
            proof {
                assert(alphabet@.take(l + 1).drop_last() =~= alphabet@.take(l as int));
                assert(alphabet@.take(l + 1).last() == alphabet@[l as int]);
                reveal_with_fuel(Seq::filter, 2);
            }
            if !present {
                let piece = alphabet.substring_ascii(l, l + 1);
                out.append(piece);
                proof {
                    assert(out@ =~= alphabet@.take(l + 1).filter(
                        |c: char| !text@.contains(c),
                    ));
                }
            } else {
                proof {
                    assert(out@ =~= alphabet@.take(l + 1).filter(
                        |c: char| !text@.contains(c),
                    ));
                }
            }
            l = l + 1;
        }
        proof {
            assert(alphabet@.take(26) =~= alphabet@);
        }
        out
    }
}

/// Whether the character occurs in the text.
fn contains_char(text: &str, c: char) -> (r: bool)
    ensures
        r == text@.contains(c),
{
    let n = text.unicode_len();
    let mut i: usize = 0;
    while i < n
        invariant
            i <= n,
            n == text@.len(),
            forall|j: int| 0 <= j < i ==> text@[j] != c,
        decreases n - i,
    {
        if text.get_char(i) == c {
            proof {
                assert(text@.contains(c));
            }
            return true;
        }
        i = i + 1;
    }
    proof {
        if text@.contains(c) {
            let j = choose|j: int| 0 <= j < text@.len() && text@[j] == c;
        }
    }
    false
}

} // verus!
