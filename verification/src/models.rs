//! Cipher type metadata.
//!
//! Human-facing classification tags for the cipher families: primary
//! and secondary types, the table or grid a cipher uses, its size, and
//! free-form notes. The metadata annotates presented results and never
//! takes part in scoring.

use vstd::prelude::*;

use crate::utils::str_eq;

verus! {

/// Metadata of one cipher family.
pub struct CipherType {
    /// Primary classifications, e.g. substitution or transposition.
    pub types: Vec<String>,
    /// Secondary classifications, e.g. polygraphic or polyalphabetic.
    pub subtypes: Vec<String>,
    /// Tertiary classifications.
    pub subtypes2: Vec<String>,
    /// Table or grid used by the cipher, e.g. a polybius square.
    pub table: Vec<String>,
    /// Size of the cipher's table or grid, e.g. `6x6` or `variable`.
    pub size: String,
    /// Additional notes about the cipher.
    pub notes: String,
}

/// The cipher type metadata, keyed by family name.
pub struct CipherTypes {
    /// The named metadata records, in load order.
    pub entries: Vec<(String, CipherType)>,
}

/// Index of the first metadata entry with the given name, or the
/// number of entries when the name is absent.
pub open spec fn spec_find_type(entries: Seq<(String, CipherType)>, name: Seq<char>) -> int
    decreases entries.len(),
{
    if entries.len() == 0 {
        0
    } else {
        let p = spec_find_type(entries.drop_last(), name);
        if p < entries.len() - 1 {
            p
        } else if entries.last().0@ == name {
            entries.len() - 1
        } else {
            entries.len() as int
        }
    }
}

/// `spec_find_type` is the least matching index, and the length
/// exactly when the name is absent.
pub proof fn lemma_spec_find_type_props(entries: Seq<(String, CipherType)>, name: Seq<char>)
    ensures
        0 <= spec_find_type(entries, name) <= entries.len(),
        spec_find_type(entries, name) < entries.len() ==> entries[spec_find_type(
            entries,
            name,
        )].0@ == name,
        forall|j: int|
            0 <= j < spec_find_type(entries, name) ==> (#[trigger] entries[j]).0@ != name,
        (exists|j: int| 0 <= j < entries.len() && (#[trigger] entries[j]).0@ == name)
            ==> spec_find_type(entries, name) < entries.len(),
    decreases entries.len(),
{
    if entries.len() > 0 {
        lemma_spec_find_type_props(entries.drop_last(), name);
        assert forall|j: int| 0 <= j < entries.len() - 1 implies entries.drop_last()[j]
            == entries[j] by {}
        if exists|j: int| 0 <= j < entries.len() && (#[trigger] entries[j]).0@ == name {
            let j = choose|j: int| 0 <= j < entries.len() && (#[trigger] entries[j]).0@ == name;
            if j < entries.len() - 1 {
                assert(entries.drop_last()[j].0@ == name);
            }
        }
    }
}

/// The primary type of the named cipher: the first `types` tag of its
/// first metadata entry, or `"unknown"` when the cipher has no entry or
/// its entry lists no primary type.
pub fn get_cipher_primary_type(cipher_types: &CipherTypes, cipher: &str) -> (r: String)
    ensures
        ({
            let entries = cipher_types.entries@;
            let at = spec_find_type(entries, cipher@);
            if at < entries.len() && entries[at].1.types@.len() > 0 {
                r@ == entries[at].1.types@[0]@
            } else {
                r@ == "unknown"@
            }
        }),
{
    let ghost entries = cipher_types.entries@;
    let n = cipher_types.entries.len();
    let mut i: usize = 0;
    while i < n
        invariant
            i <= n,
            n == entries.len(),
            entries == cipher_types.entries@,
            forall|j: int| 0 <= j < i ==> (#[trigger] entries[j]).0@ != cipher@,
        decreases n - i,
    {
        if str_eq(cipher_types.entries[i].0.as_str(), cipher) {
            proof {
                lemma_spec_find_type_props(entries, cipher@);
                assert(spec_find_type(entries, cipher@) <= i);
            }
            let record = &cipher_types.entries[i].1;
            if record.types.len() > 0 {
                return record.types[0].clone();
            }
            return "unknown".to_owned();
        }
        i = i + 1;
    }
    proof {
        lemma_spec_find_type_props(entries, cipher@);
        if spec_find_type(entries, cipher@) < n {
            assert(entries[spec_find_type(entries, cipher@)].0@ == cipher@);
        }
    }
    "unknown".to_owned()
}

} // verus!
