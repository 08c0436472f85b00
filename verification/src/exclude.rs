//! The exclusion filter: decides from a filename alone whether an artifact
//! belongs to a package that the current project must not own.

use vstd::prelude::*;
use vstd::string::*;

verus! {

/// An exclusion prefix drops a filename only at a whole package-segment
/// boundary: the filename must begin with the prefix followed by a literal
/// dot, so a package named `cosmosx` is not dropped by a prefix `cosmos`.
pub open spec fn spec_prefix_excludes(prefix: Seq<char>, name: Seq<char>) -> bool {
    &&& prefix.len() + 1 <= name.len()
    &&& name.subrange(0, prefix.len() as int) == prefix
    &&& name[prefix.len() as int] == '.'
}

/// A filename is excluded when some prefix of the exclusion set matches it
/// at a package-segment boundary.
pub open spec fn spec_excluded(name: Seq<char>, exclusions: Seq<Seq<char>>) -> bool {
    exists|i: int| 0 <= i < exclusions.len() && spec_prefix_excludes(exclusions[i], name)
}

/// Whether `s` begins with `prefix`, compared character by character.
fn starts_with_chars(s: &str, prefix: &str) -> (r: bool)
    ensures
        r == (prefix@.len() <= s@.len() && s@.subrange(0, prefix@.len() as int) == prefix@),
{
    let n = prefix.unicode_len();
    if s.unicode_len() < n {
        return false;
    }
    let mut i: usize = 0;
    while i < n
        invariant
            n == prefix@.len(),
            n <= s@.len(),
            0 <= i <= n,
            forall|j: int| 0 <= j < i ==> s@[j] == prefix@[j],
        decreases n - i,
    {
        if s.get_char(i) != prefix.get_char(i) {
            assert(s@.subrange(0, n as int)[i as int] != prefix@[i as int]);
            return false;
        }
        i += 1;
    }
    assert(s@.subrange(0, n as int) =~= prefix@);
    true
}

/// The exclusion filter of the relocation step: `filename` is dropped
/// exactly when it starts with some exclusion prefix followed by a dot.
pub fn is_excluded(filename: &str, exclusions: &Vec<String>) -> (r: bool)
    ensures
        r == spec_excluded(filename@, exclusions.deep_view()),
{
    let flen = filename.unicode_len();
    let mut k: usize = 0;
    while k < exclusions.len()
        invariant
            0 <= k <= exclusions.len(),
            flen == filename@.len(),
            forall|i: int|
                0 <= i < k ==> !spec_prefix_excludes(exclusions.deep_view()[i], filename@),
        decreases exclusions.len() - k,
    {
        let p: &String = &exclusions[k];
        let plen = p.as_str().unicode_len();
        if plen < flen && starts_with_chars(filename, p.as_str()) && filename.get_char(plen)
            == '.' {
            assert(spec_prefix_excludes(exclusions.deep_view()[k as int], filename@));
            return true;
        }
        k += 1;
    }
    false
}

} // verus!
