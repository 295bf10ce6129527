use vstd::prelude::*;

verus! {

/// Whether `bytes` begins with `prefix`.
pub fn starts_with(bytes: &[u8], prefix: &[u8]) -> (yes: bool)
    ensures
        yes == prefix@.is_prefix_of(bytes@),
{
    if prefix.len() > bytes.len() {
        return false;
    }
    let mut i: usize = 0;
    while i < prefix.len()
        invariant
            i <= prefix@.len() <= bytes@.len(),
            forall|k: int| 0 <= k < i ==> bytes@[k] == prefix@[k],
        decreases prefix@.len() - i,
    {
        if bytes[i] != prefix[i] {
            return false;
        }
        i = i + 1;
    }
    assert(prefix@ =~= bytes@.subrange(0, prefix@.len() as int));
    true
}

/// Whether `left` and `right` hold the same bytes.
pub fn same_bytes(left: &[u8], right: &[u8]) -> (yes: bool)
    ensures
        yes == (left@ == right@),
{
    if left.len() != right.len() {
        return false;
    }
    let yes = starts_with(left, right);
    assert(yes ==> left@ =~= right@);
    yes
}

/// `byte` with an ASCII capital letter turned into its small letter; any
/// other byte as it is.
pub open spec fn ascii_lower(byte: u8) -> u8 {
    if 0x41 <= byte <= 0x5a {
        (byte + 0x20) as u8
    } else {
        byte
    }
}

/// Whether `needle` stands in `haystack` at position `at`, once the ASCII
/// capital letters of `haystack` are read as small letters. `needle` is
/// taken as it is.
pub open spec fn folds_to_at(haystack: Seq<u8>, at: int, needle: Seq<u8>) -> bool {
    &&& 0 <= at
    &&& at + needle.len() <= haystack.len()
    &&& forall|j: int| 0 <= j < needle.len() ==> ascii_lower(haystack[at + j]) == needle[j]
}

/// Whether `needle` stands somewhere in `haystack`, once the ASCII capital
/// letters of `haystack` are read as small letters.
pub open spec fn spec_contains_ignore_ascii_case(haystack: Seq<u8>, needle: Seq<u8>) -> bool {
    exists|at: int| folds_to_at(haystack, at, needle)
}

/// Turns an ASCII capital letter into its small letter.
pub fn to_ascii_lower(byte: u8) -> (lower: u8)
    ensures
        lower == ascii_lower(byte),
{
    if 0x41 <= byte && byte <= 0x5a {
        byte + 0x20
    } else {
        byte
    }
}

/// Whether `needle` stands in `haystack` at position `at`, without regard to
/// the case of the ASCII letters of `haystack`.
pub fn folds_to(haystack: &[u8], at: usize, needle: &[u8]) -> (yes: bool)
    ensures
        yes == folds_to_at(haystack@, at as int, needle@),
{
    if at > haystack.len() || needle.len() > haystack.len() - at {
        return false;
    }
    let mut j: usize = 0;
    while j < needle.len()
        invariant
            j <= needle@.len(),
            at + needle@.len() <= haystack@.len() <= usize::MAX,
            forall|k: int| 0 <= k < j ==> ascii_lower(haystack@[at + k]) == needle@[k],
        decreases needle@.len() - j,
    {
        if to_ascii_lower(haystack[at + j]) != needle[j] {
            return false;
        }
        j = j + 1;
    }
    true
}

/// Whether `needle` stands somewhere in `haystack`, without regard to the
/// case of the ASCII letters of `haystack`.
pub fn contains_ignore_ascii_case(haystack: &[u8], needle: &[u8]) -> (yes: bool)
    ensures
        yes == spec_contains_ignore_ascii_case(haystack@, needle@),
{
    if needle.len() > haystack.len() {
        return false;
    }
    let last = haystack.len() - needle.len();
    let mut at: usize = 0;
    loop
        invariant
            last == haystack@.len() - needle@.len(),
            at <= last,
            forall|k: int| 0 <= k < at ==> !folds_to_at(haystack@, k, needle@),
        decreases last - at,
    {
        if folds_to(haystack, at, needle) {
            return true;
        }
        if at == last {
            return false;
        }
        at = at + 1;
    }
}

} // verus!
