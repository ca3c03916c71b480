use vstd::prelude::*;

verus! {

/// Whole-string wildcard matching: `?` stands for exactly one character, `*` for any
/// run of characters (possibly empty), and every other character for itself.
pub open spec fn glob_match(p: Seq<char>, s: Seq<char>) -> bool
    decreases p.len() + s.len(),
{
    if p.len() == 0 {
        s.len() == 0
    } else if p[0] == '*' {
        glob_match(p.drop_first(), s) || (s.len() > 0 && glob_match(p, s.drop_first()))
    } else {
        s.len() > 0 && (p[0] == '?' || p[0] == s[0]) && glob_match(p.drop_first(), s.drop_first())
    }
}

/// A target string is a glob target when it holds a wildcard character.
pub open spec fn is_glob(s: Seq<char>) -> bool {
    exists|i: int| 0 <= i < s.len() && (s[i] == '?' || s[i] == '*')
}

/// Relies on `wildmatch::WildMatch::matches`: the pattern must cover the whole input,
/// `?` matches one character, `*` any run of characters, others match themselves
/// (case-sensitive).
#[verifier::external_body]
pub(crate) fn wildcard_matches(pattern: &str, input: &str) -> (r: bool)
    ensures
        r == glob_match(pattern@, input@),
{
    wildmatch::WildMatch::new(pattern).matches(input)
}

/// Tells whether `s` holds a `?` or a `*`.
pub fn has_wildcard(s: &str) -> (r: bool)
    ensures
        r == is_glob(s@),
{
    let cs = crate::chars::chars_of(s);
    let mut i: usize = 0;
    while i < cs.len()
        invariant
            cs@ == s@,
            i <= cs.len(),
            forall|j: int| 0 <= j < i ==> cs@[j] != '?' && cs@[j] != '*',
        decreases cs.len() - i,
    {
        if cs[i] == '?' || cs[i] == '*' {
            return true;
        }
        i += 1;
    }
    false
}

} // verus!
