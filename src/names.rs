//! The order in which patch files are read: by file name, ignoring case, ties
//! kept in the order in which they were found.
use vstd::prelude::*;
use crate::chars::{chars_of, views};

verus! {

/// What `str::to_lowercase` gives.
pub uninterp spec fn lowered(s: Seq<char>) -> Seq<char>;

/// Relies on `str::to_lowercase`: the result depends on the characters alone.
#[verifier::external_body]
fn lowercase(s: &str) -> (r: String)
    ensures
        r@ == lowered(s@),
{
    s.to_lowercase()
}

/// Lexicographic order of character sequences.
pub open spec fn lex_lt(a: Seq<char>, b: Seq<char>) -> bool
    decreases a.len(),
{
    if a.len() == 0 {
        b.len() > 0
    } else if b.len() == 0 {
        false
    } else if a[0] != b[0] {
        a[0] < b[0]
    } else {
        lex_lt(a.drop_first(), b.drop_first())
    }
}

pub proof fn lemma_lex_total(a: Seq<char>, b: Seq<char>)
    ensures
        lex_lt(a, b) || lex_lt(b, a) || a == b,
        !(lex_lt(a, b) && lex_lt(b, a)),
    decreases a.len(),
{
    if a.len() > 0 && b.len() > 0 {
        if a[0] == b[0] {
            lemma_lex_total(a.drop_first(), b.drop_first());
            if a.drop_first() == b.drop_first() {
                assert(a =~= seq![a[0]] + a.drop_first());
                assert(b =~= seq![b[0]] + b.drop_first());
            }
        }
    } else if a.len() == 0 && b.len() == 0 {
        assert(a =~= b);
    }
}

pub proof fn lemma_lex_trans(a: Seq<char>, b: Seq<char>, c: Seq<char>)
    requires
        lex_lt(a, b),
        lex_lt(b, c),
    ensures
        lex_lt(a, c),
    decreases a.len(),
{
    if a.len() > 0 && b.len() > 0 && c.len() > 0 && a[0] == b[0] && b[0] == c[0] {
        lemma_lex_trans(a.drop_first(), b.drop_first(), c.drop_first());
    }
}

/// Key `a` sorts before key `b`, or they are equal and `i` came first.
pub open spec fn name_before(keys: Seq<Seq<char>>, i: int, j: int) -> bool {
    lex_lt(keys[i], keys[j]) || (keys[i] == keys[j] && i < j)
}

fn lex_less(a: &Vec<char>, b: &Vec<char>) -> (r: bool)
    ensures
        r == lex_lt(a@, b@),
{
    let mut i: usize = 0;
    assert(a@.skip(0) =~= a@ && b@.skip(0) =~= b@);
    while i < a.len() && i < b.len() && a[i] == b[i]
        invariant
            i <= a.len(),
            i <= b.len(),
            lex_lt(a@, b@) == lex_lt(a@.skip(i as int), b@.skip(i as int)),
        decreases a.len() - i,
    {
        assert(a@.skip(i as int).drop_first() =~= a@.skip(i + 1));
        assert(b@.skip(i as int).drop_first() =~= b@.skip(i + 1));
        i += 1;
    }
    if i == a.len() {
        i < b.len()
    } else if i == b.len() {
        false
    } else {
        a[i] < b[i]
    }
}

/// The order in which to read files with these names: by lowercased name, ties
/// in the given order.
pub fn name_order(names: &Vec<String>) -> (r: Vec<usize>)
    ensures
        r.len() == names.len(),
        forall|k: int| 0 <= k < r.len() ==> #[trigger] r[k] < names.len(),
        forall|k: int, l: int|
            0 <= k < l < r.len() ==> name_before(
                views(names@).map_values(|s: Seq<char>| lowered(s)),
                #[trigger] r[k] as int,
                #[trigger] r[l] as int,
            ),
{
    let ghost keys = views(names@).map_values(|s: Seq<char>| lowered(s));
    let mut low: Vec<Vec<char>> = Vec::new();
    let mut i: usize = 0;
    while i < names.len()
        invariant
            keys == views(names@).map_values(|s: Seq<char>| lowered(s)),
            i <= names.len(),
            low.len() == i,
            forall|k: int| 0 <= k < i ==> #[trigger] low[k]@ == keys[k],
        decreases names.len() - i,
    {
        let l = lowercase(names[i].as_str());
        low.push(chars_of(l.as_str()));
        i += 1;
    }
    let mut r: Vec<usize> = Vec::new();
    let mut j: usize = 0;
    while j < names.len()
        invariant
            keys == views(names@).map_values(|s: Seq<char>| lowered(s)),
            low.len() == names.len(),
            forall|k: int| 0 <= k < low.len() ==> #[trigger] low[k]@ == keys[k],
            j <= names.len(),
            r.len() == j,
            forall|k: int| 0 <= k < r.len() ==> #[trigger] r[k] < j,
            forall|k: int, l: int| 0 <= k < l < r.len() ==> name_before(keys, #[trigger] r[k] as int, #[trigger] r[l] as int),
        decreases names.len() - j,
    {
        let mut m = r.len();
        while m > 0 && lex_less(&low[j], &low[r[m - 1]])
            invariant
                m <= r.len(),
                r.len() == j,
                j < names.len(),
                low.len() == names.len(),
                forall|k: int| 0 <= k < low.len() ==> #[trigger] low[k]@ == keys[k],
                forall|k: int| 0 <= k < r.len() ==> #[trigger] r[k] < j,
                forall|k: int| m <= k < r.len() ==> lex_lt(keys[j as int], #[trigger] keys[r[k] as int]),
            decreases m,
        {
            m -= 1;
        }
        let ghost old_r = r@;
        proof {
            assert forall|k: int| 0 <= k < m implies name_before(keys, #[trigger] old_r[k] as int, j as int) by {
                let top = old_r[m - 1] as int;
                assert(!lex_lt(keys[j as int], keys[top]));
                lemma_lex_total(keys[j as int], keys[top]);
                if k < m - 1 {
                    assert(name_before(keys, old_r[k] as int, top));
                    if lex_lt(keys[old_r[k] as int], keys[top]) && lex_lt(keys[top], keys[j as int]) {
                        lemma_lex_trans(keys[old_r[k] as int], keys[top], keys[j as int]);
                    }
                }
            }
        }
        r.insert(m, j);
        proof {
            assert forall|k: int, l: int| 0 <= k < l < r.len() implies name_before(keys, #[trigger] r[k] as int, #[trigger] r[l] as int) by {
                if l < m {
                    assert(r[k] == old_r[k] && r[l] == old_r[l]);
                } else if l == m {
                    assert(r[k] == old_r[k]);
                } else if k < m {
                    assert(r[k] == old_r[k] && r[l] == old_r[l - 1]);
                    assert(name_before(keys, old_r[k] as int, j as int));
                    assert(lex_lt(keys[j as int], keys[old_r[l - 1] as int]));
                    if lex_lt(keys[old_r[k] as int], keys[j as int]) {
                        lemma_lex_trans(keys[old_r[k] as int], keys[j as int], keys[old_r[l - 1] as int]);
                    }
                } else if k == m {
                    assert(r[l] == old_r[l - 1]);
                } else {
                    assert(r[k] == old_r[k - 1] && r[l] == old_r[l - 1]);
                }
            }
            assert forall|k: int| 0 <= k < r.len() implies #[trigger] r[k] < j + 1 by {
                if k < m {
                    assert(r[k] == old_r[k]);
                } else if k > m {
                    assert(r[k] == old_r[k - 1]);
                }
            }
        }
        j += 1;
    }
    r
}

} // verus!
