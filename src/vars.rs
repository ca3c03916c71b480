//! Variables that patch files bind, and their interpolation into patched text:
//! each `{{lovely:NAME}}` becomes the value bound to `NAME`.
use vstd::prelude::*;
use crate::chars::{chars_of, same_text, string_of};

verus! {

/// Name to value bindings; a later binding of a name hides an earlier one.
#[derive(Debug)]
pub struct VarTable {
    pub entries: Vec<(String, String)>,
}

/// The value bound to `k` in `s`: that of its last binding.
pub open spec fn value_of(s: Seq<(String, String)>, k: Seq<char>) -> Option<Seq<char>>
    decreases s.len(),
{
    if s.len() == 0 {
        None
    } else if s.last().0@ == k {
        Some(s.last().1@)
    } else {
        value_of(s.drop_last(), k)
    }
}

impl VarTable {
    pub open spec fn lookup(&self, k: Seq<char>) -> Option<Seq<char>> {
        value_of(self.entries@, k)
    }

    pub fn new() -> (r: Self)
        ensures
            forall|k: Seq<char>| #[trigger] r.lookup(k) == None::<Seq<char>>,
    {
        VarTable { entries: Vec::new() }
    }

    /// The value bound to `k`, if any.
    pub fn get(&self, k: &str) -> (r: Option<String>)
        ensures
            r.is_some() == self.lookup(k@).is_some(),
            r.is_some() ==> r.unwrap()@ == self.lookup(k@).unwrap(),
    {
        let mut i = self.entries.len();
        assert(self.entries@.take(i as int) =~= self.entries@);
        while i > 0
            invariant
                i <= self.entries.len(),
                value_of(self.entries@, k@) == value_of(self.entries@.take(i as int), k@),
            decreases i,
        {
            proof {
                assert(self.entries@.take(i as int).drop_last() =~= self.entries@.take(i - 1));
            }
            if same_text(self.entries[i - 1].0.as_str(), k) {
                return Some(self.entries[i - 1].1.clone());
            }
            i -= 1;
        }
        None
    }

    /// Binds `k` to `v`, hiding any earlier binding of `k`.
    pub fn set(&mut self, k: String, v: String)
        ensures
            final(self).lookup(k@) == Some(v@),
            forall|j: Seq<char>| j != k@ ==> #[trigger] final(self).lookup(j) == old(self).lookup(j),
    {
        let ghost before = self.entries@;
        self.entries.push((k, v));
        proof {
            assert(self.entries@.drop_last() =~= before);
        }
    }

    /// Drops every binding of `k`, returning the value it had.
    pub fn remove(&mut self, k: &str) -> (r: Option<String>)
        ensures
            final(self).lookup(k@) == None::<Seq<char>>,
            forall|j: Seq<char>| j != k@ ==> #[trigger] final(self).lookup(j) == old(self).lookup(j),
            r.is_some() == old(self).lookup(k@).is_some(),
            r.is_some() ==> r.unwrap()@ == old(self).lookup(k@).unwrap(),
    {
        let r = self.get(k);
        let ghost all = self.entries@;
        let mut kept: Vec<(String, String)> = Vec::new();
        let mut i: usize = 0;
        while i < self.entries.len()
            invariant
                all == self.entries@,
                i <= all.len(),
                value_of(kept@, k@) == None::<Seq<char>>,
                forall|j: Seq<char>| j != k@ ==> #[trigger] value_of(kept@, j) == value_of(all.take(i as int), j),
            decreases all.len() - i,
        {
            let ghost prev = kept@;
            proof {
                assert(all.take(i + 1).drop_last() =~= all.take(i as int));
            }
            if !same_text(self.entries[i].0.as_str(), k) {
                let e = (self.entries[i].0.clone(), self.entries[i].1.clone());
                kept.push(e);
                proof {
                    assert(kept@.drop_last() =~= prev);
                    assert(all.take(i + 1).last() == all[i as int]);
                    assert forall|j: Seq<char>| j != k@ implies #[trigger] value_of(kept@, j) == value_of(
                        all.take(i + 1),
                        j,
                    ) by {
                        assert(value_of(prev, j) == value_of(all.take(i as int), j));
                        assert(kept@.last().0 == all[i as int].0);
                        assert(kept@.last().1 == all[i as int].1);
                    }
                }
            } else {
                proof {
                    assert(all.take(i + 1).last() == all[i as int]);
                    assert forall|j: Seq<char>| j != k@ implies #[trigger] value_of(kept@, j) == value_of(
                        all.take(i + 1),
                        j,
                    ) by {}
                }
            }
            i += 1;
        }
        proof {
            assert(all.take(i as int) =~= all);
        }
        self.entries = kept;
        r
    }

    /// Adds the bindings of `other` after those of `self`, so that they win.
    pub fn extend(&mut self, other: &VarTable)
        ensures
            forall|j: Seq<char>| #[trigger] final(self).lookup(j) == match other.lookup(j) {
                Some(v) => Some(v),
                None => old(self).lookup(j),
            },
    {
        let ghost start = self.entries@;
        let mut i: usize = 0;
        while i < other.entries.len()
            invariant
                i <= other.entries.len(),
                forall|j: Seq<char>| #[trigger] value_of(self.entries@, j) == match value_of(other.entries@.take(i as int), j) {
                    Some(v) => Some(v),
                    None => value_of(start, j),
                },
            decreases other.entries.len() - i,
        {
            let ghost prev = self.entries@;
            let e = (other.entries[i].0.clone(), other.entries[i].1.clone());
            self.entries.push(e);
            proof {
                assert(self.entries@.drop_last() =~= prev);
                assert(other.entries@.take(i + 1).drop_last() =~= other.entries@.take(i as int));
                assert(other.entries@.take(i + 1).last() == other.entries@[i as int]);
                assert forall|j: Seq<char>| #[trigger] value_of(self.entries@, j) == match value_of(
                    other.entries@.take(i + 1),
                    j,
                ) {
                    Some(v) => Some(v),
                    None => value_of(start, j),
                } by {
                    assert(value_of(prev, j) == match value_of(other.entries@.take(i as int), j) {
                        Some(v) => Some(v),
                        None => value_of(start, j),
                    });
                    assert(self.entries@.last() == other.entries@[i as int]);
                }
            }
            i += 1;
        }
        proof {
            assert(other.entries@.take(i as int) =~= other.entries@);
        }
    }
}

/// Characters allowed in a variable name: ASCII letters, digits and `_`.
pub open spec fn is_word(c: char) -> bool {
    ('a' <= c <= 'z') || ('A' <= c <= 'Z') || ('0' <= c <= '9') || c == '_'
}

/// Length of the run of name characters of `s` from `i` on.
pub open spec fn word_run(s: Seq<char>, i: int) -> nat
    decreases s.len() - i,
{
    if 0 <= i < s.len() && is_word(s[i]) {
        1 + word_run(s, i + 1)
    } else {
        0
    }
}

/// The text that opens a variable reference.
pub open spec fn opener() -> Seq<char> {
    seq!['{', '{', 'l', 'o', 'v', 'e', 'l', 'y', ':']
}

/// Whether a reference `{{lovely:NAME}}` starts at `i`.
pub open spec fn token_at(s: Seq<char>, i: int) -> bool {
    let w = word_run(s, i + 9);
    &&& 0 <= i
    &&& i + 9 <= s.len()
    &&& s.subrange(i, i + 9) == opener()
    &&& w >= 1
    &&& i + 9 + w + 2 <= s.len()
    &&& s[i + 9 + w] == '}'
    &&& s[i + 9 + w + 1] == '}'
}

/// `s` from `i` on with each reference replaced by its value, left to right and
/// without rescanning what was put in; `None` when a referenced name is unbound.
pub open spec fn interp_from(s: Seq<char>, vars: VarTable, i: int) -> Option<Seq<char>>
    decreases s.len() - i,
{
    if i < 0 || i >= s.len() {
        Some(seq![])
    } else if token_at(s, i) {
        let w = word_run(s, i + 9);
        match vars.lookup(s.subrange(i + 9, i + 9 + w)) {
            None => None,
            Some(v) => match interp_from(s, vars, i + 9 + w + 2) {
                None => None,
                Some(r) => Some(v + r),
            },
        }
    } else {
        match interp_from(s, vars, i + 1) {
            None => None,
            Some(r) => Some(seq![s[i]] + r),
        }
    }
}

/// `s` with every reference replaced, or `None` when one names an unbound variable.
pub open spec fn interpolated(s: Seq<char>, vars: VarTable) -> Option<Seq<char>> {
    interp_from(s, vars, 0)
}

/// Text without any `{{lovely:NAME}}` reference is left as it is, whatever the
/// variables; so rewriting it again changes nothing either.
pub proof fn lemma_plain_text_is_fixed(s: Seq<char>, vars: VarTable)
    requires
        forall|i: int| 0 <= i < s.len() ==> !#[trigger] token_at(s, i),
    ensures
        interpolated(s, vars) == Some(s),
{
    lemma_plain_from(s, vars, 0);
    assert(s.subrange(0, s.len() as int) =~= s);
}

proof fn lemma_plain_from(s: Seq<char>, vars: VarTable, i: int)
    requires
        forall|j: int| 0 <= j < s.len() ==> !#[trigger] token_at(s, j),
        0 <= i <= s.len(),
    ensures
        interp_from(s, vars, i) == Some(s.subrange(i, s.len() as int)),
    decreases s.len() - i,
{
    if i < s.len() {
        lemma_plain_from(s, vars, i + 1);
        assert(seq![s[i]] + s.subrange(i + 1, s.len() as int) =~= s.subrange(i, s.len() as int));
    } else {
        assert(s.subrange(i, s.len() as int) =~= Seq::<char>::empty());
    }
}

fn is_word_char(c: char) -> (r: bool)
    ensures
        r == is_word(c),
{
    ('a' <= c && c <= 'z') || ('A' <= c && c <= 'Z') || ('0' <= c && c <= '9') || c == '_'
}

fn word_end(s: &Vec<char>, from: usize) -> (r: usize)
    requires
        from <= s.len(),
    ensures
        r == from + word_run(s@, from as int),
        r <= s.len(),
{
    let mut j = from;
    while j < s.len() && is_word_char(s[j])
        invariant
            from <= j <= s.len(),
            word_run(s@, from as int) == (j - from) + word_run(s@, j as int),
        decreases s.len() - j,
    {
        j += 1;
    }
    j
}

/// Where the reference that starts at `i` ends, if one does.
fn token_end(s: &Vec<char>, i: usize) -> (r: Option<usize>)
    requires
        i < s.len(),
    ensures
        r.is_some() == token_at(s@, i as int),
        r.is_some() ==> r.unwrap() == i + 9 + word_run(s@, i + 9),
{
    if s.len() - i < 9 {
        return None;
    }
    let open = s[i] == '{' && s[i + 1] == '{' && s[i + 2] == 'l' && s[i + 3] == 'o' && s[i + 4]
        == 'v' && s[i + 5] == 'e' && s[i + 6] == 'l' && s[i + 7] == 'y' && s[i + 8] == ':';
    proof {
        if open {
            assert(s@.subrange(i as int, i + 9) =~= opener());
        } else {
            if s@.subrange(i as int, i + 9) == opener() {
                assert(s@.subrange(i as int, i + 9)[0] == s@[i as int]);
                assert(s@.subrange(i as int, i + 9)[1] == s@[i + 1]);
                assert(s@.subrange(i as int, i + 9)[2] == s@[i + 2]);
                assert(s@.subrange(i as int, i + 9)[3] == s@[i + 3]);
                assert(s@.subrange(i as int, i + 9)[4] == s@[i + 4]);
                assert(s@.subrange(i as int, i + 9)[5] == s@[i + 5]);
                assert(s@.subrange(i as int, i + 9)[6] == s@[i + 6]);
                assert(s@.subrange(i as int, i + 9)[7] == s@[i + 7]);
                assert(s@.subrange(i as int, i + 9)[8] == s@[i + 8]);
            }
        }
    }
    if !open {
        return None;
    }
    let e = word_end(s, i + 9);
    if e == i + 9 || s.len() - e < 2 {
        return None;
    }
    if s[e] == '}' && s[e + 1] == '}' {
        Some(e)
    } else {
        None
    }
}

/// `line` with every `{{lovely:NAME}}` replaced by the value of `NAME`; an
/// unbound name is an error that carries it.
pub fn interpolate(line: &str, vars: &VarTable) -> (r: Result<String, String>)
    ensures
        r.is_ok() == interpolated(line@, *vars).is_some(),
        r.is_ok() ==> r.unwrap()@ == interpolated(line@, *vars).unwrap(),
        r.is_err() ==> vars.lookup(r->Err_0@).is_none(),
{
    let s = chars_of(line);
    let mut out: Vec<char> = Vec::new();
    let mut i: usize = 0;
    while i < s.len()
        invariant
            s@ == line@,
            i <= s.len(),
            interpolated(line@, *vars) == match interp_from(s@, *vars, i as int) {
                None => None,
                Some(rest) => Some(out@ + rest),
            },
        decreases s.len() - i,
    {
        let ghost before = out@;
        match token_end(&s, i) {
            Some(e) => {
                let mut name: Vec<char> = Vec::new();
                let mut j = i + 9;
                while j < e
                    invariant
                        i + 9 <= j <= e <= s.len(),
                        name@ == s@.subrange(i + 9, j as int),
                    decreases e - j,
                {
                    name.push(s[j]);
                    j += 1;
                }
                let key = string_of(name.as_slice());
                match vars.get(key.as_str()) {
                    None => {
                        return Err(key);
                    },
                    Some(v) => {
                        let vs = chars_of(v.as_str());
                        let mut k: usize = 0;
                        while k < vs.len()
                            invariant
                                k <= vs.len(),
                                out@ == before + vs@.take(k as int),
                            decreases vs.len() - k,
                        {
                            out.push(vs[k]);
                            proof {
                                assert(vs@.take(k + 1) =~= vs@.take(k as int).push(vs@[k as int]));
                            }
                            k += 1;
                        }
                        proof {
                            assert(vs@.take(k as int) =~= vs@);
                            match interp_from(s@, *vars, e + 2) {
                                None => {},
                                Some(rest) => {
                                    assert(before + (vs@ + rest) =~= out@ + rest);
                                },
                            }
                        }
                        i = e + 2;
                    },
                }
            },
            None => {
                out.push(s[i]);
                proof {
                    match interp_from(s@, *vars, i + 1) {
                        None => {},
                        Some(rest) => {
                            assert(before + (seq![s@[i as int]] + rest) =~= out@ + rest);
                        },
                    }
                }
                i += 1;
            },
        }
    }
    proof {
        assert(out@ + Seq::<char>::empty() =~= out@);
    }
    Ok(string_of(out.as_slice()))
}

/// Apply valid var interpolations to the provided line. Every name that the
/// line refers to must be bound (`interpolate` tells, and names the first that
/// is not).
pub fn apply_var_interp(line: &mut String, vars: &VarTable)
    requires
        interpolated(old(line)@, *vars) is Some,
    ensures
        final(line)@ == interpolated(old(line)@, *vars).unwrap(),
{
    match interpolate(line.as_str(), vars) {
        Ok(t) => {
            *line = t;
        },
        Err(_) => {},
    }
}

} // verus!
