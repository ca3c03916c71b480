//! The patch model: targets, positions and the four kinds of patch.
use vstd::prelude::*;
use crate::chars::{same_text, views};
use crate::glob::{glob_match, has_wildcard, is_glob, wildcard_matches};

verus! {

pub type Priority = i32;

/// The chunk names that a patch applies to: one name or a list of them. A name
/// with `?` or `*` is matched as a wildcard pattern, any other name exactly.
#[derive(Debug)]
pub enum Target {
    Single(String),
    Multi(Vec<String>),
}

/// Whether name `n` of a target matches chunk name `t`.
pub open spec fn name_matches(n: Seq<char>, t: Seq<char>) -> bool {
    n == t || (is_glob(n) && glob_match(n, t))
}

impl Target {
    /// The names of this target, in order.
    pub open spec fn names(&self) -> Seq<Seq<char>> {
        match self {
            Target::Single(s) => seq![s@],
            Target::Multi(v) => views(v@),
        }
    }

    /// Whether this target covers chunk name `t`.
    pub open spec fn covers(&self, t: Seq<char>) -> bool {
        exists|i: int| 0 <= i < self.names().len() && name_matches(#[trigger] self.names()[i], t)
    }

    pub fn can_apply(&self, target: &str) -> (r: bool)
        ensures
            r == self.covers(target@),
    {
        match self {
            Target::Single(s) => {
                let r = name_applies(s.as_str(), target);
                proof {
                    if r {
                        assert(name_matches(self.names()[0], target@));
                    }
                }
                r
            },
            Target::Multi(v) => {
                let mut i: usize = 0;
                while i < v.len()
                    invariant
                        *self == Target::Multi(*v),
                        i <= v.len(),
                        forall|j: int| 0 <= j < i ==> !name_matches(#[trigger] self.names()[j], target@),
                    decreases v.len() - i,
                {
                    if name_applies(v[i].as_str(), target) {
                        assert(name_matches(self.names()[i as int], target@));
                        return true;
                    }
                    i += 1;
                }
                false
            },
        }
    }

    /// Records this target's names in `targets`: exact names in its exact set,
    /// wildcard names in its list of patterns.
    pub fn insert_into(&self, targets: &mut TargetIndex)
        requires
            old(targets).wf(),
        ensures
            final(targets).wf(),
            final(targets).exact_names() == old(targets).exact_names().union(
                self.names().to_set().filter(|n: Seq<char>| !is_glob(n)),
            ),
            final(targets).glob_names() == old(targets).glob_names().union(
                self.names().to_set().filter(|n: Seq<char>| is_glob(n)),
            ),
    {
        match self {
            Target::Single(s) => {
                targets.add(s);
                proof {
                    lemma_push_to_set(Seq::empty(), s@);
                    assert(Seq::<Seq<char>>::empty().to_set() =~= Set::empty());
                    assert(Seq::<Seq<char>>::empty().push(s@) =~= self.names());
                    assert(self.names().to_set() =~= set![s@]);
                    assert(set![s@].filter(|n: Seq<char>| !is_glob(n)) =~= if !is_glob(s@) {
                        set![s@]
                    } else {
                        Set::empty()
                    });
                    assert(set![s@].filter(|n: Seq<char>| is_glob(n)) =~= if is_glob(s@) {
                        set![s@]
                    } else {
                        Set::empty()
                    });
                }
                assert(final(targets).exact_names() =~= old(targets).exact_names().union(
                    self.names().to_set().filter(|n: Seq<char>| !is_glob(n)),
                ));
                assert(final(targets).glob_names() =~= old(targets).glob_names().union(
                    self.names().to_set().filter(|n: Seq<char>| is_glob(n)),
                ));
            },
            Target::Multi(v) => {
                let ghost names = self.names();
                let mut i: usize = 0;
                while i < v.len()
                    invariant
                        *self == Target::Multi(*v),
                        names == self.names(),
                        names.len() == v.len(),
                        i <= v.len(),
                        targets.wf(),
                        targets.exact_names() == old(targets).exact_names().union(
                            names.take(i as int).to_set().filter(|n: Seq<char>| !is_glob(n)),
                        ),
                        targets.glob_names() == old(targets).glob_names().union(
                            names.take(i as int).to_set().filter(|n: Seq<char>| is_glob(n)),
                        ),
                    decreases v.len() - i,
                {
                    targets.add(&v[i]);
                    proof {
                        assert(names.take(i + 1) =~= names.take(i as int).push(v[i as int]@));
                        lemma_push_to_set(names.take(i as int), v[i as int]@);
                    }
                    assert(targets.exact_names() =~= old(targets).exact_names().union(
                        names.take(i + 1).to_set().filter(|n: Seq<char>| !is_glob(n)),
                    ));
                    assert(targets.glob_names() =~= old(targets).glob_names().union(
                        names.take(i + 1).to_set().filter(|n: Seq<char>| is_glob(n)),
                    ));
                    i += 1;
                }
                assert(names.take(i as int) =~= names);
            },
        }
    }
}

proof fn lemma_push_to_set(s: Seq<Seq<char>>, x: Seq<char>)
    ensures
        s.push(x).to_set() =~= s.to_set().insert(x),
{
    assert forall|a: Seq<char>| s.push(x).to_set().contains(a) <==> s.to_set().insert(x).contains(a) by {
        if s.push(x).contains(a) {
            let i = choose|i: int| 0 <= i < s.len() + 1 && s.push(x)[i] == a;
            if i < s.len() {
                assert(s[i] == a);
                assert(s.contains(a));
            }
        }
        if s.contains(a) {
            let i = choose|i: int| 0 <= i < s.len() && s[i] == a;
            assert(s.push(x)[i] == a);
        }
        if a == x {
            assert(s.push(x)[s.len() as int] == x);
        }
    }
}

pub proof fn lemma_single_to_set(x: Seq<char>)
    ensures
        seq![x].to_set() =~= set![x],
{
    lemma_push_to_set(Seq::empty(), x);
    assert(Seq::<Seq<char>>::empty().to_set() =~= Set::empty());
    assert(Seq::<Seq<char>>::empty().push(x) =~= seq![x]);
}

fn name_applies(name: &str, target: &str) -> (r: bool)
    ensures
        r == name_matches(name@, target@),
{
    if same_text(name, target) {
        true
    } else if has_wildcard(name) {
        wildcard_matches(name, target)
    } else {
        false
    }
}

/// The lookup index of all targets: a set of exact names and a list of wildcard
/// patterns.
#[derive(Debug)]
pub struct TargetIndex {
    pub exact: Vec<String>,
    pub globs: Vec<String>,
}

impl TargetIndex {
    /// No wildcard name sits among the exact names, and the list of patterns holds
    /// wildcard names only.
    pub open spec fn wf(&self) -> bool {
        &&& forall|i: int| 0 <= i < self.exact.len() ==> !is_glob(#[trigger] self.exact[i]@)
        &&& forall|i: int| 0 <= i < self.globs.len() ==> is_glob(#[trigger] self.globs[i]@)
    }

    pub open spec fn exact_names(&self) -> Set<Seq<char>> {
        views(self.exact@).to_set()
    }

    pub open spec fn glob_names(&self) -> Set<Seq<char>> {
        views(self.globs@).to_set()
    }

    pub fn new() -> (r: Self)
        ensures
            r.wf(),
            r.exact_names() == Set::<Seq<char>>::empty(),
            r.glob_names() == Set::<Seq<char>>::empty(),
    {
        let r = TargetIndex { exact: Vec::new(), globs: Vec::new() };
        assert(r.exact_names() =~= Set::<Seq<char>>::empty());
        assert(r.glob_names() =~= Set::<Seq<char>>::empty());
        r
    }

    fn find(v: &Vec<String>, name: &str) -> (r: bool)
        ensures
            r == views(v@).to_set().contains(name@),
    {
        let mut i: usize = 0;
        while i < v.len()
            invariant
                i <= v.len(),
                forall|j: int| 0 <= j < i ==> v[j]@ != name@,
            decreases v.len() - i,
        {
            if same_text(v[i].as_str(), name) {
                assert(views(v@)[i as int] == name@);
                return true;
            }
            i += 1;
        }
        proof {
            if views(v@).to_set().contains(name@) {
                let j = choose|j: int|
                    0 <= j < v@.len() && #[trigger] views(v@)[j] == name@;
                assert(v[j]@ == name@);
            }
        }
        false
    }

    /// Adds one name where it belongs.
    pub fn add(&mut self, name: &String)
        requires
            old(self).wf(),
        ensures
            final(self).wf(),
            final(self).exact_names() == if !is_glob(name@) {
                old(self).exact_names().insert(name@)
            } else {
                old(self).exact_names()
            },
            final(self).glob_names() == if is_glob(name@) {
                old(self).glob_names().insert(name@)
            } else {
                old(self).glob_names()
            },
    {
        if has_wildcard(name.as_str()) {
            if !Self::find(&self.globs, name.as_str()) {
                let ghost before = views(self.globs@);
                self.globs.push(name.clone());
                assert(views(self.globs@) =~= before.push(name@));
                proof {
                    lemma_push_to_set(before, name@);
                }
                assert(self.glob_names() =~= old(self).glob_names().insert(name@));
            } else {
                assert(self.glob_names() =~= old(self).glob_names().insert(name@));
            }
        } else {
            if !Self::find(&self.exact, name.as_str()) {
                let ghost before = views(self.exact@);
                self.exact.push(name.clone());
                assert(views(self.exact@) =~= before.push(name@));
                proof {
                    lemma_push_to_set(before, name@);
                }
                assert(self.exact_names() =~= old(self).exact_names().insert(name@));
            } else {
                assert(self.exact_names() =~= old(self).exact_names().insert(name@));
            }
        }
    }

    /// Whether a chunk name (already stripped of any leading `@`) is a target.
    pub open spec fn matches(&self, t: Seq<char>) -> bool {
        self.exact_names().contains(t) || exists|g: Seq<char>|
            #[trigger] self.glob_names().contains(g) && glob_match(g, t)
    }

    /// A name that is not itself an exact target, and that no wildcard pattern
    /// covers, is not a target: lookup compares exact names character for
    /// character, so letter case counts.
    pub proof fn lemma_lookup_is_exact(&self, n: Seq<char>)
        requires
            !self.exact_names().contains(n),
            forall|g: Seq<char>| #[trigger] self.glob_names().contains(g) ==> !glob_match(g, n),
        ensures
            !self.matches(n),
    {
    }

    pub fn contains(&self, t: &str) -> (r: bool)
        ensures
            r == self.matches(t@),
    {
        if Self::find(&self.exact, t) {
            return true;
        }
        let mut i: usize = 0;
        while i < self.globs.len()
            invariant
                i <= self.globs.len(),
                forall|j: int| 0 <= j < i ==> !glob_match(#[trigger] self.globs[j]@, t@),
            decreases self.globs.len() - i,
        {
            if wildcard_matches(self.globs[i].as_str(), t) {
                assert(views(self.globs@)[i as int] == self.globs[i as int]@);
                assert(self.glob_names().contains(self.globs[i as int]@));
                return true;
            }
            i += 1;
        }
        proof {
            if exists|g: Seq<char>| #[trigger] self.glob_names().contains(g) && glob_match(g, t@) {
                let g = choose|g: Seq<char>| #[trigger] self.glob_names().contains(g) && glob_match(g, t@);
                let j = choose|j: int|
                    0 <= j < self.globs@.len() && #[trigger] views(self.globs@)[j] == g;
                assert(self.globs[j]@ == g);
            }
        }
        false
    }
}

} // verus!

verus! {

/// Where a pattern or regex patch puts its payload relative to what it matched.
#[derive(Clone, Copy, Debug, PartialEq, Eq, Structural)]
pub enum InsertPosition {
    At,
    Before,
    After,
}

/// Where a copy patch puts its text.
#[derive(Clone, Copy, Debug, PartialEq, Eq, Structural)]
pub enum CopyPosition {
    Prepend,
    Append,
}

/// Rewrites blocks of lines that match a multi-line wildcard pattern.
#[derive(Debug)]
pub struct PatternPatch {
    pub target: Target,
    pub pattern: String,
    pub position: InsertPosition,
    pub payload: String,
    pub match_indent: bool,
    pub times: Option<usize>,
    pub overwrite: bool,
    pub name: Option<String>,
}

/// Rewrites matches of a regular expression, with capture interpolation.
#[derive(Debug)]
pub struct RegexPatch {
    pub target: Target,
    pub pattern: String,
    pub position: InsertPosition,
    pub root_capture: Option<String>,
    pub payload: String,
    pub line_prepend: String,
    pub times: Option<usize>,
    pub verbose: bool,
    pub name: Option<String>,
}

/// Puts whole texts before or after a buffer: the contents of its source files,
/// then its payload.
#[derive(Debug)]
pub struct CopyPatch {
    pub position: CopyPosition,
    pub target: Target,
    pub sources: Option<Vec<String>>,
    pub payload: Option<String>,
    pub name: Option<String>,
    pub contents: Vec<String>,
}

/// Registers a module with the interpreter under `name`, evaluated right before
/// chunk `before` when `load_now` is set.
#[derive(Debug)]
pub struct ModulePatch {
    pub source: String,
    pub before: Option<String>,
    pub name: String,
    pub load_now: bool,
    pub display_source: String,
    pub content: String,
}

#[derive(Debug)]
pub enum Patch {
    Pattern(PatternPatch),
    Regex(RegexPatch),
    Copy(CopyPatch),
    Module(ModulePatch),
}

/// The manifest table of a patch file.
#[derive(Debug)]
pub struct Manifest {
    pub version: String,
    pub dump_lua: bool,
    pub priority: Priority,
}

/// One patch file: its manifest, its patches in order, its variable bindings.
#[derive(Debug)]
pub struct PatchFile {
    pub manifest: Manifest,
    pub patches: Vec<Patch>,
    pub vars: crate::vars::VarTable,
}

} // verus!
