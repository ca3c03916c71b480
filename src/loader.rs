//! The logic of loading a mod directory: which mods to skip, where archived mods
//! keep their files, and what makes a patch invalid.
use vstd::prelude::*;
use crate::chars::{chars_of, split_lines, string_of, text_lines, trim_start_of, views};
use crate::patch::Patch;

verus! {

/// Why a patch file is refused.
#[derive(Debug, PartialEq, Eq)]
pub enum LoadError {
    /// A module patch with `load_now` set has no `before`; it carries the module name.
    ModuleWithoutBefore(String),
    /// A copy patch has neither `sources` nor `payload`; it carries the patch name.
    CopyWithoutText(Option<String>),
    /// A source file that a module or copy patch names is not in its mod; it
    /// carries the path.
    MissingSource(String),
}

/// Whether a patch is well formed: a module loaded at once names the chunk it
/// runs before, and a copy patch has something to copy.
pub open spec fn patch_valid(p: Patch) -> bool {
    match p {
        Patch::Module(m) => !(m.load_now && m.before is None),
        Patch::Copy(c) => !(c.sources is None && c.payload is None),
        _ => true,
    }
}

/// Checks one patch of a file.
pub fn validate_patch(p: &Patch) -> (r: Result<(), LoadError>)
    ensures
        r is Ok <==> patch_valid(*p),
{
    match p {
        Patch::Module(m) => {
            if m.load_now && m.before.is_none() {
                Err(LoadError::ModuleWithoutBefore(m.name.clone()))
            } else {
                Ok(())
            }
        },
        Patch::Copy(c) => {
            if c.sources.is_none() && c.payload.is_none() {
                Err(LoadError::CopyWithoutText(c.name.clone()))
            } else {
                Ok(())
            }
        },
        _ => Ok(()),
    }
}

/// Whether a blacklist line names a mod: it is not blank and does not start
/// with `#`.
pub open spec fn names_mod(l: Seq<char>) -> bool {
    trim_start_of(l).len() > 0 && l[0] != '#'
}

/// The mod names that a blacklist holds: its lines that are neither blank nor
/// start with `#`.
pub open spec fn listed(text: Seq<char>) -> Seq<Seq<char>> {
    text_lines(text).filter(|l: Seq<char>| names_mod(l))
}

/// Reads the mod names out of a blacklist.
pub fn blacklist_names(text: &str) -> (r: Vec<String>)
    ensures
        views(r@) == listed(text@),
{
    let lines = split_lines(text);
    let ghost all = views(lines@);
    let mut out: Vec<String> = Vec::new();
    let mut i: usize = 0;
    while i < lines.len()
        invariant
            all == views(lines@),
            all == text_lines(text@),
            i <= lines.len(),
            views(out@) == all.take(i as int).filter(|l: Seq<char>| names_mod(l)),
        decreases lines.len() - i,
    {
        let c = chars_of(lines[i].as_str());
        let rest = crate::chars::trim_part(&c, 0, c.len(), true, false);
        assert(c@.subrange(0, c.len() as int) =~= c@);
        let keep = chars_of(rest.as_str()).len() > 0 && c[0] != '#';
        assert(keep == names_mod(lines[i as int]@));
        let ghost before = views(out@);
        proof {
            assert(all.take(i + 1).drop_last() =~= all.take(i as int));
            assert(all.take(i + 1).last() == lines[i as int]@);
            reveal(Seq::filter);
        }
        if keep {
            out.push(lines[i].clone());
            assert(views(out@) =~= before.push(lines[i as int]@));
        } else {
            assert(views(out@) =~= before);
        }
        i += 1;
    }
    assert(all.take(i as int) =~= all);
    out
}

/// The directory part of an archive path: everything up to its last `/`
/// included, or nothing when it has none.
pub open spec fn parent_of(path: Seq<char>) -> Seq<char>
    decreases path.len(),
{
    if path.len() == 0 {
        seq![]
    } else if path.last() == '/' {
        path
    } else {
        parent_of(path.drop_last())
    }
}

/// Helper to extract parent directory path with trailing slash.
pub fn get_parent(path: &str) -> (r: String)
    ensures
        r@ == parent_of(path@),
{
    let v = chars_of(path);
    let mut n = v.len();
    assert(v@.take(n as int) =~= v@);
    while n > 0 && v[n - 1] != '/'
        invariant
            n <= v.len(),
            parent_of(v@) == parent_of(v@.take(n as int)),
        decreases n,
    {
        assert(v@.take(n as int).drop_last() =~= v@.take(n - 1));
        n -= 1;
    }
    let mut out: Vec<char> = Vec::new();
    let mut i: usize = 0;
    while i < n
        invariant
            i <= n <= v.len(),
            out@ == v@.take(i as int),
        decreases n - i,
    {
        out.push(v[i]);
        assert(v@.take(i + 1) =~= v@.take(i as int).push(v@[i as int]));
        i += 1;
    }
    proof {
        if n == 0 {
            assert(v@.take(0) =~= Seq::<char>::empty());
        }
    }
    string_of(out.as_slice())
}

} // verus!

verus! {

/// `s` with every `\` doubled, as a TOML basic string wants it.
pub open spec fn escaped(s: Seq<char>) -> Seq<char>
    decreases s.len(),
{
    if s.len() == 0 {
        seq![]
    } else {
        escaped(s.drop_last()) + if s.last() == '\\' {
            seq!['\\', '\\']
        } else {
            seq![s.last()]
        }
    }
}

/// The token of a patch file that stands for the mod's directory.
pub open spec fn dir_token() -> Seq<char> {
    "{{lovely_hack:patch_dir}}"@
}

/// `s` from `i` on with each occurrence of `pat` replaced by `rep`, scanning left
/// to right without overlaps.
pub open spec fn replaced_from(s: Seq<char>, pat: Seq<char>, rep: Seq<char>, i: int) -> Seq<char>
    decreases s.len() - i,
{
    if i < 0 || i >= s.len() {
        seq![]
    } else if pat.len() > 0 && i + pat.len() <= s.len() && s.subrange(i, i + pat.len()) == pat {
        rep + replaced_from(s, pat, rep, i + pat.len())
    } else {
        seq![s[i]] + replaced_from(s, pat, rep, i + 1)
    }
}

fn escape_dir(dir: &str) -> (r: Vec<char>)
    ensures
        r@ == escaped(dir@),
{
    let v = chars_of(dir);
    let mut out: Vec<char> = Vec::new();
    let mut i: usize = 0;
    while i < v.len()
        invariant
            v@ == dir@,
            i <= v.len(),
            out@ == escaped(v@.take(i as int)),
        decreases v.len() - i,
    {
        assert(v@.take(i + 1).drop_last() =~= v@.take(i as int));
        out.push(v[i]);
        if v[i] == '\\' {
            out.push('\\');
        }
        assert(out@ =~= escaped(v@.take(i + 1)));
        i += 1;
    }
    assert(v@.take(i as int) =~= v@);
    out
}

fn matches_at(s: &Vec<char>, pat: &Vec<char>, i: usize) -> (r: bool)
    requires
        i <= s.len(),
    ensures
        r == (pat.len() > 0 && i + pat.len() <= s.len() && s@.subrange(i as int, i + pat.len()) == pat@),
{
    if pat.len() == 0 || pat.len() > s.len() - i {
        return false;
    }
    let mut k: usize = 0;
    while k < pat.len()
        invariant
            k <= pat.len(),
            i + pat.len() <= s.len(),
            forall|j: int| 0 <= j < k ==> s@[i + j] == pat@[j],
        decreases pat.len() - k,
    {
        if s[i + k] != pat[k] {
            assert(s@.subrange(i as int, i + pat.len())[k as int] != pat@[k as int]);
            return false;
        }
        k += 1;
    }
    assert(s@.subrange(i as int, i + pat.len()) =~= pat@);
    true
}

/// A patch file's text with its directory token replaced by the mod's directory
/// (backslashes doubled so that the result stays valid TOML).
pub fn with_patch_dir(content: &str, dir: &str) -> (r: String)
    ensures
        r@ == replaced_from(content@, dir_token(), escaped(dir@), 0),
{
    let s = chars_of(content);
    let pat = chars_of("{{lovely_hack:patch_dir}}");
    let rep = escape_dir(dir);
    let mut out: Vec<char> = Vec::new();
    let mut i: usize = 0;
    while i < s.len()
        invariant
            s@ == content@,
            pat@ == dir_token(),
            rep@ == escaped(dir@),
            i <= s.len(),
            out@ + replaced_from(s@, pat@, rep@, i as int) == replaced_from(s@, pat@, rep@, 0),
        decreases s.len() - i,
    {
        let ghost before = out@;
        if matches_at(&s, &pat, i) {
            let mut k: usize = 0;
            while k < rep.len()
                invariant
                    k <= rep.len(),
                    out@ == before + rep@.take(k as int),
                decreases rep.len() - k,
            {
                out.push(rep[k]);
                assert(rep@.take(k + 1) =~= rep@.take(k as int).push(rep@[k as int]));
                k += 1;
            }
            assert(rep@.take(k as int) =~= rep@);
            assert(before + (rep@ + replaced_from(s@, pat@, rep@, i + pat.len())) =~= out@ + replaced_from(s@, pat@, rep@, i + pat.len()));
            i += pat.len();
        } else {
            out.push(s[i]);
            assert(before + (seq![s@[i as int]] + replaced_from(s@, pat@, rep@, i + 1)) =~= out@ + replaced_from(s@, pat@, rep@, i + 1));
            i += 1;
        }
    }
    assert(out@ + Seq::<char>::empty() =~= out@);
    string_of(out.as_slice())
}

} // verus!

verus! {

/// Whether `s` begins with `p`.
pub open spec fn starts_with(s: Seq<char>, p: Seq<char>) -> bool {
    p.len() <= s.len() && s.subrange(0, p.len() as int) == p
}

/// Whether directory `p` of an archive holds a mod: a `lovely.toml` or something
/// under `lovely/`.
pub open spec fn holds_mod(names: Seq<Seq<char>>, p: Seq<char>) -> bool {
    exists|j: int|
        0 <= j < names.len() && (#[trigger] names[j] == p + "lovely.toml"@ || starts_with(names[j], p + "lovely/"@))
}

/// The first directory, in the order of the archive's entries, that holds a mod.
pub open spec fn first_root(names: Seq<Seq<char>>, i: int) -> Option<Seq<char>>
    decreases names.len() - i,
{
    if i < 0 || i >= names.len() {
        None
    } else if holds_mod(names, parent_of(names[i])) {
        Some(parent_of(names[i]))
    } else {
        first_root(names, i + 1)
    }
}

fn prefix_of(s: &str, p: &Vec<char>) -> (r: bool)
    ensures
        r == starts_with(s@, p@),
{
    let v = chars_of(s);
    if p.len() > v.len() {
        return false;
    }
    let mut k: usize = 0;
    while k < p.len()
        invariant
            v@ == s@,
            p.len() <= v.len(),
            k <= p.len(),
            forall|j: int| 0 <= j < k ==> v@[j] == p@[j],
        decreases p.len() - k,
    {
        if v[k] != p[k] {
            assert(v@.subrange(0, p.len() as int)[k as int] != p@[k as int]);
            return false;
        }
        k += 1;
    }
    assert(v@.subrange(0, p.len() as int) =~= p@);
    true
}

fn joined(a: &str, b: &str) -> (r: Vec<char>)
    ensures
        r@ == a@ + b@,
{
    let mut out: Vec<char> = Vec::new();
    crate::chars::push_chars(&mut out, a);
    crate::chars::push_chars(&mut out, b);
    assert(out@ =~= a@ + b@);
    out
}

/// The directory of an archive under which its mod lies: the parent of the first
/// entry whose parent holds a `lovely.toml` or a `lovely/` directory.
pub fn find_mod_root(names: &Vec<String>) -> (r: Option<String>)
    ensures
        r.is_some() == first_root(views(names@), 0).is_some(),
        r.is_some() ==> r.unwrap()@ == first_root(views(names@), 0).unwrap(),
{
    let ghost nv = views(names@);
    let mut i: usize = 0;
    while i < names.len()
        invariant
            nv == views(names@),
            i <= names.len(),
            first_root(nv, 0) == first_root(nv, i as int),
        decreases names.len() - i,
    {
        let parent = get_parent(names[i].as_str());
        assert(nv[i as int] == names[i as int]@);
        let toml = joined(parent.as_str(), "lovely.toml");
        let dir = joined(parent.as_str(), "lovely/");
        let toml_text = string_of(toml.as_slice());
        let mut found = false;
        let mut j: usize = 0;
        while j < names.len()
            invariant
                nv == views(names@),
                j <= names.len(),
                toml@ == parent@ + "lovely.toml"@,
                toml_text@ == toml@,
                dir@ == parent@ + "lovely/"@,
                found == exists|m: int| 0 <= m < j && (#[trigger] nv[m] == toml@ || starts_with(nv[m], dir@)),
            decreases names.len() - j,
        {
            let hit = crate::chars::same_text(names[j].as_str(), toml_text.as_str()) || prefix_of(names[j].as_str(), &dir);
            assert(nv[j as int] == names[j as int]@);
            if hit {
                found = true;
            }
            j += 1;
        }
        if found {
            return Some(parent);
        }
        i += 1;
    }
    None
}

} // verus!

verus! {

/// Whether `s` ends with `p`.
pub open spec fn ends_with(s: Seq<char>, p: Seq<char>) -> bool {
    p.len() <= s.len() && s.skip(s.len() - p.len()) == p
}

/// Whether archive entry `name` is a patch file of the mod under `root`: the
/// mod's `lovely.toml`, or a `.toml` file under its `lovely/` directory.
pub open spec fn is_patch_file(name: Seq<char>, root: Seq<char>) -> bool {
    &&& !(name.len() > 0 && name.last() == '/')
    &&& (name == root + "lovely.toml"@ || (starts_with(name, root + "lovely/"@) && ends_with(name, ".toml"@)))
}

fn suffix_of(s: &str, p: &str) -> (r: bool)
    ensures
        r == ends_with(s@, p@),
{
    let v = chars_of(s);
    let w = chars_of(p);
    if w.len() > v.len() {
        return false;
    }
    let off = v.len() - w.len();
    let mut k: usize = 0;
    while k < w.len()
        invariant
            v@ == s@,
            w@ == p@,
            off == v.len() - w.len(),
            k <= w.len(),
            forall|j: int| 0 <= j < k ==> v@[off + j] == w@[j],
        decreases w.len() - k,
    {
        if v[off + k] != w[k] {
            assert(v@.skip(off as int)[k as int] != w@[k as int]);
            return false;
        }
        k += 1;
    }
    assert(v@.skip(off as int) =~= w@);
    true
}

/// The entries of an archive that are patch files of the mod under `root`, in
/// the archive's order.
pub fn patch_files_in(names: &Vec<String>, root: &str) -> (r: Vec<String>)
    ensures
        views(r@) == views(names@).filter(|n: Seq<char>| is_patch_file(n, root@)),
{
    let ghost all = views(names@);
    let toml = joined(root, "lovely.toml");
    let toml_text = string_of(toml.as_slice());
    let dir = joined(root, "lovely/");
    let mut out: Vec<String> = Vec::new();
    let mut i: usize = 0;
    while i < names.len()
        invariant
            all == views(names@),
            i <= names.len(),
            toml_text@ == root@ + "lovely.toml"@,
            dir@ == root@ + "lovely/"@,
            views(out@) == all.take(i as int).filter(|n: Seq<char>| is_patch_file(n, root@)),
        decreases names.len() - i,
    {
        let name = names[i].as_str();
        let c = chars_of(name);
        let keep = !(c.len() > 0 && c[c.len() - 1] == '/') && (crate::chars::same_text(name, toml_text.as_str())
            || (prefix_of(name, &dir) && suffix_of(name, ".toml")));
        assert(keep == is_patch_file(names[i as int]@, root@));
        let ghost before = views(out@);
        proof {
            assert(all.take(i + 1).drop_last() =~= all.take(i as int));
            assert(all.take(i + 1).last() == names[i as int]@);
            reveal(Seq::filter);
        }
        if keep {
            out.push(names[i].clone());
            assert(views(out@) =~= before.push(names[i as int]@));
        } else {
            assert(views(out@) =~= before);
        }
        i += 1;
    }
    assert(all.take(i as int) =~= all);
    out
}

} // verus!

verus! {

/// The source files that a patch names: a module's source, a copy patch's sources.
pub open spec fn sources_of(p: Patch) -> Seq<Seq<char>> {
    match p {
        Patch::Module(m) => seq![m.source@],
        Patch::Copy(c) => match c.sources {
            Some(v) => views(v@),
            None => seq![],
        },
        _ => seq![],
    }
}

/// `q` is `p` with the texts of its sources, looked up in `texts`, attached.
pub open spec fn attached(p: Patch, q: Patch, texts: crate::vars::VarTable) -> bool {
    match (p, q) {
        (Patch::Module(m), Patch::Module(n)) => {
            &&& n.source == m.source && n.before == m.before && n.name == m.name && n.load_now == m.load_now
            &&& n.display_source@ == m.source@
            &&& n.content@ == texts.lookup(m.source@).unwrap()
        },
        (Patch::Copy(c), Patch::Copy(d)) => {
            &&& d.position == c.position && d.target == c.target && d.sources == c.sources
            &&& d.payload == c.payload && d.name == c.name
            &&& views(d.contents@) == views(c.contents@) + sources_of(p).map_values(
                |k: Seq<char>| texts.lookup(k).unwrap(),
            )
        },
        (Patch::Module(_), _) => false,
        (Patch::Copy(_), _) => false,
        _ => q == p,
    }
}

/// Checks a patch as it is read and attaches the texts of the source files it
/// names, taken from `texts` (path to text), so that the table needs no file
/// access later.
pub fn attach_sources(p: Patch, texts: &crate::vars::VarTable) -> (r: Result<Patch, LoadError>)
    ensures
        (r is Err && !(r->Err_0 is MissingSource)) <==> !patch_valid(p),
        (r is Err && r->Err_0 is MissingSource) ==> patch_valid(p) && texts.lookup(r->Err_0->MissingSource_0@) is None
            && sources_of(p).contains(r->Err_0->MissingSource_0@),
        r is Ok ==> patch_valid(p) && (forall|i: int| 0 <= i < sources_of(p).len() ==> texts.lookup(#[trigger] sources_of(p)[i]) is Some)
            && attached(p, r->Ok_0, *texts),
{
    let ghost p0 = p;
    match p {
        Patch::Module(m) => {
            if m.load_now && m.before.is_none() {
                return Err(LoadError::ModuleWithoutBefore(m.name));
            }
            match texts.get(m.source.as_str()) {
                None => {
                    assert(sources_of(p0)[0] == m.source@);
                    Err(LoadError::MissingSource(m.source))
                },
                Some(content) => {
                    let display_source = m.source.clone();
                    Ok(Patch::Module(crate::patch::ModulePatch {
                        source: m.source,
                        before: m.before,
                        name: m.name,
                        load_now: m.load_now,
                        display_source,
                        content,
                    }))
                },
            }
        },
        Patch::Copy(c) => {
            if c.sources.is_none() && c.payload.is_none() {
                return Err(LoadError::CopyWithoutText(c.name));
            }
            let mut contents = c.contents;
            let ghost start = views(contents@);
            let ghost srcs = sources_of(p0);
            match &c.sources {
                Some(v) => {
                    let mut i: usize = 0;
                    while i < v.len()
                        invariant
                            srcs == views(v@),
                            srcs == sources_of(p0),
                            patch_valid(p0),
                            p0 == p,
                            i <= v.len(),
                            forall|j: int| 0 <= j < i ==> texts.lookup(#[trigger] srcs[j]) is Some,
                            views(contents@) == start + srcs.take(i as int).map_values(|k: Seq<char>| texts.lookup(k).unwrap()),
                        decreases v.len() - i,
                    {
                        match texts.get(v[i].as_str()) {
                            None => {
                                assert(srcs[i as int] == v[i as int]@);
                                return Err(LoadError::MissingSource(v[i].clone()));
                            },
                            Some(t) => {
                                let ghost before = views(contents@);
                                contents.push(t);
                                assert(srcs[i as int] == v[i as int]@);
                                assert(views(contents@) =~= before.push(t@));
                                assert(srcs.take(i + 1) =~= srcs.take(i as int).push(srcs[i as int]));
                                assert(views(contents@) =~= start + srcs.take(i + 1).map_values(|k: Seq<char>| texts.lookup(k).unwrap()));
                            },
                        }
                        i += 1;
                    }
                    assert(srcs.take(i as int) =~= srcs);
                },
                None => {
                    assert(views(contents@) =~= start + srcs.map_values(|k: Seq<char>| texts.lookup(k).unwrap()));
                },
            }
            Ok(Patch::Copy(crate::patch::CopyPatch {
                position: c.position,
                target: c.target,
                sources: c.sources,
                payload: c.payload,
                name: c.name,
                contents,
            }))
        },
        other => Ok(other),
    }
}

} // verus!
