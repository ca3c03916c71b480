//! The patch table: every loaded patch with its priority and origin, the index of
//! targets, the variables; and the rewrite of one buffer with all of it.
use vstd::prelude::*;
use vstd::utf8::{decode_utf8, encode_utf8, valid_utf8};
use crate::chars::{chars_of, string_of};
use crate::dump::{adjusted, ByteDebugEntry, ByteRegion, PatchDebug};
use crate::glob::is_glob;
use crate::order::{run_order, stable_order};
use crate::patch::{Patch, Priority, TargetIndex};
use crate::rope::{rope_bytes, rope_from, rope_to_string};
use crate::vars::{interpolate, interpolated, VarTable};

verus! {

broadcast use vstd::utf8::group_utf8_lib;

/// `t` without a leading `@`.
pub open spec fn strip_at(t: Seq<char>) -> Seq<char> {
    if t.len() > 0 && t[0] == '@' {
        t.drop_first()
    } else {
        t
    }
}

/// `t` without a leading `@`.
pub fn strip_at_sign(t: &str) -> (r: String)
    ensures
        r@ == strip_at(t@),
{
    let v = chars_of(t);
    if v.len() > 0 && v[0] == '@' {
        let mut rest: Vec<char> = Vec::new();
        let mut i: usize = 1;
        while i < v.len()
            invariant
                1 <= i <= v.len(),
                rest@ == v@.subrange(1, i as int),
            decreases v.len() - i,
        {
            rest.push(v[i]);
            i += 1;
        }
        assert(rest@ =~= v@.drop_first());
        string_of(rest.as_slice())
    } else {
        string_of(v.as_slice())
    }
}

/// The chunk names that a patch names: its target's, or for a module the chunk it
/// runs before.
pub open spec fn patch_names(p: Patch) -> Seq<Seq<char>> {
    match p {
        Patch::Pattern(x) => x.target.names(),
        Patch::Regex(x) => x.target.names(),
        Patch::Copy(x) => x.target.names(),
        Patch::Module(x) => match x.before {
            Some(b) => seq![b@],
            None => seq![],
        },
    }
}

/// All names that the patches of `ps` name.
pub open spec fn names_of(ps: Seq<Patch>) -> Set<Seq<char>>
    decreases ps.len(),
{
    if ps.len() == 0 {
        Set::empty()
    } else {
        names_of(ps.drop_last()).union(patch_names(ps.last()).to_set())
    }
}

/// The value of `k` after the variable tables of `raw` are merged in order, later
/// ones winning.
pub open spec fn merged_lookup(raw: Seq<(Patch, Priority, String, VarTable)>, k: Seq<char>) -> Option<Seq<char>>
    decreases raw.len(),
{
    if raw.len() == 0 {
        None
    } else {
        match raw.last().3.lookup(k) {
            Some(v) => Some(v),
            None => merged_lookup(raw.drop_last(), k),
        }
    }
}

/// A patch as it is stored: the patch, the priority of its file, the file's path
/// relative to the mod directory.
pub type StoredPatch = (Patch, Priority, String);

fn add_patch_targets(p: &Patch, targets: &mut TargetIndex)
    requires
        old(targets).wf(),
    ensures
        final(targets).wf(),
        final(targets).exact_names() == old(targets).exact_names().union(
            patch_names(*p).to_set().filter(|n: Seq<char>| !is_glob(n)),
        ),
        final(targets).glob_names() == old(targets).glob_names().union(
            patch_names(*p).to_set().filter(|n: Seq<char>| is_glob(n)),
        ),
{
    match p {
        Patch::Pattern(x) => x.target.insert_into(targets),
        Patch::Regex(x) => x.target.insert_into(targets),
        Patch::Copy(x) => x.target.insert_into(targets),
        Patch::Module(x) => {
            match &x.before {
                Some(b) => {
                    targets.add(b);
                    proof {
                        crate::patch::lemma_single_to_set(b@);
                    }
                    assert(targets.exact_names() =~= old(targets).exact_names().union(
                        patch_names(*p).to_set().filter(|n: Seq<char>| !is_glob(n)),
                    ));
                    assert(targets.glob_names() =~= old(targets).glob_names().union(
                        patch_names(*p).to_set().filter(|n: Seq<char>| is_glob(n)),
                    ));
                },
                None => {
                    assert(patch_names(*p).to_set() =~= Set::empty());
                    assert(targets.exact_names() =~= old(targets).exact_names().union(
                        patch_names(*p).to_set().filter(|n: Seq<char>| !is_glob(n)),
                    ));
                    assert(targets.glob_names() =~= old(targets).glob_names().union(
                        patch_names(*p).to_set().filter(|n: Seq<char>| is_glob(n)),
                    ));
                },
            }
        },
    }
}

/// Process raw patches to extract targets and consolidate variables: the patches
/// keep their order, every name they target lands in the index (wildcard names
/// apart from exact ones), and the variables are merged with later files winning.
pub fn process_patches(raw: Vec<(Patch, Priority, String, VarTable)>) -> (r: (Vec<StoredPatch>, TargetIndex, VarTable))
    ensures
        r.0.len() == raw.len(),
        forall|i: int| 0 <= i < raw.len() ==> (#[trigger] r.0[i]) == (raw[i].0, raw[i].1, raw[i].2),
        r.1.wf(),
        r.1.exact_names() == names_of(raw@.map_values(|x: (Patch, Priority, String, VarTable)| x.0)).filter(|n: Seq<char>| !is_glob(n)),
        r.1.glob_names() == names_of(raw@.map_values(|x: (Patch, Priority, String, VarTable)| x.0)).filter(|n: Seq<char>| is_glob(n)),
        forall|k: Seq<char>| #[trigger] r.2.lookup(k) == merged_lookup(raw@, k),
{
    let ghost all = raw@;
    let ghost ps = all.map_values(|x: (Patch, Priority, String, VarTable)| x.0);
    let n = raw.len();
    let mut rest = raw;
    let mut patches: Vec<StoredPatch> = Vec::new();
    let mut targets = TargetIndex::new();
    let mut vars = VarTable::new();
    let mut i: usize = 0;
    while i < n
        invariant
            n == all.len(),
            ps == all.map_values(|x: (Patch, Priority, String, VarTable)| x.0),
            rest@ == all.subrange(i as int, n as int),
            i <= n,
            patches.len() == i,
            forall|j: int| 0 <= j < i ==> (#[trigger] patches[j]) == (all[j].0, all[j].1, all[j].2),
            targets.wf(),
            targets.exact_names() == names_of(ps.take(i as int)).filter(|n: Seq<char>| !is_glob(n)),
            targets.glob_names() == names_of(ps.take(i as int)).filter(|n: Seq<char>| is_glob(n)),
            forall|k: Seq<char>| #[trigger] vars.lookup(k) == merged_lookup(all.take(i as int), k),
        decreases n - i,
    {
        let (p, prio, path, file_vars) = rest.remove(0);
        assert(all[i as int] == (p, prio, path, file_vars));
        add_patch_targets(&p, &mut targets);
        vars.extend(&file_vars);
        proof {
            assert(ps.take(i + 1).drop_last() =~= ps.take(i as int));
            assert(ps.take(i + 1).last() == p);
            assert(targets.exact_names() =~= names_of(ps.take(i + 1)).filter(|n: Seq<char>| !is_glob(n)));
            assert(targets.glob_names() =~= names_of(ps.take(i + 1)).filter(|n: Seq<char>| is_glob(n)));
            assert(all.take(i + 1).drop_last() =~= all.take(i as int));
            assert(all.take(i + 1).last() == all[i as int]);
            assert forall|k: Seq<char>| #[trigger] vars.lookup(k) == merged_lookup(all.take(i + 1), k) by {}
        }
        patches.push((p, prio, path));
        i += 1;
    }
    proof {
        assert(ps.take(n as int) =~= ps);
        assert(all.take(n as int) =~= all);
    }
    (patches, targets, vars)
}

/// Structure to manage patch tables for the runtime.
#[derive(Debug)]
pub struct PatchTable {
    pub mod_dir: String,
    pub targets: TargetIndex,
    pub patches: Vec<StoredPatch>,
    pub vars: VarTable,
}

impl PatchTable {
    /// A table with no patches, for a run with mods switched off.
    pub fn empty(mod_dir: &str) -> (r: Self)
        ensures
            r.mod_dir@ == mod_dir@,
            r.patches.len() == 0,
            r.targets.wf(),
            r.targets.exact_names() == Set::<Seq<char>>::empty(),
            r.targets.glob_names() == Set::<Seq<char>>::empty(),
            forall|k: Seq<char>| #[trigger] r.vars.lookup(k) == None::<Seq<char>>,
    {
        PatchTable { mod_dir: mod_dir.to_owned(), targets: TargetIndex::new(), patches: Vec::new(), vars: VarTable::new() }
    }

    /// Builds the table of the patches read from `mod_dir`.
    pub fn load(mod_dir: &str, raw: Vec<(Patch, Priority, String, VarTable)>) -> (r: Self)
        ensures
            r.mod_dir@ == mod_dir@,
            r.patches.len() == raw.len(),
            forall|i: int| 0 <= i < raw.len() ==> (#[trigger] r.patches[i]) == (raw[i].0, raw[i].1, raw[i].2),
            r.targets.wf(),
            r.targets.exact_names() == names_of(raw@.map_values(|x: (Patch, Priority, String, VarTable)| x.0)).filter(|n: Seq<char>| !is_glob(n)),
            r.targets.glob_names() == names_of(raw@.map_values(|x: (Patch, Priority, String, VarTable)| x.0)).filter(|n: Seq<char>| is_glob(n)),
            forall|k: Seq<char>| #[trigger] r.vars.lookup(k) == merged_lookup(raw@, k),
    {
        let (patches, targets, vars) = process_patches(raw);
        PatchTable { mod_dir: mod_dir.to_owned(), targets, patches, vars }
    }

    /// Determine if the provided target file / name requires patching.
    pub fn needs_patching(&self, target: &str) -> (r: bool)
        ensures
            r == self.targets.matches(strip_at(target@)),
    {
        let t = strip_at_sign(target);
        self.targets.contains(t.as_str())
    }
}

} // verus!

verus! {

/// Why a buffer could not be patched.
#[derive(Debug)]
pub enum ApplyError {
    /// A `{{lovely:NAME}}` reference names a variable that no patch file binds.
    UnboundVar(String),
    /// A regex patch failed.
    Regex(crate::regex::RegexError),
}

/// No copy, pattern or regex patch of `ps` targets chunk `t`.
pub open spec fn untouched(ps: Seq<StoredPatch>, t: Seq<char>) -> bool {
    forall|i: int| 0 <= i < ps.len() ==> match #[trigger] ps[i].0 {
        Patch::Copy(c) => !c.target.covers(t),
        Patch::Pattern(p) => !p.target.covers(t),
        Patch::Regex(x) => !x.target.covers(t),
        Patch::Module(_) => true,
    }
}

/// A table without patches leaves every chunk untouched.
pub proof fn lemma_empty_table_untouched(ps: Seq<StoredPatch>, t: Seq<char>)
    requires
        ps.len() == 0,
    ensures
        untouched(ps, t),
{
}

/// A region after the edits of `regs`, made one after the other.
pub open spec fn adjusted_all(r: ByteRegion, regs: Seq<ByteRegion>) -> ByteRegion
    decreases regs.len(),
{
    if regs.len() == 0 {
        r
    } else {
        adjusted(adjusted_all(r, regs.drop_last()), regs.last().start as int, regs.last().delta as int)
    }
}

/// The number of regions of each entry.
pub open spec fn region_counts(entries: Seq<ByteDebugEntry>) -> Seq<nat> {
    entries.map_values(|e: ByteDebugEntry| e.regions@.len())
}

/// Adds the entry of a patch just applied, first moving the regions of the
/// earlier entries past its edits.
fn record(entries: &mut Vec<ByteDebugEntry>, entry: ByteDebugEntry)
    ensures
        final(entries).len() == old(entries).len() + 1,
        final(entries)[old(entries).len() as int] == entry,
        region_counts(final(entries)@) == region_counts(old(entries)@).push(entry.regions@.len()),
        forall|i: int| 0 <= i < old(entries).len() ==> {
            &&& (#[trigger] final(entries)[i]).patch_source == old(entries)[i].patch_source
            &&& final(entries)[i].warnings == old(entries)[i].warnings
            &&& final(entries)[i].regions.len() == old(entries)[i].regions.len()
            &&& forall|m: int| 0 <= m < old(entries)[i].regions.len() ==> #[trigger] final(entries)[i].regions[m]
                == adjusted_all(old(entries)[i].regions[m], entry.regions@)
        },
{
    let ghost start = entries@;
    let mut k: usize = 0;
    while k < entry.regions.len()
        invariant
            entries.len() == start.len(),
            start == old(entries)@,
            k <= entry.regions.len(),
            forall|i: int| 0 <= i < start.len() ==> {
                &&& (#[trigger] entries[i]).patch_source == start[i].patch_source
                &&& entries[i].warnings == start[i].warnings
                &&& entries[i].regions.len() == start[i].regions.len()
                &&& forall|m: int| 0 <= m < start[i].regions.len() ==> #[trigger] entries[i].regions[m]
                    == adjusted_all(start[i].regions[m], entry.regions@.take(k as int))
            },
        decreases entry.regions.len() - k,
    {
        let r = entry.regions[k];
        let ghost mid = entries@;
        proof {
            assert(entry.regions@.take(k + 1).drop_last() =~= entry.regions@.take(k as int));
            assert(entry.regions@.take(k + 1).last() == r);
        }
        let mut j: usize = 0;
        while j < entries.len()
            invariant
                entries.len() == start.len(),
                mid.len() == start.len(),
                j <= entries.len(),
                forall|i: int| 0 <= i < j ==> {
                    &&& (#[trigger] entries[i]).patch_source == mid[i].patch_source
                    &&& entries[i].warnings == mid[i].warnings
                    &&& entries[i].regions.len() == mid[i].regions.len()
                    &&& forall|m: int| 0 <= m < mid[i].regions.len() ==> #[trigger] entries[i].regions[m]
                        == adjusted(mid[i].regions[m], r.start as int, r.delta as int)
                },
                forall|i: int| j <= i < start.len() ==> #[trigger] entries[i] == mid[i],
            decreases entries.len() - j,
        {
            entries[j].adjust(r.start, r.delta);
            j += 1;
        }
        k += 1;
    }
    assert(entry.regions@.take(k as int) =~= entry.regions@);
    let ghost before = entries@;
    entries.push(entry);
    assert(region_counts(entries@) =~= region_counts(before).push(entry.regions@.len()));
    assert(region_counts(before) =~= region_counts(start)) by {
        assert forall|i: int| 0 <= i < before.len() implies before[i].regions.len() == start[i].regions.len() by {
            assert(before[i] == entries[i]);
        }
    }
}

/// 0 for a copy patch, 1 for a pattern patch, 2 for a regex patch, 3 for a module.
pub open spec fn kind_of(p: Patch) -> int {
    match p {
        Patch::Copy(_) => 0,
        Patch::Pattern(_) => 1,
        Patch::Regex(_) => 2,
        Patch::Module(_) => 3,
    }
}

/// The places, below `n` and in order, of the patches of `ps` of kind `kind`.
pub open spec fn positions(ps: Seq<StoredPatch>, kind: int, n: int) -> Seq<int>
    decreases n,
{
    if n <= 0 {
        seq![]
    } else {
        positions(ps, kind, n - 1) + if kind_of(ps[n - 1].0) == kind {
            seq![n - 1]
        } else {
            seq![]
        }
    }
}

/// The patches that run in group `group`, in load order: the copy patches for
/// group 0; the pattern patches and then the regex patches for group 1.
pub open spec fn stream(ps: Seq<StoredPatch>, group: int) -> Seq<int> {
    if group == 0 {
        positions(ps, 0, ps.len() as int)
    } else {
        positions(ps, 1, ps.len() as int) + positions(ps, 2, ps.len() as int)
    }
}

/// The priorities of the patches at places `at`.
pub open spec fn prios_at(ps: Seq<StoredPatch>, at: Seq<int>) -> Seq<i32> {
    at.map_values(|i: int| ps[i].1)
}

/// The places of `at` taken in the order `r`.
pub open spec fn pick(at: Seq<int>, r: Seq<usize>) -> Seq<int> {
    r.map_values(|k: usize| at[k as int])
}

/// The text after patch `p` ran on text `b` for chunk `t`; `None` when it fails.
pub open spec fn step(b: Seq<u8>, p: Patch, t: Seq<char>) -> Option<Seq<u8>> {
    match p {
        Patch::Copy(c) => {
            let es = seq![crate::copy::copy_edit(b, c)];
            Some(if c.target.covers(t) && crate::edit::edits_fit(b, es) { crate::edit::edited(b, es) } else { b })
        },
        Patch::Pattern(x) => {
            let es = crate::pattern::pattern_edits(b, x);
            Some(
                if x.target.covers(t) && crate::pattern::chosen(b, x).len() > 0 && crate::edit::edits_fit(b, es) {
                    crate::edit::edited(b, es)
                } else {
                    b
                },
            )
        },
        Patch::Regex(x) => {
            let es = crate::regex::regex_edits(b, x);
            if !x.target.covers(t) {
                Some(b)
            } else if crate::regex::outcome_of(b, x) is None {
                None
            } else if crate::regex::regex_kept(b, x).len() == 0 {
                Some(b)
            } else if crate::regex::regex_sound(b, x) && crate::edit::edits_fit(b, es) {
                Some(crate::edit::edited(b, es))
            } else {
                None
            }
        },
        Patch::Module(_) => Some(b),
    }
}

/// The debug entry that patch `p` records on text `b` for chunk `t`: empty when
/// it records none, else the number of regions of its one entry, which is the
/// number of edits it makes (zero when it targets the chunk but nothing matched).
pub open spec fn step_entry(b: Seq<u8>, p: Patch, t: Seq<char>) -> Seq<nat> {
    match p {
        Patch::Copy(c) => if c.target.covers(t) && crate::edit::edits_fit(b, seq![crate::copy::copy_edit(b, c)]) {
            seq![1nat]
        } else {
            seq![]
        },
        Patch::Pattern(x) => {
            let n = crate::pattern::chosen(b, x).len();
            if !x.target.covers(t) {
                seq![]
            } else if n == 0 {
                seq![0nat]
            } else if crate::edit::edits_fit(b, crate::pattern::pattern_edits(b, x)) {
                seq![n]
            } else {
                seq![]
            }
        },
        Patch::Regex(x) => {
            let n = crate::regex::regex_kept(b, x).len();
            if !x.target.covers(t) || crate::regex::outcome_of(b, x) is None {
                seq![]
            } else if n == 0 {
                seq![0nat]
            } else {
                seq![n]
            }
        },
        Patch::Module(_) => seq![],
    }
}

/// The region counts of the entries that the patches at places `idxs` record,
/// run one after the other.
pub open spec fn run_entries(b: Seq<u8>, ps: Seq<StoredPatch>, idxs: Seq<int>, t: Seq<char>) -> Seq<nat>
    decreases idxs.len(),
{
    if idxs.len() == 0 {
        seq![]
    } else {
        match run_all(b, ps, idxs.drop_last(), t) {
            None => run_entries(b, ps, idxs.drop_last(), t),
            Some(c) => run_entries(b, ps, idxs.drop_last(), t) + step_entry(c, ps[idxs.last()].0, t),
        }
    }
}

/// The text after the patches at places `idxs` ran one after the other.
pub open spec fn run_all(b: Seq<u8>, ps: Seq<StoredPatch>, idxs: Seq<int>, t: Seq<char>) -> Option<Seq<u8>>
    decreases idxs.len(),
{
    if idxs.len() == 0 {
        Some(b)
    } else {
        match run_all(b, ps, idxs.drop_last(), t) {
            None => None,
            Some(c) => step(c, ps[idxs.last()].0, t),
        }
    }
}

/// The places of the patches of `ps` of kind `kind`, in order, with their priorities.
fn select(ps: &Vec<StoredPatch>, kind: u8) -> (r: (Vec<usize>, Vec<i32>))
    requires
        kind <= 2,
    ensures
        r.0@.map_values(|x: usize| x as int) == positions(ps@, kind as int, ps.len() as int),
        r.1@ == prios_at(ps@, positions(ps@, kind as int, ps.len() as int)),
        forall|k: int| 0 <= k < r.0.len() ==> #[trigger] r.0[k] < ps.len(),
{
    let mut at: Vec<usize> = Vec::new();
    let mut prio: Vec<i32> = Vec::new();
    let mut i: usize = 0;
    while i < ps.len()
        invariant
            kind <= 2,
            i <= ps.len(),
            at@.map_values(|x: usize| x as int) == positions(ps@, kind as int, i as int),
            prio@ == prios_at(ps@, positions(ps@, kind as int, i as int)),
            forall|k: int| 0 <= k < at.len() ==> #[trigger] at[k] < i,
        decreases ps.len() - i,
    {
        let hit = match &ps[i].0 {
            Patch::Copy(_) => kind == 0,
            Patch::Pattern(_) => kind == 1,
            Patch::Regex(_) => kind == 2,
            Patch::Module(_) => false,
        };
        assert(hit == (kind_of(ps@[i as int].0) == kind as int));
        let ghost before = at@.map_values(|x: usize| x as int);
        if hit {
            at.push(i);
            prio.push(ps[i].1);
            assert(at@.map_values(|x: usize| x as int) =~= before.push(i as int));
        }
        assert(at@.map_values(|x: usize| x as int) =~= positions(ps@, kind as int, i + 1));
        assert(prio@ =~= prios_at(ps@, positions(ps@, kind as int, i + 1)));
        i += 1;
    }
    (at, prio)
}

impl PatchTable {
    /// The places of the patches of group `group` with their priorities.
    fn group_of(&self, group: u8) -> (r: (Vec<usize>, Vec<i32>))
        requires
            group <= 1,
        ensures
            r.0@.map_values(|x: usize| x as int) == stream(self.patches@, group as int),
            r.1@ == prios_at(self.patches@, stream(self.patches@, group as int)),
            forall|k: int| 0 <= k < r.0.len() ==> #[trigger] r.0[k] < self.patches.len(),
    {
        if group == 0 {
            select(&self.patches, 0)
        } else {
            let (mut pat_at, mut pat_prio) = select(&self.patches, 1);
            let (re_at, re_prio) = select(&self.patches, 2);
            let ghost pat_seen = pat_at@.map_values(|x: usize| x as int);
            let ghost prio_seen = pat_prio@;
            let mut i: usize = 0;
            while i < re_at.len()
                invariant
                    i <= re_at.len(),
                    re_at@.map_values(|x: usize| x as int) == positions(self.patches@, 2, self.patches.len() as int),
                    re_prio@ == prios_at(self.patches@, positions(self.patches@, 2, self.patches.len() as int)),
                    pat_at@.map_values(|x: usize| x as int) == pat_seen + re_at@.map_values(|x: usize| x as int).take(i as int),
                    pat_prio@ == prio_seen + re_prio@.take(i as int),
                    forall|k: int| 0 <= k < pat_at.len() ==> #[trigger] pat_at[k] < self.patches.len(),
                    forall|k: int| 0 <= k < re_at.len() ==> #[trigger] re_at[k] < self.patches.len(),
                decreases re_at.len() - i,
            {
                let ghost before = pat_at@.map_values(|x: usize| x as int);
                let ghost re_view = re_at@.map_values(|x: usize| x as int);
                pat_at.push(re_at[i]);
                pat_prio.push(re_prio[i]);
                assert(pat_at@.map_values(|x: usize| x as int) =~= before.push(re_at[i as int] as int));
                assert(re_view.take(i + 1) =~= re_view.take(i as int).push(re_view[i as int]));
                assert(pat_at@.map_values(|x: usize| x as int) =~= pat_seen + re_at@.map_values(|x: usize| x as int).take(i + 1));
                assert(pat_prio@ =~= prio_seen + re_prio@.take(i + 1));
                i += 1;
            }
            assert(re_at@.map_values(|x: usize| x as int).take(i as int) =~= re_at@.map_values(|x: usize| x as int));
            assert(re_prio@.take(i as int) =~= re_prio@);
            assert(pat_prio@ =~= prios_at(self.patches@, stream(self.patches@, 1)));
            (pat_at, pat_prio)
        }
    }

    /// Runs the patches of group `group` on the rope, by ascending priority.
    fn run_group(&self, t: &str, rope: &mut crop::Rope, entries: &mut Vec<ByteDebugEntry>, group: u8) -> (r: Result<(), crate::regex::RegexError>)
        requires
            group <= 1,
            valid_utf8(rope_bytes(*old(rope))),
        ensures
            valid_utf8(rope_bytes(*final(rope))),
            final(entries).len() >= old(entries).len(),
            untouched(self.patches@, t@) ==> r is Ok && rope_bytes(*final(rope)) == rope_bytes(*old(rope))
                && final(entries).len() == old(entries).len(),
            exists|o: Seq<usize>| {
                &&& #[trigger] run_order(prios_at(self.patches@, stream(self.patches@, group as int)), o)
                &&& (r is Ok <==> run_all(rope_bytes(*old(rope)), self.patches@, pick(stream(self.patches@, group as int), o), t@) is Some)
                &&& r is Ok ==> rope_bytes(*final(rope)) == run_all(rope_bytes(*old(rope)), self.patches@, pick(stream(self.patches@, group as int), o), t@).unwrap()
                &&& r is Ok ==> region_counts(final(entries)@) == region_counts(old(entries)@) + run_entries(
                    rope_bytes(*old(rope)),
                    self.patches@,
                    pick(stream(self.patches@, group as int), o),
                    t@,
                )
            },
    {
        let ghost b = rope_bytes(*rope);
        let ghost ps = self.patches@;
        let ghost st = stream(ps, group as int);
        let ghost quiet = untouched(ps, t@);
        let (at, prio) = self.group_of(group);
        let order = stable_order(&prio);
        let ghost seq_all = pick(st, order@);
        let mut j: usize = 0;
        while j < order.len()
            invariant
                ps == self.patches@,
                b == rope_bytes(*old(rope)),
                region_counts(entries@) == region_counts(old(entries)@) + run_entries(b, ps, seq_all.take(j as int), t@),
                st == stream(ps, group as int),
                seq_all == pick(st, order@),
                run_order(prio@, order@),
                prio@ == prios_at(ps, st),
                at@.map_values(|x: usize| x as int) == st,
                at.len() == prio.len(),
                forall|k: int| 0 <= k < at.len() ==> #[trigger] at[k] < self.patches.len(),
                j <= order.len(),
                valid_utf8(rope_bytes(*rope)),
                run_all(b, ps, seq_all.take(j as int), t@) == Some(rope_bytes(*rope)),
                entries.len() >= old(entries).len(),
                quiet == untouched(ps, t@),
                quiet ==> rope_bytes(*rope) == b && entries.len() == old(entries).len(),
            decreases order.len() - j,
        {
            let idx = at[order[j]];
            let ghost cur = rope_bytes(*rope);
            proof {
                assert(seq_all[j as int] == st[order[j as int] as int]);
                assert(st[order[j as int] as int] == idx as int);
                assert(seq_all.take(j + 1).drop_last() =~= seq_all.take(j as int));
                assert(seq_all.take(j + 1).last() == idx as int);
            }
            let (patch, _, path) = &self.patches[idx];
            assert(ps[idx as int].0 == *patch);
            proof {
                if quiet {
                    assert(match ps[idx as int].0 {
                        Patch::Copy(c) => !c.target.covers(t@),
                        Patch::Pattern(p) => !p.target.covers(t@),
                        Patch::Regex(x) => !x.target.covers(t@),
                        Patch::Module(_) => true,
                    });
                }
            }
            let applied = match patch {
                Patch::Copy(c) => c.apply(t, rope, path.as_str()),
                Patch::Pattern(p) => p.apply(t, rope, path.as_str()),
                Patch::Regex(x) => {
                    if x.target.can_apply(t) {
                        if let Some(name) = x.unresolved_root(rope) {
                            proof {
                                assert(step(cur, *patch, t@) is None);
                                assert(run_all(b, ps, seq_all.take(j + 1), t@) is None);
                                lemma_run_all_stays_failed(b, ps, seq_all, t@, j + 1);
                                assert(run_order(prios_at(self.patches@, stream(self.patches@, group as int)), order@));
                            }
                            return Err(crate::regex::RegexError::MissingGroup(name));
                        }
                    }
                    match x.apply(t, rope, path.as_str()) {
                        Ok(e) => e,
                        Err(e) => {
                            assert(step(cur, *patch, t@) is None);
                            assert(run_all(b, ps, seq_all.take(j + 1), t@) is None);
                            proof {
                                lemma_run_all_stays_failed(b, ps, seq_all, t@, j + 1);
                                assert(run_order(prios_at(self.patches@, stream(self.patches@, group as int)), order@));
                            }
                            return Err(e);
                        },
                    }
                },
                Patch::Module(_) => None,
            };
            assert(step(cur, *patch, t@) == Some(rope_bytes(*rope)));
            let ghost counts = region_counts(entries@);
            proof {
                assert(run_all(b, ps, seq_all.take(j as int), t@) == Some(cur));
                assert(run_entries(b, ps, seq_all.take(j + 1), t@) == run_entries(b, ps, seq_all.take(j as int), t@)
                    + step_entry(cur, *patch, t@));
            }
            match applied {
                Some(e) => {
                    assert(step_entry(cur, *patch, t@) == seq![e.regions@.len()]);
                    record(entries, e);
                },
                None => {
                    assert(step_entry(cur, *patch, t@) =~= Seq::<nat>::empty());
                },
            }
            assert(region_counts(entries@) =~= region_counts(old(entries)@) + run_entries(b, ps, seq_all.take(j + 1), t@));
            j += 1;
        }
        assert(seq_all.take(j as int) =~= seq_all);
        Ok(())
    }

    /// Apply the table's patches onto the buffer of chunk `target`: copy patches,
    /// then pattern and regex patches, each group by ascending priority (ties in
    /// load order, pattern patches before regex ones), then variable
    /// interpolation. Returns the patched text and its debug record.
    #[verifier::rlimit(60)]
    pub fn apply_patches(&self, target: &str, buffer: &str) -> (r: Result<(String, PatchDebug), ApplyError>)
        ensures
            r is Ok ==> r->Ok_0.1.buffer_name@ == strip_at(target@),
            (r is Err && r->Err_0 is UnboundVar) ==> self.vars.lookup(r->Err_0->UnboundVar_0@) is None,
            untouched(self.patches@, strip_at(target@)) ==> {
                &&& r is Ok <==> interpolated(buffer@, self.vars) is Some
                &&& r is Ok ==> r->Ok_0.0@ == interpolated(buffer@, self.vars).unwrap()
                    && r->Ok_0.1.entries.len() == 0
            },
            exists|o0: Seq<usize>, o1: Seq<usize>| #[trigger] run_orders(self.patches@, o0, o1) && {
                let out = engine_text(self.patches@, encode_utf8(buffer@), strip_at(target@), o0, o1);
                &&& (r is Err && r->Err_0 is Regex) <==> out is None
                &&& r is Ok ==> {
                    let counts = engine_entries(self.patches@, encode_utf8(buffer@), strip_at(target@), o0, o1);
                    &&& r->Ok_0.1.entries.len() == counts.len()
                    &&& forall|i: int| 0 <= i < counts.len() ==> #[trigger] r->Ok_0.1.entries[i].regions.len() == counts[i]
                }
                &&& out is Some ==> {
                    &&& r is Ok <==> interpolated(decode_utf8(out.unwrap()), self.vars) is Some
                    &&& r is Ok ==> r->Ok_0.0@ == interpolated(decode_utf8(out.unwrap()), self.vars).unwrap()
                }
            },
    {
        let t = strip_at_sign(target);
        let mut rope = rope_from(buffer);
        proof {
            vstd::utf8::encode_utf8_valid_utf8(buffer@);
        }
        let ghost ps = self.patches@;
        let ghost b0 = rope_bytes(rope);
        let mut entries: Vec<ByteDebugEntry> = Vec::new();
        let ghost e0 = entries@;
        let first = self.run_group(t.as_str(), &mut rope, &mut entries, 0);
        let ghost b1 = rope_bytes(rope);
        let ghost e1 = entries@;
        let ghost o0 = choose|o: Seq<usize>| {
            &&& run_order(prios_at(ps, stream(ps, 0)), o)
            &&& (first is Ok <==> run_all(b0, ps, pick(stream(ps, 0), o), t@) is Some)
            &&& first is Ok ==> b1 == run_all(b0, ps, pick(stream(ps, 0), o), t@).unwrap()
            &&& first is Ok ==> region_counts(e1) == region_counts(e0) + run_entries(b0, ps, pick(stream(ps, 0), o), t@)
        };
        if let Err(e) = first {
            let (_, later) = self.group_of(1);
            let witness = stable_order(&later);
            assert(run_orders(ps, o0, witness@));
            assert(engine_text(ps, b0, t@, o0, witness@) is None);
            return Err(ApplyError::Regex(e));
        }
        let second = self.run_group(t.as_str(), &mut rope, &mut entries, 1);
        let ghost b2 = rope_bytes(rope);
        let ghost o1 = choose|o: Seq<usize>| {
            &&& run_order(prios_at(ps, stream(ps, 1)), o)
            &&& (second is Ok <==> run_all(b1, ps, pick(stream(ps, 1), o), t@) is Some)
            &&& second is Ok ==> b2 == run_all(b1, ps, pick(stream(ps, 1), o), t@).unwrap()
            &&& second is Ok ==> region_counts(entries@) == region_counts(e1) + run_entries(b1, ps, pick(stream(ps, 1), o), t@)
        };
        assert(run_orders(ps, o0, o1));
        if let Err(e) = second {
            assert(engine_text(ps, b0, t@, o0, o1) is None);
            return Err(ApplyError::Regex(e));
        }
        assert(engine_text(ps, b0, t@, o0, o1) == Some(b2));
        let text = rope_to_string(&rope);
        proof {
            vstd::utf8::encode_utf8_decode_utf8(text@);
            vstd::utf8::encode_utf8_decode_utf8(buffer@);
        }
        let patched = match interpolate(text.as_str(), &self.vars) {
            Ok(s) => s,
            Err(name) => {
                return Err(ApplyError::UnboundVar(name));
            },
        };
        let ghost counts = region_counts(entries@);
        proof {
            assert(region_counts(e0) =~= Seq::<nat>::empty());
            assert(counts =~= engine_entries(ps, b0, t@, o0, o1));
        }
        let debug = PatchDebug::from_byte_entries(t.as_str(), entries, &rope);
        proof {
            assert forall|i: int| 0 <= i < counts.len() implies #[trigger] debug.entries[i].regions.len() == counts[i] by {
                assert(counts[i] == entries@[i].regions@.len());
            }
        }
        Ok((patched, debug))
    }
}

/// `o0` and `o1` are the orders in which the two groups of patches run.
pub open spec fn run_orders(ps: Seq<StoredPatch>, o0: Seq<usize>, o1: Seq<usize>) -> bool {
    run_order(prios_at(ps, stream(ps, 0)), o0) && run_order(prios_at(ps, stream(ps, 1)), o1)
}

/// The text after both groups ran on `b` for chunk `t`, in the orders `o0`, `o1`.
pub open spec fn engine_text(ps: Seq<StoredPatch>, b: Seq<u8>, t: Seq<char>, o0: Seq<usize>, o1: Seq<usize>) -> Option<Seq<u8>> {
    match run_all(b, ps, pick(stream(ps, 0), o0), t) {
        Some(c) => run_all(c, ps, pick(stream(ps, 1), o1), t),
        None => None,
    }
}

/// The region counts of the entries that both groups record, in the orders `o0`, `o1`.
pub open spec fn engine_entries(ps: Seq<StoredPatch>, b: Seq<u8>, t: Seq<char>, o0: Seq<usize>, o1: Seq<usize>) -> Seq<nat> {
    run_entries(b, ps, pick(stream(ps, 0), o0), t) + match run_all(b, ps, pick(stream(ps, 0), o0), t) {
        Some(c) => run_entries(c, ps, pick(stream(ps, 1), o1), t),
        None => seq![],
    }
}

proof fn lemma_positions_in_range(ps: Seq<StoredPatch>, kind: int, n: int)
    ensures
        forall|k: int| 0 <= k < positions(ps, kind, n).len() ==> 0 <= #[trigger] positions(ps, kind, n)[k] < n,
    decreases n,
{
    if n > 0 {
        lemma_positions_in_range(ps, kind, n - 1);
        let p = positions(ps, kind, n - 1);
        assert forall|k: int| 0 <= k < positions(ps, kind, n).len() implies 0 <= #[trigger] positions(ps, kind, n)[k] < n by {
            if k < p.len() {
                assert(positions(ps, kind, n)[k] == p[k]);
            }
        }
    }
}

/// When every patch has the same priority, each group runs in load order: the
/// order the engine picks is the order in which the patches are stored.
pub proof fn lemma_equal_priorities_run_in_load_order(ps: Seq<StoredPatch>, group: int, o: Seq<usize>)
    requires
        run_order(prios_at(ps, stream(ps, group)), o),
        forall|a: int, b: int| 0 <= a < ps.len() && 0 <= b < ps.len() ==> ps[a].1 == ps[b].1,
    ensures
        pick(stream(ps, group), o) == stream(ps, group),
{
    let st = stream(ps, group);
    let n = ps.len() as int;
    lemma_positions_in_range(ps, 0, n);
    lemma_positions_in_range(ps, 1, n);
    lemma_positions_in_range(ps, 2, n);
    assert forall|a: int| 0 <= a < st.len() implies 0 <= #[trigger] st[a] < n by {
        if group != 0 {
            let p1 = positions(ps, 1, n);
            if a >= p1.len() {
                assert(st[a] == positions(ps, 2, n)[a - p1.len()]);
            } else {
                assert(st[a] == p1[a]);
            }
        }
    }
    let pr = prios_at(ps, st);
    assert forall|a: int, b: int| 0 <= a < pr.len() && 0 <= b < pr.len() implies pr[a] == pr[b] by {
        assert(pr[a] == ps[st[a]].1 && pr[b] == ps[st[b]].1);
    }
    crate::order::lemma_ties_keep_load_order(pr, o);
    assert(pick(st, o) =~= st);
}

/// Patches that leave a text as it is leave it so when run one after another,
/// and the entries they record then carry no region.
pub proof fn lemma_quiet_run(b: Seq<u8>, ps: Seq<StoredPatch>, idxs: Seq<int>, t: Seq<char>)
    requires
        forall|j: int| 0 <= j < idxs.len() ==> step(b, ps[#[trigger] idxs[j]].0, t) == Some(b),
        forall|j: int, m: int| 0 <= j < idxs.len() && 0 <= m < step_entry(b, ps[idxs[j]].0, t).len() ==> #[trigger] step_entry(
            b,
            ps[idxs[j]].0,
            t,
        )[m] == 0,
    ensures
        run_all(b, ps, idxs, t) == Some(b),
        forall|i: int| 0 <= i < run_entries(b, ps, idxs, t).len() ==> #[trigger] run_entries(b, ps, idxs, t)[i] == 0,
    decreases idxs.len(),
{
    if idxs.len() > 0 {
        let init = idxs.drop_last();
        assert forall|j: int| 0 <= j < init.len() implies step(b, ps[#[trigger] init[j]].0, t) == Some(b) by {
            assert(init[j] == idxs[j]);
        }
        assert forall|j: int, m: int| 0 <= j < init.len() && 0 <= m < step_entry(b, ps[init[j]].0, t).len() implies #[trigger] step_entry(
            b,
            ps[init[j]].0,
            t,
        )[m] == 0 by {
            assert(init[j] == idxs[j]);
        }
        lemma_quiet_run(b, ps, init, t);
        let last = idxs.len() - 1;
        assert(idxs.last() == idxs[last]);
        let tail = step_entry(b, ps[idxs[last]].0, t);
        let head = run_entries(b, ps, init, t);
        assert(run_entries(b, ps, idxs, t) == head + tail);
        assert forall|i: int| 0 <= i < run_entries(b, ps, idxs, t).len() implies #[trigger] run_entries(b, ps, idxs, t)[i] == 0 by {
            if i < head.len() {
                assert(head[i] == 0);
            } else {
                assert(step_entry(b, ps[idxs[last]].0, t)[i - head.len()] == 0);
            }
        }
    }
}

/// When every patch has the same priority, the rewrite runs the copy patches and
/// then the pattern and regex patches in the order in which they were loaded.
pub proof fn lemma_equal_priorities_text(ps: Seq<StoredPatch>, b: Seq<u8>, t: Seq<char>, o0: Seq<usize>, o1: Seq<usize>)
    requires
        run_orders(ps, o0, o1),
        forall|a: int, c: int| 0 <= a < ps.len() && 0 <= c < ps.len() ==> ps[a].1 == ps[c].1,
    ensures
        engine_text(ps, b, t, o0, o1) == match run_all(b, ps, stream(ps, 0), t) {
            Some(c) => run_all(c, ps, stream(ps, 1), t),
            None => None,
        },
{
    lemma_equal_priorities_run_in_load_order(ps, 0, o0);
    lemma_equal_priorities_run_in_load_order(ps, 1, o1);
}

/// Once a run has failed it stays failed, whatever patches follow.
proof fn lemma_run_all_stays_failed(b: Seq<u8>, ps: Seq<StoredPatch>, idxs: Seq<int>, t: Seq<char>, k: int)
    requires
        0 <= k <= idxs.len(),
        run_all(b, ps, idxs.take(k), t) is None,
    ensures
        run_all(b, ps, idxs, t) is None,
    decreases idxs.len() - k,
{
    if k < idxs.len() {
        assert(idxs.take(k + 1).drop_last() =~= idxs.take(k));
        lemma_run_all_stays_failed(b, ps, idxs, t, k + 1);
    } else {
        assert(idxs.take(k) =~= idxs);
    }
}

} // verus!

verus! {

/// Whether `p` is a module patch whose `load_now` is `flag`.
pub open spec fn is_module_with(p: Patch, flag: bool) -> bool {
    match p {
        Patch::Module(m) => m.load_now == flag,
        _ => false,
    }
}

/// How many module patches of `ps` have `load_now` equal to `flag`.
pub open spec fn module_count(ps: Seq<StoredPatch>, flag: bool) -> nat
    decreases ps.len(),
{
    if ps.len() == 0 {
        0
    } else {
        module_count(ps.drop_last(), flag) + if is_module_with(ps.last().0, flag) {
            1nat
        } else {
            0nat
        }
    }
}

fn select_modules(ps: &Vec<StoredPatch>, flag: bool) -> (r: (Vec<usize>, Vec<i32>))
    ensures
        r.0.len() == r.1.len(),
        r.0.len() == module_count(ps@, flag),
        forall|k: int| 0 <= k < r.0.len() ==> #[trigger] r.0[k] < ps.len() && is_module_with(ps@[r.0[k] as int].0, flag)
            && r.1[k] == ps@[r.0[k] as int].1,
        forall|k: int, l: int| 0 <= k < l < r.0.len() ==> #[trigger] r.0[k] < #[trigger] r.0[l],
{
    let mut at: Vec<usize> = Vec::new();
    let mut prio: Vec<i32> = Vec::new();
    let mut i: usize = 0;
    while i < ps.len()
        invariant
            at.len() == prio.len(),
            i <= ps.len(),
            at.len() == module_count(ps@.take(i as int), flag),
            forall|k: int| 0 <= k < at.len() ==> #[trigger] at[k] < i && is_module_with(ps@[at[k] as int].0, flag)
                && prio[k] == ps@[at[k] as int].1,
            forall|k: int, l: int| 0 <= k < l < at.len() ==> #[trigger] at[k] < #[trigger] at[l],
        decreases ps.len() - i,
    {
        let hit = match &ps[i].0 {
            Patch::Module(m) => m.load_now == flag,
            _ => false,
        };
        proof {
            assert(ps@.take(i + 1).drop_last() =~= ps@.take(i as int));
            assert(ps@.take(i + 1).last() == ps@[i as int]);
        }
        if hit {
            at.push(i);
            prio.push(ps[i].1);
        }
        i += 1;
    }
    assert(ps@.take(i as int) =~= ps@);
    (at, prio)
}

/// `=[lovely NAME "SOURCE"]`: the chunk name under which a module's code is loaded.
pub open spec fn module_chunk_name(name: Seq<char>, source: Seq<char>) -> Seq<char> {
    "=[lovely "@ + name + " \""@ + source + "\"]"@
}

impl crate::patch::ModulePatch {
    /// The chunk name under which this module's code is loaded.
    pub fn chunk_name(&self) -> (r: String)
        ensures
            r@ == module_chunk_name(self.name@, self.display_source@),
    {
        let mut out: Vec<char> = Vec::new();
        crate::chars::push_chars(&mut out, "=[lovely ");
        crate::chars::push_chars(&mut out, self.name.as_str());
        crate::chars::push_chars(&mut out, " \"");
        crate::chars::push_chars(&mut out, self.display_source.as_str());
        crate::chars::push_chars(&mut out, "\"]");
        assert(out@ =~= module_chunk_name(self.name@, self.display_source@));
        string_of(out.as_slice())
    }

    /// Whether this module is registered when chunk `target` loads: a module
    /// loaded at once only right before its chunk, any other one always.
    pub fn applies_before(&self, target: &str) -> (r: bool)
        ensures
            r == (!self.load_now || (self.before is Some && self.before->Some_0@ == target@)),
    {
        if !self.load_now {
            return true;
        }
        match &self.before {
            Some(b) => crate::chars::same_text(b.as_str(), target),
            None => false,
        }
    }
}

impl PatchTable {
    /// The module patches whose `load_now` is `load_now`, by ascending priority,
    /// ties in load order.
    pub fn module_order(&self, load_now: bool) -> (r: Vec<usize>)
        ensures
            r.len() == module_count(self.patches@, load_now),
            forall|k: int| 0 <= k < r.len() ==> #[trigger] r[k] < self.patches.len() && is_module_with(self.patches@[r[k] as int].0, load_now),
            forall|k: int, l: int| 0 <= k < l < r.len() ==> {
                let a = self.patches@[#[trigger] r[k] as int].1;
                let b = self.patches@[#[trigger] r[l] as int].1;
                a < b || (a == b && r[k] < r[l])
            },
    {
        let (at, prio) = select_modules(&self.patches, load_now);
        let order = stable_order(&prio);
        let mut r: Vec<usize> = Vec::new();
        let mut j: usize = 0;
        while j < order.len()
            invariant
                run_order(prio@, order@),
                at.len() == prio.len(),
                at.len() == module_count(self.patches@, load_now),
                forall|k: int| 0 <= k < at.len() ==> #[trigger] at[k] < self.patches.len() && is_module_with(self.patches@[at[k] as int].0, load_now)
                    && prio[k] == self.patches@[at[k] as int].1,
                forall|k: int, l: int| 0 <= k < l < at.len() ==> #[trigger] at[k] < #[trigger] at[l],
                j <= order.len(),
                r.len() == j,
                forall|k: int| 0 <= k < j ==> #[trigger] r[k] == at[order[k] as int],
            decreases order.len() - j,
        {
            r.push(at[order[j]]);
            j += 1;
        }
        proof {
            assert forall|k: int, l: int| 0 <= k < l < r.len() implies {
                let a = self.patches@[#[trigger] r[k] as int].1;
                let b = self.patches@[#[trigger] r[l] as int].1;
                a < b || (a == b && r[k] < r[l])
            } by {
                let ok = order[k] as int;
                let ol = order[l] as int;
                assert(crate::order::runs_before(prio@, ok, ol));
                if ok < ol {
                    assert(at[ok] < at[ol]);
                }
            }
        }
        r
    }
}

} // verus!
