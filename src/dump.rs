//! Debug bookkeeping: which byte regions each patch inserted or rewrote, kept in
//! step with later edits and turned into line ranges at the end.
use vstd::prelude::*;
use crate::chars::{chars_of, string_of};
use crate::rope::{line_of, rope_byte_len, rope_bytes, rope_line_of_byte};

verus! {

/// The kind of patch that produced a debug entry.
#[derive(Clone, Copy, Debug, PartialEq, Eq, Structural)]
pub enum DebugPatchType {
    Pattern,
    Regex,
    Copy,
}

/// Where a debug entry comes from: the patch file, the pattern if any, the kind.
#[derive(Clone, Debug)]
pub struct PatchSource {
    pub file: String,
    pub pattern: Option<String>,
    pub patch_type: DebugPatchType,
}

/// A range of lines, numbered from one, both ends included.
#[derive(Clone, Copy, Debug, PartialEq, Eq, Structural)]
pub struct PatchRegion {
    pub start_line: usize,
    pub end_line: usize,
}

/// The line-based record of one patch application.
#[derive(Clone, Debug)]
pub struct PatchDebugEntry {
    pub patch_source: PatchSource,
    pub regions: Vec<PatchRegion>,
    pub warnings: Option<Vec<String>>,
}

/// A span of bytes that one patch application inserted or rewrote, with the change
/// in length that it caused.
#[derive(Clone, Copy, Debug, PartialEq, Eq, Structural)]
pub struct ByteRegion {
    pub start: usize,
    pub end: usize,
    pub delta: isize,
}

/// `x + d`, held to the range of `usize`.
pub open spec fn shifted(x: int, d: int) -> int {
    if x + d < 0 {
        0
    } else if x + d > usize::MAX {
        usize::MAX as int
    } else {
        x + d
    }
}

/// A region after an edit at `edit_pos` that changed the length by `delta`: a region
/// at or after the edit moves, one that straddles it stretches, one before it stays.
pub open spec fn adjusted(r: ByteRegion, edit_pos: int, delta: int) -> ByteRegion {
    if edit_pos <= r.start {
        ByteRegion {
            start: shifted(r.start as int, delta) as usize,
            end: shifted(r.end as int, delta) as usize,
            delta: r.delta,
        }
    } else if edit_pos < r.end {
        ByteRegion { start: r.start, end: shifted(r.end as int, delta) as usize, delta: r.delta }
    } else {
        r
    }
}

fn shift(x: usize, d: isize) -> (r: usize)
    ensures
        r == shifted(x as int, d as int),
{
    if d >= 0 {
        let du = d as usize;
        if x > usize::MAX - du {
            usize::MAX
        } else {
            x + du
        }
    } else {
        let du = (-(d + 1)) as usize + 1;
        if x < du {
            0
        } else {
            x - du
        }
    }
}

impl ByteRegion {
    /// Adjust this region based on an edit that occurred elsewhere.
    pub fn adjust(&mut self, edit_pos: usize, delta: isize)
        ensures
            *final(self) == adjusted(*old(self), edit_pos as int, delta as int),
    {
        if edit_pos <= self.start {
            self.start = shift(self.start, delta);
            self.end = shift(self.end, delta);
        } else if edit_pos < self.end {
            self.end = shift(self.end, delta);
        }
    }
}

/// The entry carries at least one warning.
pub open spec fn warned(e: ByteDebugEntry) -> bool {
    e.warnings is Some && e.warnings->Some_0.len() > 0
}

/// Byte-based record of one patch application, before the final text is known.
#[derive(Clone, Debug)]
pub struct ByteDebugEntry {
    pub patch_source: PatchSource,
    pub regions: Vec<ByteRegion>,
    pub warnings: Option<Vec<String>>,
}

impl ByteDebugEntry {
    /// Adjust all regions in this entry based on the edit that occurred.
    pub fn adjust(&mut self, edit_pos: usize, delta: isize)
        ensures
            final(self).patch_source == old(self).patch_source,
            final(self).warnings == old(self).warnings,
            final(self).regions.len() == old(self).regions.len(),
            forall|k: int|
                0 <= k < old(self).regions.len() ==> #[trigger] final(self).regions[k] == adjusted(
                    old(self).regions[k],
                    edit_pos as int,
                    delta as int,
                ),
    {
        let ghost before = self.regions@;
        let mut k: usize = 0;
        while k < self.regions.len()
            invariant
                self.patch_source == old(self).patch_source,
                self.warnings == old(self).warnings,
                before == old(self).regions@,
                self.regions.len() == before.len(),
                k <= before.len(),
                forall|j: int|
                    0 <= j < k ==> #[trigger] self.regions[j] == adjusted(
                        before[j],
                        edit_pos as int,
                        delta as int,
                    ),
                forall|j: int| k <= j < before.len() ==> #[trigger] self.regions[j] == before[j],
            decreases before.len() - k,
        {
            let mut r = self.regions[k];
            r.adjust(edit_pos, delta);
            self.regions.set(k, r);
            k += 1;
        }
    }
}

/// An edit that deleted `del` bytes at `pos` and put in `ins` bytes, in a text of
/// `len` bytes, leaves a region that lay inside the text inside the new text.
pub proof fn lemma_adjust_keeps_region_in_text(r: ByteRegion, pos: int, del: int, ins: int, len: int)
    requires
        r.start <= len,
        r.end <= len,
        0 <= pos,
        0 <= del,
        0 <= ins,
        pos + del <= len,
        len - del + ins <= usize::MAX,
    ensures
        adjusted(r, pos, ins - del).start <= len - del + ins,
        adjusted(r, pos, ins - del).end <= len - del + ins,
{
}

/// The debug record of one buffer: its name and one entry per patch applied.
#[derive(Clone, Debug)]
pub struct PatchDebug {
    pub buffer_name: String,
    pub entries: Vec<PatchDebugEntry>,
}

/// `x`, or the end of the text when it lies past it.
pub open spec fn clamped(x: int, len: int) -> int {
    if x > len {
        len
    } else {
        x
    }
}

/// A line index counted from one (held at the largest `usize`).
pub open spec fn one_based(n: nat) -> nat {
    if n < usize::MAX {
        n + 1
    } else {
        n
    }
}

/// The line range of a byte region in text `b`, numbered from one: the line of its
/// first byte to the line of its last (offsets past the end count as the end).
pub open spec fn line_region(b: Seq<u8>, r: ByteRegion) -> PatchRegion {
    let s = clamped(r.start as int, b.len() as int);
    let e = clamped(r.end as int, b.len() as int);
    PatchRegion {
        start_line: one_based(line_of(b, s)) as usize,
        end_line: one_based(line_of(b, if e == 0 { 0 } else { e - 1 })) as usize,
    }
}


/// Every region of `e` lies inside a text of `len` bytes.
pub open spec fn entry_within(e: ByteDebugEntry, len: int) -> bool {
    forall|k: int|
        0 <= k < e.regions.len() ==> (#[trigger] e.regions[k]).start <= len && e.regions[k].end <= len
}

/// Moving the regions of an entry past an edit (as `ByteDebugEntry::adjust` does)
/// keeps them inside the text when they were inside it before the edit.
pub proof fn lemma_entry_stays_in_text(before: ByteDebugEntry, after: ByteDebugEntry, pos: int, del: int, ins: int, len: int)
    requires
        entry_within(before, len),
        0 <= pos,
        0 <= del,
        0 <= ins,
        pos + del <= len,
        len - del + ins <= usize::MAX,
        after.regions.len() == before.regions.len(),
        forall|k: int| 0 <= k < before.regions.len() ==> #[trigger] after.regions[k] == adjusted(before.regions[k], pos, ins - del),
    ensures
        entry_within(after, len - del + ins),
{
    assert forall|k: int| 0 <= k < after.regions.len() implies (#[trigger] after.regions[k]).start <= len - del + ins
        && after.regions[k].end <= len - del + ins by {
        assert(before.regions[k].start <= len && before.regions[k].end <= len);
        lemma_adjust_keeps_region_in_text(before.regions[k], pos, del, ins, len);
    }
}

fn line_region_of(rope: &crop::Rope, r: ByteRegion) -> (p: PatchRegion)
    ensures
        p == line_region(rope_bytes(*rope), r),
{
    let len = rope_byte_len(rope);
    let s = if r.start > len {
        len
    } else {
        r.start
    };
    let e = if r.end > len {
        len
    } else {
        r.end
    };
    let last = if e == 0 {
        0
    } else {
        e - 1
    };
    let a = rope_line_of_byte(rope, s);
    let z = rope_line_of_byte(rope, last);
    let start_line = if a < usize::MAX {
        a + 1
    } else {
        a
    };
    let end_line = if z < usize::MAX {
        z + 1
    } else {
        z
    };
    PatchRegion { start_line, end_line }
}

impl PatchDebug {
    pub fn new(buffer_name: &str) -> (r: Self)
        ensures
            r.buffer_name@ == buffer_name@,
            r.entries.len() == 0,
    {
        PatchDebug { buffer_name: buffer_name.to_owned(), entries: Vec::new() }
    }

    /// Convert from byte-based to line-based.
    pub fn from_byte_entries(buffer_name: &str, byte_entries: Vec<ByteDebugEntry>, rope: &crop::Rope) -> (r: Self)
        ensures
            r.buffer_name@ == buffer_name@,
            r.entries.len() == byte_entries.len(),
            forall|i: int|
                0 <= i < byte_entries.len() ==> {
                    &&& (#[trigger] r.entries[i]).patch_source == byte_entries[i].patch_source
                    &&& r.entries[i].warnings == byte_entries[i].warnings
                    &&& r.entries[i].regions.len() == byte_entries[i].regions.len()
                    &&& forall|k: int|
                        0 <= k < byte_entries[i].regions.len() ==> #[trigger] r.entries[i].regions[k]
                            == line_region(rope_bytes(*rope), byte_entries[i].regions[k])
                },
    {
        let ghost all = byte_entries@;
        let n = byte_entries.len();
        let mut rest = byte_entries;
        let mut entries: Vec<PatchDebugEntry> = Vec::new();
        let mut i: usize = 0;
        while i < n
            invariant
                n == all.len(),
                all == byte_entries@,
                rest@ == all.subrange(i as int, n as int),
                i <= n,
                entries.len() == i,
                forall|j: int|
                    0 <= j < i ==> {
                        &&& (#[trigger] entries[j]).patch_source == byte_entries[j].patch_source
                        &&& entries[j].warnings == byte_entries[j].warnings
                        &&& entries[j].regions.len() == byte_entries[j].regions.len()
                        &&& forall|k: int|
                            0 <= k < byte_entries[j].regions.len() ==> #[trigger] entries[j].regions[k]
                                == line_region(rope_bytes(*rope), byte_entries[j].regions[k])
                    },
            decreases n - i,
        {
            let e = rest.remove(0);
            assert(e == byte_entries[i as int]);
            let mut regions: Vec<PatchRegion> = Vec::new();
            let mut k: usize = 0;
            while k < e.regions.len()
                invariant
                        i < n,
                    n == all.len(),
                    all == byte_entries@,
                    e == byte_entries[i as int],
                    k <= e.regions.len(),
                    regions.len() == k,
                    forall|m: int|
                        0 <= m < k ==> #[trigger] regions[m] == line_region(
                            rope_bytes(*rope),
                            e.regions[m],
                        ),
                decreases e.regions.len() - k,
            {
                regions.push(line_region_of(rope, e.regions[k]));
                k += 1;
            }
            entries.push(
                PatchDebugEntry {
                    patch_source: e.patch_source,
                    regions,
                    warnings: e.warnings,
                },
            );
            i += 1;
        }
        PatchDebug { buffer_name: buffer_name.to_owned(), entries }
    }
}

} // verus!

verus! {

/// What `regex_lite` finds in `text` with `pattern`: `None` when the pattern does
/// not compile or nothing matches, else the text of each group of the first
/// match (`None` for a group that took no part).
pub uninterp spec fn lite_captures(pattern: Seq<char>, text: Seq<char>) -> Option<Seq<Option<Seq<char>>>>;

/// The text of each group, as plain values.
pub open spec fn group_views(v: Seq<Option<String>>) -> Seq<Option<Seq<char>>> {
    v.map_values(|g: Option<String>| match g {
        Some(s) => Some(s@),
        None => None,
    })
}

/// Relies on `regex_lite::Regex::new` and `Regex::captures`: the groups of the
/// leftmost-first match, or `None` when the pattern does not compile or nothing
/// matches.
#[verifier::external_body]
fn regex_captures(pattern: &str, text: &str) -> (r: Option<Vec<Option<String>>>)
    ensures
        r.is_some() == lite_captures(pattern@, text@).is_some(),
        r.is_some() ==> group_views(r.unwrap()@) == lite_captures(pattern@, text@).unwrap(),
{
    let re = regex_lite::Regex::new(pattern).ok()?;
    let c = re.captures(text)?;
    Some(c.iter().map(|m| m.map(|m| m.as_str().to_string())).collect())
}

/// The shape of a decorated chunk name, `=[tag sub "path"]` with `sub` optional.
pub open spec fn chunk_name_pattern() -> Seq<char> {
    "=\\[(\\w+)(?: (\\S+))? \"([^\"]+)\"\\]"@
}

/// The parts of a decorated chunk name: tag, optional sub-name, path.
pub open spec fn chunk_parts(name: Seq<char>) -> Option<(Seq<char>, Option<Seq<char>>, Seq<char>)> {
    match lite_captures(chunk_name_pattern(), name) {
        Some(g) => if g.len() >= 4 && g[1] is Some && g[3] is Some {
            Some((g[1]->Some_0, g[2], g[3]->Some_0))
        } else {
            None
        },
        None => None,
    }
}

fn decorated_parts(name: &str) -> (r: Option<(String, Option<String>, String)>)
    ensures
        r.is_some() == chunk_parts(name@).is_some(),
        r.is_some() ==> {
            let p = chunk_parts(name@).unwrap();
            &&& r.unwrap().0@ == p.0
            &&& r.unwrap().1.is_some() == p.1.is_some()
            &&& r.unwrap().1.is_some() ==> r.unwrap().1.unwrap()@ == p.1.unwrap()
            &&& r.unwrap().2@ == p.2
        },
{
    let g = match regex_captures("=\\[(\\w+)(?: (\\S+))? \"([^\"]+)\"\\]", name) {
        Some(g) => g,
        None => {
            return None;
        },
    };
    if g.len() < 4 {
        return None;
    }
    let ghost gv = group_views(g@);
    assert(gv[1] == match g@[1] { Some(s) => Some(s@), None => None::<Seq<char>> });
    assert(gv[2] == match g@[2] { Some(s) => Some(s@), None => None::<Seq<char>> });
    assert(gv[3] == match g@[3] { Some(s) => Some(s@), None => None::<Seq<char>> });
    match (&g[1], &g[3]) {
        (Some(tag), Some(path)) => {
            let sub = match &g[2] {
                Some(x) => Some(x.clone()),
                None => None,
            };
            Some((tag.clone(), sub, path.clone()))
        },
        _ => None,
    }
}

/// `s` with each `.` turned into `/`.
pub open spec fn dots_to_slashes(s: Seq<char>) -> Seq<char> {
    s.map_values(|c: char| if c == '.' { '/' } else { c })
}

/// The path under which a chunk is dumped: `tag/sub/path` for a decorated name
/// (dots of `sub` becoming slashes), else the name without a leading `@`.
pub open spec fn pretty(name: Seq<char>) -> Seq<char> {
    match chunk_parts(name) {
        Some(p) => p.0 + seq!['/'] + dots_to_slashes(
            match p.1 {
                Some(s) => s,
                None => seq![],
            },
        ) + seq!['/'] + p.2,
        None => crate::table::strip_at(name),
    }
}

/// The path under which the dump of chunk `name` is written.
pub fn pretty_name(name: &str) -> (r: String)
    ensures
        r@ == pretty(name@),
{
    match decorated_parts(name) {
        Some((tag, sub, path)) => {
            let mut out = chars_of(tag.as_str());
            out.push('/');
            let ghost front = out@;
            let subc = match &sub {
                Some(s) => chars_of(s.as_str()),
                None => Vec::new(),
            };
            let ghost sv = subc@;
            let mut i: usize = 0;
            while i < subc.len()
                invariant
                    i <= subc.len(),
                    sv == subc@,
                    out@ == front + dots_to_slashes(sv.take(i as int)),
                decreases subc.len() - i,
            {
                out.push(if subc[i] == '.' { '/' } else { subc[i] });
                assert(dots_to_slashes(sv.take(i + 1)) =~= dots_to_slashes(sv.take(i as int)).push(
                    if sv[i as int] == '.' { '/' } else { sv[i as int] },
                ));
                i += 1;
            }
            assert(sv.take(i as int) =~= sv);
            out.push('/');
            let pv = chars_of(path.as_str());
            let ghost mid = out@;
            let mut k: usize = 0;
            while k < pv.len()
                invariant
                    k <= pv.len(),
                    out@ == mid + pv@.take(k as int),
                decreases pv.len() - k,
            {
                out.push(pv[k]);
                assert(pv@.take(k + 1) =~= pv@.take(k as int).push(pv@[k as int]));
                k += 1;
            }
            assert(pv@.take(k as int) =~= pv@);
            proof {
                let p = chunk_parts(name@).unwrap();
                let s = match p.1 {
                    Some(s) => s,
                    None => Seq::<char>::empty(),
                };
                assert(sv == s);
                assert(out@ =~= pretty(name@));
            }
            string_of(out.as_slice())
        },
        None => crate::table::strip_at_sign(name),
    }
}

/// Dumps are written only for names of at most 100 characters.
pub fn should_dump(pretty_name: &str) -> (r: bool)
    ensures
        r == (pretty_name@.len() <= 100),
{
    chars_of(pretty_name).len() <= 100
}

} // verus!
