//! Pattern patches: find blocks of lines that match a multi-line wildcard pattern
//! and put the payload before, after or in place of each.
use vstd::prelude::*;
use vstd::utf8::valid_utf8;
use crate::chars::{
    build_payload, indent_of, leading_indent, line_body, payload_text, split_lines, strip_eol, text_lines,
    trim_start_of, trim_str, trimmed, views,
};
use crate::dump::{warned, ByteDebugEntry, DebugPatchType, PatchSource};
use crate::warn::{count_text, count_warning, no_match_text, no_match_warning};
use crate::edit::{apply_edits, edit_views, edited, edits_fit, region_of, Edit, EditSpec};
use crate::glob::{glob_match, wildcard_matches};
use crate::patch::{InsertPosition, PatternPatch};
use crate::rope::{
    lemma_line_start_boundary, lemma_line_start_monotone, lemma_line_start_shape, line_len,
    line_start, raw_line, rope_byte_len, rope_byte_of_line, rope_bytes, rope_raw_lines,
};

verus! {

/// The lines of a rope's text, terminators kept.
pub open spec fn rope_lines(b: Seq<u8>) -> Seq<Seq<char>> {
    Seq::new(line_len(b), |k: int| raw_line(b, k as nat))
}

/// The lines of a pattern, each trimmed.
pub open spec fn pattern_lines(p: Seq<char>) -> Seq<Seq<char>> {
    text_lines(p).map_values(|l: Seq<char>| trimmed(l))
}

/// Whether the block of lines from `i` on matches the pattern lines `pats`, each
/// line taken without its terminator and its leading whitespace.
pub open spec fn window_ok(lines: Seq<Seq<char>>, pats: Seq<Seq<char>>, i: int) -> bool {
    &&& 0 <= i
    &&& i + pats.len() <= lines.len()
    &&& forall|k: int| 0 <= k < pats.len() ==> glob_match(pats[k], trim_start_of(strip_eol(#[trigger] lines[i + k])))
}

/// The first lines of the blocks that match, scanning from line `i`: after a match
/// the scan goes on below the block, else at the next line.
pub open spec fn block_matches(lines: Seq<Seq<char>>, pats: Seq<Seq<char>>, i: int) -> Seq<int>
    decreases lines.len() - i,
{
    if pats.len() == 0 || i < 0 || i + pats.len() > lines.len() {
        seq![]
    } else if window_ok(lines, pats, i) {
        seq![i] + block_matches(lines, pats, i + pats.len())
    } else {
        block_matches(lines, pats, i + 1)
    }
}

/// The matches that are rewritten: at most `times` of them, the first ones.
pub open spec fn kept(ms: Seq<int>, times: Option<usize>) -> Seq<int> {
    match times {
        Some(t) => if ms.len() > t {
            ms.take(t as int)
        } else {
            ms
        },
        None => ms,
    }
}

/// The edit for the block of `n` lines that starts at line `m` of text `b`.
pub open spec fn block_edit(b: Seq<u8>, p: PatternPatch, n: int, m: int) -> EditSpec {
    let start = line_start(b, m as nat) as int;
    let end = line_start(b, (m + n) as nat) as int;
    let indent = if p.match_indent {
        leading_indent(raw_line(b, m as nat))
    } else {
        seq![]
    };
    let text = payload_text(p.payload@, indent);
    match p.position {
        InsertPosition::Before => (start, start, text),
        InsertPosition::After => (end, end, text),
        InsertPosition::At => (start, end, text),
    }
}

/// The matches of patch `p` in text `b` that it rewrites.
pub open spec fn chosen(b: Seq<u8>, p: PatternPatch) -> Seq<int> {
    kept(block_matches(rope_lines(b), pattern_lines(p.pattern@), 0), p.times)
}

/// The edits that patch `p` makes to text `b`.
pub open spec fn pattern_edits(b: Seq<u8>, p: PatternPatch) -> Seq<EditSpec> {
    let n = pattern_lines(p.pattern@).len() as int;
    chosen(b, p).map_values(|m: int| block_edit(b, p, n, m))
}

/// Every block that matches lies within the lines: a pattern longer than the
/// lines left from some line never matches there.
pub proof fn lemma_blocks_shape(lines: Seq<Seq<char>>, pats: Seq<Seq<char>>, i: int)
    requires
        0 <= i,
    ensures
        forall|k: int|
            0 <= k < block_matches(lines, pats, i).len() ==> {
                &&& i <= #[trigger] block_matches(lines, pats, i)[k]
                &&& window_ok(lines, pats, block_matches(lines, pats, i)[k])
            },
        forall|k: int|
            0 <= k < block_matches(lines, pats, i).len() - 1 ==> #[trigger] block_matches(
                lines,
                pats,
                i,
            )[k] + pats.len() <= block_matches(lines, pats, i)[k + 1],
    decreases lines.len() - i,
{
    if pats.len() == 0 || i + pats.len() > lines.len() {
    } else if window_ok(lines, pats, i) {
        lemma_blocks_shape(lines, pats, i + pats.len());
        let r = block_matches(lines, pats, i);
        let t = block_matches(lines, pats, i + pats.len());
        assert forall|k: int| 0 <= k < r.len() - 1 implies #[trigger] r[k] + pats.len() <= r[k + 1] by {
            if k > 0 {
                assert(r[k] == t[k - 1]);
            }
            assert(r[k + 1] == t[k]);
        }
        assert forall|k: int| 0 <= k < r.len() implies i <= #[trigger] r[k] && window_ok(lines, pats, r[k]) by {
            if k > 0 {
                assert(r[k] == t[k - 1]);
            }
        }
    } else {
        lemma_blocks_shape(lines, pats, i + 1);
        assert(block_matches(lines, pats, i) == block_matches(lines, pats, i + 1));
    }
}

proof fn lemma_blocks_spread(ms: Seq<int>, n: int, a: int, c: int)
    requires
        forall|k: int| 0 <= k < ms.len() - 1 ==> #[trigger] ms[k] + n <= ms[k + 1],
        0 <= a < c < ms.len(),
        n >= 0,
    ensures
        ms[a] + n <= ms[c],
    decreases c - a,
{
    if c > a + 1 {
        lemma_blocks_spread(ms, n, a, c - 1);
        assert(ms[c - 1] + n <= ms[c]);
    } else {
        assert(ms[a] + n <= ms[a + 1]);
    }
}

/// When `times` leaves some matching blocks out, the text from the end of the
/// last rewritten block on is kept as it was, and every block left out lies in it.
pub proof fn lemma_blocks_past_times_untouched(b: Seq<u8>, p: PatternPatch, j: int)
    requires
        chosen(b, p).len() > 0,
        edits_fit(b, pattern_edits(b, p)),
        ({
            let all = block_matches(rope_lines(b), pattern_lines(p.pattern@), 0);
            chosen(b, p).len() <= j < all.len()
        }),
    ensures
        ({
            let es = pattern_edits(b, p);
            let out = edited(b, es);
            let c = es.last().1;
            let all = block_matches(rope_lines(b), pattern_lines(p.pattern@), 0);
            &&& c <= line_start(b, all[j] as nat)
            &&& out.subrange(out.len() - (b.len() - c), out.len() as int) == b.subrange(c, b.len() as int)
        }),
{
    let es = pattern_edits(b, p);
    let all = block_matches(rope_lines(b), pattern_lines(p.pattern@), 0);
    let ms = chosen(b, p);
    let n = pattern_lines(p.pattern@).len() as int;
    let t = ms.len() as int;
    lemma_blocks_shape(rope_lines(b), pattern_lines(p.pattern@), 0);
    assert(ms[t - 1] == all[t - 1]);
    lemma_blocks_spread(all, n, t - 1, j);
    let last = ms[t - 1];
    lemma_line_start_monotone(b, (last + n) as nat, all[j] as nat);
    lemma_line_start_monotone(b, last as nat, (last + n) as nat);
    assert(es[t - 1] == block_edit(b, p, n, last));
    let out = edited(b, es);
    let c = es.last().1;
    assert(crate::edit::cursor(es, es.len() as int) == c);
    assert(out.subrange(out.len() - (b.len() - c), out.len() as int) =~= b.subrange(c, b.len() as int));
}

fn window_at(lines: &Vec<String>, pats: &Vec<String>, i: usize) -> (r: bool)
    requires
        i + pats.len() <= lines.len(),
    ensures
        r == window_ok(views(lines@), views(pats@), i as int),
{
    let mut k: usize = 0;
    while k < pats.len()
        invariant
            i + pats.len() <= lines.len(),
            k <= pats.len(),
            forall|j: int| 0 <= j < k ==> glob_match(views(pats@)[j], trim_start_of(strip_eol(#[trigger] views(lines@)[i + j]))),
        decreases pats.len() - k,
    {
        let t = line_body(lines[i + k].as_str());
        if !wildcard_matches(pats[k].as_str(), t.as_str()) {
            assert(!glob_match(views(pats@)[k as int], trim_start_of(strip_eol(views(lines@)[i + k]))));
            return false;
        }
        k += 1;
    }
    true
}

proof fn lemma_no_indent(p: Seq<char>, at_start: bool)
    ensures
        crate::chars::indented(p, seq![], at_start) == p,
    decreases p.len(),
{
    if p.len() > 0 {
        lemma_no_indent(p.drop_first(), p[0] == '\n');
        assert(seq![p[0]] + p.drop_first() =~= p);
        assert(Seq::<char>::empty() + seq![p[0]] =~= seq![p[0]]);
    }
}

/// Without `match_indent`, each block gets the payload as written, with one `\n`
/// added when it does not end with one.
pub proof fn lemma_payload_as_written(b: Seq<u8>, p: PatternPatch, k: int)
    requires
        !p.match_indent,
        0 <= k < pattern_edits(b, p).len(),
    ensures
        pattern_edits(b, p)[k].2 == p.payload@ + if p.payload@.len() > 0 && p.payload@.last() == '\n' {
            Seq::<char>::empty()
        } else {
            seq!['\n']
        },
{
    lemma_no_indent(p.payload@, true);
}

/// With `match_indent`, each line of the payload gets the leading spaces and tabs
/// of the block's first line, exactly as they are there.
pub proof fn lemma_payload_indented(b: Seq<u8>, p: PatternPatch, k: int)
    requires
        p.match_indent,
        0 <= k < pattern_edits(b, p).len(),
    ensures
        pattern_edits(b, p)[k].2 == payload_text(p.payload@, leading_indent(raw_line(b, chosen(b, p)[k] as nat))),
{
}

/// The first lines of the blocks of `lines` that match `pats`.
pub fn find_blocks(lines: &Vec<String>, pats: &Vec<String>) -> (r: Vec<usize>)
    ensures
        r@.map_values(|x: usize| x as int) == block_matches(views(lines@), views(pats@), 0),
{
    let ghost ls = views(lines@);
    let ghost ps = views(pats@);
    let mut out: Vec<usize> = Vec::new();
    if pats.len() == 0 {
        assert(out@.map_values(|x: usize| x as int) =~= block_matches(ls, ps, 0));
        return out;
    }
    let mut i: usize = 0;
    while i <= lines.len() && pats.len() <= lines.len() - i
        invariant
            ls == views(lines@),
            ps == views(pats@),
            pats.len() > 0,
            out@.map_values(|x: usize| x as int) + block_matches(ls, ps, i as int) == block_matches(ls, ps, 0),
        decreases lines.len() + 1 - i,
    {
        let ghost before = out@.map_values(|x: usize| x as int);
        if window_at(lines, pats, i) {
            out.push(i);
            assert(out@.map_values(|x: usize| x as int) =~= before.push(i as int));
            assert(before.push(i as int) + block_matches(ls, ps, i + pats.len()) =~= before + block_matches(ls, ps, i as int));
            i += pats.len();
        } else {
            i += 1;
        }
    }
    assert(block_matches(ls, ps, i as int) =~= Seq::<int>::empty());
    assert(out@.map_values(|x: usize| x as int) =~= block_matches(ls, ps, 0));
    out
}

/// The warnings that patch `p` records on text `b` for chunk `target`, read
/// from `path`: one when no block matches, one when the number of blocks differs
/// from `times`.
pub open spec fn pattern_warnings(b: Seq<u8>, p: PatternPatch, target: Seq<char>, path: Seq<char>) -> Seq<Seq<char>> {
    let all = block_matches(rope_lines(b), pattern_lines(p.pattern@), 0);
    (if all.len() == 0 {
        seq![no_match_text("Pattern"@, "pattern"@, p.pattern@, target, path)]
    } else {
        seq![]
    }) + (if p.times is Some && all.len() != p.times->Some_0 {
        seq![count_text("Pattern"@, "pattern"@, p.pattern@, target, path, all.len(), p.times->Some_0 as nat)]
    } else {
        seq![]
    })
}

impl PatternPatch {
    fn block_edits(&self, rope: &crop::Rope, lines: &Vec<String>, found: &Vec<usize>, n: usize) -> (r: Option<Vec<Edit>>)
        requires
            valid_utf8(rope_bytes(*rope)),
            n == pattern_lines(self.pattern@).len(),
            found@.map_values(|x: usize| x as int) == chosen(rope_bytes(*rope), *self),
            views(lines@) == rope_lines(rope_bytes(*rope)),
            forall|j: int| 0 <= j < chosen(rope_bytes(*rope), *self).len() ==> window_ok(rope_lines(rope_bytes(*rope)), pattern_lines(self.pattern@), #[trigger] chosen(rope_bytes(*rope), *self)[j]),
            forall|j: int| 0 <= j < chosen(rope_bytes(*rope), *self).len() - 1 ==> #[trigger] chosen(rope_bytes(*rope), *self)[j] + n <= chosen(rope_bytes(*rope), *self)[j + 1],
        ensures
            r is Some <==> edits_fit(rope_bytes(*rope), pattern_edits(rope_bytes(*rope), *self)),
            r is Some ==> edit_views(r->Some_0@) == pattern_edits(rope_bytes(*rope), *self),
    {
        let ghost b = rope_bytes(*rope);
        let ghost ms = chosen(b, *self);
        let len = rope_byte_len(rope);
        if len > isize::MAX as usize {
            return None;
        }
        let ghost es = pattern_edits(b, *self);
        let mut edits: Vec<Edit> = Vec::new();
        let mut k: usize = 0;
        while k < found.len()
            invariant
                b == rope_bytes(*rope),
                n == pattern_lines(self.pattern@).len(),
                valid_utf8(b),
                b.len() <= isize::MAX,
                n == pattern_lines(self.pattern@).len(),
                ms == chosen(b, *self),
                es == pattern_edits(b, *self),
                found@.map_values(|x: usize| x as int) == ms,
                views(lines@) == rope_lines(b),
                forall|j: int| 0 <= j < ms.len() ==> window_ok(rope_lines(b), pattern_lines(self.pattern@), #[trigger] ms[j]),
                forall|j: int| 0 <= j < ms.len() - 1 ==> #[trigger] ms[j] + n <= ms[j + 1],
                k <= found.len(),
                edit_views(edits@) == es.take(k as int),
                edits_fit(b, es.take(k as int)),
            decreases found.len() - k,
        {
            let m = found[k];
            assert(ms[k as int] == m as int);
            assert(window_ok(rope_lines(b), pattern_lines(self.pattern@), ms[k as int]));
            assert(rope_lines(b).len() == lines.len());
            let start = rope_byte_of_line(rope, m);
            let end = rope_byte_of_line(rope, m + n);
            let indent = if self.match_indent {
                indent_of(lines[m].as_str())
            } else {
                String::new()
            };
            let text = build_payload(self.payload.as_str(), indent.as_str());
            proof {
                assert(views(lines@)[m as int] == lines[m as int]@);
                assert(rope_lines(b)[m as int] == raw_line(b, m as nat));
                assert(es[k as int] == block_edit(b, *self, n as int, m as int));
                assert(es[k as int].2 == text@);
            }
            let tl = crate::chars::byte_len(text.as_str());
            if tl > isize::MAX as usize {
                proof {
                    crate::edit::lemma_unfit(b, es, k as int);
                }
                return None;
            }
            let e = match self.position {
                InsertPosition::Before => Edit { pos: start, del_end: start, text },
                InsertPosition::After => Edit { pos: end, del_end: end, text },
                InsertPosition::At => Edit { pos: start, del_end: end, text },
            };
            proof {
                lemma_line_start_shape(b, (m + n) as nat);
                lemma_line_start_monotone(b, m as nat, (m + n) as nat);
                lemma_line_start_boundary(b, m as nat);
                lemma_line_start_boundary(b, (m + n) as nat);
                if k > 0 {
                    let pm = ms[k - 1];
                    assert(pm + n <= ms[k as int]);
                    assert(window_ok(rope_lines(b), pattern_lines(self.pattern@), pm));
                    lemma_line_start_monotone(b, (pm + n) as nat, m as nat);
                    lemma_line_start_monotone(b, pm as nat, (pm + n) as nat);
                    assert(es[k - 1] == block_edit(b, *self, n as int, pm));
                    assert(es.take(k as int).last() == es[k - 1]);
                }
                assert(e@ == block_edit(b, *self, n as int, m as int));
                assert(es[k as int] == e@);
                crate::edit::lemma_fit_push(b, es.take(k as int), e@);
            }
            let ghost before = edit_views(edits@);
            edits.push(e);
            proof {
                assert(edit_views(edits@) =~= before.push(e@));
                assert(es.take(k + 1) =~= es.take(k as int).push(e@));
            }
            k += 1;
        }
        assert(es.take(k as int) =~= es);
        Some(edits)
    }

    /// Apply the pattern patch onto the rope when it targets `target`. Returns
    /// the debug entry of the application: its regions, and warnings when
    /// nothing matched or the number of matches differs from `times` (then only
    /// the first `times` are rewritten). Returns `None`, leaving the rope as it
    /// was, when the patch does not target `target` or the rewrite would not fit
    /// in byte offsets.
    pub fn apply(&self, target: &str, rope: &mut crop::Rope, path: &str) -> (r: Option<ByteDebugEntry>)
        requires
            valid_utf8(rope_bytes(*old(rope))),
        ensures
            valid_utf8(rope_bytes(*final(rope))),
            ({
                let b = rope_bytes(*old(rope));
                let es = pattern_edits(b, *self);
                let all = block_matches(rope_lines(b), pattern_lines(self.pattern@), 0);
                &&& !self.target.covers(target@) ==> r is None
                &&& r is Some ==> {
                    &&& self.target.covers(target@)
                    &&& r->Some_0.patch_source.patch_type == DebugPatchType::Pattern
                    &&& r->Some_0.patch_source.file@ == path@
                    &&& r->Some_0.regions.len() == es.len()
                    &&& (self.times is Some && all.len() != self.times->Some_0) ==> warned(r->Some_0)
                    &&& r->Some_0.warnings is None <==> pattern_warnings(b, *self, target@, path@).len() == 0
                    &&& r->Some_0.warnings is Some ==> views(r->Some_0.warnings->Some_0@) == pattern_warnings(b, *self, target@, path@)
                }
                &&& (self.target.covers(target@) && chosen(b, *self).len() == 0) ==> {
                    &&& r is Some
                    &&& warned(r->Some_0)
                    &&& rope_bytes(*final(rope)) == b
                }
                &&& (self.target.covers(target@) && chosen(b, *self).len() > 0) ==> {
                    &&& r is Some <==> edits_fit(b, es)
                    &&& r is Some ==> rope_bytes(*final(rope)) == edited(b, es)
                        && forall|k: int| 0 <= k < es.len() ==> region_of(b, es, k, #[trigger] r->Some_0.regions[k])
                }
                &&& r is None ==> rope_bytes(*final(rope)) == b
            }),
    {
        let ghost b = rope_bytes(*rope);
        if !self.target.can_apply(target) {
            return None;
        }
        let raw_pats = split_lines(self.pattern.as_str());
        let mut pats: Vec<String> = Vec::new();
        let mut i: usize = 0;
        while i < raw_pats.len()
            invariant
                i <= raw_pats.len(),
                views(raw_pats@) == text_lines(self.pattern@),
                views(pats@) == pattern_lines(self.pattern@).take(i as int),
            decreases raw_pats.len() - i,
        {
            let t = trim_str(raw_pats[i].as_str());
            let ghost before = views(pats@);
            pats.push(t);
            assert(views(pats@) =~= before.push(t@));
            assert(pattern_lines(self.pattern@).take(i + 1) =~= pattern_lines(self.pattern@).take(i as int).push(t@));
            i += 1;
        }
        assert(views(pats@) =~= pattern_lines(self.pattern@));
        let lines = rope_raw_lines(rope);
        assert(views(lines@) =~= rope_lines(b));
        let mut found = find_blocks(&lines, &pats);
        let n = pats.len();
        proof {
            lemma_blocks_shape(rope_lines(b), pattern_lines(self.pattern@), 0);
        }
        let mut warnings: Vec<String> = Vec::new();
        let ghost all = block_matches(rope_lines(b), pattern_lines(self.pattern@), 0);
        assert(found@.map_values(|x: usize| x as int).len() == all.len());
        if found.len() == 0 {
            warnings.push(no_match_warning("Pattern", "pattern", self.pattern.as_str(), target, path));
        }
        assert(views(warnings@) =~= if all.len() == 0 {
            seq![no_match_text("Pattern"@, "pattern"@, self.pattern@, target@, path@)]
        } else {
            Seq::<Seq<char>>::empty()
        });
        if let Some(t) = self.times {
            if found.len() != t {
                let ghost before = views(warnings@);
                warnings.push(count_warning("Pattern", "pattern", self.pattern.as_str(), target, path, found.len(), t));
                assert(views(warnings@) =~= before.push(count_text("Pattern"@, "pattern"@, self.pattern@, target@, path@, all.len(), t as nat)));
            }
            if found.len() > t {
                found.truncate(t);
            }
        }
        let ghost ms = chosen(b, *self);
        assert(found@.map_values(|x: usize| x as int) =~= ms);
        assert(views(warnings@) =~= pattern_warnings(b, *self, target@, path@));
        let source = PatchSource {
            file: path.to_owned(),
            pattern: Some(self.pattern.clone()),
            patch_type: DebugPatchType::Pattern,
        };
        let warned_now = warnings.len() > 0;
        let warnings = if warned_now {
            Some(warnings)
        } else {
            None
        };
        if found.len() == 0 {
            return Some(ByteDebugEntry { patch_source: source, regions: Vec::new(), warnings });
        }
        proof {
            let bm = block_matches(rope_lines(b), pattern_lines(self.pattern@), 0);
            assert(forall|j: int| 0 <= j < ms.len() ==> ms[j] == bm[j]);
            assert forall|j: int| 0 <= j < ms.len() implies window_ok(rope_lines(b), pattern_lines(self.pattern@), #[trigger] ms[j]) by {
                assert(ms[j] == bm[j]);
            }
            assert forall|j: int| 0 <= j < ms.len() - 1 implies #[trigger] ms[j] + n <= ms[j + 1] by {
                assert(ms[j] == bm[j]);
                assert(ms[j + 1] == bm[j + 1]);
            }
        }
        let edits = match self.block_edits(rope, &lines, &found, n) {
            Some(e) => e,
            None => {
                return None;
            },
        };
        let regions = apply_edits(rope, &edits);
        Some(ByteDebugEntry { patch_source: source, regions, warnings })
    }
}

} // verus!
