//! Copy patches: whole texts put before or after a buffer.
use vstd::prelude::*;
use vstd::utf8::{encode_utf8, is_char_boundary_start_end_of_seq, valid_utf8};
use crate::chars::{byte_len, chars_of, string_of, views};
use crate::dump::{ByteDebugEntry, DebugPatchType, PatchSource};
use crate::edit::{apply_edits, edit_views, edited, edits_fit, lemma_fit_push, lemma_unfit, region_of, Edit, EditSpec};
use crate::patch::{CopyPatch, CopyPosition};
use crate::rope::{rope_byte_len, rope_bytes};

verus! {

/// Each text followed by a `\n`, one after the other.
pub open spec fn joined_lines(v: Seq<Seq<char>>) -> Seq<char>
    decreases v.len(),
{
    if v.len() == 0 {
        seq![]
    } else {
        joined_lines(v.drop_last()) + v.last() + seq!['\n']
    }
}

/// What a copy patch puts in: its source contents, then its payload, each
/// followed by a `\n`.
pub open spec fn copy_block(p: CopyPatch) -> Seq<char> {
    let texts = match p.payload {
        Some(t) => views(p.contents@).push(t@),
        None => views(p.contents@),
    };
    joined_lines(texts)
}

/// The edit of a copy patch on text `b`: the block at the start, or a `\n` and the
/// block at the end.
pub open spec fn copy_edit(b: Seq<u8>, p: CopyPatch) -> EditSpec {
    match p.position {
        CopyPosition::Prepend => (0, 0, copy_block(p)),
        CopyPosition::Append => (b.len() as int, b.len() as int, seq!['\n'] + copy_block(p)),
    }
}

/// Two copy patches that prepend, `x` first and then `y`, leave `y`'s text, then
/// `x`'s, then the text they started from.
pub proof fn lemma_prepend_twice(b: Seq<u8>, x: Seq<char>, y: Seq<char>)
    ensures
        edited(edited(b, seq![(0int, 0int, x)]), seq![(0int, 0int, y)]) == encode_utf8(y) + encode_utf8(x) + b,
{
    let once = edited(b, seq![(0int, 0int, x)]);
    assert(crate::edit::done(b, seq![(0int, 0int, x)], 0) == Seq::<u8>::empty());
    assert(b.subrange(0, 0) =~= Seq::<u8>::empty());
    assert(crate::edit::done(b, seq![(0int, 0int, x)], 1) =~= encode_utf8(x));
    assert(once =~= encode_utf8(x) + b);
    assert(crate::edit::done(once, seq![(0int, 0int, y)], 0) == Seq::<u8>::empty());
    assert(once.subrange(0, 0) =~= Seq::<u8>::empty());
    assert(crate::edit::done(once, seq![(0int, 0int, y)], 1) =~= encode_utf8(y));
    assert(edited(once, seq![(0int, 0int, y)]) =~= encode_utf8(y) + encode_utf8(x) + b);
}

fn push_line(out: &mut Vec<char>, s: &str)
    ensures
        final(out)@ == old(out)@ + s@ + seq!['\n'],
{
    let v = chars_of(s);
    let mut i: usize = 0;
    while i < v.len()
        invariant
            v@ == s@,
            i <= v.len(),
            out@ == old(out)@ + v@.take(i as int),
        decreases v.len() - i,
    {
        out.push(v[i]);
        assert(v@.take(i + 1) =~= v@.take(i as int).push(v@[i as int]));
        i += 1;
    }
    assert(v@.take(i as int) =~= v@);
    out.push('\n');
}

impl CopyPatch {
    fn block(&self, lead: bool) -> (r: String)
        ensures
            r@ == (if lead { seq!['\n'] } else { seq![] }) + copy_block(*self),
    {
        let mut out: Vec<char> = Vec::new();
        if lead {
            out.push('\n');
        }
        let ghost start = out@;
        let mut i: usize = 0;
        while i < self.contents.len()
            invariant
                i <= self.contents.len(),
                start == (if lead { seq!['\n'] } else { Seq::<char>::empty() }),
                out@ == start + joined_lines(views(self.contents@).take(i as int)),
            decreases self.contents.len() - i,
        {
            push_line(&mut out, self.contents[i].as_str());
            proof {
                let v = views(self.contents@);
                assert(v.take(i + 1).drop_last() =~= v.take(i as int));
                assert(v.take(i + 1).last() == self.contents[i as int]@);
            }
            i += 1;
        }
        assert(views(self.contents@).take(i as int) =~= views(self.contents@));
        if let Some(p) = &self.payload {
            push_line(&mut out, p.as_str());
            proof {
                let v = views(self.contents@).push(p@);
                assert(v.drop_last() =~= views(self.contents@));
            }
        }
        string_of(out.as_slice())
    }

    /// Apply a copy patch onto the rope when it targets `target`: its block goes
    /// before the text, or after it behind a `\n`. Returns the debug entry, or
    /// `None` when the rope was left as it was.
    pub fn apply(&self, target: &str, rope: &mut crop::Rope, path: &str) -> (r: Option<ByteDebugEntry>)
        requires
            valid_utf8(rope_bytes(*old(rope))),
        ensures
            valid_utf8(rope_bytes(*final(rope))),
            ({
                let b = rope_bytes(*old(rope));
                let es = seq![copy_edit(b, *self)];
                if self.target.covers(target@) && edits_fit(b, es) {
                    &&& r is Some
                    &&& rope_bytes(*final(rope)) == edited(b, es)
                    &&& r->Some_0.regions.len() == 1
                    &&& region_of(b, es, 0, r->Some_0.regions[0])
                    &&& r->Some_0.patch_source.patch_type == DebugPatchType::Copy
                    &&& r->Some_0.patch_source.file@ == path@
                } else {
                    &&& r is None
                    &&& rope_bytes(*final(rope)) == b
                }
            }),
    {
        let ghost b = rope_bytes(*rope);
        if !self.target.can_apply(target) {
            return None;
        }
        let len = rope_byte_len(rope);
        let e = match self.position {
            CopyPosition::Prepend => Edit { pos: 0, del_end: 0, text: self.block(false) },
            CopyPosition::Append => Edit { pos: len, del_end: len, text: self.block(true) },
        };
        let ghost es = seq![copy_edit(b, *self)];
        assert(e@ == copy_edit(b, *self));
        let tl = byte_len(e.text.as_str());
        if len > isize::MAX as usize || tl > isize::MAX as usize {
            proof {
                if tl > isize::MAX {
                    lemma_unfit(b, es, 0);
                }
            }
            return None;
        }
        proof {
            is_char_boundary_start_end_of_seq(b);
            assert(edits_fit(b, Seq::<EditSpec>::empty()));
            lemma_fit_push(b, Seq::<EditSpec>::empty(), e@);
            assert(Seq::<EditSpec>::empty().push(e@) =~= es);
        }
        let mut edits: Vec<Edit> = Vec::new();
        edits.push(e);
        assert(edit_views(edits@) =~= es);
        let regions = apply_edits(rope, &edits);
        Some(ByteDebugEntry {
            patch_source: PatchSource { file: path.to_owned(), pattern: None, patch_type: DebugPatchType::Copy },
            regions,
            warnings: None,
        })
    }
}

} // verus!
