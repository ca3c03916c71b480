//! Edits of a rope given in the coordinates of the text before any of them: the
//! engine locates every match of a patch first and then rewrites them in order.
use vstd::prelude::*;
use vstd::utf8::*;
use crate::rope::{cut, rope_byte_len, rope_bytes, rope_delete, rope_insert, spliced};

verus! {

/// Replace the bytes `pos..del_end` of the text as it was before any edit with `text`
/// (an insertion when `pos == del_end`).
pub struct Edit {
    pub pos: usize,
    pub del_end: usize,
    pub text: String,
}

/// An edit as the proofs see it: start, end of the replaced bytes, new text.
pub type EditSpec = (int, int, Seq<char>);

impl View for Edit {
    type V = EditSpec;

    open spec fn view(&self) -> EditSpec {
        (self.pos as int, self.del_end as int, self.text@)
    }
}

/// The proof view of a list of edits.
pub open spec fn edit_views(v: Seq<Edit>) -> Seq<EditSpec> {
    v.map_values(|e: Edit| e@)
}

/// What a rewrite with edits needs of them: valid UTF-8 to start from, each edit
/// inside the text, on character boundaries, in order and not overlapping.
pub open spec fn edits_fit(b: Seq<u8>, es: Seq<EditSpec>) -> bool {
    &&& valid_utf8(b)
    &&& b.len() <= isize::MAX
    &&& forall|k: int| 0 <= k < es.len() ==> {
        &&& 0 <= #[trigger] es[k].0 <= es[k].1 <= b.len()
        &&& is_char_boundary(b, es[k].0)
        &&& is_char_boundary(b, es[k].1)
        &&& encode_utf8(es[k].2).len() <= isize::MAX
    }
    &&& forall|k: int| 0 <= k < es.len() - 1 ==> #[trigger] es[k].1 <= es[k + 1].0
}

/// One more edit, inside the text and after the others, keeps a list fit.
pub proof fn lemma_fit_push(b: Seq<u8>, es: Seq<EditSpec>, e: EditSpec)
    requires
        edits_fit(b, es),
        0 <= e.0 <= e.1 <= b.len(),
        is_char_boundary(b, e.0),
        is_char_boundary(b, e.1),
        encode_utf8(e.2).len() <= isize::MAX,
        es.len() > 0 ==> es.last().1 <= e.0,
    ensures
        edits_fit(b, es.push(e)),
{
    let t = es.push(e);
    assert forall|k: int| 0 <= k < t.len() - 1 implies #[trigger] t[k].1 <= t[k + 1].0 by {
        if k < es.len() - 1 {
            assert(t[k] == es[k] && t[k + 1] == es[k + 1]);
        } else {
            assert(t[k] == es.last());
        }
    }
    assert forall|k: int| 0 <= k < t.len() implies {
        &&& 0 <= #[trigger] t[k].0 <= t[k].1 <= b.len()
        &&& is_char_boundary(b, t[k].0)
        &&& is_char_boundary(b, t[k].1)
        &&& encode_utf8(t[k].2).len() <= isize::MAX
    } by {
        if k < es.len() {
            assert(t[k] == es[k]);
        }
    }
}

/// An edit whose text is too long for a byte offset spoils a list.
pub proof fn lemma_unfit(b: Seq<u8>, es: Seq<EditSpec>, k: int)
    requires
        0 <= k < es.len(),
        encode_utf8(es[k].2).len() > isize::MAX,
    ensures
        !edits_fit(b, es),
{
    if edits_fit(b, es) {
        assert(0 <= es[k].0 <= es[k].1 <= b.len());
    }
}

/// Offset of the starting text from which the part after the first `k` edits is
/// still untouched.
pub open spec fn cursor(es: Seq<EditSpec>, k: int) -> int {
    if k <= 0 {
        0
    } else {
        es[k - 1].1
    }
}

/// The rewritten text up to the end of edit `k - 1`.
pub open spec fn done(b: Seq<u8>, es: Seq<EditSpec>, k: int) -> Seq<u8>
    decreases k,
{
    if k <= 0 {
        seq![]
    } else {
        done(b, es, k - 1) + b.subrange(cursor(es, k - 1), es[k - 1].0) + encode_utf8(
            es[k - 1].2,
        )
    }
}

/// The text after the first `k` edits.
pub open spec fn edited_upto(b: Seq<u8>, es: Seq<EditSpec>, k: int) -> Seq<u8> {
    done(b, es, k) + b.subrange(cursor(es, k), b.len() as int)
}

/// The text after all edits.
pub open spec fn edited(b: Seq<u8>, es: Seq<EditSpec>) -> Seq<u8> {
    edited_upto(b, es, es.len() as int)
}

/// Where edit `k` lands in the rewritten text.
pub open spec fn landed_at(b: Seq<u8>, es: Seq<EditSpec>, k: int) -> int {
    done(b, es, k).len() + es[k].0 - cursor(es, k)
}

proof fn lemma_boundary_in_concat(x: Seq<u8>, y: Seq<u8>, j: int)
    requires
        valid_utf8(x),
        valid_utf8(y),
        0 <= j <= y.len(),
        is_char_boundary(y, j),
    ensures
        valid_utf8(x + y),
        is_char_boundary(x + y, x.len() + j),
{
    let z = x + y;
    valid_utf8_concat(x, y);
    if j == y.len() {
        is_char_boundary_start_end_of_seq(z);
    } else {
        is_char_boundary_iff_not_is_continuation_byte(y, j);
        assert(z[x.len() + j] == y[j]);
        is_char_boundary_iff_not_is_continuation_byte(z, x.len() + j);
    }
}

proof fn lemma_sub_valid(b: Seq<u8>, i: int, j: int)
    requires
        valid_utf8(b),
        0 <= i <= j <= b.len(),
        is_char_boundary(b, i),
        is_char_boundary(b, j),
    ensures
        valid_utf8(b.subrange(i, j)),
        valid_utf8(b.subrange(i, b.len() as int)),
        is_char_boundary(b.subrange(i, b.len() as int), j - i),
{
    let s = b.subrange(i, b.len() as int);
    valid_utf8_split(b, i);
    if j == b.len() {
        is_char_boundary_start_end_of_seq(s);
    } else {
        is_char_boundary_iff_not_is_continuation_byte(b, j);
        assert(s[j - i] == b[j]);
        is_char_boundary_iff_not_is_continuation_byte(s, j - i);
    }
    valid_utf8_split(s, j - i);
    assert(s.subrange(0, j - i) =~= b.subrange(i, j));
}

proof fn lemma_done_len(b: Seq<u8>, es: Seq<EditSpec>, k: int)
    requires
        edits_fit(b, es),
        0 <= k <= es.len(),
    ensures
        valid_utf8(done(b, es, k)),
    decreases k,
{
    if k <= 0 {
        assert(valid_utf8(done(b, es, k))) by {
            reveal_with_fuel(valid_utf8, 1);
        }
    } else {
        lemma_done_len(b, es, k - 1);
        if k >= 2 {
            assert(es[k - 2].1 <= es[k - 1].0);
        }
        assert(es[k - 1].0 <= es[k - 1].1);
        lemma_sub_valid(b, cursor(es, k - 1), es[k - 1].0);
        let d = done(b, es, k - 1) + b.subrange(cursor(es, k - 1), es[k - 1].0);
        valid_utf8_concat(done(b, es, k - 1), b.subrange(cursor(es, k - 1), es[k - 1].0));
        encode_utf8_valid_utf8(es[k - 1].2);
        valid_utf8_concat(d, encode_utf8(es[k - 1].2));
    }
}

proof fn lemma_step_bounds(b: Seq<u8>, es: Seq<EditSpec>, k: int)
    requires
        edits_fit(b, es),
        0 <= k < es.len(),
    ensures
        cursor(es, k) <= es[k].0 <= es[k].1 <= b.len(),
        landed_at(b, es, k) + (es[k].1 - es[k].0) <= edited_upto(b, es, k).len(),
        edited_upto(b, es, k).len() == done(b, es, k).len() + b.len() - cursor(es, k),
        is_char_boundary(edited_upto(b, es, k), landed_at(b, es, k)),
        is_char_boundary(edited_upto(b, es, k), landed_at(b, es, k) + es[k].1 - es[k].0),
{
    let d = done(b, es, k);
    let c = cursor(es, k);
    lemma_done_len(b, es, k);
    if k > 0 {
        assert(es[k - 1].1 <= es[k].0);
        assert(es[k - 1].0 <= es[k - 1].1);
    }
    assert(es[k].0 <= es[k].1);
    is_char_boundary_start_end_of_seq(b);
    lemma_sub_valid(b, c, es[k].0);
    lemma_boundary_in_concat(d, b.subrange(c, b.len() as int), es[k].0 - c);
    lemma_sub_valid(b, c, es[k].1);
    lemma_boundary_in_concat(d, b.subrange(c, b.len() as int), es[k].1 - c);
}

proof fn lemma_step_cut(b: Seq<u8>, es: Seq<EditSpec>, k: int)
    requires
        edits_fit(b, es),
        0 <= k < es.len(),
    ensures
        ({
            let d = done(b, es, k);
            let s1 = b.subrange(cursor(es, k), es[k].0);
            let s2 = b.subrange(es[k].1, b.len() as int);
            let at = landed_at(b, es, k);
            let cur = edited_upto(b, es, k);
            &&& cut(cur, at, at + es[k].1 - es[k].0) == (d + s1) + s2
            &&& spliced(cur, at, seq![]) == cur
            &&& is_char_boundary((d + s1) + s2, at)
            &&& at == (d + s1).len()
        }),
{
    let d = done(b, es, k);
    let c = cursor(es, k);
    let s1 = b.subrange(c, es[k].0);
    let s2 = b.subrange(es[k].1, b.len() as int);
    lemma_step_bounds(b, es, k);
    let at = landed_at(b, es, k);
    let cur = edited_upto(b, es, k);
    assert(cut(cur, at, at + es[k].1 - es[k].0) =~= (d + s1) + s2);
    assert(spliced(cur, at, seq![]) =~= cur);
    lemma_done_len(b, es, k);
    lemma_sub_valid(b, c, es[k].0);
    valid_utf8_concat(d, s1);
    is_char_boundary_start_end_of_seq(b);
    lemma_sub_valid(b, es[k].1, b.len() as int);
    is_char_boundary_start_end_of_seq(s2);
    lemma_boundary_in_concat(d + s1, s2, 0);
}

proof fn lemma_step_insert(b: Seq<u8>, es: Seq<EditSpec>, k: int)
    requires
        edits_fit(b, es),
        0 <= k < es.len(),
    ensures
        ({
            let d = done(b, es, k);
            let s1 = b.subrange(cursor(es, k), es[k].0);
            let s2 = b.subrange(es[k].1, b.len() as int);
            let at = landed_at(b, es, k);
            &&& spliced((d + s1) + s2, at, encode_utf8(es[k].2)) == edited_upto(b, es, k + 1)
            &&& at + encode_utf8(es[k].2).len() <= edited_upto(b, es, k + 1).len()
        }),
{
    let d = done(b, es, k);
    let s1 = b.subrange(cursor(es, k), es[k].0);
    let s2 = b.subrange(es[k].1, b.len() as int);
    lemma_step_bounds(b, es, k);
    assert(done(b, es, k + 1) == (d + s1) + encode_utf8(es[k].2));
    assert(spliced((d + s1) + s2, landed_at(b, es, k), encode_utf8(es[k].2)) =~= edited_upto(
        b,
        es,
        k + 1,
    ));
}

proof fn lemma_edited_valid(b: Seq<u8>, es: Seq<EditSpec>)
    requires
        edits_fit(b, es),
    ensures
        valid_utf8(edited(b, es)),
{
    let n = es.len() as int;
    lemma_done_len(b, es, n);
    is_char_boundary_start_end_of_seq(b);
    if n > 0 {
        assert(es[n - 1].0 <= es[n - 1].1);
    }
    lemma_sub_valid(b, cursor(es, n), b.len() as int);
    valid_utf8_concat(done(b, es, n), b.subrange(cursor(es, n), b.len() as int));
}

/// The region that edit `k` occupies once it is made.
pub open spec fn region_of(b: Seq<u8>, es: Seq<EditSpec>, k: int, r: crate::dump::ByteRegion) -> bool {
    let t = encode_utf8(es[k].2).len();
    &&& r.start == landed_at(b, es, k)
    &&& r.end == landed_at(b, es, k) + t
    &&& r.delta == t - (es[k].1 - es[k].0)
}

/// Applies `edits` (given in the coordinates of the rope as it is on entry) and
/// returns, for each, the byte region it now occupies.
#[verifier::rlimit(50)]
pub fn apply_edits(rope: &mut crop::Rope, edits: &Vec<Edit>) -> (regions: Vec<crate::dump::ByteRegion>)
    requires
        edits_fit(rope_bytes(*old(rope)), edit_views(edits@)),
    ensures
        rope_bytes(*final(rope)) == edited(rope_bytes(*old(rope)), edit_views(edits@)),
        valid_utf8(rope_bytes(*final(rope))),
        regions.len() == edits.len(),
        forall|k: int|
            0 <= k < edits.len() ==> region_of(rope_bytes(*old(rope)), edit_views(edits@), k, #[trigger] regions[k]),
{
    let ghost b = rope_bytes(*rope);
    let ghost es = edit_views(edits@);
    let orig_len = rope_byte_len(rope);
    let mut regions: Vec<crate::dump::ByteRegion> = Vec::new();
    let mut k: usize = 0;
    proof {
        assert(edited_upto(b, es, 0) =~= b);
    }
    while k < edits.len()
        invariant
            edits_fit(b, es),
            es == edit_views(edits@),
            orig_len == b.len(),
            k <= edits.len(),
            rope_bytes(*rope) == edited_upto(b, es, k as int),
            regions.len() == k,
            forall|j: int| 0 <= j < k ==> region_of(b, es, j, #[trigger] regions[j]),
        decreases edits.len() - k,
    {
        let e = &edits[k];
        proof {
            assert(es[k as int] == e@);
            lemma_step_bounds(b, es, k as int);
        }
        let cur_len = rope_byte_len(rope);
        let at = cur_len - (orig_len - e.pos);
        let gone = e.del_end - e.pos;
        if gone > 0 {
            rope_delete(rope, at, at + gone);
        }
        proof {
            lemma_step_cut(b, es, k as int);
        }
        rope_insert(rope, at, e.text.as_str());
        let t = e.text.as_str().len();
        // The rope's length fits a `usize`, and so does the end of the region.
        let _len_after = rope_byte_len(rope);
        proof {
            lemma_step_insert(b, es, k as int);
        }
        let region = crate::dump::ByteRegion {
            start: at,
            end: at + t,
            delta: t as isize - gone as isize,
        };
        regions.push(region);
        k += 1;
    }
    proof {
        lemma_edited_valid(b, es);
    }
    regions
}

} // verus!
