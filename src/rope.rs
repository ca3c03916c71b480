//! The text buffer that patches rewrite: a `crop::Rope`, seen by the proofs as
//! the sequence of its UTF-8 bytes, with lines that end after each `\n`.
use vstd::prelude::*;
use vstd::utf8::*;

verus! {



#[verifier::external_type_specification]
#[verifier::external_body]
pub struct ExRope(crop::Rope);

/// The bytes that a rope holds.
pub uninterp spec fn rope_bytes(r: crop::Rope) -> Seq<u8>;

/// Number of `\n` bytes in `b`.
pub open spec fn newline_count(b: Seq<u8>) -> nat
    decreases b.len(),
{
    if b.len() == 0 {
        0
    } else {
        newline_count(b.drop_last()) + if b.last() == 10u8 { 1nat } else { 0nat }
    }
}

/// Number of lines of `b`: a line ends after each `\n`, and a last line without one
/// counts too when it is not empty.
pub open spec fn line_len(b: Seq<u8>) -> nat {
    if b.len() == 0 {
        0
    } else if b.last() == 10u8 {
        newline_count(b)
    } else {
        newline_count(b) + 1
    }
}

/// Byte offset at which line `n` of `b` starts: just after the `n`-th `\n`, or the
/// end of `b` when there are fewer than `n` of them.
pub open spec fn line_start(b: Seq<u8>, n: nat) -> nat
    decreases b.len(),
{
    if n == 0 || b.len() == 0 {
        0
    } else if b[0] == 10u8 {
        1 + line_start(b.drop_first(), (n - 1) as nat)
    } else {
        1 + line_start(b.drop_first(), n)
    }
}

/// Line on which byte offset `i` of `b` lies: the number of `\n` before it.
pub open spec fn line_of(b: Seq<u8>, i: int) -> nat {
    newline_count(b.subrange(0, i))
}

/// The text of line `k` of `b`, its terminator included.
pub open spec fn raw_line(b: Seq<u8>, k: nat) -> Seq<char> {
    decode_utf8(b.subrange(line_start(b, k) as int, line_start(b, k + 1) as int))
}

/// `b` with `s` put in at offset `at`.
pub open spec fn spliced(b: Seq<u8>, at: int, s: Seq<u8>) -> Seq<u8> {
    b.subrange(0, at) + s + b.subrange(at, b.len() as int)
}

/// `b` without the bytes of `start..end`.
pub open spec fn cut(b: Seq<u8>, start: int, end: int) -> Seq<u8> {
    b.subrange(0, start) + b.subrange(end, b.len() as int)
}

/// Relies on `crop::Rope::from(&str)`: the rope holds the string's bytes.
#[verifier::external_body]
pub(crate) fn rope_from(s: &str) -> (r: crop::Rope)
    ensures
        rope_bytes(r) == encode_utf8(s@),
{
    crop::Rope::from(s)
}

/// Relies on `crop::Rope::byte_len`.
#[verifier::external_body]
pub(crate) fn rope_byte_len(r: &crop::Rope) -> (n: usize)
    ensures
        n == rope_bytes(*r).len(),
{
    r.byte_len()
}

/// Relies on `crop::Rope::byte`, which panics past the end.
#[verifier::external_body]
pub(crate) fn rope_byte(r: &crop::Rope, i: usize) -> (c: u8)
    requires
        i < rope_bytes(*r).len(),
    ensures
        c == rope_bytes(*r)[i as int],
{
    r.byte(i)
}

/// Relies on `crop::Rope::byte_of_line`, which panics past `line_len`.
#[verifier::external_body]
pub(crate) fn rope_byte_of_line(r: &crop::Rope, n: usize) -> (o: usize)
    requires
        n <= line_len(rope_bytes(*r)),
    ensures
        o == line_start(rope_bytes(*r), n as nat),
{
    r.byte_of_line(n)
}

/// Relies on `crop::Rope::line_of_byte`, which panics past the end.
#[verifier::external_body]
pub(crate) fn rope_line_of_byte(r: &crop::Rope, i: usize) -> (n: usize)
    requires
        i <= rope_bytes(*r).len(),
    ensures
        n == line_of(rope_bytes(*r), i as int),
{
    r.line_of_byte(i)
}

/// Relies on `crop::Rope::insert`, which panics off a character boundary or past
/// the end.
#[verifier::external_body]
pub(crate) fn rope_insert(r: &mut crop::Rope, at: usize, s: &str)
    requires
        at <= rope_bytes(*old(r)).len(),
        is_char_boundary(rope_bytes(*old(r)), at as int),
    ensures
        rope_bytes(*final(r)) == spliced(rope_bytes(*old(r)), at as int, encode_utf8(s@)),
{
    r.insert(at, s)
}

/// Relies on `crop::Rope::delete`, which panics off a character boundary or on a
/// range that is reversed or runs past the end.
#[verifier::external_body]
pub(crate) fn rope_delete(r: &mut crop::Rope, start: usize, end: usize)
    requires
        start <= end <= rope_bytes(*old(r)).len(),
        is_char_boundary(rope_bytes(*old(r)), start as int),
        is_char_boundary(rope_bytes(*old(r)), end as int),
    ensures
        rope_bytes(*final(r)) == cut(rope_bytes(*old(r)), start as int, end as int),
{
    r.delete(start..end)
}

/// Relies on `crop::Rope::is_char_boundary`, which panics past the end.
#[verifier::external_body]
pub(crate) fn rope_is_char_boundary(r: &crop::Rope, i: usize) -> (b: bool)
    requires
        i <= rope_bytes(*r).len(),
    ensures
        b == is_char_boundary(rope_bytes(*r), i as int),
{
    r.is_char_boundary(i)
}

/// Relies on `crop::Rope::byte_slice`, which panics off a character boundary or on
/// a range that is reversed or runs past the end; the slice's text.
#[verifier::external_body]
pub(crate) fn rope_slice_text(r: &crop::Rope, start: usize, end: usize) -> (s: String)
    requires
        start <= end <= rope_bytes(*r).len(),
        is_char_boundary(rope_bytes(*r), start as int),
        is_char_boundary(rope_bytes(*r), end as int),
    ensures
        encode_utf8(s@) == rope_bytes(*r).subrange(start as int, end as int),
{
    r.byte_slice(start..end).to_string()
}

/// Relies on `crop::Rope`'s `Display`: the string of the rope's bytes.
#[verifier::external_body]
pub(crate) fn rope_to_string(r: &crop::Rope) -> (s: String)
    ensures
        encode_utf8(s@) == rope_bytes(*r),
{
    r.to_string()
}

/// Relies on `crop::Rope::raw_lines`: the lines in order, terminators kept.
#[verifier::external_body]
pub(crate) fn rope_raw_lines(r: &crop::Rope) -> (v: Vec<String>)
    ensures
        v.len() == line_len(rope_bytes(*r)),
        forall|k: int| 0 <= k < v.len() ==> #[trigger] v[k]@ == raw_line(rope_bytes(*r), k as nat),
{
    r.raw_lines().map(|l| l.to_string()).collect()
}

/// Where a line starts: at 0 for line 0, and otherwise just after a `\n` or at the end.
pub proof fn lemma_line_start_shape(b: Seq<u8>, n: nat)
    ensures
        line_start(b, n) <= b.len(),
        n == 0 ==> line_start(b, n) == 0,
        n > 0 ==> line_start(b, n) == b.len() || (line_start(b, n) >= 1 && b[line_start(b, n) - 1]
            == 10u8),
    decreases b.len(),
{
    if n == 0 || b.len() == 0 {
    } else {
        let t = b.drop_first();
        if b[0] == 10u8 {
            lemma_line_start_shape(t, (n - 1) as nat);
            if line_start(t, (n - 1) as nat) >= 1 {
                assert(b[line_start(b, n) - 1] == t[line_start(t, (n - 1) as nat) - 1]);
            }
        } else {
            lemma_line_start_shape(t, n);
            if line_start(t, n) >= 1 {
                assert(b[line_start(b, n) - 1] == t[line_start(t, n) - 1]);
            }
        }
    }
}

/// Later lines start no earlier.
pub proof fn lemma_line_start_monotone(b: Seq<u8>, n: nat, m: nat)
    requires
        n <= m,
    ensures
        line_start(b, n) <= line_start(b, m),
    decreases b.len(),
{
    if n == 0 || b.len() == 0 {
        lemma_line_start_shape(b, m);
    } else if b[0] == 10u8 {
        lemma_line_start_monotone(b.drop_first(), (n - 1) as nat, (m - 1) as nat);
    } else {
        lemma_line_start_monotone(b.drop_first(), n, m);
    }
}

/// Every line starts on a character boundary.
pub proof fn lemma_line_start_boundary(b: Seq<u8>, n: nat)
    requires
        valid_utf8(b),
    ensures
        is_char_boundary(b, line_start(b, n) as int),
{
    lemma_line_start_shape(b, n);
    is_char_boundary_start_end_of_seq(b);
    let ls = line_start(b, n) as int;
    if ls != 0 && ls != b.len() {
        is_char_boundary_iff_not_is_continuation_byte(b, ls - 1);
        lemma_boundary_after_ascii(b, ls - 1);
    }
}

/// The offset just after an ASCII byte that starts a character starts one too.
pub proof fn lemma_boundary_after_ascii(b: Seq<u8>, j: int)
    requires
        valid_utf8(b),
        0 <= j < b.len(),
        is_char_boundary(b, j),
        b[j] < 0x80u8,
    ensures
        is_char_boundary(b, j + 1),
    decreases b.len(),
{
    let l = length_of_first_scalar(b);
    let tail = pop_first_scalar(b);
    if j == 0 {
        assert(l == 1);
        assert(is_char_boundary(tail, 0));
    } else {
        assert(l >= 1);
        assert(j >= l);
        assert(tail[j - l] == b[j]);
        lemma_boundary_after_ascii(tail, j - l);
    }
}

} // verus!
