//! Character-level helpers: splitting text into lines, indenting a payload.
use vstd::prelude::*;

verus! {

/// Relies on `str::chars` collected into a `Vec`: one element per character, in order.
#[verifier::external_body]
pub(crate) fn chars_of(s: &str) -> (r: Vec<char>)
    ensures
        r@ == s@,
{
    s.chars().collect()
}

/// Relies on `String::from_iter` over characters: the string holds exactly those characters.
#[verifier::external_body]
pub(crate) fn string_of(v: &[char]) -> (r: String)
    ensures
        r@ == v@,
{
    v.iter().collect()
}

/// Relies on `str::len`: the length of the string's UTF-8 encoding, which always
/// fits in a `usize`.
#[verifier::external_body]
pub(crate) fn byte_len(s: &str) -> (n: usize)
    ensures
        n == vstd::utf8::encode_utf8(s@).len(),
{
    s.len()
}

/// The characters of each string.
pub open spec fn views(v: Seq<String>) -> Seq<Seq<char>> {
    v.map_values(|x: String| x@)
}

/// Appends the characters of `s`.
pub(crate) fn push_chars(out: &mut Vec<char>, s: &str)
    ensures
        final(out)@ == old(out)@ + s@,
{
    let v = chars_of(s);
    let mut i: usize = 0;
    while i < v.len()
        invariant
            v@ == s@,
            i <= v.len(),
            out@ == old(out)@ + v@.take(i as int),
        decreases v.len() - i,
    {
        out.push(v[i]);
        assert(v@.take(i + 1) =~= v@.take(i as int).push(v@[i as int]));
        i += 1;
    }
    assert(v@.take(i as int) =~= v@);
}

/// Characters with the Unicode `White_Space` property.
pub open spec fn is_white(c: char) -> bool {
    ('\t' <= c <= '\r') || c == ' ' || c == '\u{85}' || c == '\u{a0}' || c == '\u{1680}' || ('\u{2000}'
        <= c <= '\u{200a}') || c == '\u{2028}' || c == '\u{2029}' || c == '\u{202f}' || c == '\u{205f}'
        || c == '\u{3000}'
}

/// Relies on `char::is_whitespace`: true exactly for the characters with the
/// Unicode `White_Space` property.
#[verifier::external_body]
pub(crate) fn char_is_whitespace(c: char) -> (r: bool)
    ensures
        r == is_white(c),
{
    c.is_whitespace()
}

/// `s` without its leading whitespace.
pub open spec fn trim_start_of(s: Seq<char>) -> Seq<char>
    decreases s.len(),
{
    if s.len() > 0 && is_white(s[0]) {
        trim_start_of(s.drop_first())
    } else {
        s
    }
}

/// `s` without its trailing whitespace.
pub open spec fn trim_end_of(s: Seq<char>) -> Seq<char>
    decreases s.len(),
{
    if s.len() > 0 && is_white(s.last()) {
        trim_end_of(s.drop_last())
    } else {
        s
    }
}

/// `s` without leading and trailing whitespace.
pub open spec fn trimmed(s: Seq<char>) -> Seq<char> {
    trim_end_of(trim_start_of(s))
}

/// The characters of `s` from `i` to `j`, with leading whitespace dropped when
/// `front` is set and trailing whitespace when `back` is.
pub fn trim_part(s: &Vec<char>, i: usize, j: usize, front: bool, back: bool) -> (r: String)
    requires
        i <= j <= s.len(),
    ensures
        r@ == ({
            let p = s@.subrange(i as int, j as int);
            let q = if front { trim_start_of(p) } else { p };
            if back { trim_end_of(q) } else { q }
        }),
{
    let ghost p = s@.subrange(i as int, j as int);
    let mut a = i;
    if front {
        assert(s@.subrange(a as int, j as int) =~= p);
        while a < j && char_is_whitespace(s[a])
            invariant
                i <= a <= j <= s.len(),
                trim_start_of(p) == trim_start_of(s@.subrange(a as int, j as int)),
            decreases j - a,
        {
            assert(s@.subrange(a as int, j as int).drop_first() =~= s@.subrange(a + 1, j as int));
            a += 1;
        }
    }
    let ghost q = s@.subrange(a as int, j as int);
    assert(q == (if front { trim_start_of(p) } else { p }));
    let mut b = j;
    if back {
        assert(s@.subrange(a as int, b as int) =~= q);
        while b > a && char_is_whitespace(s[b - 1])
            invariant
                a <= b <= j <= s.len(),
                trim_end_of(q) == trim_end_of(s@.subrange(a as int, b as int)),
            decreases b,
        {
            assert(s@.subrange(a as int, b as int).drop_last() =~= s@.subrange(a as int, b - 1));
            b -= 1;
        }
    }
    let mut out: Vec<char> = Vec::new();
    let mut k = a;
    while k < b
        invariant
            a <= k <= b <= s.len(),
            out@ == s@.subrange(a as int, k as int),
        decreases b - k,
    {
        out.push(s[k]);
        assert(s@.subrange(a as int, k + 1) =~= s@.subrange(a as int, k as int).push(s@[k as int]));
        k += 1;
    }
    string_of(out.as_slice())
}

/// A line without its terminator and without leading whitespace.
pub fn line_body(s: &str) -> (r: String)
    ensures
        r@ == trim_start_of(strip_eol(s@)),
{
    let v = chars_of(s);
    let mut end = v.len();
    if end > 0 && v[end - 1] == '\n' {
        end -= 1;
        if end > 0 && v[end - 1] == '\r' {
            end -= 1;
        }
    }
    proof {
        let p = v@;
        if p.len() > 0 && p.last() == '\n' {
            let q = p.drop_last();
            assert(q =~= v@.subrange(0, v.len() - 1));
            if q.len() > 0 && q.last() == '\r' {
                assert(q.drop_last() =~= v@.subrange(0, v.len() - 2));
            }
        } else {
            assert(p =~= v@.subrange(0, v.len() as int));
        }
        assert(v@.subrange(0, end as int) == strip_eol(s@));
    }
    trim_part(&v, 0, end, true, false)
}

/// `s` without leading and trailing whitespace, as `str::trim` gives it.
pub fn trim_str(s: &str) -> (r: String)
    ensures
        r@ == trimmed(s@),
{
    let v = chars_of(s);
    assert(v@.subrange(0, v.len() as int) =~= v@);
    trim_part(&v, 0, v.len(), true, true)
}

/// Length of the first line of `s`, its `\n` included.
pub open spec fn first_line_len(s: Seq<char>) -> nat
    decreases s.len(),
{
    if s.len() == 0 {
        0
    } else if s[0] == '\n' {
        1
    } else {
        1 + first_line_len(s.drop_first())
    }
}

pub proof fn lemma_first_line_len(s: Seq<char>)
    ensures
        first_line_len(s) <= s.len(),
        s.len() > 0 ==> first_line_len(s) >= 1,
    decreases s.len(),
{
    if s.len() > 0 {
        lemma_first_line_len(s.drop_first());
    }
}

/// The lines of `s`, each with its `\n` when it has one (what `split_inclusive('\n')` gives).
pub open spec fn pieces(s: Seq<char>) -> Seq<Seq<char>>
    decreases s.len(),
{
    if s.len() == 0 {
        seq![]
    } else {
        let n = first_line_len(s);
        if 1 <= n <= s.len() {
            seq![s.take(n as int)] + pieces(s.skip(n as int))
        } else {
            seq![s]
        }
    }
}

/// A line without its terminator: a `\n`, or a `\r\n`.
pub open spec fn strip_eol(p: Seq<char>) -> Seq<char> {
    if p.len() > 0 && p.last() == '\n' {
        let q = p.drop_last();
        if q.len() > 0 && q.last() == '\r' {
            q.drop_last()
        } else {
            q
        }
    } else {
        p
    }
}

/// The lines of `s` without terminators, as `str::lines` gives them.
pub open spec fn text_lines(s: Seq<char>) -> Seq<Seq<char>> {
    pieces(s).map_values(|p: Seq<char>| strip_eol(p))
}

fn strip_eol_exec(v: &Vec<char>, from: usize, to: usize) -> (r: Vec<char>)
    requires
        from <= to <= v.len(),
    ensures
        r@ == strip_eol(v@.subrange(from as int, to as int)),
{
    let mut end = to;
    if end > from && v[end - 1] == '\n' {
        end -= 1;
        if end > from && v[end - 1] == '\r' {
            end -= 1;
        }
    }
    let mut r: Vec<char> = Vec::new();
    let mut i = from;
    while i < end
        invariant
            from <= i <= end <= to <= v.len(),
            r@ == v@.subrange(from as int, i as int),
        decreases end - i,
    {
        r.push(v[i]);
        i += 1;
    }
    proof {
        let p = v@.subrange(from as int, to as int);
        if p.len() > 0 && p.last() == '\n' {
            let q = p.drop_last();
            assert(q =~= v@.subrange(from as int, to - 1));
            if q.len() > 0 && q.last() == '\r' {
                assert(q.drop_last() =~= v@.subrange(from as int, to - 2));
            }
        }
        assert(r@ =~= strip_eol(p));
    }
    r
}

/// Splits `s` into its lines without terminators, as `str::lines` does.
pub fn split_lines(s: &str) -> (r: Vec<String>)
    ensures
        r@.map_values(|x: String| x@) == text_lines(s@),
{
    let v = chars_of(s);
    let mut out: Vec<String> = Vec::new();
    let mut i: usize = 0;
    proof {
        assert(v@.skip(0) =~= v@);
    }
    while i < v.len()
        invariant
            v@ == s@,
            i <= v.len(),
            out@.map_values(|x: String| x@) + text_lines(v@.skip(i as int)) == text_lines(v@),
        decreases v.len() - i,
    {
        let ghost rest = v@.skip(i as int);
        let mut j = i;
        while j < v.len() && v[j] != '\n'
            invariant
                i <= j <= v.len(),
                rest == v@.skip(i as int),
                first_line_len(rest) == (j - i) + first_line_len(v@.skip(j as int)),
            decreases v.len() - j,
        {
            proof {
                assert(v@.skip(j as int).drop_first() =~= v@.skip(j + 1));
            }
            j += 1;
        }
        if j < v.len() {
            j += 1;
        }
        proof {
            lemma_first_line_len(rest);
            let n = first_line_len(rest);
            assert(n == j - i);
            assert(rest.take(n as int) =~= v@.subrange(i as int, j as int));
            assert(rest.skip(n as int) =~= v@.skip(j as int));
            assert(pieces(rest) == seq![rest.take(n as int)] + pieces(rest.skip(n as int)));
            assert(text_lines(rest) =~= seq![strip_eol(rest.take(n as int))] + text_lines(
                v@.skip(j as int),
            ));
        }
        let line = strip_eol_exec(&v, i, j);
        let ls = string_of(line.as_slice());
        let ghost before = out@.map_values(|x: String| x@);
        out.push(ls);
        proof {
            assert(out@.map_values(|x: String| x@) =~= before.push(ls@));
        }
        i = j;
    }
    proof {
        assert(v@.skip(i as int) =~= Seq::<char>::empty());
        assert(text_lines(v@.skip(i as int)) =~= Seq::<Seq<char>>::empty());
        assert(out@.map_values(|x: String| x@) =~= text_lines(v@));
    }
    out
}

/// The leading run of spaces and tabs of `s`.
pub open spec fn leading_indent(s: Seq<char>) -> Seq<char>
    decreases s.len(),
{
    if s.len() > 0 && (s[0] == ' ' || s[0] == '\t') {
        seq![s[0]] + leading_indent(s.drop_first())
    } else {
        seq![]
    }
}

/// The leading spaces and tabs of `s`.
pub fn indent_of(s: &str) -> (r: String)
    ensures
        r@ == leading_indent(s@),
{
    let v = chars_of(s);
    let mut out: Vec<char> = Vec::new();
    let mut i: usize = 0;
    proof {
        assert(v@.skip(0) =~= v@);
        assert(v@.take(0) + v@ =~= v@);
    }
    while i < v.len() && (v[i] == ' ' || v[i] == '\t')
        invariant
            v@ == s@,
            i <= v.len(),
            out@ == v@.take(i as int),
            leading_indent(v@) == v@.take(i as int) + leading_indent(v@.skip(i as int)),
        decreases v.len() - i,
    {
        proof {
            assert(v@.skip(i as int).drop_first() =~= v@.skip(i + 1));
            assert(v@.take(i + 1) =~= v@.take(i as int).push(v@[i as int]));
        }
        out.push(v[i]);
        i += 1;
    }
    proof {
        assert(leading_indent(v@.skip(i as int)) =~= Seq::<char>::empty());
        assert(out@ =~= leading_indent(v@));
    }
    string_of(out.as_slice())
}

/// `p` with `indent` put before each of its lines, `at_start` telling whether `p`
/// begins a line.
pub open spec fn indented(p: Seq<char>, indent: Seq<char>, at_start: bool) -> Seq<char>
    decreases p.len(),
{
    if p.len() == 0 {
        seq![]
    } else {
        (if at_start { indent } else { seq![] }) + seq![p[0]] + indented(
            p.drop_first(),
            indent,
            p[0] == '\n',
        )
    }
}

/// The text that a pattern patch puts in: each payload line prefixed with
/// `indent`, and a final `\n` added when the payload lacks one.
pub open spec fn payload_text(p: Seq<char>, indent: Seq<char>) -> Seq<char> {
    indented(p, indent, true) + if p.len() > 0 && p.last() == '\n' {
        seq![]
    } else {
        seq!['\n']
    }
}

/// `payload` with `indent` put before each of its lines.
pub fn indent_lines(payload: &str, indent: &str) -> (r: String)
    ensures
        r@ == indented(payload@, indent@, true),
{
    let out = indented_chars(payload, indent);
    string_of(out.as_slice())
}

/// A payload that lacks a final `\n` gets exactly one; one that has it gets none.
pub proof fn lemma_payload_newline(p: Seq<char>, indent: Seq<char>)
    ensures
        !(p.len() > 0 && p.last() == '\n') ==> payload_text(p, indent) == indented(p, indent, true).push('\n'),
        (p.len() > 0 && p.last() == '\n') ==> payload_text(p, indent) == indented(p, indent, true),
{
    assert(indented(p, indent, true) + seq!['\n'] =~= indented(p, indent, true).push('\n'));
    assert(indented(p, indent, true) + Seq::<char>::empty() =~= indented(p, indent, true));
}

/// Builds the text that a pattern patch inserts.
pub fn build_payload(payload: &str, indent: &str) -> (r: String)
    ensures
        r@ == payload_text(payload@, indent@),
{
    let p = chars_of(payload);
    let mut out = indented_chars(payload, indent);
    if p.len() == 0 || p[p.len() - 1] != '\n' {
        out.push('\n');
    }
    proof {
        assert(out@ =~= payload_text(payload@, indent@));
    }
    string_of(out.as_slice())
}

fn indented_chars(payload: &str, indent: &str) -> (out: Vec<char>)
    ensures
        out@ == indented(payload@, indent@, true),
{
    let p = chars_of(payload);
    let ind = chars_of(indent);
    let mut out: Vec<char> = Vec::new();
    let mut i: usize = 0;
    let mut at_start = true;
    proof {
        assert(p@.skip(0) =~= p@);
        assert(out@ + indented(p@, ind@, true) =~= indented(p@, ind@, true));
    }
    while i < p.len()
        invariant
            p@ == payload@,
            ind@ == indent@,
            i <= p.len(),
            at_start == (i == 0 || p@[i - 1] == '\n'),
            out@ + indented(p@.skip(i as int), ind@, at_start) == indented(p@, ind@, true),
        decreases p.len() - i,
    {
        let ghost before = out@;
        proof {
            assert(p@.skip(i as int).drop_first() =~= p@.skip(i + 1));
        }
        if at_start {
            let mut k: usize = 0;
            while k < ind.len()
                invariant
                    k <= ind.len(),
                    out@ == before + ind@.take(k as int),
                decreases ind.len() - k,
            {
                out.push(ind[k]);
                proof {
                    assert(ind@.take(k + 1) =~= ind@.take(k as int).push(ind@[k as int]));
                }
                k += 1;
            }
            proof {
                assert(ind@.take(k as int) =~= ind@);
            }
        }
        out.push(p[i]);
        proof {
            let pre: Seq<char> = if at_start { ind@ } else { seq![] };
            assert(out@ =~= before + pre + seq![p@[i as int]]);
        }
        at_start = p[i] == '\n';
        i += 1;
    }
    proof {
        assert(indented(p@.skip(i as int), ind@, at_start) =~= Seq::<char>::empty());
        assert(out@ =~= indented(payload@, indent@, true));
    }
    out
}

} // verus!

verus! {

/// Tells whether two strings hold the same characters.
pub fn same_text(a: &str, b: &str) -> (r: bool)
    ensures
        r == (a@ == b@),
{
    let x = chars_of(a);
    let y = chars_of(b);
    if x.len() != y.len() {
        return false;
    }
    let mut i: usize = 0;
    while i < x.len()
        invariant
            x@ == a@,
            y@ == b@,
            x.len() == y.len(),
            i <= x.len(),
            forall|j: int| 0 <= j < i ==> x@[j] == y@[j],
        decreases x.len() - i,
    {
        if x[i] != y[i] {
            return false;
        }
        i += 1;
    }
    proof {
        assert(x@ =~= y@);
    }
    true
}

} // verus!
