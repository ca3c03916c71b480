//! Regex patches: rewrite each match of a regular expression, with capture groups
//! interpolated into the payload.
use vstd::prelude::*;
use vstd::utf8::{decode_utf8, encode_utf8, is_char_boundary, valid_utf8};
use crate::chars::{byte_len, chars_of, indented, string_of, views};
use crate::dump::{warned, ByteDebugEntry, DebugPatchType, PatchSource};
use crate::warn::{count_text, count_warning, no_match_text, no_match_warning};
use crate::edit::{apply_edits, edit_views, edited, edits_fit, lemma_fit_push, region_of, Edit, EditSpec};
use crate::patch::{InsertPosition, RegexPatch};
use crate::rope::{rope_byte, rope_byte_len, rope_bytes, rope_to_string};

verus! {

/// A span of bytes of the text that a capture group matched.
pub type Span = (usize, usize);

/// What a regular expression finds in a text, as the regex engine reports it:
/// `None` when the pattern does not compile, else the capture groups of each
/// match (in order) and the name of each group.
pub uninterp spec fn regex_outcome(pattern: Seq<char>, verbose: bool, text: Seq<char>) -> Option<(Seq<Seq<Option<(int, int)>>>, Seq<Option<Seq<char>>>)>;

/// What interpolating capture references (`$2`, `$name`, `${name}`, `$$`) into a
/// template gives, each group standing for its text.
pub uninterp spec fn interpolation(template: Seq<char>, texts: Seq<Seq<char>>, names: Seq<Option<Seq<char>>>) -> Seq<char>;

/// The outcome of a search, as plain values.
pub struct Found {
    pub matches: Vec<Vec<Option<Span>>>,
    pub names: Vec<Option<String>>,
}

/// A span as plain integers.
pub open spec fn span_view(s: Option<Span>) -> Option<(int, int)> {
    match s {
        Some(p) => Some((p.0 as int, p.1 as int)),
        None => None,
    }
}

/// The group spans of one match as plain integers.
pub open spec fn match_view(m: Vec<Option<Span>>) -> Seq<Option<(int, int)>> {
    m@.map_values(|s: Option<Span>| span_view(s))
}

/// A group name as characters.
pub open spec fn name_view(n: Option<String>) -> Option<Seq<char>> {
    match n {
        Some(s) => Some(s@),
        None => None,
    }
}

/// The group names as characters.
pub open spec fn names_view(v: Seq<Option<String>>) -> Seq<Option<Seq<char>>> {
    v.map_values(|n: Option<String>| name_view(n))
}

impl Found {
    /// The matches and names as plain values.
    pub open spec fn view_pair(&self) -> (Seq<Seq<Option<(int, int)>>>, Seq<Option<Seq<char>>>) {
        (self.matches@.map_values(|m: Vec<Option<Span>>| match_view(m)), names_view(self.names@))
    }
}

/// Relies on `regex_cursor`'s meta regex with multi-line and CRLF mode (and
/// whitespace-insensitive mode when `verbose`): every match with the spans of its
/// groups, and the group names; `None` when the pattern does not compile.
#[verifier::external_body]
fn regex_search(pattern: &str, verbose: bool, text: &str) -> (r: Option<Found>)
    ensures
        r.is_some() == regex_outcome(pattern@, verbose, text@).is_some(),
        r.is_some() ==> r.unwrap().view_pair() == regex_outcome(pattern@, verbose, text@).unwrap(),
{
    let config = regex_cursor::regex_automata::util::syntax::Config::new();
    let re = regex_cursor::engines::meta::Regex::builder()
        .syntax(config.multi_line(true).crlf(true).ignore_whitespace(verbose))
        .build(pattern)
        .ok()?;
    let matches = re.captures_iter(regex_cursor::Input::new(text))
        .map(|c| (0..c.group_len()).map(|i| c.get_group(i).map(|s| (s.start, s.end))).collect())
        .collect();
    let names = re.group_info().pattern_names(regex_cursor::regex_automata::PatternID::ZERO)
        .map(|n| n.map(|s| s.to_string())).collect();
    Some(Found { matches, names })
}

/// The place of the first group called `r`, if one is.
pub open spec fn name_index(names: Seq<Option<Seq<char>>>, r: Seq<char>) -> Option<int>
    decreases names.len(),
{
    if names.len() == 0 {
        None
    } else {
        match name_index(names.drop_last(), r) {
            Some(i) => Some(i),
            None => if names.last() == Some(r) {
                Some(names.len() - 1)
            } else {
                None
            },
        }
    }
}

/// The place of the first group called `name`, if one is.
pub fn group_index(names: &Vec<Option<String>>, name: &str) -> (r: Option<usize>)
    ensures
        r.is_some() == name_index(names_view(names@), name@).is_some(),
        r.is_some() ==> r.unwrap() == name_index(names_view(names@), name@).unwrap(),
{
    let ghost nv = names_view(names@);
    let mut i: usize = 0;
    while i < names.len()
        invariant
            nv == names_view(names@),
            i <= names.len(),
            name_index(nv.take(i as int), name@) is None,
        decreases names.len() - i,
    {
        proof {
            assert(nv.take(i + 1).drop_last() =~= nv.take(i as int));
        }
        let hit = match &names[i] {
            Some(n) => crate::chars::same_text(n.as_str(), name),
            None => false,
        };
        if hit {
            proof {
                lemma_name_index_prefix(nv, name@, i + 1);
            }
            return Some(i);
        }
        i += 1;
    }
    assert(nv.take(i as int) =~= nv);
    None
}

proof fn lemma_name_index_prefix(nv: Seq<Option<Seq<char>>>, r: Seq<char>, k: int)
    requires
        0 < k <= nv.len(),
        name_index(nv.take(k), r) is Some,
    ensures
        name_index(nv, r) == name_index(nv.take(k), r),
    decreases nv.len(),
{
    if k < nv.len() {
        assert(nv.drop_last().take(k) =~= nv.take(k));
        lemma_name_index_prefix(nv.drop_last(), r, k);
    } else {
        assert(nv.take(k) =~= nv);
    }
}

/// Relies on `regex_automata::util::interpolate::string`: references to groups are
/// replaced by their texts, a reference to a group that does not exist by nothing.
#[verifier::external_body]
fn interpolate_groups(template: &str, texts: &Vec<String>, names: &Vec<Option<String>>) -> (r: String)
    ensures
        r@ == interpolation(template@, views(texts@), names_view(names@)),
{
    let mut out = String::new();
    regex_cursor::regex_automata::util::interpolate::string(
        template,
        |i, dst| {
            if let Some(t) = texts.get(i) {
                dst.push_str(t)
            }
        },
        |name| group_index(names, name),
        &mut out,
    );
    out
}

/// Whether a byte can be part of an identifier: ASCII letter, digit or `_`.
pub open spec fn is_word_byte(c: u8) -> bool {
    (0x61 <= c <= 0x7a) || (0x41 <= c <= 0x5a) || (0x30 <= c <= 0x39) || c == 0x5f
}

/// Whether a character can be part of an identifier.
pub open spec fn is_word_char(c: char) -> bool {
    ('a' <= c <= 'z') || ('A' <= c <= 'Z') || ('0' <= c <= '9') || c == '_'
}

/// `payload` with one space put at each end where it would otherwise run into an
/// identifier: `left` and `right` are the bytes just outside the insertion point.
pub open spec fn guarded(payload: Seq<char>, left: Option<u8>, right: Option<u8>) -> Seq<char> {
    let front = payload.len() > 0 && is_word_char(payload[0]) && left is Some && is_word_byte(
        left->Some_0,
    );
    let back = payload.len() > 0 && is_word_char(payload.last()) && right is Some && is_word_byte(
        right->Some_0,
    );
    (if front { seq![' '] } else { seq![] }) + payload + (if back { seq![' '] } else { seq![] })
}

fn word_byte(c: u8) -> (r: bool)
    ensures
        r == is_word_byte(c),
{
    (0x61 <= c && c <= 0x7a) || (0x41 <= c && c <= 0x5a) || (0x30 <= c && c <= 0x39) || c == 0x5f
}

fn word_char(c: char) -> (r: bool)
    ensures
        r == is_word_char(c),
{
    ('a' <= c && c <= 'z') || ('A' <= c && c <= 'Z') || ('0' <= c && c <= '9') || c == '_'
}

/// The guard adds a single space at the front exactly when the payload starts with
/// an identifier character next to one, and otherwise leaves the front alone.
pub proof fn lemma_guard_front(payload: Seq<char>, left: Option<u8>, right: Option<u8>)
    requires
        payload.len() > 0,
    ensures
        (is_word_char(payload[0]) && left is Some && is_word_byte(left->Some_0)) ==> guarded(payload, left, right)[0] == ' '
            && guarded(payload, left, right).subrange(1, payload.len() as int + 1) == payload,
        !(is_word_char(payload[0]) && left is Some && is_word_byte(left->Some_0)) ==> guarded(payload, left, right).subrange(0, payload.len() as int) == payload,
{
    let g = guarded(payload, left, right);
    if is_word_char(payload[0]) && left is Some && is_word_byte(left->Some_0) {
        assert(g.subrange(1, payload.len() as int + 1) =~= payload);
    } else {
        assert(g.subrange(0, payload.len() as int) =~= payload);
    }
}

/// The guard adds a single space at the back exactly when the payload ends with an
/// identifier character next to one, and otherwise leaves the back alone.
pub proof fn lemma_guard_back(payload: Seq<char>, left: Option<u8>, right: Option<u8>)
    requires
        payload.len() > 0,
    ensures
        (is_word_char(payload.last()) && right is Some && is_word_byte(right->Some_0)) ==> guarded(payload, left, right).last() == ' '
            && guarded(payload, left, right).drop_last().subrange(guarded(payload, left, right).len() - 1 - payload.len(), guarded(payload, left, right).len() - 1) == payload,
        !(is_word_char(payload.last()) && right is Some && is_word_byte(right->Some_0)) ==> guarded(payload, left, right).subrange(guarded(payload, left, right).len() - payload.len(), guarded(payload, left, right).len() as int) == payload,
{
    let g = guarded(payload, left, right);
    if is_word_char(payload.last()) && right is Some && is_word_byte(right->Some_0) {
        assert(g.drop_last().subrange(g.len() - 1 - payload.len(), g.len() - 1) =~= payload);
    } else {
        assert(g.subrange(g.len() - payload.len(), g.len() as int) =~= payload);
    }
}

/// Puts a space at each end of `payload` where it would otherwise join an
/// identifier on that side.
pub fn guard_boundaries(payload: &str, left: Option<u8>, right: Option<u8>) -> (r: String)
    ensures
        r@ == guarded(payload@, left, right),
{
    let p = chars_of(payload);
    let front = p.len() > 0 && word_char(p[0]) && match left {
        Some(c) => word_byte(c),
        None => false,
    };
    let back = p.len() > 0 && word_char(p[p.len() - 1]) && match right {
        Some(c) => word_byte(c),
        None => false,
    };
    let mut out: Vec<char> = Vec::new();
    if front {
        out.push(' ');
    }
    let ghost start = out@;
    let mut i: usize = 0;
    while i < p.len()
        invariant
            p@ == payload@,
            i <= p.len(),
            out@ == start + p@.take(i as int),
        decreases p.len() - i,
    {
        out.push(p[i]);
        assert(p@.take(i + 1) =~= p@.take(i as int).push(p@[i as int]));
        i += 1;
    }
    assert(p@.take(i as int) =~= p@);
    if back {
        out.push(' ');
    }
    assert(out@ =~= guarded(payload@, left, right));
    string_of(out.as_slice())
}

/// The value of a string of decimal digits.
pub open spec fn dec_value(s: Seq<char>) -> int
    decreases s.len(),
{
    if s.len() == 0 {
        0
    } else {
        dec_value(s.drop_last()) * 10 + (s.last() as int - '0' as int)
    }
}

/// Every character of `d` is a decimal digit.
pub open spec fn all_digits(d: Seq<char>) -> bool {
    forall|i: int| 0 <= i < d.len() ==> '0' <= #[trigger] d[i] <= '9'
}

/// A group given as a number, as `usize`'s `parse` reads it: an optional `+`,
/// then one or more digits, with a value that fits.
pub open spec fn index_text(s: Seq<char>) -> Option<int> {
    let d = if s.len() > 0 && s[0] == '+' {
        s.drop_first()
    } else {
        s
    };
    if d.len() > 0 && all_digits(d) && dec_value(d) <= usize::MAX {
        Some(dec_value(d))
    } else {
        None
    }
}

proof fn lemma_dec_value_grows(d: Seq<char>, k: int)
    requires
        all_digits(d),
        0 <= k <= d.len(),
    ensures
        0 <= dec_value(d.take(k)) <= dec_value(d),
    decreases d.len(),
{
    if k == d.len() {
        assert(d.take(k) =~= d);
        lemma_dec_value_nonneg(d);
    } else {
        let e = d.drop_last();
        assert(all_digits(e));
        lemma_dec_value_grows(e, k);
        assert(e.take(k) =~= d.take(k));
        assert('0' <= d.last() <= '9');
    }
}

proof fn lemma_dec_value_nonneg(d: Seq<char>)
    requires
        all_digits(d),
    ensures
        dec_value(d) >= 0,
    decreases d.len(),
{
    if d.len() > 0 {
        assert(all_digits(d.drop_last()));
        lemma_dec_value_nonneg(d.drop_last());
        assert('0' <= d.last() <= '9');
    }
}

fn parse_index(s: &Vec<char>) -> (r: Option<usize>)
    ensures
        r.is_some() == index_text(s@).is_some(),
        r.is_some() ==> r.unwrap() == index_text(s@).unwrap(),
{
    let ghost d = if s@.len() > 0 && s@[0] == '+' {
        s@.drop_first()
    } else {
        s@
    };
    let first: usize = if s.len() > 0 && s[0] == '+' {
        1
    } else {
        0
    };
    assert(d =~= s@.skip(first as int));
    if first == s.len() {
        return None;
    }
    let mut i: usize = first;
    let mut v: usize = 0;
    while i < s.len()
        invariant
            first <= i <= s.len(),
            first < s.len(),
            d == s@.skip(first as int),
            d == (if s@.len() > 0 && s@[0] == '+' { s@.drop_first() } else { s@ }),
            forall|j: int| first <= j < i ==> '0' <= #[trigger] s@[j] <= '9',
            v == dec_value(s@.subrange(first as int, i as int)),
        decreases s.len() - i,
    {
        let c = s[i];
        assert(d[i - first] == c);
        if c < '0' || c > '9' {
            assert(!all_digits(d));
            return None;
        }
        let digit = (c as u32 - '0' as u32) as usize;
        assert(s@.subrange(first as int, i + 1).drop_last() =~= s@.subrange(first as int, i as int));
        assert(s@.subrange(first as int, i + 1) =~= d.take((i + 1 - first) as int));
        if v > (usize::MAX - digit) / 10 {
            proof {
                let m = usize::MAX as int;
                let vv = v as int;
                let dd = digit as int;
                assert(vv * 10 + dd > m) by (nonlinear_arith)
                    requires
                        vv > (m - dd) / 10,
                        0 <= dd <= 9,
                        m > 9,
                ;
                assert(dec_value(s@.subrange(first as int, i + 1)) == vv * 10 + dd);
                if all_digits(d) {
                    lemma_dec_value_grows(d, (i + 1 - first) as int);
                }
            }
            return None;
        }
        v = v * 10 + digit;
        i += 1;
    }
    assert(s@.subrange(first as int, i as int) =~= d);
    assert(all_digits(d)) by {
        assert forall|j: int| 0 <= j < d.len() implies '0' <= #[trigger] d[j] <= '9' by {
            assert(d[j] == s@[first + j]);
        }
    }
    Some(v)
}

} // verus!

verus! {

/// Why a regex patch could not be applied.
#[derive(Debug)]
pub enum RegexError {
    /// The pattern does not compile.
    BadPattern,
    /// A match has no group that the root capture names; it carries the name.
    MissingGroup(String),
    /// A reported span does not lie on character boundaries of the text, or the
    /// rewrites would overlap.
    BadSpan,
}

/// `s` without its `$` characters.
pub open spec fn without_dollars(s: Seq<char>) -> Seq<char>
    decreases s.len(),
{
    if s.len() == 0 {
        seq![]
    } else {
        without_dollars(s.drop_last()) + if s.last() == '$' {
            seq![]
        } else {
            seq![s.last()]
        }
    }
}

/// The reference to the root group: the configured one without `$`, `0` by default.
pub open spec fn root_ref(rc: Option<String>) -> Seq<char> {
    without_dollars(
        match rc {
            Some(s) => s@,
            None => seq!['0'],
        },
    )
}

/// The group that a reference designates: by number when it reads as one, else by name.
pub open spec fn root_index(r: Seq<char>, names: Seq<Option<Seq<char>>>) -> Option<int> {
    match index_text(r) {
        Some(i) => Some(i),
        None => name_index(names, r),
    }
}

/// The span of the root group in the groups `gs` of one match.
pub open spec fn root_span(gs: Seq<Option<(int, int)>>, names: Seq<Option<Seq<char>>>, rc: Option<String>) -> Option<(int, int)> {
    match root_index(root_ref(rc), names) {
        Some(i) => if 0 <= i < gs.len() {
            gs[i]
        } else {
            None
        },
        None => None,
    }
}

/// A group span lies inside text `b` on character boundaries.
pub open spec fn span_ok(b: Seq<u8>, g: Option<(int, int)>) -> bool {
    match g {
        Some(p) => 0 <= p.0 <= p.1 <= b.len() && is_char_boundary(b, p.0) && is_char_boundary(b, p.1),
        None => true,
    }
}

/// Every group span of a match lies inside `b` on character boundaries.
pub open spec fn spans_ok(b: Seq<u8>, gs: Seq<Option<(int, int)>>) -> bool {
    forall|i: int| 0 <= i < gs.len() ==> span_ok(b, #[trigger] gs[i])
}

/// The text that a group matched (empty for a group that took no part).
pub open spec fn group_text(b: Seq<u8>, g: Option<(int, int)>) -> Seq<char> {
    match g {
        Some(p) => decode_utf8(b.subrange(p.0, p.1)),
        None => seq![],
    }
}

/// The texts of all groups of a match.
pub open spec fn group_texts(b: Seq<u8>, gs: Seq<Option<(int, int)>>) -> Seq<Seq<char>> {
    gs.map_values(|g: Option<(int, int)>| group_text(b, g))
}

/// The edit for one match with groups `gs`: the payload, each line behind the
/// interpolated line prefix, with groups interpolated, guarded at its ends, put
/// before, after or in place of the root group.
/// The byte just before offset `pre` of text `b` in the text as rewritten by the
/// earlier edits `prev` of the same patch (`None` at the start): the last byte
/// they produced when `pre` is where they stopped.
pub open spec fn byte_before(b: Seq<u8>, prev: Seq<EditSpec>, pre: int) -> Option<u8> {
    let d = crate::edit::done(b, prev, prev.len() as int);
    let c = crate::edit::cursor(prev, prev.len() as int);
    if pre > c {
        Some(b[pre - 1])
    } else if pre == c && d.len() > 0 {
        Some(d.last())
    } else {
        None
    }
}

/// Where the payload of a match is put relative to its root group: the start,
/// or the end for `After`.
pub open spec fn insert_point(p: RegexPatch, root: (int, int)) -> int {
    if p.position == InsertPosition::After { root.1 } else { root.0 }
}

pub open spec fn regex_edit(b: Seq<u8>, p: RegexPatch, gs: Seq<Option<(int, int)>>, names: Seq<Option<Seq<char>>>, prev: Seq<EditSpec>) -> EditSpec {
    let texts = group_texts(b, gs);
    let prefix = interpolation(p.line_prepend@, texts, names);
    let body = interpolation(indented(p.payload@, prefix, true), texts, names);
    let root = root_span(gs, names, p.root_capture).unwrap();
    let post = if p.position == InsertPosition::Before { root.0 } else { root.1 };
    let left = byte_before(b, prev, insert_point(p, root));
    let right = if post < b.len() { Some(b[post]) } else { None };
    let text = guarded(body, left, right);
    match p.position {
        InsertPosition::Before => (root.0, root.0, text),
        InsertPosition::After => (root.1, root.1, text),
        InsertPosition::At => (root.0, root.1, text),
    }
}

/// The first `times` items of `ms`, or all of them.
pub open spec fn keep_first<A>(ms: Seq<A>, times: Option<usize>) -> Seq<A> {
    match times {
        Some(t) => if ms.len() > t {
            ms.take(t as int)
        } else {
            ms
        },
        None => ms,
    }
}

/// What the regex of patch `p` reports on text `b`.
pub open spec fn outcome_of(b: Seq<u8>, p: RegexPatch) -> Option<(Seq<Seq<Option<(int, int)>>>, Seq<Option<Seq<char>>>)> {
    regex_outcome(p.pattern@, p.verbose, decode_utf8(b))
}

/// The matches that patch `p` rewrites in text `b`.
pub open spec fn regex_kept(b: Seq<u8>, p: RegexPatch) -> Seq<Seq<Option<(int, int)>>> {
    match outcome_of(b, p) {
        Some(o) => keep_first(o.0, p.times),
        None => seq![],
    }
}

/// The group names of the regex of patch `p`.
pub open spec fn regex_names(b: Seq<u8>, p: RegexPatch) -> Seq<Option<Seq<char>>> {
    match outcome_of(b, p) {
        Some(o) => o.1,
        None => seq![],
    }
}

/// Every rewritten match has the root group, and all its spans are sound.
pub open spec fn regex_sound(b: Seq<u8>, p: RegexPatch) -> bool {
    forall|k: int| 0 <= k < regex_kept(b, p).len() ==> {
        &&& root_span(#[trigger] regex_kept(b, p)[k], regex_names(b, p), p.root_capture) is Some
        &&& spans_ok(b, regex_kept(b, p)[k])
    }
}

/// The edits that patch `p` makes to text `b`.
pub open spec fn regex_edits(b: Seq<u8>, p: RegexPatch) -> Seq<EditSpec> {
    regex_edits_upto(b, p, regex_kept(b, p).len() as int)
}

/// The edits for the first `k` rewritten matches, each guarded against the text
/// as the ones before it left it.
pub open spec fn regex_edits_upto(b: Seq<u8>, p: RegexPatch, k: int) -> Seq<EditSpec>
    decreases k,
{
    if k <= 0 {
        seq![]
    } else {
        let prev = regex_edits_upto(b, p, k - 1);
        prev.push(regex_edit(b, p, regex_kept(b, p)[k - 1], regex_names(b, p), prev))
    }
}

proof fn lemma_done_prefix(b: Seq<u8>, es: Seq<EditSpec>, fs: Seq<EditSpec>, k: int)
    requires
        0 <= k <= es.len(),
        k <= fs.len(),
        forall|j: int| 0 <= j < k ==> es[j] == fs[j],
    ensures
        crate::edit::done(b, es, k) == crate::edit::done(b, fs, k),
    decreases k,
{
    if k > 0 {
        lemma_done_prefix(b, es, fs, k - 1);
        if k >= 2 {
            assert(es[k - 2] == fs[k - 2]);
        }
        assert(es[k - 1] == fs[k - 1]);
    }
}

proof fn lemma_edits_upto_prefix(b: Seq<u8>, p: RegexPatch, k: int, n: int)
    requires
        0 <= k <= n,
    ensures
        regex_edits_upto(b, p, n).take(k) == regex_edits_upto(b, p, k),
        regex_edits_upto(b, p, n).len() == if n < 0 { 0 } else { n },
    decreases n,
{
    if n > 0 {
        if k < n {
            lemma_edits_upto_prefix(b, p, k, n - 1);
            assert(regex_edits_upto(b, p, n).take(k) =~= regex_edits_upto(b, p, n - 1).take(k));
        } else {
            lemma_edits_upto_prefix(b, p, n - 1, n - 1);
            assert(regex_edits_upto(b, p, n).take(k) =~= regex_edits_upto(b, p, n));
        }
    } else {
        assert(regex_edits_upto(b, p, n).take(k) =~= regex_edits_upto(b, p, k));
    }
}

fn root_ref_chars(rc: &Option<String>) -> (r: Vec<char>)
    ensures
        r@ == root_ref(*rc),
{
    let s = match rc {
        Some(x) => chars_of(x.as_str()),
        None => {
            let mut v: Vec<char> = Vec::new();
            v.push('0');
            v
        },
    };
    let ghost src = match rc {
        Some(x) => x@,
        None => seq!['0'],
    };
    assert(s@ =~= src);
    let mut out: Vec<char> = Vec::new();
    let mut i: usize = 0;
    while i < s.len()
        invariant
            s@ == src,
            i <= s.len(),
            out@ == without_dollars(s@.take(i as int)),
        decreases s.len() - i,
    {
        assert(s@.take(i + 1).drop_last() =~= s@.take(i as int));
        if s[i] != '$' {
            out.push(s[i]);
        }
        assert(out@ =~= without_dollars(s@.take(i + 1)));
        i += 1;
    }
    assert(s@.take(i as int) =~= s@);
    out
}

proof fn lemma_match_view(m: Vec<Option<Span>>)
    ensures
        match_view(m).len() == m.len(),
        forall|i: int| 0 <= i < m.len() ==> #[trigger] match_view(m)[i] == span_view(m[i]),
{
}

impl RegexPatch {
    fn match_edit(&self, rope: &crop::Rope, m: &Vec<Option<Span>>, names: &Vec<Option<String>>, root: Option<usize>, refs: &Vec<char>, cursor: usize, last_out: Option<u8>, Ghost(prev): Ghost<Seq<EditSpec>>) -> (r: Result<Edit, RegexError>)
        requires
            valid_utf8(rope_bytes(*rope)),
            cursor == crate::edit::cursor(prev, prev.len() as int),
            last_out == (if crate::edit::done(rope_bytes(*rope), prev, prev.len() as int).len() > 0 {
                Some(crate::edit::done(rope_bytes(*rope), prev, prev.len() as int).last())
            } else {
                None
            }),
            refs@ == root_ref(self.root_capture),
            root.is_some() == root_index(refs@, names_view(names@)).is_some(),
            root.is_some() ==> root.unwrap() == root_index(refs@, names_view(names@)).unwrap(),
        ensures
            ({
                let b = rope_bytes(*rope);
                let gs = match_view(*m);
                let nv = names_view(names@);
                &&& r is Ok ==> root_span(gs, nv, self.root_capture) is Some && spans_ok(b, gs)
                    && r->Ok_0@ == regex_edit(b, *self, gs, nv, prev)
                &&& r is Err ==> !(root_span(gs, nv, self.root_capture) is Some && spans_ok(b, gs))
                    || insert_point(*self, root_span(gs, nv, self.root_capture).unwrap()) < cursor
                &&& (r is Err && r->Err_0 is MissingGroup) ==> root_span(gs, nv, self.root_capture) is None
                &&& r is Err ==> !(r->Err_0 is BadPattern)
            }),
    {
        let ghost b = rope_bytes(*rope);
        let ghost gs = match_view(*m);
        let ghost nv = names_view(names@);
        proof {
            lemma_match_view(*m);
        }
        let (rs, re) = match root {
            Some(i) => {
                if i < m.len() {
                    match m[i] {
                        Some(p) => p,
                        None => {
                            return Err(RegexError::MissingGroup(string_of(refs.as_slice())));
                        },
                    }
                } else {
                    return Err(RegexError::MissingGroup(string_of(refs.as_slice())));
                }
            },
            None => {
                return Err(RegexError::MissingGroup(string_of(refs.as_slice())));
            },
        };
        let len = rope_byte_len(rope);
        let mut texts: Vec<String> = Vec::new();
        let mut i: usize = 0;
        while i < m.len()
            invariant
                b == rope_bytes(*rope),
                gs == match_view(*m),
                len == b.len(),
                i <= m.len(),
                forall|j: int| 0 <= j < i ==> span_ok(b, #[trigger] gs[j]),
                views(texts@) == group_texts(b, gs).take(i as int),
            decreases m.len() - i,
        {
            let t = match m[i] {
                Some(p) => {
                    if p.0 > p.1 || p.1 > len || !rope_is_char_boundary_at(rope, p.0) || !rope_is_char_boundary_at(rope, p.1) {
                        assert(!span_ok(b, gs[i as int]));
                        return Err(RegexError::BadSpan);
                    }
                    let t = crate::rope::rope_slice_text(rope, p.0, p.1);
                    proof {
                        vstd::utf8::encode_utf8_decode_utf8(t@);
                    }
                    t
                },
                None => String::new(),
            };
            let ghost before = views(texts@);
            texts.push(t);
            assert(views(texts@) =~= before.push(t@));
            assert(group_texts(b, gs).take(i + 1) =~= group_texts(b, gs).take(i as int).push(group_text(b, gs[i as int])));
            i += 1;
        }
        assert(group_texts(b, gs).take(i as int) =~= group_texts(b, gs));
        assert(spans_ok(b, gs));
        let prefix = interpolate_groups(self.line_prepend.as_str(), &texts, names);
        let lined = crate::chars::indent_lines(self.payload.as_str(), prefix.as_str());
        let body = interpolate_groups(lined.as_str(), &texts, names);
        let pre = match self.position {
            InsertPosition::After => re,
            _ => rs,
        };
        let post = match self.position {
            InsertPosition::Before => rs,
            _ => re,
        };
        let left = if pre > cursor {
            Some(rope_byte(rope, pre - 1))
        } else if pre == cursor {
            last_out
        } else {
            return Err(RegexError::BadSpan);
        };
        let right = if post < len {
            Some(rope_byte(rope, post))
        } else {
            None
        };
        let text = guard_boundaries(body.as_str(), left, right);
        let e = match self.position {
            InsertPosition::Before => Edit { pos: rs, del_end: rs, text },
            InsertPosition::After => Edit { pos: re, del_end: re, text },
            InsertPosition::At => Edit { pos: rs, del_end: re, text },
        };
        Ok(e)
    }
}

fn rope_is_char_boundary_at(rope: &crop::Rope, i: usize) -> (r: bool)
    ensures
        r == (i <= rope_bytes(*rope).len() && is_char_boundary(rope_bytes(*rope), i as int)),
{
    if i > rope_byte_len(rope) {
        false
    } else {
        crate::rope::rope_is_char_boundary(rope, i)
    }
}

} // verus!

verus! {

/// The warnings that patch `p` records on text `b` for chunk `target`, read
/// from `path`: one when nothing matches, one when the number of matches
/// differs from `times`.
pub open spec fn regex_warnings(b: Seq<u8>, p: RegexPatch, target: Seq<char>, path: Seq<char>) -> Seq<Seq<char>> {
    let n = regex_found(b, p);
    (if n == 0 {
        seq![no_match_text("Regex"@, "regex"@, p.pattern@, target, path)]
    } else {
        seq![]
    }) + (if p.times is Some && n != p.times->Some_0 {
        seq![count_text("Regex"@, "regex"@, p.pattern@, target, path, n as nat, p.times->Some_0 as nat)]
    } else {
        seq![]
    })
}

/// Every rewritten match has the group that the root capture names, and that
/// group took part in it.
pub open spec fn roots_resolve(b: Seq<u8>, p: RegexPatch) -> bool {
    forall|k: int|
        0 <= k < regex_kept(b, p).len() ==> root_span(#[trigger] regex_kept(b, p)[k], regex_names(b, p), p.root_capture) is Some
}

/// How many matches the regex of patch `p` has in text `b`.
pub open spec fn regex_found(b: Seq<u8>, p: RegexPatch) -> int {
    match outcome_of(b, p) {
        Some(o) => o.0.len() as int,
        None => 0,
    }
}

impl RegexPatch {
    /// The root capture as written, when some rewritten match of the rope lacks
    /// the group it names (a patch that cannot be applied); `None` when every
    /// match has it.
    pub fn unresolved_root(&self, rope: &crop::Rope) -> (r: Option<String>)
        requires
            valid_utf8(rope_bytes(*rope)),
        ensures
            r is None <==> roots_resolve(rope_bytes(*rope), *self),
    {
        let ghost b = rope_bytes(*rope);
        let text = rope_to_string(rope);
        proof {
            vstd::utf8::encode_utf8_decode_utf8(text@);
        }
        let found = match regex_search(self.pattern.as_str(), self.verbose, text.as_str()) {
            Some(f) => f,
            None => {
                return None;
            },
        };
        let ghost ms = regex_kept(b, *self);
        let ghost nv = regex_names(b, *self);
        let mut count = found.matches.len();
        if let Some(t) = self.times {
            if count > t {
                count = t;
            }
        }
        let refs = root_ref_chars(&self.root_capture);
        let root = match parse_index(&refs) {
            Some(i) => Some(i),
            None => group_index(&found.names, string_of(refs.as_slice()).as_str()),
        };
        let mut k: usize = 0;
        while k < count
            invariant
                b == rope_bytes(*rope),
                ms == regex_kept(b, *self),
                nv == regex_names(b, *self),
                nv == names_view(found.names@),
                count == ms.len(),
                count <= found.matches.len(),
                forall|j: int| 0 <= j < count ==> #[trigger] ms[j] == match_view(found.matches[j]),
                refs@ == root_ref(self.root_capture),
                root.is_some() == root_index(refs@, nv).is_some(),
                root.is_some() ==> root.unwrap() == root_index(refs@, nv).unwrap(),
                k <= count,
                forall|j: int| 0 <= j < k ==> root_span(#[trigger] ms[j], nv, self.root_capture) is Some,
            decreases count - k,
        {
            let m = &found.matches[k];
            proof {
                lemma_match_view(*m);
                assert(ms[k as int] == match_view(*m));
            }
            let present = match root {
                Some(i) => i < m.len() && m[i].is_some(),
                None => false,
            };
            if !present {
                assert(root_span(ms[k as int], nv, self.root_capture) is None);
                assert(!roots_resolve(b, *self));
                return Some(string_of(refs.as_slice()));
            }
            k += 1;
        }
        None
    }

    /// Apply the regex patch onto the rope when it targets `target`: the first
    /// `times` matches (all when `times` is unset) are rewritten. Returns the
    /// debug entry of the application, with warnings when nothing matched or
    /// the number of matches differs from `times`; `Ok(None)` when the patch does
    /// not target `target`. The root capture must name a group that takes part in
    /// every rewritten match (`unresolved_root` tells). An error leaves the rope
    /// as it was.
    #[verifier::rlimit(80)]
    pub fn apply(&self, target: &str, rope: &mut crop::Rope, path: &str) -> (r: Result<Option<ByteDebugEntry>, RegexError>)
        requires
            valid_utf8(rope_bytes(*old(rope))),
            self.target.covers(target@) ==> roots_resolve(rope_bytes(*old(rope)), *self),
        ensures
            valid_utf8(rope_bytes(*final(rope))),
            ({
                let b = rope_bytes(*old(rope));
                let es = regex_edits(b, *self);
                &&& !self.target.covers(target@) ==> r is Ok && r->Ok_0 is None
                &&& (r is Err && r->Err_0 is BadPattern) <==> (self.target.covers(target@) && outcome_of(b, *self) is None)
                &&& (r is Err && r->Err_0 is BadSpan) <==> (self.target.covers(target@) && outcome_of(b, *self) is Some
                    && regex_kept(b, *self).len() > 0 && !(regex_sound(b, *self) && edits_fit(b, es)))
                &&& r is Err ==> (r->Err_0 is BadPattern || r->Err_0 is BadSpan)
                &&& (r is Err || r->Ok_0 is None) ==> rope_bytes(*final(rope)) == b
                &&& (self.target.covers(target@) && outcome_of(b, *self) is Some && regex_kept(b, *self).len() == 0) ==> {
                    &&& r is Ok && r->Ok_0 is Some
                    &&& r->Ok_0->Some_0.regions.len() == 0
                    &&& warned(r->Ok_0->Some_0)
                    &&& rope_bytes(*final(rope)) == b
                }
                &&& (self.target.covers(target@) && outcome_of(b, *self) is Some && regex_kept(b, *self).len() > 0
                    && regex_sound(b, *self) && edits_fit(b, es)) ==> r is Ok && r->Ok_0 is Some
                    && rope_bytes(*final(rope)) == edited(b, es)
                    && forall|k: int| 0 <= k < es.len() ==> region_of(b, es, k, #[trigger] r->Ok_0->Some_0.regions[k])
                &&& (r is Ok && r->Ok_0 is Some) ==> {
                    &&& self.target.covers(target@) && outcome_of(b, *self) is Some
                    &&& r->Ok_0->Some_0.regions.len() == es.len()
                    &&& r->Ok_0->Some_0.regions.len() == regex_kept(b, *self).len()
                    &&& (self.times is Some && regex_found(b, *self) != self.times->Some_0) ==> warned(r->Ok_0->Some_0)
                    &&& r->Ok_0->Some_0.warnings is None <==> regex_warnings(b, *self, target@, path@).len() == 0
                    &&& r->Ok_0->Some_0.warnings is Some ==> views(r->Ok_0->Some_0.warnings->Some_0@) == regex_warnings(b, *self, target@, path@)
                    &&& r->Ok_0->Some_0.patch_source.patch_type == DebugPatchType::Regex
                    &&& r->Ok_0->Some_0.patch_source.file@ == path@
                }
            }),
    {
        let ghost b = rope_bytes(*rope);
        if !self.target.can_apply(target) {
            return Ok(None);
        }
        let text = rope_to_string(rope);
        proof {
            vstd::utf8::encode_utf8_decode_utf8(text@);
        }
        let found = match regex_search(self.pattern.as_str(), self.verbose, text.as_str()) {
            Some(f) => f,
            None => {
                return Err(RegexError::BadPattern);
            },
        };
        let ghost ms = regex_kept(b, *self);
        let ghost nv = regex_names(b, *self);
        let ghost es = regex_edits(b, *self);
        let mut count = found.matches.len();
        let mut warnings: Vec<String> = Vec::new();
        assert(regex_found(b, *self) == count);
        if count == 0 {
            warnings.push(no_match_warning("Regex", "regex", self.pattern.as_str(), target, path));
        }
        assert(views(warnings@) =~= if count == 0 {
            seq![no_match_text("Regex"@, "regex"@, self.pattern@, target@, path@)]
        } else {
            Seq::<Seq<char>>::empty()
        });
        if let Some(t) = self.times {
            if count != t {
                let ghost before = views(warnings@);
                warnings.push(count_warning("Regex", "regex", self.pattern.as_str(), target, path, count, t));
                assert(views(warnings@) =~= before.push(count_text("Regex"@, "regex"@, self.pattern@, target@, path@, count as nat, t as nat)));
            }
            if count > t {
                count = t;
            }
        }
        assert(ms.len() == count);
        assert(views(warnings@) =~= regex_warnings(b, *self, target@, path@));
        let source = PatchSource {
            file: path.to_owned(),
            pattern: Some(self.pattern.clone()),
            patch_type: DebugPatchType::Regex,
        };
        let warned_now = warnings.len() > 0;
        let warnings = if warned_now {
            Some(warnings)
        } else {
            None
        };
        if count == 0 {
            return Ok(Some(ByteDebugEntry { patch_source: source, regions: Vec::new(), warnings }));
        }
        let refs = root_ref_chars(&self.root_capture);
        let root = match parse_index(&refs) {
            Some(i) => Some(i),
            None => group_index(&found.names, string_of(refs.as_slice()).as_str()),
        };
        let len = rope_byte_len(rope);
        if len > isize::MAX as usize {
            return Err(RegexError::BadSpan);
        }
        let mut edits: Vec<Edit> = Vec::new();
        let mut k: usize = 0;
        let mut cursor: usize = 0;
        let mut last_out: Option<u8> = None;
        proof {
            lemma_edits_upto_prefix(b, *self, 0, count as int);
            assert(crate::edit::done(b, es.take(0), 0) == Seq::<u8>::empty());
        }
        while k < count
            invariant
                cursor == crate::edit::cursor(es.take(k as int), k as int),
                last_out == (if crate::edit::done(b, es.take(k as int), k as int).len() > 0 {
                    Some(crate::edit::done(b, es.take(k as int), k as int).last())
                } else {
                    None
                }),
                b == rope_bytes(*rope),
                valid_utf8(b),
                len == b.len(),
                ms == regex_kept(b, *self),
                nv == regex_names(b, *self),
                nv == names_view(found.names@),
                es == regex_edits(b, *self),
                count == ms.len(),
                es.len() == count,
                self.target.covers(target@),
                roots_resolve(b, *self),
                outcome_of(b, *self) is Some,
                count <= found.matches.len(),
                forall|j: int| 0 <= j < count ==> #[trigger] ms[j] == match_view(found.matches[j]),
                refs@ == root_ref(self.root_capture),
                root.is_some() == root_index(refs@, nv).is_some(),
                root.is_some() ==> root.unwrap() == root_index(refs@, nv).unwrap(),
                k <= count,
                forall|j: int| 0 <= j < k ==> root_span(#[trigger] ms[j], nv, self.root_capture) is Some && spans_ok(b, ms[j]),
                edit_views(edits@) == es.take(k as int),
                len <= isize::MAX,
                edits_fit(b, es.take(k as int)),
            decreases count - k,
        {
            assert(root_span(ms[k as int], nv, self.root_capture) is Some);
            let ghost prev = es.take(k as int);
            proof {
                lemma_edits_upto_prefix(b, *self, k as int, count as int);
                lemma_edits_upto_prefix(b, *self, k + 1, count as int);
                assert(es.take(k + 1)[k as int] == es[k as int]);
                assert(es[k as int] == regex_edit(b, *self, ms[k as int], nv, prev));
                assert(prev.len() == k);
            }
            let e = match self.match_edit(rope, &found.matches[k], &found.names, root, &refs, cursor, last_out, Ghost(prev)) {
                Ok(e) => e,
                Err(err) => {
                    proof {
                        assert(ms[k as int] == match_view(found.matches[k as int]));
                        if root_span(ms[k as int], nv, self.root_capture) is Some && spans_ok(b, ms[k as int]) {
                            assert(k > 0);
                            assert(prev[k - 1] == es[k - 1]);
                            if edits_fit(b, es) {
                                assert(es[k - 1].1 <= es[k as int].0);
                            }
                        }
                        assert(!(regex_sound(b, *self) && edits_fit(b, es)));
                        assert(err is BadSpan);
                    }
                    return Err(err);
                },
            };
            assert(es[k as int] == e@);
            let tl = byte_len(e.text.as_str());
            assert(edit_views(edits@).len() == edits.len());
            assert(es.take(k as int).len() == k);
            assert(edits.len() == k);
            let after_prev = k == 0 || edits[k - 1].del_end <= e.pos;
            if tl > isize::MAX as usize || !after_prev {
                proof {
                    if tl > isize::MAX {
                        crate::edit::lemma_unfit(b, es, k as int);
                    }
                    if !after_prev {
                        assert(edit_views(edits@)[k - 1] == es[k - 1]);
                        assert(edits@[k - 1]@ == es[k - 1]);
                        if edits_fit(b, es) {
                            assert(es[k - 1].1 <= es[k as int].0);
                        }
                    }
                    assert(!(regex_sound(b, *self) && edits_fit(b, es)));
                }
                return Err(RegexError::BadSpan);
            }
            proof {
                let g = ms[k as int];
                assert(span_ok(b, g[root_index(refs@, nv).unwrap()]));
                if k > 0 {
                    assert(es.take(k as int).last() == es[k - 1]);
                }
                lemma_fit_push(b, es.take(k as int), e@);
            }
            let bytes = e.text.as_str().as_bytes();
            let next_last = if bytes.len() > 0 {
                Some(bytes[bytes.len() - 1])
            } else if e.pos > cursor {
                Some(rope_byte(rope, e.pos - 1))
            } else {
                last_out
            };
            let next_cursor = e.del_end;
            let ghost before = edit_views(edits@);
            edits.push(e);
            proof {
                assert(edit_views(edits@) =~= before.push(e@));
                assert(es.take(k + 1) =~= es.take(k as int).push(e@));
                let d0 = crate::edit::done(b, es.take(k as int), k as int);
                let d1 = crate::edit::done(b, es.take(k + 1), k + 1);
                assert(crate::edit::done(b, es.take(k + 1), k as int) == d0) by {
                    lemma_done_prefix(b, es.take(k + 1), es.take(k as int), k as int);
                }
                assert(crate::edit::cursor(es.take(k + 1), k as int) == cursor) by {
                    if k > 0 {
                        assert(es.take(k + 1)[k - 1] == es.take(k as int)[k - 1]);
                    }
                }
                assert(d1 == d0 + b.subrange(cursor as int, es[k as int].0) + encode_utf8(es[k as int].2));
            }
            cursor = next_cursor;
            last_out = next_last;
            k += 1;
        }
        assert(es.take(k as int) =~= es);
        assert(regex_sound(b, *self));
        let regions = apply_edits(rope, &edits);
        Ok(Some(ByteDebugEntry { patch_source: source, regions, warnings }))
    }
}

} // verus!
