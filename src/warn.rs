//! The text of the warnings that pattern and regex patches record: the pattern
//! (as a block when it spans several lines), the target, the patch file, and
//! either "no matches" or the counts found and wanted.
use vstd::prelude::*;
use crate::chars::{push_chars, split_lines, string_of, text_lines};

verus! {

/// The decimal digit for `d` (below ten).
pub open spec fn digit(d: nat) -> char {
    if d == 0 { '0' } else if d == 1 { '1' } else if d == 2 { '2' } else if d == 3 { '3' } else if d == 4 {
        '4'
    } else if d == 5 { '5' } else if d == 6 { '6' } else if d == 7 { '7' } else if d == 8 { '8' } else { '9' }
}

/// `n` written in decimal.
pub open spec fn decimal(n: nat) -> Seq<char>
    decreases n,
{
    if n < 10 {
        seq![digit(n)]
    } else {
        decimal(n / 10).push(digit(n % 10))
    }
}

fn digit_char(d: usize) -> (c: char)
    requires
        d < 10,
    ensures
        c == digit(d as nat),
{
    if d == 0 { '0' } else if d == 1 { '1' } else if d == 2 { '2' } else if d == 3 { '3' } else if d == 4 {
        '4'
    } else if d == 5 { '5' } else if d == 6 { '6' } else if d == 7 { '7' } else if d == 8 { '8' } else { '9' }
}

fn push_decimal(out: &mut Vec<char>, n: usize)
    ensures
        final(out)@ == old(out)@ + decimal(n as nat),
    decreases n,
{
    if n >= 10 {
        push_decimal(out, n / 10);
    }
    out.push(digit_char(n % 10));
    proof {
        if n >= 10 {
            assert(decimal(n as nat) == decimal((n / 10) as nat).push(digit((n % 10) as nat)));
        }
    }
    assert(out@ =~= old(out)@ + decimal(n as nat));
}

/// How a warning shows a pattern: quoted, or as a block between `'''` when it
/// has several lines.
pub open spec fn shown_pattern(p: Seq<char>) -> Seq<char> {
    if text_lines(p).len() > 1 {
        "'''\n"@ + p + "'''"@
    } else {
        "'"@ + p + "'"@
    }
}

/// The start of a warning: `<Kind> <pattern> on target '<target>' for <kind> patch from <path>`.
pub open spec fn warning_head(kind: Seq<char>, lower: Seq<char>, p: Seq<char>, target: Seq<char>, path: Seq<char>) -> Seq<char> {
    kind + " "@ + shown_pattern(p) + " on target '"@ + target + "' for "@ + lower + " patch from "@ + path
}

/// The warning for a patch that matched nothing.
pub open spec fn no_match_text(kind: Seq<char>, lower: Seq<char>, p: Seq<char>, target: Seq<char>, path: Seq<char>) -> Seq<char> {
    warning_head(kind, lower, p, target, path) + " resulted in no matches"@
}

/// The warning for a patch whose number of matches differs from `times`.
pub open spec fn count_text(
    kind: Seq<char>,
    lower: Seq<char>,
    p: Seq<char>,
    target: Seq<char>,
    path: Seq<char>,
    found: nat,
    wanted: nat,
) -> Seq<char> {
    warning_head(kind, lower, p, target, path) + " resulted in "@ + decimal(found) + " matches, wanted "@
        + decimal(wanted)
}

fn push_head(out: &mut Vec<char>, kind: &str, lower: &str, p: &str, target: &str, path: &str)
    ensures
        final(out)@ == old(out)@ + warning_head(kind@, lower@, p@, target@, path@),
{
    push_chars(out, kind);
    push_chars(out, " ");
    if split_lines(p).len() > 1 {
        push_chars(out, "'''\n");
        push_chars(out, p);
        push_chars(out, "'''");
    } else {
        push_chars(out, "'");
        push_chars(out, p);
        push_chars(out, "'");
    }
    push_chars(out, " on target '");
    push_chars(out, target);
    push_chars(out, "' for ");
    push_chars(out, lower);
    push_chars(out, " patch from ");
    push_chars(out, path);
    assert(out@ =~= old(out)@ + warning_head(kind@, lower@, p@, target@, path@));
}

/// The warning for a patch that matched nothing.
pub fn no_match_warning(kind: &str, lower: &str, p: &str, target: &str, path: &str) -> (r: String)
    ensures
        r@ == no_match_text(kind@, lower@, p@, target@, path@),
{
    let mut out: Vec<char> = Vec::new();
    push_head(&mut out, kind, lower, p, target, path);
    push_chars(&mut out, " resulted in no matches");
    assert(out@ =~= no_match_text(kind@, lower@, p@, target@, path@));
    string_of(out.as_slice())
}

/// The warning for a patch whose number of matches differs from `times`.
pub fn count_warning(kind: &str, lower: &str, p: &str, target: &str, path: &str, found: usize, wanted: usize) -> (r: String)
    ensures
        r@ == count_text(kind@, lower@, p@, target@, path@, found as nat, wanted as nat),
{
    let mut out: Vec<char> = Vec::new();
    push_head(&mut out, kind, lower, p, target, path);
    push_chars(&mut out, " resulted in ");
    push_decimal(&mut out, found);
    push_chars(&mut out, " matches, wanted ");
    push_decimal(&mut out, wanted);
    assert(out@ =~= count_text(kind@, lower@, p@, target@, path@, found as nat, wanted as nat));
    string_of(out.as_slice())
}

} // verus!
