use lovely::patch::{CopyPatch, CopyPosition, InsertPosition, PatternPatch, RegexPatch, Target};
use lovely::regex::{guard_boundaries, RegexError};
use lovely::chars::build_payload;

fn pattern(target: &str, pat: &str, position: InsertPosition, payload: &str, indent: bool, times: Option<usize>) -> PatternPatch {
    PatternPatch {
        target: Target::Single(target.to_string()),
        pattern: pat.to_string(),
        position,
        payload: payload.to_string(),
        match_indent: indent,
        times,
        overwrite: false,
        name: None,
    }
}

fn regex(target: &str, pat: &str, position: InsertPosition, payload: &str) -> RegexPatch {
    RegexPatch {
        target: Target::Single(target.to_string()),
        pattern: pat.to_string(),
        position,
        root_capture: None,
        payload: payload.to_string(),
        line_prepend: String::new(),
        times: None,
        verbose: false,
        name: None,
    }
}

fn copy(target: &str, position: CopyPosition, payload: &str) -> CopyPatch {
    CopyPatch {
        position,
        target: Target::Single(target.to_string()),
        sources: None,
        payload: Some(payload.to_string()),
        name: None,
        contents: vec![],
    }
}

#[test]
fn pattern_before_matches_indent() {
    let mut rope = crop::Rope::from("    local x = 1\n    local y = 2\n");
    let p = pattern("@demo.lua", "local y = 2", InsertPosition::Before, "z = 0", true, Some(1));
    let entry = p.apply("@demo.lua", &mut rope, "mod/lovely.toml").expect("applied");
    assert_eq!(rope.to_string(), "    local x = 1\n    z = 0\n    local y = 2\n");
    assert_eq!(entry.regions.len(), 1);
    assert_eq!(entry.regions[0].start, 16);
    assert_eq!(entry.regions[0].end, 26);
    assert_eq!(entry.regions[0].delta, 10);
    assert!(entry.warnings.is_none());
}

#[test]
fn pattern_at_replaces_block() {
    let mut rope = crop::Rope::from("A\nB\nC\n");
    let p = pattern("t", "B", InsertPosition::At, "B1\nB2", false, None);
    assert!(p.apply("t", &mut rope, "p").is_some());
    assert_eq!(rope.to_string(), "A\nB1\nB2\nC\n");
}

#[test]
fn pattern_after_multi_line_block() {
    let mut rope = crop::Rope::from("a\n  b\n  c\nd\n");
    let p = pattern("t", "b\n c", InsertPosition::After, "X", false, None);
    assert!(p.apply("t", &mut rope, "p").is_some());
    assert_eq!(rope.to_string(), "a\n  b\n  c\nX\nd\n");
}

#[test]
fn pattern_wildcards_and_trimming() {
    let mut rope = crop::Rope::from("  print('hi')\r\nother\n");
    let p = pattern("t", "  print(*)  ", InsertPosition::Before, "-- note\n", false, None);
    assert!(p.apply("t", &mut rope, "p").is_some());
    assert_eq!(rope.to_string(), "-- note\n  print('hi')\r\nother\n");
}

#[test]
fn pattern_lines_are_only_left_trimmed() {
    let mut rope = crop::Rope::from("  x = 1  \n");
    let p = pattern("t", "x = 1", InsertPosition::At, "y", false, None);
    let entry = p.apply("t", &mut rope, "p").expect("entry");
    assert!(entry.regions.is_empty());
    assert_eq!(rope.to_string(), "  x = 1  \n");
}

#[test]
fn pattern_times_truncates_and_warns() {
    let mut rope = crop::Rope::from("x\ny\nx\n");
    let p = pattern("t", "x", InsertPosition::At, "z", false, Some(1));
    let entry = p.apply("t", &mut rope, "p").expect("applied");
    assert_eq!(rope.to_string(), "z\ny\nx\n");
    assert_eq!(entry.regions.len(), 1);
    let w = entry.warnings.expect("warning");
    assert_eq!(w.len(), 1);
    assert!(w[0].contains("2 matches, wanted 1"));
    assert!(w[0].contains("from p "));
}

#[test]
fn pattern_no_match_leaves_buffer() {
    let mut rope = crop::Rope::from("a\nb\n");
    let p = pattern("t", "zzz", InsertPosition::At, "q", false, None);
    let entry = p.apply("t", &mut rope, "mods/x.toml").expect("entry");
    assert!(entry.regions.is_empty());
    let w = entry.warnings.expect("warning");
    assert!(w[0].contains("no matches") && w[0].contains("mods/x.toml") && w[0].contains("zzz"));
    assert_eq!(rope.to_string(), "a\nb\n");
}

#[test]
fn pattern_longer_than_buffer_never_matches() {
    let mut rope = crop::Rope::from("a\nb\n");
    let p = pattern("t", "a\nb\nc", InsertPosition::At, "q", false, None);
    assert!(p.apply("t", &mut rope, "p").expect("entry").regions.is_empty());
    assert_eq!(rope.to_string(), "a\nb\n");
}

#[test]
fn pattern_other_target_is_ignored() {
    let mut rope = crop::Rope::from("a\n");
    let p = pattern("main.lua", "a", InsertPosition::At, "q", false, None);
    assert!(p.apply("Main.lua", &mut rope, "p").is_none());
    assert_eq!(rope.to_string(), "a\n");
}

#[test]
fn pattern_empty_pattern_has_no_lines() {
    let mut rope = crop::Rope::from("a\n");
    let p = pattern("t", "", InsertPosition::At, "q", false, None);
    let entry = p.apply("t", &mut rope, "p").expect("entry");
    assert!(entry.regions.is_empty() && entry.warnings.is_some());
    assert_eq!(rope.to_string(), "a\n");
}

#[test]
fn pattern_tab_indent_is_kept() {
    let mut rope = crop::Rope::from("\t\tfoo()\n");
    let p = pattern("t", "foo()", InsertPosition::After, "bar()\nbaz()", true, None);
    assert!(p.apply("t", &mut rope, "p").is_some());
    assert_eq!(rope.to_string(), "\t\tfoo()\n\t\tbar()\n\t\tbaz()\n");
}

#[test]
fn pattern_glob_target() {
    let mut rope = crop::Rope::from("a\n");
    let mut p = pattern("x", "a", InsertPosition::At, "b", false, None);
    p.target = Target::Multi(vec!["other".to_string(), "fun*.lua".to_string()]);
    assert!(p.apply("functions.lua", &mut rope, "p").is_some());
    assert_eq!(rope.to_string(), "b\n");
}

#[test]
fn payload_gets_one_newline() {
    assert_eq!(build_payload("x", ""), "x\n");
    assert_eq!(build_payload("x\n", ""), "x\n");
    assert_eq!(build_payload("", "  "), "\n");
    assert_eq!(build_payload("a\nb", "\t"), "\ta\n\tb\n");
}

#[test]
fn regex_after_with_capture_and_space() {
    let mut rope = crop::Rope::from("foo=1 end");
    let p = regex("t", "(?P<k>foo)=1", InsertPosition::After, "bar_$k");
    let entry = p.apply("t", &mut rope, "p").expect("ok").expect("applied");
    assert_eq!(rope.to_string(), "foo=1 bar_foo end");
    assert_eq!(entry.regions.len(), 1);
    assert_eq!(entry.regions[0].start, 5);
    assert_eq!(entry.regions[0].end, 13);
}

#[test]
fn regex_at_numbered_group_and_root() {
    let mut rope = crop::Rope::from("local a = 1\nlocal b = 2\n");
    let mut p = regex("t", "local (\\w+) = (\\d)", InsertPosition::At, "[$2]");
    p.root_capture = Some("$2".to_string());
    p.apply("t", &mut rope, "p").expect("ok").expect("applied");
    assert_eq!(rope.to_string(), "local a = [1]\nlocal b = [2]\n");
}

#[test]
fn regex_before_with_line_prepend() {
    let mut rope = crop::Rope::from("  end\n");
    let mut p = regex("t", "(?m)^( *)end", InsertPosition::Before, "x()\n");
    p.line_prepend = "$1".to_string();
    p.apply("t", &mut rope, "p").expect("ok").expect("applied");
    assert_eq!(rope.to_string(), "  x()\n  end\n");
}

#[test]
fn regex_bad_pattern_is_an_error() {
    let mut rope = crop::Rope::from("abc");
    let p = regex("t", "(unclosed", InsertPosition::At, "x");
    assert!(matches!(p.apply("t", &mut rope, "p"), Err(RegexError::BadPattern)));
    assert_eq!(rope.to_string(), "abc");
}

#[test]
fn regex_missing_root_group_is_an_error() {
    let mut rope = crop::Rope::from("abc");
    let mut p = regex("t", "b", InsertPosition::At, "x");
    p.root_capture = Some("$name".to_string());
    assert_eq!(p.unresolved_root(&rope), Some("name".to_string()));
    let mut q = regex("t", "(x)?b", InsertPosition::At, "y");
    q.root_capture = Some("1".to_string());
    assert_eq!(q.unresolved_root(&rope), Some("1".to_string()));
    q.root_capture = Some("$0".to_string());
    assert_eq!(q.unresolved_root(&rope), None);
    q.apply("t", &mut rope, "p").expect("ok").expect("applied");
    assert_eq!(rope.to_string(), "a y c");
}

#[test]
fn regex_no_match_is_none() {
    let mut rope = crop::Rope::from("abc");
    let p = regex("t", "zzz", InsertPosition::At, "x");
    let entry = p.apply("t", &mut rope, "p").expect("ok").expect("entry");
    assert!(entry.regions.is_empty());
    assert!(entry.warnings.expect("warning")[0].contains("no matches"));
    assert_eq!(rope.to_string(), "abc");
    assert!(regex("u", "zzz", InsertPosition::At, "x").apply("t", &mut rope, "p").expect("ok").is_none());
}

#[test]
fn regex_times_keeps_first_matches_and_warns() {
    let mut rope = crop::Rope::from("a1 a2 a3");
    let mut p = regex("t", "a(\\d)", InsertPosition::At, "b$1");
    p.times = Some(2);
    let entry = p.apply("t", &mut rope, "p").expect("ok").expect("entry");
    assert_eq!(rope.to_string(), "b1 b2 a3");
    assert_eq!(entry.regions.len(), 2);
    assert!(entry.warnings.expect("warning")[0].contains("3 matches, wanted 2"));
}

#[test]
fn boundary_guard_spaces() {
    assert_eq!(guard_boundaries("bar", Some(b'1'), Some(b' ')), " bar");
    assert_eq!(guard_boundaries("bar", Some(b' '), Some(b'x')), "bar ");
    assert_eq!(guard_boundaries("bar", Some(b'_'), Some(b'9')), " bar ");
    assert_eq!(guard_boundaries("(x)", Some(b'a'), Some(b'b')), "(x)");
    assert_eq!(guard_boundaries("x", None, None), "x");
    assert_eq!(guard_boundaries("", Some(b'a'), Some(b'b')), "");
}

#[test]
fn copy_append_payload() {
    let mut rope = crop::Rope::from("X");
    let p = copy("t", CopyPosition::Append, "-- end");
    let entry = p.apply("t", &mut rope, "p").expect("applied");
    assert_eq!(rope.to_string(), "X\n-- end\n");
    assert_eq!(entry.regions.len(), 1);
    assert_eq!(entry.regions[0].start, 1);
    assert_eq!(entry.regions[0].end, 9);
}

#[test]
fn copy_sources_then_payload() {
    let mut rope = crop::Rope::from("body\n");
    let mut p = copy("t", CopyPosition::Prepend, "tail");
    p.contents = vec!["one".to_string(), "two".to_string()];
    p.apply("t", &mut rope, "p").expect("applied");
    assert_eq!(rope.to_string(), "one\ntwo\ntail\nbody\n");
}

#[test]
fn copy_prepend_twice() {
    let mut rope = crop::Rope::from("orig");
    copy("t", CopyPosition::Prepend, "X").apply("t", &mut rope, "p").expect("applied");
    copy("t", CopyPosition::Prepend, "Y").apply("t", &mut rope, "p").expect("applied");
    assert_eq!(rope.to_string(), "Y\nX\norig");
}

#[test]
fn copy_other_target_is_ignored() {
    let mut rope = crop::Rope::from("orig");
    assert!(copy("t", CopyPosition::Prepend, "X").apply("u", &mut rope, "p").is_none());
    assert_eq!(rope.to_string(), "orig");
}

#[test]
fn regex_adjacent_matches_get_one_space() {
    let mut rope = crop::Rope::from("abab");
    let p = regex("t", "ab", InsertPosition::At, "c");
    p.apply("t", &mut rope, "p").expect("ok").expect("applied");
    assert_eq!(rope.to_string(), "c c");
}

#[test]
fn warning_texts() {
    let mut rope = crop::Rope::from("a\n");
    let p = pattern("main.lua", "zzz", InsertPosition::At, "q", false, Some(2));
    let w = p.apply("main.lua", &mut rope, "m/lovely.toml").expect("entry").warnings.expect("warnings");
    assert_eq!(
        w,
        vec![
            "Pattern 'zzz' on target 'main.lua' for pattern patch from m/lovely.toml resulted in no matches".to_string(),
            "Pattern 'zzz' on target 'main.lua' for pattern patch from m/lovely.toml resulted in 0 matches, wanted 2".to_string(),
        ]
    );
    let p = pattern("main.lua", "x\ny", InsertPosition::At, "q", false, None);
    let w = p.apply("main.lua", &mut rope, "f").expect("entry").warnings.expect("warnings");
    assert_eq!(w, vec!["Pattern '''\nx\ny''' on target 'main.lua' for pattern patch from f resulted in no matches".to_string()]);
    let mut rope = crop::Rope::from("a a a a a a a a a a a a");
    let mut r = regex("t", "a", InsertPosition::At, "b");
    r.times = Some(3);
    let w = r.apply("t", &mut rope, "r.toml").expect("ok").expect("entry").warnings.expect("warnings");
    assert_eq!(w, vec!["Regex 'a' on target 't' for regex patch from r.toml resulted in 12 matches, wanted 3".to_string()]);
    assert_eq!(rope.to_string(), "b b b a a a a a a a a a");
}
