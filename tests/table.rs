use lovely::config::LovelyConfig;
use lovely::dump::{pretty_name, should_dump, ByteRegion, ByteDebugEntry, DebugPatchType, PatchDebug, PatchSource};
use lovely::loader::{attach_sources, blacklist_names, find_mod_root, get_parent, patch_files_in, validate_patch, with_patch_dir, LoadError};
use lovely::order::stable_order;
use lovely::patch::{CopyPatch, CopyPosition, InsertPosition, ModulePatch, Patch, PatternPatch, Target, TargetIndex};
use lovely::table::{process_patches, ApplyError, PatchTable};
use lovely::vars::{apply_var_interp, interpolate, VarTable};

fn vars(pairs: &[(&str, &str)]) -> VarTable {
    let mut v = VarTable::new();
    for (k, x) in pairs {
        v.set(k.to_string(), x.to_string());
    }
    v
}

fn pattern_patch(target: &str, pat: &str, payload: &str) -> Patch {
    Patch::Pattern(PatternPatch {
        target: Target::Single(target.to_string()),
        pattern: pat.to_string(),
        position: InsertPosition::After,
        payload: payload.to_string(),
        match_indent: false,
        times: None,
        overwrite: false,
        name: None,
    })
}

fn copy_patch(target: &str, payload: &str) -> Patch {
    Patch::Copy(CopyPatch {
        position: CopyPosition::Prepend,
        target: Target::Single(target.to_string()),
        sources: None,
        payload: Some(payload.to_string()),
        name: None,
        contents: vec![],
    })
}

fn module_patch(name: &str, before: Option<&str>, load_now: bool) -> Patch {
    Patch::Module(ModulePatch {
        source: "m.lua".to_string(),
        before: before.map(|s| s.to_string()),
        name: name.to_string(),
        load_now,
        display_source: "m.lua".to_string(),
        content: "return 1".to_string(),
    })
}

#[test]
fn variables_are_interpolated() {
    let mut line = "print(\"{{lovely:NAME}}\")".to_string();
    apply_var_interp(&mut line, &vars(&[("NAME", "abc")]));
    assert_eq!(line, "print(\"abc\")");
}

#[test]
fn missing_variable_is_an_error() {
    let line = "x = {{lovely:NOPE}}";
    assert_eq!(interpolate(line, &VarTable::new()), Err("NOPE".to_string()));
}

#[test]
fn interpolation_is_single_pass() {
    let mut line = "{{lovely:A}}{{lovely:}}{lovely:A}".to_string();
    apply_var_interp(&mut line, &vars(&[("A", "{{lovely:A}}")]));
    assert_eq!(line, "{{lovely:A}}{{lovely:}}{lovely:A}");
}

#[test]
fn var_table_set_get_remove() {
    let mut v = vars(&[("a", "1"), ("b", "2"), ("a", "3")]);
    assert_eq!(v.get("a"), Some("3".to_string()));
    assert_eq!(v.remove("a"), Some("3".to_string()));
    assert_eq!(v.get("a"), None);
    assert_eq!(v.get("b"), Some("2".to_string()));
    let mut w = vars(&[("b", "9")]);
    w.extend(&v);
    assert_eq!(w.get("b"), Some("2".to_string()));
}

#[test]
fn targets_split_exact_and_glob() {
    let mut idx = TargetIndex::new();
    Target::Multi(vec!["main.lua".to_string(), "ui/*.lua".to_string(), "a?c".to_string()]).insert_into(&mut idx);
    assert_eq!(idx.exact, vec!["main.lua".to_string()]);
    assert_eq!(idx.globs.len(), 2);
    assert!(idx.contains("ui/button.lua"));
    assert!(idx.contains("abc"));
    assert!(!idx.contains("Main.lua"));
}

#[test]
fn lookup_strips_at_and_is_case_sensitive() {
    let raw = vec![(pattern_patch("main.lua", "x", "y"), 0, "m/lovely.toml".to_string(), VarTable::new())];
    let table = PatchTable::load("/mods", raw);
    assert!(table.needs_patching("@main.lua"));
    assert!(table.needs_patching("main.lua"));
    assert!(!table.needs_patching("@Main.lua"));
    assert!(!table.needs_patching("@other.lua"));
}

#[test]
fn processing_merges_vars_later_wins() {
    let raw = vec![
        (copy_patch("a", "x"), 1, "one".to_string(), vars(&[("K", "first"), ("J", "j")])),
        (module_patch("m", Some("b"), true), 2, "two".to_string(), vars(&[("K", "second")])),
    ];
    let (patches, targets, merged) = process_patches(raw);
    assert_eq!(patches.len(), 2);
    assert_eq!(patches[1].1, 2);
    assert_eq!(patches[0].2, "one");
    assert_eq!(targets.exact, vec!["a".to_string(), "b".to_string()]);
    assert_eq!(merged.get("K"), Some("second".to_string()));
    assert_eq!(merged.get("J"), Some("j".to_string()));
}

#[test]
fn priority_order_is_stable() {
    assert_eq!(stable_order(&vec![3, 1, 2, 1, 3]), vec![1, 3, 2, 0, 4]);
    assert_eq!(stable_order(&vec![0, 0, 0]), vec![0, 1, 2]);
    assert_eq!(stable_order(&vec![]), Vec::<usize>::new());
    assert_eq!(stable_order(&vec![-5, 7, -5]), vec![0, 2, 1]);
}

#[test]
fn empty_table_is_identity() {
    let table = PatchTable::empty("/mods");
    let (once, debug) = table.apply_patches("@main.lua", "a = 1\nb = 2\n").unwrap();
    assert_eq!(once, "a = 1\nb = 2\n");
    assert!(debug.entries.is_empty());
    let (twice, _) = table.apply_patches("@main.lua", &once).unwrap();
    assert_eq!(twice, once);
}

#[test]
fn unmatched_target_leaves_buffer() {
    let raw = vec![(pattern_patch("other.lua", "a = 1", "x"), 0, "p".to_string(), VarTable::new())];
    let table = PatchTable::load("/mods", raw);
    let (out, debug) = table.apply_patches("@main.lua", "a = 1\n").unwrap();
    assert_eq!(out, "a = 1\n");
    assert_eq!(debug.entries.len(), 0);
    assert_eq!(debug.buffer_name, "main.lua");
}

#[test]
fn engine_runs_copies_then_patterns_by_priority() {
    let raw = vec![
        (pattern_patch("main.lua", "a", "second"), 5, "late.toml".to_string(), VarTable::new()),
        (pattern_patch("main.lua", "a", "first"), 1, "early.toml".to_string(), VarTable::new()),
        (copy_patch("main.lua", "X"), 9, "c1".to_string(), VarTable::new()),
        (copy_patch("main.lua", "Y"), 9, "c2".to_string(), vars(&[("V", "v")])),
    ];
    let table = PatchTable::load("/mods", raw);
    let (out, debug) = table.apply_patches("@main.lua", "a\n{{lovely:V}}\n").unwrap();
    assert_eq!(out, "Y\nX\na\nsecond\nfirst\nv\n");
    assert_eq!(debug.entries.len(), 4);
    assert_eq!(debug.entries[0].patch_source.patch_type, DebugPatchType::Copy);
    assert_eq!(debug.entries[3].patch_source.file, "late.toml");
    assert_eq!(debug.entries[3].regions[0].start_line, 4);
    assert_eq!(debug.entries[3].regions[0].end_line, 4);
    assert_eq!(debug.entries[2].regions[0].start_line, 5);
}

#[test]
fn engine_records_empty_entries_when_nothing_matches() {
    let raw = vec![(pattern_patch("main.lua", "zzz", "x"), 0, "p".to_string(), VarTable::new())];
    let table = PatchTable::load("/mods", raw);
    let (out, debug) = table.apply_patches("@main.lua", "a = 1\n").unwrap();
    assert_eq!(out, "a = 1\n");
    assert_eq!(debug.entries.len(), 1);
    assert!(debug.entries[0].regions.is_empty());
    assert!(debug.entries[0].warnings.is_some());
}

#[test]
fn engine_reports_missing_root_group() {
    let p = lovely::patch::RegexPatch {
        target: Target::Single("main.lua".to_string()),
        pattern: "a".to_string(),
        position: InsertPosition::At,
        root_capture: Some("$nope".to_string()),
        payload: "b".to_string(),
        line_prepend: String::new(),
        times: None,
        verbose: false,
        name: None,
    };
    let table = PatchTable::load("/mods", vec![(Patch::Regex(p), 0, "r".to_string(), VarTable::new())]);
    match table.apply_patches("main.lua", "a") {
        Err(ApplyError::Regex(lovely::regex::RegexError::MissingGroup(n))) => assert_eq!(n, "nope"),
        other => panic!("unexpected {other:?}"),
    }
}

#[test]
fn engine_reports_unbound_variable() {
    let table = PatchTable::empty("/mods");
    match table.apply_patches("x", "{{lovely:MISSING}}") {
        Err(ApplyError::UnboundVar(n)) => assert_eq!(n, "MISSING"),
        other => panic!("unexpected {other:?}"),
    }
}

#[test]
fn region_adjust_cases() {
    let mut r = ByteRegion { start: 10, end: 20, delta: 3 };
    r.adjust(5, 4);
    assert_eq!(r, ByteRegion { start: 14, end: 24, delta: 3 });
    r.adjust(15, -2);
    assert_eq!(r, ByteRegion { start: 14, end: 22, delta: 3 });
    r.adjust(22, 100);
    assert_eq!(r, ByteRegion { start: 14, end: 22, delta: 3 });
    r.adjust(0, -50);
    assert_eq!(r, ByteRegion { start: 0, end: 0, delta: 3 });
    let mut e = ByteDebugEntry {
        patch_source: PatchSource { file: "f".to_string(), pattern: None, patch_type: DebugPatchType::Regex },
        regions: vec![ByteRegion { start: 1, end: 2, delta: 1 }, ByteRegion { start: 8, end: 9, delta: 1 }],
        warnings: None,
    };
    e.adjust(5, 10);
    assert_eq!(e.regions[0], ByteRegion { start: 1, end: 2, delta: 1 });
    assert_eq!(e.regions[1], ByteRegion { start: 18, end: 19, delta: 1 });
}

#[test]
fn byte_regions_become_lines() {
    let rope = crop::Rope::from("a\nbb\nccc\n");
    let e = ByteDebugEntry {
        patch_source: PatchSource { file: "f".to_string(), pattern: Some("p".to_string()), patch_type: DebugPatchType::Pattern },
        regions: vec![ByteRegion { start: 2, end: 9, delta: 7 }, ByteRegion { start: 0, end: 0, delta: 0 }, ByteRegion { start: 50, end: 60, delta: 0 }],
        warnings: None,
    };
    let d = PatchDebug::from_byte_entries("n", vec![e], &rope);
    assert_eq!(d.buffer_name, "n");
    let r = &d.entries[0].regions;
    assert_eq!((r[0].start_line, r[0].end_line), (2, 3));
    assert_eq!((r[1].start_line, r[1].end_line), (1, 1));
    assert_eq!((r[2].start_line, r[2].end_line), (4, 3));
    assert!(PatchDebug::new("x").entries.is_empty());
}

#[test]
fn dump_names() {
    assert_eq!(pretty_name("=[SMODS mod.sub \"main.lua\"]"), "SMODS/mod/sub/main.lua");
    assert_eq!(pretty_name("=[lovely \"x.lua\"]"), "lovely//x.lua");
    assert_eq!(pretty_name("@game.lua"), "game.lua");
    assert!(should_dump(&"a".repeat(100)));
    assert!(!should_dump(&"a".repeat(101)));
    assert!(should_dump(&"é".repeat(100)));
}

#[test]
fn module_helpers() {
    let table = PatchTable::load(
        "/mods",
        vec![
            (module_patch("late", Some("main.lua"), true), 5, "a".to_string(), VarTable::new()),
            (module_patch("pre", None, false), 0, "b".to_string(), VarTable::new()),
            (module_patch("early", Some("main.lua"), true), 1, "c".to_string(), VarTable::new()),
        ],
    );
    assert_eq!(table.module_order(true), vec![2, 0]);
    assert_eq!(table.module_order(false), vec![1]);
    match &table.patches[0].0 {
        Patch::Module(m) => {
            assert_eq!(m.chunk_name(), "=[lovely late \"m.lua\"]");
            assert!(m.applies_before("main.lua"));
            assert!(!m.applies_before("conf.lua"));
        }
        _ => panic!("module expected"),
    }
}

#[test]
fn patch_validation() {
    assert_eq!(validate_patch(&module_patch("m", None, true)), Err(LoadError::ModuleWithoutBefore("m".to_string())));
    assert_eq!(validate_patch(&module_patch("m", None, false)), Ok(()));
    let bad = Patch::Copy(CopyPatch {
        position: CopyPosition::Append,
        target: Target::Single("t".to_string()),
        sources: None,
        payload: None,
        name: Some("c".to_string()),
        contents: vec![],
    });
    assert_eq!(validate_patch(&bad), Err(LoadError::CopyWithoutText(Some("c".to_string()))));
    assert_eq!(validate_patch(&copy_patch("t", "x")), Ok(()));
}

#[test]
fn loader_helpers() {
    assert_eq!(get_parent("mod/lovely/a.toml"), "mod/lovely/");
    assert_eq!(get_parent("lovely.toml"), "");
    assert_eq!(blacklist_names("a\n\n# c\n  \t\nb\r\n"), vec!["a".to_string(), "b".to_string()]);
}

#[test]
fn config_flags() {
    let args: Vec<String> = ["game", "--mod-dir", "/m", "-d", "--dump-all", "--other", "--disable-console"]
        .iter()
        .map(|s| s.to_string())
        .collect();
    let c = LovelyConfig::parse_args(&args);
    assert_eq!(c.mod_dir, Some("/m".to_string()));
    assert!(c.vanilla && c.dump_all && c.disable_console);
    let c = LovelyConfig::parse_args(&vec!["game".to_string(), "--vanilla".to_string()]);
    assert!(c.vanilla && !c.dump_all && c.mod_dir.is_none());
}

#[test]
fn patch_dir_token_is_replaced() {
    assert_eq!(with_patch_dir("a = \"{{lovely_hack:patch_dir}}/x\"", "C:\\mods\\m"), "a = \"C:\\\\mods\\\\m/x\"");
    assert_eq!(with_patch_dir("{{lovely_hack:patch_dir}}{{lovely_hack:patch_dir}}", "d"), "dd");
    assert_eq!(with_patch_dir("{{lovely_hack:patch", "d"), "{{lovely_hack:patch");
}

#[test]
fn archive_mod_root() {
    let names: Vec<String> = ["readme.txt", "inner/", "inner/lovely/", "inner/lovely/a.toml"].iter().map(|s| s.to_string()).collect();
    assert_eq!(find_mod_root(&names), Some("inner/".to_string()));
    let flat: Vec<String> = ["lovely.toml", "main.lua"].iter().map(|s| s.to_string()).collect();
    assert_eq!(find_mod_root(&flat), Some(String::new()));
    let none: Vec<String> = ["a/b.lua"].iter().map(|s| s.to_string()).collect();
    assert_eq!(find_mod_root(&none), None);
}

#[test]
fn file_names_sort_ignoring_case() {
    let names: Vec<String> = ["b.toml", "A.toml", "a.toml", "C.toml"].iter().map(|s| s.to_string()).collect();
    assert_eq!(lovely::names::name_order(&names), vec![1, 2, 0, 3]);
    assert_eq!(lovely::names::name_order(&Vec::new()), Vec::<usize>::new());
}

#[test]
fn archive_patch_files() {
    let names: Vec<String> = ["m/lovely.toml", "m/lovely/", "m/lovely/a.toml", "m/lovely/b.txt", "m/other.toml", "lovely.toml"]
        .iter()
        .map(|s| s.to_string())
        .collect();
    assert_eq!(patch_files_in(&names, "m/"), vec!["m/lovely.toml".to_string(), "m/lovely/a.toml".to_string()]);
}

#[test]
fn config_inline_mod_dir() {
    let c = LovelyConfig::parse_args(&vec!["game".to_string(), "--mod-dir=/x/y".to_string()]);
    assert_eq!(c.mod_dir, Some("/x/y".to_string()));
}

#[test]
fn sources_are_attached() {
    let texts = vars(&[("m.lua", "return 2"), ("a.lua", "A"), ("b.lua", "B")]);
    match attach_sources(module_patch("m", Some("main.lua"), true), &texts).unwrap() {
        Patch::Module(m) => {
            assert_eq!(m.content, "return 2");
            assert_eq!(m.display_source, "m.lua");
        }
        _ => panic!("module expected"),
    }
    let copy = Patch::Copy(CopyPatch {
        position: CopyPosition::Append,
        target: Target::Single("t".to_string()),
        sources: Some(vec!["a.lua".to_string(), "b.lua".to_string()]),
        payload: None,
        name: None,
        contents: vec![],
    });
    match attach_sources(copy, &texts).unwrap() {
        Patch::Copy(c) => assert_eq!(c.contents, vec!["A".to_string(), "B".to_string()]),
        _ => panic!("copy expected"),
    }
    let missing = Patch::Copy(CopyPatch {
        position: CopyPosition::Append,
        target: Target::Single("t".to_string()),
        sources: Some(vec!["z.lua".to_string()]),
        payload: None,
        name: None,
        contents: vec![],
    });
    assert_eq!(attach_sources(missing, &texts).unwrap_err(), LoadError::MissingSource("z.lua".to_string()));
    assert_eq!(attach_sources(module_patch("m", None, true), &texts).unwrap_err(), LoadError::ModuleWithoutBefore("m".to_string()));
}
