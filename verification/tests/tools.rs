use token_slim::protocol::{route_method, tool_named, Route, Tool};
use token_slim::slim::JsonOpts;
use token_slim::tokens::{estimate_tokens, saved_pct};
use token_slim::tools::{
    dir_map_text, ext_of, human_size, json_slim_report, looks_binary, read_slim_report,
    should_skip_dir, text_file_problem, text_slim_report, token_count_report,
    search_files, DirListing, Grep, MAX_FILES_SCANNED,
};

#[test]
fn ext_of_paths() {
    assert_eq!(ext_of("src/main.RS"), "rs");
    assert_eq!(ext_of("a/b.tar.gz"), "gz");
    assert_eq!(ext_of(".bashrc"), "");
    assert_eq!(ext_of("dir/.hidden"), "");
    assert_eq!(ext_of("Makefile"), "");
    assert_eq!(ext_of("x.py/"), "py");
    assert_eq!(ext_of("x.md/."), "md");
    assert_eq!(ext_of("a/.."), "");
    assert_eq!(ext_of("name."), "");
    assert_eq!(ext_of("ÄÖ.ÜML"), "üml");
}

#[test]
fn skip_dirs() {
    assert!(should_skip_dir("node_modules"));
    assert!(should_skip_dir(".git"));
    assert!(should_skip_dir(".anything"));
    assert!(!should_skip_dir("."));
    assert!(!should_skip_dir(".."));
    assert!(!should_skip_dir("src"));
    assert!(should_skip_dir("Pods"));
}

#[test]
fn human_sizes() {
    assert_eq!(human_size(0), "0B");
    assert_eq!(human_size(1023), "1023B");
    assert_eq!(human_size(1024), "1.0KB");
    assert_eq!(human_size(1536), "1.5KB");
    assert_eq!(human_size(5 * 1024 * 1024), "5.0MB");
    for b in [1024u64, 1100, 1280, 1331, 2047, 10239, 1048575, 1048576, 3_500_000, 7_864_320] {
        let expect = if b < 1024 * 1024 {
            format!("{:.1}KB", b as f64 / 1024.0)
        } else {
            format!("{:.1}MB", b as f64 / (1024.0 * 1024.0))
        };
        assert_eq!(human_size(b), expect, "bytes {b}");
    }
}

#[test]
fn binary_and_size_checks() {
    assert!(looks_binary(&[1, 2, 0, 3]));
    assert!(!looks_binary(b"plain text"));
    let mut late = vec![b'a'; 5000];
    late[4500] = 0;
    assert!(!looks_binary(&late));
    assert_eq!(text_file_problem("f.bin", &[0]), Some("f.bin: binary file".to_string()));
    assert_eq!(text_file_problem("f.txt", b"ok"), None);
}

#[test]
fn text_slim_scenario() {
    let out = text_slim_report("a   \n\n\n\nb\n", None, 4000);
    assert!(out.starts_with("[token-slim]"));
    assert!(out.contains("a\n\nb"));
    assert_eq!(out, "[token-slim] text level=normal ~3→~1 tok (-66%)\na\n\nb");
}

#[test]
fn text_slim_aggressive() {
    let out = text_slim_report("x  y\nx  y\nx  y\nz\n", Some("aggressive"), 4000);
    assert!(out.ends_with("\nx y\nx y\n… (same line ×3)\nz"));
}

#[test]
fn text_slim_capped() {
    let text = (0..200).map(|i| format!("row {i} of the log")).collect::<Vec<_>>().join("\n");
    let out = text_slim_report(&text, None, 50);
    assert!(out.contains(" [capped]\n"));
    assert!(out.contains("row 0 of"));
    assert!(out.contains("row 199 of"));
}

#[test]
fn read_slim_modes() {
    let text = "// c\nfn a() {}\n\n\n// d\nfn b() {}\n";
    let slim = read_slim_report("x.rs", text, false, None, None, None, None, 4000);
    assert!(slim.starts_with("[token-slim] x.rs mode=slim lines=6 ~"));
    assert!(slim.ends_with("\nfn a() {}\n\nfn b() {}"));
    let raw = read_slim_report("x.rs", text, false, None, None, Some("raw"), None, 4000);
    assert!(raw.ends_with(&format!("\n{text}")));
    let outl = read_slim_report("x.rs", text, false, None, None, Some("outline"), None, 4000);
    assert!(outl.ends_with("\nL2: fn a() {}\nL6: fn b() {}"));
    let keep = read_slim_report("x.rs", text, false, None, None, None, Some(false), 4000);
    assert!(keep.ends_with("\n// c\nfn a() {}\n\n// d\nfn b() {}"));
    let ranged = read_slim_report("x.rs", text, true, Some(2), Some(1), Some("raw"), None, 4000);
    assert!(ranged.ends_with("\nfn a() {}"));
    let zero = read_slim_report("x.rs", text, true, Some(0), None, Some("raw"), None, 4000);
    assert!(zero.ends_with(&format!("\n{}", text.trim_end_matches('\n'))));
    let past = read_slim_report("x.rs", text, true, Some(99), None, Some("raw"), None, 4000);
    assert!(past.ends_with(" (-100%)\n"));
}

#[test]
fn json_and_count_reports() {
    let o = JsonOpts { max_depth: 6, max_array: 2, max_string: 200 };
    let r = json_slim_report(&o, "{\"a\":[1,2,3,4,5]}", "{\"a\":[1,2,\"…+3 more items\"]}");
    assert!(r.starts_with("[token-slim] json depth≤6 array≤2 string≤200 ~"));
    assert!(r.ends_with("\n{\"a\":[1,2,\"…+3 more items\"]}"));
    let c = token_count_report("text", "hello world, this is a test");
    assert_eq!(
        c,
        "[token-slim] text: ≈7 tokens (chars=27, ascii=27, non-ascii=0, lines=1) heuristic ±20% ~7→~7 tok (±0%)"
    );
    assert!(c.contains("tokens"));
    let j = token_count_report("f", "日本\nab");
    assert_eq!(j, "[token-slim] f: ≈3 tokens (chars=5, ascii=3, non-ascii=2, lines=2) heuristic ±20% ~3→~3 tok (±0%)");
}

#[test]
fn grep_flow() {
    let mut g = Grep::new("fn \\w+", false, false, 50, Some("rs, .TOML,,")).unwrap();
    assert!(g.wants("src/a.rs"));
    assert!(g.wants("Cargo.toml"));
    assert!(!g.wants("README.md"));
    let content = "fn one() {}\nlet x;\n   fn two()   \n";
    assert!(!g.scan_file("src/a.rs", content));
    let out = g.report("fn \\w+", ".");
    let shown = "src/a.rs:1:fn one() {}\nsrc/a.rs:3:fn two()";
    assert_eq!(estimate_tokens(content), 9);
    assert_eq!(estimate_tokens(shown), 11);
    assert_eq!(
        out,
        format!("[token-slim] grep /fn \\w+/ in .: 2 matches, 1 files scanned ~9→~11 tok (±0%)\n{shown}")
    );
}

#[test]
fn grep_cap_and_literal() {
    let mut g = Grep::new("a.b", true, true, 2, None).unwrap();
    assert!(g.wants("anything"));
    assert!(!g.scan_file("f", "xA.Bx\naxb\n"));
    assert!(g.scan_file("g", "a.b\na.b\na.b\n"));
    assert!(g.is_capped());
    let out = g.report("a.b", "root");
    let before = estimate_tokens("xA.Bx\naxb\n") + estimate_tokens("a.b\na.b\na.b\n");
    assert_eq!(before, 6);
    assert_eq!(
        out,
        format!(
            "[token-slim] grep /a.b/ in root: 2 matches, 2 files scanned{} [capped at 2 — narrow the pattern or add ext filter]\nf:1:xA.Bx\ng:1:a.b",
            figures(before, "f:1:xA.Bx\ng:1:a.b")
        )
    );
    let none = Grep::new("zzz", false, false, 5, None).unwrap();
    assert_eq!(none.report("zzz", "."), "[token-slim] grep /zzz/ in .: 0 matches, 0 files scanned ~0→~0 tok (±0%)");
}

#[test]
fn grep_invalid_regex() {
    let e = Grep::new("(", false, false, 5, None).err().unwrap();
    assert!(e.starts_with("invalid regex: "));
    assert!(Grep::new("(", false, true, 5, None).is_ok());
}

#[test]
fn grep_zero_cap_keeps_none() {
    let mut g = Grep::new("x", false, false, 0, None).unwrap();
    assert!(g.scan_file("f", "x\nx\n"));
    assert_eq!(g.report("x", "."), "[token-slim] grep /x/ in .: 0 matches, 1 files scanned ~1→~0 tok (-100%) [capped at 0 — narrow the pattern or add ext filter]");
    let mut quiet = Grep::new("x", false, false, 0, None).unwrap();
    assert!(!quiet.scan_file("f", "y\n"));
}

/// The token figures of an answer: `before` tokens, then those of `shown`.
fn figures(before: usize, shown: &str) -> String {
    let after = estimate_tokens(shown);
    format!(" ~{before}→~{after} tok ({})", saved_pct(before, after))
}

fn leaf(files: &[(&str, u64)]) -> DirListing {
    DirListing { dirs: vec![], files: files.iter().map(|(n, s)| (n.to_string(), *s)).collect() }
}

#[test]
fn dir_map_render() {
    let tree = DirListing {
        dirs: vec![("src".to_string(), leaf(&[("main.rs", 2048), ("lib.rs", 10)])), ("docs".to_string(), leaf(&[]))],
        files: vec![("README.md".to_string(), 5), ("Cargo.toml".to_string(), 300)],
    };
    let out = dir_map_text(".", &tree, 3, 300);
    let full = "docs/\nsrc/\n  lib.rs 10B\n  main.rs 2.0KB\nCargo.toml 300B\nREADME.md 5B";
    let all = estimate_tokens(full);
    assert_eq!(out, format!("[token-slim] dir_map . depth≤3 entries=6{}\n{full}", figures(all, full)));
    assert!(out.starts_with("[token-slim] dir_map . depth≤3 entries=6 ~17→~17 tok (±0%)\n"));
    let capped = dir_map_text(".", &tree, 3, 2);
    let shown = "docs/\nsrc/\n… [entry cap reached]";
    assert_eq!(capped, format!("[token-slim] dir_map . depth≤3 entries=2{}\n{shown}", figures(all, shown)));
    let shallow = dir_map_text(".", &tree, 1, 300);
    let top = "docs/\nsrc/\nCargo.toml 300B\nREADME.md 5B";
    assert_eq!(
        shallow,
        format!("[token-slim] dir_map . depth≤1 entries=4{}\n{top}", figures(estimate_tokens(top), top))
    );
    let none = dir_map_text("x", &tree, 0, 300);
    assert_eq!(none, "[token-slim] dir_map x depth≤0 entries=0 ~0→~0 tok (±0%)\n");
}

#[test]
fn routing() {
    assert_eq!(tool_named("read_slim"), Some(Tool::ReadSlim));
    assert_eq!(tool_named("token_count"), Some(Tool::TokenCount));
    assert_eq!(tool_named("nope"), None);
    assert_eq!(route_method("notifications/initialized"), Route::Ignore);
    assert_eq!(route_method(""), Route::Ignore);
    assert_eq!(route_method("initialize"), Route::Initialize);
    assert_eq!(route_method("ping"), Route::Ping);
    assert_eq!(route_method("tools/list"), Route::ListTools);
    assert_eq!(route_method("tools/call"), Route::CallTool);
    assert_eq!(route_method("resources/list"), Route::NotFound);
}

#[test]
fn search_order_and_cap() {
    let tree = DirListing {
        dirs: vec![
            ("zeta".to_string(), leaf(&[("z.rs", 1)])),
            ("alpha".to_string(), DirListing { dirs: vec![("inner".to_string(), leaf(&[("deep.rs", 1)]))], files: vec![("b.rs".to_string(), 1), ("a.rs".to_string(), 1)] }),
        ],
        files: vec![("top2.rs".to_string(), 1), ("top1.rs".to_string(), 1)],
    };
    assert_eq!(
        search_files(&tree),
        vec!["top2.rs", "top1.rs", "alpha/b.rs", "alpha/a.rs", "alpha/inner/deep.rs", "zeta/z.rs"]
    );
    let many = DirListing {
        dirs: vec![("sub".to_string(), leaf(&[("late.rs", 1)]))],
        files: (0..MAX_FILES_SCANNED + 5).map(|i| (format!("f{i}"), 1)).collect(),
    };
    let found = search_files(&many);
    assert_eq!(found.len(), 20_000);
    assert_eq!(found[0], "f0");
    assert_eq!(found[19_999], "f19999");
}

#[test]
fn skipped_directories_never_show() {
    let tree = DirListing {
        dirs: vec![
            (".git".to_string(), leaf(&[("HEAD", 1)])),
            ("node_modules".to_string(), leaf(&[("x.js", 1)])),
            ("src".to_string(), leaf(&[("a.rs", 1)])),
        ],
        files: vec![(".env".to_string(), 3)],
    };
    assert_eq!(search_files(&tree), vec![".env", "src/a.rs"]);
    let map = dir_map_text(".", &tree, 3, 300);
    assert!(map.ends_with("\nsrc/\n  a.rs 1B\n.env 3B"), "{map}");
    assert!(!map.contains(".git") && !map.contains("node_modules"));
    // a skipped directory after the cap is reached adds no cap note
    let only = DirListing { dirs: vec![("a".to_string(), leaf(&[])), ("target".to_string(), leaf(&[]))], files: vec![] };
    assert!(dir_map_text(".", &only, 3, 1).ends_with("\na/"));
}
