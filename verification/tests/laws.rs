use token_slim::json::Json;
use token_slim::protocol::{tool_definitions, tool_named};
use token_slim::slim::{collapse_blank, dedupe_lines, prune_json, strip_comments, JsonOpts};
use token_slim::tokens::{estimate_tokens, truncate_tokens};
use token_slim::tools::{
    dir_map_text, json_slim_report, read_slim_report, text_slim_report, token_count_report, DirListing,
    Grep,
};

#[test]
fn stripping_keeps_every_line_break() {
    let cases = [
        ("a /* one\ntwo\nthree */ b // tail\nc\n", "rs"),
        ("#!/bin/sh\n# note\necho '#x' # y\n", "sh"),
        ("<!-- a\nb -->\n<p/>\n", "html"),
        ("s = \"unterminated\n// still in string\n", "js"),
    ];
    for (src, ext) in cases {
        let out = strip_comments(src, ext);
        assert_eq!(out.matches('\n').count(), src.matches('\n').count(), "{src:?}");
        assert!(out.chars().count() <= src.chars().count());
    }
}

#[test]
fn collapsed_text_has_no_double_blank_or_trailing_space() {
    let out = collapse_blank("\n\n x  \n\n\n\ny\t\n \n\nz\n\n");
    assert_eq!(out, " x\n\ny\n\nz");
    assert!(!out.contains("\n\n\n"));
    assert!(out.lines().all(|l| l == l.trim_end()));
}

#[test]
fn short_runs_survive_folding() {
    let text = "a\na\nb\nc\nc\nd";
    assert_eq!(dedupe_lines(text), text);
}

#[test]
fn estimate_never_exceeds_characters() {
    for s in ["", "a", "abcde", "日本", "mixed 日本 text"] {
        assert!(estimate_tokens(s) <= s.chars().count());
    }
}

#[test]
fn fitting_text_comes_back_unchanged() {
    let text = "one\ntwo\nthree";
    let est = estimate_tokens(text);
    assert_eq!(truncate_tokens(text, est), (text.to_string(), false));
}

#[test]
fn cut_keeps_head_and_tail_within_budget() {
    let text = (0..200).map(|i| format!("row {i:03} .........")).collect::<Vec<_>>().join("\n");
    let (out, cut) = truncate_tokens(&text, 100);
    assert!(cut);
    let kept: Vec<&str> = out.lines().filter(|l| l.starts_with("row ")).collect();
    let cost: usize = kept.iter().map(|l| estimate_tokens(l) + 1).sum();
    assert!(cost <= 70 + 20);
}

#[test]
fn pruning_within_limits_changes_nothing() {
    let o = JsonOpts { max_depth: 3, max_array: 3, max_string: 5 };
    let v = Json::Object(vec![(
        "k".to_string(),
        Json::Array(vec![Json::String("short".to_string()), Json::Number("1".to_string()), Json::Null]),
    )]);
    assert_eq!(prune_json(&v, 3, &o), v);
}

#[test]
fn search_results_never_exceed_cap() {
    let mut g = Grep::new("x", false, false, 3, None).unwrap();
    g.scan_file("a", "x\nx\n");
    g.scan_file("b", "x\nx\nx\n");
    g.scan_file("c", "x\n");
    let out = g.report("x", ".");
    assert_eq!(out.lines().count(), 1 + 3);
    assert!(out.contains("3 matches, 2 files scanned ~"));
    assert!(out.contains(" [capped at 3 "));
}

#[test]
fn map_never_shows_more_than_cap() {
    let tree = DirListing {
        dirs: vec![("d".to_string(), DirListing { dirs: vec![], files: vec![("x".to_string(), 1), ("y".to_string(), 2)] })],
        files: vec![("a".to_string(), 1), ("b".to_string(), 1)],
    };
    for cap in 0..6 {
        let out = dir_map_text(".", &tree, 5, cap);
        let entries = out.lines().skip(1).filter(|l| !l.trim_start().starts_with('…')).count();
        assert!(entries <= cap);
    }
}

#[test]
fn every_listed_tool_is_callable() {
    let Json::Array(items) = tool_definitions() else { panic!() };
    for t in items {
        let Json::Object(m) = t else { panic!() };
        let Json::String(name) = &m[0].1 else { panic!() };
        assert!(tool_named(name).is_some());
    }
    assert!(tool_named("grep").is_none());
}

#[test]
fn collapsing_twice_is_collapsing_once() {
    for s in ["", "\n\n", "a\n\n\n b  \r\n\n\t\nc", "x\r\ny\r\n\r\n\r\nz\n\n", "  \n a\n"] {
        let once = collapse_blank(s);
        assert_eq!(collapse_blank(&once), once, "{s:?}");
    }
}

#[test]
fn every_answer_shows_figures() {
    let o = JsonOpts { max_depth: 1, max_array: 1, max_string: 1 };
    let answers = [
        read_slim_report("f.rs", "fn a() {}\n", false, None, None, None, None, 10),
        text_slim_report("x", None, 10),
        json_slim_report(&o, "[]", "[]"),
        token_count_report("text", "abc"),
        Grep::new("a", false, false, 1, None).unwrap().report("a", "."),
        dir_map_text(".", &DirListing { dirs: vec![], files: vec![] }, 1, 1),
    ];
    for a in answers {
        assert!(a.starts_with("[token-slim] "), "{a}");
        let first = a.lines().next().unwrap();
        assert!(first.contains(" ~") && first.contains(" tok ("), "{a}");
    }
}

fn depth_and_widest(j: &Json) -> (usize, usize) {
    match j {
        Json::Array(a) => {
            let inner = a.iter().map(depth_and_widest).fold((0, 0), |x, y| (x.0.max(y.0), x.1.max(y.1)));
            (inner.0 + 1, inner.1.max(a.len()))
        }
        Json::Object(m) => {
            let inner = m.iter().map(|(_, v)| depth_and_widest(v)).fold((0, 0), |x, y| (x.0.max(y.0), x.1.max(y.1)));
            (inner.0 + 1, inner.1)
        }
        _ => (0, 0),
    }
}

#[test]
fn pruning_bounds_depth_and_arrays() {
    let leaf = |n: usize| Json::Array((0..n).map(|i| Json::Number(i.to_string())).collect());
    let v = Json::Array(vec![
        leaf(10),
        Json::Object(vec![("x".to_string(), Json::Array(vec![leaf(3), leaf(9)]))]),
        leaf(1),
        leaf(0),
    ]);
    for depth in 0..5 {
        let o = JsonOpts { max_depth: depth, max_array: 2, max_string: 4 };
        let (d, w) = depth_and_widest(&prune_json(&v, depth, &o));
        assert!(d <= depth, "depth {d} > {depth}");
        assert!(w <= 3, "an array of {w} items");
    }
}

fn is_subsequence(a: &str, b: &str) -> bool {
    let mut rest = b.chars();
    a.chars().all(|c| rest.any(|d| d == c))
}

#[test]
fn stripping_only_deletes() {
    for (src, ext) in [
        ("a /* x */ b // c\n\"s // t\" 'u'\n", "ts"),
        ("#!/bin/bash\n# note\nx=1 # y\n", "sh"),
        ("<a><!-- b --></a>", "xml"),
        ("plain", "txt"),
    ] {
        assert!(is_subsequence(&strip_comments(src, ext), src), "{src:?}");
    }
}

#[test]
fn cut_exactly_when_over_the_cap() {
    for text in ["short", "a\nb\nc", &"word ".repeat(200), &"line of text\n".repeat(50)] {
        for max in [0usize, 1, 5, 20, 100, 1000] {
            let (_, cut) = truncate_tokens(text, max);
            assert_eq!(cut, estimate_tokens(text) > max, "{max} {text:?}");
        }
    }
}

#[test]
fn map_count_is_entries_shown() {
    let tree = DirListing {
        dirs: vec![("d".to_string(), DirListing { dirs: vec![], files: vec![("x".to_string(), 1), ("y".to_string(), 2)] })],
        files: vec![("a".to_string(), 1), ("b".to_string(), 1)],
    };
    for cap in 0..7 {
        let out = dir_map_text(".", &tree, 5, cap);
        let header = out.lines().next().unwrap();
        let count: usize = header.split("entries=").nth(1).unwrap().split(' ').next().unwrap().parse().unwrap();
        let shown = out.lines().skip(1).filter(|l| !l.ends_with(']')).count();
        assert_eq!(count, shown);
        assert!(count <= cap);
    }
}
