use token_slim::json::Json;
use token_slim::slim::{
    collapse_blank, collapse_inner_spaces, comment_style, dedupe_lines, outline, prune_json,
    starts_with_at, strip_comments, JsonOpts,
};

fn to_value(j: &Json) -> serde_json::Value {
    match j {
        Json::Null => serde_json::Value::Null,
        Json::Bool(b) => serde_json::Value::Bool(*b),
        Json::Number(n) => serde_json::Value::Number(n.parse().unwrap()),
        Json::String(s) => serde_json::Value::String(s.clone()),
        Json::Array(a) => serde_json::Value::Array(a.iter().map(to_value).collect()),
        Json::Object(m) => {
            let mut out = serde_json::Map::new();
            for (k, v) in m {
                out.insert(k.clone(), to_value(v));
            }
            serde_json::Value::Object(out)
        }
    }
}

fn obj(members: Vec<(&str, Json)>) -> Json {
    Json::Object(members.into_iter().map(|(k, v)| (k.to_string(), v)).collect())
}

#[test]
fn strips_rust_comments() {
    let src = "// header\nfn main() { /* block */ let s = \"// not a comment\"; }\n";
    let out = strip_comments(src, "rs");
    assert!(!out.contains("header"));
    assert!(!out.contains("block"));
    assert!(out.contains("// not a comment"));
    assert!(out.contains("fn main()"));
}

#[test]
fn strips_python_comments_keeps_shebang() {
    let src = "#!/usr/bin/env python\n# comment\nx = 1  # trailing\ns = \"# not comment\"\n";
    let out = strip_comments(src, "py");
    assert!(out.contains("#!/usr/bin/env python"));
    assert!(!out.contains("# comment"));
    assert!(!out.contains("# trailing"));
    assert!(out.contains("\"# not comment\""));
}

#[test]
fn collapses_blanks() {
    let out = collapse_blank("a\n\n\n\nb   \n\n");
    assert_eq!(out, "a\n\nb");
}

#[test]
fn dedupes_repeats() {
    let out = dedupe_lines("x\nx\nx\nx\ny");
    assert!(out.contains("… (same line ×4)"));
    assert!(out.contains('y'));
}

#[test]
fn outline_finds_signatures() {
    let src = "use std;\n\npub fn hello(a: u32) -> u32 {\n  a\n}\nstruct Foo;\nconst X: u8 = 1;\n";
    let out = outline(src, "rs");
    assert!(out.contains("L3: pub fn hello"));
    assert!(out.contains("L6: struct Foo;"));
    assert!(!out.contains("use std"));
}

#[test]
fn outline_markdown_headings() {
    let out = outline("# Title\ntext\n## Sub\n", "md");
    assert!(out.contains("L1: # Title"));
    assert!(out.contains("L3: ## Sub"));
}

#[test]
fn prunes_json() {
    let v = obj(vec![
        ("big", Json::Array((0..100).map(|i| Json::Number(i.to_string())).collect())),
        ("deep", obj(vec![("a", obj(vec![("b", obj(vec![("c", obj(vec![("d", Json::Number("1".to_string()))]))]))]))])),
        ("long", Json::String("x".repeat(500))),
    ]);
    let o = JsonOpts { max_depth: 3, max_array: 5, max_string: 10 };
    let p = prune_json(&v, o.max_depth, &o);
    let s = serde_json::to_string(&to_value(&p)).unwrap();
    assert!(s.contains("…+95 more items"));
    assert!(s.contains("…[+490 chars]"));
    assert!(s.contains("…1 keys") || s.contains("{…1 keys}"));
}

// ----- further cases -----

#[test]
fn comment_style_by_extension() {
    let rs = comment_style("rs");
    assert_eq!(rs.line, &["//"]);
    assert_eq!(rs.block, &[("/*", "*/")]);
    let py = comment_style("py");
    assert_eq!(py.line, &["#"]);
    assert!(py.block.is_empty());
    let lua = comment_style("lua");
    assert_eq!(lua.block, &[("--[[", "]]")]);
    let html = comment_style("html");
    assert!(html.line.is_empty());
    assert_eq!(html.block, &[("<!--", "-->")]);
    let none = comment_style("txt");
    assert!(none.line.is_empty() && none.block.is_empty());
}

#[test]
fn starts_with_at_positions() {
    let cs: Vec<char> = "a//b".chars().collect();
    assert!(starts_with_at(&cs, 1, "//"));
    assert!(!starts_with_at(&cs, 2, "//"));
    assert!(!starts_with_at(&cs, 3, "bb"));
    assert!(starts_with_at(&cs, 9, ""));
}

#[test]
fn strip_keeps_block_comment_line_breaks() {
    let out = strip_comments("a /* x\ny\nz */ b\n", "c");
    assert_eq!(out, "a \n\n b\n");
}

#[test]
fn strip_unknown_extension_is_identity() {
    let src = "// stays\n# stays\n";
    assert_eq!(strip_comments(src, "txt"), src);
}

#[test]
fn strip_escaped_quote_in_string() {
    let out = strip_comments("s = \"a\\\"// b\" // c\n", "js");
    assert_eq!(out, "s = \"a\\\"// b\" \n");
}

#[test]
fn strip_lua_and_html() {
    assert_eq!(strip_comments("x --[[ gone ]] y -- tail\n", "lua"), "x  y \n");
    assert_eq!(strip_comments("<p><!-- note --></p>", "html"), "<p></p>");
    assert_eq!(strip_comments("select 1 -- c\n/* b */", "sql"), "select 1 \n");
}

#[test]
fn collapse_blank_edges() {
    assert_eq!(collapse_blank(""), "");
    assert_eq!(collapse_blank("\n\n  \nx\r\n\t\n\ny  \t"), "x\n\ny");
}

#[test]
fn dedupe_keeps_short_runs_and_blank_runs() {
    assert_eq!(dedupe_lines("a\na\nb"), "a\na\nb");
    assert_eq!(dedupe_lines(" \n \n \nq"), " \n \n \nq");
    assert_eq!(dedupe_lines("z\nz\nz"), "z\nz\n… (same line ×3)");
}

#[test]
fn collapse_inner_spaces_keeps_indent() {
    assert_eq!(collapse_inner_spaces("    a  \t b   \n\t x  y"), "    a b\n\t x y");
    assert_eq!(collapse_inner_spaces("   "), "   ");
}

#[test]
fn outline_cuts_long_lines_and_reports_none() {
    let long = format!("fn {}()", "a".repeat(200));
    let out = outline(&long, "rs");
    assert!(out.starts_with("L1: fn aaa"));
    assert!(out.ends_with('…'));
    assert_eq!(out.chars().count(), "L1: ".len() + 160 + 1);
    assert_eq!(outline("just text\n", "rs"), "(no signatures/headings found — try mode=slim)");
    assert!(outline("export const f = async (x) => x", "ts").contains("L1: export const f"));
}

#[test]
fn prune_json_depth_zero_and_identity() {
    let o = JsonOpts { max_depth: 0, max_array: 1, max_string: 3 };
    let arr = Json::Array(vec![Json::Null, Json::Bool(true)]);
    assert_eq!(prune_json(&arr, 0, &o), Json::String("[…2 items]".to_string()));
    let m = obj(vec![("k", Json::Null)]);
    assert_eq!(prune_json(&m, 0, &o), Json::String("{…1 keys}".to_string()));
    let big = JsonOpts { max_depth: 10, max_array: 10, max_string: 10 };
    let v = obj(vec![("a", Json::Array(vec![Json::String("hey".to_string()), Json::Number("2.5".to_string())]))]);
    assert_eq!(prune_json(&v, 10, &big), obj(vec![("a", Json::Array(vec![Json::String("hey".to_string()), Json::Number("2.5".to_string())]))]));
    assert_eq!(prune_json(&Json::String("abcdef".to_string()), 1, &o), Json::String("abc…[+3 chars]".to_string()));
}
