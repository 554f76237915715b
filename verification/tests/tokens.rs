use token_slim::tokens::{estimate_tokens, saved_pct, truncate_tokens};

#[test]
fn ascii_estimate() {
    // 40 ASCII chars -> ~10 tokens
    let s = "a".repeat(40);
    assert_eq!(estimate_tokens(&s), 10);
}

#[test]
fn cjk_estimate() {
    // 10 CJK chars -> ~10 tokens
    let s = "日本語のテキストです。".chars().take(10).collect::<String>();
    assert_eq!(estimate_tokens(&s), 10);
}

#[test]
fn truncate_keeps_head_and_tail() {
    let text = (0..500)
        .map(|i| format!("line number {i} with some padding text"))
        .collect::<Vec<_>>()
        .join("\n");
    let (out, truncated) = truncate_tokens(&text, 300);
    assert!(truncated);
    assert!(out.contains("line number 0 "));
    assert!(out.contains("line number 499"));
    assert!(out.contains("token-slim:"));
    assert!(estimate_tokens(&out) < estimate_tokens(&text));
}

#[test]
fn no_truncate_when_small() {
    let (out, truncated) = truncate_tokens("hello\nworld", 100);
    assert!(!truncated);
    assert_eq!(out, "hello\nworld");
}

// ----- further cases -----

#[test]
fn estimate_rounds_ascii_up_and_mixes() {
    assert_eq!(estimate_tokens(""), 0);
    assert_eq!(estimate_tokens("a"), 1);
    assert_eq!(estimate_tokens("abcde"), 2);
    assert_eq!(estimate_tokens("ab日本"), 3);
}

#[test]
fn saved_pct_labels() {
    assert_eq!(saved_pct(0, 0), "±0%");
    assert_eq!(saved_pct(10, 10), "±0%");
    assert_eq!(saved_pct(10, 12), "±0%");
    assert_eq!(saved_pct(4835, 238), "-95%");
    assert_eq!(saved_pct(3, 2), "-33%");
}

#[test]
fn truncate_exact_marker_and_budgets() {
    // ten lines of 8 ASCII characters, each costing 2 + 1 = 3; a cap of 10
    // leaves a head budget of 7 (two lines) and a tail budget of 2 (none)
    let text = (0..10).map(|i| format!("abcdefg{i}")).collect::<Vec<_>>().join("\n");
    let (out, cut) = truncate_tokens(&text, 10);
    assert!(cut);
    assert_eq!(
        out,
        "abcdefg0\nabcdefg1\n… [token-slim: 8 lines / ~24 tok snipped — use offset/limit or grep_slim for the rest] …\n"
    );
}

#[test]
fn truncate_single_long_line() {
    let text = "x".repeat(100);
    let (out, cut) = truncate_tokens(&text, 5);
    assert!(cut);
    assert_eq!(
        out,
        "\n… [token-slim: 1 lines / ~26 tok snipped — use offset/limit or grep_slim for the rest] …\n"
    );
}
