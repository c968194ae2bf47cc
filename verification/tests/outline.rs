use markspace::outline::{atx_heading, extract_headings, fence_open, setext_level};

#[test]
fn extract_headings_mixed() {
    let src = "\
# 一级标题
正文

## 二级标题
### 三级标题

```rust
# 代码块里的伪标题（不应被提取）
```
# 围栏后的标题

Setext 标题
===

- 普通列表
";
    let headings = extract_headings(src);
    let lines: Vec<String> = headings
        .iter()
        .map(|h| format!("#{} {}", h.level, h.text))
        .collect();
    assert_eq!(
        lines,
        vec![
            "#1 一级标题",
            "#2 二级标题",
            "#3 三级标题",
            "#1 围栏后的标题",
            "#1 Setext 标题"
        ]
    );
    // 行号验证：Setext 标题行是 "Setext 标题"（0 基第 11 行）
    assert_eq!(headings.last().unwrap().line, 11);
}

#[test]
fn extract_headings_empty_and_short() {
    assert!(extract_headings("").is_empty());
    assert!(extract_headings("普通文本\n没有标题").is_empty());
    // 只有 '#' 无内容不算标题
    assert!(extract_headings("#\n## 有内容").len() == 1);
    // 7 个 # 不是标题
    assert!(extract_headings("####### 过多").is_empty());
}

#[test]
fn atx_heading_levels_and_closing_hashes() {
    assert_eq!(atx_heading("# 标题"), Some((1, "标题".to_string())));
    assert_eq!(atx_heading("###### six"), Some((6, "six".to_string())));
    assert_eq!(atx_heading("## closed ##"), Some((2, "closed".to_string())));
    assert_eq!(atx_heading("#   spaced   "), Some((1, "spaced".to_string())));
    assert_eq!(atx_heading("#no-space"), None);
    assert_eq!(atx_heading("#\ttab"), None);
    assert_eq!(atx_heading("# #"), None);
    assert_eq!(atx_heading("#"), None);
    assert_eq!(atx_heading(" # indented"), None);
}

#[test]
fn fence_open_recognises_both_fence_chars() {
    assert_eq!(fence_open("```"), Some('`'));
    assert_eq!(fence_open("```rust"), Some('`'));
    assert_eq!(fence_open("   ~~~"), Some('~'));
    assert_eq!(fence_open("   ```rust"), Some('`'));
    assert_eq!(fence_open("````"), Some('`'));
    // more than three spaces, or a tab, is an indented line, not a fence
    assert_eq!(fence_open("    ```"), None);
    assert_eq!(fence_open("\t````"), None);
    assert_eq!(fence_open(" \t```"), None);
    assert_eq!(fence_open("``"), None);
    assert_eq!(fence_open("~~"), None);
    assert_eq!(fence_open("a```"), None);
}

#[test]
fn setext_level_of_underlines() {
    assert_eq!(setext_level("==="), Some(1));
    assert_eq!(setext_level("  ---  "), Some(2));
    assert_eq!(setext_level("="), Some(1));
    assert_eq!(setext_level("=-="), None);
    assert_eq!(setext_level("   "), None);
    assert_eq!(setext_level(""), None);
}

#[test]
fn an_indented_fence_does_not_hide_headings() {
    let headings = extract_headings("    ```\n# shown\n    ```");
    assert_eq!(headings.len(), 1);
    assert_eq!(headings[0].text, "shown");
}

#[test]
fn a_leading_newline_shifts_every_heading_down_one_line() {
    let src = "# a\ntext\nB\n---\n```\n# no\n```\n## c";
    let plain = extract_headings(src);
    let shifted = extract_headings(&format!("\n{}", src));
    assert_eq!(plain.len(), 3);
    assert_eq!(plain.len(), shifted.len());
    for (p, s) in plain.iter().zip(shifted.iter()) {
        assert_eq!((p.level, &p.text, p.line + 1), (s.level, &s.text, s.line));
    }
}

#[test]
fn fences_of_other_char_do_not_close() {
    let src = "```\n~~~\n# hidden\n```\n# shown";
    let headings = extract_headings(src);
    assert_eq!(headings.len(), 1);
    assert_eq!(headings[0].text, "shown");
    assert_eq!(headings[0].line, 4);
}

#[test]
fn crlf_line_endings_are_stripped() {
    let src = "# one\r\nTitle\r\n---\r\n";
    let headings = extract_headings(src);
    assert_eq!(headings.len(), 2);
    assert_eq!(headings[0].text, "one");
    assert_eq!(headings[1].level, 2);
    assert_eq!(headings[1].text, "Title");
    assert_eq!(headings[1].line, 1);
}

#[test]
fn setext_underline_is_not_read_again() {
    // the "---" line is consumed as an underline, so the following "===" is
    // not an underline of it
    let src = "A\n---\n===";
    let headings = extract_headings(src);
    assert_eq!(headings.len(), 1);
    assert_eq!(headings[0].level, 2);
    assert_eq!(headings[0].line, 0);
}

#[test]
fn headings_are_in_line_order() {
    let headings = extract_headings("# a\n\n## b\nc\n===\n### d");
    let lines: Vec<u32> = headings.iter().map(|h| h.line).collect();
    assert_eq!(lines, vec![0, 2, 3, 5]);
}
