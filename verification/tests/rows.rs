use codex_pty::rows::{
    classify_row, find_last_prompt_row, has_heads_up_near_start, is_prompt_marker_line,
    is_system_notice_line, is_ui_noise_line, strip_hanging_indent, strip_prompt_marker, RowKind,
};
use codex_pty::text::{
    char_width, has_infix, has_prefix, is_all_digits, is_blank_text, is_text, is_whitespace,
    join_text, lines_of, prefix_len, same_chars, strip_leading_space, strip_prefix, strip_space,
    strip_suffix, strip_trailing_space, to_chars, to_text,
};

fn chars(s: &str) -> Vec<char> {
    s.chars().collect()
}

fn text(v: &[char]) -> String {
    v.iter().collect()
}

fn rows(lines: &[&str]) -> Vec<Vec<char>> {
    lines.iter().map(|l| chars(l)).collect()
}

#[test]
fn whitespace_is_the_unicode_property() {
    for c in [' ', '\t', '\n', '\u{b}', '\u{c}', '\r', '\u{85}', '\u{a0}', '\u{1680}', '\u{2000}',
        '\u{200a}', '\u{2028}', '\u{2029}', '\u{202f}', '\u{205f}', '\u{3000}']
    {
        assert!(is_whitespace(c), "{:?}", c);
        assert!(c.is_whitespace());
    }
    for c in ['a', '0', '>', '•', '\u{200b}', '\u{180e}', '\u{8}', '\u{e}', '\u{1f}', '\u{feff}'] {
        assert!(!is_whitespace(c), "{:?}", c);
        assert!(!c.is_whitespace());
    }
}

#[test]
fn whitespace_agrees_with_std_on_every_char() {
    let mut u: u32 = 0;
    while u <= 0x10ffff {
        if let Some(c) = char::from_u32(u) {
            assert_eq!(is_whitespace(c), c.is_whitespace(), "{:x}", u);
            assert_eq!(char_width(c), c.len_utf8(), "{:x}", u);
        }
        u += 1;
    }
}

#[test]
fn chars_and_text_round_trip() {
    let s = "a›b • ⚠\n\té";
    let v = to_chars(s);
    assert_eq!(v, chars(s));
    assert_eq!(to_text(&v), s);
    assert_eq!(to_text(&[]), "");
    assert!(to_chars("").is_empty());
}

#[test]
fn trimming_takes_whitespace_from_the_ends_only() {
    let v = chars(" \t a  b \u{a0}\r\n");
    assert_eq!(text(strip_trailing_space(&v)), " \t a  b");
    assert_eq!(text(strip_leading_space(&v)), "a  b \u{a0}\r\n");
    assert_eq!(text(strip_space(&v)), "a  b");
    assert_eq!(text(strip_space(&chars(" \n "))), "");
    assert_eq!(text(strip_space(&chars(""))), "");
    assert_eq!(text(strip_space(&chars("x"))), "x");
}

#[test]
fn blank_text_is_all_whitespace() {
    assert!(is_blank_text(&chars("")));
    assert!(is_blank_text(&chars(" \t\u{3000}")));
    assert!(!is_blank_text(&chars("  .  ")));
}

#[test]
fn prefix_infix_and_equality() {
    let v = chars("model: gpt › x");
    assert!(has_prefix(&v, "model:"));
    assert!(has_prefix(&v, ""));
    assert!(!has_prefix(&v, "model;"));
    assert!(!has_prefix(&chars("mod"), "model:"));
    assert!(has_infix(&v, "gpt"));
    assert!(has_infix(&v, "› x"));
    assert!(has_infix(&v, ""));
    assert!(!has_infix(&v, "gpx"));
    assert!(has_infix(&chars("abc"), "c"));
    assert!(!has_infix(&chars("ab"), "abc"));
    assert!(is_text(&chars(">"), ">"));
    assert!(!is_text(&chars("> "), ">"));
    assert!(!is_text(&chars(""), ">"));
    assert_eq!(prefix_len(&v, "model:"), Some(6));
    assert_eq!(prefix_len(&chars("›x"), "›"), Some(1));
    assert_eq!(prefix_len(&v, ""), Some(0));
    assert_eq!(prefix_len(&v, "x"), None);
    assert!(same_chars(&chars("a›"), &chars("a›")));
    assert!(!same_chars(&chars("a›"), &chars("a>")));
    assert!(!same_chars(&chars("a"), &chars("ab")));
}

#[test]
fn digits_are_ascii_digits_only() {
    assert!(is_all_digits(&chars("0123456789")));
    assert!(is_all_digits(&chars("")));
    assert!(!is_all_digits(&chars("12a")));
    assert!(!is_all_digits(&chars("١٢")));
}

#[test]
fn strip_prefix_and_suffix_return_the_rest() {
    let v = chars("• hello");
    assert_eq!(strip_prefix(&v, "• ").map(text), Some("hello".to_string()));
    assert_eq!(strip_prefix(&v, "> "), None);
    assert_eq!(strip_prefix(&v, "").map(text), Some("• hello".to_string()));
    let w = chars("12% context left");
    assert_eq!(strip_suffix(&w, "% context left").map(text), Some("12".to_string()));
    assert_eq!(strip_suffix(&w, "% context"), None);
    assert_eq!(strip_suffix(&chars("left"), "% context left"), None);
    assert_eq!(strip_suffix(&w, "12% context left").map(text), Some(String::new()));
}

#[test]
fn lines_follow_line_feeds_and_drop_one_carriage_return() {
    let split = |s: &str| -> Vec<String> { lines_of(&chars(s)).iter().map(|l| text(l)).collect() };
    assert_eq!(split(""), Vec::<String>::new());
    assert_eq!(split("a"), vec!["a"]);
    assert_eq!(split("a\n"), vec!["a"]);
    assert_eq!(split("a\nb"), vec!["a", "b"]);
    assert_eq!(split("a\n\nb\n"), vec!["a", "", "b"]);
    assert_eq!(split("\n"), vec![""]);
    assert_eq!(split("\n\n"), vec!["", ""]);
    assert_eq!(split("a\r\nb\r\n"), vec!["a", "b"]);
    assert_eq!(split("a\r\r\nb"), vec!["a\r", "b"]);
    assert_eq!(split("a\rb\n"), vec!["a\rb"]);
    assert_eq!(split("a\r"), vec!["a\r"]);
    assert_eq!(split("\r\n"), vec![""]);
    for s in ["", "a", "a\n", "\n", "a\r\n\r\nb\r", "x\n\ny", "\r", "\r\n\r", "é\n›\r\n"] {
        let want: Vec<String> = s.lines().map(|l| l.to_string()).collect();
        assert_eq!(split(s), want, "{:?}", s);
    }
}

#[test]
fn join_puts_one_line_feed_between_texts() {
    assert_eq!(join_text(&vec![]), "");
    assert_eq!(join_text(&vec!["a".to_string()]), "a");
    assert_eq!(join_text(&vec!["a".to_string(), String::new(), "b".to_string()]), "a\n\nb");
    assert_eq!(join_text(&vec![String::new(), String::new()]), "\n");
}

#[test]
fn prompt_markers_are_a_glyph_and_a_space_or_the_bare_glyph() {
    for s in ["> ", "> x", ">", "› ", "› draft", "›", ">  "] {
        assert!(is_prompt_marker_line(&chars(s)), "{:?}", s);
    }
    for s in ["", ">x", " > x", "›x", ">>", "•", ">\t", "x > "] {
        assert!(!is_prompt_marker_line(&chars(s)), "{:?}", s);
    }
}

#[test]
fn prompt_marker_content_is_what_follows_the_marker() {
    assert_eq!(strip_prompt_marker(&chars("> hello ")).map(text), Some("hello ".to_string()));
    assert_eq!(strip_prompt_marker(&chars(">")).map(text), Some(String::new()));
    assert_eq!(strip_prompt_marker(&chars("›  two")).map(text), Some(" two".to_string()));
    assert_eq!(strip_prompt_marker(&chars("›")).map(text), Some(String::new()));
    assert_eq!(strip_prompt_marker(&chars("hello")), None);
    assert_eq!(strip_prompt_marker(&chars(" > x")), None);
}

#[test]
fn hanging_indent_is_two_columns() {
    assert_eq!(text(strip_hanging_indent(&chars("  x"))), "x");
    assert_eq!(text(strip_hanging_indent(&chars("    x"))), "  x");
    assert_eq!(text(strip_hanging_indent(&chars(" x"))), " x");
    assert_eq!(text(strip_hanging_indent(&chars("\t\tx"))), "\t\tx");
    assert_eq!(text(strip_hanging_indent(&chars(""))), "");
}

#[test]
fn noise_rows_are_recognised() {
    for s in [
        "12% context left",
        "  7 % context left  ",
        "? for shortcuts",
        "? for shortcuts  and more",
        "model: gpt",
        "directory: /tmp",
        "╭──╮",
        "╰──╯",
        "│ text │",
        "◦ Working",
        "◯",
        "○ idle",
        "anything (3s • esc to interrupt)",
        "  esc to interrupt",
    ] {
        assert!(is_ui_noise_line(&chars(s)), "{:?}", s);
    }
    for s in [
        "",
        "Hello",
        "% context left",
        "x% context left",
        "12% context left.",
        "1 2% context left",
        " ? for shortcuts",
        "Model: x",
        " ╭──╮",
        "• ╭foo╮",
        "esc to interrup",
    ] {
        assert!(!is_ui_noise_line(&chars(s)), "{:?}", s);
    }
}

#[test]
fn heads_up_counts_bytes_from_the_start() {
    assert!(has_heads_up_near_start(&chars("Heads up, x")));
    assert!(has_heads_up_near_start(&chars("⚠ Heads up, x")));
    assert!(has_heads_up_near_start(&chars("abcdHeads up,")));
    assert!(!has_heads_up_near_start(&chars("abcdeHeads up,")));
    assert!(!has_heads_up_near_start(&chars("⚠  Heads up, x")));
    assert!(!has_heads_up_near_start(&chars("⚠⚠Heads up,")));
    assert!(has_heads_up_near_start(&chars("éé" ).iter().chain(chars("Heads up,").iter()).cloned().collect::<Vec<char>>()));
    assert!(!has_heads_up_near_start(&chars("Heads up")));
    assert!(!has_heads_up_near_start(&chars("")));
}

#[test]
fn system_notice_needs_glyph_phrase_and_quota() {
    for s in [
        "⚠ Heads up, you have less than 25% of your weekly limit left.",
        "  ⚠ Heads up, 5% left  ",
        "⚠ Heads up, run /status",
        "⚠Heads up, your weekly limit is near",
    ] {
        assert!(is_system_notice_line(&chars(s)), "{:?}", s);
    }
    for s in [
        "",
        "⚠ Something else",
        "⚠ Heads up, nothing to see",
        "Heads up, 5% left",
        "⚠  Heads up, 5% left",
        "⚠ 5% Heads up, left",
        "Tip: ⚠ Heads up, 5%",
        "• ⚠ Heads up, 5%",
    ] {
        assert!(!is_system_notice_line(&chars(s)), "{:?}", s);
    }
}

#[test]
fn rows_are_classified_in_priority_order() {
    let kind = |s: &str, live: bool| classify_row(&chars(s), live);
    assert_eq!(kind("", false), RowKind::Blank);
    assert_eq!(kind("   ", true), RowKind::Blank);
    assert_eq!(kind("model: x", false), RowKind::Noise);
    assert_eq!(kind("• Working (1s • esc to interrupt)", false), RowKind::Noise);
    assert_eq!(kind("⚠ Heads up, 5% left (esc to interrupt)", false), RowKind::Noise);
    assert_eq!(kind("⚠ Heads up, 5% left", false), RowKind::Notice);
    assert_eq!(kind("  ⚠ Heads up, 5% left", false), RowKind::Notice);
    assert_eq!(kind("Tip: x", false), RowKind::Tip);
    assert_eq!(kind("   Tip: x", false), RowKind::Tip);
    assert_eq!(kind("> x", true), RowKind::LivePrompt);
    assert_eq!(kind(">", true), RowKind::LivePrompt);
    assert_eq!(kind(">", false), RowKind::EmptyPrompt);
    assert_eq!(kind("›", false), RowKind::EmptyPrompt);
    assert_eq!(kind("> ", false), RowKind::EmptyPrompt);
    assert_eq!(kind("> x", false), RowKind::User);
    assert_eq!(kind("› x", false), RowKind::User);
    assert_eq!(kind("• Working", false), RowKind::Progress);
    assert_eq!(kind("• Working", true), RowKind::Progress);
    assert_eq!(kind("• x", false), RowKind::Assistant);
    assert_eq!(kind("•", false), RowKind::Text);
    assert_eq!(kind("  • x", false), RowKind::Text);
    assert_eq!(kind("  > x", false), RowKind::Text);
    assert_eq!(kind("plain", true), RowKind::Text);
    assert_eq!(kind("⚠ Something else", false), RowKind::Text);
}

#[test]
fn last_prompt_row_is_the_last_match() {
    assert_eq!(find_last_prompt_row(&rows(&[])), None);
    assert_eq!(find_last_prompt_row(&rows(&["a", "b"])), None);
    assert_eq!(find_last_prompt_row(&rows(&["> a", "b", "› c", "d"])), Some(2));
    assert_eq!(find_last_prompt_row(&rows(&[">", "> a", ">"])), Some(2));
    assert_eq!(find_last_prompt_row(&rows(&["> a"])), Some(0));
}
