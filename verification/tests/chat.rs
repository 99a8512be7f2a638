use codex_pty::{extract_chat_area, mirror_assistant_screen, ChatArea};

#[test]
fn chat_area_of_an_empty_screen_is_empty() {
    let chat = extract_chat_area("");
    assert!(chat.lines.is_empty());
    assert_eq!(chat.prompt_row, None);
    assert_eq!(chat.text(), "");
}

#[test]
fn chat_area_without_prompt_keeps_all_rows() {
    let chat = extract_chat_area("a  \n\nb\n\n  \n");
    assert_eq!(chat.lines, vec!["a".to_string(), String::new(), "b".to_string()]);
    assert_eq!(chat.prompt_row, None);
    assert_eq!(chat.text(), "a\n\nb");
}

#[test]
fn chat_area_takes_the_last_of_several_prompt_rows() {
    let chat = extract_chat_area("> first\nanswer\n> second\nmore\n› third\nbelow\n");
    assert_eq!(chat.prompt_row, Some(4));
    assert_eq!(
        chat.lines,
        vec![
            "> first".to_string(),
            "answer".to_string(),
            "> second".to_string(),
            "more".to_string()
        ]
    );
}

#[test]
fn chat_area_drops_every_kind_of_noise() {
    let screen = "╭──╮\n│ hi │\n╰──╯\nmodel: x\ndirectory: y\nkeep me\n◦ spin\n◯\n○\n99% context left\nbusy esc to interrupt now\n? for shortcuts\nkeep me too\n";
    let chat = extract_chat_area(screen);
    assert_eq!(chat.lines, vec!["keep me".to_string(), "keep me too".to_string()]);
    assert_eq!(chat.prompt_row, None);
}

#[test]
fn chat_area_prompt_row_counts_noise_rows() {
    let chat = extract_chat_area("model: x\n\n\nHello\n>\n");
    assert_eq!(chat.prompt_row, Some(4));
    assert_eq!(chat.lines, vec![String::new(), String::new(), "Hello".to_string()]);
}

#[test]
fn chat_area_text_joins_rows() {
    let chat = ChatArea { lines: vec!["a".to_string(), "b".to_string()], prompt_row: Some(7) };
    assert_eq!(chat.text(), "a\nb");
    let chat = ChatArea { lines: vec![], prompt_row: None };
    assert_eq!(chat.text(), "");
}

#[test]
fn chat_area_prompt_on_first_row_leaves_nothing() {
    let chat = extract_chat_area("> only\nbelow\n");
    assert_eq!(chat.prompt_row, Some(0));
    assert!(chat.lines.is_empty());
}

#[test]
fn mirror_has_exactly_the_rows_asked_for() {
    let screen = "a\nb\nc\n";
    for rows in [0usize, 1, 2, 3, 4, 10, 40] {
        let m = mirror_assistant_screen(screen, rows);
        assert_eq!(m.len(), rows);
    }
    assert_eq!(mirror_assistant_screen("", 3), vec![String::new(); 3]);
    assert_eq!(mirror_assistant_screen("a\nb\nc\n", 0), Vec::<String>::new());
}

#[test]
fn mirror_pads_and_truncates_at_the_end() {
    assert_eq!(
        mirror_assistant_screen("a  \nb\n", 4),
        vec!["a".to_string(), "b".to_string(), String::new(), String::new()]
    );
    assert_eq!(mirror_assistant_screen("a\nb\nc\nd\n", 2), vec!["a".to_string(), "b".to_string()]);
}

#[test]
fn mirror_looks_for_the_prompt_among_the_rows_shown() {
    assert_eq!(
        mirror_assistant_screen("a\nb\n> live\n", 2),
        vec!["a".to_string(), "b".to_string()]
    );
    assert_eq!(
        mirror_assistant_screen("a\n> old\nb\n> live\nc\n", 3),
        vec!["a".to_string(), String::new(), String::new()]
    );
    assert_eq!(
        mirror_assistant_screen("a\n> old\nb\n> live\nc\n", 5),
        vec!["a".to_string(), "> old".to_string(), "b".to_string(), String::new(), String::new()]
    );
}

#[test]
fn mirror_blanks_noise_in_place() {
    assert_eq!(
        mirror_assistant_screen("model: x\nkeep\n╭─╮\nkeep too\n", 4),
        vec![String::new(), "keep".to_string(), String::new(), "keep too".to_string()]
    );
}
