use codex_pty::{
    extract_chat_area, extract_transcript_candidates, mirror_assistant_screen, ChatDeltaEmitter,
    ChatDeltaKind, TranscriptPrinter,
};

#[test]
fn extracts_bullet_with_continuations_and_lists() {
    let screen = "Tip: A tip\n\n• First line\n  continuation one\n\n  continuation two\n- list a\n1. list b\n> prompt\n";

    let out = extract_transcript_candidates(screen);
    assert_eq!(out.len(), 2);

    assert_eq!(out[0], "system: Tip: A tip");
    assert_eq!(
        out[1],
        "assistant: First line\ncontinuation one\n\ncontinuation two\n- list a\n1. list b"
    );
}

#[test]
fn extracts_tip_with_continuations() {
    let screen = "  Tip: Hello
  second line

• assistant
> prompt
";

    let out = extract_transcript_candidates(screen);
    assert_eq!(out.len(), 2);

    assert_eq!(
        out[0],
        "system: Tip: Hello
  second line"
    );
    assert_eq!(out[1], "assistant: assistant");
}

#[test]
fn extracts_user_turns_but_skips_current_prompt() {
    let screen = "> previous line one\n  previous line two\n\n• assistant line\n  assistant cont\n\n› draft input\n  draft cont\n? for shortcuts\n";

    let out = extract_transcript_candidates(screen);
    assert_eq!(out.len(), 2);
    assert_eq!(out[0], "user: previous line one\nprevious line two");
    assert_eq!(out[1], "assistant: assistant line\nassistant cont");
}

#[test]
fn prompt_marker_without_trailing_space_is_skipped() {
    let screen = "• hello\n>\n";

    let out = extract_transcript_candidates(screen);
    assert_eq!(out, vec!["assistant: hello".to_string()]);
}

#[test]
fn extracts_unicode_prompt_marker_user_turn() {
    let screen = "› hello
  world

> prompt
";

    let out = extract_transcript_candidates(screen);
    assert_eq!(out, vec!["user: hello\nworld".to_string()]);
}

#[test]
fn assistant_continuation_can_start_with_quote_or_tip() {
    let screen = "• First line
  > quoted continuation
  Tip: Keep it simple.
> prompt
";

    let out = extract_transcript_candidates(screen);
    assert_eq!(
        out,
        vec!["assistant: First line\n> quoted continuation\nTip: Keep it simple.".to_string()]
    );
}

#[test]
fn assistant_can_emit_box_drawing_lines() {
    let screen = "• ╭foo╮\n  │bar│\n  ╰baz╯\n> prompt\n";

    let out = extract_transcript_candidates(screen);
    assert_eq!(out, vec!["assistant: ╭foo╮\n│bar│\n╰baz╯".to_string()]);
}

#[test]
fn assistant_tool_block_can_include_trailing_summary_after_separator() {
    let screen = "• Ran date\n  └ Monday, February 16, 2026\n\n  --------\n\n  Monday, February 16, 2026\n> prompt\n";

    let out = extract_transcript_candidates(screen);
    assert_eq!(
        out,
        vec![
            "assistant: Ran date\n└ Monday, February 16, 2026\n\n--------\n\nMonday, February 16, 2026"
                .to_string()
        ]
    );
}

#[test]
fn extracts_heads_up_warning_with_continuation() {
    let screen = "⚠ Heads up, you have less than 25% of your weekly limit left.\n  Run /status for a breakdown.\n> prompt\n";

    let out = extract_transcript_candidates(screen);
    assert_eq!(out.len(), 1);
    assert_eq!(
        out[0],
        "system: ⚠ Heads up, you have less than 25% of your weekly limit left.\n  Run /status for a breakdown."
    );
}

#[test]
fn transcript_printer_emits_only_when_prompt_visible() {
    let streaming = "\
• The smell of pizza drifted down the hallway.\n\
  Warm and peppery.\n\
";

    let streaming_ws = "\
• The smell   of  pizza drifted down the hallway.\n\
  Warm   and peppery.\n\
";

    let settled = "\
• The smell of pizza drifted down the hallway.\n\
  Warm and peppery.\n\
> prompt\n\
";

    let mut p = TranscriptPrinter::new();

    assert!(p.on_screen(streaming).is_empty());
    assert!(p.on_screen(streaming_ws).is_empty());

    let out = p.on_screen(settled);
    assert_eq!(out.len(), 1);

    // Further identical frames should not re-emit.
    assert!(p.on_screen(settled).is_empty());
}

#[test]
fn transcript_printer_suppresses_busy_frames() {
    let busy = "\
• First line\n\
  continuation\n\
◦ Working (1s • esc to interrupt)\n\
> prompt\n\
";

    let settled = "\
• First line\n\
  continuation\n\
> prompt\n\
";

    let mut p = TranscriptPrinter::new();

    assert!(p.on_screen(busy).is_empty());

    let out = p.on_screen(settled);
    assert_eq!(out, vec!["assistant: First line\ncontinuation".to_string()]);

    assert!(p.on_screen(settled).is_empty());
}

#[test]
fn drops_busy_spinner_artifacts_after_assistant_reply() {
    let screen = "\
• /Users/tartavull\n\
◦\n\
Cnfrming current directoy (4s • esc to interrupt)\n\
4\n\
g\n\
ng\n\
in\n\
ki\n\
rk\n\
or\n\
Wog\n\
Wng\n\
> prompt\n\
";

    let out = extract_transcript_candidates(screen);
    assert_eq!(out, vec!["assistant: /Users/tartavull".to_string()]);
}

#[test]
fn chat_area_excludes_prompt_and_noise() {
    let screen = "\
model: foo\n\
Hello\n\
\n\
> input\n\
";

    let chat = extract_chat_area(screen);
    assert_eq!(chat.lines, vec!["Hello".to_string()]);
    assert_eq!(chat.prompt_row, Some(3));
}

#[test]
fn mirror_blanks_noise_and_prompt_and_below() {
    let screen = "\
model: foo\n\
Hello\n\
> input\n\
TAIL\n\
";

    let mirrored = mirror_assistant_screen(screen, 4);
    assert_eq!(mirrored.len(), 4);
    assert_eq!(mirrored[0], "");
    assert_eq!(mirrored[1], "Hello");
    assert_eq!(mirrored[2], "");
    assert_eq!(mirrored[3], "");
}

#[test]
fn delta_emitter_initial_then_append_then_rewrite() {
    let mut d = ChatDeltaEmitter::new();

    let a = d.on_chat_text("Hello");
    assert_eq!(a.kind, ChatDeltaKind::Initial);
    assert_eq!(a.delta, "Hello");

    let b = d.on_chat_text("Hello world");
    assert_eq!(b.kind, ChatDeltaKind::Append);
    assert_eq!(b.delta, " world");

    let c = d.on_chat_text("Different");
    assert_eq!(c.kind, ChatDeltaKind::Rewrite);
    assert_eq!(c.delta, "");
    assert_eq!(d.rewrite_events, 1);
}
