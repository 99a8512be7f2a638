//! The rows of a snapshot and what each of them is: a marker, interface noise,
//! the start of a message, or plain text.

use crate::text::{
    all_digits, char_width, contains, has_infix, has_prefix, is_all_digits, is_blank,
    is_blank_text, is_text, lemma_trim_end_shape, lemma_trim_start_shape, occurs_at, split_lines,
    starts_with, strip_prefix, strip_space, strip_suffix, strip_trailing_space, texts, trim,
    trim_end, utf8_len, without_prefix, without_suffix,
};
use vstd::prelude::*;
use vstd::slice::slice_subrange;

verus! {

/// Whether `row` is a prompt marker row: it starts with `> ` or `› `, or is a bare
/// `>` or `›`.
pub open spec fn is_prompt_marker(row: Seq<char>) -> bool {
    starts_with(row, "> "@) || row == ">"@ || starts_with(row, "› "@) || row == "›"@
}

/// What follows the marker on a prompt marker row.
pub open spec fn prompt_content(row: Seq<char>) -> Option<Seq<char>> {
    if starts_with(row, "> "@) {
        without_prefix(row, "> "@)
    } else if row == ">"@ {
        Some(Seq::empty())
    } else if starts_with(row, "› "@) {
        without_prefix(row, "› "@)
    } else if row == "›"@ {
        Some(Seq::empty())
    } else {
        None
    }
}

/// `row` without the two-column indent under a marker, if it has one.
pub open spec fn without_hanging_indent(row: Seq<char>) -> Seq<char> {
    match without_prefix(row, "  "@) {
        Some(rest) => rest,
        None => row,
    }
}

/// Whether `t` reads `N% context left`, `N` being digits, with or without space
/// around them.
pub open spec fn is_context_meter(t: Seq<char>) -> bool {
    match without_suffix(t, "% context left"@) {
        Some(amount) => trim(amount).len() > 0 && all_digits(trim(amount)),
        None => false,
    }
}

/// Whether `row` starts with a glyph of a box border or of the idle spinner.
pub open spec fn starts_with_frame_glyph(row: Seq<char>) -> bool {
    starts_with(row, "╭"@) || starts_with(row, "╰"@) || starts_with(row, "│"@) || starts_with(
        row,
        "◦"@,
    ) || starts_with(row, "◯"@) || starts_with(row, "○"@)
}

/// Whether `row` starts with one of the fixed header or hint texts.
pub open spec fn starts_with_static_hint(row: Seq<char>) -> bool {
    starts_with(row, "? for shortcuts"@) || starts_with(row, "model:"@) || starts_with(
        row,
        "directory:"@,
    )
}

/// Whether `s` holds the phrase that the interface shows while it is busy.
pub open spec fn is_busy(s: Seq<char>) -> bool {
    contains(s, "esc to interrupt"@)
}

/// Whether `row` belongs to the interface and not to the conversation.
pub open spec fn is_noise(row: Seq<char>) -> bool {
    is_context_meter(trim(row)) || starts_with_static_hint(row) || starts_with_frame_glyph(row)
        || is_busy(trim(row))
}

/// Whether `Heads up,` stands in `t` at most four bytes of UTF-8 from its start.
pub open spec fn heads_up_near_start(t: Seq<char>) -> bool {
    exists|k: int| occurs_at(t, "Heads up,"@, k) && utf8_len(t.take(k)) <= 4
}

/// Whether `t` names a limit, the status command, or a percentage.
pub open spec fn mentions_quota(t: Seq<char>) -> bool {
    contains(t, "weekly limit"@) || contains(t, "/status"@) || contains(t, "%"@)
}

/// Whether `row` is a notice of the interface: without the whitespace around it, it
/// starts with the warning glyph, has `Heads up,` near its start, and mentions a
/// quota.
pub open spec fn is_system_notice(row: Seq<char>) -> bool {
    starts_with(trim(row), "⚠"@) && heads_up_near_start(trim(row)) && mentions_quota(trim(row))
}

/// Whether a bullet row shows progress and no reply.
pub open spec fn is_progress_bullet(row: Seq<char>) -> bool {
    contains(trim(row), "Working"@) || is_busy(trim(row))
}

/// What a row is. The variants are in the order in which they are tried.
#[derive(Clone, Copy, Debug, PartialEq, Eq, Structural)]
pub enum RowKind {
    /// Only whitespace.
    Blank,
    /// Part of the interface.
    Noise,
    /// A notice of the interface, which opens a system message.
    Notice,
    /// A tip, which opens a system message.
    Tip,
    /// The prompt marker row that holds the input in progress.
    LivePrompt,
    /// A prompt marker row with nothing behind the marker.
    EmptyPrompt,
    /// An earlier prompt marker row, which opens a user message.
    User,
    /// A bullet row that shows progress.
    Progress,
    /// A bullet row, which opens an assistant message.
    Assistant,
    /// Anything else.
    Text,
}

/// What `row` is; `live` says whether it is the row of the input in progress.
pub open spec fn row_kind(row: Seq<char>, live: bool) -> RowKind {
    if is_blank(row) {
        RowKind::Blank
    } else if is_noise(row) {
        RowKind::Noise
    } else if is_system_notice(row) {
        RowKind::Notice
    } else if starts_with(trim(row), "Tip:"@) {
        RowKind::Tip
    } else if is_prompt_marker(row) {
        if live {
            RowKind::LivePrompt
        } else if is_blank(prompt_content(row).unwrap()) {
            RowKind::EmptyPrompt
        } else {
            RowKind::User
        }
    } else if starts_with(row, "• "@) {
        if is_progress_bullet(row) {
            RowKind::Progress
        } else {
            RowKind::Assistant
        }
    } else {
        RowKind::Text
    }
}

/// The lines without the whitespace at their ends.
pub open spec fn trimmed_rows(lines: Seq<Seq<char>>) -> Seq<Seq<char>> {
    lines.map_values(|line: Seq<char>| trim_end(line))
}

/// The rows of a snapshot: its lines without the whitespace at their ends.
pub open spec fn screen_rows(screen: Seq<char>) -> Seq<Seq<char>> {
    trimmed_rows(split_lines(screen))
}

/// The index of the last prompt marker row among `rows`.
pub open spec fn last_prompt_row(rows: Seq<Seq<char>>) -> Option<int>
    decreases rows.len(),
{
    if rows.len() == 0 {
        None
    } else if is_prompt_marker(rows.last()) {
        Some(rows.len() - 1)
    } else {
        last_prompt_row(rows.drop_last())
    }
}

/// The row of the input in progress: the last line of the snapshot that is a
/// prompt marker row as it stands.
pub open spec fn live_prompt_row(screen: Seq<char>) -> Option<int> {
    last_prompt_row(split_lines(screen))
}

/// The last prompt marker row is a prompt marker row, and none follows it.
pub proof fn lemma_last_prompt_row(rows: Seq<Seq<char>>)
    ensures
        match last_prompt_row(rows) {
            Some(p) => 0 <= p < rows.len() && is_prompt_marker(rows[p]) && forall|i: int|
                p < i < rows.len() ==> !is_prompt_marker(#[trigger] rows[i]),
            None => forall|i: int| 0 <= i < rows.len() ==> !is_prompt_marker(#[trigger] rows[i]),
        },
    decreases rows.len(),
{
    if rows.len() > 0 && !is_prompt_marker(rows.last()) {
        let init = rows.drop_last();
        lemma_last_prompt_row(init);
        match last_prompt_row(init) {
            Some(p) => {
                assert forall|i: int| p < i < rows.len() implies !is_prompt_marker(
                    #[trigger] rows[i],
                ) by {
                    if i < init.len() {
                        assert(rows[i] == init[i]);
                    }
                }
            },
            None => {
                assert forall|i: int| 0 <= i < rows.len() implies !is_prompt_marker(
                    #[trigger] rows[i],
                ) by {
                    if i < init.len() {
                        assert(rows[i] == init[i]);
                    }
                }
            },
        }
    }
}

/// A longer prefix takes no fewer bytes.
pub proof fn lemma_utf8_len_grows(s: Seq<char>, j: int, k: int)
    requires
        0 <= j <= k <= s.len(),
    ensures
        utf8_len(s.take(j)) <= utf8_len(s.take(k)),
    decreases k - j,
{
    if j < k {
        assert(s.take(k).drop_last() =~= s.take(k - 1));
        lemma_utf8_len_grows(s, j, k - 1);
    }
}

/// Whether `raw` is a prompt marker row.
pub fn is_prompt_marker_line(raw: &[char]) -> (b: bool)
    ensures
        b == is_prompt_marker(raw@),
{
    has_prefix(raw, "> ") || is_text(raw, ">") || has_prefix(raw, "› ") || is_text(raw, "›")
}

/// What follows the marker on a prompt marker row.
pub fn strip_prompt_marker<'a>(raw: &'a [char]) -> (r: Option<&'a [char]>)
    ensures
        match r {
            Some(rest) => prompt_content(raw@) == Some(rest@),
            None => prompt_content(raw@) is None,
        },
{
    if let Some(rest) = strip_prefix(raw, "> ") {
        Some(rest)
    } else if is_text(raw, ">") {
        Some(slice_subrange(raw, 0, 0))
    } else if let Some(rest) = strip_prefix(raw, "› ") {
        Some(rest)
    } else if is_text(raw, "›") {
        Some(slice_subrange(raw, 0, 0))
    } else {
        None
    }
}

/// `raw` without the two-column indent under a marker, if it has one.
pub fn strip_hanging_indent<'a>(raw: &'a [char]) -> (r: &'a [char])
    ensures
        r@ == without_hanging_indent(raw@),
{
    match strip_prefix(raw, "  ") {
        Some(rest) => rest,
        None => raw,
    }
}

/// Whether `Heads up,` stands in `t` at most four bytes from its start.
pub fn has_heads_up_near_start(t: &[char]) -> (b: bool)
    ensures
        b == heads_up_near_start(t@),
{
    let n: usize = t.len();
    let mut k: usize = 0;
    let mut bytes: usize = 0;
    loop
        invariant
            k <= n,
            n == t.len(),
            bytes == utf8_len(t@.take(k as int)),
            bytes <= 4,
            forall|j: int| 0 <= j < k ==> !occurs_at(t@, "Heads up,"@, j),
        decreases n - k,
    {
        if has_prefix(slice_subrange(t, k, n), "Heads up,") {
            assert(occurs_at(t@, "Heads up,"@, k as int));
            return true;
        }
        if k == n {
            return false;
        }
        assert(t@.take(k as int + 1).drop_last() =~= t@.take(k as int));
        bytes += char_width(t[k]);
        k += 1;
        if bytes > 4 {
            assert forall|j: int| k <= j <= n implies utf8_len(t@.take(j)) > 4 by {
                lemma_utf8_len_grows(t@, k as int, j);
            }
            return false;
        }
    }
}

/// Whether `raw` belongs to the interface and not to the conversation.
pub fn is_ui_noise_line(raw: &[char]) -> (b: bool)
    ensures
        b == is_noise(raw@),
{
    let trimmed = strip_space(raw);
    let is_context_left = match strip_suffix(trimmed, "% context left") {
        Some(amount) => {
            let digits = strip_space(amount);
            digits.len() > 0 && is_all_digits(digits)
        },
        None => false,
    };
    is_context_left || has_prefix(raw, "? for shortcuts") || has_prefix(raw, "model:")
        || has_prefix(raw, "directory:") || has_prefix(raw, "╭") || has_prefix(raw, "╰")
        || has_prefix(raw, "│") || has_prefix(raw, "◦") || has_prefix(raw, "◯") || has_prefix(
        raw,
        "○",
    ) || has_infix(trimmed, "esc to interrupt")
}

/// Whether `row` is a notice of the interface.
pub fn is_system_notice_line(row: &[char]) -> (b: bool)
    ensures
        b == is_system_notice(row@),
{
    let trimmed = strip_space(row);
    has_prefix(trimmed, "⚠") && has_heads_up_near_start(trimmed) && (has_infix(
        trimmed,
        "weekly limit",
    ) || has_infix(trimmed, "/status") || has_infix(trimmed, "%"))
}

/// What `row` is; `live` says whether it is the row of the input in progress.
pub fn classify_row(row: &[char], live: bool) -> (kind: RowKind)
    ensures
        kind == row_kind(row@, live),
{
    let trimmed = strip_space(row);
    proof {
        lemma_trim_end_shape(row@);
        lemma_trim_start_shape(trim_end(row@));
    }
    if trimmed.len() == 0 {
        RowKind::Blank
    } else if is_ui_noise_line(row) {
        RowKind::Noise
    } else if is_system_notice_line(row) {
        RowKind::Notice
    } else if has_prefix(trimmed, "Tip:") {
        RowKind::Tip
    } else if let Some(content) = strip_prompt_marker(row) {
        if live {
            RowKind::LivePrompt
        } else if is_blank_text(content) {
            RowKind::EmptyPrompt
        } else {
            RowKind::User
        }
    } else if has_prefix(row, "• ") {
        if has_infix(trimmed, "Working") || has_infix(trimmed, "esc to interrupt") {
            RowKind::Progress
        } else {
            RowKind::Assistant
        }
    } else {
        RowKind::Text
    }
}

/// The index of the last prompt marker row among `rows`.
pub fn find_last_prompt_row(rows: &Vec<Vec<char>>) -> (found: Option<usize>)
    ensures
        match found {
            Some(p) => last_prompt_row(texts(rows@)) == Some(p as int),
            None => last_prompt_row(texts(rows@)) is None,
        },
{
    let mut found: Option<usize> = None;
    let mut i: usize = 0;
    while i < rows.len()
        invariant
            i <= rows.len(),
            match found {
                Some(p) => last_prompt_row(texts(rows@).take(i as int)) == Some(p as int),
                None => last_prompt_row(texts(rows@).take(i as int)) is None,
            },
        decreases rows.len() - i,
    {
        assert(texts(rows@).take(i as int + 1).drop_last() =~= texts(rows@).take(i as int));
        if is_prompt_marker_line(rows[i].as_slice()) {
            found = Some(i);
        }
        i += 1;
    }
    assert(texts(rows@).take(rows.len() as int) =~= texts(rows@));
    found
}

} // verus!
