//! The chat area of a snapshot, and its mirror of fixed height.

use crate::rows::{
    find_last_prompt_row, is_noise, is_prompt_marker, is_ui_noise_line, last_prompt_row,
    lemma_last_prompt_row, screen_rows, trimmed_rows,
};
use crate::text::{
    copy_chars, is_blank, is_blank_text, join_lines, join_text, lines_of, split_lines,
    strip_trailing_space, texts, to_chars, to_strings, to_text,
};
use vstd::prelude::*;

verus! {

/// The chat area of a snapshot: what stands above the input in progress and belongs
/// to the conversation.
#[derive(Debug, Clone, PartialEq, Eq)]
pub struct ChatArea {
    /// The rows of the chat area, from the top.
    pub lines: Vec<String>,
    /// The index of the row of the input in progress, if the snapshot shows one.
    pub prompt_row: Option<usize>,
}

/// A chat area as plain values.
pub ghost struct ChatAreaView {
    pub lines: Seq<Seq<char>>,
    pub prompt_row: Option<int>,
}

impl View for ChatArea {
    type V = ChatAreaView;

    open spec fn view(&self) -> ChatAreaView {
        ChatAreaView {
            lines: self.lines.deep_view(),
            prompt_row: match self.prompt_row {
                Some(p) => Some(p as int),
                None => None,
            },
        }
    }
}

/// The first `end` lines without the whitespace at their ends and without the rows
/// that are noise.
pub open spec fn content_rows(lines: Seq<Seq<char>>, end: int) -> Seq<Seq<char>> {
    trimmed_rows(lines.take(end)).filter(|row: Seq<char>| !is_noise(row))
}

/// `rows` without the blank rows at their end.
pub open spec fn without_trailing_blank(rows: Seq<Seq<char>>) -> Seq<Seq<char>>
    decreases rows.len(),
{
    if rows.len() > 0 && is_blank(rows.last()) {
        without_trailing_blank(rows.drop_last())
    } else {
        rows
    }
}

/// The chat area of a snapshot. Its rows are the rows above the last prompt marker
/// row, or all rows if there is none, without noise and without the blank rows at
/// their end.
pub open spec fn chat_area(screen: Seq<char>) -> ChatAreaView {
    let lines = split_lines(screen);
    let live = last_prompt_row(lines);
    let end = match live {
        Some(p) => p,
        None => lines.len() as int,
    };
    ChatAreaView { lines: without_trailing_blank(content_rows(lines, end)), prompt_row: live }
}

/// The row at `i` of a mirror of the rows `shown`, of which `live` is the last
/// prompt marker row: the row itself, or an empty row if it is noise, stands at or
/// below `live`, or lies beyond the rows shown.
pub open spec fn mirror_row(shown: Seq<Seq<char>>, live: Option<int>, i: int) -> Seq<char> {
    if 0 <= i < shown.len() && !is_noise(shown[i]) && (live is None || i < live.unwrap()) {
        shown[i]
    } else {
        Seq::empty()
    }
}

/// The mirror of a snapshot in `height` rows: its first `height` rows, rows beyond
/// the snapshot being empty, with noise, the last prompt marker row among them and
/// all below it blanked.
pub open spec fn mirror_rows(screen: Seq<char>, height: nat) -> Seq<Seq<char>> {
    let rows = screen_rows(screen);
    let shown = if rows.len() <= height {
        rows
    } else {
        rows.take(height as int)
    };
    Seq::new(height, |i: int| mirror_row(shown, last_prompt_row(shown), i))
}

/// Dropping the blank rows at the end leaves the rows before them, and the last of
/// those is not blank.
pub proof fn lemma_without_trailing_blank(rows: Seq<Seq<char>>)
    ensures
        without_trailing_blank(rows).is_prefix_of(rows),
        without_trailing_blank(rows).len() > 0 ==> !is_blank(without_trailing_blank(rows).last()),
    decreases rows.len(),
{
    if rows.len() > 0 && is_blank(rows.last()) {
        lemma_without_trailing_blank(rows.drop_last());
    }
}

/// The prompt row of a chat area is the last line of the snapshot that is a prompt
/// marker row.
pub proof fn law_prompt_row_is_last_marker(screen: Seq<char>)
    ensures
        match chat_area(screen).prompt_row {
            Some(p) => 0 <= p < split_lines(screen).len() && is_prompt_marker(
                split_lines(screen)[p],
            ) && forall|i: int|
                p < i < split_lines(screen).len() ==> !is_prompt_marker(
                    #[trigger] split_lines(screen)[i],
                ),
            None => forall|i: int|
                0 <= i < split_lines(screen).len() ==> !is_prompt_marker(
                    #[trigger] split_lines(screen)[i],
                ),
        },
{
    lemma_last_prompt_row(split_lines(screen));
}

/// No row of a chat area is noise, and its last row is not blank.
pub proof fn law_chat_area_is_clean(screen: Seq<char>)
    ensures
        forall|i: int|
            0 <= i < chat_area(screen).lines.len() ==> !is_noise(
                #[trigger] chat_area(screen).lines[i],
            ),
        chat_area(screen).lines.len() > 0 ==> !is_blank(chat_area(screen).lines.last()),
{
    let lines = split_lines(screen);
    let end = match last_prompt_row(lines) {
        Some(p) => p,
        None => lines.len() as int,
    };
    let content = content_rows(lines, end);
    let kept = without_trailing_blank(content);
    lemma_without_trailing_blank(content);
    let keep = |row: Seq<char>| !is_noise(row);
    assert forall|i: int| 0 <= i < kept.len() implies !is_noise(#[trigger] kept[i]) by {
        assert(kept[i] == content[i]);
        trimmed_rows(lines.take(end)).lemma_filter_pred(keep, i);
    }
}

impl ChatArea {
    /// The rows of the chat area joined by line feeds.
    pub fn text(&self) -> (out: String)
        ensures
            out@ == join_lines(self@.lines),
    {
        join_text(&self.lines)
    }
}

/// The chat area of a snapshot and the row of the input in progress.
pub fn extract_chat_area(screen: &str) -> (area: ChatArea)
    ensures
        area@ == chat_area(screen@),
{
    let chars = to_chars(screen);
    let lines = lines_of(chars.as_slice());
    let prompt_row = find_last_prompt_row(&lines);
    proof {
        lemma_last_prompt_row(texts(lines@));
    }
    let end: usize = match prompt_row {
        Some(p) => p,
        None => lines.len(),
    };
    let mut kept: Vec<Vec<char>> = Vec::new();
    let mut i: usize = 0;
    while i < end
        invariant
            i <= end <= lines.len(),
            texts(kept@) == content_rows(texts(lines@), i as int),
        decreases end - i,
    {
        let row = strip_trailing_space(lines[i].as_slice());
        proof {
            let done = trimmed_rows(texts(lines@).take(i as int));
            let next = trimmed_rows(texts(lines@).take(i as int + 1));
            assert(next.drop_last() =~= done);
            assert(next.last() == row@);
            reveal(Seq::filter);
        }
        if !is_ui_noise_line(row) {
            let ghost before = texts(kept@);
            kept.push(copy_chars(row));
            assert(texts(kept@) =~= before.push(row@));
        }
        i += 1;
    }
    let ghost content = texts(kept@);
    while kept.len() > 0 && is_blank_text(kept[kept.len() - 1].as_slice())
        invariant
            without_trailing_blank(texts(kept@)) == without_trailing_blank(content),
        decreases kept.len(),
    {
        let ghost before = texts(kept@);
        kept.pop();
        assert(texts(kept@) =~= before.drop_last());
    }
    ChatArea { lines: to_strings(&kept), prompt_row }
}

/// The mirror of a snapshot in exactly `rows` rows.
pub fn mirror_assistant_screen(screen: &str, rows: usize) -> (out: Vec<String>)
    ensures
        out.len() == rows,
        out.deep_view() == mirror_rows(screen@, rows as nat),
{
    let chars = to_chars(screen);
    let lines = lines_of(chars.as_slice());
    let count: usize = if lines.len() <= rows {
        lines.len()
    } else {
        rows
    };
    let ghost all = trimmed_rows(texts(lines@));
    let mut shown: Vec<Vec<char>> = Vec::new();
    let mut i: usize = 0;
    while i < count
        invariant
            i <= count <= lines.len(),
            all == trimmed_rows(texts(lines@)),
            texts(shown@) == all.take(i as int),
        decreases count - i,
    {
        let ghost before = texts(shown@);
        shown.push(copy_chars(strip_trailing_space(lines[i].as_slice())));
        assert(texts(shown@) =~= before.push(all[i as int]));
        assert(all.take(i as int + 1) =~= all.take(i as int).push(all[i as int]));
        i += 1;
    }
    assert(lines.len() <= rows ==> all.take(count as int) =~= all);
    let live = find_last_prompt_row(&shown);
    let ghost live_row = last_prompt_row(texts(shown@));
    let mut out: Vec<String> = Vec::new();
    let mut k: usize = 0;
    while k < rows
        invariant
            k <= rows,
            count == shown.len(),
            live_row == last_prompt_row(texts(shown@)),
            match live {
                Some(p) => live_row == Some(p as int),
                None => live_row is None,
            },
            out.len() == k,
            forall|j: int| 0 <= j < k ==> out[j]@ == mirror_row(texts(shown@), live_row, j),
        decreases rows - k,
    {
        let below: bool = match live {
            Some(p) => k >= p,
            None => false,
        };
        if k < count && !below && !is_ui_noise_line(shown[k].as_slice()) {
            out.push(to_text(shown[k].as_slice()));
        } else {
            out.push(String::new());
        }
        k += 1;
    }
    assert(out.deep_view() =~= mirror_rows(screen@, rows as nat));
    out
}

} // verus!
