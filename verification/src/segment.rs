//! Segmentation of a snapshot into the messages that it shows.

use crate::rows::{
    classify_row, find_last_prompt_row, last_prompt_row, prompt_content, row_kind,
    strip_hanging_indent, strip_prompt_marker, trimmed_rows, without_hanging_indent, RowKind,
};
use crate::text::{
    is_blank, join_lines, lines_of, push_chars, push_str, split_lines, starts_with, strip_prefix,
    strip_space, strip_trailing_space, texts, to_chars, to_strings, trim, trim_end,
    without_prefix,
};
use vstd::prelude::*;

verus! {

/// Whose message a block is.
#[derive(Clone, Copy, Debug, PartialEq, Eq, Structural)]
pub enum Role {
    /// The interface: a notice or a tip.
    System,
    /// The user: an earlier input.
    User,
    /// The assistant: a reply.
    Assistant,
}

/// The role of the message that a row of kind `row` opens, if it opens one.
pub open spec fn opened_by(row: RowKind) -> Option<Role> {
    match row {
        RowKind::Notice => Some(Role::System),
        RowKind::Tip => Some(Role::System),
        RowKind::User => Some(Role::User),
        RowKind::Assistant => Some(Role::Assistant),
        _ => None,
    }
}

/// Whether a row of kind `row` ends a message of role `block`. Blank rows and plain
/// text never do. A tip ends a system message and is taken into any other message.
/// Every other row does.
pub open spec fn ends_block(block: Role, row: RowKind) -> bool {
    match row {
        RowKind::Blank => false,
        RowKind::Text => false,
        RowKind::Tip => block == Role::System,
        _ => true,
    }
}

/// The first line of a message of role `block` that `row` opens: the role, a colon,
/// a space, and what the row says.
pub open spec fn heading(block: Role, row: Seq<char>) -> Seq<char> {
    match block {
        Role::System => "system: "@ + trim(row),
        Role::User => "user: "@ + trim_end(prompt_content(row).unwrap()),
        Role::Assistant => "assistant: "@ + without_prefix(row, "• "@).unwrap(),
    }
}

/// The line that `row` adds to a message of role `block`. A system message keeps
/// its rows as they stand; any other message drops their hanging indent.
pub open spec fn continuation(block: Role, row: Seq<char>) -> Seq<char> {
    match block {
        Role::System => row,
        _ => without_hanging_indent(row),
    }
}

/// What the row at `i` is, given the row of the input in progress.
pub open spec fn kind_at(rows: Seq<Seq<char>>, live: Option<int>, i: int) -> RowKind {
    row_kind(rows[i], live == Some(i))
}

/// The number of rows from `from` on that come before the first row that ends a
/// message of role `block`.
pub open spec fn absorbed(rows: Seq<Seq<char>>, live: Option<int>, block: Role, from: int) -> nat
    decreases rows.len() - from,
{
    if from < 0 || from >= rows.len() || ends_block(block, kind_at(rows, live, from)) {
        0
    } else {
        1 + absorbed(rows, live, block, from + 1)
    }
}

/// The lines of the message of role `block` opened by the row at `open`, as far as
/// the rows before `to` make it. Each row that is not blank adds a line; blank rows
/// directly before it add one empty line.
pub open spec fn block_lines(rows: Seq<Seq<char>>, block: Role, open: int, to: int) -> Seq<
    Seq<char>,
>
    decreases to - open,
{
    if to <= open + 1 {
        seq![heading(block, rows[open])]
    } else {
        let before = block_lines(rows, block, open, to - 1);
        let row = rows[to - 1];
        if is_blank(row) {
            before
        } else if is_blank(rows[to - 2]) {
            before.push(Seq::empty()).push(continuation(block, row))
        } else {
            before.push(continuation(block, row))
        }
    }
}

/// The messages that the rows from `from` on show, in order. A row that opens no
/// message is passed over. A row that opens one takes the rows after it up to the
/// first that ends the message, and the search goes on from that row.
pub open spec fn blocks_from(rows: Seq<Seq<char>>, live: Option<int>, from: int) -> Seq<Seq<char>>
    decreases rows.len() - from,
    via blocks_from_decreases
{
    if from < 0 || from >= rows.len() {
        Seq::empty()
    } else {
        match opened_by(kind_at(rows, live, from)) {
            None => blocks_from(rows, live, from + 1),
            Some(block) => {
                let end = from + 1 + absorbed(rows, live, block, from + 1);
                seq![join_lines(block_lines(rows, block, from, end))] + blocks_from(
                    rows,
                    live,
                    end,
                )
            },
        }
    }
}

#[via_fn]
proof fn blocks_from_decreases(rows: Seq<Seq<char>>, live: Option<int>, from: int) {
    if 0 <= from < rows.len() {
        match opened_by(kind_at(rows, live, from)) {
            Some(block) => {
                lemma_absorbed_bound(rows, live, block, from + 1);
            },
            None => {},
        }
    }
}

/// A message ends within the rows.
pub proof fn lemma_absorbed_bound(
    rows: Seq<Seq<char>>,
    live: Option<int>,
    block: Role,
    from: int,
)
    requires
        0 <= from <= rows.len(),
    ensures
        from + absorbed(rows, live, block, from) <= rows.len(),
    decreases rows.len() - from,
{
    if from < rows.len() && !ends_block(block, kind_at(rows, live, from)) {
        lemma_absorbed_bound(rows, live, block, from + 1);
    }
}

/// The messages that a snapshot shows, each with its role before it, in the order
/// in which they stand on the screen.
pub open spec fn candidate_blocks(screen: Seq<char>) -> Seq<Seq<char>> {
    let lines = split_lines(screen);
    blocks_from(trimmed_rows(lines), last_prompt_row(lines), 0)
}

/// A message has at least one line, and its first line is its heading.
pub proof fn lemma_block_lines_first(rows: Seq<Seq<char>>, block: Role, open: int, to: int)
    ensures
        block_lines(rows, block, open, to).len() >= 1,
        block_lines(rows, block, open, to)[0] == heading(block, rows[open]),
    decreases to - open,
{
    if to > open + 1 {
        lemma_block_lines_first(rows, block, open, to - 1);
    }
}

/// Joined lines begin with the first line.
pub proof fn lemma_join_begins(lines: Seq<Seq<char>>)
    requires
        lines.len() >= 1,
    ensures
        starts_with(join_lines(lines), lines[0]),
    decreases lines.len(),
{
    if lines.len() == 1 {
        assert(lines[0] =~= lines[0].subrange(0, lines[0].len() as int));
    } else {
        let init = lines.drop_last();
        lemma_join_begins(init);
        assert(init[0] == lines[0]);
        let joined = join_lines(init);
        let all = joined.push('\n') + lines.last();
        assert(all.subrange(0, lines[0].len() as int) =~= joined.subrange(
            0,
            lines[0].len() as int,
        ));
    }
}

/// Whether `block` begins with one of the three roles, a colon and a space.
pub open spec fn begins_with_role(block: Seq<char>) -> bool {
    starts_with(block, "system: "@) || starts_with(block, "user: "@) || starts_with(
        block,
        "assistant: "@,
    )
}

/// Every message found from `from` on begins with its role.
pub proof fn lemma_blocks_begin_with_role(rows: Seq<Seq<char>>, live: Option<int>, from: int)
    ensures
        forall|i: int|
            0 <= i < blocks_from(rows, live, from).len() ==> begins_with_role(
                #[trigger] blocks_from(rows, live, from)[i],
            ),
    decreases rows.len() - from,
{
    if 0 <= from < rows.len() {
        match opened_by(kind_at(rows, live, from)) {
            None => {
                lemma_blocks_begin_with_role(rows, live, from + 1);
                assert(blocks_from(rows, live, from) == blocks_from(rows, live, from + 1));
            },
            Some(block) => {
                let end = from + 1 + absorbed(rows, live, block, from + 1);
                lemma_absorbed_bound(rows, live, block, from + 1);
                lemma_blocks_begin_with_role(rows, live, end);
                let lines = block_lines(rows, block, from, end);
                lemma_block_lines_first(rows, block, from, end);
                lemma_join_begins(lines);
                let head = heading(block, rows[from]);
                let first = join_lines(lines);
                let role = match block {
                    Role::System => "system: "@,
                    Role::User => "user: "@,
                    Role::Assistant => "assistant: "@,
                };
                assert(role =~= head.subrange(0, role.len() as int));
                assert(role =~= first.subrange(0, role.len() as int)) by {
                    assert(head =~= first.subrange(0, head.len() as int));
                }
                assert(begins_with_role(first));
                let rest = blocks_from(rows, live, end);
                let all = blocks_from(rows, live, from);
                assert(all == seq![first] + rest);
                assert forall|i: int| 0 <= i < all.len() implies begins_with_role(
                    #[trigger] all[i],
                ) by {
                    if i > 0 {
                        assert(all[i] == rest[i - 1]);
                    }
                }
            },
        }
    }
}

/// Every message of a snapshot begins with its role: `system: `, `user: ` or
/// `assistant: `.
pub proof fn law_blocks_begin_with_role(screen: Seq<char>)
    ensures
        forall|i: int|
            0 <= i < candidate_blocks(screen).len() ==> begins_with_role(
                #[trigger] candidate_blocks(screen)[i],
            ),
{
    let lines = split_lines(screen);
    lemma_blocks_begin_with_role(trimmed_rows(lines), last_prompt_row(lines), 0);
}

/// Joining one more line adds a line feed and the line.
pub proof fn lemma_join_push(lines: Seq<Seq<char>>, line: Seq<char>)
    requires
        lines.len() >= 1,
    ensures
        join_lines(lines.push(line)) == join_lines(lines).push('\n') + line,
{
    assert(lines.push(line).drop_last() =~= lines);
}

/// The role of the message that a row of kind `row` opens, if it opens one.
pub fn block_opened_by(row: RowKind) -> (block: Option<Role>)
    ensures
        block == opened_by(row),
{
    match row {
        RowKind::Notice => Some(Role::System),
        RowKind::Tip => Some(Role::System),
        RowKind::User => Some(Role::User),
        RowKind::Assistant => Some(Role::Assistant),
        _ => None,
    }
}

/// Whether a row of kind `row` ends a message of role `block`.
pub fn row_ends_block(block: Role, row: RowKind) -> (ends: bool)
    ensures
        ends == ends_block(block, row),
{
    match row {
        RowKind::Blank => false,
        RowKind::Text => false,
        RowKind::Tip => match block {
            Role::System => true,
            _ => false,
        },
        _ => true,
    }
}

/// The first line of a message of role `block` that `row` opens.
fn heading_of(block: Role, row: &[char]) -> (line: Vec<char>)
    requires
        opened_by(row_kind(row@, false)) == Some(block),
    ensures
        line@ == heading(block, row@),
{
    let mut line: Vec<char> = Vec::new();
    match block {
        Role::System => {
            push_str(&mut line, "system: ");
            push_chars(&mut line, strip_space(row));
        },
        Role::User => {
            push_str(&mut line, "user: ");
            match strip_prompt_marker(row) {
                Some(content) => {
                    push_chars(&mut line, strip_trailing_space(content));
                },
                None => {},
            }
        },
        Role::Assistant => {
            push_str(&mut line, "assistant: ");
            match strip_prefix(row, "• ") {
                Some(content) => {
                    push_chars(&mut line, content);
                },
                None => {},
            }
        },
    }
    line
}

/// Whether `i` is the row of the input in progress.
pub fn is_live_row(live: Option<usize>, i: usize) -> (b: bool)
    ensures
        b == (live == Some(i)),
{
    match live {
        Some(p) => p == i,
        None => false,
    }
}

/// The messages that the lines of a snapshot show.
pub fn segment_lines(lines: &Vec<Vec<char>>) -> (blocks: Vec<Vec<char>>)
    ensures
        texts(blocks@) == blocks_from(
            trimmed_rows(texts(lines@)),
            last_prompt_row(texts(lines@)),
            0,
        ),
{
    let live = find_last_prompt_row(lines);
    let ghost rows = trimmed_rows(texts(lines@));
    let ghost live_row: Option<int> = last_prompt_row(texts(lines@));
    let n: usize = lines.len();
    let mut blocks: Vec<Vec<char>> = Vec::new();
    let mut i: usize = 0;
    while i < n
        invariant
            i <= n,
            n == lines.len(),
            rows == trimmed_rows(texts(lines@)),
            live_row == last_prompt_row(texts(lines@)),
            match live {
                Some(p) => live_row == Some(p as int),
                None => live_row is None,
            },
            texts(blocks@) + blocks_from(rows, live_row, i as int) == blocks_from(rows, live_row, 0),
        decreases n - i,
    {
        let row = strip_trailing_space(lines[i].as_slice());
        assert(row@ == rows[i as int]);
        let kind = classify_row(row, is_live_row(live, i));
        assert(kind == kind_at(rows, live_row, i as int));
        match block_opened_by(kind) {
            None => {
                i += 1;
            },
            Some(block) => {
                let ghost open = i as int;
                let ghost end = open + 1 + absorbed(rows, live_row, block, open + 1);
                let mut text = heading_of(block, row);
                let mut pending: bool = false;
                let mut j: usize = i + 1;
                loop
                    invariant_except_break
                        absorbed(rows, live_row, block, open + 1) == (j - open - 1) + absorbed(
                            rows,
                            live_row,
                            block,
                            j as int,
                        ),
                    invariant
                        open < j <= n,
                        n == lines.len(),
                        rows == trimmed_rows(texts(lines@)),
                        match live {
                            Some(p) => live_row == Some(p as int),
                            None => live_row is None,
                        },
                        end == open + 1 + absorbed(rows, live_row, block, open + 1),
                        text@ == join_lines(block_lines(rows, block, open, j as int)),
                        pending == is_blank(rows[j - 1]),
                    ensures
                        j == end,
                    decreases n - j,
                {
                    if j >= n {
                        break ;
                    }
                    let next = strip_trailing_space(lines[j].as_slice());
                    assert(next@ == rows[j as int]);
                    let next_kind = classify_row(next, is_live_row(live, j));
                    assert(next_kind == kind_at(rows, live_row, j as int));
                    if row_ends_block(block, next_kind) {
                        break ;
                    }
                    proof {
                        lemma_block_lines_first(rows, block, open, j as int);
                    }
                    match next_kind {
                        RowKind::Blank => {
                            pending = true;
                        },
                        _ => {
                            let ghost so_far = block_lines(rows, block, open, j as int);
                            if pending {
                                text.push('\n');
                                proof {
                                    lemma_join_push(so_far, Seq::empty());
                                    lemma_join_push(
                                        so_far.push(Seq::empty()),
                                        continuation(block, next@),
                                    );
                                    assert(join_lines(so_far.push(Seq::empty())) =~= join_lines(
                                        so_far,
                                    ).push('\n'));
                                }
                            } else {
                                proof {
                                    lemma_join_push(so_far, continuation(block, next@));
                                }
                            }
                            text.push('\n');
                            match block {
                                Role::System => {
                                    push_chars(&mut text, next);
                                },
                                _ => {
                                    push_chars(&mut text, strip_hanging_indent(next));
                                },
                            }
                            pending = false;
                        },
                    }
                    j += 1;
                }
                let ghost before = texts(blocks@);
                blocks.push(text);
                proof {
                    assert(texts(blocks@) =~= before.push(text@));
                    assert(texts(blocks@) + blocks_from(rows, live_row, end) =~= before + (
                    seq![text@] + blocks_from(rows, live_row, end)));
                }
                i = j;
            },
        }
    }
    assert(texts(blocks@) + blocks_from(rows, live_row, n as int) =~= texts(blocks@));
    blocks
}

/// The messages that a snapshot shows, each with its role before it (`system: `,
/// `user: ` or `assistant: `), in the order in which they stand on the screen.
pub fn extract_transcript_candidates(screen: &str) -> (out: Vec<String>)
    ensures
        out.deep_view() == candidate_blocks(screen@),
{
    let chars = to_chars(screen);
    let lines = lines_of(chars.as_slice());
    let blocks = segment_lines(&lines);
    to_strings(&blocks)
}

} // verus!
