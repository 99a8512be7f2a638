//! The transcript printer: which messages of a snapshot are new in a session.

use crate::rows::{find_last_prompt_row, is_busy, live_prompt_row};
use crate::segment::{candidate_blocks, segment_lines};
use crate::text::{
    copy_chars, has_infix, is_space, is_whitespace, lines_of, same_chars, strip_space, texts,
    to_chars, to_text, trim,
};
use vstd::prelude::*;

verus! {

/// `s` with every run of whitespace replaced by one space.
pub open spec fn collapse_space(s: Seq<char>) -> Seq<char>
    decreases s.len(),
{
    if s.len() == 0 {
        s
    } else {
        let before = collapse_space(s.drop_last());
        if !is_space(s.last()) {
            before.push(s.last())
        } else if s.len() >= 2 && is_space(s[s.len() - 2]) {
            before
        } else {
            before.push(' ')
        }
    }
}

/// The key under which a message is remembered: its text with every run of
/// whitespace replaced by one space, and without whitespace at either end.
pub open spec fn dedup_key(s: Seq<char>) -> Seq<char> {
    trim(collapse_space(s))
}

/// The keys of the given messages.
pub open spec fn key_set(blocks: Seq<Seq<char>>) -> Set<Seq<char>> {
    Set::new(|k: Seq<char>| exists|i: int| 0 <= i < blocks.len() && k == dedup_key(#[trigger] blocks[i]))
}

/// The messages among `blocks` that are new, in order: those whose key is neither
/// in `seen` nor the key of an earlier message of `blocks`.
pub open spec fn unseen(blocks: Seq<Seq<char>>, seen: Set<Seq<char>>) -> Seq<Seq<char>>
    decreases blocks.len(),
{
    if blocks.len() == 0 {
        Seq::empty()
    } else {
        let before = unseen(blocks.drop_last(), seen);
        let key = dedup_key(blocks.last());
        if seen.contains(key) || key_set(blocks.drop_last()).contains(key) {
            before
        } else {
            before.push(blocks.last())
        }
    }
}

/// The state of a transcript printer as plain values.
pub ghost struct PrinterState {
    /// The keys of all messages emitted so far.
    pub keys: Set<Seq<char>>,
    /// Whether some snapshot so far showed a prompt marker row.
    pub saw_prompt: bool,
    /// The snapshot seen last.
    pub last_screen: Seq<char>,
}

/// The state of a printer at the start of a session.
pub open spec fn printer_start() -> PrinterState {
    PrinterState { keys: Set::empty(), saw_prompt: false, last_screen: Seq::empty() }
}

/// What a printer in state `st` does with a snapshot: its next state and the messages
/// that it emits.
///
/// A snapshot equal to the one before it changes nothing and emits nothing. Any
/// other snapshot is remembered, and a prompt marker row in it unlocks the printer for
/// good. While the printer is locked, or when the snapshot shows the busy phrase,
/// nothing is emitted. Otherwise the messages of the snapshot whose keys are new
/// are emitted in order, and the keys of all its messages are remembered.
pub open spec fn printer_step(st: PrinterState, screen: Seq<char>) -> (PrinterState, Seq<Seq<char>>) {
    if screen == st.last_screen {
        (st, Seq::empty())
    } else {
        let saw_prompt = st.saw_prompt || live_prompt_row(screen) is Some;
        if !saw_prompt || is_busy(screen) {
            (PrinterState { keys: st.keys, saw_prompt, last_screen: screen }, Seq::empty())
        } else {
            let blocks = candidate_blocks(screen);
            (
                PrinterState { keys: st.keys.union(key_set(blocks)), saw_prompt, last_screen: screen },
                unseen(blocks, st.keys),
            )
        }
    }
}

/// The keys of one more message are the keys before and its key.
pub proof fn lemma_key_set_push(blocks: Seq<Seq<char>>, block: Seq<char>)
    ensures
        key_set(blocks.push(block)) == key_set(blocks).insert(dedup_key(block)),
{
    let more = blocks.push(block);
    assert forall|k: Seq<char>| key_set(more).contains(k) implies key_set(blocks).insert(
        dedup_key(block),
    ).contains(k) by {
        let i = choose|i: int| 0 <= i < more.len() && k == dedup_key(#[trigger] more[i]);
        if i < blocks.len() {
            assert(more[i] == blocks[i]);
        }
    }
    assert forall|k: Seq<char>|
        key_set(blocks).insert(dedup_key(block)).contains(k) implies key_set(more).contains(k) by {
        if key_set(blocks).contains(k) {
            let i = choose|i: int| 0 <= i < blocks.len() && k == dedup_key(#[trigger] blocks[i]);
            assert(more[i] == blocks[i]);
        } else {
            assert(more[blocks.len() as int] == block);
        }
    }
    assert(key_set(more) =~= key_set(blocks).insert(dedup_key(block)));
}

/// The transcript printer of one session. It remembers the key of every message that it
/// has emitted, whether a prompt marker row was ever shown, and the last snapshot.
pub struct TranscriptPrinter {
    printed_keys: Vec<Vec<char>>,
    saw_prompt: bool,
    last_screen: Vec<char>,
}

impl View for TranscriptPrinter {
    type V = PrinterState;

    closed spec fn view(&self) -> PrinterState {
        PrinterState {
            keys: texts(self.printed_keys@).to_set(),
            saw_prompt: self.saw_prompt,
            last_screen: self.last_screen@,
        }
    }
}

/// The key under which a message is remembered.
pub fn transcript_key(s: &[char]) -> (key: Vec<char>)
    ensures
        key@ == dedup_key(s@),
{
    let mut out: Vec<char> = Vec::new();
    let mut prev_ws: bool = false;
    let mut i: usize = 0;
    while i < s.len()
        invariant
            i <= s.len(),
            out@ == collapse_space(s@.take(i as int)),
            prev_ws == (i > 0 && is_space(s@[i - 1])),
        decreases s.len() - i,
    {
        assert(s@.take(i as int + 1).drop_last() =~= s@.take(i as int));
        let ws = is_whitespace(s[i]);
        if ws {
            if !prev_ws {
                out.push(' ');
            }
        } else {
            out.push(s[i]);
        }
        prev_ws = ws;
        i += 1;
    }
    assert(s@.take(s.len() as int) =~= s@);
    copy_chars(strip_space(out.as_slice()))
}

impl TranscriptPrinter {
    /// The printer is well formed: no key is remembered twice.
    pub closed spec fn wf(&self) -> bool {
        texts(self.printed_keys@).no_duplicates()
    }

    /// The number of keys that the printer holds.
    pub closed spec fn stored_keys(&self) -> nat {
        self.printed_keys@.len()
    }

    /// A well-formed printer holds each key once: it holds as many keys as its state
    /// has different keys, however many snapshots it has taken.
    pub proof fn law_one_key_per_message(&self)
        requires
            self.wf(),
        ensures
            self@.keys.finite(),
            self.stored_keys() == self@.keys.len(),
    {
        let keys = texts(self.printed_keys@);
        keys.unique_seq_to_set();
        vstd::seq_lib::seq_to_set_is_finite(keys);
    }

    /// A printer at the start of a session.
    pub fn new() -> (printer: Self)
        ensures
            printer.wf(),
            printer@ == printer_start(),
    {
        let printer = TranscriptPrinter {
            printed_keys: Vec::new(),
            saw_prompt: false,
            last_screen: Vec::new(),
        };
        assert(printer@.keys =~= Set::empty());
        printer
    }

    /// Whether `key` is remembered.
    fn has_key(&self, key: &[char]) -> (found: bool)
        ensures
            found == self@.keys.contains(key@),
    {
        let mut i: usize = 0;
        while i < self.printed_keys.len()
            invariant
                i <= self.printed_keys.len(),
                forall|j: int| 0 <= j < i ==> texts(self.printed_keys@)[j] != key@,
            decreases self.printed_keys.len() - i,
        {
            if same_chars(self.printed_keys[i].as_slice(), key) {
                assert(texts(self.printed_keys@)[i as int] == key@);
                return true;
            }
            i += 1;
        }
        false
    }

    /// Takes the next snapshot of the session and returns the messages that are to
    /// be emitted for it, each with its role before it.
    pub fn on_screen(&mut self, screen: &str) -> (emitted: Vec<String>)
        requires
            old(self).wf(),
        ensures
            final(self).wf(),
            final(self)@ == printer_step(old(self)@, screen@).0,
            emitted.deep_view() == printer_step(old(self)@, screen@).1,
            !final(self)@.saw_prompt ==> emitted.len() == 0,
            is_busy(screen@) ==> emitted.len() == 0,
    {
        let chars = to_chars(screen);
        if same_chars(chars.as_slice(), self.last_screen.as_slice()) {
            return Vec::new();
        }
        let lines = lines_of(chars.as_slice());
        let has_prompt: bool = find_last_prompt_row(&lines).is_some();
        let busy: bool = has_infix(chars.as_slice(), "esc to interrupt");
        self.last_screen = chars;
        if has_prompt {
            self.saw_prompt = true;
        }
        if !self.saw_prompt || busy {
            return Vec::new();
        }
        let candidates = segment_lines(&lines);
        let ghost blocks = texts(candidates@);
        let ghost seen = old(self)@.keys;
        let mut emitted: Vec<String> = Vec::new();
        let mut i: usize = 0;
        assert(key_set(blocks.take(0)) =~= Set::empty());
        assert(seen.union(Set::empty()) =~= seen);
        while i < candidates.len()
            invariant
                i <= candidates.len(),
                blocks == texts(candidates@),
                self.saw_prompt,
                self.last_screen@ == screen@,
                texts(self.printed_keys@).no_duplicates(),
                self@.keys == seen.union(key_set(blocks.take(i as int))),
                emitted.deep_view() == unseen(blocks.take(i as int), seen),
            decreases candidates.len() - i,
        {
            let key = transcript_key(candidates[i].as_slice());
            proof {
                assert(blocks.take(i as int + 1).drop_last() =~= blocks.take(i as int));
                assert(blocks.take(i as int + 1) =~= blocks.take(i as int).push(blocks[i as int]));
                lemma_key_set_push(blocks.take(i as int), blocks[i as int]);
            }
            if !self.has_key(key.as_slice()) {
                let ghost known = texts(self.printed_keys@);
                let ghost shown = emitted.deep_view();
                self.printed_keys.push(key);
                emitted.push(to_text(candidates[i].as_slice()));
                proof {
                    assert(texts(self.printed_keys@) =~= known.push(key@));
                    assert(known.push(key@).to_set() =~= known.to_set().insert(key@)) by {
                        assert forall|k: Seq<char>| known.to_set().insert(key@).contains(
                            k,
                        ) implies known.push(key@).contains(k) by {
                            if k == key@ {
                                assert(known.push(key@)[known.len() as int] == k);
                            } else {
                                let j = choose|j: int| 0 <= j < known.len() && known[j] == k;
                                assert(known.push(key@)[j] == k);
                            }
                        }
                    }
                    assert(emitted.deep_view() =~= shown.push(blocks[i as int]));
                    assert(self@.keys =~= seen.union(key_set(blocks.take(i as int + 1))));
                }
            } else {
                proof {
                    assert(self@.keys =~= seen.union(key_set(blocks.take(i as int + 1))));
                }
            }
            i += 1;
        }
        assert(blocks.take(candidates.len() as int) =~= blocks);
        emitted
    }
}

/// `block` with a line feed at its end: `block` itself if it has one there, and
/// else `block` and a line feed.
pub open spec fn line_ended(block: Seq<char>) -> Seq<char> {
    if block.len() > 0 && block.last() == '\n' {
        block
    } else {
        block.push('\n')
    }
}

/// The chunk in which a message is handed to a sink that reads lines: the message
/// with a line feed at its end.
pub fn end_line(block: String) -> (chunk: String)
    ensures
        chunk@ == line_ended(block@),
{
    let chars = to_chars(block.as_str());
    let mut chunk = block;
    if chars.len() == 0 || chars[chars.len() - 1] != '\n' {
        chunk.push('\n');
    }
    chunk
}

/// What a printer that starts in state `st` does with the snapshots `frames`, taken
/// in order: its last state and all messages that it emits, in order.
pub open spec fn printer_run(st: PrinterState, frames: Seq<Seq<char>>) -> (
    PrinterState,
    Seq<Seq<char>>,
)
    decreases frames.len(),
{
    if frames.len() == 0 {
        (st, Seq::empty())
    } else {
        let (mid, out) = printer_run(st, frames.drop_last());
        let (end, more) = printer_step(mid, frames.last());
        (end, out + more)
    }
}

/// New messages have keys that were not seen, that differ from one another, and
/// that are keys of the messages given.
pub proof fn lemma_unseen_keys(blocks: Seq<Seq<char>>, seen: Set<Seq<char>>)
    ensures
        forall|i: int|
            0 <= i < unseen(blocks, seen).len() ==> !seen.contains(
                dedup_key(#[trigger] unseen(blocks, seen)[i]),
            ) && key_set(blocks).contains(dedup_key(unseen(blocks, seen)[i])),
        forall|i: int, j: int|
            0 <= i < j < unseen(blocks, seen).len() ==> dedup_key(
                #[trigger] unseen(blocks, seen)[i],
            ) != dedup_key(#[trigger] unseen(blocks, seen)[j]),
        key_set(blocks).subset_of(seen) ==> unseen(blocks, seen).len() == 0,
    decreases blocks.len(),
{
    if blocks.len() > 0 {
        let init = blocks.drop_last();
        let last = blocks.last();
        lemma_unseen_keys(init, seen);
        assert(blocks =~= init.push(last));
        lemma_key_set_push(init, last);
        let before = unseen(init, seen);
        let out = unseen(blocks, seen);
        assert forall|i: int| 0 <= i < out.len() implies !seen.contains(
            dedup_key(#[trigger] out[i]),
        ) && key_set(blocks).contains(dedup_key(out[i])) by {
            if i < before.len() {
                assert(out[i] == before[i]);
            }
        }
        assert forall|i: int, j: int| 0 <= i < j < out.len() implies dedup_key(#[trigger] out[i])
            != dedup_key(#[trigger] out[j]) by {
            assert(out[i] == before[i]);
            if j < before.len() {
                assert(out[j] == before[j]);
            }
        }
        if key_set(blocks).subset_of(seen) {
            assert(key_set(blocks).contains(dedup_key(last)));
            assert forall|k: Seq<char>| key_set(init).contains(k) implies seen.contains(k) by {
                assert(key_set(blocks).contains(k));
            }
        }
    }
}

/// A message is new if its key was not seen and no earlier message has it.
pub proof fn lemma_unseen_has_new(blocks: Seq<Seq<char>>, seen: Set<Seq<char>>, i: int)
    requires
        0 <= i < blocks.len(),
        !seen.contains(dedup_key(blocks[i])),
        forall|j: int| 0 <= j < i ==> dedup_key(#[trigger] blocks[j]) != dedup_key(blocks[i]),
    ensures
        unseen(blocks, seen).contains(blocks[i]),
    decreases blocks.len(),
{
    let init = blocks.drop_last();
    let before = unseen(init, seen);
    let out = unseen(blocks, seen);
    if i == blocks.len() - 1 {
        assert(!key_set(init).contains(dedup_key(blocks[i]))) by {
            if key_set(init).contains(dedup_key(blocks[i])) {
                let j = choose|j: int|
                    0 <= j < init.len() && dedup_key(blocks[i]) == dedup_key(#[trigger] init[j]);
                assert(init[j] == blocks[j]);
            }
        }
        assert(out[out.len() - 1] == blocks[i]);
    } else {
        assert(init[i] == blocks[i]);
        assert forall|j: int| 0 <= j < i implies dedup_key(#[trigger] init[j]) != dedup_key(
            init[i],
        ) by {
            assert(init[j] == blocks[j]);
        }
        lemma_unseen_has_new(init, seen, i);
        let k = choose|k: int| 0 <= k < before.len() && before[k] == blocks[i];
        assert(out[k] == blocks[i]);
    }
}

/// Making a run of whitespace longer by one character leaves the collapsed text as
/// it was.
pub proof fn lemma_collapse_longer_run(s: Seq<char>, i: int, w: char)
    requires
        0 <= i <= s.len(),
        is_space(w),
        (i > 0 && is_space(s[i - 1])) || (i < s.len() && is_space(s[i])),
    ensures
        collapse_space(s.insert(i, w)) == collapse_space(s),
    decreases s.len(),
{
    let t = s.insert(i, w);
    let n = s.len() as int;
    assert(t.len() == n + 1);
    assert(t[i] == w);
    if i == n {
        assert(t.drop_last() =~= s);
        assert(t.last() == w);
        assert(t[t.len() - 2] == s[n - 1]);
    } else {
        let init = s.drop_last();
        let u = init.insert(i, w);
        assert(t.drop_last() =~= u);
        assert(t.last() == s.last());
        if i == n - 1 && !(i > 0 && is_space(s[i - 1])) {
            assert(u.drop_last() =~= init);
            assert(u.last() == w);
            assert(t[t.len() - 2] == w);
            if n >= 2 {
                assert(u[u.len() - 2] == s[n - 2]);
            }
            assert(collapse_space(t) == collapse_space(u));
            assert(collapse_space(u) == collapse_space(init).push(' '));
            assert(collapse_space(s) == collapse_space(init).push(' '));
        } else {
            if i < n - 1 {
                assert(init[i] == s[i]);
                assert(t[t.len() - 2] == s[n - 2]);
            } else {
                assert(t[t.len() - 2] == w);
            }
            if i > 0 {
                assert(init[i - 1] == s[i - 1]);
            }
            lemma_collapse_longer_run(init, i, w);
            assert(collapse_space(u) == collapse_space(init));
        }
    }
}

/// Whitespace-insensitive keys: a text in which a run of whitespace is longer by
/// one character, whichever whitespace character it is, has the same key.
pub proof fn law_longer_run_same_key(s: Seq<char>, i: int, w: char)
    requires
        0 <= i <= s.len(),
        is_space(w),
        (i > 0 && is_space(s[i - 1])) || (i < s.len() && is_space(s[i])),
    ensures
        dedup_key(s.insert(i, w)) == dedup_key(s),
{
    lemma_collapse_longer_run(s, i, w);
}

/// A message whose key is remembered is not emitted again, whatever the snapshot.
pub proof fn law_known_key_not_emitted(st: PrinterState, screen: Seq<char>, block: Seq<char>)
    requires
        st.keys.contains(dedup_key(block)),
    ensures
        !printer_step(st, screen).1.contains(block),
{
    let out = printer_step(st, screen).1;
    if out.contains(block) {
        lemma_unseen_keys(candidate_blocks(screen), st.keys);
        let i = choose|i: int| 0 <= i < out.len() && out[i] == block;
        assert(!st.keys.contains(dedup_key(out[i])));
    }
}

/// An unlocked printer emits every message of a new snapshot that is not busy,
/// provided that the key of the message is not remembered and that no earlier
/// message of the snapshot has it.
pub proof fn law_new_message_is_emitted(st: PrinterState, screen: Seq<char>, i: int)
    requires
        screen != st.last_screen,
        st.saw_prompt || live_prompt_row(screen) is Some,
        !is_busy(screen),
        0 <= i < candidate_blocks(screen).len(),
        !st.keys.contains(dedup_key(candidate_blocks(screen)[i])),
        forall|j: int|
            0 <= j < i ==> dedup_key(#[trigger] candidate_blocks(screen)[j]) != dedup_key(
                candidate_blocks(screen)[i],
            ),
    ensures
        printer_step(st, screen).1.contains(candidate_blocks(screen)[i]),
{
    lemma_unseen_has_new(candidate_blocks(screen), st.keys, i);
}

/// Whitespace-insensitive deduplication: once a message was emitted, no message
/// with the same key is emitted for the next snapshot, whatever that snapshot is.
pub proof fn law_same_key_not_emitted_again(
    st: PrinterState,
    first: Seq<char>,
    second: Seq<char>,
    a: Seq<char>,
    b: Seq<char>,
)
    requires
        printer_step(st, first).1.contains(a),
        dedup_key(b) == dedup_key(a),
    ensures
        !printer_step(printer_step(st, first).0, second).1.contains(b),
{
    let out = printer_step(st, first).1;
    let i = choose|i: int| 0 <= i < out.len() && out[i] == a;
    law_step_remembers(st, first);
    assert(printer_step(st, first).0.keys.contains(dedup_key(out[i])));
    law_known_key_not_emitted(printer_step(st, first).0, second, b);
}

/// A snapshot emits nothing once the keys of all its messages are remembered, at
/// whatever later time it is taken again.
pub proof fn law_settled_snapshot_is_silent(st: PrinterState, screen: Seq<char>)
    requires
        key_set(candidate_blocks(screen)).subset_of(st.keys),
    ensures
        printer_step(st, screen).1.len() == 0,
        printer_step(st, screen).0.keys == st.keys,
{
    lemma_unseen_keys(candidate_blocks(screen), st.keys);
    assert(st.keys.union(key_set(candidate_blocks(screen))) =~= st.keys);
}

/// After a snapshot was taken by an unlocked printer while not busy, the keys of
/// all its messages are remembered.
pub proof fn law_taken_snapshot_is_settled(st: PrinterState, screen: Seq<char>)
    requires
        screen != st.last_screen,
        st.saw_prompt || live_prompt_row(screen) is Some,
        !is_busy(screen),
    ensures
        key_set(candidate_blocks(screen)).subset_of(printer_step(st, screen).0.keys),
{
}

/// Idempotence: a snapshot that is taken again at once emits nothing and leaves the
/// state as it is.
pub proof fn law_replay_emits_nothing(st: PrinterState, screen: Seq<char>)
    ensures
        printer_step(printer_step(st, screen).0, screen) == (
            printer_step(st, screen).0,
            Seq::<Seq<char>>::empty(),
        ),
{
}

/// A step forgets no key and never locks the printer again, and the key of every
/// message that it emits is remembered after it and was not remembered before it.
pub proof fn law_step_remembers(st: PrinterState, screen: Seq<char>)
    ensures
        st.keys.subset_of(printer_step(st, screen).0.keys),
        st.saw_prompt ==> printer_step(st, screen).0.saw_prompt,
        forall|i: int|
            0 <= i < printer_step(st, screen).1.len() ==> printer_step(st, screen).0.keys.contains(
                dedup_key(#[trigger] printer_step(st, screen).1[i]),
            ) && !st.keys.contains(dedup_key(printer_step(st, screen).1[i])),
        forall|i: int, j: int|
            0 <= i < j < printer_step(st, screen).1.len() ==> dedup_key(
                #[trigger] printer_step(st, screen).1[i],
            ) != dedup_key(#[trigger] printer_step(st, screen).1[j]),
{
    lemma_unseen_keys(candidate_blocks(screen), st.keys);
}

/// At most once per session: over any sequence of snapshots, no two emitted
/// messages have the same key, none has a key that was remembered at the start, and
/// the key of each is remembered at the end.
pub proof fn law_each_key_emitted_once(st: PrinterState, frames: Seq<Seq<char>>)
    ensures
        st.keys.subset_of(printer_run(st, frames).0.keys),
        forall|i: int|
            0 <= i < printer_run(st, frames).1.len() ==> printer_run(st, frames).0.keys.contains(
                dedup_key(#[trigger] printer_run(st, frames).1[i]),
            ) && !st.keys.contains(dedup_key(printer_run(st, frames).1[i])),
        forall|i: int, j: int|
            0 <= i < j < printer_run(st, frames).1.len() ==> dedup_key(
                #[trigger] printer_run(st, frames).1[i],
            ) != dedup_key(#[trigger] printer_run(st, frames).1[j]),
    decreases frames.len(),
{
    if frames.len() > 0 {
        law_each_key_emitted_once(st, frames.drop_last());
        let (mid, out) = printer_run(st, frames.drop_last());
        law_step_remembers(mid, frames.last());
        let (end, more) = printer_step(mid, frames.last());
        let all = printer_run(st, frames).1;
        assert(all == out + more);
        assert forall|i: int| 0 <= i < all.len() implies end.keys.contains(
            dedup_key(#[trigger] all[i]),
        ) && !st.keys.contains(dedup_key(all[i])) by {
            if i < out.len() {
                assert(all[i] == out[i]);
            } else {
                assert(all[i] == more[i - out.len()]);
            }
        }
        assert forall|i: int, j: int| 0 <= i < j < all.len() implies dedup_key(#[trigger] all[i])
            != dedup_key(#[trigger] all[j]) by {
            if j < out.len() {
                assert(all[i] == out[i]);
                assert(all[j] == out[j]);
            } else if i < out.len() {
                assert(all[i] == out[i]);
                assert(all[j] == more[j - out.len()]);
                assert(mid.keys.contains(dedup_key(out[i])));
            } else {
                assert(all[i] == more[i - out.len()]);
                assert(all[j] == more[j - out.len()]);
            }
        }
    }
}

/// Gating: as long as no snapshot shows a prompt marker row, a printer that has
/// seen none emits nothing.
pub proof fn law_silent_until_prompt(st: PrinterState, frames: Seq<Seq<char>>)
    requires
        !st.saw_prompt,
        forall|i: int| 0 <= i < frames.len() ==> live_prompt_row(#[trigger] frames[i]) is None,
    ensures
        printer_run(st, frames).1.len() == 0,
        !printer_run(st, frames).0.saw_prompt,
        printer_run(st, frames).0.keys == st.keys,
    decreases frames.len(),
{
    if frames.len() > 0 {
        let init = frames.drop_last();
        assert forall|i: int| 0 <= i < init.len() implies live_prompt_row(#[trigger] init[i])
            is None by {
            assert(init[i] == frames[i]);
        }
        law_silent_until_prompt(st, init);
        assert(live_prompt_row(frames[frames.len() - 1]) is None);
    }
}

/// Busy suppression: a snapshot that shows the busy phrase emits nothing, and no
/// key is remembered for it.
pub proof fn law_busy_emits_nothing(st: PrinterState, screen: Seq<char>)
    requires
        is_busy(screen),
    ensures
        printer_step(st, screen).1.len() == 0,
        printer_step(st, screen).0.keys == st.keys,
{
}

} // verus!
