//! The delta emitter: what a new chat text adds to the one before it.

use crate::text::{to_chars, to_text};
use vstd::prelude::*;
use vstd::slice::slice_subrange;

verus! {

/// How a chat text relates to the one before it.
#[derive(Debug, Clone, Copy, PartialEq, Eq, Structural)]
pub enum ChatDeltaKind {
    /// The first text of the session.
    Initial,
    /// The text before it, and more.
    Append,
    /// A text that does not begin with the one before it.
    Rewrite,
    /// The text before it, unchanged.
    NoChange,
}

/// What the emitter reports for one chat text.
#[derive(Debug, Clone, PartialEq, Eq)]
pub struct ChatDeltaUpdate {
    /// How the text relates to the one before it.
    pub kind: ChatDeltaKind,
    /// What the text adds; empty unless `kind` is `Initial` or `Append`.
    pub delta: String,
}

/// An update as plain values.
pub ghost struct DeltaUpdate {
    pub kind: ChatDeltaKind,
    pub delta: Seq<char>,
}

impl View for ChatDeltaUpdate {
    type V = DeltaUpdate;

    open spec fn view(&self) -> DeltaUpdate {
        DeltaUpdate { kind: self.kind, delta: self.delta@ }
    }
}

/// The delta emitter of one session.
pub struct ChatDeltaEmitter {
    prev: Vec<char>,
    /// How many rewrites were reported.
    pub rewrite_events: u64,
    /// How many characters all deltas so far hold together.
    pub total_emitted_chars: u64,
    /// How many characters the last delta holds.
    pub last_delta_chars: u64,
}

/// The state of a delta emitter as plain values.
pub ghost struct DeltaState {
    /// The chat text seen last.
    pub prev: Seq<char>,
    pub rewrite_events: nat,
    pub total_emitted_chars: nat,
    pub last_delta_chars: nat,
}

impl View for ChatDeltaEmitter {
    type V = DeltaState;

    closed spec fn view(&self) -> DeltaState {
        DeltaState {
            prev: self.prev@,
            rewrite_events: self.rewrite_events as nat,
            total_emitted_chars: self.total_emitted_chars as nat,
            last_delta_chars: self.last_delta_chars as nat,
        }
    }
}

/// The state of an emitter at the start of a session.
pub open spec fn delta_start() -> DeltaState {
    DeltaState {
        prev: Seq::empty(),
        rewrite_events: 0,
        total_emitted_chars: 0,
        last_delta_chars: 0,
    }
}

/// The number of characters that `a` and `b` have in common at their start.
pub open spec fn common_prefix(a: Seq<char>, b: Seq<char>) -> nat
    decreases a.len(),
{
    if a.len() > 0 && b.len() > 0 && a.first() == b.first() {
        1 + common_prefix(a.drop_first(), b.drop_first())
    } else {
        0
    }
}

/// How `text` relates to `prev`, the text before it.
pub open spec fn delta_kind(prev: Seq<char>, text: Seq<char>) -> ChatDeltaKind {
    if text == prev {
        ChatDeltaKind::NoChange
    } else if prev.len() == 0 {
        ChatDeltaKind::Initial
    } else if prev.is_prefix_of(text) {
        ChatDeltaKind::Append
    } else {
        ChatDeltaKind::Rewrite
    }
}

/// What `text` adds to `prev`: all of it if it is the first text, what follows
/// `prev` if it begins with `prev`, and nothing otherwise.
pub open spec fn delta_text(prev: Seq<char>, text: Seq<char>) -> Seq<char> {
    match delta_kind(prev, text) {
        ChatDeltaKind::Initial => text,
        ChatDeltaKind::Append => text.skip(prev.len() as int),
        ChatDeltaKind::Rewrite => Seq::empty(),
        ChatDeltaKind::NoChange => Seq::empty(),
    }
}

/// What the emitter reports for `text` after `prev`.
pub open spec fn delta_update(prev: Seq<char>, text: Seq<char>) -> DeltaUpdate {
    DeltaUpdate { kind: delta_kind(prev, text), delta: delta_text(prev, text) }
}

/// The state of an emitter after it has taken `text` in state `st`. It remembers
/// `text`. A delta is counted in the total and as the last delta; a rewrite is
/// counted as one and, like an unchanged text, sets the last delta to nothing.
pub open spec fn delta_step(st: DeltaState, text: Seq<char>) -> DeltaState {
    let added = delta_text(st.prev, text).len();
    DeltaState {
        prev: text,
        rewrite_events: if delta_kind(st.prev, text) == ChatDeltaKind::Rewrite {
            st.rewrite_events + 1
        } else {
            st.rewrite_events
        },
        total_emitted_chars: st.total_emitted_chars + added,
        last_delta_chars: added,
    }
}

/// Whether the counters of an emitter in state `st` have room for what `text` adds
/// to them: the characters of its delta, and one rewrite if it is one.
pub open spec fn has_room(st: DeltaState, text: Seq<char>) -> bool {
    st.total_emitted_chars + delta_text(st.prev, text).len() <= u64::MAX && (delta_kind(
        st.prev,
        text,
    ) == ChatDeltaKind::Rewrite ==> st.rewrite_events < u64::MAX)
}

/// Two texts share all of the first exactly if the second begins with the first.
pub proof fn lemma_common_prefix(a: Seq<char>, b: Seq<char>)
    ensures
        common_prefix(a, b) <= a.len(),
        common_prefix(a, b) <= b.len(),
        a.take(common_prefix(a, b) as int) == b.take(common_prefix(a, b) as int),
        common_prefix(a, b) < a.len() && common_prefix(a, b) < b.len() ==> a[common_prefix(
            a,
            b,
        ) as int] != b[common_prefix(a, b) as int],
        common_prefix(a, b) == a.len() <==> a.is_prefix_of(b),
    decreases a.len(),
{
    let k = common_prefix(a, b);
    if a.len() > 0 && b.len() > 0 && a.first() == b.first() {
        let a1 = a.drop_first();
        let b1 = b.drop_first();
        lemma_common_prefix(a1, b1);
        let k1 = common_prefix(a1, b1);
        assert(a.take(k as int) =~= seq![a.first()] + a1.take(k1 as int));
        assert(b.take(k as int) =~= seq![b.first()] + b1.take(k1 as int));
        if k < a.len() && k < b.len() {
            assert(a[k as int] == a1[k1 as int]);
            assert(b[k as int] == b1[k1 as int]);
        }
        if a1.is_prefix_of(b1) {
            assert(a =~= b.subrange(0, a.len() as int)) by {
                assert forall|i: int| 0 <= i < a.len() implies a[i] == b[i] by {
                    if i > 0 {
                        assert(a[i] == a1[i - 1]);
                        assert(b1.subrange(0, a1.len() as int)[i - 1] == b1[i - 1]);
                    }
                }
            }
        }
        if a.is_prefix_of(b) {
            assert(a1 =~= b1.subrange(0, a1.len() as int)) by {
                assert forall|i: int| 0 <= i < a1.len() implies a1[i] == b1[i] by {
                    assert(b.subrange(0, a.len() as int)[i + 1] == b[i + 1]);
                }
            }
        }
    } else {
        assert(a.take(0) =~= b.take(0));
        if a.len() > 0 && a.is_prefix_of(b) {
            assert(b.subrange(0, a.len() as int)[0] == b[0]);
        }
    }
}

/// The number of characters that `a` and `b` have in common at their start.
pub fn common_prefix_len(a: &[char], b: &[char]) -> (k: usize)
    ensures
        k == common_prefix(a@, b@),
{
    let mut k: usize = 0;
    assert(a@.skip(0) =~= a@);
    assert(b@.skip(0) =~= b@);
    while k < a.len() && k < b.len() && a[k] == b[k]
        invariant
            k <= a.len(),
            k <= b.len(),
            common_prefix(a@, b@) == k + common_prefix(a@.skip(k as int), b@.skip(k as int)),
        decreases a.len() - k,
    {
        assert(a@.skip(k as int).drop_first() =~= a@.skip(k as int + 1));
        assert(b@.skip(k as int).drop_first() =~= b@.skip(k as int + 1));
        k += 1;
    }
    k
}

impl ChatDeltaEmitter {
    /// An emitter at the start of a session.
    pub fn new() -> (emitter: Self)
        ensures
            emitter@ == delta_start(),
    {
        ChatDeltaEmitter {
            prev: Vec::new(),
            rewrite_events: 0,
            total_emitted_chars: 0,
            last_delta_chars: 0,
        }
    }

    /// Whether the counters of the emitter have room for what `text` adds to them.
    fn room_for(&self, text: &[char], shared: usize) -> (room: bool)
        requires
            shared == common_prefix(self.prev@, text@),
        ensures
            room == has_room(self@, text@),
    {
        proof {
            lemma_common_prefix(self.prev@, text@);
            if shared == self.prev.len() && shared == text.len() {
                assert(self.prev@ =~= text@);
            }
        }
        if shared == self.prev.len() && shared == text.len() {
            true
        } else if self.prev.len() == 0 {
            text.len() as u64 <= u64::MAX - self.total_emitted_chars
        } else if shared == self.prev.len() {
            (text.len() - shared) as u64 <= u64::MAX - self.total_emitted_chars
        } else {
            self.rewrite_events < u64::MAX
        }
    }

    /// Takes `text`, of which the first `shared` characters are those that it has
    /// in common with the text before it.
    fn take(&mut self, text: Vec<char>, shared: usize) -> (update: ChatDeltaUpdate)
        requires
            shared == common_prefix(old(self).prev@, text@),
            has_room(old(self)@, text@),
        ensures
            update@ == delta_update(old(self)@.prev, text@),
            final(self)@ == delta_step(old(self)@, text@),
    {
        proof {
            lemma_common_prefix(self.prev@, text@);
            if shared == self.prev.len() && shared == text.len() {
                assert(self.prev@ =~= text@);
            }
        }
        if shared == self.prev.len() && shared == text.len() {
            self.last_delta_chars = 0;
            return ChatDeltaUpdate { kind: ChatDeltaKind::NoChange, delta: String::new() };
        }
        if self.prev.len() == 0 {
            let delta = to_text(text.as_slice());
            let delta_chars: u64 = text.len() as u64;
            self.prev = text;
            self.total_emitted_chars += delta_chars;
            self.last_delta_chars = delta_chars;
            return ChatDeltaUpdate { kind: ChatDeltaKind::Initial, delta };
        }
        if shared == self.prev.len() {
            let added = slice_subrange(text.as_slice(), shared, text.len());
            let delta = to_text(added);
            let delta_chars: u64 = added.len() as u64;
            self.prev = text;
            self.total_emitted_chars += delta_chars;
            self.last_delta_chars = delta_chars;
            return ChatDeltaUpdate { kind: ChatDeltaKind::Append, delta };
        }
        self.prev = text;
        self.rewrite_events += 1;
        self.last_delta_chars = 0;
        ChatDeltaUpdate { kind: ChatDeltaKind::Rewrite, delta: String::new() }
    }

    /// Takes the next chat text of the session and reports what it adds.
    ///
    /// The counters must have room for what this text adds to them; a caller that
    /// cannot tell calls `try_on_chat_text`.
    pub fn on_chat_text(&mut self, chat_text: &str) -> (update: ChatDeltaUpdate)
        requires
            has_room(old(self)@, chat_text@),
        ensures
            update@ == delta_update(old(self)@.prev, chat_text@),
            final(self)@ == delta_step(old(self)@, chat_text@),
            !old(self)@.prev.is_prefix_of(chat_text@) ==> update.kind == ChatDeltaKind::Rewrite
                && update.delta@.len() == 0 && final(self)@.rewrite_events == old(
                self,
            )@.rewrite_events + 1,
    {
        let text = to_chars(chat_text);
        let shared: usize = common_prefix_len(self.prev.as_slice(), text.as_slice());
        proof {
            if !self@.prev.is_prefix_of(text@) {
                law_rewrite_detected(self@, text@);
            }
        }
        self.take(text, shared)
    }

    /// Takes the next chat text of the session and reports what it adds, if the
    /// counters have room for that; if they have not, the emitter stays as it is.
    pub fn try_on_chat_text(&mut self, chat_text: &str) -> (update: Option<ChatDeltaUpdate>)
        ensures
            match update {
                Some(u) => has_room(old(self)@, chat_text@) && u@ == delta_update(
                    old(self)@.prev,
                    chat_text@,
                ) && final(self)@ == delta_step(old(self)@, chat_text@),
                None => !has_room(old(self)@, chat_text@) && final(self)@ == old(self)@,
            },
    {
        let text = to_chars(chat_text);
        let shared: usize = common_prefix_len(self.prev.as_slice(), text.as_slice());
        if self.room_for(text.as_slice(), shared) {
            Some(self.take(text, shared))
        } else {
            None
        }
    }
}

/// What an emitter that starts in state `st` does with the chat texts `texts`,
/// taken in order: its last state and what it reports for each text.
pub open spec fn delta_run(st: DeltaState, texts: Seq<Seq<char>>) -> (DeltaState, Seq<DeltaUpdate>)
    decreases texts.len(),
{
    if texts.len() == 0 {
        (st, Seq::empty())
    } else {
        let (mid, out) = delta_run(st, texts.drop_last());
        (delta_step(mid, texts.last()), out.push(delta_update(mid.prev, texts.last())))
    }
}

/// The deltas of the given updates, one after the other.
pub open spec fn joined_deltas(updates: Seq<DeltaUpdate>) -> Seq<char>
    decreases updates.len(),
{
    if updates.len() == 0 {
        Seq::empty()
    } else {
        joined_deltas(updates.drop_last()) + updates.last().delta
    }
}

/// An emitter reports once for each text, each time against the text before it,
/// and remembers the last text.
pub proof fn lemma_delta_run(st: DeltaState, texts: Seq<Seq<char>>)
    ensures
        delta_run(st, texts).1.len() == texts.len(),
        delta_run(st, texts).0.prev == if texts.len() == 0 {
            st.prev
        } else {
            texts.last()
        },
        forall|i: int|
            0 <= i < texts.len() ==> #[trigger] delta_run(st, texts).1[i] == delta_update(
                if i == 0 {
                    st.prev
                } else {
                    texts[i - 1]
                },
                texts[i],
            ),
    decreases texts.len(),
{
    if texts.len() > 0 {
        let init = texts.drop_last();
        lemma_delta_run(st, init);
        let (mid, out) = delta_run(st, init);
        let all = delta_run(st, texts).1;
        assert forall|i: int| 0 <= i < texts.len() implies #[trigger] all[i] == delta_update(
            if i == 0 {
                st.prev
            } else {
                texts[i - 1]
            },
            texts[i],
        ) by {
            if i < init.len() {
                assert(all[i] == out[i]);
                assert(init[i] == texts[i]);
                if i > 0 {
                    assert(init[i - 1] == texts[i - 1]);
                }
            } else if i > 0 {
                assert(init.last() == texts[i - 1]);
            }
        }
    }
}

/// Rewrite detection: a text that does not begin with the text before it is
/// reported as a rewrite with an empty delta, and counted as exactly one rewrite.
pub proof fn law_rewrite_detected(st: DeltaState, text: Seq<char>)
    requires
        !st.prev.is_prefix_of(text),
    ensures
        delta_update(st.prev, text).kind == ChatDeltaKind::Rewrite,
        delta_update(st.prev, text).delta.len() == 0,
        delta_step(st, text).rewrite_events == st.rewrite_events + 1,
        delta_step(st, text).total_emitted_chars == st.total_emitted_chars,
{
    if text == st.prev {
        assert(st.prev =~= text.subrange(0, st.prev.len() as int));
    }
    if st.prev.len() == 0 {
        assert(st.prev =~= text.subrange(0, 0));
    }
}

/// The counters of rewrites and of emitted characters never go down, and the
/// emitter always remembers the text that it was given last.
pub proof fn law_counters_grow(st: DeltaState, text: Seq<char>)
    ensures
        delta_step(st, text).rewrite_events >= st.rewrite_events,
        delta_step(st, text).total_emitted_chars >= st.total_emitted_chars,
        delta_step(st, text).last_delta_chars == delta_update(st.prev, text).delta.len(),
        delta_step(st, text).prev == text,
{
}

/// Deltas rebuild the text: when each text begins with the one before it, the
/// deltas reported from the start of a session, one after the other, are the last
/// text, and none of them is a rewrite.
pub proof fn law_deltas_rebuild_text(texts: Seq<Seq<char>>)
    requires
        texts.len() > 0,
        forall|i: int| 0 < i < texts.len() ==> texts[i - 1].is_prefix_of(#[trigger] texts[i]),
    ensures
        joined_deltas(delta_run(delta_start(), texts).1) == texts.last(),
        forall|i: int|
            0 <= i < texts.len() ==> (#[trigger] delta_run(delta_start(), texts).1[i]).kind
                != ChatDeltaKind::Rewrite,
    decreases texts.len(),
{
    let st = delta_start();
    let init = texts.drop_last();
    let last = texts.last();
    let (mid, out) = delta_run(st, init);
    let all = delta_run(st, texts).1;
    lemma_delta_run(st, init);
    lemma_delta_run(st, texts);
    assert(all.drop_last() =~= out);
    assert(all.last().delta == delta_text(mid.prev, last));
    if init.len() == 0 {
        assert(mid.prev.len() == 0);
        assert(joined_deltas(out) =~= Seq::<char>::empty());
        assert(last.skip(0) =~= last);
        assert(joined_deltas(all) =~= last);
    } else {
        assert forall|i: int| 0 < i < init.len() implies init[i - 1].is_prefix_of(
            #[trigger] init[i],
        ) by {
            assert(init[i] == texts[i]);
            assert(init[i - 1] == texts[i - 1]);
        }
        law_deltas_rebuild_text(init);
        let before = init.last();
        assert(before == texts[texts.len() - 2]);
        assert(before.is_prefix_of(texts[texts.len() - 1]));
        assert(mid.prev == before);
        assert(joined_deltas(out) == before);
        if last == before {
            assert(joined_deltas(all) =~= last);
        } else if before.len() == 0 {
            assert(joined_deltas(all) =~= last);
        } else {
            assert(before + last.skip(before.len() as int) =~= last);
        }
        assert forall|i: int| 0 <= i < texts.len() implies (#[trigger] all[i]).kind
            != ChatDeltaKind::Rewrite by {
            if i < init.len() {
                assert(all[i] == out[i]);
            }
        }
    }
}

/// Append monotonicity: when the first text is not empty and each later text is the
/// one before it with something added, an emitter at the start of a session reports
/// `Initial` for the first text and `Append` for every other, and the deltas, one
/// after the other, are the last text.
pub proof fn law_append_monotonicity(texts: Seq<Seq<char>>)
    requires
        texts.len() > 0,
        texts[0].len() > 0,
        forall|i: int|
            0 < i < texts.len() ==> texts[i - 1].is_prefix_of(#[trigger] texts[i]) && texts[i - 1]
                != texts[i],
    ensures
        delta_run(delta_start(), texts).1.len() == texts.len(),
        delta_run(delta_start(), texts).1[0].kind == ChatDeltaKind::Initial,
        forall|i: int|
            0 < i < texts.len() ==> (#[trigger] delta_run(delta_start(), texts).1[i]).kind
                == ChatDeltaKind::Append,
        joined_deltas(delta_run(delta_start(), texts).1) == texts.last(),
{
    let st = delta_start();
    let all = delta_run(st, texts).1;
    lemma_delta_run(st, texts);
    law_deltas_rebuild_text(texts);
    assert(all[0] == delta_update(st.prev, texts[0]));
    assert forall|i: int| 0 < i < texts.len() implies (#[trigger] all[i]).kind
        == ChatDeltaKind::Append by {
        lemma_chain_not_empty(texts, i - 1);
        assert(texts[i - 1].is_prefix_of(texts[i]));
    }
}

/// In a chain of texts that each begin with the one before, none is empty if the
/// first is not.
proof fn lemma_chain_not_empty(texts: Seq<Seq<char>>, i: int)
    requires
        0 <= i < texts.len(),
        texts[0].len() > 0,
        forall|j: int| 0 < j < texts.len() ==> texts[j - 1].is_prefix_of(#[trigger] texts[j]),
    ensures
        texts[i].len() > 0,
    decreases i,
{
    if i > 0 {
        lemma_chain_not_empty(texts, i - 1);
        assert(texts[i - 1].is_prefix_of(texts[i]));
    }
}

} // verus!
