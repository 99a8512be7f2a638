//! Recovers a role-tagged transcript from full-screen snapshots of a terminal chat.
//!
//! A snapshot is the text of the whole screen at one instant. [`extract_chat_area`]
//! finds the part of it that belongs to the conversation, [`extract_transcript_candidates`]
//! splits it into messages, a [`TranscriptPrinter`] emits each message once per session,
//! a [`ChatDeltaEmitter`] reports what each new chat text adds to the last, and
//! [`mirror_assistant_screen`] gives a view of fixed height.

pub mod chat;
pub mod delta;
pub mod printer;
pub mod rows;
pub mod segment;
pub mod text;

pub use chat::{extract_chat_area, mirror_assistant_screen, ChatArea};
pub use delta::{ChatDeltaEmitter, ChatDeltaKind, ChatDeltaUpdate};
pub use printer::TranscriptPrinter;
pub use segment::extract_transcript_candidates;
