//! The note entity: title, content, tags, and two timestamps.

use crate::tags::seq_views;
use crate::timestamp::Timestamp;
use vstd::prelude::*;

verus! {

/// One user-authored note.
#[derive(Clone, Debug, PartialEq)]
pub struct Note {
    pub title: String,
    pub content: String,
    pub created_at: Timestamp,
    pub updated_at: Timestamp,
    pub tags: Vec<String>,
}

/// The mathematical shape of a note: character sequences and timestamps.
pub struct NoteView {
    pub title: Seq<char>,
    pub content: Seq<char>,
    pub created_at: Timestamp,
    pub updated_at: Timestamp,
    pub tags: Seq<Seq<char>>,
}

impl View for Note {
    type V = NoteView;

    open spec fn view(&self) -> NoteView {
        NoteView {
            title: self.title@,
            content: self.content@,
            created_at: self.created_at,
            updated_at: self.updated_at,
            tags: seq_views(self.tags@),
        }
    }
}

impl NoteView {
    /// Both timestamps are well-formed and a note is never updated before
    /// it is created.
    pub open spec fn well_formed(self) -> bool {
        &&& self.created_at.well_formed()
        &&& self.updated_at.well_formed()
        &&& self.created_at.spec_le(self.updated_at)
    }
}

impl Note {
    /// A fresh note whose creation and update times both equal `now`.
    pub fn new(title: String, content: String, tags: Vec<String>, now: Timestamp) -> (r: Note)
        requires
            now.well_formed(),
        ensures
            r@.title == title@,
            r@.content == content@,
            r@.tags == seq_views(tags@),
            r@.created_at == now,
            r@.updated_at == now,
            r@.well_formed(),
    {
        Note { title, content, created_at: now, updated_at: now, tags }
    }

    /// A fresh note stamped with the current clock reading.
    pub fn new_now(title: String, content: String, tags: Vec<String>) -> (r: Note)
        ensures
            r@.title == title@,
            r@.content == content@,
            r@.tags == seq_views(tags@),
            r@.created_at == r@.updated_at,
            r@.well_formed(),
    {
        let now = Timestamp::now();
        Note::new(title, content, tags, now)
    }

    /// Replaces the content and refreshes `updated_at`. The new `updated_at`
    /// is the later of `now` and the old value, so it never moves backwards
    /// even when the clock does; title, tags and `created_at` are untouched.
    pub fn update(&mut self, new_content: String, now: Timestamp)
        requires
            now.well_formed(),
            old(self)@.well_formed(),
        ensures
            final(self)@.content == new_content@,
            final(self)@.title == old(self)@.title,
            final(self)@.tags == old(self)@.tags,
            final(self)@.created_at == old(self)@.created_at,
            final(self)@.updated_at == (if old(self)@.updated_at.spec_le(now) {
                now
            } else {
                old(self)@.updated_at
            }),
            old(self)@.updated_at.spec_le(final(self)@.updated_at),
            final(self)@.well_formed(),
    {
        self.content = new_content;
        let t = self.updated_at.max(now);
        proof {
            crate::timestamp::lemma_le_trans(self.created_at, self.updated_at, t);
        }
        self.updated_at = t;
    }
}

} // verus!
