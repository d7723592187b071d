//! The notebook store: the ordered note collection, the draft input
//! fields, and the edit session.
//!
//! All mutations are in-memory; persistence is a pure codec over the
//! collection (see [`crate::codec`]), so a caller persists by writing
//! [`NotebookStore::persist_payload`] to durable storage after each
//! mutation.

use crate::note::Note;
use crate::tags::{join_tags, parse_tags, seq_views, spec_join_tags, spec_parse_tags};
use crate::timestamp::Timestamp;
use vstd::prelude::*;

verus! {

/// The in-memory state: the notes, the draft fields for the note being
/// typed, and the index of the note being edited, if any.
pub struct NotebookStore {
    pub notes: Vec<Note>,
    pub new_title: String,
    pub new_content: String,
    pub new_tags: String,
    pub edit_index: Option<usize>,
}

/// The collection after deleting at each index in turn: every deletion is
/// applied to the collection as the previous ones left it, and an index
/// that is out of bounds at its turn deletes nothing.
pub open spec fn spec_delete_seq(notes: Seq<Note>, indices: Seq<usize>) -> Seq<Note>
    decreases indices.len(),
{
    if indices.len() == 0 {
        notes
    } else {
        let after = if (indices[0] as int) < notes.len() {
            notes.remove(indices[0] as int)
        } else {
            notes
        };
        spec_delete_seq(after, indices.drop_first())
    }
}

/// Some entry of `indices` names position `p`.
pub open spec fn names_position(indices: Seq<usize>, p: int) -> bool {
    exists|k: int| 0 <= k < indices.len() && indices[k] as int == p
}

/// The notes whose positions, counted from `pos`, are not named by
/// `indices`; their order is kept.
pub open spec fn spec_survivors_from(notes: Seq<Note>, indices: Seq<usize>, pos: int) -> Seq<Note>
    decreases notes.len(),
{
    if notes.len() == 0 {
        notes
    } else {
        let rest = spec_survivors_from(notes.drop_first(), indices, pos + 1);
        if names_position(indices, pos) {
            rest
        } else {
            seq![notes[0]] + rest
        }
    }
}

/// The notes at positions not named by `indices`, in their original order.
pub open spec fn spec_survivors(notes: Seq<Note>, indices: Seq<usize>) -> Seq<Note> {
    spec_survivors_from(notes, indices, 0)
}

/// `indices` is strictly descending.
pub open spec fn strictly_descending(indices: Seq<usize>) -> bool {
    forall|k: int| 0 <= k < indices.len() - 1 ==> #[trigger] indices[k] > indices[k + 1]
}

proof fn lemma_survivors_none_named(notes: Seq<Note>, indices: Seq<usize>, pos: int)
    requires
        forall|k: int| 0 <= k < indices.len() ==> (#[trigger] indices[k] as int) < pos,
    ensures
        spec_survivors_from(notes, indices, pos) == notes,
    decreases notes.len(),
{
    if notes.len() > 0 {
        lemma_survivors_none_named(notes.drop_first(), indices, pos + 1);
        assert(!names_position(indices, pos));
        assert(seq![notes[0]] + notes.drop_first() =~= notes);
    }
}

proof fn lemma_survivors_remove_first(
    notes: Seq<Note>,
    first: usize,
    rest: Seq<usize>,
    pos: int,
)
    requires
        pos <= first as int && (first as int) < pos + notes.len(),
        forall|k: int| 0 <= k < rest.len() ==> #[trigger] rest[k] < first,
    ensures
        spec_survivors_from(notes, seq![first] + rest, pos) == spec_survivors_from(
            notes.remove(first as int - pos),
            rest,
            pos,
        ),
    decreases notes.len(),
{
    let idx = seq![first] + rest;
    let removed = notes.remove(first as int - pos);
    if first as int == pos {
        assert(names_position(idx, pos)) by {
            assert(idx[0] as int == pos);
        }
        assert forall|k: int| 0 <= k < idx.len() implies (#[trigger] idx[k] as int) < pos + 1 by {
            if k > 0 {
                assert(idx[k] == rest[k - 1]);
            }
        }
        lemma_survivors_none_named(notes.drop_first(), idx, pos + 1);
        assert(removed =~= notes.drop_first());
        assert forall|k: int| 0 <= k < rest.len() implies (#[trigger] rest[k] as int) < pos by {}
        lemma_survivors_none_named(removed, rest, pos);
    } else {
        assert(notes.len() > 1);
        assert(names_position(idx, pos) == names_position(rest, pos)) by {
            if names_position(idx, pos) {
                let k = choose|k: int| 0 <= k < idx.len() && idx[k] as int == pos;
                assert(k != 0);
                assert(rest[k - 1] as int == pos);
            }
            if names_position(rest, pos) {
                let k = choose|k: int| 0 <= k < rest.len() && rest[k] as int == pos;
                assert(idx[k + 1] as int == pos);
            }
        }
        assert(removed[0] == notes[0]);
        assert(removed.drop_first() =~= notes.drop_first().remove(first as int - (pos + 1)));
        lemma_survivors_remove_first(notes.drop_first(), first, rest, pos + 1);
        assert(removed.len() > 0);
    }
}

/// The descending-order law for batch deletion: when the indices are
/// strictly descending and each names a position of the collection, the
/// sequential deletions of [`NotebookStore::delete_notes`] remove exactly
/// the named positions, and the surviving notes keep their relative order.
pub proof fn lemma_delete_seq_descending(notes: Seq<Note>, indices: Seq<usize>)
    requires
        strictly_descending(indices),
        forall|k: int| 0 <= k < indices.len() ==> (#[trigger] indices[k] as int) < notes.len(),
    ensures
        spec_delete_seq(notes, indices) == spec_survivors(notes, indices),
    decreases indices.len(),
{
    if indices.len() == 0 {
        assert forall|k: int| 0 <= k < indices.len() implies (#[trigger] indices[k] as int)
            < 0 by {}
        lemma_survivors_none_named(notes, indices, 0);
    } else {
        let first = indices[0];
        let rest = indices.drop_first();
        assert forall|k: int| 0 <= k < rest.len() implies #[trigger] rest[k] < first by {
            assert(rest[k] == indices[k + 1]);
            lemma_descending_below_first(indices, k + 1);
        }
        let removed = notes.remove(first as int);
        assert(strictly_descending(rest)) by {
            assert forall|k: int| 0 <= k < rest.len() - 1 implies #[trigger] rest[k] > rest[k
                + 1] by {
                assert(rest[k] == indices[k + 1]);
                assert(rest[k + 1] == indices[k + 2]);
            }
        }
        assert forall|k: int| 0 <= k < rest.len() implies (#[trigger] rest[k] as int)
            < removed.len() by {
            assert(rest[k] < first);
        }
        lemma_delete_seq_descending(removed, rest);
        assert(spec_delete_seq(notes, indices) == spec_delete_seq(removed, rest));
        lemma_survivors_remove_first(notes, first, rest, 0);
        assert(seq![first] + rest =~= indices);
    }
}

/// In a strictly descending sequence every later entry is below the first.
proof fn lemma_descending_below_first(indices: Seq<usize>, k: int)
    requires
        strictly_descending(indices),
        1 <= k < indices.len(),
    ensures
        indices[k] < indices[0],
    decreases k,
{
    if k > 1 {
        lemma_descending_below_first(indices, k - 1);
    }
}

impl NotebookStore {
    /// Every held note is well-formed.
    pub open spec fn well_formed(self) -> bool {
        forall|i: int| 0 <= i < self.notes@.len() ==> (#[trigger] self.notes@[i])@.well_formed()
    }

    /// An empty store with empty drafts and no edit session.
    pub fn empty() -> (r: Self)
        ensures
            r.notes@.len() == 0,
            r.new_title@.len() == 0,
            r.new_content@.len() == 0,
            r.new_tags@.len() == 0,
            r.edit_index is None,
            r.well_formed(),
    {
        NotebookStore {
            notes: Vec::new(),
            new_title: String::new(),
            new_content: String::new(),
            new_tags: String::new(),
            edit_index: None,
        }
    }

    /// A store over an already-loaded collection, with empty drafts.
    pub fn from_notes(notes: Vec<Note>) -> (r: Self)
        ensures
            r.notes == notes,
            r.new_title@.len() == 0,
            r.new_content@.len() == 0,
            r.new_tags@.len() == 0,
            r.edit_index is None,
    {
        NotebookStore {
            notes,
            new_title: String::new(),
            new_content: String::new(),
            new_tags: String::new(),
            edit_index: None,
        }
    }

    /// Appends a note built from the draft fields, stamped `now`, and
    /// clears the drafts. The tag line is parsed; earlier notes and the
    /// edit session are untouched.
    pub fn add_note(&mut self, now: Timestamp)
        requires
            now.well_formed(),
            old(self).well_formed(),
        ensures
            final(self).notes@.len() == old(self).notes@.len() + 1,
            forall|i: int|
                0 <= i < old(self).notes@.len() ==> final(self).notes@[i] == old(self).notes@[i],
            final(self).notes@[old(self).notes@.len() as int]@.title == old(self).new_title@,
            final(self).notes@[old(self).notes@.len() as int]@.content == old(self).new_content@,
            final(self).notes@[old(self).notes@.len() as int]@.tags == spec_parse_tags(
                old(self).new_tags@,
            ),
            final(self).notes@[old(self).notes@.len() as int]@.created_at == now,
            final(self).notes@[old(self).notes@.len() as int]@.updated_at == now,
            final(self).new_title@.len() == 0,
            final(self).new_content@.len() == 0,
            final(self).new_tags@.len() == 0,
            final(self).edit_index == old(self).edit_index,
            final(self).well_formed(),
    {
        let tags = parse_tags(self.new_tags.as_str());
        let title = self.new_title.clone();
        let content = self.new_content.clone();
        self.new_title = String::new();
        self.new_content = String::new();
        self.new_tags = String::new();
        let note = Note::new(title, content, tags, now);
        proof {
            assert(note@.tags =~= spec_parse_tags(old(self).new_tags@));
        }
        self.notes.push(note);
    }

    /// Removes the note at `index`; later notes shift down by one. An
    /// out-of-bounds index changes nothing.
    pub fn delete_note_by_index(&mut self, index: usize)
        requires
            old(self).well_formed(),
        ensures
            index < old(self).notes@.len() ==> final(self).notes@ == old(self).notes@.remove(
                index as int,
            ),
            index >= old(self).notes@.len() ==> *final(self) == *old(self),
            final(self).new_title == old(self).new_title,
            final(self).new_content == old(self).new_content,
            final(self).new_tags == old(self).new_tags,
            final(self).edit_index == old(self).edit_index,
            final(self).well_formed(),
    {
        if index < self.notes.len() {
            self.notes.remove(index);
            proof {
                assert forall|i: int| 0 <= i < final(self).notes@.len() implies (#[trigger] final(self).notes@[i])@.well_formed() by {
                    assert(final(self).notes@[i] == (if i < index {
                        old(self).notes@[i]
                    } else {
                        old(self).notes@[i + 1]
                    }));
                }
            }
        }
    }

    /// Replaces the content of the note at `index` and refreshes its
    /// `updated_at`; everything else, including that note's title and tags,
    /// is untouched. An out-of-bounds index changes nothing.
    pub fn update_note_by_index(&mut self, index: usize, new_content: String, now: Timestamp)
        requires
            now.well_formed(),
            old(self).well_formed(),
        ensures
            index < old(self).notes@.len() ==> {
                &&& final(self).notes@.len() == old(self).notes@.len()
                &&& (forall|i: int|
                    0 <= i < old(self).notes@.len() && i != index ==> final(self).notes@[i] == old(
                        self,
                    ).notes@[i])
                &&& final(self).notes@[index as int]@.content == new_content@
                &&& final(self).notes@[index as int]@.title == old(self).notes@[index as int]@.title
                &&& final(self).notes@[index as int]@.tags == old(self).notes@[index as int]@.tags
                &&& final(self).notes@[index as int]@.created_at == old(self).notes@[
                    index as int
                ]@.created_at
                &&& final(self).notes@[index as int]@.updated_at == (if old(self).notes@[
                    index as int
                ]@.updated_at.spec_le(now) {
                    now
                } else {
                    old(self).notes@[index as int]@.updated_at
                })
                &&& old(self).notes@[index as int]@.updated_at.spec_le(
                    final(self).notes@[index as int]@.updated_at,
                )
            },
            index >= old(self).notes@.len() ==> *final(self) == *old(self),
            final(self).new_title == old(self).new_title,
            final(self).new_content == old(self).new_content,
            final(self).new_tags == old(self).new_tags,
            final(self).edit_index == old(self).edit_index,
            final(self).well_formed(),
    {
        if index < self.notes.len() {
            let mut note = self.notes.remove(index);
            note.update(new_content, now);
            self.notes.insert(index, note);
            proof {
                assert forall|i: int|
                    0 <= i < old(self).notes@.len() && i != index implies final(self).notes@[i]
                    == old(self).notes@[i] by {
                    if i < index {
                        assert(final(self).notes@[i] == old(self).notes@.remove(index as int)[i]);
                    } else {
                        assert(final(self).notes@[i] == old(self).notes@.remove(index as int)[i
                            - 1]);
                    }
                }
                assert forall|i: int| 0 <= i < final(self).notes@.len() implies (#[trigger] final(self).notes@[i])@.well_formed() by {}
            }
        }
    }

    /// Replaces the title, content and tag line of the note at `index`,
    /// refreshing its `updated_at` but keeping `created_at`. The tag line
    /// is re-parsed. An out-of-bounds index changes nothing.
    pub fn update_note(
        &mut self,
        index: usize,
        new_title: String,
        new_content: String,
        raw_tags: &str,
        now: Timestamp,
    )
        requires
            now.well_formed(),
            old(self).well_formed(),
        ensures
            index < old(self).notes@.len() ==> {
                &&& final(self).notes@.len() == old(self).notes@.len()
                &&& (forall|i: int|
                    0 <= i < old(self).notes@.len() && i != index ==> final(self).notes@[i] == old(
                        self,
                    ).notes@[i])
                &&& final(self).notes@[index as int]@.title == new_title@
                &&& final(self).notes@[index as int]@.content == new_content@
                &&& final(self).notes@[index as int]@.tags == spec_parse_tags(raw_tags@)
                &&& final(self).notes@[index as int]@.created_at == old(self).notes@[
                    index as int
                ]@.created_at
                &&& final(self).notes@[index as int]@.updated_at == (if old(self).notes@[
                    index as int
                ]@.updated_at.spec_le(now) {
                    now
                } else {
                    old(self).notes@[index as int]@.updated_at
                })
                &&& old(self).notes@[index as int]@.updated_at.spec_le(
                    final(self).notes@[index as int]@.updated_at,
                )
            },
            index >= old(self).notes@.len() ==> *final(self) == *old(self),
            final(self).new_title == old(self).new_title,
            final(self).new_content == old(self).new_content,
            final(self).new_tags == old(self).new_tags,
            final(self).edit_index == old(self).edit_index,
            final(self).well_formed(),
    {
        if index < self.notes.len() {
            let tags = parse_tags(raw_tags);
            let mut note = self.notes.remove(index);
            note.update(new_content, now);
            note.title = new_title;
            note.tags = tags;
            self.notes.insert(index, note);
            proof {
                assert(final(self).notes@[index as int]@.tags =~= spec_parse_tags(raw_tags@));
                assert forall|i: int|
                    0 <= i < old(self).notes@.len() && i != index implies final(self).notes@[i]
                    == old(self).notes@[i] by {
                    if i < index {
                        assert(final(self).notes@[i] == old(self).notes@.remove(index as int)[i]);
                    } else {
                        assert(final(self).notes@[i] == old(self).notes@.remove(index as int)[i
                            - 1]);
                    }
                }
                assert forall|i: int| 0 <= i < final(self).notes@.len() implies (#[trigger] final(self).notes@[i])@.well_formed() by {}
            }
        }
    }

    /// Starts (or re-targets) an edit session on the note at `index`:
    /// the drafts are loaded from that note, its tags joined by `", "`.
    /// An out-of-bounds index changes nothing.
    pub fn begin_edit(&mut self, index: usize)
        requires
            old(self).well_formed(),
        ensures
            index < old(self).notes@.len() ==> {
                &&& final(self).new_title@ == old(self).notes@[index as int]@.title
                &&& final(self).new_content@ == old(self).notes@[index as int]@.content
                &&& final(self).new_tags@ == spec_join_tags(old(self).notes@[index as int]@.tags)
                &&& final(self).edit_index == Some(index)
            },
            index >= old(self).notes@.len() ==> *final(self) == *old(self),
            final(self).notes == old(self).notes,
            final(self).well_formed(),
    {
        if index < self.notes.len() {
            let note = &self.notes[index];
            self.new_title = note.title.clone();
            self.new_content = note.content.clone();
            self.new_tags = join_tags(&note.tags);
            self.edit_index = Some(index);
        }
    }

    /// Deletes the notes at `indices`, one after the other, each against
    /// the collection as the previous deletions left it. Because every
    /// deletion shifts the later notes down, callers deleting a batch
    /// picked from one snapshot must pass the indices in descending order;
    /// an index that is out of bounds when its turn comes deletes nothing.
    pub fn delete_notes(&mut self, indices: &Vec<usize>)
        requires
            old(self).well_formed(),
        ensures
            final(self).notes@ == spec_delete_seq(old(self).notes@, indices@),
            final(self).new_title == old(self).new_title,
            final(self).new_content == old(self).new_content,
            final(self).new_tags == old(self).new_tags,
            final(self).edit_index == old(self).edit_index,
            final(self).well_formed(),
    {
        let ghost notes0 = self.notes@;
        proof {
            assert(indices@.subrange(0, indices@.len() as int) =~= indices@);
        }
        let mut k: usize = 0;
        while k < indices.len()
            invariant
                k <= indices@.len(),
                self.well_formed(),
                self.new_title == old(self).new_title,
                self.new_content == old(self).new_content,
                self.new_tags == old(self).new_tags,
                self.edit_index == old(self).edit_index,
                spec_delete_seq(notes0, indices@) == spec_delete_seq(
                    self.notes@,
                    indices@.subrange(k as int, indices@.len() as int),
                ),
            decreases indices@.len() - k,
        {
            let ghost before = self.notes@;
            let ghost rest = indices@.subrange(k as int, indices@.len() as int);
            self.delete_note_by_index(indices[k]);
            proof {
                assert(rest[0] == indices@[k as int]);
                assert(rest.drop_first() =~= indices@.subrange(k + 1, indices@.len() as int));
                assert(spec_delete_seq(before, rest) == spec_delete_seq(
                    self.notes@,
                    rest.drop_first(),
                ));
            }
            k = k + 1;
        }
        proof {
            assert(indices@.subrange(indices@.len() as int, indices@.len() as int)
                =~= Seq::<usize>::empty());
        }
    }

    /// The exact text a caller must write to durable storage so that the
    /// stored collection matches the in-memory one. Decoding this text
    /// yields the collection back unchanged (see
    /// [`crate::codec::lemma_encode_decode_roundtrip`]).
    pub fn persist_payload(&self) -> (r: String)
        requires
            self.well_formed(),
        ensures
            r@ == crate::codec::spec_encode_notes(seq_views(self.notes@)),
    {
        crate::codec::encode_notes(&self.notes)
    }

    /// Commits the edit session: if a note is being edited and the draft
    /// content is non-empty, the target note is rewritten from the drafts
    /// (a stale index pointing past the end rewrites nothing), the drafts
    /// are cleared and the session returns to idle. With no session, or an
    /// empty draft content, nothing changes.
    pub fn save_changes(&mut self, now: Timestamp)
        requires
            now.well_formed(),
            old(self).well_formed(),
        ensures
            old(self).edit_index is None ==> *final(self) == *old(self),
            (old(self).edit_index is Some && old(self).new_content@.len() == 0) ==> *final(self)
                == *old(self),
            (old(self).edit_index == Some(old(self).edit_index->Some_0)
                && old(self).new_content@.len() > 0) ==> {
                let index = old(self).edit_index->Some_0;
                &&& final(self).edit_index is None
                &&& final(self).new_title@.len() == 0
                &&& final(self).new_content@.len() == 0
                &&& final(self).new_tags@.len() == 0
                &&& final(self).notes@.len() == old(self).notes@.len()
                &&& (index < old(self).notes@.len() ==> {
                    &&& (forall|i: int|
                        0 <= i < old(self).notes@.len() && i != index ==> final(self).notes@[i]
                            == old(self).notes@[i])
                    &&& final(self).notes@[index as int]@.title == old(self).new_title@
                    &&& final(self).notes@[index as int]@.content == old(self).new_content@
                    &&& final(self).notes@[index as int]@.tags == spec_parse_tags(
                        old(self).new_tags@,
                    )
                    &&& final(self).notes@[index as int]@.created_at == old(self).notes@[
                        index as int
                    ]@.created_at
                    &&& old(self).notes@[index as int]@.updated_at.spec_le(
                        final(self).notes@[index as int]@.updated_at,
                    )
                })
                &&& (index >= old(self).notes@.len() ==> final(self).notes@ == old(self).notes@)
            },
            final(self).well_formed(),
    {
        if let Some(index) = self.edit_index {
            if !self.new_content.as_str().is_empty() {
                let title = self.new_title.clone();
                let content = self.new_content.clone();
                let raw_tags = self.new_tags.clone();
                self.new_title = String::new();
                self.new_content = String::new();
                self.new_tags = String::new();
                self.update_note(index, title, content, raw_tags.as_str(), now);
                self.edit_index = None;
            }
        }
    }
}

} // verus!
