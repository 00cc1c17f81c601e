//! The note editor's state: the note being written.
use vstd::prelude::*;
use crate::notes::Notedb;

verus! {

/// The editor of one note.
pub struct NoteApp {
    pub note: Notedb,
}

/// `o`, or an empty text where it is absent.
pub open spec fn filled(o: Option<String>) -> Option<Seq<char>> {
    match o {
        Some(s) => Some(s@),
        None => Some(Seq::empty()),
    }
}

fn fill(o: &mut Option<String>)
    ensures
        *final(o) is Some,
        crate::notes::text_of(*final(o)) == filled(*old(o)),
{
    if o.is_none() {
        *o = Some(String::new());
    }
}

impl NoteApp {
    pub fn new(note: Notedb) -> (r: NoteApp)
        ensures
            r.note == note,
    {
        NoteApp { note }
    }

    /// Gives each editable text of the note a value, empty where it had none,
    /// so that the editor has a field to write into.
    pub fn prepare_fields(&mut self)
        ensures
            crate::notes::text_of(final(self).note.subject) == filled(old(self).note.subject),
            crate::notes::text_of(final(self).note.title) == filled(old(self).note.title),
            crate::notes::text_of(final(self).note.keywords) == filled(old(self).note.keywords),
            crate::notes::text_of(final(self).note.reference) == filled(old(self).note.reference),
            crate::notes::text_of(final(self).note.body) == filled(old(self).note.body),
            final(self).note.id == old(self).note.id,
            final(self).note.book_num == old(self).note.book_num,
            final(self).note.book_name == old(self).note.book_name,
            final(self).note.chapter == old(self).note.chapter,
            final(self).note.verse_start == old(self).note.verse_start,
            final(self).note.char_offset == old(self).note.char_offset,
            final(self).note.version == old(self).note.version,
            final(self).note.created_at == old(self).note.created_at,
            final(self).note.updated_at == old(self).note.updated_at,
    {
        fill(&mut self.note.subject);
        fill(&mut self.note.title);
        fill(&mut self.note.keywords);
        fill(&mut self.note.reference);
        fill(&mut self.note.body);
    }
}

} // verus!
