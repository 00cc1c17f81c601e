//! Annotations and one category's table of them: upsert by id, removal,
//! retrieval by reading location, newest first.
use vstd::prelude::*;
use crate::ordering::{Ranking, sort_by, sorted_by, text_le, chars_le, lemma_text_le_total, lemma_text_le_transitive};
use crate::text::{chars_of, contains_text, contains_str, trim, trimmed};
use crate::note_query::{NoteSearchMode, NoteSearchTerm, NoteSearchQuery};
use crate::navigation::ReadingPosition;

verus! {

/// Relies on `uuid::Uuid::new_v4` and the `Display` of `Uuid`: a random
/// version-4 id, written in the hyphenated form of 36 characters.
#[verifier::external_body]
fn fresh_note_id() -> (r: String)
    ensures
        r@.len() == 36,
{
    uuid::Uuid::new_v4().to_string()
}

/// Relies on `chrono::Utc::now` and `format("%Y-%m-%d")`: today's date in
/// UTC. Nothing is promised of its value.
#[verifier::external_body]
fn today_date() -> (r: String) {
    chrono::Utc::now().format("%Y-%m-%d").to_string()
}

/// An annotation, optionally anchored to a place in the text.
/// A `verse_start` below zero marks a note on a whole chapter.
#[derive(Clone, Debug, PartialEq, Eq)]
pub struct Notedb {
    pub id: String,
    pub book_num: Option<i32>,
    pub book_name: Option<String>,
    pub chapter: Option<String>,
    pub verse_start: i32,
    pub char_offset: Option<i32>,
    pub title: Option<String>,
    pub keywords: Option<String>,
    pub reference: Option<String>,
    pub body: Option<String>,
    pub subject: Option<String>,
    pub version: Option<String>,
    pub created_at: Option<String>,
    pub updated_at: Option<String>,
}

/// The characters of an optional text.
pub open spec fn text_of(o: Option<String>) -> Option<Seq<char>> {
    match o {
        Some(s) => Some(s@),
        None => None,
    }
}

fn copy_text(o: &Option<String>) -> (r: Option<String>)
    ensures
        r == *o,
{
    match o {
        Some(s) => Some(s.clone()),
        None => None,
    }
}

impl Notedb {
    /// A new note with `id`, created `today`, anchored at a chapter of
    /// `version` as a whole (`verse_start` -1, offset 0), all texts absent.
    pub open spec fn spec_draft(
        id: String,
        today: String,
        book_num: Option<i32>,
        book_name: Option<String>,
        chapter: Option<String>,
        version: String,
    ) -> Notedb {
        Notedb {
            id,
            book_num,
            book_name,
            chapter,
            verse_start: -1i32,
            char_offset: Some(0),
            title: None,
            keywords: None,
            reference: None,
            body: None,
            subject: None,
            version: Some(version),
            created_at: Some(today),
            updated_at: None,
        }
    }

    /// A new chapter note with the given id and creation date.
    pub fn draft(
        id: String,
        today: String,
        book_num: Option<i32>,
        book_name: Option<String>,
        chapter: Option<String>,
        version: String,
    ) -> (r: Notedb)
        ensures
            r == Notedb::spec_draft(id, today, book_num, book_name, chapter, version),
    {
        Notedb {
            id,
            book_num,
            book_name,
            chapter,
            verse_start: -1,
            char_offset: Some(0),
            title: None,
            keywords: None,
            reference: None,
            body: None,
            subject: None,
            version: Some(version),
            created_at: Some(today),
            updated_at: None,
        }
    }

    /// A new chapter note at the reading position, with a fresh random id and
    /// today's date as its creation date.
    pub fn new_at(
        book_num: Option<i32>,
        book_name: Option<String>,
        chapter: Option<String>,
        version: String,
    ) -> (r: Notedb)
        ensures
            exists|id: String, today: String|
                id@.len() == 36 && r == Notedb::spec_draft(id, today, book_num, book_name, chapter, version),
    {
        let id = fresh_note_id();
        let today = today_date();
        Notedb::draft(id, today, book_num, book_name, chapter, version)
    }

    /// A note with `id`, created `today`, anchored nowhere and empty.
    pub open spec fn spec_blank(id: String, today: String) -> Notedb {
        Notedb {
            id,
            book_num: None,
            book_name: None,
            chapter: None,
            verse_start: 0,
            char_offset: None,
            title: None,
            keywords: None,
            reference: None,
            body: None,
            subject: None,
            version: None,
            created_at: Some(today),
            updated_at: None,
        }
    }

    /// An empty note with a fresh random id, created today.
    pub fn blank() -> (r: Notedb)
        ensures
            exists|id: String, today: String| id@.len() == 36 && r == Notedb::spec_blank(id, today),
    {
        let id = fresh_note_id();
        let today = today_date();
        let ghost spec_id = id;
        let ghost spec_today = today;
        let r = Notedb {
            id,
            book_num: None,
            book_name: None,
            chapter: None,
            verse_start: 0,
            char_offset: None,
            title: None,
            keywords: None,
            reference: None,
            body: None,
            subject: None,
            version: None,
            created_at: Some(today),
            updated_at: None,
        };
        assert(r == Notedb::spec_blank(spec_id, spec_today));
        r
    }

    /// A field-for-field copy.
    pub fn copy(&self) -> (r: Notedb)
        ensures
            r == *self,
    {
        Notedb {
            id: self.id.clone(),
            book_num: self.book_num,
            book_name: copy_text(&self.book_name),
            chapter: copy_text(&self.chapter),
            verse_start: self.verse_start,
            char_offset: self.char_offset,
            title: copy_text(&self.title),
            keywords: copy_text(&self.keywords),
            reference: copy_text(&self.reference),
            body: copy_text(&self.body),
            subject: copy_text(&self.subject),
            version: copy_text(&self.version),
            created_at: copy_text(&self.created_at),
            updated_at: copy_text(&self.updated_at),
        }
    }

    /// The date that orders notes: the last update, else the creation, else
    /// nothing (which comes after every date).
    pub open spec fn recency(self) -> Seq<char> {
        match self.updated_at {
            Some(u) => u@,
            None => match self.created_at {
                Some(c) => c@,
                None => Seq::empty(),
            },
        }
    }

    pub fn recency_chars(&self) -> (r: Vec<char>)
        ensures
            r@ == self.recency(),
    {
        match &self.updated_at {
            Some(u) => chars_of(u.as_str()),
            None => match &self.created_at {
                Some(c) => chars_of(c.as_str()),
                None => Vec::new(),
            },
        }
    }

    /// This note as saved on `today`: the same fields, with the update date set.
    pub open spec fn stamped(self, today: String) -> Notedb {
        Notedb { updated_at: Some(today), ..self }
    }

    /// Whether the note is anchored at `book_num` and `chapter` of `version`,
    /// and, where `chapter_scoped`, on the chapter as a whole.
    pub open spec fn anchored_at(
        self,
        version: Seq<char>,
        book_num: i32,
        chapter: Seq<char>,
        chapter_scoped: bool,
    ) -> bool {
        &&& self.book_num == Some(book_num)
        &&& text_of(self.chapter) == Some(chapter)
        &&& text_of(self.version) == Some(version)
        &&& chapter_scoped ==> self.verse_start < 0
    }

    pub fn is_anchored_at(&self, version: &str, book_num: i32, chapter: &str, chapter_scoped: bool) -> (r: bool)
        ensures
            r == self.anchored_at(version@, book_num, chapter@, chapter_scoped),
    {
        let book_ok = match self.book_num {
            Some(b) => b == book_num,
            None => false,
        };
        let chapter_ok = match &self.chapter {
            Some(c) => same_text(c.as_str(), chapter),
            None => false,
        };
        let version_ok = match &self.version {
            Some(v) => same_text(v.as_str(), version),
            None => false,
        };
        book_ok && chapter_ok && version_ok && (!chapter_scoped || self.verse_start < 0)
    }
}

/// Whether `a` and `b` hold the same characters.
pub fn same_text(a: &str, b: &str) -> (r: bool)
    ensures
        r == (a@ == b@),
{
    let x = chars_of(a);
    let y = chars_of(b);
    if x.len() != y.len() {
        return false;
    }
    let mut i: usize = 0;
    while i < x.len()
        invariant
            x@ == a@,
            y@ == b@,
            x@.len() == y@.len(),
            i <= x@.len(),
            forall|k: int| 0 <= k < i ==> x@[k] == y@[k],
        decreases x.len() - i,
    {
        if x[i] != y[i] {
            return false;
        }
        i = i + 1;
    }
    assert(x@ =~= y@);
    true
}

/// `o` is a text that holds `t`.
pub open spec fn has_text(o: Option<String>, t: Seq<char>) -> bool {
    match o {
        Some(s) => contains_text(s@, t),
        None => false,
    }
}

fn text_has(o: &Option<String>, t: &str) -> (r: bool)
    ensures
        r == has_text(*o, t@),
{
    match o {
        Some(s) => contains_str(s.as_str(), t),
        None => false,
    }
}

/// The note meets one query term: the field that `mode` names holds the
/// term's text, trimmed; the default mode asks it of the title or the
/// keywords. A term whose text is blank asks nothing.
pub open spec fn term_matches(n: Notedb, mode: NoteSearchMode, text: Seq<char>) -> bool {
    let t = trimmed(text);
    t.len() == 0 || match mode {
        NoteSearchMode::Title => has_text(n.title, t),
        NoteSearchMode::Content => has_text(n.body, t),
        NoteSearchMode::Keyword => has_text(n.keywords, t),
        NoteSearchMode::Subject => has_text(n.subject, t),
        NoteSearchMode::Default => has_text(n.title, t) || has_text(n.keywords, t),
    }
}

/// The note meets every term.
pub open spec fn matches_terms(n: Notedb, terms: Seq<(NoteSearchMode, Seq<char>)>) -> bool {
    forall|i: int| 0 <= i < terms.len() ==> term_matches(n, #[trigger] terms[i].0, terms[i].1)
}

/// The query has terms, and each term's text is blank.
pub open spec fn all_blank(terms: Seq<(NoteSearchMode, Seq<char>)>) -> bool {
    terms.len() > 0 && forall|i: int| 0 <= i < terms.len() ==> trimmed(#[trigger] terms[i].1).len() == 0
}

pub open spec fn query_pred(terms: Seq<(NoteSearchMode, Seq<char>)>) -> spec_fn(Notedb) -> bool {
    |n: Notedb| matches_terms(n, terms)
}

impl Notedb {
    pub fn meets_term(&self, term: &NoteSearchTerm) -> (r: bool)
        ensures
            r == term_matches(*self, term.mode, term.text@),
    {
        let trimmed_text = trim(term.text.as_str());
        let t = trimmed_text.as_str();
        if t.is_empty() {
            return true;
        }
        match term.mode {
            NoteSearchMode::Title => text_has(&self.title, t),
            NoteSearchMode::Content => text_has(&self.body, t),
            NoteSearchMode::Keyword => text_has(&self.keywords, t),
            NoteSearchMode::Subject => text_has(&self.subject, t),
            NoteSearchMode::Default => text_has(&self.title, t) || text_has(&self.keywords, t),
        }
    }

}

impl NoteSearchQuery {
    /// Whether every term's text is blank.
    pub fn all_terms_blank(&self) -> (r: bool)
        ensures
            r == forall|k: int| 0 <= k < self.spec_terms().len() ==> trimmed(#[trigger] self.spec_terms()[k].1).len() == 0,
    {
        let mut i: usize = 0;
        while i < self.terms.len()
            invariant
                i <= self.terms@.len(),
                self.spec_terms().len() == self.terms@.len(),
                forall|k: int| 0 <= k < i ==> trimmed(#[trigger] self.spec_terms()[k].1).len() == 0,
            decreases self.terms.len() - i,
        {
            assert(self.spec_terms()[i as int] == self.terms@[i as int].spec_pair());
            let t = trim(self.terms[i].text.as_str());
            if !t.as_str().is_empty() {
                assert(trimmed(self.spec_terms()[i as int].1).len() != 0);
                return false;
            }
            i = i + 1;
        }
        true
    }
}

impl Notedb {
    pub fn meets_query(&self, query: &NoteSearchQuery) -> (r: bool)
        ensures
            r == matches_terms(*self, query.spec_terms()),
    {
        let mut i: usize = 0;
        while i < query.terms.len()
            invariant
                i <= query.terms@.len(),
                forall|k: int| 0 <= k < i ==> term_matches(*self, #[trigger] query.spec_terms()[k].0, query.spec_terms()[k].1),
            decreases query.terms.len() - i,
        {
            if !self.meets_term(&query.terms[i]) {
                assert(query.spec_terms()[i as int] == query.terms@[i as int].spec_pair());
                assert(!term_matches(*self, query.spec_terms()[i as int].0, query.spec_terms()[i as int].1));
                assert(query.spec_terms().len() == query.terms@.len());
                return false;
            }
            assert(query.spec_terms()[i as int] == query.terms@[i as int].spec_pair());
            i = i + 1;
        }
        true
    }
}

/// Newest first: by the recency date, latest first.
pub struct NewestFirst;

impl Ranking<Notedb> for NewestFirst {
    open spec fn precedes(a: &Notedb, b: &Notedb) -> bool {
        text_le(b.recency(), a.recency())
    }

    fn test(a: &Notedb, b: &Notedb) -> (r: bool) {
        chars_le(&b.recency_chars(), &a.recency_chars())
    }

    proof fn lemma_total(a: &Notedb, b: &Notedb) {
        lemma_text_le_total(a.recency(), b.recency());
    }

    proof fn lemma_transitive(a: &Notedb, b: &Notedb, c: &Notedb) {
        lemma_text_le_transitive(c.recency(), b.recency(), a.recency());
    }
}

/// `rows` with `note` in place of the row of the same id, or added last
/// where there is none.
pub open spec fn upserted(rows: Seq<Notedb>, note: Notedb) -> Seq<Notedb> {
    if exists|k: int| 0 <= k < rows.len() && rows[k].id@ == note.id@ {
        let k = choose|k: int| 0 <= k < rows.len() && rows[k].id@ == note.id@;
        rows.update(k, note)
    } else {
        rows.push(note)
    }
}

/// No two rows share an id.
pub open spec fn ids_unique(rows: Seq<Notedb>) -> bool {
    forall|i: int, j: int| 0 <= i < j < rows.len() ==> rows[i].id@ != rows[j].id@
}

pub open spec fn anchored_pred(
    version: Seq<char>,
    book_num: i32,
    chapter: Seq<char>,
    chapter_scoped: bool,
) -> spec_fn(Notedb) -> bool {
    |n: Notedb| n.anchored_at(version, book_num, chapter, chapter_scoped)
}

pub open spec fn other_id_pred(id: Seq<char>) -> spec_fn(Notedb) -> bool {
    |n: Notedb| n.id@ != id
}

/// The notes of one category, each id once.
pub struct NoteTable {
    category: String,
    rows: Vec<Notedb>,
}

impl NoteTable {
    /// The stored notes, in the order of first storage.
    pub closed spec fn rows(&self) -> Seq<Notedb> {
        self.rows@
    }

    /// The name of the category.
    pub closed spec fn category_name(&self) -> Seq<char> {
        self.category@
    }

    pub fn category(&self) -> (r: &str)
        ensures
            r@ == self.category_name(),
    {
        self.category.as_str()
    }

    pub open spec fn wf(&self) -> bool {
        ids_unique(self.rows())
    }

    /// Whether `category` names the per-version note category of `version`,
    /// whose notes need no chapter scope to show at a chapter.
    pub open spec fn is_version_category(&self, version: Seq<char>) -> bool {
        self.category_name() == version
    }

    /// An empty table for `category`.
    pub fn new(category: String) -> (r: NoteTable)
        ensures
            r.wf(),
            r.category_name() == category@,
            r.rows() == Seq::<Notedb>::empty(),
    {
        NoteTable { category, rows: Vec::new() }
    }

    /// The number of stored notes.
    pub fn len(&self) -> (r: usize)
        ensures
            r == self.rows().len(),
    {
        self.rows.len()
    }

    /// The position of the row with `id`, if any.
    fn position_of(&self, id: &str) -> (r: Option<usize>)
        requires
            self.wf(),
        ensures
            match r {
                Some(k) => k < self.rows().len() && self.rows()[k as int].id@ == id@,
                None => forall|k: int| 0 <= k < self.rows().len() ==> self.rows()[k].id@ != id@,
            },
    {
        let mut k: usize = 0;
        while k < self.rows.len()
            invariant
                k <= self.rows@.len(),
                forall|j: int| 0 <= j < k ==> self.rows@[j].id@ != id@,
            decreases self.rows.len() - k,
        {
            if same_text(self.rows[k].id.as_str(), id) {
                return Some(k);
            }
            k = k + 1;
        }
        None
    }

    /// The note with `id`, if the table holds one.
    pub fn get(&self, id: &str) -> (r: Option<Notedb>)
        requires
            self.wf(),
        ensures
            match r {
                Some(n) => n.id@ == id@ && self.rows().contains(n),
                None => forall|k: int| 0 <= k < self.rows().len() ==> self.rows()[k].id@ != id@,
            },
    {
        match self.position_of(id) {
            Some(k) => {
                let n = self.rows[k].copy();
                assert(self.rows()[k as int] == n);
                Some(n)
            },
            None => None,
        }
    }

    /// Stores `note` as it is, in place of the row of the same id or last.
    pub fn put(&mut self, note: Notedb)
        requires
            old(self).wf(),
        ensures
            final(self).wf(),
            final(self).category_name() == old(self).category_name(),
            final(self).rows() == upserted(old(self).rows(), note),
    {
        match self.position_of(note.id.as_str()) {
            Some(k) => {
                proof {
                    let rows = self.rows@;
                    assert forall|j: int| 0 <= j < rows.len() && rows[j].id@ == note.id@ implies j
                        == k by {
                        if j < k {
                            assert(rows[j].id@ != rows[k as int].id@);
                        } else if j > k {
                            assert(rows[k as int].id@ != rows[j].id@);
                        }
                    }
                }
                self.rows.set(k, note);
            },
            None => {
                self.rows.push(note);
            },
        }
    }

    /// Saves `note` on `today`: an upsert by id that keeps the note's creation
    /// date and sets its update date to `today`.
    pub fn save(&mut self, note: Notedb, today: String)
        requires
            old(self).wf(),
        ensures
            final(self).wf(),
            final(self).category_name() == old(self).category_name(),
            final(self).rows() == upserted(old(self).rows(), note.stamped(today)),
    {
        let mut n = note;
        n.updated_at = Some(today);
        assert(n == note.stamped(today));
        self.put(n);
    }

    /// Saves `note` with today's date as its update date.
    pub fn save_today(&mut self, note: Notedb)
        requires
            old(self).wf(),
        ensures
            final(self).wf(),
            final(self).category_name() == old(self).category_name(),
            exists|today: String| final(self).rows() == upserted(old(self).rows(), note.stamped(today)),
    {
        let today = today_date();
        self.save(note, today);
    }

    /// Removes the note with `id`; nothing happens where there is none.
    pub fn delete(&mut self, id: &str)
        requires
            old(self).wf(),
        ensures
            final(self).wf(),
            final(self).category_name() == old(self).category_name(),
            final(self).rows() == old(self).rows().filter(other_id_pred(id@)),
    {
        let ghost before = self.rows@;
        let mut kept: Vec<Notedb> = Vec::new();
        let mut i: usize = 0;
        while i < self.rows.len()
            invariant
                before == self.rows@,
                ids_unique(before),
                i <= before.len(),
                kept@ == before.subrange(0, i as int).filter(other_id_pred(id@)),
                forall|a: int| 0 <= a < kept@.len() ==> exists|b: int| 0 <= b < i && #[trigger] kept@[a] == before[b],
                ids_unique(kept@),
            decreases self.rows.len() - i,
        {
            proof {
                reveal(Seq::filter);
                assert(before.subrange(0, i + 1).drop_last() =~= before.subrange(0, i as int));
            }
            if !same_text(self.rows[i].id.as_str(), id) {
                let ghost prev = kept@;
                kept.push(self.rows[i].copy());
                proof {
                    assert forall|a: int, c: int| 0 <= a < c < kept@.len() implies kept@[a].id@ != kept@[c].id@ by {
                        if c == kept@.len() - 1 {
                            let b = choose|b: int| 0 <= b < i && prev[a] == before[b];
                            assert(kept@[a] == prev[a]);
                        }
                    }
                    assert forall|a: int| 0 <= a < kept@.len() implies exists|b: int| 0 <= b < i + 1 && #[trigger] kept@[a] == before[b] by {
                        if a < kept@.len() - 1 {
                            assert(kept@[a] == prev[a]);
                            let b = choose|b: int| 0 <= b < i && prev[a] == before[b];
                        } else {
                            assert(kept@[a] == before[i as int]);
                        }
                    }
                }
            }
            i = i + 1;
        }
        assert(before.subrange(0, before.len() as int) =~= before);
        self.rows = kept;
    }

    /// The notes at `book_num` and `chapter` of `version`, newest first. Unless
    /// this table is the per-version category of `version`, only notes on a
    /// whole chapter count.
    pub fn load_for_chapter(&self, version: &str, book_num: i32, chapter: &str) -> (r: Vec<Notedb>)
        ensures
            sorted_by::<Notedb, NewestFirst>(r@),
            r@.to_multiset() == self.rows().filter(
                anchored_pred(version@, book_num, chapter@, !self.is_version_category(version@)),
            ).to_multiset(),
    {
        let scoped = !same_text(self.category.as_str(), version);
        let mut picked: Vec<Notedb> = Vec::new();
        let mut i: usize = 0;
        while i < self.rows.len()
            invariant
                i <= self.rows@.len(),
                scoped == !self.is_version_category(version@),
                picked@ == self.rows@.subrange(0, i as int).filter(
                    anchored_pred(version@, book_num, chapter@, scoped),
                ),
            decreases self.rows.len() - i,
        {
            proof {
                reveal(Seq::filter);
                assert(self.rows@.subrange(0, i + 1).drop_last() =~= self.rows@.subrange(0, i as int));
            }
            if self.rows[i].is_anchored_at(version, book_num, chapter, scoped) {
                picked.push(self.rows[i].copy());
            }
            i = i + 1;
        }
        assert(self.rows@.subrange(0, self.rows@.len() as int) =~= self.rows@);
        sort_by::<Notedb, NewestFirst>(picked)
    }

    /// The notes that meet every term of `query`, newest first; with no
    /// terms, every note, as `load_all` gives them. Terms are matched by
    /// their trimmed text; a query whose terms are all blank finds nothing.
    pub fn search_notes(&self, query: &NoteSearchQuery) -> (r: Vec<Notedb>)
        ensures
            sorted_by::<Notedb, NewestFirst>(r@),
            all_blank(query.spec_terms()) ==> r@.len() == 0,
            !all_blank(query.spec_terms()) ==> r@.to_multiset() == self.rows().filter(
                query_pred(query.spec_terms()),
            ).to_multiset(),
    {
        if query.terms.len() > 0 && query.all_terms_blank() {
            return Vec::new();
        }
        let mut picked: Vec<Notedb> = Vec::new();
        let mut i: usize = 0;
        while i < self.rows.len()
            invariant
                i <= self.rows@.len(),
                picked@ == self.rows@.subrange(0, i as int).filter(query_pred(query.spec_terms())),
            decreases self.rows.len() - i,
        {
            proof {
                reveal(Seq::filter);
                assert(self.rows@.subrange(0, i + 1).drop_last() =~= self.rows@.subrange(0, i as int));
            }
            if self.rows[i].meets_query(query) {
                picked.push(self.rows[i].copy());
            }
            i = i + 1;
        }
        assert(self.rows@.subrange(0, self.rows@.len() as int) =~= self.rows@);
        sort_by::<Notedb, NewestFirst>(picked)
    }

    /// The notes that a view asks for by `mode`: "append" gives those at the
    /// position on display (none where nothing is on display), "all" every
    /// note; any other mode gives none. Newest first.
    pub fn load_notes(&self, mode: &str, current: Option<&ReadingPosition>) -> (r: Vec<Notedb>)
        ensures
            sorted_by::<Notedb, NewestFirst>(r@),
            mode@ == "append"@ && current is Some ==> r@.to_multiset() == self.rows().filter(
                anchored_pred(
                    current->0.version@,
                    current->0.book,
                    current->0.chapter@,
                    !self.is_version_category(current->0.version@),
                ),
            ).to_multiset(),
            mode@ == "all"@ ==> r@.to_multiset() == self.rows().to_multiset(),
            mode@ != "all"@ && (mode@ != "append"@ || current is None) ==> r@.len() == 0,
    {
        proof {
            reveal_strlit("append");
            reveal_strlit("all");
            assert("append"@.len() != "all"@.len());
        }
        if same_text(mode, "append") {
            match current {
                Some(p) => self.load_for_chapter(p.version.as_str(), p.book, p.chapter.as_str()),
                None => Vec::new(),
            }
        } else if same_text(mode, "all") {
            self.load_all()
        } else {
            Vec::new()
        }
    }

    /// Every note of the table, newest first.
    pub fn load_all(&self) -> (r: Vec<Notedb>)
        ensures
            sorted_by::<Notedb, NewestFirst>(r@),
            r@.to_multiset() == self.rows().to_multiset(),
    {
        let mut all: Vec<Notedb> = Vec::new();
        let mut i: usize = 0;
        while i < self.rows.len()
            invariant
                i <= self.rows@.len(),
                all@ == self.rows@.subrange(0, i as int),
            decreases self.rows.len() - i,
        {
            all.push(self.rows[i].copy());
            i = i + 1;
        }
        assert(all@ =~= self.rows@);
        sort_by::<Notedb, NewestFirst>(all)
    }
}


/// A saved note is found at the place it is anchored at, and at no other:
/// after `save(note, today)` the rows that `load_for_chapter` draws on for the
/// note's version, book and chapter hold the note as saved, and those for a
/// place that differs in any of the three do not.
pub proof fn lemma_saved_note_found_at_its_place(
    before: NoteTable,
    after: NoteTable,
    note: Notedb,
    today: String,
    version: Seq<char>,
    book_num: i32,
    chapter: Seq<char>,
    chapter_scoped: bool,
    other_version: Seq<char>,
    other_book_num: i32,
    other_chapter: Seq<char>,
)
    requires
        before.wf(),
        after.rows() == upserted(before.rows(), note.stamped(today)),
        note.anchored_at(version, book_num, chapter, chapter_scoped),
        !(other_version == version && other_book_num == book_num && other_chapter == chapter),
    ensures
        after.rows().filter(anchored_pred(version, book_num, chapter, chapter_scoped)).to_multiset().contains(
            note.stamped(today),
        ),
        !after.rows().filter(
            anchored_pred(other_version, other_book_num, other_chapter, chapter_scoped),
        ).to_multiset().contains(note.stamped(today)),
{
    broadcast use vstd::seq_lib::group_to_multiset_ensures;
    broadcast use vstd::seq_lib::group_filter_ensures;

    let saved = note.stamped(today);
    let rows = after.rows();
    let p = anchored_pred(version, book_num, chapter, chapter_scoped);
    let q = anchored_pred(other_version, other_book_num, other_chapter, chapter_scoped);
    let k = if exists|k: int| 0 <= k < before.rows().len() && before.rows()[k].id@ == saved.id@ {
        choose|k: int| 0 <= k < before.rows().len() && before.rows()[k].id@ == saved.id@
    } else {
        before.rows().len() as int
    };
    assert(rows[k] == saved);
    assert(p(rows[k]));
    rows.lemma_filter_contains(p, k);
    assert(rows.filter(p).contains(saved));
    assert(!q(saved));
    if rows.filter(q).contains(saved) {
        let i = choose|i: int| 0 <= i < rows.filter(q).len() && rows.filter(q)[i] == saved;
        rows.lemma_filter_pred(q, i);
    }
}


/// The text of `o`, or `d` where it is absent.
pub open spec fn or_text(o: Option<String>, d: Seq<char>) -> Seq<char> {
    match o {
        Some(s) => s@,
        None => d,
    }
}

fn text_or(o: &Option<String>, d: &str) -> (r: String)
    ensures
        r@ == or_text(*o, d@),
{
    match o {
        Some(s) => s.clone(),
        None => String::from_str(d),
    }
}

/// How a note is listed under the chapter it belongs to: subject and title
/// ("<无标题>" where it has none), and the cited reference where there is one.
pub open spec fn appended_label(n: Notedb) -> Seq<char> {
    let t = or_text(n.title, "<无标题>"@);
    let s = or_text(n.subject, Seq::empty());
    let r = or_text(n.reference, Seq::empty());
    if r.len() > 0 {
        "【"@ + s + "】「"@ + t + "」 （"@ + r + "）"@
    } else {
        "【"@ + s + "】「"@ + t + "」"@
    }
}

/// The line that lists a note under its chapter.
pub fn appended_note_label(n: &Notedb) -> (r: String)
    ensures
        r@ == appended_label(*n),
{
    let t = text_or(&n.title, "<无标题>");
    let s = text_or(&n.subject, "");
    let r = text_or(&n.reference, "");
    proof {
        reveal_strlit("");
    }
    let head = String::from_str("【").concat(s.as_str()).concat("】「").concat(t.as_str());
    if r.as_str().unicode_len() > 0 {
        head.concat("」 （").concat(r.as_str()).concat("）")
    } else {
        head.concat("」")
    }
}

/// The title line of a note in the list of all notes: its title ("<无标题>"
/// where it has none), after its subject where that is not empty.
pub open spec fn list_title(n: Notedb) -> Seq<char> {
    let t = or_text(n.title, "<无标题>"@);
    let s = or_text(n.subject, Seq::empty());
    if s.len() == 0 {
        "📝「"@ + t + "」"@
    } else {
        "📝【"@ + s + "】「"@ + t + "」"@
    }
}

/// The title line of a note in the list of all notes.
pub fn note_list_title(n: &Notedb) -> (r: String)
    ensures
        r@ == list_title(*n),
{
    let t = text_or(&n.title, "<无标题>");
    let s = text_or(&n.subject, "");
    proof {
        reveal_strlit("");
    }
    if s.as_str().unicode_len() == 0 {
        String::from_str("📝「").concat(t.as_str()).concat("」")
    } else {
        String::from_str("📝【").concat(s.as_str()).concat("】「").concat(t.as_str()).concat("」")
    }
}

/// Where a note is anchored, as the list of all notes shows it: version
/// (without its file extension), book name and chapter.
pub open spec fn location_label(n: Notedb) -> Seq<char> {
    "（"@ + crate::scripture::version_label(or_text(n.version, Seq::empty())) + ":"@ + or_text(
        n.book_name,
        Seq::empty(),
    ) + ":"@ + or_text(n.chapter, Seq::empty()) + "）"@
}

/// The place line of a note in the list of all notes.
pub fn note_location(n: &Notedb) -> (r: String)
    ensures
        r@ == location_label(*n),
{
    proof {
        reveal_strlit("");
    }
    let v = text_or(&n.version, "");
    let version = crate::scripture::version_display_name(v.as_str());
    let book = text_or(&n.book_name, "");
    let chapter = text_or(&n.chapter, "");
    String::from_str("（").concat(version.as_str()).concat(":").concat(book.as_str()).concat(":").concat(
        chapter.as_str(),
    ).concat("）")
}

} // verus!
