//! Back and forward history over reading positions, as a browser keeps it.
use vstd::prelude::*;
use crate::notes::same_text;
use crate::search::{SearchOutcome, first_cached};
use crate::text::{signed_decimal, signed_decimal_text};

verus! {

/// A place in the corpus: a version, a book ordinal and a chapter.
#[derive(Clone, Debug, PartialEq, Eq)]
pub struct ReadingPosition {
    pub version: String,
    pub book: i32,
    pub chapter: String,
}

/// A position as values; two positions are the same where these are equal.
pub type PositionView = (Seq<char>, i32, Seq<char>);

impl View for ReadingPosition {
    type V = PositionView;

    open spec fn view(&self) -> PositionView {
        (self.version@, self.book, self.chapter@)
    }
}

impl ReadingPosition {
    pub fn new(version: String, book: i32, chapter: String) -> (r: ReadingPosition)
        ensures
            r@ == (version@, book, chapter@),
    {
        ReadingPosition { version, book, chapter }
    }

    /// A field-for-field copy.
    pub fn copy(&self) -> (r: ReadingPosition)
        ensures
            r@ == self@,
    {
        ReadingPosition { version: self.version.clone(), book: self.book, chapter: self.chapter.clone() }
    }

    /// Whether both name the same version, book and chapter.
    pub fn same_as(&self, other: &ReadingPosition) -> (r: bool)
        ensures
            r == (self@ == other@),
    {
        self.book == other.book && same_text(self.version.as_str(), other.version.as_str())
            && same_text(self.chapter.as_str(), other.chapter.as_str())
    }
}

/// The two stacks of a history, as values; the top is last.
pub struct HistoryView {
    pub back: Seq<PositionView>,
    pub forward: Seq<PositionView>,
}

/// `back` after leaving `p`: `p` goes on top unless it is there already.
pub open spec fn recorded(back: Seq<PositionView>, p: PositionView) -> Seq<PositionView> {
    if back.len() > 0 && back.last() == p {
        back
    } else {
        back.push(p)
    }
}

/// `back` after leaving each of `ps` in turn.
pub open spec fn recorded_all(back: Seq<PositionView>, ps: Seq<PositionView>) -> Seq<PositionView>
    decreases ps.len(),
{
    if ps.len() == 0 {
        back
    } else {
        recorded(recorded_all(back, ps.drop_last()), ps.last())
    }
}

/// No entry equals the one just below it.
pub open spec fn no_adjacent_repeats(s: Seq<PositionView>) -> bool {
    forall|i: int| 0 <= i < s.len() - 1 ==> s[i] != #[trigger] s[i + 1]
}

/// The history and the position reached by stepping back from `current`.
pub open spec fn stepped_back(h: HistoryView, current: Option<PositionView>) -> (HistoryView, Option<PositionView>) {
    if h.back.len() == 0 {
        (h, None)
    } else {
        (
            HistoryView {
                back: h.back.drop_last(),
                forward: match current {
                    Some(c) => h.forward.push(c),
                    None => h.forward,
                },
            },
            Some(h.back.last()),
        )
    }
}

/// The history and the position reached by stepping forward from `current`.
pub open spec fn stepped_forward(h: HistoryView, current: Option<PositionView>) -> (HistoryView, Option<PositionView>) {
    if h.forward.len() == 0 {
        (h, None)
    } else {
        (
            HistoryView {
                back: match current {
                    Some(c) => h.back.push(c),
                    None => h.back,
                },
                forward: h.forward.drop_last(),
            },
            Some(h.forward.last()),
        )
    }
}

pub open spec fn opt_view(p: Option<ReadingPosition>) -> Option<PositionView> {
    match p {
        Some(x) => Some(x@),
        None => None,
    }
}

/// The positions left behind (`back`) and those stepped back from (`forward`).
pub struct NavigationHistory {
    back: Vec<ReadingPosition>,
    forward: Vec<ReadingPosition>,
}

impl View for NavigationHistory {
    type V = HistoryView;

    closed spec fn view(&self) -> HistoryView {
        HistoryView {
            back: self.back@.map_values(|p: ReadingPosition| p@),
            forward: self.forward@.map_values(|p: ReadingPosition| p@),
        }
    }
}

impl NavigationHistory {
    /// A history with both stacks empty.
    pub fn new() -> (r: NavigationHistory)
        ensures
            r@.back == Seq::<PositionView>::empty(),
            r@.forward == Seq::<PositionView>::empty(),
    {
        let r = NavigationHistory { back: Vec::new(), forward: Vec::new() };
        assert(r@.back =~= Seq::<PositionView>::empty());
        assert(r@.forward =~= Seq::<PositionView>::empty());
        r
    }

    pub fn back_len(&self) -> (r: usize)
        ensures
            r == self@.back.len(),
    {
        self.back.len()
    }

    pub fn forward_len(&self) -> (r: usize)
        ensures
            r == self@.forward.len(),
    {
        self.forward.len()
    }

    /// Records the position being left by an explicit navigation: it goes on
    /// top of `back` unless it is there already, and `forward` is cleared.
    pub fn record_current(&mut self, pos: ReadingPosition)
        ensures
            final(self)@.back == recorded(old(self)@.back, pos@),
            final(self)@.forward == Seq::<PositionView>::empty(),
    {
        let ghost before = self@.back;
        let n = self.back.len();
        let repeat = n > 0 && self.back[n - 1].same_as(&pos);
        if !repeat {
            self.back.push(pos);
            assert(self@.back =~= before.push(pos@));
        }
        self.forward.clear();
        assert(self@.forward =~= Seq::<PositionView>::empty());
    }

    /// Steps back from `current`: pops the top of `back` and returns it, and
    /// pushes `current`, if any, on `forward`. With `back` empty nothing
    /// changes and the result is `None`.
    pub fn jump_back(&mut self, current: Option<ReadingPosition>) -> (r: Option<ReadingPosition>)
        ensures
            (final(self)@, opt_view(r)) == stepped_back(old(self)@, opt_view(current)),
            old(self)@.back.len() == 0 ==> r is None && final(self)@ == old(self)@,
    {
        let ghost h = self@;
        match self.back.pop() {
            None => None,
            Some(p) => {
                assert(self@.back =~= h.back.drop_last());
                match current {
                    Some(c) => {
                        self.forward.push(c);
                        assert(self@.forward =~= h.forward.push(c@));
                    },
                    None => {},
                }
                Some(p)
            },
        }
    }

    /// Steps forward from `current`: pops the top of `forward` and returns it,
    /// and pushes `current`, if any, on `back`. With `forward` empty nothing
    /// changes and the result is `None`.
    pub fn jump_forward(&mut self, current: Option<ReadingPosition>) -> (r: Option<ReadingPosition>)
        ensures
            (final(self)@, opt_view(r)) == stepped_forward(old(self)@, opt_view(current)),
            old(self)@.forward.len() == 0 ==> r is None && final(self)@ == old(self)@,
    {
        let ghost h = self@;
        match self.forward.pop() {
            None => None,
            Some(p) => {
                assert(self@.forward =~= h.forward.drop_last());
                match current {
                    Some(c) => {
                        self.back.push(c);
                        assert(self@.back =~= h.back.push(c@));
                    },
                    None => {},
                }
                Some(p)
            },
        }
    }
}

/// The position on display, with the history of how it was reached. Every
/// explicit move records the position it leaves; stepping back and forward
/// goes through the history without recording.
pub struct Navigator {
    pub current: Option<ReadingPosition>,
    pub history: NavigationHistory,
}

impl Navigator {
    /// Nothing on display yet, and no history.
    pub fn new() -> (r: Navigator)
        ensures
            r.current is None,
            r.history@.back == Seq::<PositionView>::empty(),
            r.history@.forward == Seq::<PositionView>::empty(),
    {
        Navigator { current: None, history: NavigationHistory::new() }
    }

    /// An explicit move to `dest` (a book, chapter or version picked, or a
    /// search result opened): the position left is recorded, then `dest`
    /// is shown.
    pub fn go_to(&mut self, dest: ReadingPosition)
        ensures
            opt_view(final(self).current) == Some(dest@),
            old(self).current is Some ==> final(self).history@.back == recorded(
                old(self).history@.back,
                old(self).current->0@,
            ) && final(self).history@.forward == Seq::<PositionView>::empty(),
            old(self).current is None ==> final(self).history@ == old(self).history@,
    {
        match &self.current {
            Some(c) => {
                let left = c.copy();
                self.history.record_current(left);
            },
            None => {},
        }
        self.current = Some(dest);
    }

    /// The history after leaving the position on display, if any.
    pub open spec fn left_history(self) -> HistoryView {
        match self.current {
            Some(c) => HistoryView { back: recorded(self.history@.back, c@), forward: Seq::empty() },
            None => self.history@,
        }
    }

    fn record_leaving(&mut self)
        ensures
            final(self).history@ == old(self).left_history(),
            final(self).current == old(self).current,
    {
        match &self.current {
            Some(c) => {
                let left = c.copy();
                self.history.record_current(left);
            },
            None => {},
        }
    }

    /// Picks book `book` of `version`, whose chapter names are `chapters` in
    /// listing order: the position left is recorded, and the book's first
    /// chapter is shown; with no chapters nothing is on display. Returns the
    /// chapter shown.
    pub fn pick_book(&mut self, version: &str, book: i32, chapters: &Vec<String>) -> (r: Option<String>)
        ensures
            final(self).history@ == old(self).left_history(),
            chapters@.len() > 0 ==> r is Some && r->0@ == chapters@[0]@ && opt_view(final(self).current)
                == Some((version@, book, chapters@[0]@)),
            chapters@.len() == 0 ==> r is None && final(self).current is None,
    {
        self.record_leaving();
        if chapters.len() > 0 {
            let first = chapters[0].clone();
            self.current = Some(ReadingPosition::new(String::from_str(version), book, chapters[0].clone()));
            Some(first)
        } else {
            self.current = None;
            None
        }
    }

    /// Switches to `version`, where `book` is the book chosen to stay on (see
    /// `book_after_switch`) and `chapters` its chapter names: the position
    /// left is recorded; the chapter shown before stays where the book has
    /// it, else the first chapter is shown; without a book or chapters
    /// nothing is on display. Returns the chapter shown.
    pub fn switch_version(&mut self, version: &str, book: Option<i32>, chapters: &Vec<String>) -> (r: Option<String>)
        ensures
            final(self).history@ == old(self).left_history(),
            ({
                let kept = old(self).current is Some && exists|k: int|
                    0 <= k < chapters@.len() && chapters@[k]@ == old(self).current->0.chapter@;
                &&& book is None ==> r is None && final(self).current is None
                &&& book is Some && kept ==> r is Some && r->0@ == old(self).current->0.chapter@
                &&& book is Some && !kept && chapters@.len() > 0 ==> r is Some && r->0@ == chapters@[0]@
                &&& book is Some && !kept && chapters@.len() == 0 ==> r is None
                &&& book is Some && r is Some ==> opt_view(final(self).current) == Some(
                    (version@, book->0, r->0@),
                )
                &&& book is Some && r is None ==> final(self).current is None
            }),
    {
        let previous = match &self.current {
            Some(c) => Some(c.chapter.clone()),
            None => None,
        };
        self.record_leaving();
        match book {
            None => {
                self.current = None;
                None
            },
            Some(b) => {
                let chosen = crate::scripture::chapter_after_switch(previous, chapters);
                match &chosen {
                    Some(c) => {
                        self.current = Some(ReadingPosition::new(String::from_str(version), b, c.clone()));
                    },
                    None => {
                        self.current = None;
                    },
                }
                chosen
            },
        }
    }

    /// Opens a search result: an explicit move to chapter `chapter_number` of
    /// book `book_number` in `version`. Returns the chapter's text as the
    /// search kept it, if it did; otherwise the caller fetches it.
    pub fn open_result(
        &mut self,
        outcome: &SearchOutcome,
        version: &str,
        book_number: i32,
        chapter_number: i32,
    ) -> (r: Option<String>)
        ensures
            opt_view(final(self).current) == Some(
                (version@, book_number, signed_decimal(chapter_number as int)),
            ),
            old(self).current is Some ==> final(self).history@.back == recorded(
                old(self).history@.back,
                old(self).current->0@,
            ) && final(self).history@.forward == Seq::<PositionView>::empty(),
            old(self).current is None ==> final(self).history@ == old(self).history@,
            match r {
                Some(t) => first_cached(outcome.cache@, book_number, chapter_number) == Some(t@),
                None => first_cached(outcome.cache@, book_number, chapter_number) is None,
            },
    {
        let dest = ReadingPosition::new(
            String::from_str(version),
            book_number,
            signed_decimal_text(chapter_number as i64),
        );
        self.go_to(dest);
        outcome.cached_content(book_number, chapter_number)
    }

    fn current_copy(&self) -> (r: Option<ReadingPosition>)
        ensures
            opt_view(r) == opt_view(self.current),
    {
        match &self.current {
            Some(c) => Some(c.copy()),
            None => None,
        }
    }

    /// Steps back, if the history allows; returns whether the position moved.
    pub fn back(&mut self) -> (r: bool)
        ensures
            ({
                let (h, p) = stepped_back(old(self).history@, opt_view(old(self).current));
                &&& final(self).history@ == h
                &&& r == p is Some
                &&& opt_view(final(self).current) == if p is Some {
                    p
                } else {
                    opt_view(old(self).current)
                }
            }),
    {
        let here = self.current_copy();
        match self.history.jump_back(here) {
            Some(p) => {
                self.current = Some(p);
                true
            },
            None => false,
        }
    }

    /// Steps forward, if the history allows; returns whether the position
    /// moved.
    pub fn forward(&mut self) -> (r: bool)
        ensures
            ({
                let (h, p) = stepped_forward(old(self).history@, opt_view(old(self).current));
                &&& final(self).history@ == h
                &&& r == p is Some
                &&& opt_view(final(self).current) == if p is Some {
                    p
                } else {
                    opt_view(old(self).current)
                }
            }),
    {
        let here = self.current_copy();
        match self.history.jump_forward(here) {
            Some(p) => {
                self.current = Some(p);
                true
            },
            None => false,
        }
    }
}

/// Recording never puts an entry on top of an equal one: from a `back` stack
/// with no adjacent repeats, every sequence of recordings leaves none.
pub proof fn lemma_recording_keeps_no_repeats(back: Seq<PositionView>, ps: Seq<PositionView>)
    requires
        no_adjacent_repeats(back),
    ensures
        no_adjacent_repeats(recorded_all(back, ps)),
    decreases ps.len(),
{
    if ps.len() > 0 {
        lemma_recording_keeps_no_repeats(back, ps.drop_last());
        let b = recorded_all(back, ps.drop_last());
        let p = ps.last();
        if !(b.len() > 0 && b.last() == p) {
            let c = b.push(p);
            assert forall|i: int| 0 <= i < c.len() - 1 implies c[i] != #[trigger] c[i + 1] by {
                if i < b.len() - 1 {
                    assert(c[i] == b[i] && c[i + 1] == b[i + 1]);
                }
            }
        }
    }
}

/// Recording the same position twice leaves it once on `back`: from an
/// empty history, exactly one entry.
pub proof fn lemma_record_twice(p: PositionView)
    ensures
        recorded(recorded(Seq::empty(), p), p) == seq![p],
        recorded_all(Seq::empty(), seq![p, p]).len() == 1,
{
    assert(recorded(Seq::empty(), p) =~= seq![p]);
    assert(seq![p, p].drop_last() =~= seq![p]);
    assert(seq![p].drop_last() =~= Seq::<PositionView>::empty());
    assert(seq![p, p].last() == p);
    assert(seq![p].last() == p);
    assert(recorded_all(Seq::empty(), Seq::<PositionView>::empty()) == Seq::<PositionView>::empty());
    assert(recorded_all(Seq::empty(), seq![p]) == recorded(
        recorded_all(Seq::empty(), seq![p].drop_last()),
        p,
    ));
    assert(recorded_all(Seq::empty(), seq![p]) == recorded(Seq::empty(), p));
    assert(recorded_all(Seq::empty(), seq![p, p]) == recorded(recorded(Seq::empty(), p), p));
}

/// Stepping back and then forward again returns to the position stepped
/// back from, and leaves both stacks as they were.
pub proof fn lemma_back_then_forward(h: HistoryView, current: PositionView)
    requires
        h.back.len() > 0,
    ensures
        ({
            let (h1, r1) = stepped_back(h, Some(current));
            let (h2, r2) = stepped_forward(h1, r1);
            &&& r2 == Some(current)
            &&& h2.back == h.back
            &&& h2.forward == h.forward
        }),
{
    let (h1, r1) = stepped_back(h, Some(current));
    assert(h1.forward.drop_last() =~= h.forward);
    assert(h1.back.push(h.back.last()) =~= h.back);
}

/// Stepping back with an empty `back` changes nothing and reaches nothing.
pub proof fn lemma_back_on_empty(h: HistoryView, current: Option<PositionView>)
    requires
        h.back.len() == 0,
    ensures
        stepped_back(h, current) == (h, None::<PositionView>),
{
}

} // verus!
