//! The query language for notes: terms split on semicolons and commas, each
//! either `field:value` or a bare value.
use vstd::prelude::*;
use crate::notes::same_text;
use crate::text::{
    trimmed, trim, chars_of, substring, first_of, position_of_any, pieces, lemma_pieces_nonempty,
};

verus! {

/// Which fields of a note a term is matched against.
#[derive(PartialEq, Eq, Structural, Clone, Copy, Debug)]
pub enum NoteSearchMode {
    /// Title or keywords.
    Default,
    Title,
    Content,
    Keyword,
    Subject,
}

/// One term of a note query.
pub struct NoteSearchTerm {
    pub mode: NoteSearchMode,
    pub text: String,
}

/// A conjunction of terms.
pub struct NoteSearchQuery {
    pub terms: Vec<NoteSearchTerm>,
}

impl NoteSearchTerm {
    pub open spec fn spec_pair(self) -> (NoteSearchMode, Seq<char>) {
        (self.mode, self.text@)
    }
}

impl NoteSearchQuery {
    /// The terms, each as its mode and its text.
    pub open spec fn spec_terms(self) -> Seq<(NoteSearchMode, Seq<char>)> {
        self.terms@.map_values(|t: NoteSearchTerm| t.spec_pair())
    }
}

/// What `str::to_lowercase` makes of a text.
pub uninterp spec fn lowercase_of(s: Seq<char>) -> Seq<char>;

/// Relies on `str::to_lowercase`: its result depends on the characters alone.
#[verifier::external_body]
pub(crate) fn lowercase_text(s: &str) -> (r: String)
    ensures
        r@ == lowercase_of(s@),
{
    s.to_lowercase()
}

/// The characters that end one term.
pub open spec fn term_separators() -> Seq<char> {
    seq!['；', ';', '，', ',']
}

/// The characters that end a field name.
pub open spec fn field_separators() -> Seq<char> {
    seq![':', '：']
}

fn term_separator_chars() -> (r: Vec<char>)
    ensures
        r@ == term_separators(),
{
    let mut v: Vec<char> = Vec::new();
    v.push('；');
    v.push(';');
    v.push('，');
    v.push(',');
    assert(v@ =~= term_separators());
    v
}

fn field_separator_chars() -> (r: Vec<char>)
    ensures
        r@ == field_separators(),
{
    let mut v: Vec<char> = Vec::new();
    v.push(':');
    v.push('：');
    assert(v@ =~= field_separators());
    v
}

/// The mode that a lower-cased field name selects.
pub open spec fn mode_for(field: Seq<char>) -> NoteSearchMode {
    if field == "title"@ || field == "标题"@ {
        NoteSearchMode::Title
    } else if field == "content"@ || field == "内容"@ || field.len() == 0 {
        NoteSearchMode::Content
    } else if field == "keyword"@ || field == "keywords"@ || field == "关键词"@ {
        NoteSearchMode::Keyword
    } else if field == "subject"@ || field == "主题"@ {
        NoteSearchMode::Subject
    } else {
        NoteSearchMode::Default
    }
}

/// The mode that the lower-cased field name `field` selects.
pub fn mode_for_field(field: &str) -> (r: NoteSearchMode)
    ensures
        r == mode_for(field@),
{
    if same_text(field, "title") || same_text(field, "标题") {
        NoteSearchMode::Title
    } else if same_text(field, "content") || same_text(field, "内容") || field.is_empty() {
        NoteSearchMode::Content
    } else if same_text(field, "keyword") || same_text(field, "keywords") || same_text(
        field,
        "关键词",
    ) {
        NoteSearchMode::Keyword
    } else if same_text(field, "subject") || same_text(field, "主题") {
        NoteSearchMode::Subject
    } else {
        NoteSearchMode::Default
    }
}

/// The term that one piece of a query makes, if any: none for a blank piece
/// or an empty value; a `field:value` piece selects its field by the name
/// before the first colon, trimmed and lower-cased.
pub open spec fn term_of(piece: Seq<char>) -> Option<(NoteSearchMode, Seq<char>)> {
    let p = trimmed(piece);
    let k = first_of(p, field_separators(), 0);
    if p.len() == 0 {
        None
    } else if k < p.len() {
        let text = trimmed(p.subrange(k + 1, p.len() as int));
        if text.len() == 0 {
            None
        } else {
            Some((mode_for(lowercase_of(trimmed(p.subrange(0, k)))), text))
        }
    } else {
        Some((NoteSearchMode::Default, p))
    }
}

/// The terms that `ps` make, in order.
pub open spec fn terms_of(ps: Seq<Seq<char>>) -> Seq<(NoteSearchMode, Seq<char>)>
    decreases ps.len(),
{
    if ps.len() == 0 {
        Seq::empty()
    } else {
        match term_of(ps.last()) {
            Some(t) => terms_of(ps.drop_last()).push(t),
            None => terms_of(ps.drop_last()),
        }
    }
}

/// The terms of the query text `s`.
pub open spec fn query_terms(s: Seq<char>) -> Seq<(NoteSearchMode, Seq<char>)> {
    terms_of(pieces(s, term_separators()))
}

/// The term that one piece of a query text makes, if any.
pub fn parse_search_term(piece: &str) -> (r: Option<NoteSearchTerm>)
    ensures
        match r {
            Some(t) => term_of(piece@) == Some(t.spec_pair()),
            None => term_of(piece@) is None,
        },
{
    let p = trim(piece);
    if p.as_str().is_empty() {
        return None;
    }
    let cs = chars_of(p.as_str());
    let seps = field_separator_chars();
    let k = position_of_any(&cs, &seps, 0);
    if k < cs.len() {
        let rest = substring(p.as_str(), k + 1, cs.len());
        let text = trim(rest.as_str());
        if text.as_str().is_empty() {
            return None;
        }
        let prefix = substring(p.as_str(), 0, k);
        let field = trim(prefix.as_str());
        let folded = lowercase_text(field.as_str());
        let mode = mode_for_field(folded.as_str());
        Some(NoteSearchTerm { mode, text })
    } else {
        Some(NoteSearchTerm { mode: NoteSearchMode::Default, text: p })
    }
}

/// Parses a note query: the text is cut at every semicolon or comma (ASCII
/// or full-width); each trimmed, non-empty piece makes one term.
pub fn parse_search_input(input: &str) -> (r: NoteSearchQuery)
    ensures
        r.spec_terms() == query_terms(input@),
{
    let cs = chars_of(input);
    let seps = term_separator_chars();
    let ghost s = input@;
    let ghost set = term_separators();
    let ghost mut done: Seq<Seq<char>> = Seq::empty();
    let mut terms: Vec<NoteSearchTerm> = Vec::new();
    let mut start: usize = 0;
    let mut i: usize = 0;
    assert(s.subrange(0, 0) =~= Seq::<char>::empty());
    assert(pieces(s.subrange(0, 0), set) =~= done.push(s.subrange(0, 0)));
    while i < cs.len()
        invariant
            cs@ == s,
            s == input@,
            seps@ == set,
            start <= i <= s.len(),
            pieces(s.subrange(0, i as int), set) == done.push(s.subrange(start as int, i as int)),
            terms@.map_values(|t: NoteSearchTerm| t.spec_pair()) == terms_of(done),
        decreases cs.len() - i,
    {
        let c = cs[i];
        let ghost pre = s.subrange(0, i as int);
        assert(s.subrange(0, i + 1).drop_last() =~= pre);
        assert(s.subrange(0, i + 1).last() == c);
        if crate::text::holds_char(&seps, c) {
            let piece = substring(input, start, i);
            let t = parse_search_term(piece.as_str());
            let ghost before = terms@;
            match t {
                Some(t) => {
                    terms.push(t);
                    assert(done.push(piece@).drop_last() =~= done);
                    assert(terms@.map_values(|t: NoteSearchTerm| t.spec_pair()) =~= before.map_values(
                        |t: NoteSearchTerm| t.spec_pair(),
                    ).push(t.spec_pair()));
                },
                None => {
                    assert(done.push(piece@).drop_last() =~= done);
                },
            }
            proof {
                done = done.push(piece@);
            }
            start = i + 1;
            assert(s.subrange(start as int, i + 1) =~= Seq::<char>::empty());
        } else {
            proof {
                lemma_pieces_nonempty(pre, set);
                assert(s.subrange(start as int, i + 1) =~= s.subrange(start as int, i as int).push(c));
                assert(pieces(s.subrange(0, i + 1), set) =~= done.push(s.subrange(start as int, i + 1)));
            }
        }
        i = i + 1;
    }
    assert(s.subrange(0, s.len() as int) =~= s);
    let piece = substring(input, start, cs.len());
    let t = parse_search_term(piece.as_str());
    let ghost before = terms@;
    assert(done.push(piece@).drop_last() =~= done);
    match t {
        Some(t) => {
            terms.push(t);
            assert(terms@.map_values(|t: NoteSearchTerm| t.spec_pair()) =~= before.map_values(
                |t: NoteSearchTerm| t.spec_pair(),
            ).push(t.spec_pair()));
        },
        None => {},
    }
    NoteSearchQuery { terms }
}

} // verus!
