//! Search over the chapters of one version: the query syntax, the matching
//! chapters with a snippet each, their order, and the texts kept for reuse.
use vstd::multiset::Multiset;
use vstd::prelude::*;
use crate::ordering::{
    Ranking, sort_by, sorted_by, lemma_map_values_multiset, text_le, chars_le, lemma_text_le_total,
    lemma_text_le_transitive, lemma_text_le_antisymmetric,
};
use crate::notes::same_text;
use crate::text::{
    trimmed, trim, chars_of, substring, first_of, position_of_any, pieces, lemma_pieces_nonempty,
    contains_text, contains_chars, contains_between, matches_at, after_last,
    text_after_last, parsed_i32, parse_i32,
};

verus! {

/// A search request: the book names to search in (none: all books) and the
/// text that a chapter must hold.
pub struct SearchQuery {
    pub book_filter: String,
    pub content_filter: String,
}

/// The characters that part a book filter from the searched text.
pub open spec fn query_separators() -> Seq<char> {
    seq![':', '：', '&']
}

/// The book filter and the searched text that `raw` asks for: cut at the
/// first separator, both sides trimmed; with no separator, no book filter.
pub open spec fn query_parts(raw: Seq<char>) -> (Seq<char>, Seq<char>) {
    let k = first_of(raw, query_separators(), 0);
    if k < raw.len() {
        (trimmed(raw.subrange(0, k)), trimmed(raw.subrange(k + 1, raw.len() as int)))
    } else {
        (Seq::empty(), trimmed(raw))
    }
}

/// Reads a search request from the text typed into the search box.
pub fn parse_query(raw: &str) -> (r: SearchQuery)
    ensures
        (r.book_filter@, r.content_filter@) == query_parts(raw@),
{
    let cs = chars_of(raw);
    let mut seps: Vec<char> = Vec::new();
    seps.push(':');
    seps.push('：');
    seps.push('&');
    assert(seps@ =~= query_separators());
    let k = position_of_any(&cs, &seps, 0);
    if k < cs.len() {
        let before = substring(raw, 0, k);
        let after = substring(raw, k + 1, cs.len());
        SearchQuery { book_filter: trim(before.as_str()), content_filter: trim(after.as_str()) }
    } else {
        SearchQuery { book_filter: String::new(), content_filter: trim(raw) }
    }
}

/// A book of a version: its ordinal, its code (as in `GEN`) and its name.
pub struct Book {
    pub number: i32,
    pub code: String,
    pub name: String,
}

/// A chapter of a version: its reference key `{code}.{number}` and its text.
pub struct Chapter {
    pub reference: String,
    pub content: String,
}

/// One matching chapter, with the line that shows the match.
pub struct SearchResult {
    pub book_number: i32,
    pub book_name: String,
    pub chapter_number: i32,
    pub snippet: String,
}

/// The full text of a chapter that a search went through.
pub struct CachedChapter {
    pub book_number: i32,
    pub chapter_number: i32,
    pub content: String,
}

/// The results of a search, and the texts of the chapters it matched.
pub struct SearchOutcome {
    pub results: Vec<SearchResult>,
    pub cache: Vec<CachedChapter>,
}

/// One match, as values.
pub struct SearchHit {
    pub book_number: i32,
    pub book_name: Seq<char>,
    pub chapter_number: i32,
    pub snippet: Seq<char>,
    pub content: Seq<char>,
}

impl SearchHit {
    pub open spec fn result(self) -> (i32, Seq<char>, i32, Seq<char>) {
        (self.book_number, self.book_name, self.chapter_number, self.snippet)
    }

    pub open spec fn cached(self) -> (i32, i32, Seq<char>) {
        (self.book_number, self.chapter_number, self.content)
    }
}

impl SearchResult {
    pub open spec fn spec_view(self) -> (i32, Seq<char>, i32, Seq<char>) {
        (self.book_number, self.book_name@, self.chapter_number, self.snippet@)
    }
}

impl CachedChapter {
    pub open spec fn spec_view(self) -> (i32, i32, Seq<char>) {
        (self.book_number, self.chapter_number, self.content@)
    }
}

/// The chapter number that a reference key gives: its last dot-separated
/// part read as an integer, 0 where that fails.
pub open spec fn chapter_of_key(reference: Seq<char>) -> i32 {
    match parsed_i32(after_last(reference, '.')) {
        Some(n) => n,
        None => 0,
    }
}

/// The chapter number of a reference key.
pub fn chapter_number_of_key(reference: &str) -> (r: i32)
    ensures
        r == chapter_of_key(reference@),
{
    let last = text_after_last(reference, '.');
    match parse_i32(last.as_str()) {
        Some(n) => n,
        None => 0,
    }
}

/// The reference key names a chapter of the book with `code`.
pub open spec fn in_book(reference: Seq<char>, code: Seq<char>) -> bool {
    reference.len() > code.len() && reference.subrange(0, code.len() as int) == code
        && reference[code.len() as int] == '.'
}

fn is_in_book(reference: &Vec<char>, code: &Vec<char>) -> (r: bool)
    ensures
        r == in_book(reference@, code@),
{
    reference.len() > code.len() && matches_at(reference, code, 0) && reference[code.len()] == '.'
}

/// `l` without one carriage return at its end.
pub open spec fn without_cr(l: Seq<char>) -> Seq<char> {
    if l.len() > 0 && l.last() == '\r' {
        l.drop_last()
    } else {
        l
    }
}

/// The lines of `s` as `str::lines` cuts them, with an empty last line where
/// `s` is empty or ends in a line feed.
pub open spec fn lines_of(s: Seq<char>) -> Seq<Seq<char>> {
    let p = pieces(s, seq!['\n']);
    p.drop_last().map_values(|l: Seq<char>| without_cr(l)).push(p.last())
}

/// The first of `ls` that holds `needle`.
pub open spec fn first_holding(ls: Seq<Seq<char>>, needle: Seq<char>) -> Option<Seq<char>>
    decreases ls.len(),
{
    if ls.len() == 0 {
        None
    } else {
        match first_holding(ls.drop_last(), needle) {
            Some(l) => Some(l),
            None => if contains_text(ls.last(), needle) {
                Some(ls.last())
            } else {
                None
            },
        }
    }
}

/// The snippet of a chapter for `needle`: its first line that holds
/// `needle`, else the whole text.
pub open spec fn snippet_for(content: Seq<char>, needle: Seq<char>) -> Seq<char> {
    match first_holding(lines_of(content), needle) {
        Some(l) => l,
        None => content,
    }
}

/// The first line of `content` that holds `needle`, else all of `content`.
pub fn snippet(content: &str, needle: &str) -> (r: String)
    ensures
        r@ == snippet_for(content@, needle@),
{
    let cs = chars_of(content);
    let nd = chars_of(needle);
    let ghost s = content@;
    let ghost nl = seq!['\n'];
    let ghost mut done: Seq<Seq<char>> = Seq::empty();
    let mut found: Option<(usize, usize)> = None;
    let mut start: usize = 0;
    let mut i: usize = 0;
    assert(s.subrange(0, 0) =~= Seq::<char>::empty());
    assert(pieces(s.subrange(0, 0), nl) =~= done.push(s.subrange(0, 0)));
    while i < cs.len()
        invariant
            cs@ == s,
            s == content@,
            nd@ == needle@,
            nl == seq!['\n'],
            start <= i <= s.len(),
            pieces(s.subrange(0, i as int), nl) == done.push(s.subrange(start as int, i as int)),
            match found {
                Some((a, b)) => a <= b <= s.len() && first_holding(
                    done.map_values(|l: Seq<char>| without_cr(l)),
                    needle@,
                ) == Some(s.subrange(a as int, b as int)),
                None => first_holding(done.map_values(|l: Seq<char>| without_cr(l)), needle@) is None,
            },
        decreases cs.len() - i,
    {
        let ghost pre = s.subrange(0, i as int);
        assert(s.subrange(0, i + 1).drop_last() =~= pre);
        if cs[i] == '\n' {
            assert(nl[0] == '\n');
            assert(nl.contains(cs@[i as int]));
            let ghost line = s.subrange(start as int, i as int);
            let end: usize = if i > start && cs[i - 1] == '\r' { i - 1 } else { i };
            assert(s.subrange(start as int, end as int) =~= without_cr(line));
            let ghost stripped_before = done.map_values(|l: Seq<char>| without_cr(l));
            assert(done.push(line).map_values(|l: Seq<char>| without_cr(l)) =~= stripped_before.push(
                without_cr(line),
            ));
            assert(stripped_before.push(without_cr(line)).drop_last() =~= stripped_before);
            if found.is_none() && contains_between(&cs, start, end, &nd) {
                found = Some((start, end));
            }
            proof {
                done = done.push(line);
            }
            start = i + 1;
            assert(s.subrange(start as int, i + 1) =~= Seq::<char>::empty());
        } else {
            proof {
                lemma_pieces_nonempty(pre, nl);
                assert(!nl.contains(cs@[i as int])) by {
                    if nl.contains(cs@[i as int]) {
                        let k = choose|k: int| 0 <= k < nl.len() && nl[k] == cs@[i as int];
                        assert(k == 0);
                    }
                }
                assert(s.subrange(start as int, i + 1) =~= s.subrange(start as int, i as int).push(
                    cs@[i as int],
                ));
            }
        }
        i = i + 1;
    }
    assert(s.subrange(0, s.len() as int) =~= s);
    let ghost p = pieces(s, nl);
    assert(p.drop_last() =~= done);
    assert(lines_of(s).drop_last() =~= done.map_values(|l: Seq<char>| without_cr(l)));
    match found {
        Some((a, b)) => substring(content, a, b),
        None => {
            if contains_between(&cs, start, cs.len(), &nd) {
                substring(content, start, cs.len())
            } else {
                String::from_str(content)
            }
        },
    }
}

/// The match of chapter `c` of book `b` for `q`, if it is one.
pub open spec fn hit_of(b: Book, c: Chapter, q: SearchQuery) -> Option<SearchHit> {
    if in_book(c.reference@, b.code@) && contains_text(c.content@, q.content_filter@) && (
    q.book_filter@.len() == 0 || contains_text(b.name@, q.book_filter@)) {
        Some(
            SearchHit {
                book_number: b.number,
                book_name: b.name@,
                chapter_number: chapter_of_key(c.reference@),
                snippet: snippet_for(c.content@, q.content_filter@),
                content: c.content@,
            },
        )
    } else {
        None
    }
}

/// The matches among `cs` in book `b`, in the order of `cs`.
pub open spec fn hits_in_book(b: Book, cs: Seq<Chapter>, q: SearchQuery) -> Seq<SearchHit>
    decreases cs.len(),
{
    if cs.len() == 0 {
        Seq::empty()
    } else {
        match hit_of(b, cs.last(), q) {
            Some(h) => hits_in_book(b, cs.drop_last(), q).push(h),
            None => hits_in_book(b, cs.drop_last(), q),
        }
    }
}

/// The matches in books `bs`, book by book.
pub open spec fn hits(bs: Seq<Book>, cs: Seq<Chapter>, q: SearchQuery) -> Seq<SearchHit>
    decreases bs.len(),
{
    if bs.len() == 0 {
        Seq::empty()
    } else {
        hits(bs.drop_last(), cs, q) + hits_in_book(bs.last(), cs, q)
    }
}

/// The order of results: by book ordinal, then by chapter number; results
/// that share both go by book name, then by snippet, in the order of their
/// characters, so that no two different results tie.
pub open spec fn result_le(x: (i32, Seq<char>, i32, Seq<char>), y: (i32, Seq<char>, i32, Seq<char>)) -> bool {
    x.0 < y.0 || (x.0 == y.0 && (x.2 < y.2 || (x.2 == y.2 && text_le(x.1, y.1) && (x.1 == y.1
        ==> text_le(x.3, y.3)))))
}

pub proof fn lemma_result_le_antisymmetric(
    x: (i32, Seq<char>, i32, Seq<char>),
    y: (i32, Seq<char>, i32, Seq<char>),
)
    requires
        result_le(x, y),
        result_le(y, x),
    ensures
        x == y,
{
    lemma_text_le_antisymmetric(x.1, y.1);
    lemma_text_le_antisymmetric(x.3, y.3);
}

/// By book ordinal, then by chapter number (ties broken as `result_le` says).
pub struct ByBookAndChapter;

impl Ranking<SearchResult> for ByBookAndChapter {
    open spec fn precedes(a: &SearchResult, b: &SearchResult) -> bool {
        result_le(a.spec_view(), b.spec_view())
    }

    fn test(a: &SearchResult, b: &SearchResult) -> (r: bool) {
        if a.book_number != b.book_number {
            return a.book_number < b.book_number;
        }
        if a.chapter_number != b.chapter_number {
            return a.chapter_number < b.chapter_number;
        }
        let an = chars_of(a.book_name.as_str());
        let bn = chars_of(b.book_name.as_str());
        if !chars_le(&an, &bn) {
            return false;
        }
        if same_text(a.book_name.as_str(), b.book_name.as_str()) {
            chars_le(&chars_of(a.snippet.as_str()), &chars_of(b.snippet.as_str()))
        } else {
            true
        }
    }

    proof fn lemma_total(a: &SearchResult, b: &SearchResult) {
        lemma_text_le_total(a.book_name@, b.book_name@);
        lemma_text_le_total(a.snippet@, b.snippet@);
    }

    proof fn lemma_transitive(a: &SearchResult, b: &SearchResult, c: &SearchResult) {
        let (x, y, z) = (a.spec_view(), b.spec_view(), c.spec_view());
        if x.0 == y.0 && y.0 == z.0 && x.2 == y.2 && y.2 == z.2 {
            lemma_text_le_transitive(x.1, y.1, z.1);
            if x.1 == z.1 {
                lemma_text_le_antisymmetric(x.1, y.1);
                lemma_text_le_transitive(x.3, y.3, z.3);
            }
        }
    }
}

/// Two sequences of results, each in `result_le` order, that hold the same
/// results are the same sequence.
pub proof fn lemma_sorted_results_unique(
    v1: Seq<(i32, Seq<char>, i32, Seq<char>)>,
    v2: Seq<(i32, Seq<char>, i32, Seq<char>)>,
)
    requires
        v1.to_multiset() == v2.to_multiset(),
        forall|i: int, j: int| 0 <= i < j < v1.len() ==> result_le(v1[i], v1[j]),
        forall|i: int, j: int| 0 <= i < j < v2.len() ==> result_le(v2[i], v2[j]),
    ensures
        v1 == v2,
    decreases v1.len(),
{
    broadcast use vstd::seq_lib::group_to_multiset_ensures;

    assert(v1.to_multiset().len() == v1.len());
    assert(v2.to_multiset().len() == v2.len());
    assert(v1.len() == v2.len());
    if v1.len() > 0 {
        let x = v1[0];
        let y = v2[0];
        assert(v1.contains(x));
        assert(v2.to_multiset().count(x) > 0);
        assert(v2.contains(x));
        let k = choose|k: int| 0 <= k < v2.len() && v2[k] == x;
        assert(result_le(y, x)) by {
            if k > 0 {
                assert(result_le(v2[0], v2[k]));
            } else {
                lemma_text_le_total(x.1, x.1);
                lemma_text_le_total(x.3, x.3);
            }
        }
        assert(v1.contains(y)) by {
            assert(v2.contains(y));
            assert(v1.to_multiset().count(y) > 0);
        }
        let m = choose|m: int| 0 <= m < v1.len() && v1[m] == y;
        assert(result_le(x, y)) by {
            if m > 0 {
                assert(result_le(v1[0], v1[m]));
            } else {
                lemma_text_le_total(x.1, x.1);
                lemma_text_le_total(x.3, x.3);
            }
        }
        lemma_result_le_antisymmetric(x, y);
        assert(v1.remove(0) =~= v1.drop_first());
        assert(v2.remove(0) =~= v2.drop_first());
        assert(v1.drop_first().to_multiset() == v2.drop_first().to_multiset());
        assert forall|i: int, j: int| 0 <= i < j < v1.drop_first().len() implies result_le(
            v1.drop_first()[i],
            v1.drop_first()[j],
        ) by {
            assert(result_le(v1[i + 1], v1[j + 1]));
        }
        assert forall|i: int, j: int| 0 <= i < j < v2.drop_first().len() implies result_le(
            v2.drop_first()[i],
            v2.drop_first()[j],
        ) by {
            assert(result_le(v2[i + 1], v2[j + 1]));
        }
        lemma_sorted_results_unique(v1.drop_first(), v2.drop_first());
        assert(v1 =~= seq![x] + v1.drop_first());
        assert(v2 =~= seq![y] + v2.drop_first());
    }
}

fn copy_string(s: &String) -> (r: String)
    ensures
        r@ == s@,
{
    s.clone()
}

/// Runs a search over the books and chapters of one version. An empty
/// searched text finds nothing. Otherwise each chapter of a book whose
/// text holds the searched text, in a book whose name holds the book filter
/// where there is one, gives one result; the results come by book ordinal,
/// then chapter number, whatever the order of `books` and `chapters`. The
/// texts of the matched chapters are kept, in the order of the matches.
pub fn execute(books: &Vec<Book>, chapters: &Vec<Chapter>, query: &SearchQuery) -> (r: SearchOutcome)
    ensures
        sorted_by::<SearchResult, ByBookAndChapter>(r.results@),
        query.content_filter@.len() == 0 ==> r.results@.len() == 0 && r.cache@.len() == 0,
        query.content_filter@.len() > 0 ==> r.results@.map_values(|x: SearchResult| x.spec_view()).to_multiset()
            == hits(books@, chapters@, *query).map_values(|h: SearchHit| h.result()).to_multiset(),
        query.content_filter@.len() > 0 ==> r.cache@.map_values(|x: CachedChapter| x.spec_view())
            == hits(books@, chapters@, *query).map_values(|h: SearchHit| h.cached()),
{
    let needle = chars_of(query.content_filter.as_str());
    if needle.len() == 0 {
        return SearchOutcome { results: Vec::new(), cache: Vec::new() };
    }
    let book_needle = chars_of(query.book_filter.as_str());
    let mut refs: Vec<Vec<char>> = Vec::new();
    let mut j: usize = 0;
    while j < chapters.len()
        invariant
            j <= chapters@.len(),
            refs@.len() == j,
            forall|k: int| 0 <= k < j ==> (#[trigger] refs@[k])@ == chapters@[k].reference@,
        decreases chapters.len() - j,
    {
        refs.push(chars_of(chapters[j].reference.as_str()));
        j = j + 1;
    }
    let ghost all = hits(books@, chapters@, *query);
    let mut results: Vec<SearchResult> = Vec::new();
    let mut cache: Vec<CachedChapter> = Vec::new();
    let mut bi: usize = 0;
    while bi < books.len()
        invariant
            bi <= books@.len(),
            needle@ == query.content_filter@,
            book_needle@ == query.book_filter@,
            refs@.len() == chapters@.len(),
            forall|k: int| 0 <= k < chapters@.len() ==> (#[trigger] refs@[k])@ == chapters@[k].reference@,
            results@.map_values(|x: SearchResult| x.spec_view()) == hits(
                books@.subrange(0, bi as int),
                chapters@,
                *query,
            ).map_values(|h: SearchHit| h.result()),
            cache@.map_values(|x: CachedChapter| x.spec_view()) == hits(
                books@.subrange(0, bi as int),
                chapters@,
                *query,
            ).map_values(|h: SearchHit| h.cached()),
        decreases books.len() - bi,
    {
        let book = &books[bi];
        let code = chars_of(book.code.as_str());
        let book_ok = book_needle.len() == 0 || contains_str_chars(book.name.as_str(), &book_needle);
        let ghost done = hits(books@.subrange(0, bi as int), chapters@, *query);
        assert(books@.subrange(0, bi + 1).drop_last() =~= books@.subrange(0, bi as int));
        let mut ci: usize = 0;
        assert(chapters@.subrange(0, 0) =~= Seq::<Chapter>::empty());
        assert(done + hits_in_book(*book, chapters@.subrange(0, 0), *query) =~= done);
        while ci < chapters.len()
            invariant
                bi < books@.len(),
                *book == books@[bi as int],
                code@ == book.code@,
                book_ok == (query.book_filter@.len() == 0 || contains_text(book.name@, query.book_filter@)),
                ci <= chapters@.len(),
                needle@ == query.content_filter@,
                refs@.len() == chapters@.len(),
                forall|k: int| 0 <= k < chapters@.len() ==> (#[trigger] refs@[k])@ == chapters@[k].reference@,
                results@.map_values(|x: SearchResult| x.spec_view()) == (done + hits_in_book(
                    *book,
                    chapters@.subrange(0, ci as int),
                    *query,
                )).map_values(|h: SearchHit| h.result()),
                cache@.map_values(|x: CachedChapter| x.spec_view()) == (done + hits_in_book(
                    *book,
                    chapters@.subrange(0, ci as int),
                    *query,
                )).map_values(|h: SearchHit| h.cached()),
            decreases chapters.len() - ci,
        {
            let chapter = &chapters[ci];
            let ghost sub = chapters@.subrange(0, ci as int);
            assert(chapters@.subrange(0, ci + 1).drop_last() =~= sub);
            assert(chapters@.subrange(0, ci + 1).last() == *chapter);
            let ghost before = done + hits_in_book(*book, sub, *query);
            if book_ok && is_in_book(&refs[ci], &code) {
                let content = chars_of(chapter.content.as_str());
                if contains_chars(&content, &needle) {
                    let result = SearchResult {
                        book_number: book.number,
                        book_name: copy_string(&book.name),
                        chapter_number: chapter_number_of_key(chapter.reference.as_str()),
                        snippet: snippet(chapter.content.as_str(), query.content_filter.as_str()),
                    };
                    let entry = CachedChapter {
                        book_number: book.number,
                        chapter_number: result.chapter_number,
                        content: copy_string(&chapter.content),
                    };
                    let ghost h = hit_of(*book, *chapter, *query)->0;
                    let ghost old_results = results@;
                    let ghost old_cache = cache@;
                    results.push(result);
                    cache.push(entry);
                    assert(done + hits_in_book(*book, chapters@.subrange(0, ci + 1), *query) =~= before.push(h));
                    assert(results@.map_values(|x: SearchResult| x.spec_view()) =~= old_results.map_values(
                        |x: SearchResult| x.spec_view(),
                    ).push(h.result()));
                    assert(cache@.map_values(|x: CachedChapter| x.spec_view()) =~= old_cache.map_values(
                        |x: CachedChapter| x.spec_view(),
                    ).push(h.cached()));
                    assert(before.push(h).map_values(|h: SearchHit| h.result()) =~= before.map_values(
                        |h: SearchHit| h.result(),
                    ).push(h.result()));
                    assert(before.push(h).map_values(|h: SearchHit| h.cached()) =~= before.map_values(
                        |h: SearchHit| h.cached(),
                    ).push(h.cached()));
                } else {
                    assert(done + hits_in_book(*book, chapters@.subrange(0, ci + 1), *query) =~= before);
                }
            } else {
                assert(done + hits_in_book(*book, chapters@.subrange(0, ci + 1), *query) =~= before);
            }
            ci = ci + 1;
        }
        assert(chapters@.subrange(0, chapters@.len() as int) =~= chapters@);
        bi = bi + 1;
    }
    assert(books@.subrange(0, books@.len() as int) =~= books@);
    let ghost unsorted = results@;
    let sorted = sort_by::<SearchResult, ByBookAndChapter>(results);
    proof {
        lemma_map_values_multiset(sorted@, unsorted, |x: SearchResult| x.spec_view());
    }
    SearchOutcome { results: sorted, cache }
}

fn contains_str_chars(hay: &str, needle: &Vec<char>) -> (r: bool)
    ensures
        r == contains_text(hay@, needle@),
{
    contains_chars(&chars_of(hay), needle)
}

/// The text kept for chapter `chapter_number` of book `book_number`: the
/// first entry under that key.
pub open spec fn first_cached(cache: Seq<CachedChapter>, book_number: i32, chapter_number: i32) -> Option<Seq<char>>
    decreases cache.len(),
{
    if cache.len() == 0 {
        None
    } else {
        match first_cached(cache.drop_last(), book_number, chapter_number) {
            Some(t) => Some(t),
            None => if cache.last().book_number == book_number && cache.last().chapter_number
                == chapter_number {
                Some(cache.last().content@)
            } else {
                None
            },
        }
    }
}

impl SearchOutcome {
    /// The kept text of chapter `chapter_number` of book `book_number`.
    pub fn cached_content(&self, book_number: i32, chapter_number: i32) -> (r: Option<String>)
        ensures
            match r {
                Some(t) => first_cached(self.cache@, book_number, chapter_number) == Some(t@),
                None => first_cached(self.cache@, book_number, chapter_number) is None,
            },
    {
        let mut k: usize = 0;
        while k < self.cache.len()
            invariant
                k <= self.cache@.len(),
                first_cached(self.cache@.subrange(0, k as int), book_number, chapter_number) is None,
            decreases self.cache.len() - k,
        {
            assert(self.cache@.subrange(0, k + 1).drop_last() =~= self.cache@.subrange(0, k as int));
            if self.cache[k].book_number == book_number && self.cache[k].chapter_number == chapter_number {
                let t = copy_string(&self.cache[k].content);
                proof {
                    lemma_first_cached_prefix(self.cache@, k + 1, book_number, chapter_number);
                }
                return Some(t);
            }
            k = k + 1;
        }
        assert(self.cache@.subrange(0, k as int) =~= self.cache@);
        None
    }
}

/// An entry found in a prefix stays the first one found in the whole.
proof fn lemma_first_cached_prefix(cache: Seq<CachedChapter>, n: int, book_number: i32, chapter_number: i32)
    requires
        0 <= n <= cache.len(),
        first_cached(cache.subrange(0, n), book_number, chapter_number) is Some,
    ensures
        first_cached(cache, book_number, chapter_number) == first_cached(
            cache.subrange(0, n),
            book_number,
            chapter_number,
        ),
    decreases cache.len() - n,
{
    if n < cache.len() {
        assert(cache.subrange(0, n + 1).drop_last() =~= cache.subrange(0, n));
        lemma_first_cached_prefix(cache, n + 1, book_number, chapter_number);
    } else {
        assert(cache.subrange(0, n) =~= cache);
    }
}

/// The results that `h` stands for, as a multiset.
pub open spec fn result_bag(h: Seq<SearchHit>) -> Multiset<(i32, Seq<char>, i32, Seq<char>)> {
    h.map_values(|x: SearchHit| x.result()).to_multiset()
}

proof fn lemma_result_bag_concat(a: Seq<SearchHit>, b: Seq<SearchHit>)
    ensures
        result_bag(a + b) == result_bag(a).add(result_bag(b)),
{
    let f = |x: SearchHit| x.result();
    assert((a + b).map_values(f) =~= a.map_values(f) + b.map_values(f));
    vstd::seq_lib::lemma_multiset_commutative(a.map_values(f), b.map_values(f));
}

proof fn lemma_hits_in_book_concat(b: Book, x: Seq<Chapter>, y: Seq<Chapter>, q: SearchQuery)
    ensures
        hits_in_book(b, x + y, q) == hits_in_book(b, x, q) + hits_in_book(b, y, q),
    decreases y.len(),
{
    if y.len() == 0 {
        assert(x + y =~= x);
        assert(hits_in_book(b, x, q) + Seq::<SearchHit>::empty() =~= hits_in_book(b, x, q));
    } else {
        assert((x + y).drop_last() =~= x + y.drop_last());
        assert((x + y).last() == y.last());
        lemma_hits_in_book_concat(b, x, y.drop_last(), q);
        match hit_of(b, y.last(), q) {
            Some(h) => {
                assert(hits_in_book(b, x, q) + hits_in_book(b, y.drop_last(), q).push(h) =~= (
                hits_in_book(b, x, q) + hits_in_book(b, y.drop_last(), q)).push(h));
            },
            None => {},
        }
    }
}

proof fn lemma_hits_concat(x: Seq<Book>, y: Seq<Book>, cs: Seq<Chapter>, q: SearchQuery)
    ensures
        hits(x + y, cs, q) == hits(x, cs, q) + hits(y, cs, q),
    decreases y.len(),
{
    if y.len() == 0 {
        assert(x + y =~= x);
        assert(hits(x, cs, q) + Seq::<SearchHit>::empty() =~= hits(x, cs, q));
    } else {
        assert((x + y).drop_last() =~= x + y.drop_last());
        assert((x + y).last() == y.last());
        lemma_hits_concat(x, y.drop_last(), cs, q);
        assert(hits(x, cs, q) + hits(y.drop_last(), cs, q) + hits_in_book(y.last(), cs, q) =~= hits(
            x,
            cs,
            q,
        ) + (hits(y.drop_last(), cs, q) + hits_in_book(y.last(), cs, q)));
    }
}

/// Cutting `s` at `j`: what stands before, the element, and what follows.
proof fn lemma_split_at<T>(s: Seq<T>, j: int)
    requires
        0 <= j < s.len(),
    ensures
        s == s.subrange(0, j) + seq![s[j]] + s.subrange(j + 1, s.len() as int),
        s.remove(j) == s.subrange(0, j) + s.subrange(j + 1, s.len() as int),
{
    assert(s =~= s.subrange(0, j) + seq![s[j]] + s.subrange(j + 1, s.len() as int));
    assert(s.remove(j) =~= s.subrange(0, j) + s.subrange(j + 1, s.len() as int));
}

/// Taking the last element of `a` out of `b`, where both hold the same
/// elements, leaves two sequences that again hold the same elements.
proof fn lemma_same_elements_without<T>(a: Seq<T>, b: Seq<T>) -> (j: int)
    requires
        a.len() > 0,
        a.to_multiset() == b.to_multiset(),
    ensures
        0 <= j < b.len(),
        b[j] == a.last(),
        a.drop_last().to_multiset() == b.remove(j).to_multiset(),
{
    broadcast use vstd::seq_lib::group_to_multiset_ensures;

    let x = a.last();
    assert(a.contains(x)) by {
        assert(a[a.len() - 1] == x);
    }
    assert(a.to_multiset().count(x) > 0);
    assert(b.to_multiset().count(x) > 0);
    assert(b.contains(x));
    let j = choose|j: int| 0 <= j < b.len() && b[j] == x;
    assert(a.drop_last() =~= a.remove(a.len() - 1));
    j
}

proof fn lemma_hits_in_book_reordered(b: Book, c1: Seq<Chapter>, c2: Seq<Chapter>, q: SearchQuery)
    requires
        c1.to_multiset() == c2.to_multiset(),
    ensures
        result_bag(hits_in_book(b, c1, q)) == result_bag(hits_in_book(b, c2, q)),
    decreases c1.len(),
{
    broadcast use vstd::seq_lib::group_to_multiset_ensures;

    if c1.len() == 0 {
        assert(c2.to_multiset().len() == 0);
        assert(c2.len() == 0);
        assert(c1 =~= c2);
    } else {
        let j = lemma_same_elements_without(c1, c2);
        let x = c1.last();
        let one = seq![x];
        lemma_hits_in_book_reordered(b, c1.drop_last(), c2.remove(j), q);
        assert(c1 =~= c1.drop_last() + one);
        lemma_hits_in_book_concat(b, c1.drop_last(), one, q);
        lemma_result_bag_concat(hits_in_book(b, c1.drop_last(), q), hits_in_book(b, one, q));
        let pre = c2.subrange(0, j);
        let post = c2.subrange(j + 1, c2.len() as int);
        lemma_split_at(c2, j);
        lemma_hits_in_book_concat(b, pre + one, post, q);
        lemma_hits_in_book_concat(b, pre, one, q);
        lemma_hits_in_book_concat(b, pre, post, q);
        lemma_result_bag_concat(hits_in_book(b, pre, q) + hits_in_book(b, one, q), hits_in_book(b, post, q));
        lemma_result_bag_concat(hits_in_book(b, pre, q), hits_in_book(b, one, q));
        lemma_result_bag_concat(hits_in_book(b, pre, q), hits_in_book(b, post, q));
        assert(result_bag(hits_in_book(b, c1, q)) =~= result_bag(hits_in_book(b, c2, q)));
    }
}

proof fn lemma_hits_chapters_reordered(bs: Seq<Book>, c1: Seq<Chapter>, c2: Seq<Chapter>, q: SearchQuery)
    requires
        c1.to_multiset() == c2.to_multiset(),
    ensures
        result_bag(hits(bs, c1, q)) == result_bag(hits(bs, c2, q)),
    decreases bs.len(),
{
    if bs.len() > 0 {
        lemma_hits_chapters_reordered(bs.drop_last(), c1, c2, q);
        lemma_hits_in_book_reordered(bs.last(), c1, c2, q);
        lemma_result_bag_concat(hits(bs.drop_last(), c1, q), hits_in_book(bs.last(), c1, q));
        lemma_result_bag_concat(hits(bs.drop_last(), c2, q), hits_in_book(bs.last(), c2, q));
    }
}

proof fn lemma_hits_books_reordered(b1: Seq<Book>, b2: Seq<Book>, cs: Seq<Chapter>, q: SearchQuery)
    requires
        b1.to_multiset() == b2.to_multiset(),
    ensures
        result_bag(hits(b1, cs, q)) == result_bag(hits(b2, cs, q)),
    decreases b1.len(),
{
    broadcast use vstd::seq_lib::group_to_multiset_ensures;

    if b1.len() == 0 {
        assert(b2.to_multiset().len() == 0);
        assert(b2.len() == 0);
        assert(b1 =~= b2);
    } else {
        let j = lemma_same_elements_without(b1, b2);
        let x = b1.last();
        let one = seq![x];
        lemma_hits_books_reordered(b1.drop_last(), b2.remove(j), cs, q);
        assert(b1 =~= b1.drop_last() + one);
        lemma_hits_concat(b1.drop_last(), one, cs, q);
        lemma_result_bag_concat(hits(b1.drop_last(), cs, q), hits(one, cs, q));
        let pre = b2.subrange(0, j);
        let post = b2.subrange(j + 1, b2.len() as int);
        lemma_split_at(b2, j);
        lemma_hits_concat(pre + one, post, cs, q);
        lemma_hits_concat(pre, one, cs, q);
        lemma_hits_concat(pre, post, cs, q);
        lemma_result_bag_concat(hits(pre, cs, q) + hits(one, cs, q), hits(post, cs, q));
        lemma_result_bag_concat(hits(pre, cs, q), hits(one, cs, q));
        lemma_result_bag_concat(hits(pre, cs, q), hits(post, cs, q));
        assert(result_bag(hits(b1, cs, q)) =~= result_bag(hits(b2, cs, q)));
    }
}

/// Search results do not depend on the order in which the store hands over
/// books and chapters: the same books and chapters in any order give the
/// same results, which `execute` then lists by book ordinal and chapter
/// number.
pub proof fn lemma_results_independent_of_storage_order(
    b1: Seq<Book>,
    b2: Seq<Book>,
    c1: Seq<Chapter>,
    c2: Seq<Chapter>,
    q: SearchQuery,
)
    requires
        b1.to_multiset() == b2.to_multiset(),
        c1.to_multiset() == c2.to_multiset(),
    ensures
        hits(b1, c1, q).map_values(|h: SearchHit| h.result()).to_multiset() == hits(
            b2,
            c2,
            q,
        ).map_values(|h: SearchHit| h.result()).to_multiset(),
{
    lemma_hits_chapters_reordered(b1, c1, c2, q);
    lemma_hits_books_reordered(b1, b2, c2, q);
}

/// Search results come in one order, whatever the order in which the store
/// hands over books and chapters: two result lists with the properties that
/// `execute` promises, for the same books and chapters given in any order,
/// are the same list.
pub proof fn lemma_search_order_independent_of_storage(
    b1: Seq<Book>,
    b2: Seq<Book>,
    c1: Seq<Chapter>,
    c2: Seq<Chapter>,
    q: SearchQuery,
    r1: Seq<SearchResult>,
    r2: Seq<SearchResult>,
)
    requires
        b1.to_multiset() == b2.to_multiset(),
        c1.to_multiset() == c2.to_multiset(),
        sorted_by::<SearchResult, ByBookAndChapter>(r1),
        sorted_by::<SearchResult, ByBookAndChapter>(r2),
        r1.map_values(|x: SearchResult| x.spec_view()).to_multiset() == hits(b1, c1, q).map_values(
            |h: SearchHit| h.result(),
        ).to_multiset(),
        r2.map_values(|x: SearchResult| x.spec_view()).to_multiset() == hits(b2, c2, q).map_values(
            |h: SearchHit| h.result(),
        ).to_multiset(),
    ensures
        r1.map_values(|x: SearchResult| x.spec_view()) == r2.map_values(|x: SearchResult| x.spec_view()),
{
    lemma_results_independent_of_storage_order(b1, b2, c1, c2, q);
    let v1 = r1.map_values(|x: SearchResult| x.spec_view());
    let v2 = r2.map_values(|x: SearchResult| x.spec_view());
    assert forall|i: int, j: int| 0 <= i < j < v1.len() implies result_le(v1[i], v1[j]) by {
        assert(ByBookAndChapter::precedes(&r1[i], &r1[j]));
    }
    assert forall|i: int, j: int| 0 <= i < j < v2.len() implies result_le(v2[i], v2[j]) by {
        assert(ByBookAndChapter::precedes(&r2[i], &r2[j]));
    }
    lemma_sorted_results_unique(v1, v2);
}

} // verus!
