use bible_reader::highlight::{highlight_spans, spans_of_folded};
use bible_reader::search::{chapter_number_of_key, execute, parse_query, snippet, Book, Chapter, SearchQuery};

fn book(number: i32, code: &str, name: &str) -> Book {
    Book { number, code: code.to_string(), name: name.to_string() }
}

fn chapter(reference: &str, content: &str) -> Chapter {
    Chapter { reference: reference.to_string(), content: content.to_string() }
}

fn query(book: &str, content: &str) -> SearchQuery {
    SearchQuery { book_filter: book.to_string(), content_filter: content.to_string() }
}

#[test]
fn parse_query_with_book_filter() {
    let q = parse_query("约翰福音:爱");
    assert_eq!(q.book_filter, "约翰福音");
    assert_eq!(q.content_filter, "爱");
}

#[test]
fn parse_query_without_separator() {
    let q = parse_query("爱");
    assert_eq!(q.book_filter, "");
    assert_eq!(q.content_filter, "爱");
}

#[test]
fn parse_query_trims_and_takes_first_separator() {
    let q = parse_query("  创世记 ： 神 & 光 ");
    assert_eq!(q.book_filter, "创世记");
    assert_eq!(q.content_filter, "神 & 光");
    let q = parse_query("诗篇&赞美");
    assert_eq!(q.book_filter, "诗篇");
    assert_eq!(q.content_filter, "赞美");
    let q = parse_query("   ");
    assert_eq!(q.book_filter, "");
    assert_eq!(q.content_filter, "");
}

#[test]
fn chapter_number_from_reference_key() {
    assert_eq!(chapter_number_of_key("GEN.12"), 12);
    assert_eq!(chapter_number_of_key("1JN.3"), 3);
    assert_eq!(chapter_number_of_key("GEN.x"), 0);
    assert_eq!(chapter_number_of_key("GEN.-2"), -2);
    assert_eq!(chapter_number_of_key("42"), 42);
    assert_eq!(chapter_number_of_key("GEN.99999999999"), 0);
}

#[test]
fn snippet_is_first_matching_line() {
    assert_eq!(snippet("起初神创造\r\n神说要有光\n光就有了", "光"), "神说要有光");
    assert_eq!(snippet("a\nb", "zz"), "a\nb");
    assert_eq!(snippet("one line", "line"), "one line");
    assert_eq!(snippet("x\r", "x"), "x\r");
}

fn corpus() -> (Vec<Book>, Vec<Chapter>) {
    let books = vec![book(43, "JHN", "约翰福音"), book(1, "GEN", "创世记"), book(62, "1JN", "约翰一书")];
    let chapters = vec![
        chapter("JHN.3", "神爱世人\n甚至将他的独生子赐给他们"),
        chapter("GEN.10", "诸国的后裔"),
        chapter("1JN.4", "神就是爱"),
        chapter("GEN.2", "那人和他妻子\n爱"),
        chapter("JHN.13", "你们要彼此相爱"),
        chapter("GEN.1", "起初神创造天地"),
    ];
    (books, chapters)
}

#[test]
fn execute_orders_by_book_then_chapter() {
    let (books, chapters) = corpus();
    let out = execute(&books, &chapters, &query("", "爱"));
    let keys: Vec<(i32, i32)> = out.results.iter().map(|r| (r.book_number, r.chapter_number)).collect();
    assert_eq!(keys, vec![(1, 2), (43, 3), (43, 13), (62, 4)]);
    assert_eq!(out.results[0].snippet, "爱");
    assert_eq!(out.results[1].snippet, "神爱世人");
    assert_eq!(out.results[1].book_name, "约翰福音");
}

#[test]
fn execute_order_does_not_depend_on_storage_order() {
    let (mut books, mut chapters) = corpus();
    books.reverse();
    chapters.reverse();
    let out = execute(&books, &chapters, &query("", "爱"));
    let keys: Vec<(i32, i32)> = out.results.iter().map(|r| (r.book_number, r.chapter_number)).collect();
    assert_eq!(keys, vec![(1, 2), (43, 3), (43, 13), (62, 4)]);
}

#[test]
fn execute_filters_by_book_name() {
    let (books, chapters) = corpus();
    let out = execute(&books, &chapters, &query("约翰", "爱"));
    let keys: Vec<(i32, i32)> = out.results.iter().map(|r| (r.book_number, r.chapter_number)).collect();
    assert_eq!(keys, vec![(43, 3), (43, 13), (62, 4)]);
    let out = execute(&books, &chapters, &query("约翰福音", "爱"));
    assert_eq!(out.results.len(), 2);
}

#[test]
fn execute_with_empty_content_filter_finds_nothing() {
    let (books, chapters) = corpus();
    let out = execute(&books, &chapters, &query("约翰", ""));
    assert!(out.results.is_empty());
    assert!(out.cache.is_empty());
}

#[test]
fn execute_is_case_sensitive() {
    let books = vec![book(1, "GEN", "Genesis")];
    let chapters = vec![chapter("GEN.1", "In the beginning God")];
    assert_eq!(execute(&books, &chapters, &query("", "god")).results.len(), 0);
    assert_eq!(execute(&books, &chapters, &query("", "God")).results.len(), 1);
}

#[test]
fn execute_keeps_chapter_texts() {
    let (books, chapters) = corpus();
    let out = execute(&books, &chapters, &query("", "爱"));
    assert_eq!(out.cache.len(), 4);
    assert_eq!(out.cached_content(43, 3), Some("神爱世人\n甚至将他的独生子赐给他们".to_string()));
    assert_eq!(out.cached_content(1, 1), None);
}

#[test]
fn highlight_three_adjacent_matches() {
    let spans = highlight_spans("abcABCabc", "abc");
    let got: Vec<(bool, String)> = spans.into_iter().map(|s| (s.is_match, s.text)).collect();
    assert_eq!(
        got,
        vec![(true, "abc".to_string()), (true, "ABC".to_string()), (true, "abc".to_string())]
    );
}

#[test]
fn highlight_with_gaps_and_remainder() {
    let spans = highlight_spans("xxAbcyyABC!", "aBc");
    let got: Vec<(bool, String)> = spans.into_iter().map(|s| (s.is_match, s.text)).collect();
    assert_eq!(
        got,
        vec![
            (false, "xx".to_string()),
            (true, "Abc".to_string()),
            (false, "yy".to_string()),
            (true, "ABC".to_string()),
            (false, "!".to_string()),
        ]
    );
}

#[test]
fn highlight_does_not_overlap() {
    let spans = highlight_spans("aaaa", "aa");
    let got: Vec<(bool, String)> = spans.into_iter().map(|s| (s.is_match, s.text)).collect();
    assert_eq!(got, vec![(true, "aa".to_string()), (true, "aa".to_string())]);
    let spans = highlight_spans("aaa", "aa");
    let got: Vec<(bool, String)> = spans.into_iter().map(|s| (s.is_match, s.text)).collect();
    assert_eq!(got, vec![(true, "aa".to_string()), (false, "a".to_string())]);
}

#[test]
fn highlight_multibyte_text() {
    let spans = highlight_spans("神爱世人，爱", "爱");
    let got: Vec<(bool, String)> = spans.into_iter().map(|s| (s.is_match, s.text)).collect();
    assert_eq!(
        got,
        vec![
            (false, "神".to_string()),
            (true, "爱".to_string()),
            (false, "世人，".to_string()),
            (true, "爱".to_string()),
        ]
    );
}

#[test]
fn highlight_edge_cases() {
    assert!(highlight_spans("", "a").is_empty());
    let got: Vec<(bool, String)> = highlight_spans("abc", "").into_iter().map(|s| (s.is_match, s.text)).collect();
    assert_eq!(got, vec![(false, "abc".to_string())]);
    let got: Vec<(bool, String)> = highlight_spans("abc", "z").into_iter().map(|s| (s.is_match, s.text)).collect();
    assert_eq!(got, vec![(false, "abc".to_string())]);
    // 'İ' lower-cases to two characters: positions would not agree.
    let got: Vec<(bool, String)> = highlight_spans("İx", "x").into_iter().map(|s| (s.is_match, s.text)).collect();
    assert_eq!(got, vec![(false, "İx".to_string())]);
}

#[test]
fn spans_of_folded_text() {
    let got: Vec<(bool, String)> =
        spans_of_folded("abcABCabc", "abcabcabc", "abc").into_iter().map(|s| (s.is_match, s.text)).collect();
    assert_eq!(got.len(), 3);
    assert!(got.iter().all(|(m, _)| *m));
    assert_eq!(got[1].1, "ABC");
}

#[test]
fn opening_a_result_moves_and_reuses_the_kept_text() {
    let (books, chapters) = corpus();
    let out = execute(&books, &chapters, &query("", "爱"));
    let mut nav = bible_reader::navigation::Navigator::new();
    nav.go_to(bible_reader::navigation::ReadingPosition::new("v".to_string(), 1, "1".to_string()));
    let text = nav.open_result(&out, "v", 43, 13);
    assert_eq!(text, Some("你们要彼此相爱".to_string()));
    let here = nav.current.clone().unwrap();
    assert_eq!((here.book, here.chapter.as_str()), (43, "13"));
    assert_eq!(nav.history.back_len(), 1);
    assert_eq!(nav.open_result(&out, "v", 1, 1), None);
}
