use bible_reader::navigation::ReadingPosition;
use bible_reader::note_app::NoteApp;
use bible_reader::note_query::{mode_for_field, parse_search_input, parse_search_term, NoteSearchMode, NoteSearchQuery};
use bible_reader::notes::{appended_note_label, note_list_title, note_location, NoteTable, Notedb};

fn note(id: &str, version: &str, book: i32, chapter: &str, verse_start: i32) -> Notedb {
    Notedb {
        id: id.to_string(),
        book_num: Some(book),
        book_name: Some("创世记".to_string()),
        chapter: Some(chapter.to_string()),
        verse_start,
        char_offset: Some(0),
        title: None,
        keywords: None,
        reference: None,
        body: None,
        subject: None,
        version: Some(version.to_string()),
        created_at: Some("2024-01-01".to_string()),
        updated_at: None,
    }
}

fn terms(q: &NoteSearchQuery) -> Vec<(NoteSearchMode, String)> {
    q.terms.iter().map(|t| (t.mode, t.text.clone())).collect()
}

#[test]
fn parse_title_and_keyword_terms() {
    let q = parse_search_input("title:信心;keyword:爱");
    assert_eq!(
        terms(&q),
        vec![(NoteSearchMode::Title, "信心".to_string()), (NoteSearchMode::Keyword, "爱".to_string())]
    );
}

#[test]
fn parse_bilingual_aliases_and_separators() {
    let q = parse_search_input(" 标题：信心 ， 内容:恩典；关键词: 爱 ,主题:盼望; keywords:望 ");
    assert_eq!(
        terms(&q),
        vec![
            (NoteSearchMode::Title, "信心".to_string()),
            (NoteSearchMode::Content, "恩典".to_string()),
            (NoteSearchMode::Keyword, "爱".to_string()),
            (NoteSearchMode::Subject, "盼望".to_string()),
            (NoteSearchMode::Keyword, "望".to_string()),
        ]
    );
}

#[test]
fn parse_field_names_ignore_case() {
    let q = parse_search_input("TITLE:a;Subject:b");
    assert_eq!(
        terms(&q),
        vec![(NoteSearchMode::Title, "a".to_string()), (NoteSearchMode::Subject, "b".to_string())]
    );
}

#[test]
fn parse_bare_unknown_and_empty_pieces() {
    let q = parse_search_input("信心;;  ;author:保罗;title:  ;:恩典");
    assert_eq!(
        terms(&q),
        vec![
            (NoteSearchMode::Default, "信心".to_string()),
            (NoteSearchMode::Default, "保罗".to_string()),
            (NoteSearchMode::Content, "恩典".to_string()),
        ]
    );
    assert!(parse_search_input("").terms.is_empty());
    assert!(parse_search_term("  ").is_none());
}

#[test]
fn field_modes() {
    assert_eq!(mode_for_field("title"), NoteSearchMode::Title);
    assert_eq!(mode_for_field("内容"), NoteSearchMode::Content);
    assert_eq!(mode_for_field(""), NoteSearchMode::Content);
    assert_eq!(mode_for_field("keywords"), NoteSearchMode::Keyword);
    assert_eq!(mode_for_field("主题"), NoteSearchMode::Subject);
    assert_eq!(mode_for_field("Title"), NoteSearchMode::Default);
}

#[test]
fn saved_note_is_found_at_its_chapter_only() {
    let mut t = NoteTable::new("notes".to_string());
    t.save(note("n1", "和合本.sqlite3", 1, "3", -1), "2024-05-06".to_string());
    let found = t.load_for_chapter("和合本.sqlite3", 1, "3");
    assert_eq!(found.len(), 1);
    assert_eq!(found[0].id, "n1");
    assert_eq!(found[0].updated_at, Some("2024-05-06".to_string()));
    assert_eq!(found[0].created_at, Some("2024-01-01".to_string()));
    assert!(t.load_for_chapter("和修本.sqlite3", 1, "3").is_empty());
    assert!(t.load_for_chapter("和合本.sqlite3", 2, "3").is_empty());
    assert!(t.load_for_chapter("和合本.sqlite3", 1, "4").is_empty());
}

#[test]
fn verse_notes_show_only_in_their_version_category() {
    let mut notes = NoteTable::new("notes".to_string());
    notes.save(note("v", "和合本.sqlite3", 1, "3", 5), "2024-05-06".to_string());
    assert!(notes.load_for_chapter("和合本.sqlite3", 1, "3").is_empty());
    let mut per_version = NoteTable::new("和合本.sqlite3".to_string());
    per_version.save(note("v", "和合本.sqlite3", 1, "3", 5), "2024-05-06".to_string());
    assert_eq!(per_version.load_for_chapter("和合本.sqlite3", 1, "3").len(), 1);
    assert_eq!(per_version.category(), "和合本.sqlite3");
}

#[test]
fn save_replaces_by_id() {
    let mut t = NoteTable::new("notes".to_string());
    let mut n = note("n1", "v", 1, "1", -1);
    t.save(n.clone(), "2024-01-02".to_string());
    n.title = Some("新标题".to_string());
    t.save(n, "2024-01-03".to_string());
    assert_eq!(t.len(), 1);
    let all = t.load_all();
    assert_eq!(all[0].title, Some("新标题".to_string()));
    assert_eq!(all[0].updated_at, Some("2024-01-03".to_string()));
}

#[test]
fn delete_removes_only_that_id() {
    let mut t = NoteTable::new("notes".to_string());
    t.save(note("a", "v", 1, "1", -1), "2024-01-02".to_string());
    t.save(note("b", "v", 1, "1", -1), "2024-01-02".to_string());
    t.delete("a");
    assert_eq!(t.len(), 1);
    assert_eq!(t.load_all()[0].id, "b");
    t.delete("missing");
    assert_eq!(t.len(), 1);
}

#[test]
fn load_all_newest_first() {
    let mut t = NoteTable::new("notes".to_string());
    let mut old = note("old", "v", 1, "1", -1);
    old.created_at = Some("2023-01-01".to_string());
    t.put(old);
    t.save(note("mid", "v", 1, "1", -1), "2024-03-01".to_string());
    t.save(note("new", "v", 1, "1", -1), "2024-09-01".to_string());
    let mut undated = note("none", "v", 1, "1", -1);
    undated.created_at = None;
    t.put(undated);
    let ids: Vec<String> = t.load_all().into_iter().map(|n| n.id).collect();
    assert_eq!(ids, vec!["new", "mid", "old", "none"]);
}

#[test]
fn search_notes_by_terms() {
    let mut t = NoteTable::new("notes".to_string());
    let mut a = note("a", "v", 1, "1", -1);
    a.title = Some("论信心".to_string());
    a.keywords = Some("爱;望".to_string());
    let mut b = note("b", "v", 1, "1", -1);
    b.title = Some("恩典".to_string());
    b.body = Some("信心与爱".to_string());
    b.subject = Some("盼望".to_string());
    t.save(a, "2024-01-01".to_string());
    t.save(b, "2024-02-01".to_string());
    let ids = |q: &str| -> Vec<String> {
        t.search_notes(&parse_search_input(q)).into_iter().map(|n| n.id).collect()
    };
    assert_eq!(ids("title:信心;keyword:爱"), vec!["a"]);
    assert_eq!(ids("信心"), vec!["a"]);
    assert_eq!(ids("content:信心"), vec!["b"]);
    assert_eq!(ids("subject:盼望"), vec!["b"]);
    assert_eq!(ids("title:信心;content:爱"), Vec::<String>::new());
    assert_eq!(ids(""), vec!["b", "a"]);
}

#[test]
fn new_note_has_fresh_id_and_creation_date() {
    let a = Notedb::new_at(Some(1), Some("创世记".to_string()), Some("1".to_string()), "和合本.sqlite3".to_string());
    let b = Notedb::new_at(Some(1), None, None, "和合本.sqlite3".to_string());
    assert_eq!(a.id.chars().count(), 36);
    assert_ne!(a.id, b.id);
    assert_eq!(a.verse_start, -1);
    assert_eq!(a.char_offset, Some(0));
    assert_eq!(a.version, Some("和合本.sqlite3".to_string()));
    let created = a.created_at.clone().unwrap();
    assert_eq!(created.len(), 10);
    assert_eq!(&created[4..5], "-");
    assert!(a.updated_at.is_none() && a.title.is_none());
    let blank = Notedb::blank();
    assert_eq!(blank.id.len(), 36);
    assert!(blank.created_at.is_some());
}

#[test]
fn save_today_stamps_a_date() {
    let mut t = NoteTable::new("notes".to_string());
    t.save_today(note("n", "v", 1, "1", -1));
    let all = t.load_all();
    let updated = all[0].updated_at.clone().unwrap();
    assert_eq!(updated.len(), 10);
    assert_eq!(all[0].created_at, Some("2024-01-01".to_string()));
}

#[test]
fn note_labels() {
    let mut n = note("n", "和合本.sqlite3", 1, "3", -1);
    assert_eq!(appended_note_label(&n), "【】「<无标题>」");
    assert_eq!(note_list_title(&n), "📝「<无标题>」");
    n.title = Some("信".to_string());
    n.subject = Some("主".to_string());
    n.reference = Some("约3:16".to_string());
    assert_eq!(appended_note_label(&n), "【主】「信」 （约3:16）");
    assert_eq!(note_list_title(&n), "📝【主】「信」");
    assert_eq!(note_location(&n), "（和合本:创世记:3）");
}

#[test]
fn editor_fields_are_filled() {
    let mut app = NoteApp::new(note("n", "v", 1, "1", -1));
    app.note.title = Some("t".to_string());
    app.prepare_fields();
    assert_eq!(app.note.title, Some("t".to_string()));
    assert_eq!(app.note.body, Some(String::new()));
    assert_eq!(app.note.subject, Some(String::new()));
    assert_eq!(app.note.id, "n");
}

#[test]
fn load_notes_by_mode() {
    let mut t = NoteTable::new("notes".to_string());
    t.save(note("a", "v", 1, "1", -1), "2024-01-02".to_string());
    t.save(note("b", "v", 2, "1", -1), "2024-01-03".to_string());
    let here = ReadingPosition::new("v".to_string(), 1, "1".to_string());
    let at: Vec<String> = t.load_notes("append", Some(&here)).into_iter().map(|n| n.id).collect();
    assert_eq!(at, vec!["a"]);
    assert!(t.load_notes("append", None).is_empty());
    assert_eq!(t.load_notes("all", None).len(), 2);
    assert!(t.load_notes("other", Some(&here)).is_empty());
    assert_eq!(t.get("b").map(|n| n.book_num), Some(Some(2)));
    assert!(t.get("zz").is_none());
}

fn hand_query(terms: Vec<(NoteSearchMode, &str)>) -> NoteSearchQuery {
    NoteSearchQuery {
        terms: terms
            .into_iter()
            .map(|(mode, text)| bible_reader::note_query::NoteSearchTerm { mode, text: text.to_string() })
            .collect(),
    }
}

#[test]
fn search_terms_are_trimmed_and_blank_terms_ignored() {
    let mut t = NoteTable::new("notes".to_string());
    let mut a = note("a", "v", 1, "1", -1);
    a.title = Some("爱".to_string());
    t.save(a, "2024-01-01".to_string());
    t.save(note("b", "v", 1, "1", -1), "2024-01-02".to_string());
    let ids = |q: NoteSearchQuery| -> Vec<String> { t.search_notes(&q).into_iter().map(|n| n.id).collect() };
    assert_eq!(ids(hand_query(vec![(NoteSearchMode::Title, " 爱 ")])), vec!["a"]);
    assert_eq!(ids(hand_query(vec![(NoteSearchMode::Title, "爱"), (NoteSearchMode::Content, "  ")])), vec!["a"]);
    assert!(ids(hand_query(vec![(NoteSearchMode::Title, " "), (NoteSearchMode::Default, "")])).is_empty());
    assert_eq!(ids(hand_query(vec![])), vec!["b", "a"]);
}
