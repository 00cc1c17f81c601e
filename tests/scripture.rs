use bible_reader::scripture::{
    book_after_switch, book_number_to_abbr, chapter_after_switch, chapter_display_name, chapter_list,
    chapter_number, chapter_reference, initial_version, chapter_to_open, content_or_placeholder, has_chinese,
    sort_versions_chinese_first, version_display_name,
};
use bible_reader::theme::Theme;

#[test]
fn chapter_numbers() {
    assert_eq!(chapter_number("12"), 12);
    assert_eq!(chapter_number("0"), 0);
    assert_eq!(chapter_number("+7"), 7);
    assert_eq!(chapter_number("abc"), 0);
    assert_eq!(chapter_number(""), 0);
    assert_eq!(chapter_number("-1"), 0);
    assert_eq!(chapter_number("4294967295"), 4294967295);
    assert_eq!(chapter_number("4294967296"), 0);
}

#[test]
fn chapter_names() {
    assert_eq!(chapter_display_name("0"), "简介");
    assert_eq!(chapter_display_name("3"), "第 3 章");
    assert_eq!(chapter_display_name("010"), "第 10 章");
    assert_eq!(chapter_display_name("x"), "第 0 章");
}

#[test]
fn version_names() {
    assert_eq!(version_display_name("和合本.sqlite3"), "和合本");
    assert_eq!(version_display_name("niv.db"), "niv");
    assert_eq!(version_display_name("a.sqlite3.sqlite3"), "a");
    assert_eq!(version_display_name("a.db.sqlite3"), "a");
    assert_eq!(version_display_name("a.sqlite3.db"), "a.sqlite3");
    assert_eq!(version_display_name("plain"), "plain");
}

#[test]
fn chinese_detection() {
    assert!(has_chinese("和合本.sqlite3"));
    assert!(!has_chinese("niv2011.sqlite3"));
    assert!(!has_chinese(""));
}

#[test]
fn versions_chinese_first_then_by_name() {
    let mut v: Vec<String> =
        vec!["niv2011.sqlite3", "和修本.sqlite3", "ccb.sqlite3", "和合本.sqlite3", "当代译本.sqlite3"]
            .into_iter()
            .map(String::from)
            .collect();
    sort_versions_chinese_first(&mut v);
    assert_eq!(
        v,
        vec!["和修本.sqlite3", "和合本.sqlite3", "当代译本.sqlite3", "ccb.sqlite3", "niv2011.sqlite3"]
    );
    let mut empty: Vec<String> = Vec::new();
    sort_versions_chinese_first(&mut empty);
    assert!(empty.is_empty());
}

#[test]
fn book_abbreviations() {
    assert_eq!(book_number_to_abbr(1), "创");
    assert_eq!(book_number_to_abbr(43), "约");
    assert_eq!(book_number_to_abbr(66), "启");
    assert_eq!(book_number_to_abbr(0), "未知");
    assert_eq!(book_number_to_abbr(67), "未知");
}

#[test]
fn chapters_listed_by_number() {
    let refs: Vec<String> = vec!["GEN.10", "GEN.2", "GEN.0", "GEN.1"].into_iter().map(String::from).collect();
    assert_eq!(chapter_list(&refs), vec!["0", "1", "2", "10"]);
    assert!(chapter_list(&Vec::new()).is_empty());
}

#[test]
fn chapter_keys_and_content() {
    assert_eq!(chapter_reference("GEN", 3), "GEN.3");
    assert_eq!(chapter_reference("PSA", 119), "PSA.119");
    assert_eq!(chapter_reference("X", -4), "X.-4");
    assert_eq!(content_or_placeholder(None), "（未找到章节内容）");
    assert_eq!(content_or_placeholder(Some("起初".to_string())), "起初");
    assert_eq!(chapter_to_open("7"), 7);
    assert_eq!(chapter_to_open("x"), 1);
}

#[test]
fn selection_after_version_switch() {
    assert_eq!(book_after_switch(Some(5), &vec![1, 5, 9]), Some(5));
    assert_eq!(book_after_switch(Some(7), &vec![1, 5, 9]), Some(1));
    assert_eq!(book_after_switch(None, &vec![3]), Some(3));
    assert_eq!(book_after_switch(Some(7), &vec![]), None);
    let chapters: Vec<String> = vec!["0".to_string(), "1".to_string()];
    assert_eq!(chapter_after_switch(Some("1".to_string()), &chapters), Some("1".to_string()));
    assert_eq!(chapter_after_switch(Some("9".to_string()), &chapters), Some("0".to_string()));
    assert_eq!(chapter_after_switch(None, &Vec::new()), None);
}

#[test]
fn theme_toggles() {
    assert_eq!(Theme::Dark.toggled(), Theme::Light);
    assert_eq!(Theme::Light.toggled(), Theme::Dark);
    assert_eq!(Theme::Dark.toggle_label(), "浅色主题");
    assert_eq!(Theme::Light.toggle_label(), "暗色主题");
}

#[test]
fn first_version_to_open() {
    let v: Vec<String> = vec!["ccb.sqlite3".to_string(), "和合本.sqlite3".to_string()];
    assert_eq!(initial_version(&v, "和合本.sqlite3"), Some("和合本.sqlite3".to_string()));
    assert_eq!(initial_version(&v, "x.sqlite3"), Some("ccb.sqlite3".to_string()));
    assert_eq!(initial_version(&Vec::new(), "x.sqlite3"), None);
}
