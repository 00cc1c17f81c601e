//! The corpus's books, chapters and versions: numbering, display names and
//! the order in which they are listed.
use vstd::prelude::*;
use crate::ordering::{Ranking, sort_by, sorted_by, text_le, chars_le, lemma_text_le_total, lemma_text_le_transitive};
use crate::text::{chars_of, parsed_u32, parse_u32, parsed_i32, parse_i32, decimal, decimal_text, signed_decimal, signed_decimal_text, after_last, text_after_last};
use crate::notes::same_text;

verus! {

/// The short name of book `number` (1 to 66); "未知" for any other number.
pub open spec fn abbreviation_of(number: i32) -> Seq<char> {
    if number == 1 {
        "创"@
    } else if number == 2 {
        "出"@
    } else if number == 3 {
        "利"@
    } else if number == 4 {
        "民"@
    } else if number == 5 {
        "申"@
    } else if number == 6 {
        "书"@
    } else if number == 7 {
        "士"@
    } else if number == 8 {
        "得"@
    } else if number == 9 {
        "撒上"@
    } else if number == 10 {
        "撒下"@
    } else if number == 11 {
        "王上"@
    } else if number == 12 {
        "王下"@
    } else if number == 13 {
        "代上"@
    } else if number == 14 {
        "代下"@
    } else if number == 15 {
        "拉"@
    } else if number == 16 {
        "尼"@
    } else if number == 17 {
        "斯"@
    } else if number == 18 {
        "伯"@
    } else if number == 19 {
        "诗"@
    } else if number == 20 {
        "箴"@
    } else if number == 21 {
        "传"@
    } else if number == 22 {
        "歌"@
    } else if number == 23 {
        "赛"@
    } else if number == 24 {
        "耶"@
    } else if number == 25 {
        "哀"@
    } else if number == 26 {
        "结"@
    } else if number == 27 {
        "但"@
    } else if number == 28 {
        "何"@
    } else if number == 29 {
        "珥"@
    } else if number == 30 {
        "摩"@
    } else if number == 31 {
        "俄"@
    } else if number == 32 {
        "拿"@
    } else if number == 33 {
        "弥"@
    } else if number == 34 {
        "鸿"@
    } else if number == 35 {
        "哈"@
    } else if number == 36 {
        "番"@
    } else if number == 37 {
        "该"@
    } else if number == 38 {
        "亚"@
    } else if number == 39 {
        "玛"@
    } else if number == 40 {
        "太"@
    } else if number == 41 {
        "可"@
    } else if number == 42 {
        "路"@
    } else if number == 43 {
        "约"@
    } else if number == 44 {
        "徒"@
    } else if number == 45 {
        "罗"@
    } else if number == 46 {
        "林前"@
    } else if number == 47 {
        "林后"@
    } else if number == 48 {
        "加"@
    } else if number == 49 {
        "弗"@
    } else if number == 50 {
        "腓"@
    } else if number == 51 {
        "西"@
    } else if number == 52 {
        "帖前"@
    } else if number == 53 {
        "帖后"@
    } else if number == 54 {
        "提前"@
    } else if number == 55 {
        "提后"@
    } else if number == 56 {
        "多"@
    } else if number == 57 {
        "门"@
    } else if number == 58 {
        "来"@
    } else if number == 59 {
        "雅"@
    } else if number == 60 {
        "彼前"@
    } else if number == 61 {
        "彼后"@
    } else if number == 62 {
        "约一"@
    } else if number == 63 {
        "约二"@
    } else if number == 64 {
        "约三"@
    } else if number == 65 {
        "犹"@
    } else if number == 66 {
        "启"@
    } else {
        "未知"@
    }
}

/// The short name of book `number`.
pub fn book_number_to_abbr(number: i32) -> (r: &'static str)
    ensures
        r@ == abbreviation_of(number),
{
    match number {
        1 => "创",
        2 => "出",
        3 => "利",
        4 => "民",
        5 => "申",
        6 => "书",
        7 => "士",
        8 => "得",
        9 => "撒上",
        10 => "撒下",
        11 => "王上",
        12 => "王下",
        13 => "代上",
        14 => "代下",
        15 => "拉",
        16 => "尼",
        17 => "斯",
        18 => "伯",
        19 => "诗",
        20 => "箴",
        21 => "传",
        22 => "歌",
        23 => "赛",
        24 => "耶",
        25 => "哀",
        26 => "结",
        27 => "但",
        28 => "何",
        29 => "珥",
        30 => "摩",
        31 => "俄",
        32 => "拿",
        33 => "弥",
        34 => "鸿",
        35 => "哈",
        36 => "番",
        37 => "该",
        38 => "亚",
        39 => "玛",
        40 => "太",
        41 => "可",
        42 => "路",
        43 => "约",
        44 => "徒",
        45 => "罗",
        46 => "林前",
        47 => "林后",
        48 => "加",
        49 => "弗",
        50 => "腓",
        51 => "西",
        52 => "帖前",
        53 => "帖后",
        54 => "提前",
        55 => "提后",
        56 => "多",
        57 => "门",
        58 => "来",
        59 => "雅",
        60 => "彼前",
        61 => "彼后",
        62 => "约一",
        63 => "约二",
        64 => "约三",
        65 => "犹",
        66 => "启",
        _ => "未知",
    }
}


/// The number of a chapter name: its decimal value, 0 where it is none.
pub open spec fn chapter_value(chap: Seq<char>) -> u32 {
    match parsed_u32(chap) {
        Some(n) => n,
        None => 0,
    }
}

/// The number of a chapter name, for ordering; 0 where it is none.
pub fn chapter_number(chap: &str) -> (r: u32)
    ensures
        r == chapter_value(chap@),
{
    match parse_u32(chap) {
        Some(n) => n,
        None => 0,
    }
}

/// How a chapter is listed: chapter "0" is the introduction ("简介"), any
/// other is "第 {n} 章" with its number.
pub open spec fn chapter_label(chap: Seq<char>) -> Seq<char> {
    if chap == "0"@ {
        "简介"@
    } else {
        "第 "@ + decimal(chapter_value(chap) as nat) + " 章"@
    }
}

/// The name under which a chapter is listed.
pub fn chapter_display_name(chap: &str) -> (r: String)
    ensures
        r@ == chapter_label(chap@),
{
    if same_text(chap, "0") {
        String::from_str("简介")
    } else {
        let n = decimal_text(chapter_number(chap) as u64);
        String::from_str("第 ").concat(n.as_str()).concat(" 章")
    }
}

/// `s` with `suffix` taken off its end as many times as it stands there.
pub open spec fn without_suffixes(s: Seq<char>, suffix: Seq<char>) -> Seq<char>
    decreases s.len(),
{
    if suffix.len() > 0 && suffix.len() <= s.len() && s.subrange(s.len() - suffix.len(), s.len() as int)
        == suffix {
        without_suffixes(s.subrange(0, s.len() - suffix.len()), suffix)
    } else {
        s
    }
}

fn strip_suffixes(s: &str, suffix: &str) -> (r: String)
    ensures
        r@ == without_suffixes(s@, suffix@),
{
    let cs = chars_of(s);
    let sf = chars_of(suffix);
    let mut end: usize = cs.len();
    assert(s@.subrange(0, end as int) =~= s@);
    while sf.len() > 0 && sf.len() <= end && crate::text::matches_at(&cs, &sf, end - sf.len())
        invariant
            cs@ == s@,
            sf@ == suffix@,
            end <= cs@.len(),
            without_suffixes(s@, suffix@) == without_suffixes(s@.subrange(0, end as int), suffix@),
        decreases end,
    {
        let ghost t = s@.subrange(0, end as int);
        assert(t.subrange(t.len() - sf@.len(), t.len() as int) =~= s@.subrange(end - sf@.len(), end as int));
        assert(t.subrange(0, t.len() - sf@.len()) =~= s@.subrange(0, end - sf@.len()));
        end = end - sf.len();
    }
    proof {
        let t = s@.subrange(0, end as int);
        if sf@.len() > 0 && sf@.len() <= end {
            assert(t.subrange(t.len() - sf@.len(), t.len() as int) =~= s@.subrange(end - sf@.len(), end as int));
        }
    }
    crate::text::substring(s, 0, end)
}

/// The name of a version without its file extension: trailing ".sqlite3"
/// and then trailing ".db" are taken off, each as often as it stands there.
pub open spec fn version_label(version: Seq<char>) -> Seq<char> {
    without_suffixes(without_suffixes(version, ".sqlite3"@), ".db"@)
}

/// The name under which a version is shown.
pub fn version_display_name(version: &str) -> (r: String)
    ensures
        r@ == version_label(version@),
{
    let a = strip_suffixes(version, ".sqlite3");
    strip_suffixes(a.as_str(), ".db")
}

/// `c` is a CJK unified ideograph.
pub open spec fn is_han(c: char) -> bool {
    '\u{4e00}' <= c && c <= '\u{9fff}'
}

pub open spec fn mentions_han(s: Seq<char>) -> bool {
    exists|i: int| 0 <= i < s.len() && is_han(#[trigger] s[i])
}

/// Whether `s` holds a CJK unified ideograph.
pub fn has_chinese(s: &str) -> (r: bool)
    ensures
        r == mentions_han(s@),
{
    let cs = chars_of(s);
    let mut i: usize = 0;
    while i < cs.len()
        invariant
            cs@ == s@,
            i <= cs@.len(),
            forall|k: int| 0 <= k < i ==> !is_han(#[trigger] s@[k]),
        decreases cs.len() - i,
    {
        if '\u{4e00}' <= cs[i] && cs[i] <= '\u{9fff}' {
            assert(is_han(s@[i as int]));
            return true;
        }
        i = i + 1;
    }
    false
}

/// Versions whose names hold Chinese characters first, then the others;
/// within each group in the order of their characters.
pub struct ChineseFirst;

impl Ranking<String> for ChineseFirst {
    open spec fn precedes(a: &String, b: &String) -> bool {
        (mentions_han(a@) && !mentions_han(b@)) || (mentions_han(a@) == mentions_han(b@)
            && text_le(a@, b@))
    }

    fn test(a: &String, b: &String) -> (r: bool) {
        let a_cn = has_chinese(a.as_str());
        let b_cn = has_chinese(b.as_str());
        (a_cn && !b_cn) || (a_cn == b_cn && chars_le(&chars_of(a.as_str()), &chars_of(b.as_str())))
    }

    proof fn lemma_total(a: &String, b: &String) {
        lemma_text_le_total(a@, b@);
    }

    proof fn lemma_transitive(a: &String, b: &String, c: &String) {
        if mentions_han(a@) == mentions_han(b@) && mentions_han(b@) == mentions_han(c@) {
            lemma_text_le_transitive(a@, b@, c@);
        }
    }
}

/// Orders version names: those with Chinese characters first, the rest
/// after; each group in the order of the names' characters.
pub fn sort_versions_chinese_first(versions: &mut Vec<String>)
    ensures
        sorted_by::<String, ChineseFirst>(final(versions)@),
        final(versions)@.to_multiset() == old(versions)@.to_multiset(),
{
    let mut taken: Vec<String> = Vec::new();
    std::mem::swap(versions, &mut taken);
    *versions = sort_by::<String, ChineseFirst>(taken);
}

/// Chapters by number, the introduction (0) first.
pub struct ByChapterNumber;

impl Ranking<String> for ByChapterNumber {
    open spec fn precedes(a: &String, b: &String) -> bool {
        chapter_value(a@) <= chapter_value(b@)
    }

    fn test(a: &String, b: &String) -> (r: bool) {
        chapter_number(a.as_str()) <= chapter_number(b.as_str())
    }

    proof fn lemma_total(a: &String, b: &String) {
    }

    proof fn lemma_transitive(a: &String, b: &String, c: &String) {
    }
}

/// The chapter names of a book from its chapters' reference keys (the part
/// after the last dot), listed by number, the introduction first.
pub fn chapter_list(references: &Vec<String>) -> (r: Vec<String>)
    ensures
        sorted_by::<String, ByChapterNumber>(r@),
        r@.map_values(|c: String| c@).to_multiset() == references@.map_values(
            |k: String| after_last(k@, '.'),
        ).to_multiset(),
{
    let mut names: Vec<String> = Vec::new();
    let mut i: usize = 0;
    while i < references.len()
        invariant
            i <= references@.len(),
            names@.map_values(|c: String| c@) == references@.subrange(0, i as int).map_values(
                |k: String| after_last(k@, '.'),
            ),
        decreases references.len() - i,
    {
        let ghost before = names@;
        let name = text_after_last(references[i].as_str(), '.');
        names.push(name);
        assert(names@.map_values(|c: String| c@) =~= before.map_values(|c: String| c@).push(name@));
        assert(references@.subrange(0, i + 1).map_values(|k: String| after_last(k@, '.')) =~= references@.subrange(0, i as int).map_values(|k: String| after_last(k@, '.')).push(after_last(references@[i as int]@, '.')));
        assert(names@.map_values(|c: String| c@) =~= references@.subrange(0, i + 1).map_values(
            |k: String| after_last(k@, '.'),
        ));
        i = i + 1;
    }
    assert(references@.subrange(0, references@.len() as int) =~= references@);
    let ghost unsorted = names@;
    let sorted = sort_by::<String, ByChapterNumber>(names);
    proof {
        crate::ordering::lemma_map_values_multiset(sorted@, unsorted, |c: String| c@);
    }
    sorted
}

/// The reference key of chapter `chapter` of the book with `code`.
pub open spec fn reference_key(code: Seq<char>, chapter: i32) -> Seq<char> {
    code + "."@ + signed_decimal(chapter as int)
}

/// The reference key `{code}.{chapter}` under which a chapter is stored.
pub fn chapter_reference(code: &str, chapter: i32) -> (r: String)
    ensures
        r@ == reference_key(code@, chapter),
{
    let n = signed_decimal_text(chapter as i64);
    String::from_str(code).concat(".").concat(n.as_str())
}

/// What stands in place of a chapter's text where there is none.
pub open spec fn missing_content() -> Seq<char> {
    "（未找到章节内容）"@
}

/// The text of a chapter as found, or the fixed placeholder where it was not.
pub fn content_or_placeholder(found: Option<String>) -> (r: String)
    ensures
        r@ == match found {
            Some(c) => c@,
            None => missing_content(),
        },
{
    match found {
        Some(c) => c,
        None => String::from_str("（未找到章节内容）"),
    }
}

/// The number of the chapter to open for a chapter name: its value, 1 where
/// it is none.
pub fn chapter_to_open(chap: &str) -> (r: i32)
    ensures
        r == match parsed_i32(chap@) {
            Some(n) => n,
            None => 1,
        },
{
    match parse_i32(chap) {
        Some(n) => n,
        None => 1,
    }
}

/// The book to show after a version switch: the one shown before where the
/// new version has it, else its first book, else none.
pub fn book_after_switch(previous: Option<i32>, books: &Vec<i32>) -> (r: Option<i32>)
    ensures
        previous is Some && books@.contains(previous->0) ==> r == previous,
        !(previous is Some && books@.contains(previous->0)) ==> r == (if books@.len() > 0 {
            Some(books@[0])
        } else {
            None::<i32>
        }),
{
    match previous {
        Some(b) => {
            let mut i: usize = 0;
            while i < books.len()
                invariant
                    previous == Some(b),
                    i <= books@.len(),
                    forall|k: int| 0 <= k < i ==> books@[k] != b,
                decreases books.len() - i,
            {
                if books[i] == b {
                    assert(books@[i as int] == b);
                    return Some(b);
                }
                i = i + 1;
            }
        },
        None => {},
    }
    if books.len() > 0 {
        Some(books[0])
    } else {
        None
    }
}

/// The chapter to show after a switch: the one shown before where it is
/// among `chapters`, else the first of them, else none.
pub fn chapter_after_switch(previous: Option<String>, chapters: &Vec<String>) -> (r: Option<String>)
    ensures
        previous is Some && (exists|k: int| 0 <= k < chapters@.len() && chapters@[k]@ == previous->0@)
            ==> r is Some && r->0@ == previous->0@,
        !(previous is Some && (exists|k: int| 0 <= k < chapters@.len() && chapters@[k]@ == previous->0@))
            ==> if chapters@.len() > 0 {
            r is Some && r->0@ == chapters@[0]@
        } else {
            r is None
        },
{
    match previous {
        Some(c) => {
            let mut i: usize = 0;
            while i < chapters.len()
                invariant
                    previous == Some(c),
                    i <= chapters@.len(),
                    forall|k: int| 0 <= k < i ==> chapters@[k]@ != c@,
                decreases chapters.len() - i,
            {
                if same_text(chapters[i].as_str(), c.as_str()) {
                    assert(chapters@[i as int]@ == c@);
                    return Some(c);
                }
                i = i + 1;
            }
        },
        None => {},
    }
    if chapters.len() > 0 {
        Some(chapters[0].clone())
    } else {
        None
    }
}


/// The version to open first: `preferred` where it is among `versions`,
/// else the first of them, else none.
pub fn initial_version(versions: &Vec<String>, preferred: &str) -> (r: Option<String>)
    ensures
        (exists|k: int| 0 <= k < versions@.len() && versions@[k]@ == preferred@) ==> r is Some
            && r->0@ == preferred@,
        !(exists|k: int| 0 <= k < versions@.len() && versions@[k]@ == preferred@) ==> if versions@.len() > 0 {
            r is Some && r->0@ == versions@[0]@
        } else {
            r is None
        },
{
    chapter_after_switch(Some(String::from_str(preferred)), versions)
}

} // verus!
