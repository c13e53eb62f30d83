use tyr::table::Table;
use tyr::text::{char_is_whitespace, chars_of, split_lines, split_words, strip_str, trim_str};

fn strings(v: Vec<Vec<char>>) -> Vec<String> {
    v.into_iter().map(|l| l.into_iter().collect()).collect()
}

#[test]
fn lines_match_std_after_trimming() {
    for text in ["a\nb", "a\n", "", "\n", "a\r\nb\r\n", "\n\nx", " a \n\n b"] {
        let ours: Vec<String> = strings(split_lines(&chars_of(text))).iter().map(|l| l.trim().to_string()).collect();
        let std: Vec<String> = text.lines().map(|l| l.trim().to_string()).collect();
        assert_eq!(ours, std, "{:?}", text);
    }
}

#[test]
fn words_match_split_whitespace() {
    for text in ["version \"1.0.0\"", "  a  b\tc\u{3000}d ", "", "   "] {
        let ours = strings(split_words(&chars_of(text)));
        let std: Vec<String> = text.split_whitespace().map(|w| w.to_string()).collect();
        assert_eq!(ours, std, "{:?}", text);
    }
}

#[test]
fn trim_matches_std() {
    for text in ["  a b \n", "\u{a0}x\u{2003}", "", " \t "] {
        assert_eq!(trim_str(text), text.trim());
    }
    assert_eq!(strip_str("\"\"a\"b\"", '"'), "a\"b");
}

#[test]
fn table_insert_replaces() {
    let mut t: Table<String> = Table::new();
    t.insert("a".to_string(), "1".to_string());
    t.insert("b".to_string(), "2".to_string());
    t.insert("a".to_string(), "3".to_string());
    assert_eq!(t.entries.len(), 2);
    assert_eq!(t.get(&"a".to_string()), Some(&"3".to_string()));
    assert_eq!(t.get(&"c".to_string()), None);
    assert!(t.contains_key(&"b".to_string()));
}

#[test]
fn whitespace_matches_std() {
    for u in 0u32..=0x10FFFF {
        if let Some(c) = char::from_u32(u) {
            assert_eq!(char_is_whitespace(c), c.is_whitespace(), "{:#x}", u);
        }
    }
}
