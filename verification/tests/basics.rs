//! Texts and ordered maps.
use aube_lockfile::strmap::{precedes, Dup, StrMap, StrSet};
use aube_lockfile::text::{
    bytes_of, chars, decimal_text, index_of_byte, indent_of, pieces, string, text_lines, trimmed,
    trimmed_end, trimmed_start, unquote, white,
};

fn samples() -> Vec<&'static str> {
    vec![
        "", "a", " a ", "\t\u{3000}x\u{2028}", "a\nb", "a\r\nb\r\n", "\n\n", "a\r", "ä€𝄞", "'q'",
        "\"q\"", "\"", "a,b,,c", ",",
    ]
}

#[test]
fn white_space_is_that_of_unicode() {
    for code in 0..=0x10ffffu32 {
        if let Some(c) = char::from_u32(code) {
            assert_eq!(white(c), c.is_whitespace(), "{code:x}");
        }
    }
}

#[test]
fn texts_are_trimmed_and_split_like_strings() {
    for s in samples() {
        let c = chars(s);
        assert_eq!(string(&c), s);
        assert_eq!(string(trimmed(&c)), s.trim());
        assert_eq!(string(trimmed_start(&c)), s.trim_start());
        assert_eq!(string(trimmed_end(&c)), s.trim_end());
        let lines: Vec<String> = text_lines(&c).iter().map(|l| string(l)).collect();
        let want: Vec<&str> = s.lines().collect();
        assert_eq!(lines, want);
        let split: Vec<String> = pieces(&c, ',').iter().map(|l| string(l)).collect();
        let want: Vec<&str> = s.split(',').collect();
        assert_eq!(split, want);
        assert_eq!(bytes_of(&c), s.len() as u128);
        assert_eq!(indent_of(&c), (s.len() - s.trim_start().len()) as u128);
        for at in 0..=s.len() + 1 {
            assert_eq!(index_of_byte(&c, at).is_some(), s.is_char_boundary(at));
        }
    }
    assert_eq!(string(unquote(&chars("'q'"))), "q");
    assert_eq!(string(unquote(&chars("\"q'"))), "\"q'");
    assert_eq!(string(unquote(&chars("\""))), "\"");
}

#[test]
fn numbers_are_written_in_decimal() {
    for n in [0, 7, 10, 99, 100, 18446744073709551615] {
        assert_eq!(decimal_text(n), n.to_string());
    }
}

#[test]
fn maps_are_ordered_like_strings() {
    let keys = ["b", "a", "ä", "", "ab", "Z", "𝄞", "\u{e000}"];
    let mut m = StrMap::new();
    for k in keys {
        m.insert(k.to_string(), format!("<{k}>"));
        m.insert(k.to_string(), format!("<{k}>"));
    }
    let mut sorted: Vec<&str> = keys.to_vec();
    sorted.sort();
    assert_eq!(m.len(), sorted.len());
    for (i, k) in sorted.iter().enumerate() {
        assert_eq!(m.key_at(i), k);
        assert_eq!(m.get(k), Some(m.value_at(i)));
    }
    for a in keys {
        for b in keys {
            assert_eq!(precedes(a, b), a < b);
        }
    }
    assert_eq!(m.remove("ab"), Some("<ab>".to_string()));
    assert_eq!(m.remove("ab"), None);
    assert!(!m.contains_key("ab"));
    let mut more = StrMap::new();
    more.insert("a".to_string(), "new".to_string());
    more.insert("c".to_string(), "more".to_string());
    let copy = m.dup();
    m.extend(&more);
    assert_eq!(m.get("a").unwrap(), "new");
    assert_eq!(copy.get("a").unwrap(), "<a>");
    assert_eq!(m.len(), copy.len() + 1);
    let mut set = StrSet::new();
    set.insert("x".to_string());
    set.insert("x".to_string());
    assert!(set.contains("x") && set.len() == 1 && set.at(0) == "x");
}
