use agent_memory::text::append;
use agent_memory::text::chars_of;
use agent_memory::text::has_at;
use agent_memory::text::is_text;
use agent_memory::text::is_whitespace;
use agent_memory::text::join;
use agent_memory::text::split;
use agent_memory::text::trim;

fn cs(s: &str) -> Vec<char> {
    s.chars().collect()
}

#[test]
fn whitespace_is_the_unicode_white_space_set() {
    let mut c = 0u32;
    while c <= 0x10FFFF {
        if let Some(ch) = char::from_u32(c) {
            assert_eq!(is_whitespace(ch), ch.is_whitespace(), "U+{:04X}", c);
        }
        c += 1;
    }
}

#[test]
fn trim_drops_whitespace_at_both_ends_only() {
    assert_eq!(trim(&cs("  a b \t\n")), &cs("a b")[..]);
    assert_eq!(trim(&cs("a")), &cs("a")[..]);
    assert_eq!(trim(&cs(" \u{3000}\u{a0} ")), &cs("")[..]);
    assert_eq!(trim(&cs("")), &cs("")[..]);
    assert_eq!(trim(&cs("\u{2028}x\u{85}")), &cs("x")[..]);
}

#[test]
fn trim_agrees_with_the_standard_library() {
    for s in ["", " ", "  ab  ", "\n\n a\tb \r\n", "x", "\u{feff}x ", " \u{200b} "] {
        let got: String = trim(&cs(s)).iter().collect();
        assert_eq!(got, s.trim());
    }
}

#[test]
fn split_cuts_at_every_separator_leftmost_first() {
    assert_eq!(split(&cs("a\n\nb"), &cs("\n\n")), vec![cs("a"), cs("b")]);
    assert_eq!(split(&cs("a\n\n\nb"), &cs("\n\n")), vec![cs("a"), cs("\nb")]);
    assert_eq!(split(&cs("a\n\n\n\nb"), &cs("\n\n")), vec![cs("a"), cs(""), cs("b")]);
    assert_eq!(split(&cs("\n\n"), &cs("\n\n")), vec![cs(""), cs("")]);
    assert_eq!(split(&cs(""), &cs("\n\n")), vec![cs("")]);
    assert_eq!(split(&cs("abc"), &cs("\n\n")), vec![cs("abc")]);
    assert_eq!(split(&cs("a,b,,c,"), &cs(",")), vec![cs("a"), cs("b"), cs(""), cs("c"), cs("")]);
}

#[test]
fn split_with_an_empty_or_too_long_separator_cuts_nothing() {
    assert_eq!(split(&cs("abc"), &cs("")), vec![cs("abc")]);
    assert_eq!(split(&cs("ab"), &cs("abc")), vec![cs("ab")]);
}

#[test]
fn split_agrees_with_the_standard_library() {
    for s in ["", "a", "a\n\nb\n\n", "\n\n\n\n\n", "x\n\ny\n\n\nz", "\n"] {
        let got: Vec<String> = split(&cs(s), &cs("\n\n")).iter().map(|p| p.iter().collect()).collect();
        let want: Vec<String> = s.split("\n\n").map(|p| p.to_string()).collect();
        assert_eq!(got, want);
    }
}

#[test]
fn join_puts_the_separator_between_neighbours() {
    assert_eq!(join(&vec![cs("a"), cs("b"), cs("c")], &cs(", ")), cs("a, b, c"));
    assert_eq!(join(&vec![cs("a")], &cs(", ")), cs("a"));
    assert_eq!(join(&Vec::new(), &cs(", ")), cs(""));
    assert_eq!(join(&vec![cs(""), cs("")], &cs("-")), cs("-"));
}

#[test]
fn join_undoes_split() {
    for s in ["", "a", "a\n\nb\n\n", "\n\n\n\n\n", "x\n\ny\n\n\nz"] {
        assert_eq!(join(&split(&cs(s), &cs("\n\n")), &cs("\n\n")), cs(s));
    }
}

#[test]
fn has_at_finds_an_occurrence_only_where_it_is() {
    assert!(has_at(&cs("hello"), &cs("ll"), 2));
    assert!(!has_at(&cs("hello"), &cs("ll"), 3));
    assert!(!has_at(&cs("hello"), &cs("lo"), 4));
    assert!(!has_at(&cs("hello"), &cs("lo"), usize::MAX));
    assert!(has_at(&cs("hello"), &cs(""), 5));
    assert!(!has_at(&cs("hello"), &cs(""), 6));
}

#[test]
fn append_adds_at_the_end() {
    let mut v = cs("ab");
    append(&mut v, &cs("cd"));
    assert_eq!(v, cs("abcd"));
    append(&mut v, &cs(""));
    assert_eq!(v, cs("abcd"));
}

#[test]
fn a_string_gives_its_characters_in_order() {
    assert_eq!(chars_of("héllo"), vec!['h', 'é', 'l', 'l', 'o']);
    assert_eq!(chars_of(""), Vec::<char>::new());
}

#[test]
fn is_text_compares_whole_texts() {
    assert!(is_text(&"user".to_string(), "user"));
    assert!(!is_text(&"users".to_string(), "user"));
    assert!(!is_text(&"".to_string(), "user"));
    assert!(is_text(&"".to_string(), ""));
}
