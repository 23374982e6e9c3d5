use wmfocus::text::chars_of;
use wmfocus::text::ends_with;
use wmfocus::text::holds_symbol;
use wmfocus::text::same_text;
use wmfocus::text::split_str;
use wmfocus::text::starts_with;
use wmfocus::text::string_of;

fn strings(words: &[&str]) -> Vec<String> {
    words.iter().map(|w| w.to_string()).collect()
}

#[test]
fn split_str_cuts_at_every_separator() {
    assert_eq!(split_str("Control_L+g", '+'), strings(&["Control_L", "g"]));
    assert_eq!(split_str("a b c", ' '), strings(&["a", "b", "c"]));
    assert_eq!(split_str("abc", '+'), strings(&["abc"]));
}

#[test]
fn split_str_keeps_empty_parts() {
    assert_eq!(split_str("", '+'), strings(&[""]));
    assert_eq!(split_str("+", '+'), strings(&["", ""]));
    assert_eq!(split_str("a++b", '+'), strings(&["a", "", "b"]));
    assert_eq!(split_str("+a+", '+'), strings(&["", "a", ""]));
}

#[test]
fn split_str_agrees_with_std() {
    for s in ["Mono:72", ":", "a:b:c", "no separator", "ä:ö", "::x"] {
        let expected: Vec<String> = s.split(':').map(|p| p.to_string()).collect();
        assert_eq!(split_str(s, ':'), expected);
        assert_eq!(split_str(s, ':').join(":"), s);
    }
}

#[test]
fn characters_and_strings_convert_both_ways() {
    assert_eq!(chars_of("añb"), vec!['a', 'ñ', 'b']);
    assert_eq!(chars_of(""), Vec::<char>::new());
    assert_eq!(string_of(&vec!['x', 'ö', 'z']), "xöz");
    assert_eq!(string_of(&Vec::new()), "");
}

#[test]
fn beginnings_and_ends() {
    let word = chars_of("hello");
    assert!(starts_with(&word, &chars_of("he")));
    assert!(starts_with(&word, &chars_of("")));
    assert!(starts_with(&word, &word));
    assert!(!starts_with(&word, &chars_of("lo")));
    assert!(!starts_with(&word, &chars_of("hello!")));
    assert!(ends_with(&word, &chars_of("lo")));
    assert!(ends_with(&word, &chars_of("")));
    assert!(ends_with(&word, &word));
    assert!(!ends_with(&word, &chars_of("he")));
    assert!(!ends_with(&word, &chars_of("xhello")));
}

#[test]
fn same_text_compares_all_characters() {
    assert!(same_text("Escape", "Escape"));
    assert!(same_text("", ""));
    assert!(!same_text("Escape", "Escap"));
    assert!(!same_text("Escape", "escape"));
    assert!(!same_text("a", "b"));
}

#[test]
fn holds_symbol_looks_at_every_symbol() {
    let symbols = chars_of("asdf");
    assert!(holds_symbol(&symbols, 'a'));
    assert!(holds_symbol(&symbols, 'f'));
    assert!(!holds_symbol(&symbols, 'x'));
    assert!(!holds_symbol(&Vec::new(), 'a'));
}
